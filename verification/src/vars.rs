//! Variables and variable markers: a marker is the tuple `(var key)`, whose first element is the
//! symbol `var`; `vars_to_indices` writes every variable as a marker with a decimal index, and
//! `indices_to_vars` turns markers back into variables.
use vstd::prelude::*;

use crate::error::HelperError;
use crate::expr::{
    all_ok, bal, bytes_eq, complete, encode, encode_range, encode_tokens, expr_tokens, forest,
    is_expr, law_encode_scan, law_scan_encode, lemma_bal_push, lemma_complete_skip,
    lemma_forest_after_complete, lemma_forest_cons, lemma_seg_end, lemma_seg_end_forest, seg_end, tok_bytes, tok_ok,
    toks, toks_of, tree_end, weight, scan, spec_byte_item, Tag, Tok, Token,
};
use crate::normalize::{
    bytes_res, copy_token, is_var_tok, lemma_newvars_push, newvars, prepend_res, toks_res,
};

verus! {

/// The bytes of the symbol `var`.
pub open spec fn var_word() -> Seq<u8> {
    seq![118u8, 97u8, 114u8]
}

/// A marker `(var key)` starts at item `i`.
pub open spec fn marker_at(ts: Seq<Tok>, i: int) -> bool {
    &&& 0 <= i
    &&& i + 1 < ts.len()
    &&& ts[i] == Tok::Arity(2)
    &&& ts[i + 1] == Tok::Sym(var_word())
}

/// The decimal digits of `n`.
pub open spec fn decimal(n: nat) -> Seq<u8>
    decreases n,
{
    if n < 10 {
        seq![(48 + n) as u8]
    } else {
        decimal(n / 10) + seq![(48 + n % 10) as u8]
    }
}

/// The marker `(var k)` with `k` written in decimal.
pub open spec fn marker(k: nat) -> Seq<Tok> {
    seq![Tok::Arity(2), Tok::Sym(var_word()), Tok::Sym(decimal(k))]
}

proof fn lemma_decimal_len(n: nat)
    requires
        n < 100,
    ensures
        1 <= decimal(n).len() <= 2,
{
    if n >= 10 {
        assert(decimal(n / 10) == seq![(48 + n / 10) as u8]);
    }
}

/// Different numbers below 100 have different decimal digits.
proof fn lemma_decimal_injective(a: nat, b: nat)
    requires
        a < 100,
        b < 100,
        decimal(a) == decimal(b),
    ensures
        a == b,
{
    if a < 10 && b >= 10 {
        lemma_decimal_len(b / 10);
        assert(decimal(b).len() == 2);
    } else if b < 10 && a >= 10 {
        lemma_decimal_len(a / 10);
        assert(decimal(a).len() == 2);
    } else if a >= 10 && b >= 10 {
        assert(decimal(a / 10) == seq![(48 + a / 10) as u8]);
        assert(decimal(b / 10) == seq![(48 + b / 10) as u8]);
        assert(decimal(a)[0] == decimal(b)[0]);
        assert(decimal(a)[1] == decimal(b)[1]);
        assert(decimal(a)[0] == (48 + a / 10) as u8);
        assert(decimal(b)[0] == (48 + b / 10) as u8);
        assert(decimal(a)[1] == (48 + a % 10) as u8);
        assert(decimal(b)[1] == (48 + b % 10) as u8);
        assert(a / 10 == b / 10);
        assert(a % 10 == b % 10);
        assert(a == 10 * (a / 10) + a % 10);
        assert(b == 10 * (b / 10) + b % 10);
    } else {
        assert(decimal(a)[0] == decimal(b)[0]);
        assert(decimal(a)[0] == (48 + a) as u8);
        assert(decimal(b)[0] == (48 + b) as u8);
    }
}

/// The decimal digits of a byte.
pub fn decimal_bytes(n: u8) -> (r: Vec<u8>)
    ensures
        r@ == decimal(n as nat),
{
    if n < 10 {
        vec![48 + n]
    } else if n < 100 {
        assert(decimal((n / 10) as nat) == seq![(48 + n / 10) as u8]);
        vec![48 + n / 10, 48 + n % 10]
    } else {
        assert(decimal((n / 100) as nat) == seq![(48 + n / 100) as u8]);
        assert((n / 10) as nat / 10 == (n / 100) as nat);
        assert(decimal((n / 10) as nat) == seq![(48 + n / 100) as u8, (48 + (n / 10) % 10) as u8]);
        vec![48 + n / 100, 48 + (n / 10) % 10, 48 + n % 10]
    }
}

pub fn var_word_bytes() -> (r: Vec<u8>)
    ensures
        r@ == var_word(),
{
    vec![118u8, 97u8, 114u8]
}

/// Whether a marker starts at item `i`.
pub fn is_marker_at(v: &Vec<Token>, i: usize) -> (r: bool)
    requires
        i < v@.len(),
    ensures
        r == marker_at(toks_of(v@), i as int),
{
    if i >= v.len() - 1 {
        return false;
    }
    let ghost ts = toks_of(v@);
    assert(ts[i as int] == v@[i as int]@);
    assert(ts[i + 1] == v@[i + 1]@);
    let first = match &v[i] {
        Token::Arity(a) => *a == 2,
        _ => false,
    };
    if !first {
        return false;
    }
    let w = var_word_bytes();
    match &v[i + 1] {
        Token::Sym(b) => bytes_eq(b.as_slice(), w.as_slice()),
        _ => false,
    }
}

/// A marker inside an expression has a key: the expression after `var` ends inside it.
proof fn lemma_marker_key(ts: Seq<Tok>, i: int)
    requires
        complete(ts),
        marker_at(ts, i),
    ensures
        i + 2 < ts.len(),
        forest(ts.skip(i + 2), 1 + bal(ts.take(i + 2))),
        1 + bal(ts.take(i + 2)) >= 1,
{
    assert(ts.take(i + 1) == ts.take(i).push(ts[i]));
    assert(ts.take(i + 2) == ts.take(i + 1).push(ts[i + 1]));
    lemma_bal_push(ts.take(i), ts[i]);
    lemma_bal_push(ts.take(i + 1), ts[i + 1]);
    assert(bal(ts.take(i)) > -1);
    if i + 2 == ts.len() {
        assert(ts.take(i + 2) == ts);
        assert(false);
    }
    lemma_complete_skip(ts, i + 2);
}

// ---------------------------------------------------------------- is_var / is_exp

/// The expression is a variable or a marker.
pub open spec fn spec_is_var(ts: Seq<Tok>) -> bool {
    ts.len() > 0 && (is_var_tok(ts[0]) || marker_at(ts, 0))
}

/// The expression is a tuple that is not a marker.
pub open spec fn spec_is_exp(ts: Seq<Tok>) -> bool {
    ts.len() > 0 && ts[0] is Arity && !spec_is_var(ts)
}

/// The one-byte symbol that holds a boolean (`0` or `1`).
pub open spec fn bool_expr(b: bool) -> Seq<u8> {
    encode(seq![Tok::Sym(seq![if b { 1u8 } else { 0u8 }])])
}

pub fn bool_symbol(b: bool) -> (r: Vec<u8>)
    ensures
        r@ == bool_expr(b),
        is_expr(r@),
{
    let x: u8 = if b { 1 } else { 0 };
    let ghost ts = seq![Tok::Sym(seq![x])];
    proof {
        assert(ts.drop_first() == Seq::<Tok>::empty());
        assert(encode(ts) == tok_bytes(ts[0]) + encode(ts.drop_first()));
        law_scan_encode(ts);
        assert(bal(ts) == weight(ts[0]) + bal(ts.drop_first()));
        assert(ts.take(0) == Seq::<Tok>::empty());
    }
    let r = vec![0xc1u8, x];
    assert(r@ == encode(ts));
    r
}

/// Whether an expression is a variable, or a marker `(var key)`.
pub fn expr_is_var(arg: &[u8]) -> (r: bool)
    requires
        is_expr(arg@),
    ensures
        r == spec_is_var(toks(arg@)),
{
    let v = expr_tokens(arg);
    let ghost ts = toks_of(v@);
    assert(ts.len() > 0) by {
        if ts.len() == 0 {
            assert(bal(ts) == 0);
        }
    }
    assert(ts[0] == v@[0]@);
    let raw = match &v[0] {
        Token::NewVar => true,
        Token::VarRef(_) => true,
        _ => false,
    };
    raw || is_marker_at(&v, 0)
}

/// Whether an expression is a tuple other than a marker.
pub fn expr_is_exp(arg: &[u8]) -> (r: bool)
    requires
        is_expr(arg@),
    ensures
        r == spec_is_exp(toks(arg@)),
{
    let v = expr_tokens(arg);
    let ghost ts = toks_of(v@);
    assert(ts.len() > 0) by {
        if ts.len() == 0 {
            assert(bal(ts) == 0);
        }
    }
    assert(ts[0] == v@[0]@);
    let compound = match &v[0] {
        Token::Arity(_) => true,
        _ => false,
    };
    compound && !expr_is_var(arg)
}

/// The symbol `1` where the argument is a variable or a marker, else `0`.
pub fn is_var(arg: &[u8]) -> (r: Vec<u8>)
    requires
        is_expr(arg@),
    ensures
        r@ == bool_expr(spec_is_var(toks(arg@))),
        is_expr(r@),
{
    bool_symbol(expr_is_var(arg))
}

/// The symbol `1` where the argument is a tuple other than a marker, else `0`.
pub fn is_exp(arg: &[u8]) -> (r: Vec<u8>)
    requires
        is_expr(arg@),
    ensures
        r@ == bool_expr(spec_is_exp(toks(arg@))),
        is_expr(r@),
{
    bool_symbol(expr_is_exp(arg))
}

/// The key of the marker that an expression is, if it is one.
pub fn var_marker_key(arg: &[u8]) -> (r: Option<Vec<u8>>)
    requires
        is_expr(arg@),
    ensures
        match r {
            Some(k) => marker_at(toks(arg@), 0) && k@ == encode(
                toks(arg@).subrange(2, seg_end(toks(arg@), 2, 1)),
            ),
            None => !marker_at(toks(arg@), 0),
        },
{
    let v = expr_tokens(arg);
    let ghost ts = toks_of(v@);
    assert(ts.len() > 0) by {
        if ts.len() == 0 {
            assert(bal(ts) == 0);
        }
    }
    if !is_marker_at(&v, 0) {
        return None;
    }
    proof {
        lemma_marker_key(ts, 0);
    }
    let e = tree_end(&v, 2, Ghost(1 + bal(ts.take(2))));
    proof {
        lemma_seg_end(ts, 2, e as int);
    }
    Some(encode_range(&v, 2, e))
}

/// The bytes start with the marker head: a pair whose first element is the symbol `var`.
pub open spec fn marker_head(s: Seq<u8>) -> bool {
    &&& s.len() >= 5
    &&& s[0] == 2
    &&& s[1] == 0xc3
    &&& s[2] == 118
    &&& s[3] == 97
    &&& s[4] == 114
}

/// What the first bytes of an expression say about its first two items.
proof fn lemma_first_items(s: Seq<u8>)
    requires
        is_expr(s),
    ensures
        s.len() > 0,
        toks(s).len() > 0,
        toks(s)[0] is NewVar <==> s[0] == 0xc0,
        toks(s)[0] is VarRef <==> 0x80 <= s[0] < 0xc0,
        toks(s)[0] is Arity <==> s[0] < 0x40,
        marker_at(toks(s), 0) <==> marker_head(s),
{
    let ts = toks(s);
    if s.len() == 0 {
        assert(ts.len() == 0);
        assert(bal(ts) == 0);
    }
    if ts.len() == 0 {
        assert(bal(ts) == 0);
    }
    let rest = s.skip(1);
    match spec_byte_item(s[0]) {
        Some(Tag::SymbolSize(n)) => {
            assert(ts[0] == Tok::Sym(s.subrange(1, 1 + n)));
        },
        Some(Tag::Arity(a)) => {
            let r = scan(rest).unwrap();
            assert(ts == seq![Tok::Arity(a)] + r);
            if a == 2 {
                assert(ts.len() >= 2) by {
                    if ts.len() == 1 {
                        assert(bal(ts) == 1 + bal(ts.drop_first()));
                        assert(ts.drop_first().len() == 0);
                    }
                }
                assert(ts[1] == r[0]);
                assert(rest.len() > 0);
                assert(rest[0] == s[1]);
                match spec_byte_item(rest[0]) {
                    Some(Tag::SymbolSize(n)) => {
                        assert(r[0] == Tok::Sym(rest.subrange(1, 1 + n)));
                        assert(rest.subrange(1, 1 + n) == s.subrange(2, 2 + n));
                        if r[0] == Tok::Sym(var_word()) {
                            assert(s.subrange(2, 2 + n).len() == 3);
                            assert(s[2] == s.subrange(2, 2 + n)[0]);
                            assert(s[3] == s.subrange(2, 2 + n)[1]);
                            assert(s[4] == s.subrange(2, 2 + n)[2]);
                        }
                        if marker_head(s) {
                            assert(n == 3);
                            assert(s.subrange(2, 5) == var_word());
                        }
                    },
                    Some(Tag::NewVar) => {
                        assert(r[0] == Tok::NewVar);
                    },
                    Some(Tag::VarRef(i)) => {
                        assert(r[0] == Tok::VarRef(i));
                    },
                    Some(Tag::Arity(b)) => {
                        assert(r[0] == Tok::Arity(b));
                    },
                    None => {},
                }
            }
        },
        _ => {},
    }
}

/// `is_var` answers 1 exactly for an expression whose first byte is a new variable or a
/// reference, or that starts with the marker head `(var ...)`; any other expression, a tuple
/// with variables among its elements included, gives 0.
pub proof fn law_is_var_looks_at_the_head(s: Seq<u8>)
    requires
        is_expr(s),
    ensures
        spec_is_var(toks(s)) <==> (s[0] == 0xc0 || (0x80 <= s[0] < 0xc0) || marker_head(s)),
        bool_expr(spec_is_var(toks(s))) == bool_expr(
            s[0] == 0xc0 || (0x80 <= s[0] < 0xc0) || marker_head(s),
        ),
{
    lemma_first_items(s);
}

/// `is_exp` answers 1 exactly for an expression whose first byte is a tuple tag and that does
/// not start with the marker head, whatever its elements hold.
pub proof fn law_is_exp_looks_at_the_head(s: Seq<u8>)
    requires
        is_expr(s),
    ensures
        spec_is_exp(toks(s)) <==> (s[0] < 0x40 && !marker_head(s)),
        bool_expr(spec_is_exp(toks(s))) == bool_expr(s[0] < 0x40 && !marker_head(s)),
{
    lemma_first_items(s);
}

// ---------------------------------------------------------------- vars_to_indices

/// Writing the variables from item `i` on as markers, `intro` variables having been introduced.
/// A new variable gets the next index; a reference `i` gets index `i - 1`.
pub open spec fn v2i_from(ts: Seq<Tok>, i: int, intro: nat) -> Result<Seq<Tok>, HelperError>
    decreases ts.len() - i,
{
    if i < 0 || i >= ts.len() {
        Ok(seq![])
    } else {
        match ts[i] {
            Tok::NewVar => if intro >= 64 {
                Err(HelperError::VariableLimit)
            } else {
                prepend_res(marker(intro), v2i_from(ts, i + 1, intro + 1))
            },
            Tok::VarRef(x) => if x == 0 {
                Err(HelperError::VarRefOutside)
            } else {
                prepend_res(marker((x - 1) as nat), v2i_from(ts, i + 1, intro))
            },
            t => prepend_res(seq![t], v2i_from(ts, i + 1, intro)),
        }
    }
}

pub open spec fn v2i_spec(s: Seq<u8>) -> Result<Seq<u8>, HelperError> {
    match v2i_from(toks(s), 0, 0) {
        Ok(o) => Ok(encode(o)),
        Err(e) => Err(e),
    }
}

/// No item is a variable.
pub open spec fn ground(ts: Seq<Tok>) -> bool {
    forall|j: int| 0 <= j < ts.len() ==> !is_var_tok(#[trigger] ts[j])
}

proof fn lemma_marker_forest(k: nat, r: Seq<Tok>, m: int)
    requires
        m >= 1,
        forest(r, m - 1),
    ensures
        forest(marker(k) + r, m),
{
    let a = seq![Tok::Sym(decimal(k))] + r;
    lemma_forest_cons(Tok::Sym(decimal(k)), r, m);
    let b = seq![Tok::Sym(var_word())] + a;
    lemma_forest_cons(Tok::Sym(var_word()), a, m + 1);
    lemma_forest_cons(Tok::Arity(2), b, m);
    assert(marker(k) + r == seq![Tok::Arity(2)] + b);
}

/// What `vars_to_indices` writes for a forest is a forest of as many expressions, of valid
/// items, with no variable.
proof fn lemma_v2i_output(ts: Seq<Tok>, i: int, intro: nat, m: int)
    requires
        0 <= i <= ts.len(),
        all_ok(ts),
        forest(ts.skip(i), m),
        v2i_from(ts, i, intro) is Ok,
    ensures
        forest(v2i_from(ts, i, intro).unwrap(), m),
        all_ok(v2i_from(ts, i, intro).unwrap()),
        ground(v2i_from(ts, i, intro).unwrap()),
    decreases ts.len() - i,
{
    if i == ts.len() {
        assert(ts.skip(i).len() == 0);
        assert(bal(ts.skip(i)) == 0);
        assert(forest(Seq::<Tok>::empty(), 0)) by {
            assert(bal(Seq::<Tok>::empty()) == 0);
        }
    } else {
        let t = ts[i];
        assert(tok_ok(t));
        assert(ts.skip(i) == seq![t] + ts.skip(i + 1));
        lemma_forest_cons(t, ts.skip(i + 1), m);
        let out = v2i_from(ts, i, intro).unwrap();
        match t {
            Tok::NewVar => {
                lemma_v2i_output(ts, i + 1, intro + 1, m - 1);
                let r = v2i_from(ts, i + 1, intro + 1).unwrap();
                assert(out == marker(intro) + r);
                lemma_marker_forest(intro, r, m);
                lemma_decimal_len(intro);
                assert forall|j: int| 0 <= j < out.len() implies tok_ok(#[trigger] out[j])
                    && !is_var_tok(out[j]) by {
                    if j >= 3 {
                        assert(out[j] == r[j - 3]);
                    }
                }
            },
            Tok::VarRef(x) => {
                lemma_v2i_output(ts, i + 1, intro, m - 1);
                let r = v2i_from(ts, i + 1, intro).unwrap();
                assert(out == marker((x - 1) as nat) + r);
                lemma_marker_forest((x - 1) as nat, r, m);
                lemma_decimal_len((x - 1) as nat);
                assert forall|j: int| 0 <= j < out.len() implies tok_ok(#[trigger] out[j])
                    && !is_var_tok(out[j]) by {
                    if j >= 3 {
                        assert(out[j] == r[j - 3]);
                    }
                }
            },
            _ => {
                lemma_v2i_output(ts, i + 1, intro, m + weight(t));
                let r = v2i_from(ts, i + 1, intro).unwrap();
                assert(out == seq![t] + r);
                lemma_forest_cons(t, r, m);
                assert forall|j: int| 0 <= j < out.len() implies tok_ok(#[trigger] out[j])
                    && !is_var_tok(out[j]) by {
                    if j >= 1 {
                        assert(out[j] == r[j - 1]);
                    }
                }
            },
        }
    }
}

/// Appends the marker of index `k`.
fn push_marker(out: &mut Vec<Token>, k: u8)
    ensures
        toks_of(final(out)@) == toks_of(old(out)@) + marker(k as nat),
{
    out.push(Token::Arity(2));
    out.push(Token::Sym(var_word_bytes()));
    out.push(Token::Sym(decimal_bytes(k)));
    assert(toks_of(final(out)@) == toks_of(old(out)@) + marker(k as nat));
}

/// Writes every variable of a sequence of items as a marker.
pub fn vars_to_indices_tokens(v: &Vec<Token>) -> (r: Result<Vec<Token>, HelperError>)
    requires
        all_ok(toks_of(v@)),
    ensures
        toks_res(r) == v2i_from(toks_of(v@), 0, 0),
{
    let ghost ts = toks_of(v@);
    let mut out: Vec<Token> = Vec::new();
    let mut intro: u8 = 0;
    let mut i: usize = 0;
    proof {
        assert(toks_of(out@) == Seq::<Tok>::empty());
        if let Ok(o) = v2i_from(ts, 0, 0) {
            assert(Seq::<Tok>::empty() + o == o);
        }
    }
    while i < v.len()
        invariant
            ts == toks_of(v@),
            all_ok(ts),
            i <= v@.len(),
            intro <= 64,
            v2i_from(ts, 0, 0) == prepend_res(toks_of(out@), v2i_from(ts, i as int, intro as nat)),
        decreases v.len() - i,
    {
        let ghost before = toks_of(out@);
        let ghost intro0 = intro as nat;
        assert(ts[i as int] == v@[i as int]@);
        assert(tok_ok(ts[i as int]));
        let ghost piece: Seq<Tok>;
        match &v[i] {
            Token::NewVar => {
                if intro >= 64 {
                    return Err(HelperError::VariableLimit);
                }
                push_marker(&mut out, intro);
                proof {
                    piece = marker(intro0);
                }
                intro = intro + 1;
            },
            Token::VarRef(x) => {
                if *x == 0 {
                    return Err(HelperError::VarRefOutside);
                }
                push_marker(&mut out, *x - 1);
                proof {
                    piece = marker((*x - 1) as nat);
                }
            },
            other => {
                let t = copy_token(other);
                out.push(t);
                proof {
                    piece = seq![t@];
                    assert(toks_of(out@) == before.push(t@));
                    assert(before.push(t@) == before + piece);
                }
            },
        }
        proof {
            assert(toks_of(out@) == before + piece);
            assert(v2i_from(ts, i as int, intro0) == prepend_res(
                piece,
                v2i_from(ts, i + 1, intro as nat),
            ));
            if let Ok(r2) = v2i_from(ts, i + 1, intro as nat) {
                assert(before + (piece + r2) == (before + piece) + r2);
            }
        }
        i = i + 1;
    }
    proof {
        assert(toks_of(out@) + Seq::<Tok>::empty() == toks_of(out@));
    }
    Ok(out)
}

/// Writes every variable of an expression as a marker `(var i)`: the `n`-th new variable (from
/// 0) gets index `n`, a reference `i` gets index `i - 1`. Fails on a 65th new variable, and on a
/// reference `0`, which has no index to point to.
pub fn vars_to_indices(arg: &[u8]) -> (r: Result<Vec<u8>, HelperError>)
    requires
        is_expr(arg@),
    ensures
        bytes_res(r) == v2i_spec(arg@),
        r matches Ok(o) ==> is_expr(o@) && ground(toks(o@)),
{
    let v = expr_tokens(arg);
    match vars_to_indices_tokens(&v) {
        Ok(o) => {
            proof {
                let ts = toks(arg@);
                assert(ts.skip(0) == ts);
                lemma_v2i_output(ts, 0, 0, 1);
                law_scan_encode(toks_of(o@));
            }
            Ok(encode_tokens(&o))
        },
        Err(e) => Err(e),
    }
}


// ---------------------------------------------------------------- indices_to_vars

/// Turning the markers from item `i` on back into variables, `labels` holding the keys met so far
/// with their variables and `intro` counting the variables introduced. The first marker with a
/// key introduces a new variable, later ones refer to it; other items are kept, a new variable
/// counting towards the limit of 64.
pub open spec fn i2v_from(ts: Seq<Tok>, i: int, labels: Map<Seq<u8>, u8>, intro: nat) -> Result<
    Seq<Tok>,
    HelperError,
>
    decreases ts.len() - i,
{
    if i < 0 || i >= ts.len() {
        Ok(seq![])
    } else if marker_at(ts, i) && i + 2 < seg_end(ts, i + 2, 1) <= ts.len() {
        let e = seg_end(ts, i + 2, 1);
        let key = encode(ts.subrange(i + 2, e));
        if labels.contains_key(key) {
            prepend_res(seq![Tok::VarRef(labels[key])], i2v_from(ts, e, labels, intro))
        } else if intro >= 64 {
            Err(HelperError::VariableLimit)
        } else {
            prepend_res(
                seq![Tok::NewVar],
                i2v_from(ts, e, labels.insert(key, intro as u8), intro + 1),
            )
        }
    } else {
        match ts[i] {
            Tok::NewVar => if intro >= 64 {
                Err(HelperError::VariableLimit)
            } else {
                prepend_res(seq![Tok::NewVar], i2v_from(ts, i + 1, labels, intro + 1))
            },
            t => prepend_res(seq![t], i2v_from(ts, i + 1, labels, intro)),
        }
    }
}

pub open spec fn i2v_spec(s: Seq<u8>) -> Result<Seq<u8>, HelperError> {
    match i2v_from(toks(s), 0, Map::empty(), 0) {
        Ok(o) => Ok(encode(o)),
        Err(e) => Err(e),
    }
}

pub open spec fn labels_below(labels: Map<Seq<u8>, u8>, bound: nat) -> bool {
    forall|key: Seq<u8>| #[trigger] labels.contains_key(key) ==> labels[key] < bound
}

/// What `indices_to_vars` writes for a forest is a forest of as many expressions, of valid items.
proof fn lemma_i2v_output(ts: Seq<Tok>, i: int, labels: Map<Seq<u8>, u8>, intro: nat, m: int)
    requires
        0 <= i <= ts.len(),
        all_ok(ts),
        forest(ts.skip(i), m),
        labels_below(labels, 64),
        i2v_from(ts, i, labels, intro) is Ok,
    ensures
        forest(i2v_from(ts, i, labels, intro).unwrap(), m),
        all_ok(i2v_from(ts, i, labels, intro).unwrap()),
    decreases ts.len() - i,
{
    if i == ts.len() {
        assert(ts.skip(i).len() == 0);
        assert(bal(ts.skip(i)) == 0);
        assert(bal(Seq::<Tok>::empty()) == 0);
    } else {
        let out = i2v_from(ts, i, labels, intro).unwrap();
        let t = ts[i];
        assert(tok_ok(t));
        assert(ts.skip(i) == seq![t] + ts.skip(i + 1));
        lemma_forest_cons(t, ts.skip(i + 1), m);
        if marker_at(ts, i) && i + 2 < seg_end(ts, i + 2, 1) <= ts.len() {
            let e = seg_end(ts, i + 2, 1);
            let key = encode(ts.subrange(i + 2, e));
            assert(ts.skip(i + 1) == seq![ts[i + 1]] + ts.skip(i + 2));
            lemma_forest_cons(ts[i + 1], ts.skip(i + 2), m + 1);
            lemma_seg_end_forest(ts, i + 2, m);
            assert(ts.skip(i + 2) == ts.subrange(i + 2, e) + ts.skip(e));
            lemma_forest_after_complete(ts.subrange(i + 2, e), ts.skip(e), m);
            let (labels2, intro2) = if labels.contains_key(key) {
                (labels, intro)
            } else {
                (labels.insert(key, intro as u8), intro + 1)
            };
            assert(labels_below(labels2, 64));
            lemma_i2v_output(ts, e, labels2, intro2, m - 1);
            let r = i2v_from(ts, e, labels2, intro2).unwrap();
            let x = out[0];
            assert(out == seq![x] + r);
            assert(weight(x) == -1);
            lemma_forest_cons(x, r, m);
            assert(tok_ok(x));
            assert forall|j: int| 0 <= j < out.len() implies tok_ok(#[trigger] out[j]) by {
                if j >= 1 {
                    assert(out[j] == r[j - 1]);
                }
            }
        } else {
            let intro2 = if t is NewVar {
                intro + 1
            } else {
                intro
            };
            lemma_i2v_output(ts, i + 1, labels, intro2, m + weight(t));
            let r = i2v_from(ts, i + 1, labels, intro2).unwrap();
            assert(out == seq![t] + r);
            lemma_forest_cons(t, r, m);
            assert forall|j: int| 0 <= j < out.len() implies tok_ok(#[trigger] out[j]) by {
                if j >= 1 {
                    assert(out[j] == r[j - 1]);
                }
            }
        }
    }
}

/// `o` is the items of `ts` from `i` on with every marker `(var key)` replaced by a single
/// variable and every other item copied as it is.
pub open spec fn copies_outside_markers(ts: Seq<Tok>, i: int, o: Seq<Tok>) -> bool
    decreases ts.len() - i,
{
    if i < 0 || i >= ts.len() {
        o.len() == 0
    } else if marker_at(ts, i) && i + 2 < seg_end(ts, i + 2, 1) <= ts.len() {
        &&& o.len() > 0
        &&& is_var_tok(o[0])
        &&& copies_outside_markers(ts, seg_end(ts, i + 2, 1), o.drop_first())
    } else {
        &&& o.len() > 0
        &&& o[0] == ts[i]
        &&& copies_outside_markers(ts, i + 1, o.drop_first())
    }
}

proof fn lemma_i2v_copies(ts: Seq<Tok>, i: int, labels: Map<Seq<u8>, u8>, intro: nat)
    requires
        0 <= i,
        i2v_from(ts, i, labels, intro) is Ok,
    ensures
        copies_outside_markers(ts, i, i2v_from(ts, i, labels, intro).unwrap()),
    decreases ts.len() - i,
{
    if i < ts.len() {
        let out = i2v_from(ts, i, labels, intro).unwrap();
        if marker_at(ts, i) && i + 2 < seg_end(ts, i + 2, 1) <= ts.len() {
            let e = seg_end(ts, i + 2, 1);
            let key = encode(ts.subrange(i + 2, e));
            let (labels2, intro2) = if labels.contains_key(key) {
                (labels, intro)
            } else {
                (labels.insert(key, intro as u8), intro + 1)
            };
            lemma_i2v_copies(ts, e, labels2, intro2);
            let r = i2v_from(ts, e, labels2, intro2).unwrap();
            assert(out.drop_first() == r);
        } else {
            let intro2 = if ts[i] is NewVar {
                intro + 1
            } else {
                intro
            };
            lemma_i2v_copies(ts, i + 1, labels, intro2);
            let r = i2v_from(ts, i + 1, labels, intro2).unwrap();
            assert(out.drop_first() == r);
        }
    }
}

proof fn lemma_copies_no_markers(ts: Seq<Tok>, i: int, o: Seq<Tok>)
    requires
        0 <= i <= ts.len(),
        no_markers(ts),
        copies_outside_markers(ts, i, o),
    ensures
        o == ts.skip(i),
    decreases ts.len() - i,
{
    if i < ts.len() {
        assert(!marker_at(ts, i));
        lemma_copies_no_markers(ts, i + 1, o.drop_first());
        assert(o == seq![o[0]] + o.drop_first());
        assert(ts.skip(i) == seq![ts[i]] + ts.skip(i + 1));
    } else {
        assert(ts.skip(i).len() == 0);
    }
}

/// `indices_to_vars` keeps every item that is not part of a marker `(var key)` as it is and
/// puts a single variable in the place of each marker; an expression with no marker comes
/// back byte for byte.
pub proof fn law_indices_to_vars_copies_other_items(s: Seq<u8>)
    requires
        is_expr(s),
        i2v_spec(s) is Ok,
    ensures
        copies_outside_markers(toks(s), 0, toks(i2v_spec(s).unwrap())),
        no_markers(toks(s)) ==> i2v_spec(s).unwrap() == s,
{
    let ts = toks(s);
    law_encode_scan(s);
    assert(ts.skip(0) == ts);
    lemma_i2v_output(ts, 0, Map::empty(), 0, 1);
    let o = i2v_from(ts, 0, Map::empty(), 0).unwrap();
    law_scan_encode(o);
    lemma_i2v_copies(ts, 0, Map::empty(), 0);
    if no_markers(ts) {
        lemma_copies_no_markers(ts, 0, o);
    }
}

/// The number of the variable item `x`, written after `n` new variables: a new variable is
/// number `n`, a reference `m` is number `m`.
pub open spec fn var_number(x: Tok, n: nat) -> nat {
    match x {
        Tok::VarRef(m) => m as nat,
        _ => n,
    }
}

/// `o` is the items of `ts` from `i` on with every other item copied and every marker replaced by
/// the variable that `env` gives its key; `n` new variables come before `o`.
pub open spec fn labelled(ts: Seq<Tok>, i: int, o: Seq<Tok>, env: Map<Seq<u8>, u8>, n: nat) -> bool
    decreases ts.len() - i,
{
    if i < 0 || i >= ts.len() {
        o.len() == 0
    } else if marker_at(ts, i) && i + 2 < seg_end(ts, i + 2, 1) <= ts.len() {
        let key = encode(ts.subrange(i + 2, seg_end(ts, i + 2, 1)));
        &&& o.len() > 0
        &&& is_var_tok(o[0])
        &&& env.contains_key(key)
        &&& var_number(o[0], n) == env[key] as nat
        &&& labelled(
            ts,
            seg_end(ts, i + 2, 1),
            o.drop_first(),
            env,
            n + if o[0] is NewVar {
                1nat
            } else {
                0nat
            },
        )
    } else {
        &&& o.len() > 0
        &&& o[0] == ts[i]
        &&& labelled(
            ts,
            i + 1,
            o.drop_first(),
            env,
            n + if ts[i] is NewVar {
                1nat
            } else {
                0nat
            },
        )
    }
}

/// No two keys of `env` share a variable.
pub open spec fn keys_apart(env: Map<Seq<u8>, u8>) -> bool {
    forall|a: Seq<u8>, b: Seq<u8>|
        #[trigger] env.contains_key(a) && #[trigger] env.contains_key(b) && env[a] == env[b] ==> a
            == b
}

proof fn lemma_labelled_extend(
    ts: Seq<Tok>,
    i: int,
    o: Seq<Tok>,
    env: Map<Seq<u8>, u8>,
    env2: Map<Seq<u8>, u8>,
    n: nat,
)
    requires
        labelled(ts, i, o, env, n),
        forall|k: Seq<u8>| #[trigger] env.contains_key(k) ==> env2.contains_key(k) && env2[k] == env[k],
    ensures
        labelled(ts, i, o, env2, n),
    decreases ts.len() - i,
{
    if 0 <= i < ts.len() {
        if marker_at(ts, i) && i + 2 < seg_end(ts, i + 2, 1) <= ts.len() {
            let n2 = n + if o[0] is NewVar {
                1nat
            } else {
                0nat
            };
            lemma_labelled_extend(ts, seg_end(ts, i + 2, 1), o.drop_first(), env, env2, n2);
        } else {
            let n2 = n + if ts[i] is NewVar {
                1nat
            } else {
                0nat
            };
            lemma_labelled_extend(ts, i + 1, o.drop_first(), env, env2, n2);
        }
    }
}

proof fn lemma_i2v_labelled(ts: Seq<Tok>, i: int, labels: Map<Seq<u8>, u8>, intro: nat) -> (env: Map<
    Seq<u8>,
    u8,
>)
    requires
        0 <= i,
        keys_apart(labels),
        labels_below(labels, intro),
        i2v_from(ts, i, labels, intro) is Ok,
    ensures
        keys_apart(env),
        forall|k: Seq<u8>| #[trigger] labels.contains_key(k) ==> env.contains_key(k) && env[k] == labels[k],
        labelled(ts, i, i2v_from(ts, i, labels, intro).unwrap(), env, intro),
    decreases ts.len() - i,
{
    if i >= ts.len() {
        labels
    } else {
        let out = i2v_from(ts, i, labels, intro).unwrap();
        if marker_at(ts, i) && i + 2 < seg_end(ts, i + 2, 1) <= ts.len() {
            let e = seg_end(ts, i + 2, 1);
            let key = encode(ts.subrange(i + 2, e));
            if labels.contains_key(key) {
                let env = lemma_i2v_labelled(ts, e, labels, intro);
                assert(out.drop_first() == i2v_from(ts, e, labels, intro).unwrap());
                env
            } else {
                let labels2 = labels.insert(key, intro as u8);
                assert(keys_apart(labels2)) by {
                    assert forall|a: Seq<u8>, b: Seq<u8>|
                        #[trigger] labels2.contains_key(a) && #[trigger] labels2.contains_key(b)
                            && labels2[a] == labels2[b] implies a == b by {
                        if a != key && b == key {
                            assert(labels[a] < intro);
                        } else if a == key && b != key {
                            assert(labels[b] < intro);
                        }
                    }
                }
                assert(labels_below(labels2, intro + 1)) by {
                    assert forall|k: Seq<u8>| #[trigger] labels2.contains_key(k) implies labels2[k]
                        < intro + 1 by {
                        if k != key {
                            assert(labels[k] < intro);
                        }
                    }
                }
                let env = lemma_i2v_labelled(ts, e, labels2, intro + 1);
                assert(out.drop_first() == i2v_from(ts, e, labels2, intro + 1).unwrap());
                assert(labels2.contains_key(key));
                assert(labels2[key] == intro as u8);
                assert(env.contains_key(key) && env[key] == intro as u8);
                assert forall|k: Seq<u8>| #[trigger] labels.contains_key(k) implies env.contains_key(
                    k,
                ) && env[k] == labels[k] by {
                    assert(labels2.contains_key(k));
                    assert(labels2[k] == labels[k]);
                }
                env
            }
        } else {
            let intro2 = if ts[i] is NewVar {
                intro + 1
            } else {
                intro
            };
            assert(labels_below(labels, intro2)) by {
                assert forall|k: Seq<u8>| #[trigger] labels.contains_key(k) implies labels[k]
                    < intro2 by {}
            }
            let env = lemma_i2v_labelled(ts, i + 1, labels, intro2);
            assert(out.drop_first() == i2v_from(ts, i + 1, labels, intro2).unwrap());
            env
        }
    }
}

/// `indices_to_vars` gives every key one variable, different keys different variables: there
/// is a one-to-one assignment of variables to keys such that the result copies every item that
/// is not part of a marker and puts in the place of each marker the variable of its key.
pub proof fn law_indices_to_vars_one_variable_per_key(s: Seq<u8>)
    requires
        is_expr(s),
        i2v_spec(s) is Ok,
    ensures
        exists|env: Map<Seq<u8>, u8>|
            keys_apart(env) && labelled(toks(s), 0, toks(i2v_spec(s).unwrap()), env, 0),
{
    let ts = toks(s);
    law_encode_scan(s);
    assert(ts.skip(0) == ts);
    lemma_i2v_output(ts, 0, Map::empty(), 0, 1);
    let o = i2v_from(ts, 0, Map::empty(), 0).unwrap();
    law_scan_encode(o);
    let env = lemma_i2v_labelled(ts, 0, Map::empty(), 0);
    assert(keys_apart(env) && labelled(ts, 0, o, env, 0));
}

/// The exec list of keys and their variables stands for `lmap`, whose variables are below `intro`.
pub open spec fn labels_inv(labels: Seq<(Vec<u8>, u8)>, lmap: Map<Seq<u8>, u8>, intro: nat) -> bool {
    &&& forall|j: int|
        0 <= j < labels.len() ==> lmap.contains_key((#[trigger] labels[j]).0@) && lmap[labels[j].0@]
            == labels[j].1
    &&& forall|key: Seq<u8>|
        #[trigger] lmap.contains_key(key) ==> exists|j: int|
            0 <= j < labels.len() && (#[trigger] labels[j]).0@ == key
    &&& labels_below(lmap, intro)
}

/// The variable given to a key, if any.
fn find_label(labels: &Vec<(Vec<u8>, u8)>, key: &[u8]) -> (r: Option<u8>)
    ensures
        match r {
            Some(x) => exists|j: int|
                0 <= j < labels@.len() && (#[trigger] labels@[j]).0@ == key@ && labels@[j].1 == x,
            None => forall|j: int| 0 <= j < labels@.len() ==> (#[trigger] labels@[j]).0@ != key@,
        },
{
    let mut j: usize = 0;
    while j < labels.len()
        invariant
            j <= labels@.len(),
            forall|q: int| 0 <= q < j ==> (#[trigger] labels@[q]).0@ != key@,
        decreases labels.len() - j,
    {
        if bytes_eq(labels[j].0.as_slice(), key) {
            assert(labels@[j as int].0@ == key@);
            return Some(labels[j].1);
        }
        j = j + 1;
    }
    None
}

/// Turns the markers of a sequence of items back into variables.
pub fn indices_to_vars_tokens(v: &Vec<Token>) -> (r: Result<Vec<Token>, HelperError>)
    requires
        complete(toks_of(v@)),
        all_ok(toks_of(v@)),
    ensures
        toks_res(r) == i2v_from(toks_of(v@), 0, Map::empty(), 0),
{
    let ghost ts = toks_of(v@);
    let n = v.len();
    let mut labels: Vec<(Vec<u8>, u8)> = Vec::new();
    let ghost mut lmap: Map<Seq<u8>, u8> = Map::empty();
    let mut intro: u8 = 0;
    let mut out: Vec<Token> = Vec::new();
    let mut i: usize = 0;
    proof {
        assert(toks_of(out@) == Seq::<Tok>::empty());
        if let Ok(o) = i2v_from(ts, 0, Map::empty(), 0) {
            assert(Seq::<Tok>::empty() + o == o);
        }
    }
    while i < n
        invariant
            n == v@.len(),
            ts == toks_of(v@),
            complete(ts),
            all_ok(ts),
            i <= n,
            intro <= 64,
            labels_inv(labels@, lmap, intro as nat),
            i2v_from(ts, 0, Map::empty(), 0) == prepend_res(
                toks_of(out@),
                i2v_from(ts, i as int, lmap, intro as nat),
            ),
        decreases n - i,
    {
        let ghost before = toks_of(out@);
        let ghost lmap0 = lmap;
        let ghost intro0 = intro as nat;
        let ghost i0 = i as int;
        let ghost piece: Seq<Tok>;
        assert(ts[i as int] == v@[i as int]@);
        assert(tok_ok(ts[i as int]));
        if is_marker_at(&v, i) {
            proof {
                lemma_marker_key(ts, i as int);
            }
            let e = tree_end(&v, i + 2, Ghost(1 + bal(ts.take(i + 2))));
            proof {
                lemma_seg_end(ts, i + 2, e as int);
            }
            let key = encode_range(&v, i + 2, e);
            let ghost kv = key@;
            match find_label(&labels, key.as_slice()) {
                Some(x) => {
                    out.push(Token::VarRef(x));
                    proof {
                        piece = seq![Tok::VarRef(x)];
                        let j = choose|j: int|
                            0 <= j < labels@.len() && (#[trigger] labels@[j]).0@ == kv
                                && labels@[j].1 == x;
                        assert(lmap.contains_key(kv));
                        assert(lmap[kv] == x);
                    }
                },
                None => {
                    if intro >= 64 {
                        proof {
                            if lmap.contains_key(kv) {
                                let j = choose|j: int|
                                    0 <= j < labels@.len() && (#[trigger] labels@[j]).0@ == kv;
                                assert(false);
                            }
                        }
                        return Err(HelperError::VariableLimit);
                    }
                    proof {
                        if lmap.contains_key(kv) {
                            let j = choose|j: int|
                                0 <= j < labels@.len() && (#[trigger] labels@[j]).0@ == kv;
                            assert(false);
                        }
                    }
                    let ghost old_labels = labels@;
                    labels.push((key, intro));
                    proof {
                        lmap = lmap.insert(kv, intro);
                        piece = seq![Tok::NewVar];
                        assert forall|j: int| 0 <= j < labels@.len() implies lmap.contains_key(
                            (#[trigger] labels@[j]).0@,
                        ) && lmap[labels@[j].0@] == labels@[j].1 by {
                            if j < old_labels.len() {
                                assert(labels@[j] == old_labels[j]);
                                assert(old_labels[j].0@ != kv);
                            }
                        }
                        assert forall|key2: Seq<u8>| #[trigger] lmap.contains_key(key2) implies exists|
                            j: int,
                        | 0 <= j < labels@.len() && (#[trigger] labels@[j]).0@ == key2 by {
                            if key2 == kv {
                                assert(labels@[old_labels.len() as int].0@ == kv);
                            } else {
                                assert(lmap0.contains_key(key2));
                                let j = choose|j: int|
                                    0 <= j < old_labels.len() && (#[trigger] old_labels[j]).0@
                                        == key2;
                                assert(labels@[j] == old_labels[j]);
                            }
                        }
                        assert forall|key2: Seq<u8>| #[trigger] lmap.contains_key(key2) implies lmap[key2]
                            < intro + 1 by {
                            if key2 != kv {
                                assert(lmap0.contains_key(key2));
                            }
                        }
                    }
                    out.push(Token::NewVar);
                    intro = intro + 1;
                },
            }
            i = e;
        } else {
            match &v[i] {
                Token::NewVar => {
                    if intro >= 64 {
                        return Err(HelperError::VariableLimit);
                    }
                    out.push(Token::NewVar);
                    proof {
                        piece = seq![Tok::NewVar];
                    }
                    intro = intro + 1;
                },
                other => {
                    let t = copy_token(other);
                    out.push(t);
                    proof {
                        piece = seq![t@];
                    }
                },
            }
            i = i + 1;
        }
        proof {
            assert(toks_of(out@) == before + piece);
            assert(i2v_from(ts, i0, lmap0, intro0) == prepend_res(
                piece,
                i2v_from(ts, i as int, lmap, intro as nat),
            ));
            if let Ok(r2) = i2v_from(ts, i as int, lmap, intro as nat) {
                assert(before + (piece + r2) == (before + piece) + r2);
            }
        }
    }
    proof {
        assert(toks_of(out@) + Seq::<Tok>::empty() == toks_of(out@));
    }
    Ok(out)
}

/// Turns every marker `(var key)` of an expression back into a variable: the first marker with
/// a given key introduces a new variable, later markers with that key refer to it. Other items
/// are kept. Fails where more than 64 variables would be introduced, new variables of the
/// argument included.
pub fn indices_to_vars(arg: &[u8]) -> (r: Result<Vec<u8>, HelperError>)
    requires
        is_expr(arg@),
    ensures
        bytes_res(r) == i2v_spec(arg@),
        r matches Ok(o) ==> is_expr(o@),
{
    let v = expr_tokens(arg);
    match indices_to_vars_tokens(&v) {
        Ok(o) => {
            proof {
                let ts = toks(arg@);
                assert(ts.skip(0) == ts);
                lemma_i2v_output(ts, 0, Map::empty(), 0, 1);
                law_scan_encode(toks_of(o@));
            }
            Ok(encode_tokens(&o))
        },
        Err(e) => Err(e),
    }
}

// ---------------------------------------------------------------- the two directions together

/// The bytes of the key of marker `(var k)`.
pub open spec fn key_bytes(k: nat) -> Seq<u8> {
    encode(seq![Tok::Sym(decimal(k))])
}

/// The keys of the first `c` markers, each with its variable.
pub open spec fn labels_upto(c: nat) -> Map<Seq<u8>, u8>
    decreases c,
{
    if c == 0 {
        Map::empty()
    } else {
        labels_upto((c - 1) as nat).insert(key_bytes((c - 1) as nat), (c - 1) as u8)
    }
}

proof fn lemma_key_bytes_injective(a: nat, b: nat)
    requires
        a < 100,
        b < 100,
        key_bytes(a) == key_bytes(b),
    ensures
        a == b,
{
    let ta = seq![Tok::Sym(decimal(a))];
    let tb = seq![Tok::Sym(decimal(b))];
    assert(encode(ta) == tok_bytes(ta[0]) + encode(ta.drop_first()));
    assert(encode(tb) == tok_bytes(tb[0]) + encode(tb.drop_first()));
    assert(ta.drop_first().len() == 0);
    assert(tb.drop_first().len() == 0);
    assert(key_bytes(a).skip(1) == decimal(a));
    assert(key_bytes(b).skip(1) == decimal(b));
    lemma_decimal_injective(a, b);
}

proof fn lemma_labels_upto(c: nat, k: nat)
    requires
        c <= 64,
        k < 100,
    ensures
        labels_upto(c).contains_key(key_bytes(k)) <==> k < c,
        k < c ==> labels_upto(c)[key_bytes(k)] == k as u8,
    decreases c,
{
    if c > 0 {
        lemma_labels_upto((c - 1) as nat, k);
        if key_bytes(k) == key_bytes((c - 1) as nat) {
            lemma_key_bytes_injective(k, (c - 1) as nat);
        }
    }
}

/// A reference `x` read as a reference to variable `x - 1`.
pub open spec fn shift_ref(t: Tok) -> Tok {
    match t {
        Tok::VarRef(x) => Tok::VarRef((x - 1) as u8),
        _ => t,
    }
}

pub open spec fn shift_refs(ts: Seq<Tok>) -> Seq<Tok> {
    ts.map_values(|t: Tok| shift_ref(t))
}

/// Every reference `x` is at least 1 and `x - 1` names a variable introduced before it.
pub open spec fn refs_introduced(ts: Seq<Tok>) -> bool {
    forall|j: int|
        0 <= j < ts.len() ==> (#[trigger] ts[j] matches Tok::VarRef(x) ==> 1 <= x && x - 1 < newvars(
            ts.take(j),
        ))
}

/// No tuple `(var ...)` occurs.
pub open spec fn no_markers(ts: Seq<Tok>) -> bool {
    forall|j: int| 0 <= j < ts.len() ==> !#[trigger] marker_at(ts, j)
}

proof fn lemma_roundtrip_from(ts: Seq<Tok>, i: int, pre: Seq<Tok>)
    requires
        0 <= i <= ts.len(),
        all_ok(ts),
        refs_introduced(ts),
        no_markers(ts),
        newvars(ts.take(i)) <= 64,
        v2i_from(ts, i, newvars(ts.take(i))) is Ok,
    ensures
        i2v_from(
            pre + v2i_from(ts, i, newvars(ts.take(i))).unwrap(),
            pre.len() as int,
            labels_upto(newvars(ts.take(i))),
            newvars(ts.take(i)),
        ) == Ok::<Seq<Tok>, HelperError>(shift_refs(ts.skip(i))),
    decreases ts.len() - i,
{
    let c = newvars(ts.take(i));
    let rest = v2i_from(ts, i, c).unwrap();
    let o = pre + rest;
    let p = pre.len() as int;
    if i == ts.len() {
        assert(rest.len() == 0);
        assert(shift_refs(ts.skip(i)) =~= Seq::<Tok>::empty());
    } else {
        let t = ts[i];
        assert(tok_ok(t));
        assert(ts.take(i + 1) == ts.take(i).push(t));
        lemma_newvars_push(ts.take(i), t);
        let c2 = newvars(ts.take(i + 1));
        let block = if is_var_tok(t) {
            match t {
                Tok::VarRef(x) => marker((x - 1) as nat),
                _ => marker(c),
            }
        } else {
            seq![t]
        };
        let rest2 = v2i_from(ts, i + 1, c2).unwrap();
        assert(rest == block + rest2);
        let pre2 = pre + block;
        assert(o == pre2 + rest2);
        lemma_roundtrip_from(ts, i + 1, pre2);
        let tail = shift_refs(ts.skip(i + 1));
        assert(shift_refs(ts.skip(i)) == seq![shift_ref(t)] + tail) by {
            assert(ts.skip(i) == seq![t] + ts.skip(i + 1));
            assert(shift_refs(ts.skip(i)) =~= seq![shift_ref(t)] + tail);
        }
        if is_var_tok(t) {
            let k: nat = match t {
                Tok::VarRef(x) => (x - 1) as nat,
                _ => c,
            };
            assert(block == marker(k));
            assert(o[p] == Tok::Arity(2));
            assert(o[p + 1] == Tok::Sym(var_word()));
            assert(o[p + 2] == Tok::Sym(decimal(k)));
            assert(marker_at(o, p));
            assert(seg_end(o, p + 2, 1) == p + 3);
            assert(o.subrange(p + 2, p + 3) == seq![Tok::Sym(decimal(k))]);
            lemma_labels_upto(c, k);
            match t {
                Tok::VarRef(x) => {
                    assert(x - 1 < c);
                },
                _ => {
                    assert(c < 64);
                    assert(labels_upto(c).insert(key_bytes(c), c as u8) == labels_upto(c + 1));
                },
            }
        } else {
            assert(block == seq![t]);
            assert(o[p] == t);
            if marker_at(o, p) {
                assert(t == Tok::Arity(2));
                assert(p + 1 < o.len());
                assert(rest2.len() > 0);
                assert(o[p + 1] == rest2[0]);
                assert(i + 1 < ts.len());
                let u = ts[i + 1];
                if is_var_tok(u) {
                    assert(rest2[0] == Tok::Arity(2));
                } else {
                    assert(rest2[0] == u);
                    assert(marker_at(ts, i));
                }
                assert(false);
            }
        }
    }
}

/// Turning markers back into variables undoes writing variables as markers, up to the way
/// references are counted: `vars_to_indices` reads a reference `x` as variable `x - 1`, and
/// `indices_to_vars` writes variable `k` as reference `k`. So where every reference `x` names
/// a variable `x - 1` introduced before it and no `(var ...)` tuple occurs, the round trip gives
/// the expression with every reference lowered by one, and the expression itself where it has
/// no reference.
pub proof fn law_indices_to_vars_undoes_vars_to_indices(s: Seq<u8>)
    requires
        is_expr(s),
        v2i_spec(s) is Ok,
        refs_introduced(toks(s)),
        no_markers(toks(s)),
    ensures
        i2v_spec(v2i_spec(s).unwrap()) == Ok::<Seq<u8>, HelperError>(encode(shift_refs(toks(s)))),
        (forall|j: int| 0 <= j < toks(s).len() ==> !(#[trigger] toks(s)[j] is VarRef)) ==> i2v_spec(
            v2i_spec(s).unwrap(),
        ) == Ok::<Seq<u8>, HelperError>(s),
{
    let ts = toks(s);
    law_encode_scan(s);
    assert(ts.skip(0) == ts);
    lemma_v2i_output(ts, 0, 0, 1);
    let o = v2i_from(ts, 0, 0).unwrap();
    law_scan_encode(o);
    assert(ts.take(0) == Seq::<Tok>::empty());
    assert(newvars(ts.take(0)) == 0);
    assert(labels_upto(0) == Map::<Seq<u8>, u8>::empty());
    lemma_roundtrip_from(ts, 0, Seq::<Tok>::empty());
    assert(Seq::<Tok>::empty() + o == o);
    if forall|j: int| 0 <= j < ts.len() ==> !(#[trigger] ts[j] is VarRef) {
        assert(shift_refs(ts) =~= ts);
    }
}
} // verus!
