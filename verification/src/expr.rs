//! The byte encoding of expressions.
//!
//! An expression is written in prefix order, one item after another. The first
//! byte of every item is a tag:
//! - `0xc0` introduces a new variable;
//! - `0x80 + i` (`i < 64`) refers back to variable `i`;
//! - `0xc0 + n` (`1 <= n < 64`) starts a symbol whose `n` bytes follow;
//! - `a` (`a < 64`) starts a tuple of `a` expressions, which follow.
//!
//! Bytes `0x40..0x80` are reserved and never start an item.
use vstd::prelude::*;

verus! {

/// The meaning of the first byte of an item.
#[derive(Debug, Clone, Copy, PartialEq, Eq, Structural)]
pub enum Tag {
    NewVar,
    VarRef(u8),
    SymbolSize(u8),
    Arity(u8),
}

/// What a byte says as the first byte of an item (`None` for a reserved byte).
pub open spec fn spec_byte_item(b: u8) -> Option<Tag> {
    if b == 0xc0 {
        Some(Tag::NewVar)
    } else if b > 0xc0 {
        Some(Tag::SymbolSize((b - 0xc0) as u8))
    } else if b >= 0x80 {
        Some(Tag::VarRef((b - 0x80) as u8))
    } else if b < 0x40 {
        Some(Tag::Arity(b))
    } else {
        None
    }
}

/// The tags that one byte can hold.
pub open spec fn tag_ok(t: Tag) -> bool {
    match t {
        Tag::NewVar => true,
        Tag::VarRef(i) => i < 64,
        Tag::SymbolSize(n) => 1 <= n < 64,
        Tag::Arity(a) => a < 64,
    }
}

/// The byte that holds a tag.
pub open spec fn spec_item_byte(t: Tag) -> u8 {
    match t {
        Tag::NewVar => 0xc0u8,
        Tag::VarRef(i) => (0x80 + i) as u8,
        Tag::SymbolSize(n) => (0xc0 + n) as u8,
        Tag::Arity(a) => a,
    }
}

/// Reads the tag of a byte.
pub fn byte_item(b: u8) -> (r: Option<Tag>)
    ensures
        r == spec_byte_item(b),
{
    if b == 0xc0 {
        Some(Tag::NewVar)
    } else if b > 0xc0 {
        Some(Tag::SymbolSize(b - 0xc0))
    } else if b >= 0x80 {
        Some(Tag::VarRef(b - 0x80))
    } else if b < 0x40 {
        Some(Tag::Arity(b))
    } else {
        None
    }
}

/// Writes a tag as a byte.
pub fn item_byte(t: Tag) -> (r: u8)
    requires
        tag_ok(t),
    ensures
        r == spec_item_byte(t),
{
    match t {
        Tag::NewVar => 0xc0,
        Tag::VarRef(i) => 0x80 + i,
        Tag::SymbolSize(n) => 0xc0 + n,
        Tag::Arity(a) => a,
    }
}

/// Reading back a written tag gives the tag; writing a read tag gives the byte.
pub proof fn law_tag_byte_roundtrip(t: Tag, b: u8)
    ensures
        tag_ok(t) ==> spec_byte_item(spec_item_byte(t)) == Some(t),
        spec_byte_item(b) matches Some(u) ==> tag_ok(u) && spec_item_byte(u) == b,
{
}

/// One item of an expression.
pub enum Tok {
    NewVar,
    VarRef(u8),
    Sym(Seq<u8>),
    Arity(u8),
}

/// The items that the encoding can hold.
pub open spec fn tok_ok(t: Tok) -> bool {
    match t {
        Tok::NewVar => true,
        Tok::VarRef(i) => i < 64,
        Tok::Sym(b) => 1 <= b.len() < 64,
        Tok::Arity(a) => a < 64,
    }
}

pub open spec fn all_ok(ts: Seq<Tok>) -> bool {
    forall|i: int| 0 <= i < ts.len() ==> tok_ok(#[trigger] ts[i])
}

/// The bytes of one item.
pub open spec fn tok_bytes(t: Tok) -> Seq<u8> {
    match t {
        Tok::NewVar => seq![0xc0u8],
        Tok::VarRef(i) => seq![(0x80 + i) as u8],
        Tok::Sym(b) => seq![(0xc0 + b.len()) as u8] + b,
        Tok::Arity(a) => seq![a],
    }
}

/// The bytes of a sequence of items.
pub open spec fn encode(ts: Seq<Tok>) -> Seq<u8>
    decreases ts.len(),
{
    if ts.len() == 0 {
        seq![]
    } else {
        tok_bytes(ts[0]) + encode(ts.drop_first())
    }
}

pub open spec fn cons(t: Tok, r: Option<Seq<Tok>>) -> Option<Seq<Tok>> {
    match r {
        Some(ts) => Some(seq![t] + ts),
        None => None,
    }
}

/// Splits a byte string into items (`None` where a byte is reserved or a symbol is cut short).
pub open spec fn scan(s: Seq<u8>) -> Option<Seq<Tok>>
    decreases s.len(),
{
    if s.len() == 0 {
        Some(seq![])
    } else {
        match spec_byte_item(s[0]) {
            None => None,
            Some(Tag::NewVar) => cons(Tok::NewVar, scan(s.skip(1))),
            Some(Tag::VarRef(i)) => cons(Tok::VarRef(i), scan(s.skip(1))),
            Some(Tag::Arity(a)) => cons(Tok::Arity(a), scan(s.skip(1))),
            Some(Tag::SymbolSize(n)) => if 1 + n <= s.len() {
                cons(Tok::Sym(s.subrange(1, 1 + n)), scan(s.skip(1 + n)))
            } else {
                None
            },
        }
    }
}

/// How an item changes the number of expressions still owed: a tuple of `a` owes `a` more and
/// settles itself, every other item settles itself.
pub open spec fn weight(t: Tok) -> int {
    match t {
        Tok::Arity(a) => a - 1,
        _ => -1,
    }
}

pub open spec fn bal(ts: Seq<Tok>) -> int
    decreases ts.len(),
{
    if ts.len() == 0 {
        0
    } else {
        weight(ts[0]) + bal(ts.drop_first())
    }
}

/// `ts` is exactly `m` whole expressions, one after another.
pub open spec fn forest(ts: Seq<Tok>, m: int) -> bool {
    &&& bal(ts) == -m
    &&& forall|k: int| 0 <= k < ts.len() ==> bal(#[trigger] ts.take(k)) > -m
}

/// `ts` is exactly one whole expression.
pub open spec fn complete(ts: Seq<Tok>) -> bool {
    forest(ts, 1)
}

/// The bytes `s` are exactly one expression.
pub open spec fn is_expr(s: Seq<u8>) -> bool {
    match scan(s) {
        Some(ts) => complete(ts),
        None => false,
    }
}

/// The items of an expression; meaningful where `is_expr(s)`.
pub open spec fn toks(s: Seq<u8>) -> Seq<Tok> {
    scan(s).unwrap()
}

pub proof fn lemma_encode_concat(a: Seq<Tok>, b: Seq<Tok>)
    ensures
        encode(a + b) == encode(a) + encode(b),
    decreases a.len(),
{
    if a.len() == 0 {
        assert(a + b == b);
    } else {
        lemma_encode_concat(a.drop_first(), b);
        assert((a + b).drop_first() == a.drop_first() + b);
    }
}

pub proof fn lemma_encode_push(a: Seq<Tok>, t: Tok)
    ensures
        encode(a.push(t)) == encode(a) + tok_bytes(t),
{
    lemma_encode_concat(a, seq![t]);
    assert(a.push(t) == a + seq![t]);
    assert(encode(seq![t]) == tok_bytes(t) + encode(seq![t].drop_first()));
    assert(seq![t].drop_first().len() == 0);
}

pub proof fn lemma_bal_concat(a: Seq<Tok>, b: Seq<Tok>)
    ensures
        bal(a + b) == bal(a) + bal(b),
    decreases a.len(),
{
    if a.len() == 0 {
        assert(a + b == b);
    } else {
        lemma_bal_concat(a.drop_first(), b);
        assert((a + b).drop_first() == a.drop_first() + b);
    }
}

pub proof fn lemma_bal_push(a: Seq<Tok>, t: Tok)
    ensures
        bal(a.push(t)) == bal(a) + weight(t),
{
    lemma_bal_concat(a, seq![t]);
    assert(a.push(t) == a + seq![t]);
    assert(bal(seq![t]) == weight(t) + bal(seq![t].drop_first()));
}

/// Each item settles at most one expression.
pub proof fn lemma_bal_lower(ts: Seq<Tok>)
    ensures
        bal(ts) >= -ts.len(),
    decreases ts.len(),
{
    if ts.len() > 0 {
        lemma_bal_lower(ts.drop_first());
    }
}

pub proof fn lemma_bal_take_skip(ts: Seq<Tok>, k: int)
    requires
        0 <= k <= ts.len(),
    ensures
        bal(ts) == bal(ts.take(k)) + bal(ts.skip(k)),
{
    assert(ts == ts.take(k) + ts.skip(k));
    lemma_bal_concat(ts.take(k), ts.skip(k));
}

/// Decoding the encoding of valid items gives them back.
pub proof fn law_scan_encode(ts: Seq<Tok>)
    requires
        all_ok(ts),
    ensures
        scan(encode(ts)) == Some(ts),
    decreases ts.len(),
{
    if ts.len() > 0 {
        let t = ts[0];
        let rest = ts.drop_first();
        assert(all_ok(rest)) by {
            assert forall|i: int| 0 <= i < rest.len() implies tok_ok(#[trigger] rest[i]) by {
                assert(rest[i] == ts[i + 1]);
            }
        }
        law_scan_encode(rest);
        let s = encode(ts);
        let tb = tok_bytes(t);
        assert(s == tb + encode(rest));
        assert(tok_ok(ts[0]));
        assert(s.skip(tb.len() as int) == encode(rest));
        match t {
            Tok::Sym(b) => {
                assert(s[0] == (0xc0 + b.len()) as u8);
                assert(s.subrange(1, 1 + b.len() as int) == b);
                assert(seq![Tok::Sym(b)] + rest == ts);
            },
            _ => {
                assert(seq![t] + rest == ts);
            },
        }
    }
}

/// The items of a byte string encode back to it.
pub proof fn law_encode_scan(s: Seq<u8>)
    requires
        scan(s) is Some,
    ensures
        encode(scan(s).unwrap()) == s,
        all_ok(scan(s).unwrap()),
    decreases s.len(),
{
    if s.len() > 0 {
        let ts = scan(s).unwrap();
        match spec_byte_item(s[0]) {
            Some(Tag::SymbolSize(n)) => {
                law_encode_scan(s.skip(1 + n));
                let rest = scan(s.skip(1 + n)).unwrap();
                assert(ts == seq![Tok::Sym(s.subrange(1, 1 + n))] + rest);
                assert(ts.drop_first() == rest);
                assert(s == seq![s[0]] + s.subrange(1, 1 + n) + s.skip(1 + n));
                assert(all_ok(ts)) by {
                    assert forall|i: int| 0 <= i < ts.len() implies tok_ok(#[trigger] ts[i]) by {
                        if i > 0 {
                            assert(ts[i] == rest[i - 1]);
                        }
                    }
                }
            },
            Some(tag) => {
                law_encode_scan(s.skip(1));
                let rest = scan(s.skip(1)).unwrap();
                assert(ts.drop_first() == rest);
                assert(s == seq![s[0]] + s.skip(1));
                assert(all_ok(ts)) by {
                    assert forall|i: int| 0 <= i < ts.len() implies tok_ok(#[trigger] ts[i]) by {
                        if i > 0 {
                            assert(ts[i] == rest[i - 1]);
                        }
                    }
                }
            },
            None => {},
        }
    }
}

/// Two forests one after the other make one forest.
pub proof fn lemma_forest_concat(a: Seq<Tok>, m1: int, b: Seq<Tok>, m2: int)
    requires
        forest(a, m1),
        forest(b, m2),
    ensures
        forest(a + b, m1 + m2),
{
    lemma_bal_concat(a, b);
    if b.len() > 0 {
        assert(b.take(0) == Seq::<Tok>::empty());
        assert(bal(b.take(0)) == 0);
    } else {
        assert(bal(b) == 0);
    }
    assert(m2 >= 0);
    assert forall|k: int| 0 <= k < (a + b).len() implies bal(#[trigger] (a + b).take(k)) > -(m1
        + m2) by {
        if k <= a.len() {
            assert((a + b).take(k) == a.take(k));
            if k == a.len() {
                assert(a.take(k) == a);
                // b is not empty here, so it owes at least one expression
                assert(b.take(0) == Seq::<Tok>::empty());
                assert(bal(b.take(0)) == 0);
            }
        } else {
            assert((a + b).take(k) == a + b.take(k - a.len()));
            lemma_bal_concat(a, b.take(k - a.len()));
        }
    }
}

/// A tuple tag owing `n` expressions followed by a forest of `n` expressions is one expression,
/// and conversely.
pub proof fn lemma_tuple_complete(n: u8, rest: Seq<Tok>)
    ensures
        complete(seq![Tok::Arity(n)] + rest) <==> forest(rest, n as int),
{
    let ts = seq![Tok::Arity(n)] + rest;
    assert(ts.drop_first() == rest);
    assert(bal(ts) == n - 1 + bal(rest));
    assert forall|k: int| 0 <= k < rest.len() implies #[trigger] ts.take(k + 1) == seq![Tok::Arity(
        n,
    )] + rest.take(k) by {}
    assert forall|k: int| 0 <= k < rest.len() implies bal(#[trigger] ts.take(k + 1)) == n - 1 + bal(
        rest.take(k),
    ) by {
        assert(ts.take(k + 1) == seq![Tok::Arity(n)] + rest.take(k));
        assert((seq![Tok::Arity(n)] + rest.take(k)).drop_first() == rest.take(k));
    }
    if forest(rest, n as int) {
        assert forall|k: int| 0 <= k < ts.len() implies bal(#[trigger] ts.take(k)) > -1 by {
            if k == 0 {
                assert(ts.take(0).len() == 0);
            } else {
                assert(bal(ts.take((k - 1) + 1)) == n - 1 + bal(rest.take(k - 1)));
            }
        }
    }
    if complete(ts) {
        assert forall|k: int| 0 <= k < rest.len() implies bal(#[trigger] rest.take(k)) > -(
        n as int) by {
            assert(bal(ts.take(k + 1)) == n - 1 + bal(rest.take(k)));
        }
    }
}

/// One expression is never a proper beginning of another: the way a sequence of items starts
/// with an expression is unique.
pub proof fn law_complete_prefix_unique(a: Seq<Tok>, x: Seq<Tok>, b: Seq<Tok>, y: Seq<Tok>)
    requires
        complete(a),
        complete(b),
        a + x == b + y,
    ensures
        a == b,
        x == y,
{
    if a.len() < b.len() {
        assert(b.take(a.len() as int) == (a + x).take(a.len() as int));
        assert((a + x).take(a.len() as int) == a);
        assert(bal(b.take(a.len() as int)) > -1);
        assert(false);
    } else if b.len() < a.len() {
        assert(a.take(b.len() as int) == (b + y).take(b.len() as int));
        assert((b + y).take(b.len() as int) == b);
        assert(bal(a.take(b.len() as int)) > -1);
        assert(false);
    }
    assert(a == (a + x).take(a.len() as int));
    assert(b == (b + y).take(b.len() as int));
    assert(x == (a + x).skip(a.len() as int));
    assert(y == (b + y).skip(b.len() as int));
}

/// An item followed by `rest` is a forest of `m` expressions exactly when `rest` is a forest of
/// what remains owed after the item.
pub proof fn lemma_forest_cons(t: Tok, rest: Seq<Tok>, m: int)
    ensures
        forest(seq![t] + rest, m) <==> (m >= 1 && forest(rest, m + weight(t))),
{
    let x = seq![t] + rest;
    let w = weight(t);
    assert(x.drop_first() == rest);
    assert(bal(x) == w + bal(rest));
    assert(x.take(0) == Seq::<Tok>::empty());
    assert forall|k: int| 0 <= k < rest.len() implies bal(#[trigger] x.take(k + 1)) == w + bal(
        rest.take(k),
    ) by {
        assert(x.take(k + 1) == seq![t] + rest.take(k));
        assert((seq![t] + rest.take(k)).drop_first() == rest.take(k));
    }
    if forest(x, m) {
        assert(bal(x.take(0)) > -m);
        assert forall|k: int| 0 <= k < rest.len() implies bal(#[trigger] rest.take(k)) > -(m + w) by {
            assert(bal(x.take(k + 1)) > -m);
        }
    }
    if m >= 1 && forest(rest, m + w) {
        assert forall|k: int| 0 <= k < x.len() implies bal(#[trigger] x.take(k)) > -m by {
            if k > 0 {
                assert(bal(x.take((k - 1) + 1)) == w + bal(rest.take(k - 1)));
            }
        }
    }
}

/// What follows the first expression of a forest is a forest of one fewer.
pub proof fn lemma_forest_after_complete(a: Seq<Tok>, b: Seq<Tok>, m: int)
    requires
        complete(a),
        forest(a + b, m),
    ensures
        forest(b, m - 1),
{
    lemma_bal_concat(a, b);
    assert forall|q: int| 0 <= q < b.len() implies bal(#[trigger] b.take(q)) > -(m - 1) by {
        assert((a + b).take(a.len() + q) == a + b.take(q));
        lemma_bal_concat(a, b.take(q));
    }
}

/// Inside one expression, the items from `k` on are a forest of what the items before `k` owe.
pub proof fn lemma_complete_skip(ts: Seq<Tok>, k: int)
    requires
        complete(ts),
        0 <= k < ts.len(),
    ensures
        forest(ts.skip(k), 1 + bal(ts.take(k))),
        1 + bal(ts.take(k)) >= 1,
{
    lemma_bal_take_skip(ts, k);
    assert forall|q: int| 0 <= q < ts.skip(k).len() implies bal(#[trigger] ts.skip(k).take(q)) > -(1
        + bal(ts.take(k))) by {
        assert(ts.take(k + q) == ts.take(k) + ts.skip(k).take(q));
        lemma_bal_concat(ts.take(k), ts.skip(k).take(q));
    }
}

/// Where the expression that starts at item `j` ends, while `pending` expressions are owed
/// (one past the end of `ts` where it does not end inside `ts`).
pub open spec fn seg_end(ts: Seq<Tok>, j: int, pending: int) -> int
    decreases ts.len() - j,
{
    if j < 0 || j >= ts.len() {
        ts.len() as int + 1
    } else if pending + weight(ts[j]) <= 0 {
        j + 1
    } else {
        seg_end(ts, j + 1, pending + weight(ts[j]))
    }
}

/// The end of the expression that starts at `j` is where `seg_end` says it is.
pub proof fn lemma_seg_end(ts: Seq<Tok>, j: int, e: int)
    requires
        0 <= j < e <= ts.len(),
        complete(ts.subrange(j, e)),
    ensures
        seg_end(ts, j, 1) == e,
{
    lemma_seg_end_from(ts, j, e, j);
}

proof fn lemma_seg_end_from(ts: Seq<Tok>, j: int, e: int, q: int)
    requires
        0 <= j <= q < e <= ts.len(),
        complete(ts.subrange(j, e)),
    ensures
        seg_end(ts, q, 1 + bal(ts.subrange(j, q))) == e,
    decreases e - q,
{
    let seg = ts.subrange(j, e);
    assert(ts.subrange(j, q) == seg.take(q - j));
    assert(ts.subrange(j, q + 1) == seg.take(q + 1 - j));
    assert(seg.take(q + 1 - j) == seg.take(q - j).push(ts[q]));
    lemma_bal_push(seg.take(q - j), ts[q]);
    if q + 1 < e {
        assert(bal(seg.take(q + 1 - j)) > -1);
        lemma_seg_end_from(ts, j, e, q + 1);
    } else {
        assert(seg.take(q + 1 - j) == seg);
    }
}

/// A forest of at least one expression starting at `j` has its first expression end where
/// `seg_end` says.
pub proof fn lemma_seg_end_forest(ts: Seq<Tok>, j: int, m: int)
    requires
        0 <= j <= ts.len(),
        m >= 1,
        forest(ts.skip(j), m),
    ensures
        j < seg_end(ts, j, 1) <= ts.len(),
        complete(ts.subrange(j, seg_end(ts, j, 1))),
{
    assert(ts.skip(j).take(0) == Seq::<Tok>::empty());
    lemma_seg_end_forest_from(ts, j, m, j);
}

proof fn lemma_seg_end_forest_from(ts: Seq<Tok>, j: int, m: int, q: int)
    requires
        0 <= j <= q <= ts.len(),
        m >= 1,
        forest(ts.skip(j), m),
        forall|k: int| 0 <= k <= q - j ==> bal(#[trigger] ts.skip(j).take(k)) >= 0,
    ensures
        q < seg_end(ts, q, 1 + bal(ts.skip(j).take(q - j))) <= ts.len(),
        complete(ts.subrange(j, seg_end(ts, q, 1 + bal(ts.skip(j).take(q - j))))),
    decreases ts.len() - q,
{
    let f = ts.skip(j);
    if q == ts.len() {
        assert(f.take(q - j) == f);
        assert(false);
    }
    assert(f[q - j] == ts[q]);
    assert(f.take(q - j + 1) == f.take(q - j).push(ts[q]));
    lemma_bal_push(f.take(q - j), ts[q]);
    let p2 = 1 + bal(f.take(q - j + 1));
    if p2 <= 0 {
        let seg = ts.subrange(j, q + 1);
        assert(seg == f.take(q - j + 1));
        assert forall|k: int| 0 <= k < seg.len() implies bal(#[trigger] seg.take(k)) > -1 by {
            assert(seg.take(k) == f.take(k));
        }
    } else {
        lemma_seg_end_forest_from(ts, j, m, q + 1);
    }
}

/// Scanning a byte string that starts with a scannable part scans that part first.
pub proof fn lemma_scan_prefix(a: Seq<u8>, x: Seq<u8>)
    requires
        scan(a) is Some,
    ensures
        scan(a + x) == prepend(scan(a).unwrap(), scan(x)),
    decreases a.len(),
{
    if a.len() == 0 {
        assert(a + x == x);
        if let Some(tx) = scan(x) {
            assert(Seq::<Tok>::empty() + tx == tx);
        }
    } else {
        let ax = a + x;
        assert(ax[0] == a[0]);
        match spec_byte_item(a[0]) {
            Some(Tag::SymbolSize(n)) => {
                assert(ax.subrange(1, 1 + n) == a.subrange(1, 1 + n));
                assert(ax.skip(1 + n) == a.skip(1 + n) + x);
                lemma_scan_prefix(a.skip(1 + n), x);
                if let Some(tx) = scan(x) {
                    let t = Tok::Sym(a.subrange(1, 1 + n));
                    let r = scan(a.skip(1 + n)).unwrap();
                    assert(seq![t] + (r + tx) == (seq![t] + r) + tx);
                }
            },
            Some(tag) => {
                assert(ax.skip(1) == a.skip(1) + x);
                lemma_scan_prefix(a.skip(1), x);
                if let Some(tx) = scan(x) {
                    let r = scan(a.skip(1)).unwrap();
                    let t = scan(a).unwrap()[0];
                    assert(scan(a).unwrap() == seq![t] + r);
                    assert(seq![t] + (r + tx) == (seq![t] + r) + tx);
                }
            },
            None => {},
        }
    }
}

/// A byte string that scans to no items is empty.
proof fn lemma_scan_empty(s: Seq<u8>)
    requires
        scan(s) == Some(Seq::<Tok>::empty()),
    ensures
        s.len() == 0,
{
    if s.len() > 0 {
        law_encode_scan(s);
        assert(encode(Seq::<Tok>::empty()) == Seq::<u8>::empty());
    }
}

/// One expression is never a proper beginning of another, as bytes: the way a byte string
/// starts with an expression is unique.
pub proof fn law_expr_prefix_unique(a: Seq<u8>, x: Seq<u8>, b: Seq<u8>, y: Seq<u8>)
    requires
        is_expr(a),
        is_expr(b),
        a + x == b + y,
    ensures
        a == b,
        x == y,
{
    if a.len() < b.len() {
        let z = b.skip(a.len() as int);
        assert(b == a + z) by {
            assert(b.take(a.len() as int) == (a + x).take(a.len() as int));
            assert((a + x).take(a.len() as int) == a);
            assert(b == b.take(a.len() as int) + z);
        }
        lemma_scan_prefix(a, z);
        let ta = scan(a).unwrap();
        let tz = scan(z).unwrap();
        assert(scan(b) == Some(ta + tz));
        assert(ta + tz == ta + Seq::<Tok>::empty() + tz);
        if tz.len() == 0 {
            lemma_scan_empty(z);
        }
        assert(tz.len() > 0);
        law_complete_prefix_unique(ta, tz, ta + tz, Seq::<Tok>::empty());
    } else if b.len() < a.len() {
        let z = a.skip(b.len() as int);
        assert(a == b + z) by {
            assert(a.take(b.len() as int) == (b + y).take(b.len() as int));
            assert((b + y).take(b.len() as int) == b);
            assert(a == a.take(b.len() as int) + z);
        }
        lemma_scan_prefix(b, z);
        let tb = scan(b).unwrap();
        let tz = scan(z).unwrap();
        if tz.len() == 0 {
            lemma_scan_empty(z);
        }
        law_complete_prefix_unique(tb, tz, tb + tz, Seq::<Tok>::empty());
    }
    assert(a == (a + x).take(a.len() as int));
    assert(b == (b + y).take(b.len() as int));
    assert(x == (a + x).skip(a.len() as int));
    assert(y == (b + y).skip(b.len() as int));
}

/// One item of an expression, as the library holds it.
pub enum Token {
    NewVar,
    VarRef(u8),
    Sym(Vec<u8>),
    Arity(u8),
}

impl View for Token {
    type V = Tok;

    open spec fn view(&self) -> Tok {
        match self {
            Token::NewVar => Tok::NewVar,
            Token::VarRef(i) => Tok::VarRef(*i),
            Token::Sym(b) => Tok::Sym(b@),
            Token::Arity(a) => Tok::Arity(*a),
        }
    }
}

pub open spec fn toks_of(v: Seq<Token>) -> Seq<Tok> {
    v.map_values(|t: Token| t@)
}

/// Copies `s[start..end]`.
pub fn copy_range(s: &[u8], start: usize, end: usize) -> (r: Vec<u8>)
    requires
        start <= end <= s@.len(),
    ensures
        r@ == s@.subrange(start as int, end as int),
{
    let mut r: Vec<u8> = Vec::new();
    let mut i = start;
    while i < end
        invariant
            start <= i <= end <= s@.len(),
            r@ == s@.subrange(start as int, i as int),
        decreases end - i,
    {
        r.push(s[i]);
        i = i + 1;
        assert(r@ == s@.subrange(start as int, i as int));
    }
    r
}

pub open spec fn prepend(p: Seq<Tok>, r: Option<Seq<Tok>>) -> Option<Seq<Tok>> {
    match r {
        Some(ts) => Some(p + ts),
        None => None,
    }
}

/// Splits a byte string into items, as `scan` does.
pub fn tokenize(s: &[u8]) -> (r: Option<Vec<Token>>)
    ensures
        match r {
            Some(v) => scan(s@) == Some(toks_of(v@)),
            None => scan(s@) is None,
        },
{
    let mut out: Vec<Token> = Vec::new();
    let mut pos: usize = 0;
    assert(s@.skip(0) == s@);
    assert(toks_of(out@) == Seq::<Tok>::empty());
    assert(Seq::<Tok>::empty() + scan(s@).unwrap_or(seq![]) == scan(s@).unwrap_or(seq![]));
    while pos < s.len()
        invariant
            pos <= s@.len(),
            scan(s@) == prepend(toks_of(out@), scan(s@.skip(pos as int))),
        decreases s.len() - pos,
    {
        let b = s[pos];
        let ghost rest = s@.skip(pos as int);
        let ghost before = toks_of(out@);
        assert(rest[0] == b);
        match byte_item(b) {
            None => {
                return None;
            },
            Some(Tag::SymbolSize(n)) => {
                if n as usize > s.len() - pos - 1 {
                    return None;
                }
                let end = pos + 1 + n as usize;
                let bytes = copy_range(s, pos + 1, end);
                assert(rest.subrange(1, 1 + n) == s@.subrange(pos + 1, end as int));
                assert(rest.skip(1 + n) == s@.skip(end as int));
                out.push(Token::Sym(bytes));
                pos = end;
                assert(toks_of(out@) == before.push(Tok::Sym(bytes@)));
            },
            Some(tag) => {
                let t = match tag {
                    Tag::NewVar => Token::NewVar,
                    Tag::VarRef(i) => Token::VarRef(i),
                    Tag::Arity(a) => Token::Arity(a),
                    Tag::SymbolSize(n) => Token::Arity(0),
                };
                assert(rest.skip(1) == s@.skip(pos + 1));
                out.push(t);
                pos = pos + 1;
                assert(toks_of(out@) == before.push(t@));
            },
        }
        proof {
            let after = toks_of(out@);
            match scan(s@.skip(pos as int)) {
                Some(r2) => {
                    assert(after + r2 == before + (seq![after.last()] + r2));
                },
                None => {},
            }
        }
    }
    assert(s@.skip(pos as int).len() == 0);
    assert(toks_of(out@) + Seq::<Tok>::empty() == toks_of(out@));
    Some(out)
}


/// Appends the bytes of one item.
pub fn push_token(out: &mut Vec<u8>, t: &Token)
    requires
        tok_ok(t@),
    ensures
        final(out)@ == old(out)@ + tok_bytes(t@),
{
    match t {
        Token::NewVar => {
            out.push(item_byte(Tag::NewVar));
        },
        Token::VarRef(i) => {
            out.push(item_byte(Tag::VarRef(*i)));
        },
        Token::Arity(a) => {
            out.push(item_byte(Tag::Arity(*a)));
        },
        Token::Sym(b) => {
            let n = b.len() as u8;
            out.push(item_byte(Tag::SymbolSize(n)));
            let ghost head = out@;
            let mut i: usize = 0;
            while i < b.len()
                invariant
                    i <= b@.len(),
                    out@ == head + b@.subrange(0, i as int),
                decreases b.len() - i,
            {
                out.push(b[i]);
                i = i + 1;
                assert(out@ == head + b@.subrange(0, i as int));
            }
            assert(b@.subrange(0, b@.len() as int) == b@);
        },
    }
    assert(final(out)@ == old(out)@ + tok_bytes(t@));
}

/// The bytes of a sequence of items.
pub fn encode_tokens(v: &Vec<Token>) -> (r: Vec<u8>)
    requires
        all_ok(toks_of(v@)),
    ensures
        r@ == encode(toks_of(v@)),
{
    let ghost ts = toks_of(v@);
    let mut out: Vec<u8> = Vec::new();
    let mut i: usize = 0;
    assert(ts.take(0) == Seq::<Tok>::empty());
    while i < v.len()
        invariant
            i <= v@.len(),
            ts == toks_of(v@),
            all_ok(ts),
            out@ == encode(ts.take(i as int)),
        decreases v.len() - i,
    {
        assert(ts[i as int] == v@[i as int]@);
        assert(tok_ok(ts[i as int]));
        push_token(&mut out, &v[i]);
        proof {
            lemma_encode_push(ts.take(i as int), ts[i as int]);
            assert(ts.take(i + 1) == ts.take(i as int).push(ts[i as int]));
        }
        i = i + 1;
    }
    assert(ts.take(v@.len() as int) == ts);
    out
}

/// Whether a sequence of items is exactly one expression.
pub fn is_complete(v: &Vec<Token>) -> (r: bool)
    ensures
        r == complete(toks_of(v@)),
{
    let ghost ts = toks_of(v@);
    let n = v.len();
    if n == 0 {
        assert(bal(ts) == 0);
        return false;
    }
    let mut pending: usize = 1;
    let mut i: usize = 0;
    assert(ts.take(0) == Seq::<Tok>::empty());
    while i < n
        invariant
            n == v@.len(),
            ts == toks_of(v@),
            n >= 1,
            i < n,
            pending == 1 + bal(ts.take(i as int)),
            1 <= pending <= n - i,
            forall|k: int| 0 <= k <= i ==> bal(#[trigger] ts.take(k)) >= 0,
        decreases n - i,
    {
        let a: usize = match &v[i] {
            Token::Arity(a) => *a as usize,
            _ => 0,
        };
        let rem: usize = n - (i + 1);
        proof {
            assert(ts[i as int] == v@[i as int]@);
            lemma_bal_push(ts.take(i as int), ts[i as int]);
            assert(ts.take(i + 1) == ts.take(i as int).push(ts[i as int]));
            assert(bal(ts.take(i + 1)) == pending - 1 + a - 1);
            lemma_bal_take_skip(ts, i + 1);
            lemma_bal_lower(ts.skip(i + 1));
        }
        if a > rem || pending - 1 > rem - a {
            // more is owed than the remaining items can settle
            return false;
        }
        let next = pending - 1 + a;
        if next == 0 {
            if i + 1 == n {
                assert(ts.take(n as int) == ts);
                assert(forall|k: int| 0 <= k < ts.len() ==> bal(#[trigger] ts.take(k)) > -1);
                return true;
            } else {
                // a proper beginning is already a whole expression
                return false;
            }
        }
        pending = next;
        i = i + 1;
    }
    false
}

/// Whether the bytes are exactly one expression.
pub fn check_expr(s: &[u8]) -> (r: bool)
    ensures
        r == is_expr(s@),
{
    match tokenize(s) {
        Some(v) => is_complete(&v),
        None => false,
    }
}

/// The items of an expression.
pub fn expr_tokens(s: &[u8]) -> (v: Vec<Token>)
    requires
        is_expr(s@),
    ensures
        toks_of(v@) == toks(s@),
        complete(toks(s@)),
        all_ok(toks(s@)),
{
    proof {
        law_encode_scan(s@);
    }
    match tokenize(s) {
        Some(v) => v,
        None => {
            assert(false);
            Vec::new()
        },
    }
}

/// Where the first expression of a forest that starts at `start` ends.
pub fn tree_end(v: &Vec<Token>, start: usize, Ghost(m): Ghost<int>) -> (end: usize)
    requires
        start <= v@.len(),
        m >= 1,
        forest(toks_of(v@).skip(start as int), m),
    ensures
        start < end <= v@.len(),
        complete(toks_of(v@).subrange(start as int, end as int)),
        forest(toks_of(v@).skip(end as int), m - 1),
{
    let ghost ts = toks_of(v@);
    let ghost f = ts.skip(start as int);
    let n = v.len();
    let mut j: usize = start;
    let mut pending: usize = 1;
    assert(f.take(0) == Seq::<Tok>::empty());
    if start == n {
        assert(f.len() == 0);
        assert(bal(f) == 0);
    }
    loop
        invariant
            n == v@.len(),
            ts == toks_of(v@),
            f == ts.skip(start as int),
            forest(f, m),
            m >= 1,
            start <= j <= n,
            pending == 1 + bal(f.take(j - start)),
            pending >= 1,
            forall|k: int| 0 <= k <= j - start ==> bal(#[trigger] f.take(k)) >= 0,
        decreases n - j,
    {
        let k: Ghost<int> = Ghost(j - start);
        proof {
            if j == n {
                assert(f.take(k@) == f);
            }
        }
        assert(j < n);
        let a: usize = match &v[j] {
            Token::Arity(a) => *a as usize,
            _ => 0,
        };
        proof {
            assert(f[k@] == ts[j as int]);
            assert(ts[j as int] == v@[j as int]@);
            lemma_bal_push(f.take(k@), f[k@]);
            assert(f.take(k@ + 1) == f.take(k@).push(f[k@]));
            lemma_bal_take_skip(f, k@ + 1);
            lemma_bal_lower(f.skip(k@ + 1));
        }
        let next = pending - 1 + a;
        if next == 0 {
            let end = j + 1;
            proof {
                let seg = ts.subrange(start as int, end as int);
                assert(seg == f.take(k@ + 1));
                assert forall|q: int| 0 <= q < seg.len() implies bal(#[trigger] seg.take(q)) > -1 by {
                    assert(seg.take(q) == f.take(q));
                }
                let g = f.skip(k@ + 1);
                assert(g == ts.skip(end as int));
                assert forall|q: int| 0 <= q < g.len() implies bal(#[trigger] g.take(q)) > -(m - 1) by {
                    assert(f.take(k@ + 1 + q) == f.take(k@ + 1) + g.take(q));
                    lemma_bal_concat(f.take(k@ + 1), g.take(q));
                }
            }
            return end;
        }
        pending = next;
        j = j + 1;
    }
}

/// The bytes of the items `start..end`.
pub fn encode_range(v: &Vec<Token>, start: usize, end: usize) -> (r: Vec<u8>)
    requires
        start <= end <= v@.len(),
        all_ok(toks_of(v@)),
    ensures
        r@ == encode(toks_of(v@).subrange(start as int, end as int)),
{
    let ghost ts = toks_of(v@);
    let mut out: Vec<u8> = Vec::new();
    let mut i: usize = start;
    assert(ts.subrange(start as int, start as int) == Seq::<Tok>::empty());
    while i < end
        invariant
            start <= i <= end <= v@.len(),
            ts == toks_of(v@),
            all_ok(ts),
            out@ == encode(ts.subrange(start as int, i as int)),
        decreases end - i,
    {
        assert(ts[i as int] == v@[i as int]@);
        assert(tok_ok(ts[i as int]));
        push_token(&mut out, &v[i]);
        proof {
            lemma_encode_push(ts.subrange(start as int, i as int), ts[i as int]);
            assert(ts.subrange(start as int, i + 1) == ts.subrange(start as int, i as int).push(
                ts[i as int],
            ));
        }
        i = i + 1;
    }
    out
}

/// Whether two byte strings are equal.
pub fn bytes_eq(a: &[u8], b: &[u8]) -> (r: bool)
    ensures
        r == (a@ == b@),
{
    if a.len() != b.len() {
        return false;
    }
    let mut i: usize = 0;
    while i < a.len()
        invariant
            a@.len() == b@.len(),
            i <= a@.len(),
            forall|j: int| 0 <= j < i ==> a@[j] == b@[j],
        decreases a.len() - i,
    {
        if a[i] != b[i] {
            return false;
        }
        i = i + 1;
    }
    assert(a@ =~= b@);
    true
}
} // verus!
