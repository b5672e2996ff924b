//! Renumbering the variables of an expression in the order they first occur.
use vstd::prelude::*;

use crate::error::HelperError;
use crate::expr::{
    all_ok, bal, copy_range, encode, encode_tokens, expr_tokens, forest, is_expr, law_encode_scan, law_scan_encode,
    tok_ok, toks, toks_of, weight, Tok, Token,
};

verus! {

/// Where renumbering stands: `map[i]` is the new number of old variable `i`, `inp` counts the
/// old variables introduced so far and `outp` the new ones.
pub struct NormState {
    pub map: Seq<Option<u8>>,
    pub inp: nat,
    pub outp: nat,
}

pub open spec fn norm_init() -> NormState {
    NormState { map: Seq::new(64, |i: int| None::<u8>), inp: 0, outp: 0 }
}

/// One step of renumbering: the state after an item and the item written for it.
pub open spec fn norm_step(st: NormState, t: Tok) -> Result<(NormState, Tok), HelperError> {
    match t {
        Tok::NewVar => if st.inp >= 64 || st.outp >= 64 {
            Err(HelperError::TooManyVariables)
        } else {
            Ok(
                (
                    NormState {
                        map: st.map.update(st.inp as int, Some(st.outp as u8)),
                        inp: st.inp + 1,
                        outp: st.outp + 1,
                    },
                    Tok::NewVar,
                ),
            )
        },
        Tok::VarRef(i) => match st.map[i as int] {
            Some(m) => Ok((st, Tok::VarRef(m))),
            None => if st.outp >= 64 {
                Err(HelperError::TooManyVariables)
            } else {
                Ok(
                    (
                        NormState {
                            map: st.map.update(i as int, Some(st.outp as u8)),
                            inp: st.inp,
                            outp: st.outp + 1,
                        },
                        Tok::NewVar,
                    ),
                )
            },
        },
        _ => Ok((st, t)),
    }
}

/// Renumbering the items from `i` on, starting in state `st`.
pub open spec fn norm_from(ts: Seq<Tok>, i: int, st: NormState) -> Result<Seq<Tok>, HelperError>
    decreases ts.len() - i,
{
    if i >= ts.len() || i < 0 {
        Ok(seq![])
    } else {
        match norm_step(st, ts[i]) {
            Err(e) => Err(e),
            Ok((st2, o)) => match norm_from(ts, i + 1, st2) {
                Ok(r) => Ok(seq![o] + r),
                Err(e) => Err(e),
            },
        }
    }
}

/// The renumbered items of a sequence.
pub open spec fn normalize_toks(ts: Seq<Tok>) -> Result<Seq<Tok>, HelperError> {
    norm_from(ts, 0, norm_init())
}

/// The bytes of the renumbered expression.
pub open spec fn normalize_spec(s: Seq<u8>) -> Result<Seq<u8>, HelperError> {
    match normalize_toks(toks(s)) {
        Ok(o) => Ok(encode(o)),
        Err(e) => Err(e),
    }
}

pub open spec fn prepend_res(p: Seq<Tok>, r: Result<Seq<Tok>, HelperError>) -> Result<
    Seq<Tok>,
    HelperError,
> {
    match r {
        Ok(o) => Ok(p + o),
        Err(e) => Err(e),
    }
}

pub open spec fn bytes_res(r: Result<Vec<u8>, HelperError>) -> Result<Seq<u8>, HelperError> {
    match r {
        Ok(v) => Ok(v@),
        Err(e) => Err(e),
    }
}

pub open spec fn toks_res(r: Result<Vec<Token>, HelperError>) -> Result<Seq<Tok>, HelperError> {
    match r {
        Ok(v) => Ok(toks_of(v@)),
        Err(e) => Err(e),
    }
}

pub open spec fn norm_wf(st: NormState) -> bool {
    &&& st.map.len() == 64
    &&& st.outp <= 64
    &&& forall|k: int| 0 <= k < 64 ==> (#[trigger] st.map[k] matches Some(v) ==> v < st.outp)
}

/// Two item sequences whose items settle the same numbers of expressions, item by item.
pub open spec fn same_shape(a: Seq<Tok>, b: Seq<Tok>) -> bool {
    &&& a.len() == b.len()
    &&& forall|j: int| 0 <= j < a.len() ==> weight(#[trigger] a[j]) == weight(b[j])
}

pub proof fn lemma_same_shape_bal(a: Seq<Tok>, b: Seq<Tok>)
    requires
        same_shape(a, b),
    ensures
        bal(a) == bal(b),
    decreases a.len(),
{
    if a.len() > 0 {
        assert(same_shape(a.drop_first(), b.drop_first())) by {
            assert forall|j: int| 0 <= j < a.len() - 1 implies weight(
                #[trigger] a.drop_first()[j],
            ) == weight(b.drop_first()[j]) by {
                assert(a.drop_first()[j] == a[j + 1]);
                assert(b.drop_first()[j] == b[j + 1]);
            }
        }
        lemma_same_shape_bal(a.drop_first(), b.drop_first());
        assert(weight(a[0]) == weight(b[0]));
    }
}

/// Items of the same shape as an expression form an expression.
pub proof fn lemma_same_shape_complete(a: Seq<Tok>, b: Seq<Tok>, m: int)
    requires
        same_shape(a, b),
        forest(a, m),
    ensures
        forest(b, m),
{
    lemma_same_shape_bal(a, b);
    assert forall|k: int| 0 <= k < b.len() implies bal(#[trigger] b.take(k)) > -m by {
        assert(same_shape(a.take(k), b.take(k))) by {
            assert forall|j: int| 0 <= j < k implies weight(#[trigger] a.take(k)[j]) == weight(
                b.take(k)[j],
            ) by {
                assert(a.take(k)[j] == a[j]);
                assert(b.take(k)[j] == b[j]);
            }
        }
        lemma_same_shape_bal(a.take(k), b.take(k));
    }
}

/// Renumbering keeps the shape and writes valid items.
pub proof fn lemma_norm_shape(ts: Seq<Tok>, i: int, st: NormState)
    requires
        0 <= i <= ts.len(),
        all_ok(ts),
        norm_wf(st),
        norm_from(ts, i, st) is Ok,
    ensures
        same_shape(ts.skip(i), norm_from(ts, i, st).unwrap()),
        same_skeleton(ts.skip(i), norm_from(ts, i, st).unwrap()),
        all_ok(norm_from(ts, i, st).unwrap()),
    decreases ts.len() - i,
{
    if i < ts.len() {
        let (st2, o) = norm_step(st, ts[i]).unwrap();
        assert(tok_ok(ts[i]));
        assert(norm_wf(st2)) by {
            assert forall|k: int| 0 <= k < 64 implies (#[trigger] st2.map[k] matches Some(v) ==> v
                < st2.outp) by {
                assert(st.map[k] matches Some(v) ==> v < st.outp);
            }
        }
        lemma_norm_shape(ts, i + 1, st2);
        let r = norm_from(ts, i + 1, st2).unwrap();
        let out = norm_from(ts, i, st).unwrap();
        assert(out == seq![o] + r);
        assert(tok_ok(o)) by {
            match ts[i] {
                Tok::VarRef(x) => {
                    assert(st.map[x as int] matches Some(v) ==> v < st.outp);
                },
                _ => {},
            }
        }
        assert forall|j: int| 0 <= j < out.len() implies weight(#[trigger] ts.skip(i)[j]) == weight(
            out[j],
        ) by {
            if j > 0 {
                assert(ts.skip(i)[j] == ts.skip(i + 1)[j - 1]);
                assert(out[j] == r[j - 1]);
            }
        }
        assert forall|j: int| 0 <= j < out.len() implies tok_ok(#[trigger] out[j]) by {
            if j > 0 {
                assert(out[j] == r[j - 1]);
            }
        }
        assert forall|j: int| 0 <= j < out.len() implies (is_var_tok(#[trigger] ts.skip(i)[j])
            <==> is_var_tok(out[j])) && (!is_var_tok(ts.skip(i)[j]) ==> out[j] == ts.skip(i)[j]) by {
            if j > 0 {
                assert(ts.skip(i)[j] == ts.skip(i + 1)[j - 1]);
                assert(out[j] == r[j - 1]);
            }
        }
    } else {
        assert(ts.skip(i).len() == 0);
    }
}

/// Whether an item is a variable.
pub open spec fn is_var_tok(t: Tok) -> bool {
    t is NewVar || t is VarRef
}

/// `b` is `a` with variables possibly renamed: variables stand where variables stood and every
/// other item is unchanged.
pub open spec fn same_skeleton(a: Seq<Tok>, b: Seq<Tok>) -> bool {
    &&& a.len() == b.len()
    &&& forall|j: int|
        0 <= j < a.len() ==> (is_var_tok(#[trigger] a[j]) <==> is_var_tok(b[j])) && (!is_var_tok(
            a[j],
        ) ==> b[j] == a[j])
}

/// How many new variables the items introduce.
pub open spec fn newvars(ts: Seq<Tok>) -> nat
    decreases ts.len(),
{
    if ts.len() == 0 {
        0
    } else {
        newvars(ts.drop_last()) + if ts.last() is NewVar {
            1nat
        } else {
            0nat
        }
    }
}

/// Variables numbered in the order in which they are introduced: every reference is to a
/// variable already introduced, and there are at most 64.
pub open spec fn normal(ts: Seq<Tok>) -> bool {
    &&& newvars(ts) <= 64
    &&& forall|j: int|
        0 <= j < ts.len() ==> (#[trigger] ts[j] matches Tok::VarRef(m) ==> m < newvars(ts.take(j)))
}

pub proof fn lemma_newvars_push(p: Seq<Tok>, t: Tok)
    ensures
        newvars(p.push(t)) == newvars(p) + if t is NewVar {
            1nat
        } else {
            0nat
        },
{
    assert(p.push(t).drop_last() == p);
}

proof fn lemma_newvars_take(o: Seq<Tok>, k: int)
    requires
        0 <= k <= o.len(),
    ensures
        newvars(o.take(k)) <= newvars(o),
    decreases o.len() - k,
{
    if k < o.len() {
        lemma_newvars_take(o, k + 1);
        assert(o.take(k + 1) == o.take(k).push(o[k]));
        lemma_newvars_push(o.take(k), o[k]);
    } else {
        assert(o.take(k) == o);
    }
}

/// What renumbering writes, after output `p` written in state `st`, is in order.
proof fn lemma_norm_output_normal(ts: Seq<Tok>, i: int, st: NormState, p: Seq<Tok>)
    requires
        0 <= i <= ts.len(),
        all_ok(ts),
        norm_wf(st),
        newvars(p) == st.outp,
        forall|j: int|
            0 <= j < p.len() ==> (#[trigger] p[j] matches Tok::VarRef(m) ==> m < newvars(
                p.take(j),
            )),
        norm_from(ts, i, st) is Ok,
    ensures
        normal(p + norm_from(ts, i, st).unwrap()),
    decreases ts.len() - i,
{
    if i == ts.len() {
        assert(p + Seq::<Tok>::empty() == p);
    } else {
        assert(tok_ok(ts[i]));
        let (st2, o) = norm_step(st, ts[i]).unwrap();
        let p2 = p.push(o);
        let r = norm_from(ts, i + 1, st2).unwrap();
        lemma_newvars_push(p, o);
        assert(norm_wf(st2)) by {
            assert forall|k: int| 0 <= k < 64 implies (#[trigger] st2.map[k] matches Some(v) ==> v
                < st2.outp) by {
                assert(st.map[k] matches Some(v) ==> v < st.outp);
            }
        }
        match ts[i] {
            Tok::VarRef(x) => {
                assert(st.map[x as int] matches Some(v) ==> v < st.outp);
            },
            _ => {},
        }
        assert forall|j: int| 0 <= j < p2.len() implies (#[trigger] p2[j] matches Tok::VarRef(
            m,
        ) ==> m < newvars(p2.take(j))) by {
            if j < p.len() {
                assert(p2.take(j) == p.take(j));
                assert(p2[j] == p[j]);
            } else {
                assert(p2.take(j) == p);
            }
        }
        lemma_norm_output_normal(ts, i + 1, st2, p2);
        assert(p + (seq![o] + r) == p2 + r);
    }
}

/// Renumbering items that are already in order changes nothing.
proof fn lemma_norm_fixed(o: Seq<Tok>, i: int, st: NormState)
    requires
        0 <= i <= o.len(),
        normal(o),
        st.map.len() == 64,
        st.inp == newvars(o.take(i)),
        st.outp == st.inp,
        forall|k: int| 0 <= k < 64 ==> #[trigger] st.map[k] == if k < st.inp {
            Some(k as u8)
        } else {
            None
        },
    ensures
        norm_from(o, i, st) == Ok::<Seq<Tok>, HelperError>(o.skip(i)),
    decreases o.len() - i,
{
    if i < o.len() {
        let t = o[i];
        assert(o.take(i + 1) == o.take(i).push(t));
        lemma_newvars_push(o.take(i), t);
        lemma_newvars_take(o, i + 1);
        let st2 = match t {
            Tok::NewVar => NormState {
                map: st.map.update(st.inp as int, Some(st.outp as u8)),
                inp: st.inp + 1,
                outp: st.outp + 1,
            },
            _ => st,
        };
        match t {
            Tok::VarRef(m) => {
                assert(st.map[m as int] == Some(m));
            },
            _ => {},
        }
        assert(norm_step(st, t) == Ok::<(NormState, Tok), HelperError>((st2, t)));
        assert forall|k: int| 0 <= k < 64 implies #[trigger] st2.map[k] == if k < st2.inp {
            Some(k as u8)
        } else {
            None
        } by {
            assert(st.map[k] == if k < st.inp {
                Some(k as u8)
            } else {
                None
            });
        }
        lemma_norm_fixed(o, i + 1, st2);
        assert(seq![t] + o.skip(i + 1) == o.skip(i));
    } else {
        assert(o.skip(i) =~= Seq::<Tok>::empty());
    }
}

/// Renumbering an expression only renames its variables: it keeps every symbol and tuple where
/// it was, and gives a valid expression back.
pub proof fn law_normalize_only_renames(s: Seq<u8>)
    requires
        is_expr(s),
        normalize_spec(s) is Ok,
    ensures
        same_skeleton(toks(s), normalize_toks(toks(s)).unwrap()),
        is_expr(normalize_spec(s).unwrap()),
        toks(normalize_spec(s).unwrap()) == normalize_toks(toks(s)).unwrap(),
{
    let ts = toks(s);
    law_encode_scan(s);
    lemma_norm_shape(ts, 0, norm_init());
    assert(ts.skip(0) == ts);
    let o = normalize_toks(ts).unwrap();
    lemma_same_shape_complete(ts, o, 1);
    law_scan_encode(o);
}

/// Renumbering an expression twice gives what renumbering it once gives.
pub proof fn law_normalize_idempotent(s: Seq<u8>)
    requires
        is_expr(s),
        normalize_spec(s) is Ok,
    ensures
        normalize_spec(normalize_spec(s).unwrap()) == normalize_spec(s),
{
    law_normalize_only_renames(s);
    law_encode_scan(s);
    let o = normalize_toks(toks(s)).unwrap();
    lemma_norm_output_normal(toks(s), 0, norm_init(), seq![]);
    assert(Seq::<Tok>::empty() + o == o);
    assert(Seq::<Tok>::empty().take(0) == Seq::<Tok>::empty());
    assert(o.take(0) == Seq::<Tok>::empty());
    lemma_norm_fixed(o, 0, norm_init());
    assert(o.skip(0) == o);
}

/// Which variable a variable item names: the `k`-th variable introduced inside the expression,
/// or variable `k` from outside it (a reference to a variable not yet introduced).
pub enum VarId {
    Inner(nat),
    Outer(nat),
}

/// The variable that item `j` of `ts` names, where it is a variable.
pub open spec fn in_id(ts: Seq<Tok>, j: int) -> VarId {
    match ts[j] {
        Tok::VarRef(i) => if i < newvars(ts.take(j)) {
            VarId::Inner(i as nat)
        } else {
            VarId::Outer(i as nat)
        },
        _ => VarId::Inner(newvars(ts.take(j))),
    }
}

/// The number of the variable that item `j` of `o` names: a new variable gets the count of
/// those before it, a reference its index.
pub open spec fn out_num(o: Seq<Tok>, j: int) -> nat {
    match o[j] {
        Tok::VarRef(m) => m as nat,
        _ => newvars(o.take(j)),
    }
}

pub open spec fn injective(env: Map<VarId, nat>) -> bool {
    forall|a: VarId, b: VarId|
        #[trigger] env.contains_key(a) && #[trigger] env.contains_key(b) && env[a] == env[b] ==> a
            == b
}

/// `env` records the output number of every variable met so far, in step with `st`, after the
/// input items `ts.take(i)` have been written as `q`.
pub open spec fn ids_inv(ts: Seq<Tok>, i: int, st: NormState, env: Map<VarId, nat>, q: Seq<Tok>) -> bool {
    &&& st.map.len() == 64
    &&& st.inp == newvars(ts.take(i))
    &&& st.outp == newvars(q)
    &&& st.outp <= 64
    &&& q.len() == i
    &&& injective(env)
    &&& forall|a: VarId| #[trigger] env.contains_key(a) ==> env[a] < st.outp
    &&& forall|k: nat| #[trigger] env.contains_key(VarId::Inner(k)) <==> k < st.inp
    &&& forall|k: nat| #[trigger] env.contains_key(VarId::Outer(k)) ==> k < 64
    &&& forall|k: int|
        0 <= k < 64 ==> if k < st.inp {
            (#[trigger] st.map[k] matches Some(v) && v == env[VarId::Inner(k as nat)])
        } else {
            (st.map[k] is Some <==> env.contains_key(VarId::Outer(k as nat))) && (st.map[k] matches Some(
                v,
            ) ==> v == env[VarId::Outer(k as nat)])
        }
    &&& forall|j: int|
        0 <= j < i && is_var_tok(#[trigger] ts[j]) ==> env.contains_key(in_id(ts, j)) && out_num(
            q,
            j,
        ) == env[in_id(ts, j)]
}

proof fn lemma_out_num_push(q: Seq<Tok>, x: Tok, j: int)
    requires
        0 <= j < q.len(),
    ensures
        out_num(q.push(x), j) == out_num(q, j),
{
    assert(q.push(x).take(j) == q.take(j));
    assert(q.push(x)[j] == q[j]);
}

/// Renumbering gives every variable of the input one output number, different variables
/// different numbers.
proof fn lemma_norm_ids(ts: Seq<Tok>, i: int, st: NormState, env: Map<VarId, nat>, q: Seq<Tok>) -> (env2: Map<
    VarId,
    nat,
>)
    requires
        0 <= i <= ts.len(),
        all_ok(ts),
        ids_inv(ts, i, st, env, q),
        norm_from(ts, i, st) is Ok,
    ensures
        injective(env2),
        forall|j: int|
            0 <= j < ts.len() && is_var_tok(#[trigger] ts[j]) ==> env2.contains_key(in_id(ts, j))
                && out_num(q + norm_from(ts, i, st).unwrap(), j) == env2[in_id(ts, j)],
    decreases ts.len() - i,
{
    if i == ts.len() {
        assert(q + norm_from(ts, i, st).unwrap() == q);
        env
    } else {
        let t = ts[i];
        assert(tok_ok(t));
        let (st2, x) = norm_step(st, t).unwrap();
        let q2 = q.push(x);
        assert(ts.take(i + 1) == ts.take(i).push(t));
        lemma_newvars_push(ts.take(i), t);
        lemma_newvars_push(q, x);
        let env_new = match t {
            Tok::NewVar => env.insert(VarId::Inner(st.inp), st.outp),
            Tok::VarRef(y) => if st.map[y as int] is Some {
                env
            } else {
                env.insert(VarId::Outer(y as nat), st.outp)
            },
            _ => env,
        };
        assert(forall|a: VarId| #[trigger] env.contains_key(a) ==> env_new.contains_key(a) && env_new[a]
            == env[a]) by {
            match t {
                Tok::NewVar => {
                    assert(!env.contains_key(VarId::Inner(st.inp)));
                },
                Tok::VarRef(y) => {
                    if st.map[y as int] is None {
                        if (y as int) < st.inp {
                            assert(st.map[y as int] matches Some(v) && v == env[VarId::Inner(
                                y as nat,
                            )]);
                        }
                        assert(!env.contains_key(VarId::Outer(y as nat)));
                    }
                },
                _ => {},
            }
        }
        assert(injective(env_new)) by {
            assert forall|a: VarId, b: VarId|
                #[trigger] env_new.contains_key(a) && #[trigger] env_new.contains_key(b) && env_new[a]
                    == env_new[b] implies a == b by {
                if env.contains_key(a) && env.contains_key(b) {
                } else if env.contains_key(a) {
                    assert(env[a] < st.outp);
                } else if env.contains_key(b) {
                    assert(env[b] < st.outp);
                }
            }
        }
        assert(forall|j: int|
            0 <= j < i && is_var_tok(#[trigger] ts[j]) ==> env_new.contains_key(in_id(ts, j))
                && out_num(q2, j) == env_new[in_id(ts, j)]) by {
            assert forall|j: int| 0 <= j < i && is_var_tok(#[trigger] ts[j]) implies env_new.contains_key(
                in_id(ts, j),
            ) && out_num(q2, j) == env_new[in_id(ts, j)] by {
                lemma_out_num_push(q, x, j);
            }
        }
        assert(is_var_tok(t) ==> env_new.contains_key(in_id(ts, i)) && out_num(q2, i) == env_new[in_id(
            ts,
            i,
        )]) by {
            assert(q2.take(i) == q);
            assert(q2[i] == x);
            match t {
                Tok::VarRef(y) => {
                    if (y as int) < st.inp {
                        assert(env.contains_key(VarId::Inner(y as nat)));
                        assert(st.map[y as int] matches Some(v) && v == env[VarId::Inner(y as nat)]);
                        assert(env[VarId::Inner(y as nat)] < st.outp);
                    } else {
                        if st.map[y as int] is Some {
                            assert(env.contains_key(VarId::Outer(y as nat)));
                            assert(env[VarId::Outer(y as nat)] < st.outp);
                        }
                    }
                },
                _ => {},
            }
        }
        assert(ids_inv(ts, i + 1, st2, env_new, q2)) by {
            assert forall|a: VarId| #[trigger] env_new.contains_key(a) implies env_new[a] < st2.outp by {
                if env.contains_key(a) {
                }
            }
            assert forall|k: nat| #[trigger] env_new.contains_key(VarId::Inner(k)) <==> k < st2.inp by {
                assert(env.contains_key(VarId::Inner(k)) <==> k < st.inp);
            }
            assert forall|k: nat| #[trigger] env_new.contains_key(VarId::Outer(k)) implies k < 64 by {
                if env.contains_key(VarId::Outer(k)) {
                }
            }
            assert forall|k: int| 0 <= k < 64 implies if k < st2.inp {
                (#[trigger] st2.map[k] matches Some(v) && v == env_new[VarId::Inner(k as nat)])
            } else {
                (st2.map[k] is Some <==> env_new.contains_key(VarId::Outer(k as nat))) && (
                st2.map[k] matches Some(v) ==> v == env_new[VarId::Outer(k as nat)])
            } by {
                if k < st.inp {
                    assert(st.map[k] matches Some(v) && v == env[VarId::Inner(k as nat)]);
                    assert(env.contains_key(VarId::Inner(k as nat)));
                } else {
                    assert((st.map[k] is Some <==> env.contains_key(VarId::Outer(k as nat))) && (
                    st.map[k] matches Some(v) ==> v == env[VarId::Outer(k as nat)]));
                    if env.contains_key(VarId::Outer(k as nat)) {
                        assert(env[VarId::Outer(k as nat)] < st.outp);
                    }
                }
            }
            assert forall|j: int|
                0 <= j < i + 1 && is_var_tok(#[trigger] ts[j]) implies env_new.contains_key(
                in_id(ts, j),
            ) && out_num(q2, j) == env_new[in_id(ts, j)] by {
                if j < i {
                }
            }
        }
        let env2 = lemma_norm_ids(ts, i + 1, st2, env_new, q2);
        let r = norm_from(ts, i + 1, st2).unwrap();
        assert(q + norm_from(ts, i, st).unwrap() == q2 + r) by {
            assert(norm_from(ts, i, st).unwrap() == seq![x] + r);
        }
        env2
    }
}

/// Renumbering is one to one on variables: two variable items of the result name the same
/// variable exactly when the same items of the pattern do. Variables introduced inside the
/// pattern stay apart, and references to different variables from outside become different
/// fresh variables.
pub proof fn law_normalize_keeps_variables_apart(s: Seq<u8>, j1: int, j2: int)
    requires
        is_expr(s),
        normalize_spec(s) is Ok,
        0 <= j1 < toks(s).len(),
        0 <= j2 < toks(s).len(),
        is_var_tok(toks(s)[j1]),
        is_var_tok(toks(s)[j2]),
    ensures
        is_var_tok(toks(normalize_spec(s).unwrap())[j1]),
        is_var_tok(toks(normalize_spec(s).unwrap())[j2]),
        in_id(toks(s), j1) == in_id(toks(s), j2) <==> out_num(toks(normalize_spec(s).unwrap()), j1)
            == out_num(toks(normalize_spec(s).unwrap()), j2),
{
    let ts = toks(s);
    law_normalize_only_renames(s);
    law_encode_scan(s);
    let st = norm_init();
    let env: Map<VarId, nat> = Map::empty();
    let q: Seq<Tok> = seq![];
    assert(ts.take(0) == Seq::<Tok>::empty());
    assert(ids_inv(ts, 0, st, env, q)) by {
        assert forall|k: int| 0 <= k < 64 implies if k < st.inp {
            (#[trigger] st.map[k] matches Some(v) && v == env[VarId::Inner(k as nat)])
        } else {
            (st.map[k] is Some <==> env.contains_key(VarId::Outer(k as nat))) && (st.map[k] matches Some(
                v,
            ) ==> v == env[VarId::Outer(k as nat)])
        } by {
            assert(st.map[k] == None::<u8>);
        }
    }
    let env2 = lemma_norm_ids(ts, 0, st, env, q);
    let o = normalize_toks(ts).unwrap();
    assert(q + o == o);
    assert(env2.contains_key(in_id(ts, j1)) && out_num(o, j1) == env2[in_id(ts, j1)]);
    assert(env2.contains_key(in_id(ts, j2)) && out_num(o, j2) == env2[in_id(ts, j2)]);
}

/// Renumbering writes variables in order: every reference of the result names a variable
/// introduced before it, and there are at most 64. With `law_normalize_keeps_variables_apart`
/// and `law_normalize_only_renames` this fixes the result: the first item of each variable is a
/// new variable and its later items refer to it.
pub proof fn law_normalize_in_order(s: Seq<u8>)
    requires
        is_expr(s),
        normalize_spec(s) is Ok,
    ensures
        normal(toks(normalize_spec(s).unwrap())),
{
    law_normalize_only_renames(s);
    law_encode_scan(s);
    let o = normalize_toks(toks(s)).unwrap();
    lemma_norm_output_normal(toks(s), 0, norm_init(), seq![]);
    assert(Seq::<Tok>::empty() + o == o);
}

/// A copy of an item.
pub fn copy_token(t: &Token) -> (r: Token)
    ensures
        r@ == t@,
{
    match t {
        Token::NewVar => Token::NewVar,
        Token::VarRef(i) => Token::VarRef(*i),
        Token::Arity(a) => Token::Arity(*a),
        Token::Sym(b) => {
            let c = copy_range(b.as_slice(), 0, b.len());
            assert(c@ == b@.subrange(0, b@.len() as int));
            assert(c@ == b@);
            Token::Sym(c)
        },
    }
}

/// Renumbers the variables of a sequence of items.
pub fn normalize_tokens(v: &Vec<Token>) -> (r: Result<Vec<Token>, HelperError>)
    requires
        all_ok(toks_of(v@)),
    ensures
        toks_res(r) == normalize_toks(toks_of(v@)),
{
    let ghost ts = toks_of(v@);
    let mut map: Vec<Option<u8>> = Vec::new();
    let mut k: usize = 0;
    while k < 64
        invariant
            k <= 64,
            map@ == Seq::new(k as nat, |i: int| None::<u8>),
        decreases 64 - k,
    {
        map.push(None);
        k = k + 1;
        assert(map@ == Seq::new(k as nat, |i: int| None::<u8>));
    }
    let mut inp: usize = 0;
    let mut outp: u8 = 0;
    let ghost mut st = norm_init();
    let mut out: Vec<Token> = Vec::new();
    let mut i: usize = 0;
    proof {
        assert(toks_of(out@) == Seq::<Tok>::empty());
        if let Ok(o) = normalize_toks(ts) {
            assert(Seq::<Tok>::empty() + o == o);
        }
    }
    while i < v.len()
        invariant
            ts == toks_of(v@),
            all_ok(ts),
            i <= v@.len(),
            map@ == st.map,
            inp == st.inp,
            outp == st.outp,
            st.map.len() == 64,
            normalize_toks(ts) == prepend_res(toks_of(out@), norm_from(ts, i as int, st)),
        decreases v.len() - i,
    {
        let ghost before = toks_of(out@);
        let ghost st0 = st;
        assert(ts[i as int] == v@[i as int]@);
        assert(tok_ok(ts[i as int]));
        let t: Token = match &v[i] {
            Token::NewVar => {
                if inp >= 64 || outp >= 64 {
                    return Err(HelperError::TooManyVariables);
                }
                map.set(inp, Some(outp));
                proof {
                    st = NormState {
                        map: st.map.update(st.inp as int, Some(st.outp as u8)),
                        inp: st.inp + 1,
                        outp: st.outp + 1,
                    };
                }
                inp = inp + 1;
                outp = outp + 1;
                Token::NewVar
            },
            Token::VarRef(x) => {
                let x = *x as usize;
                match map[x] {
                    Some(m) => Token::VarRef(m),
                    None => {
                        if outp >= 64 {
                            return Err(HelperError::TooManyVariables);
                        }
                        map.set(x, Some(outp));
                        proof {
                            st = NormState {
                                map: st.map.update(x as int, Some(st.outp as u8)),
                                inp: st.inp,
                                outp: st.outp + 1,
                            };
                        }
                        outp = outp + 1;
                        Token::NewVar
                    },
                }
            },
            other => copy_token(other),
        };
        assert(norm_step(st0, ts[i as int]) == Ok::<(NormState, Tok), HelperError>((st, t@)));
        out.push(t);
        proof {
            assert(toks_of(out@) == before.push(t@));
            match norm_from(ts, i + 1, st) {
                Ok(r2) => {
                    assert(before + (seq![t@] + r2) == toks_of(out@) + r2);
                },
                Err(e) => {},
            }
        }
        i = i + 1;
    }
    proof {
        assert(toks_of(out@) + Seq::<Tok>::empty() == toks_of(out@));
    }
    Ok(out)
}

/// Renumbers the variables of an expression in the order in which they first occur: every new
/// variable and every reference to a variable not yet introduced becomes the next new variable.
/// Fails where more than 64 variables would be needed.
pub fn normalize_expr(s: &[u8]) -> (r: Result<Vec<u8>, HelperError>)
    requires
        is_expr(s@),
    ensures
        bytes_res(r) == normalize_spec(s@),
        r matches Ok(o) ==> is_expr(o@),
{
    let v = expr_tokens(s);
    match normalize_tokens(&v) {
        Ok(o) => {
            proof {
                let ts = toks(s@);
                law_encode_scan(s@);
                lemma_norm_shape(ts, 0, norm_init());
                assert(ts.skip(0) == ts);
                lemma_same_shape_complete(ts, toks_of(o@), 1);
                law_scan_encode(toks_of(o@));
            }
            let bytes = encode_tokens(&o);
            Ok(bytes)
        },
        Err(e) => Err(e),
    }
}


/// A copy of a pattern with its variables renumbered in the order in which they first occur,
/// as `normalize_expr` does.
pub fn freshen_pattern(arg: &[u8]) -> (r: Result<Vec<u8>, HelperError>)
    requires
        is_expr(arg@),
    ensures
        bytes_res(r) == normalize_spec(arg@),
        r matches Ok(o) ==> is_expr(o@),
{
    normalize_expr(arg)
}
} // verus!
