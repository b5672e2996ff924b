//! The set partitions of the elements of a tuple.
use vstd::multiset::Multiset;
use vstd::prelude::*;

use crate::error::HelperError;
use crate::expr::{
    all_ok, bal, bytes_eq, complete, copy_range, encode, encode_range, encode_tokens, expr_tokens,
    forest, is_expr, law_encode_scan, law_expr_prefix_unique, law_scan_encode, lemma_encode_concat,
    lemma_forest_concat,
    lemma_seg_end, lemma_tuple_complete, seg_end, tok_bytes, tok_ok, toks, toks_of, tree_end, Tok,
    Token,
};
use crate::normalize::{
    bytes_res, copy_token, is_var_tok, law_normalize_only_renames, lemma_norm_shape,
    lemma_same_shape_complete, norm_init, normalize_spec, normalize_tokens, normalize_toks,
    same_skeleton,
};

verus! {

/// The bytes of each element of a block.
pub open spec fn bview(b: Seq<Vec<u8>>) -> Seq<Seq<u8>> {
    b.map_values(|x: Vec<u8>| x@)
}

/// The blocks of a partition.
pub open spec fn pview(p: Seq<Vec<Vec<u8>>>) -> Seq<Seq<Seq<u8>>> {
    p.map_values(|b: Vec<Vec<u8>>| bview(b@))
}

/// A list of partitions.
pub open spec fn psview(ps: Seq<Vec<Vec<Vec<u8>>>>) -> Seq<Seq<Seq<Seq<u8>>>> {
    ps.map_values(|p: Vec<Vec<Vec<u8>>>| pview(p@))
}

/// Every way of placing the items from `index` on into the blocks `blocks` (into one of the
/// blocks already there, in order, or last into a new block), as complete partitions in that
/// order.
pub open spec fn gen(items: Seq<Seq<u8>>, index: int, blocks: Seq<Seq<Seq<u8>>>) -> Seq<
    Seq<Seq<Seq<u8>>>,
>
    decreases items.len() - index, blocks.len() as int + 2,
{
    if index < 0 || index >= items.len() {
        seq![blocks]
    } else {
        gen_choices(items, index, blocks, 0)
    }
}

/// The partitions `gen` reaches by putting item `index` into block `b` or a later one, or
/// into a new block.
pub open spec fn gen_choices(
    items: Seq<Seq<u8>>,
    index: int,
    blocks: Seq<Seq<Seq<u8>>>,
    b: int,
) -> Seq<Seq<Seq<Seq<u8>>>>
    decreases items.len() - index, blocks.len() as int + 1 - b,
{
    if index < 0 || index >= items.len() {
        seq![]
    } else if 0 <= b < blocks.len() {
        gen(items, index + 1, blocks.update(b, blocks[b].push(items[index]))) + gen_choices(
            items,
            index,
            blocks,
            b + 1,
        )
    } else {
        gen(items, index + 1, blocks.push(seq![items[index]]))
    }
}

/// Adds a partition of more than one block that is not there yet.
pub open spec fn keep(acc: Seq<Seq<Seq<Seq<u8>>>>, p: Seq<Seq<Seq<u8>>>) -> Seq<
    Seq<Seq<Seq<u8>>>,
> {
    if p.len() > 1 && !acc.contains(p) {
        acc.push(p)
    } else {
        acc
    }
}

/// Adds the partitions of `ps` in order, each of more than one block and each once.
pub open spec fn collect(acc: Seq<Seq<Seq<Seq<u8>>>>, ps: Seq<Seq<Seq<Seq<u8>>>>) -> Seq<
    Seq<Seq<Seq<u8>>>,
>
    decreases ps.len(),
{
    if ps.len() == 0 {
        acc
    } else {
        collect(keep(acc, ps[0]), ps.drop_first())
    }
}

/// The partitions of the items into at least two blocks, each once, in the order of `gen`.
pub open spec fn partitions_of(items: Seq<Seq<u8>>) -> Seq<Seq<Seq<Seq<u8>>>> {
    collect(seq![], gen(items, 0, seq![]))
}

pub proof fn lemma_collect_concat(
    acc: Seq<Seq<Seq<Seq<u8>>>>,
    a: Seq<Seq<Seq<Seq<u8>>>>,
    b: Seq<Seq<Seq<Seq<u8>>>>,
)
    ensures
        collect(acc, a + b) == collect(collect(acc, a), b),
    decreases a.len(),
{
    if a.len() == 0 {
        assert(a + b == b);
    } else {
        assert((a + b)[0] == a[0]);
        assert((a + b).drop_first() == a.drop_first() + b);
        lemma_collect_concat(keep(acc, a[0]), a.drop_first(), b);
    }
}

proof fn lemma_collect_one(acc: Seq<Seq<Seq<Seq<u8>>>>, p: Seq<Seq<Seq<u8>>>)
    ensures
        collect(acc, seq![p]) == keep(acc, p),
{
    assert(seq![p][0] == p);
    assert(seq![p].drop_first() =~= Seq::<Seq<Seq<Seq<u8>>>>::empty());
    assert(collect(keep(acc, p), Seq::<Seq<Seq<Seq<u8>>>>::empty()) == keep(acc, p));
}

/// A copy of a byte vector.
fn copy_vec(x: &Vec<u8>) -> (r: Vec<u8>)
    ensures
        r@ == x@,
{
    let r = copy_range(x.as_slice(), 0, x.len());
    assert(r@ =~= x@);
    r
}

/// A copy of a block.
fn copy_block(b: &Vec<Vec<u8>>) -> (r: Vec<Vec<u8>>)
    ensures
        bview(r@) == bview(b@),
{
    let mut r: Vec<Vec<u8>> = Vec::new();
    let mut i: usize = 0;
    while i < b.len()
        invariant
            i <= b@.len(),
            r@.len() == i,
            bview(r@) == bview(b@).take(i as int),
        decreases b.len() - i,
    {
        let x = copy_vec(&b[i]);
        let ghost before = r@;
        r.push(x);
        assert(r@ == before.push(x));
        assert forall|j: int| 0 <= j < i implies bview(r@)[j] == bview(before)[j] by {
            assert(r@[j] == before[j]);
        }
        assert(bview(r@)[i as int] == b@[i as int]@);
        i = i + 1;
        assert(bview(r@) =~= bview(b@).take(i as int));
    }
    assert(bview(b@).take(b@.len() as int) == bview(b@));
    r
}

/// A copy of a partition.
fn copy_part(p: &Vec<Vec<Vec<u8>>>) -> (r: Vec<Vec<Vec<u8>>>)
    ensures
        pview(r@) == pview(p@),
{
    let mut r: Vec<Vec<Vec<u8>>> = Vec::new();
    let mut i: usize = 0;
    while i < p.len()
        invariant
            i <= p@.len(),
            r@.len() == i,
            pview(r@) == pview(p@).take(i as int),
        decreases p.len() - i,
    {
        let x = copy_block(&p[i]);
        let ghost before = r@;
        r.push(x);
        assert(r@ == before.push(x));
        assert forall|j: int| 0 <= j < i implies pview(r@)[j] == pview(before)[j] by {
            assert(r@[j] == before[j]);
        }
        assert(pview(r@)[i as int] == bview(p@[i as int]@));
        i = i + 1;
        assert(pview(r@) =~= pview(p@).take(i as int));
    }
    assert(pview(p@).take(p@.len() as int) == pview(p@));
    r
}

fn block_eq(a: &Vec<Vec<u8>>, b: &Vec<Vec<u8>>) -> (r: bool)
    ensures
        r == (bview(a@) == bview(b@)),
{
    if a.len() != b.len() {
        assert(bview(a@).len() != bview(b@).len());
        return false;
    }
    let mut i: usize = 0;
    while i < a.len()
        invariant
            a@.len() == b@.len(),
            i <= a@.len(),
            forall|j: int| 0 <= j < i ==> bview(a@)[j] == bview(b@)[j],
        decreases a.len() - i,
    {
        if !bytes_eq(a[i].as_slice(), b[i].as_slice()) {
            assert(bview(a@)[i as int] != bview(b@)[i as int]);
            return false;
        }
        i = i + 1;
    }
    assert(bview(a@) =~= bview(b@));
    true
}

fn part_eq(a: &Vec<Vec<Vec<u8>>>, b: &Vec<Vec<Vec<u8>>>) -> (r: bool)
    ensures
        r == (pview(a@) == pview(b@)),
{
    if a.len() != b.len() {
        assert(pview(a@).len() != pview(b@).len());
        return false;
    }
    let mut i: usize = 0;
    while i < a.len()
        invariant
            a@.len() == b@.len(),
            i <= a@.len(),
            forall|j: int| 0 <= j < i ==> pview(a@)[j] == pview(b@)[j],
        decreases a.len() - i,
    {
        if !block_eq(&a[i], &b[i]) {
            assert(pview(a@)[i as int] != pview(b@)[i as int]);
            return false;
        }
        i = i + 1;
    }
    assert(pview(a@) =~= pview(b@));
    true
}

fn contains_part(ps: &Vec<Vec<Vec<Vec<u8>>>>, p: &Vec<Vec<Vec<u8>>>) -> (r: bool)
    ensures
        r == psview(ps@).contains(pview(p@)),
{
    let mut i: usize = 0;
    while i < ps.len()
        invariant
            i <= ps@.len(),
            forall|j: int| 0 <= j < i ==> psview(ps@)[j] != pview(p@),
        decreases ps.len() - i,
    {
        if part_eq(&ps[i], p) {
            assert(psview(ps@)[i as int] == pview(p@));
            return true;
        }
        i = i + 1;
    }
    false
}

/// Places the items from `index` on in every way, adding each new partition of at least two
/// blocks to `out`.
fn build_partitions(
    items: &Vec<Vec<u8>>,
    index: usize,
    blocks: &mut Vec<Vec<Vec<u8>>>,
    out: &mut Vec<Vec<Vec<Vec<u8>>>>,
)
    requires
        index <= items@.len(),
    ensures
        pview(final(blocks)@) == pview(old(blocks)@),
        psview(final(out)@) == collect(
            psview(old(out)@),
            gen(bview(items@), index as int, pview(old(blocks)@)),
        ),
    decreases items@.len() - index,
{
    let ghost its = bview(items@);
    let ghost bs = pview(blocks@);
    let ghost out0 = psview(out@);
    if index == items.len() {
        proof {
            lemma_collect_one(out0, bs);
        }
        if blocks.len() > 1 && !contains_part(out, blocks) {
            let c = copy_part(blocks);
            out.push(c);
            assert(psview(out@) == out0.push(bs));
        }
        return;
    }
    let n = blocks.len();
    let mut b: usize = 0;
    while b < n
        invariant
            index < items.len(),
            its == bview(items@),
            n == blocks@.len(),
            pview(blocks@) == bs,
            b <= n,
            collect(psview(out@), gen_choices(its, index as int, bs, b as int)) == collect(
                out0,
                gen_choices(its, index as int, bs, 0),
            ),
        decreases n - b,
    {
        let ghost mid = psview(out@);
        let x = copy_vec(&items[index]);
        assert(x@ == its[index as int]);
        let ghost bs2 = bs.update(b as int, bs[b as int].push(its[index as int]));
        let ghost before = blocks@;
        blocks[b].push(x);
        assert(blocks@[b as int]@ == before[b as int]@.push(x));
        assert(bview(blocks@[b as int]@) =~= bs[b as int].push(its[index as int]));
        assert forall|j: int| 0 <= j < n && j != b implies blocks@[j] == before[j] by {}
        assert(pview(blocks@) =~= bs2);
        build_partitions(items, index + 1, blocks, out);
        let ghost after = blocks@;
        assert(bview(after[b as int]@) == bs2[b as int]);
        blocks[b].pop();
        assert(blocks@[b as int]@ == after[b as int]@.drop_last());
        assert(bview(blocks@[b as int]@) =~= bview(after[b as int]@).drop_last());
        assert(bview(blocks@[b as int]@) =~= bs[b as int]);
        assert forall|j: int| 0 <= j < n implies pview(blocks@)[j] == bs[j] by {
            if j != b {
                assert(blocks@[j] == after[j]);
                assert(pview(after)[j] == bs2[j]);
            }
        }
        assert(pview(blocks@) =~= bs);
        proof {
            lemma_collect_concat(
                mid,
                gen(its, index + 1, bs2),
                gen_choices(its, index as int, bs, b + 1),
            );
        }
        b = b + 1;
    }
    let x = copy_vec(&items[index]);
    assert(x@ == its[index as int]);
    let mut blk: Vec<Vec<u8>> = Vec::new();
    blk.push(x);
    assert(bview(blk@) =~= seq![its[index as int]]);
    let ghost before = blocks@;
    blocks.push(blk);
    assert(blocks@ == before.push(blk));
    assert(pview(blocks@) =~= bs.push(seq![its[index as int]]));
    build_partitions(items, index + 1, blocks, out);
    let ghost after = blocks@;
    blocks.pop();
    assert(blocks@ == after.drop_last());
    assert(pview(blocks@) =~= pview(after).drop_last());
    assert(pview(blocks@) =~= bs);
}

/// The partitions of the items into at least two blocks, each once: item after item goes into
/// each existing block in turn and then into a new block, and a partition is kept the first
/// time it comes out.
pub fn partitions_of_items(items: &Vec<Vec<u8>>) -> (r: Vec<Vec<Vec<Vec<u8>>>>)
    ensures
        psview(r@) == partitions_of(bview(items@)),
{
    let mut out: Vec<Vec<Vec<Vec<u8>>>> = Vec::new();
    let mut blocks: Vec<Vec<Vec<u8>>> = Vec::new();
    assert(psview(out@) == Seq::<Seq<Seq<Seq<u8>>>>::empty());
    assert(pview(blocks@) == Seq::<Seq<Seq<u8>>>::empty());
    build_partitions(items, 0, &mut blocks, &mut out);
    out
}


// ---------------------------------------------------------------- the items are expressions

pub open spec fn items_exprs(xs: Seq<Seq<u8>>) -> bool {
    forall|i: int| 0 <= i < xs.len() ==> is_expr(#[trigger] xs[i])
}

pub open spec fn part_exprs(p: Seq<Seq<Seq<u8>>>) -> bool {
    forall|k: int| 0 <= k < p.len() ==> items_exprs(#[trigger] p[k])
}

pub open spec fn parts_exprs(ps: Seq<Seq<Seq<Seq<u8>>>>) -> bool {
    forall|j: int| 0 <= j < ps.len() ==> part_exprs(#[trigger] ps[j])
}

proof fn lemma_parts_exprs_concat(a: Seq<Seq<Seq<Seq<u8>>>>, b: Seq<Seq<Seq<Seq<u8>>>>)
    requires
        parts_exprs(a),
        parts_exprs(b),
    ensures
        parts_exprs(a + b),
{
    assert forall|j: int| 0 <= j < (a + b).len() implies part_exprs(#[trigger] (a + b)[j]) by {
        if j < a.len() {
            assert((a + b)[j] == a[j]);
        } else {
            assert((a + b)[j] == b[j - a.len()]);
        }
    }
}

proof fn lemma_gen_exprs(items: Seq<Seq<u8>>, index: int, blocks: Seq<Seq<Seq<u8>>>)
    requires
        items_exprs(items),
        part_exprs(blocks),
    ensures
        parts_exprs(gen(items, index, blocks)),
    decreases items.len() - index, blocks.len() as int + 2,
{
    if index < 0 || index >= items.len() {
        assert(seq![blocks][0] == blocks);
    } else {
        lemma_gen_choices_exprs(items, index, blocks, 0);
    }
}

proof fn lemma_gen_choices_exprs(
    items: Seq<Seq<u8>>,
    index: int,
    blocks: Seq<Seq<Seq<u8>>>,
    b: int,
)
    requires
        items_exprs(items),
        part_exprs(blocks),
    ensures
        parts_exprs(gen_choices(items, index, blocks, b)),
    decreases items.len() - index, blocks.len() as int + 1 - b,
{
    if index < 0 || index >= items.len() {
    } else if 0 <= b < blocks.len() {
        let nb = blocks.update(b, blocks[b].push(items[index]));
        assert(items_exprs(blocks[b].push(items[index]))) by {
            assert(items_exprs(blocks[b]));
            assert forall|i: int| 0 <= i < blocks[b].len() + 1 implies is_expr(
                #[trigger] blocks[b].push(items[index])[i],
            ) by {
                if i < blocks[b].len() {
                    assert(blocks[b].push(items[index])[i] == blocks[b][i]);
                }
            }
        }
        assert(part_exprs(nb)) by {
            assert forall|k: int| 0 <= k < nb.len() implies items_exprs(#[trigger] nb[k]) by {
                if k != b {
                    assert(nb[k] == blocks[k]);
                }
            }
        }
        lemma_gen_exprs(items, index + 1, nb);
        lemma_gen_choices_exprs(items, index, blocks, b + 1);
        lemma_parts_exprs_concat(
            gen(items, index + 1, nb),
            gen_choices(items, index, blocks, b + 1),
        );
    } else {
        let nb = blocks.push(seq![items[index]]);
        assert(items_exprs(seq![items[index]])) by {
            assert(seq![items[index]][0] == items[index]);
        }
        assert(part_exprs(nb)) by {
            assert forall|k: int| 0 <= k < nb.len() implies items_exprs(#[trigger] nb[k]) by {
                if k < blocks.len() {
                    assert(nb[k] == blocks[k]);
                }
            }
        }
        lemma_gen_exprs(items, index + 1, nb);
    }
}

proof fn lemma_collect_exprs(acc: Seq<Seq<Seq<Seq<u8>>>>, ps: Seq<Seq<Seq<Seq<u8>>>>)
    requires
        parts_exprs(acc),
        parts_exprs(ps),
    ensures
        parts_exprs(collect(acc, ps)),
    decreases ps.len(),
{
    if ps.len() > 0 {
        let acc2 = keep(acc, ps[0]);
        assert(parts_exprs(acc2)) by {
            assert(part_exprs(ps[0]));
            if acc2 != acc {
                assert forall|j: int| 0 <= j < acc2.len() implies part_exprs(#[trigger] acc2[j]) by {
                    if j < acc.len() {
                        assert(acc2[j] == acc[j]);
                    }
                }
            }
        }
        assert(parts_exprs(ps.drop_first())) by {
            assert forall|j: int| 0 <= j < ps.len() - 1 implies part_exprs(
                #[trigger] ps.drop_first()[j],
            ) by {
                assert(ps.drop_first()[j] == ps[j + 1]);
            }
        }
        lemma_collect_exprs(acc2, ps.drop_first());
    }
}

/// Every element of every block of every partition is one of the items.
pub proof fn lemma_partitions_exprs(items: Seq<Seq<u8>>)
    requires
        items_exprs(items),
    ensures
        parts_exprs(partitions_of(items)),
{
    let e: Seq<Seq<Seq<u8>>> = seq![];
    lemma_gen_exprs(items, 0, e);
    lemma_collect_exprs(seq![], gen(items, 0, e));
}

// ---------------------------------------------------------------- what the partitions are

/// Every listed partition has nonempty blocks that hold, together, the multiset `m`.
pub open spec fn all_split(ps: Seq<Seq<Seq<Seq<u8>>>>, m: Multiset<Seq<u8>>) -> bool {
    forall|j: int|
        0 <= j < ps.len() ==> {
            &&& (#[trigger] ps[j]).flatten().to_multiset() == m
            &&& forall|k: int| 0 <= k < ps[j].len() ==> (#[trigger] ps[j][k]).len() > 0
        }
}

proof fn lemma_all_split_concat(
    a: Seq<Seq<Seq<Seq<u8>>>>,
    b: Seq<Seq<Seq<Seq<u8>>>>,
    m: Multiset<Seq<u8>>,
)
    requires
        all_split(a, m),
        all_split(b, m),
    ensures
        all_split(a + b, m),
{
    assert forall|j: int| 0 <= j < (a + b).len() implies {
        &&& (#[trigger] (a + b)[j]).flatten().to_multiset() == m
        &&& forall|k: int| 0 <= k < (a + b)[j].len() ==> (#[trigger] (a + b)[j][k]).len() > 0
    } by {
        if j < a.len() {
            assert((a + b)[j] == a[j]);
        } else {
            assert((a + b)[j] == b[j - a.len()]);
        }
    }
}

proof fn lemma_skip_multiset(items: Seq<Seq<u8>>, index: int)
    requires
        0 <= index < items.len(),
    ensures
        items.skip(index).to_multiset() == items.skip(index + 1).to_multiset().insert(items[index]),
{
    broadcast use vstd::multiset::group_multiset_axioms;
    broadcast use vstd::seq_lib::group_to_multiset_ensures;

    assert(items.skip(index) == seq![items[index]] + items.skip(index + 1));
    vstd::seq_lib::lemma_multiset_commutative(seq![items[index]], items.skip(index + 1));
    assert(seq![items[index]] == Seq::<Seq<u8>>::empty().push(items[index]));
    assert(Seq::<Seq<u8>>::empty().to_multiset() =~= Multiset::empty());
    assert(seq![items[index]].to_multiset() =~= Multiset::empty().insert(items[index]));
    assert(items.skip(index).to_multiset() =~= items.skip(index + 1).to_multiset().insert(
        items[index],
    ));
}

proof fn lemma_update_multiset(blocks: Seq<Seq<Seq<u8>>>, b: int, x: Seq<u8>)
    requires
        0 <= b < blocks.len(),
    ensures
        blocks.update(b, blocks[b].push(x)).flatten().to_multiset() == blocks.flatten().to_multiset().insert(
            x,
        ),
{
    broadcast use vstd::multiset::group_multiset_axioms;
    broadcast use vstd::seq_lib::group_to_multiset_ensures;

    let a = blocks.take(b);
    let c = blocks.skip(b + 1);
    let blk = blocks[b];
    let nb = blocks.update(b, blk.push(x));
    assert(blocks == a + seq![blk] + c);
    assert(nb == a + seq![blk.push(x)] + c);
    vstd::seq_lib::lemma_flatten_concat(a + seq![blk], c);
    vstd::seq_lib::lemma_flatten_concat(a, seq![blk]);
    vstd::seq_lib::lemma_flatten_concat(a + seq![blk.push(x)], c);
    vstd::seq_lib::lemma_flatten_concat(a, seq![blk.push(x)]);
    seq![blk].lemma_flatten_one_element();
    seq![blk.push(x)].lemma_flatten_one_element();
    vstd::seq_lib::lemma_multiset_commutative(a.flatten() + blk, c.flatten());
    vstd::seq_lib::lemma_multiset_commutative(a.flatten(), blk);
    vstd::seq_lib::lemma_multiset_commutative(a.flatten() + blk.push(x), c.flatten());
    vstd::seq_lib::lemma_multiset_commutative(a.flatten(), blk.push(x));
    assert(blk.push(x).to_multiset() =~= blk.to_multiset().insert(x));
    assert(nb.flatten().to_multiset() =~= blocks.flatten().to_multiset().insert(x));
}

proof fn lemma_push_multiset(blocks: Seq<Seq<Seq<u8>>>, x: Seq<u8>)
    ensures
        blocks.push(seq![x]).flatten().to_multiset() == blocks.flatten().to_multiset().insert(x),
{
    broadcast use vstd::multiset::group_multiset_axioms;
    broadcast use vstd::seq_lib::group_to_multiset_ensures;

    blocks.lemma_flatten_push(seq![x]);
    vstd::seq_lib::lemma_multiset_commutative(blocks.flatten(), seq![x]);
    assert(seq![x] == Seq::<Seq<u8>>::empty().push(x));
    assert(Seq::<Seq<u8>>::empty().to_multiset() =~= Multiset::empty());
    assert(blocks.push(seq![x]).flatten().to_multiset() =~= blocks.flatten().to_multiset().insert(
        x,
    ));
}

proof fn lemma_gen_split(
    items: Seq<Seq<u8>>,
    index: int,
    blocks: Seq<Seq<Seq<u8>>>,
    m: Multiset<Seq<u8>>,
)
    requires
        0 <= index <= items.len(),
        forall|k: int| 0 <= k < blocks.len() ==> (#[trigger] blocks[k]).len() > 0,
        blocks.flatten().to_multiset().add(items.skip(index).to_multiset()) == m,
    ensures
        all_split(gen(items, index, blocks), m),
    decreases items.len() - index, blocks.len() as int + 2,
{
    broadcast use vstd::multiset::group_multiset_axioms;
    broadcast use vstd::seq_lib::group_to_multiset_ensures;

    if index >= items.len() {
        assert(items.skip(index) == Seq::<Seq<u8>>::empty());
        assert(items.skip(index).to_multiset() =~= Multiset::<Seq<u8>>::empty());
        assert(seq![blocks][0] == blocks);
        assert(blocks.flatten().to_multiset() =~= m);
    } else {
        lemma_gen_choices_split(items, index, blocks, 0, m);
    }
}

proof fn lemma_gen_choices_split(
    items: Seq<Seq<u8>>,
    index: int,
    blocks: Seq<Seq<Seq<u8>>>,
    b: int,
    m: Multiset<Seq<u8>>,
)
    requires
        0 <= index < items.len(),
        0 <= b,
        forall|k: int| 0 <= k < blocks.len() ==> (#[trigger] blocks[k]).len() > 0,
        blocks.flatten().to_multiset().add(items.skip(index).to_multiset()) == m,
    ensures
        all_split(gen_choices(items, index, blocks, b), m),
    decreases items.len() - index, blocks.len() as int + 1 - b,
{
    broadcast use vstd::multiset::group_multiset_axioms;

    let x = items[index];
    lemma_skip_multiset(items, index);
    if b < blocks.len() {
        let nb = blocks.update(b, blocks[b].push(x));
        lemma_update_multiset(blocks, b, x);
        assert(nb.flatten().to_multiset().add(items.skip(index + 1).to_multiset()) =~= m);
        assert forall|k: int| 0 <= k < nb.len() implies (#[trigger] nb[k]).len() > 0 by {
            if k != b {
                assert(nb[k] == blocks[k]);
            }
        }
        lemma_gen_split(items, index + 1, nb, m);
        lemma_gen_choices_split(items, index, blocks, b + 1, m);
        lemma_all_split_concat(
            gen(items, index + 1, nb),
            gen_choices(items, index, blocks, b + 1),
            m,
        );
    } else {
        let nb = blocks.push(seq![x]);
        lemma_push_multiset(blocks, x);
        assert(nb.flatten().to_multiset().add(items.skip(index + 1).to_multiset()) =~= m);
        assert forall|k: int| 0 <= k < nb.len() implies (#[trigger] nb[k]).len() > 0 by {
            if k < blocks.len() {
                assert(nb[k] == blocks[k]);
            }
        }
        lemma_gen_split(items, index + 1, nb, m);
    }
}

/// What `collect` keeps: partitions of at least two blocks, none twice, each from the list.
proof fn lemma_collect_props(
    acc: Seq<Seq<Seq<Seq<u8>>>>,
    ps: Seq<Seq<Seq<Seq<u8>>>>,
    m: Multiset<Seq<u8>>,
)
    requires
        acc.no_duplicates(),
        all_split(acc, m),
        all_split(ps, m),
        forall|j: int| 0 <= j < acc.len() ==> (#[trigger] acc[j]).len() >= 2,
    ensures
        collect(acc, ps).no_duplicates(),
        all_split(collect(acc, ps), m),
        forall|j: int| 0 <= j < collect(acc, ps).len() ==> (#[trigger] collect(acc, ps)[j]).len()
            >= 2,
    decreases ps.len(),
{
    if ps.len() > 0 {
        let acc2 = keep(acc, ps[0]);
        let p0 = ps[0];
        if acc2 != acc {
            assert(acc2 == acc.push(p0));
            assert(acc2.no_duplicates()) by {
                assert forall|i: int, j: int|
                    0 <= i < acc2.len() && 0 <= j < acc2.len() && i != j implies acc2[i]
                    != acc2[j] by {
                    if i == acc.len() {
                        assert(!acc.contains(p0));
                        assert(acc2[j] == acc[j]);
                    } else if j == acc.len() {
                        assert(!acc.contains(p0));
                        assert(acc2[i] == acc[i]);
                    }
                }
            }
            assert(all_split(acc2, m)) by {
                assert forall|j: int| 0 <= j < acc2.len() implies {
                    &&& (#[trigger] acc2[j]).flatten().to_multiset() == m
                    &&& forall|k: int| 0 <= k < acc2[j].len() ==> (#[trigger] acc2[j][k]).len() > 0
                } by {
                    if j < acc.len() {
                        assert(acc2[j] == acc[j]);
                    } else {
                        assert(acc2[j] == ps[0]);
                    }
                }
            }
            assert forall|j: int| 0 <= j < acc2.len() implies (#[trigger] acc2[j]).len() >= 2 by {
                if j < acc.len() {
                    assert(acc2[j] == acc[j]);
                }
            }
        }
        assert(all_split(ps.drop_first(), m)) by {
            assert forall|j: int| 0 <= j < ps.drop_first().len() implies {
                &&& (#[trigger] ps.drop_first()[j]).flatten().to_multiset() == m
                &&& forall|k: int|
                    0 <= k < ps.drop_first()[j].len() ==> (#[trigger] ps.drop_first()[j][k]).len() > 0
            } by {
                assert(ps.drop_first()[j] == ps[j + 1]);
            }
        }
        lemma_collect_props(acc2, ps.drop_first(), m);
    }
}

/// Each listed partition splits the items: it has at least two blocks, none empty, and its
/// blocks together hold the items (as a multiset); no partition is listed twice.
pub proof fn law_partitions_split_the_items(items: Seq<Seq<u8>>)
    ensures
        partitions_of(items).no_duplicates(),
        all_split(partitions_of(items), items.to_multiset()),
        forall|j: int|
            0 <= j < partitions_of(items).len() ==> (#[trigger] partitions_of(items)[j]).len() >= 2,
{
    broadcast use vstd::multiset::group_multiset_axioms;
    broadcast use vstd::seq_lib::group_to_multiset_ensures;

    let e: Seq<Seq<Seq<u8>>> = seq![];
    assert(e.flatten() == Seq::<Seq<u8>>::empty());
    assert(Seq::<Seq<u8>>::empty().to_multiset() =~= Multiset::<Seq<u8>>::empty());
    assert(items.skip(0) == items);
    assert(e.flatten().to_multiset().add(items.skip(0).to_multiset()) =~= items.to_multiset());
    lemma_gen_split(items, 0, e, items.to_multiset());
    let empty: Seq<Seq<Seq<Seq<u8>>>> = seq![];
    lemma_collect_props(empty, gen(items, 0, e), items.to_multiset());
}

/// The partition that placing the items from `index` on gives, item `i` going into block
/// `a[i]` where that block exists and into a new block otherwise.
pub open spec fn place(items: Seq<Seq<u8>>, index: int, blocks: Seq<Seq<Seq<u8>>>, a: Seq<nat>) -> Seq<
    Seq<Seq<u8>>,
>
    decreases items.len() - index,
{
    if index < 0 || index >= items.len() {
        blocks
    } else if index < a.len() && a[index] < blocks.len() {
        place(
            items,
            index + 1,
            blocks.update(a[index] as int, blocks[a[index] as int].push(items[index])),
            a,
        )
    } else {
        place(items, index + 1, blocks.push(seq![items[index]]), a)
    }
}

proof fn lemma_gen_contains_place(
    items: Seq<Seq<u8>>,
    index: int,
    blocks: Seq<Seq<Seq<u8>>>,
    a: Seq<nat>,
)
    requires
        0 <= index,
    ensures
        gen(items, index, blocks).contains(place(items, index, blocks, a)),
    decreases items.len() - index, blocks.len() as int + 2,
{
    if index >= items.len() {
        assert(gen(items, index, blocks)[0] == blocks);
    } else {
        lemma_gen_choices_contains_place(items, index, blocks, a, 0);
    }
}

proof fn lemma_gen_choices_contains_place(
    items: Seq<Seq<u8>>,
    index: int,
    blocks: Seq<Seq<Seq<u8>>>,
    a: Seq<nat>,
    c: int,
)
    requires
        0 <= index < items.len(),
        0 <= c,
        c <= blocks.len(),
        index < a.len() && a[index] < blocks.len() ==> c <= a[index],
    ensures
        gen_choices(items, index, blocks, c).contains(place(items, index, blocks, a)),
    decreases items.len() - index, blocks.len() as int + 1 - c,
{
    let q = place(items, index, blocks, a);
    if c < blocks.len() {
        let nb = blocks.update(c, blocks[c].push(items[index]));
        let first = gen(items, index + 1, nb);
        let rest = gen_choices(items, index, blocks, c + 1);
        assert(gen_choices(items, index, blocks, c) == first + rest);
        if index < a.len() && a[index] == c {
            lemma_gen_contains_place(items, index + 1, nb, a);
            let k = choose|k: int| 0 <= k < first.len() && first[k] == q;
            assert((first + rest)[k] == q);
        } else {
            lemma_gen_choices_contains_place(items, index, blocks, a, c + 1);
            let k = choose|k: int| 0 <= k < rest.len() && rest[k] == q;
            assert((first + rest)[first.len() + k] == q);
        }
    } else {
        lemma_gen_contains_place(items, index + 1, blocks.push(seq![items[index]]), a);
    }
}

proof fn lemma_collect_contains(
    acc: Seq<Seq<Seq<Seq<u8>>>>,
    ps: Seq<Seq<Seq<Seq<u8>>>>,
    q: Seq<Seq<Seq<u8>>>,
)
    requires
        acc.contains(q) || (ps.contains(q) && q.len() > 1),
    ensures
        collect(acc, ps).contains(q),
    decreases ps.len(),
{
    if ps.len() > 0 {
        let acc2 = keep(acc, ps[0]);
        if acc.contains(q) {
            let k = choose|k: int| 0 <= k < acc.len() && acc[k] == q;
            assert(acc2[k] == q);
        } else if ps[0] == q {
            assert(acc2[acc.len() as int] == q);
        } else {
            let k = choose|k: int| 0 <= k < ps.len() && ps[k] == q;
            assert(ps.drop_first()[k - 1] == q);
        }
        lemma_collect_contains(acc2, ps.drop_first(), q);
    }
}

/// Every way of placing the items one after another, each into a block already there or into
/// a new block, that ends with at least two blocks is listed.
pub proof fn law_partitions_list_every_placement(items: Seq<Seq<u8>>, a: Seq<nat>)
    requires
        place(items, 0, seq![], a).len() >= 2,
    ensures
        partitions_of(items).contains(place(items, 0, seq![], a)),
{
    let e: Seq<Seq<Seq<u8>>> = seq![];
    lemma_gen_contains_place(items, 0, e, a);
    lemma_collect_contains(seq![], gen(items, 0, e), place(items, 0, e, a));
}

// ---------------------------------------------------------------- writing partitions

/// Why a tuple of `n` elements cannot be written, if it cannot.
pub open spec fn arity_error(n: nat) -> Option<HelperError> {
    if n > 255 {
        Some(HelperError::TupleArityExceeds255)
    } else if n >= 64 {
        Some(HelperError::TupleArityUnencodable)
    } else {
        None
    }
}

/// The items of a tuple of the given elements.
pub open spec fn tuple_toks(cs: Seq<Seq<Tok>>) -> Seq<Tok> {
    seq![Tok::Arity(cs.len() as u8)] + cs.flatten()
}

pub open spec fn elem_toks(b: Seq<Seq<u8>>) -> Seq<Seq<Tok>> {
    b.map_values(|x: Seq<u8>| toks(x))
}

pub open spec fn block_toks(b: Seq<Seq<u8>>) -> Seq<Tok> {
    tuple_toks(elem_toks(b))
}

pub open spec fn blocks_toks(p: Seq<Seq<Seq<u8>>>) -> Seq<Seq<Tok>> {
    p.map_values(|b: Seq<Seq<u8>>| block_toks(b))
}

pub open spec fn part_toks(p: Seq<Seq<Seq<u8>>>) -> Seq<Tok> {
    tuple_toks(blocks_toks(p))
}

pub open spec fn parts_toks_list(ps: Seq<Seq<Seq<Seq<u8>>>>) -> Seq<Seq<Tok>> {
    ps.map_values(|p: Seq<Seq<Seq<u8>>>| part_toks(p))
}

/// The tuple of the partitions, each a tuple of blocks, each a tuple of elements.
pub open spec fn parts_toks(ps: Seq<Seq<Seq<Seq<u8>>>>) -> Seq<Tok> {
    tuple_toks(parts_toks_list(ps))
}

/// The first block that cannot be written, in order.
pub open spec fn blocks_error(bs: Seq<Seq<Seq<u8>>>) -> Option<HelperError>
    decreases bs.len(),
{
    if bs.len() == 0 {
        None
    } else if arity_error(bs[0].len()) is Some {
        arity_error(bs[0].len())
    } else {
        blocks_error(bs.drop_first())
    }
}

pub open spec fn part_error(p: Seq<Seq<Seq<u8>>>) -> Option<HelperError> {
    if arity_error(p.len()) is Some {
        arity_error(p.len())
    } else {
        blocks_error(p)
    }
}

pub open spec fn parts_list_error(ps: Seq<Seq<Seq<Seq<u8>>>>) -> Option<HelperError>
    decreases ps.len(),
{
    if ps.len() == 0 {
        None
    } else if part_error(ps[0]) is Some {
        part_error(ps[0])
    } else {
        parts_list_error(ps.drop_first())
    }
}

/// The first tuple that cannot be written: the whole list first, then each partition and its
/// blocks in order.
pub open spec fn parts_error(ps: Seq<Seq<Seq<Seq<u8>>>>) -> Option<HelperError> {
    if arity_error(ps.len()) is Some {
        arity_error(ps.len())
    } else {
        parts_list_error(ps)
    }
}

/// What `write_partitions` gives: the tuple of the partitions with its variables renumbered.
pub open spec fn write_partitions_spec(ps: Seq<Seq<Seq<Seq<u8>>>>) -> Result<Seq<u8>, HelperError> {
    match parts_error(ps) {
        Some(e) => Err(e),
        None => match normalize_toks(parts_toks(ps)) {
            Ok(o) => Ok(encode(o)),
            Err(e) => Err(e),
        },
    }
}

/// Expressions one after another make a forest.
pub proof fn lemma_flatten_forest(cs: Seq<Seq<Tok>>)
    requires
        forall|i: int| 0 <= i < cs.len() ==> complete(#[trigger] cs[i]) && all_ok(cs[i]),
    ensures
        forest(cs.flatten(), cs.len() as int),
        all_ok(cs.flatten()),
    decreases cs.len(),
{
    if cs.len() == 0 {
        assert(cs.flatten() == Seq::<Tok>::empty());
        assert(bal(Seq::<Tok>::empty()) == 0);
    } else {
        let init = cs.drop_last();
        assert forall|i: int| 0 <= i < init.len() implies complete(#[trigger] init[i]) && all_ok(
            init[i],
        ) by {
            assert(init[i] == cs[i]);
        }
        lemma_flatten_forest(init);
        assert(cs == init.push(cs.last()));
        init.lemma_flatten_push(cs.last());
        assert(complete(cs.last()) && all_ok(cs.last()));
        lemma_forest_concat(init.flatten(), init.len() as int, cs.last(), 1);
        let f = cs.flatten();
        assert forall|i: int| 0 <= i < f.len() implies tok_ok(#[trigger] f[i]) by {
            if i < init.flatten().len() {
                assert(f[i] == init.flatten()[i]);
            } else {
                assert(f[i] == cs.last()[i - init.flatten().len()]);
            }
        }
    }
}

/// A tuple of fewer than 64 expressions is an expression.
pub proof fn lemma_tuple_toks_complete(cs: Seq<Seq<Tok>>)
    requires
        cs.len() < 64,
        forall|i: int| 0 <= i < cs.len() ==> complete(#[trigger] cs[i]) && all_ok(cs[i]),
    ensures
        complete(tuple_toks(cs)),
        all_ok(tuple_toks(cs)),
{
    lemma_flatten_forest(cs);
    lemma_tuple_complete(cs.len() as u8, cs.flatten());
    let t = tuple_toks(cs);
    assert forall|i: int| 0 <= i < t.len() implies tok_ok(#[trigger] t[i]) by {
        if i > 0 {
            assert(t[i] == cs.flatten()[i - 1]);
        }
    }
}

proof fn lemma_blocks_error_none(bs: Seq<Seq<Seq<u8>>>)
    requires
        blocks_error(bs) is None,
    ensures
        forall|k: int| 0 <= k < bs.len() ==> arity_error((#[trigger] bs[k]).len()) is None,
    decreases bs.len(),
{
    if bs.len() > 0 {
        lemma_blocks_error_none(bs.drop_first());
        assert forall|k: int| 0 <= k < bs.len() implies arity_error((#[trigger] bs[k]).len()) is None by {
            if k > 0 {
                assert(bs[k] == bs.drop_first()[k - 1]);
            }
        }
    }
}

proof fn lemma_parts_list_error_none(ps: Seq<Seq<Seq<Seq<u8>>>>)
    requires
        parts_list_error(ps) is None,
    ensures
        forall|j: int| 0 <= j < ps.len() ==> part_error(#[trigger] ps[j]) is None,
    decreases ps.len(),
{
    if ps.len() > 0 {
        lemma_parts_list_error_none(ps.drop_first());
        assert forall|j: int| 0 <= j < ps.len() implies part_error(#[trigger] ps[j]) is None by {
            if j > 0 {
                assert(ps[j] == ps.drop_first()[j - 1]);
            }
        }
    }
}

proof fn lemma_block_toks_complete(b: Seq<Seq<u8>>)
    requires
        items_exprs(b),
        b.len() < 64,
    ensures
        complete(block_toks(b)),
        all_ok(block_toks(b)),
{
    let cs = elem_toks(b);
    assert forall|i: int| 0 <= i < cs.len() implies complete(#[trigger] cs[i]) && all_ok(cs[i]) by {
        assert(is_expr(b[i]));
        law_encode_scan(b[i]);
    }
    lemma_tuple_toks_complete(cs);
}

proof fn lemma_part_toks_complete(p: Seq<Seq<Seq<u8>>>)
    requires
        part_exprs(p),
        part_error(p) is None,
    ensures
        complete(part_toks(p)),
        all_ok(part_toks(p)),
{
    lemma_blocks_error_none(p);
    let cs = blocks_toks(p);
    assert forall|i: int| 0 <= i < cs.len() implies complete(#[trigger] cs[i]) && all_ok(cs[i]) by {
        assert(arity_error(p[i].len()) is None);
        assert(items_exprs(p[i]));
        lemma_block_toks_complete(p[i]);
    }
    lemma_tuple_toks_complete(cs);
}

proof fn lemma_parts_toks_complete(ps: Seq<Seq<Seq<Seq<u8>>>>)
    requires
        parts_exprs(ps),
        parts_error(ps) is None,
    ensures
        complete(parts_toks(ps)),
        all_ok(parts_toks(ps)),
{
    lemma_parts_list_error_none(ps);
    let cs = parts_toks_list(ps);
    assert forall|i: int| 0 <= i < cs.len() implies complete(#[trigger] cs[i]) && all_ok(cs[i]) by {
        assert(part_exprs(ps[i]));
        lemma_part_toks_complete(ps[i]);
    }
    lemma_tuple_toks_complete(cs);
}

/// Appends a copy of the items `v`.
fn append_tokens(out: &mut Vec<Token>, v: &Vec<Token>)
    ensures
        toks_of(final(out)@) == toks_of(old(out)@) + toks_of(v@),
{
    let ghost start = toks_of(out@);
    let mut i: usize = 0;
    while i < v.len()
        invariant
            i <= v@.len(),
            toks_of(out@) == start + toks_of(v@).take(i as int),
        decreases v.len() - i,
    {
        let t = copy_token(&v[i]);
        let ghost before = toks_of(out@);
        out.push(t);
        assert(toks_of(out@) == before.push(t@));
        assert(toks_of(v@).take(i + 1) == toks_of(v@).take(i as int).push(toks_of(v@)[i as int]));
        i = i + 1;
    }
    assert(toks_of(v@).take(v@.len() as int) == toks_of(v@));
}

/// Appends a tuple of the given elements.
fn push_block(out: &mut Vec<Token>, b: &Vec<Vec<u8>>) -> (r: Result<(), HelperError>)
    requires
        items_exprs(bview(b@)),
    ensures
        match r {
            Ok(_) => arity_error(b@.len()) is None && toks_of(final(out)@) == toks_of(old(out)@)
                + block_toks(bview(b@)),
            Err(e) => arity_error(b@.len()) == Some(e),
        },
{
    if b.len() > 255 {
        return Err(HelperError::TupleArityExceeds255);
    }
    if b.len() >= 64 {
        return Err(HelperError::TupleArityUnencodable);
    }
    let ghost xs = bview(b@);
    let ghost start = toks_of(out@);
    out.push(Token::Arity(b.len() as u8));
    let mut i: usize = 0;
    assert(elem_toks(xs).take(0).flatten() == Seq::<Tok>::empty());
    while i < b.len()
        invariant
            i <= b@.len() < 64,
            xs == bview(b@),
            items_exprs(xs),
            toks_of(out@) == start + seq![Tok::Arity(b@.len() as u8)] + elem_toks(xs).take(
                i as int,
            ).flatten(),
        decreases b.len() - i,
    {
        assert(is_expr(xs[i as int]));
        assert(b@[i as int]@ == xs[i as int]);
        let v = expr_tokens(b[i].as_slice());
        let ghost before = toks_of(out@);
        append_tokens(out, &v);
        proof {
            let cs = elem_toks(xs);
            assert(cs.take(i + 1) == cs.take(i as int).push(cs[i as int]));
            cs.take(i as int).lemma_flatten_push(cs[i as int]);
            assert(cs[i as int] == toks(xs[i as int]));
        }
        i = i + 1;
    }
    assert(elem_toks(xs).take(b@.len() as int) == elem_toks(xs));
    assert(toks_of(out@) == start + block_toks(xs));
    Ok(())
}

/// Appends a tuple of tuples.
fn push_part(out: &mut Vec<Token>, p: &Vec<Vec<Vec<u8>>>) -> (r: Result<(), HelperError>)
    requires
        part_exprs(pview(p@)),
    ensures
        match r {
            Ok(_) => part_error(pview(p@)) is None && toks_of(final(out)@) == toks_of(old(out)@)
                + part_toks(pview(p@)),
            Err(e) => part_error(pview(p@)) == Some(e),
        },
{
    if p.len() > 255 {
        return Err(HelperError::TupleArityExceeds255);
    }
    if p.len() >= 64 {
        return Err(HelperError::TupleArityUnencodable);
    }
    let ghost bs = pview(p@);
    let ghost start = toks_of(out@);
    out.push(Token::Arity(p.len() as u8));
    let mut k: usize = 0;
    assert(blocks_toks(bs).take(0).flatten() == Seq::<Tok>::empty());
    assert(bs.skip(0) == bs);
    while k < p.len()
        invariant
            k <= p@.len() < 64,
            bs == pview(p@),
            part_exprs(bs),
            blocks_error(bs) == blocks_error(bs.skip(k as int)),
            toks_of(out@) == start + seq![Tok::Arity(p@.len() as u8)] + blocks_toks(bs).take(
                k as int,
            ).flatten(),
        decreases p.len() - k,
    {
        assert(bs[k as int] == bview(p@[k as int]@));
        assert(items_exprs(bs[k as int]));
        assert(bs.skip(k as int)[0] == bs[k as int]);
        assert(bs.skip(k as int).drop_first() == bs.skip(k + 1));
        match push_block(out, &p[k]) {
            Ok(_) => {},
            Err(e) => {
                return Err(e);
            },
        }
        proof {
            let cs = blocks_toks(bs);
            assert(cs.take(k + 1) == cs.take(k as int).push(cs[k as int]));
            cs.take(k as int).lemma_flatten_push(cs[k as int]);
        }
        k = k + 1;
    }
    assert(blocks_toks(bs).take(p@.len() as int) == blocks_toks(bs));
    assert(bs.skip(p@.len() as int).len() == 0);
    assert(toks_of(out@) == start + part_toks(bs));
    Ok(())
}

/// Writes the partitions as a tuple of tuples of tuples and renumbers its variables.
pub fn write_partitions(ps: &Vec<Vec<Vec<Vec<u8>>>>) -> (r: Result<Vec<u8>, HelperError>)
    requires
        parts_exprs(psview(ps@)),
    ensures
        bytes_res(r) == write_partitions_spec(psview(ps@)),
        r matches Ok(o) ==> is_expr(o@),
{
    let ghost all = psview(ps@);
    if ps.len() > 255 {
        return Err(HelperError::TupleArityExceeds255);
    }
    if ps.len() >= 64 {
        return Err(HelperError::TupleArityUnencodable);
    }
    let mut out: Vec<Token> = Vec::new();
    out.push(Token::Arity(ps.len() as u8));
    let mut j: usize = 0;
    assert(parts_toks_list(all).take(0).flatten() == Seq::<Tok>::empty());
    assert(all.skip(0) == all);
    assert(toks_of(out@) == seq![Tok::Arity(ps@.len() as u8)]);
    while j < ps.len()
        invariant
            j <= ps@.len() < 64,
            all == psview(ps@),
            parts_exprs(all),
            parts_list_error(all) == parts_list_error(all.skip(j as int)),
            toks_of(out@) == seq![Tok::Arity(ps@.len() as u8)] + parts_toks_list(all).take(
                j as int,
            ).flatten(),
        decreases ps.len() - j,
    {
        assert(all[j as int] == pview(ps@[j as int]@));
        assert(part_exprs(all[j as int]));
        assert(all.skip(j as int)[0] == all[j as int]);
        assert(all.skip(j as int).drop_first() == all.skip(j + 1));
        match push_part(&mut out, &ps[j]) {
            Ok(_) => {},
            Err(e) => {
                return Err(e);
            },
        }
        proof {
            let cs = parts_toks_list(all);
            assert(cs.take(j + 1) == cs.take(j as int).push(cs[j as int]));
            cs.take(j as int).lemma_flatten_push(cs[j as int]);
        }
        j = j + 1;
    }
    assert(parts_toks_list(all).take(ps@.len() as int) == parts_toks_list(all));
    assert(all.skip(ps@.len() as int).len() == 0);
    assert(toks_of(out@) == parts_toks(all));
    proof {
        lemma_parts_toks_complete(all);
    }
    match normalize_tokens(&out) {
        Ok(o) => {
            proof {
                let ts = parts_toks(all);
                lemma_norm_shape(ts, 0, norm_init());
                assert(ts.skip(0) == ts);
                lemma_same_shape_complete(ts, toks_of(o@), 1);
                law_scan_encode(toks_of(o@));
            }
            Ok(encode_tokens(&o))
        },
        Err(e) => Err(e),
    }
}

// ---------------------------------------------------------------- tuples and partitions

/// The `k` expressions that follow one another from item `pos` on.
pub open spec fn tuple_elems(ts: Seq<Tok>, pos: int, k: nat) -> Seq<Seq<Tok>>
    decreases k,
{
    if k == 0 {
        seq![]
    } else {
        let e = seg_end(ts, pos, 1);
        seq![ts.subrange(pos, e)] + tuple_elems(ts, e, (k - 1) as nat)
    }
}

pub open spec fn encode_all(cs: Seq<Seq<Tok>>) -> Seq<Seq<u8>> {
    cs.map_values(|c: Seq<Tok>| encode(c))
}

/// The elements of a tuple, or `NotTuple`.
pub open spec fn tuple_items_spec(s: Seq<u8>) -> Result<Seq<Seq<u8>>, HelperError> {
    match toks(s)[0] {
        Tok::Arity(n) => Ok(encode_all(tuple_elems(toks(s), 1, n as nat))),
        _ => Err(HelperError::NotTuple),
    }
}

pub open spec fn items_res(r: Result<Vec<Vec<u8>>, HelperError>) -> Result<
    Seq<Seq<u8>>,
    HelperError,
> {
    match r {
        Ok(c) => Ok(bview(c@)),
        Err(e) => Err(e),
    }
}

pub proof fn lemma_encode_flatten(cs: Seq<Seq<Tok>>)
    ensures
        encode(cs.flatten()) == encode_all(cs).flatten(),
    decreases cs.len(),
{
    if cs.len() == 0 {
        assert(cs.flatten() == Seq::<Tok>::empty());
        assert(encode_all(cs) == Seq::<Seq<u8>>::empty());
        assert(encode_all(cs).flatten() == Seq::<u8>::empty());
    } else {
        let init = cs.drop_last();
        lemma_encode_flatten(init);
        assert(cs == init.push(cs.last()));
        init.lemma_flatten_push(cs.last());
        lemma_encode_concat(init.flatten(), cs.last());
        assert(encode_all(cs) == encode_all(init).push(encode(cs.last())));
        encode_all(init).lemma_flatten_push(encode(cs.last()));
    }
}

/// Expressions written one after another can be read back in one way only: two lists of as
/// many expressions with the same bytes are the same list. So the elements that `tuple_items`
/// gives are the only ones its contract admits.
pub proof fn law_tuple_split_unique(cs1: Seq<Seq<u8>>, cs2: Seq<Seq<u8>>)
    requires
        cs1.len() == cs2.len(),
        items_exprs(cs1),
        items_exprs(cs2),
        cs1.flatten() == cs2.flatten(),
    ensures
        cs1 == cs2,
    decreases cs1.len(),
{
    if cs1.len() > 0 {
        let r1 = cs1.drop_first();
        let r2 = cs2.drop_first();
        assert(cs1.flatten() == cs1[0] + r1.flatten());
        assert(cs2.flatten() == cs2[0] + r2.flatten());
        assert(is_expr(cs1[0]) && is_expr(cs2[0]));
        law_expr_prefix_unique(cs1[0], r1.flatten(), cs2[0], r2.flatten());
        assert(items_exprs(r1)) by {
            assert forall|i: int| 0 <= i < r1.len() implies is_expr(#[trigger] r1[i]) by {
                assert(r1[i] == cs1[i + 1]);
            }
        }
        assert(items_exprs(r2)) by {
            assert forall|i: int| 0 <= i < r2.len() implies is_expr(#[trigger] r2[i]) by {
                assert(r2[i] == cs2[i + 1]);
            }
        }
        law_tuple_split_unique(r1, r2);
        assert(cs1 == seq![cs1[0]] + r1);
        assert(cs2 == seq![cs2[0]] + r2);
    }
}

/// The elements of a tuple expression.
pub fn tuple_items(arg: &[u8]) -> (r: Result<Vec<Vec<u8>>, HelperError>)
    requires
        is_expr(arg@),
    ensures
        items_res(r) == tuple_items_spec(arg@),
        r matches Ok(c) ==> {
            &&& c@.len() == arg@[0]
            &&& items_exprs(bview(c@))
            &&& arg@ == seq![arg@[0]] + bview(c@).flatten()
        },
{
    let v = expr_tokens(arg);
    let ghost ts = toks_of(v@);
    assert(ts.len() > 0) by {
        if ts.len() == 0 {
            assert(bal(ts) == 0);
        }
    }
    assert(ts[0] == v@[0]@);
    let n: u8 = match &v[0] {
        Token::Arity(a) => *a,
        _ => {
            return Err(HelperError::NotTuple);
        },
    };
    proof {
        assert(ts == seq![Tok::Arity(n)] + ts.skip(1));
        lemma_tuple_complete(n, ts.skip(1));
    }
    let mut out: Vec<Vec<u8>> = Vec::new();
    let mut pos: usize = 1;
    let mut j: u8 = 0;
    let ghost mut segs: Seq<Seq<Tok>> = seq![];
    assert(ts.subrange(1, 1) == Seq::<Tok>::empty());
    assert(segs.flatten() == Seq::<Tok>::empty());
    while j < n
        invariant
            ts == toks_of(v@),
            all_ok(ts),
            ts[0] == Tok::Arity(n),
            1 <= pos <= v@.len(),
            j <= n,
            segs.len() == j,
            forest(ts.skip(pos as int), n - j),
            tuple_elems(ts, 1, n as nat) == segs + tuple_elems(ts, pos as int, (n - j) as nat),
            bview(out@) == encode_all(segs),
            segs.flatten() == ts.subrange(1, pos as int),
            forall|i: int| 0 <= i < segs.len() ==> complete(#[trigger] segs[i]) && all_ok(segs[i]),
        decreases n - j,
    {
        let e = tree_end(&v, pos, Ghost((n - j) as int));
        proof {
            lemma_seg_end(ts, pos as int, e as int);
        }
        let ghost seg = ts.subrange(pos as int, e as int);
        let child = encode_range(&v, pos, e);
        let ghost before = out@;
        out.push(child);
        proof {
            assert(tuple_elems(ts, pos as int, (n - j) as nat) == seq![seg] + tuple_elems(
                ts,
                e as int,
                (n - j - 1) as nat,
            ));
            assert(segs + (seq![seg] + tuple_elems(ts, e as int, (n - j - 1) as nat)) == segs.push(
                seg,
            ) + tuple_elems(ts, e as int, (n - j - 1) as nat));
            segs.lemma_flatten_push(seg);
            assert(ts.subrange(1, e as int) == ts.subrange(1, pos as int) + seg);
            assert(all_ok(seg)) by {
                assert forall|q: int| 0 <= q < seg.len() implies tok_ok(#[trigger] seg[q]) by {
                    assert(seg[q] == ts[pos + q]);
                }
            }
            assert(out@ == before.push(child));
            assert forall|i: int| 0 <= i < before.len() implies bview(out@)[i] == bview(before)[i] by {
                assert(out@[i] == before[i]);
            }
            assert(bview(out@)[before.len() as int] == encode(seg));
            assert(bview(before).len() == segs.len());
            assert forall|i: int| 0 <= i < segs.len() implies encode_all(segs.push(seg))[i]
                == encode_all(segs)[i] by {
                assert(segs.push(seg)[i] == segs[i]);
            }
            assert(encode_all(segs.push(seg))[segs.len() as int] == encode(seg));
            let target = encode_all(segs.push(seg));
            assert(bview(out@).len() == target.len());
            assert forall|i: int| 0 <= i < target.len() implies #[trigger] bview(out@)[i] == target[i] by {
                if i < segs.len() {
                    assert(bview(out@)[i] == bview(before)[i]);
                    assert(bview(before)[i] == encode_all(segs)[i]);
                    assert(target[i] == encode_all(segs)[i]);
                }
            }
            assert(bview(out@) =~= target);
            segs = segs.push(seg);
        }
        pos = e;
        j = j + 1;
    }
    proof {
        if pos < v@.len() {
            assert(ts.skip(pos as int).take(0) == Seq::<Tok>::empty());
            assert(bal(ts.skip(pos as int).take(0)) == 0);
        }
        assert(pos == v@.len());
        assert(tuple_elems(ts, pos as int, 0) == Seq::<Seq<Tok>>::empty());
        assert(segs + Seq::<Seq<Tok>>::empty() == segs);
        law_encode_scan(arg@);
        assert(arg@ == encode(ts));
        assert(ts.drop_first() == ts.subrange(1, ts.len() as int));
        assert(encode(ts) == tok_bytes(ts[0]) + encode(ts.drop_first()));
        lemma_encode_flatten(segs);
        assert(arg@[0] == n);
        assert forall|i: int| 0 <= i < bview(out@).len() implies is_expr(
            #[trigger] bview(out@)[i],
        ) by {
            assert(bview(out@)[i] == encode(segs[i]));
            law_scan_encode(segs[i]);
        }
    }
    Ok(out)
}

/// What `partitions` gives: the partitions, into at least two blocks, of the elements of the
/// tuple argument, each once, as a tuple of tuples of tuples with renumbered variables.
pub open spec fn partitions_spec(s: Seq<u8>) -> Result<Seq<u8>, HelperError> {
    match tuple_items_spec(s) {
        Err(e) => Err(e),
        Ok(items) => write_partitions_spec(partitions_of(items)),
    }
}

/// The partitions of the elements of a tuple into at least two blocks, each partition once, as
/// a tuple of partitions, each a tuple of blocks, each a tuple of elements; variables are
/// renumbered in the order they occur. Fails where the argument is not a tuple, where a tuple
/// to write has more than 255 elements, where one has 64 to 255 (more than one arity byte
/// holds), or where renumbering needs more than 64 variables.
pub fn partitions(arg: &[u8]) -> (r: Result<Vec<u8>, HelperError>)
    requires
        is_expr(arg@),
    ensures
        bytes_res(r) == partitions_spec(arg@),
        r matches Ok(o) ==> is_expr(o@),
{
    let items = match tuple_items(arg) {
        Ok(items) => items,
        Err(e) => {
            return Err(e);
        },
    };
    let ps = partitions_of_items(&items);
    proof {
        lemma_partitions_exprs(bview(items@));
    }
    write_partitions(&ps)
}

// ---------------------------------------------------------------- how partitions are written

/// A tuple of the given elements, as bytes: the number of elements, then the elements one after
/// another.
pub open spec fn tuple_bytes(cs: Seq<Seq<u8>>) -> Seq<u8> {
    seq![cs.len() as u8] + cs.flatten()
}

/// Each block of a partition as the tuple of its elements.
pub open spec fn block_tuples(p: Seq<Seq<Seq<u8>>>) -> Seq<Seq<u8>> {
    p.map_values(|b: Seq<Seq<u8>>| tuple_bytes(b))
}

/// Each partition as the tuple of its blocks, each the tuple of its elements.
pub open spec fn partition_tuples(ps: Seq<Seq<Seq<Seq<u8>>>>) -> Seq<Seq<u8>> {
    ps.map_values(|p: Seq<Seq<Seq<u8>>>| tuple_bytes(block_tuples(p)))
}

/// The list of partitions as a tuple of partitions, each a tuple of blocks, each a tuple of
/// elements.
pub open spec fn nested_tuples(ps: Seq<Seq<Seq<Seq<u8>>>>) -> Seq<u8> {
    tuple_bytes(partition_tuples(ps))
}

proof fn lemma_encode_tuple_toks(cs: Seq<Seq<Tok>>)
    ensures
        encode(tuple_toks(cs)) == tuple_bytes(encode_all(cs)),
{
    let t = tuple_toks(cs);
    assert(t.drop_first() == cs.flatten());
    assert(encode(t) == tok_bytes(t[0]) + encode(t.drop_first()));
    lemma_encode_flatten(cs);
}

proof fn lemma_encode_block(b: Seq<Seq<u8>>)
    requires
        items_exprs(b),
    ensures
        encode(block_toks(b)) == tuple_bytes(b),
{
    lemma_encode_tuple_toks(elem_toks(b));
    assert forall|i: int| 0 <= i < b.len() implies #[trigger] encode_all(elem_toks(b))[i] == b[i] by {
        assert(is_expr(b[i]));
        law_encode_scan(b[i]);
    }
    assert(encode_all(elem_toks(b)) =~= b);
}

proof fn lemma_encode_part(p: Seq<Seq<Seq<u8>>>)
    requires
        part_exprs(p),
    ensures
        encode(part_toks(p)) == tuple_bytes(block_tuples(p)),
{
    lemma_encode_tuple_toks(blocks_toks(p));
    assert forall|i: int| 0 <= i < p.len() implies #[trigger] encode_all(blocks_toks(p))[i]
        == block_tuples(p)[i] by {
        assert(items_exprs(p[i]));
        lemma_encode_block(p[i]);
    }
    assert(encode_all(blocks_toks(p)) =~= block_tuples(p));
}

proof fn lemma_encode_parts(ps: Seq<Seq<Seq<Seq<u8>>>>)
    requires
        parts_exprs(ps),
    ensures
        encode(parts_toks(ps)) == nested_tuples(ps),
{
    lemma_encode_tuple_toks(parts_toks_list(ps));
    assert forall|i: int| 0 <= i < ps.len() implies #[trigger] encode_all(parts_toks_list(ps))[i]
        == partition_tuples(ps)[i] by {
        assert(part_exprs(ps[i]));
        lemma_encode_part(ps[i]);
    }
    assert(encode_all(parts_toks_list(ps)) =~= partition_tuples(ps));
}

/// The partitions are written as the tuple of the partitions, each the tuple of its blocks, each
/// block the tuple of its elements, and then renumbered: the result is the renumbering of
/// `nested_tuples(ps)`, the same items with only variables renamed, and exactly
/// `nested_tuples(ps)` where the elements hold no variable. Since expressions written one after
/// another are read back in one way only, reading that tuple back gives the list of partitions.
pub proof fn law_partitions_written_as_nested_tuples(ps: Seq<Seq<Seq<Seq<u8>>>>)
    requires
        parts_exprs(ps),
        write_partitions_spec(ps) is Ok,
    ensures
        is_expr(nested_tuples(ps)),
        write_partitions_spec(ps) == normalize_spec(nested_tuples(ps)),
        same_skeleton(toks(nested_tuples(ps)), toks(write_partitions_spec(ps).unwrap())),
        (forall|j: int|
            0 <= j < toks(nested_tuples(ps)).len() ==> !is_var_tok(
                #[trigger] toks(nested_tuples(ps))[j],
            )) ==> write_partitions_spec(ps).unwrap() == nested_tuples(ps),
{
    lemma_parts_toks_complete(ps);
    lemma_encode_parts(ps);
    let ts = parts_toks(ps);
    law_scan_encode(ts);
    let n = nested_tuples(ps);
    assert(toks(n) == ts);
    assert(is_expr(n));
    law_normalize_only_renames(n);
    let o = normalize_toks(ts).unwrap();
    lemma_norm_shape(ts, 0, norm_init());
    assert(ts.skip(0) == ts);
    law_scan_encode(o);
    if forall|j: int| 0 <= j < ts.len() ==> !is_var_tok(#[trigger] ts[j]) {
        assert(o =~= ts) by {
            assert forall|j: int| 0 <= j < ts.len() implies o[j] == ts[j] by {
                assert(!is_var_tok(ts[j]));
            }
        }
        law_encode_scan(n);
    }
}

proof fn lemma_tuple_elems_of(ts: Seq<Tok>, pos: int, cs: Seq<Seq<Tok>>)
    requires
        0 <= pos <= ts.len(),
        ts.skip(pos) == cs.flatten(),
        forall|i: int| 0 <= i < cs.len() ==> complete(#[trigger] cs[i]),
    ensures
        tuple_elems(ts, pos, cs.len()) == cs,
    decreases cs.len(),
{
    if cs.len() > 0 {
        let c0 = cs[0];
        let rest = cs.drop_first();
        assert(cs.flatten() == c0 + rest.flatten());
        assert(complete(c0));
        assert(c0.len() > 0) by {
            if c0.len() == 0 {
                assert(bal(c0) == 0);
            }
        }
        let e = pos + c0.len();
        assert(ts.subrange(pos, e) == c0) by {
            assert forall|q: int| 0 <= q < c0.len() implies ts.subrange(pos, e)[q] == c0[q] by {
                assert(ts.skip(pos)[q] == ts[pos + q]);
                assert(cs.flatten()[q] == c0[q]);
            }
        }
        lemma_seg_end(ts, pos, e);
        assert(ts.skip(e) == rest.flatten()) by {
            assert(ts.skip(e) == ts.skip(pos).skip(c0.len() as int));
            assert((c0 + rest.flatten()).skip(c0.len() as int) == rest.flatten());
        }
        assert forall|i: int| 0 <= i < rest.len() implies complete(#[trigger] rest[i]) by {
            assert(rest[i] == cs[i + 1]);
        }
        lemma_tuple_elems_of(ts, e, rest);
        assert(tuple_elems(ts, pos, cs.len()) == seq![c0] + tuple_elems(ts, e, rest.len()));
        assert(cs == seq![c0] + rest);
    } else {
        assert(tuple_elems(ts, pos, 0) == Seq::<Seq<Tok>>::empty());
    }
}

/// `partitions` of the tuple of `items` is the renumbering of the tuple of the listed partitions,
/// each the tuple of its blocks, each block the tuple of its elements.
pub proof fn law_partitions_of_a_tuple(items: Seq<Seq<u8>>)
    requires
        items.len() < 64,
        items_exprs(items),
        write_partitions_spec(partitions_of(items)) is Ok,
    ensures
        is_expr(tuple_bytes(items)),
        partitions_spec(tuple_bytes(items)) == normalize_spec(nested_tuples(partitions_of(items))),
{
    let cs = elem_toks(items);
    assert forall|i: int| 0 <= i < cs.len() implies complete(#[trigger] cs[i]) && all_ok(cs[i]) by {
        assert(is_expr(items[i]));
        law_encode_scan(items[i]);
    }
    lemma_tuple_toks_complete(cs);
    lemma_encode_tuple_toks(cs);
    assert forall|i: int| 0 <= i < items.len() implies #[trigger] encode_all(cs)[i] == items[i] by {
        assert(is_expr(items[i]));
        law_encode_scan(items[i]);
    }
    assert(encode_all(cs) =~= items);
    let arg = tuple_bytes(items);
    let ts = tuple_toks(cs);
    law_scan_encode(ts);
    assert(toks(arg) == ts);
    assert(ts[0] == Tok::Arity(items.len() as u8));
    assert(ts.skip(1) == cs.flatten());
    lemma_tuple_elems_of(ts, 1, cs);
    assert(tuple_items_spec(arg) == Ok::<Seq<Seq<u8>>, HelperError>(items));
    lemma_partitions_exprs(items);
    law_partitions_written_as_nested_tuples(partitions_of(items));
}

} // verus!
