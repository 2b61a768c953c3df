//! The spatial-index builder: a static packed tree, bulk-loaded bottom-up
//! from the features' bounding boxes.
//!
//! Entries are sorted by space-filling-curve key (ties broken by original
//! ordinal, so the sort is deterministic), grouped into fixed-size leaf
//! nodes, and parent levels are grouped recursively until a single root
//! remains. Nodes are serialized root level first.

use crate::geom::{union_all, BBox};
use crate::model::IndexNode;
use crate::Error;
use vstd::prelude::*;
use vstd::relations::{sorted_by, total_ordering};
use vstd::seq_lib::{lemma_multiset_commutative, lemma_sorted_unique, to_multiset_build};
use vstd::multiset::Multiset;

verus! {

/// One (bounding box, original ordinal) pair with its sort key, produced
/// once per feature and consumed exactly once by the builder.
#[derive(Clone, Copy, PartialEq, Eq, Structural, Debug)]
pub struct IndexEntry {
    pub key: u64,
    pub ordinal: u64,
    pub bbox: BBox,
}

/// The builder's order: by key ascending, ties by original ordinal, the
/// box fields closing the comparison so the order is total.
pub open spec fn entry_le(a: IndexEntry, b: IndexEntry) -> bool {
    if a.key != b.key {
        a.key < b.key
    } else if a.ordinal != b.ordinal {
        a.ordinal < b.ordinal
    } else if a.bbox.min_x != b.bbox.min_x {
        a.bbox.min_x < b.bbox.min_x
    } else if a.bbox.min_y != b.bbox.min_y {
        a.bbox.min_y < b.bbox.min_y
    } else if a.bbox.max_x != b.bbox.max_x {
        a.bbox.max_x < b.bbox.max_x
    } else {
        a.bbox.max_y <= b.bbox.max_y
    }
}

pub open spec fn entry_leq() -> spec_fn(IndexEntry, IndexEntry) -> bool {
    |a: IndexEntry, b: IndexEntry| entry_le(a, b)
}

pub proof fn lemma_entry_le_total()
    ensures
        total_ordering(entry_leq()),
{
    let leq = entry_leq();
    assert forall|a: IndexEntry, b: IndexEntry| #[trigger] leq(a, b) && leq(b, a) implies a == b by {
        assert(entry_le(a, b) && entry_le(b, a));
    }
    assert forall|a: IndexEntry, b: IndexEntry, c: IndexEntry|
        #[trigger] leq(a, b) && #[trigger] leq(b, c) implies leq(a, c) by {
        assert(entry_le(a, b) && entry_le(b, c));
        assert(entry_le(a, c));
    }
}

fn entry_le_exec(a: &IndexEntry, b: &IndexEntry) -> (r: bool)
    ensures
        r == entry_le(*a, *b),
{
    if a.key != b.key {
        a.key < b.key
    } else if a.ordinal != b.ordinal {
        a.ordinal < b.ordinal
    } else if a.bbox.min_x != b.bbox.min_x {
        a.bbox.min_x < b.bbox.min_x
    } else if a.bbox.min_y != b.bbox.min_y {
        a.bbox.min_y < b.bbox.min_y
    } else if a.bbox.max_x != b.bbox.max_x {
        a.bbox.max_x < b.bbox.max_x
    } else {
        a.bbox.max_y <= b.bbox.max_y
    }
}

/// Inserting anywhere in a sequence inserts into its multiset.
pub proof fn lemma_insert_to_multiset(s: Seq<IndexEntry>, j: int, e: IndexEntry)
    requires
        0 <= j <= s.len(),
    ensures
        s.insert(j, e).to_multiset() =~= s.to_multiset().insert(e),
{
    broadcast use vstd::multiset::group_multiset_axioms;

    let l = s.take(j);
    let r = s.skip(j);
    assert(s.insert(j, e) =~= (l + seq![e]) + r);
    assert(s =~= l + r);
    lemma_multiset_commutative(l + seq![e], r);
    lemma_multiset_commutative(l, seq![e]);
    lemma_multiset_commutative(l, r);
    assert(seq![e] =~= Seq::<IndexEntry>::empty().push(e));
    to_multiset_build(Seq::<IndexEntry>::empty(), e);
    Seq::<IndexEntry>::empty().to_multiset_ensures();
    assert(Seq::<IndexEntry>::empty().to_multiset() =~= Multiset::<IndexEntry>::empty());
}

/// The position where `e` belongs in a sorted sequence.
fn find_pos(out: &Vec<IndexEntry>, e: &IndexEntry) -> (j: usize)
    ensures
        j <= out@.len(),
        forall|k: int| 0 <= k < j ==> entry_le(#[trigger] out@[k], *e),
        j < out@.len() ==> !entry_le(out@[j as int], *e),
{
    let mut j: usize = 0;
    while j < out.len()
        invariant
            j <= out@.len(),
            forall|k: int| 0 <= k < j ==> entry_le(#[trigger] out@[k], *e),
        decreases out@.len() - j,
    {
        if !entry_le_exec(&out[j], e) {
            return j;
        }
        j = j + 1;
    }
    j
}

/// Sorts the entries by the builder's total order: the unique sorted
/// arrangement of the input entries.
#[verifier::loop_isolation(false)]
#[verifier::rlimit(100)]
pub fn sort_entries(entries: &Vec<IndexEntry>) -> (r: Vec<IndexEntry>)
    ensures
        r@ == entries@.sort_by(entry_leq()),
        sorted_by(r@, entry_leq()),
        r@.to_multiset() == entries@.to_multiset(),
        r@.len() == entries@.len(),
{
    proof {
        lemma_entry_le_total();
        assert(forall|x: IndexEntry, y: IndexEntry| #[trigger] entry_leq()(x, y) == entry_le(x, y));
    }
    let n = entries.len();
    let mut out: Vec<IndexEntry> = Vec::new();
    proof {
        assert(out@ =~= Seq::<IndexEntry>::empty());
        assert(entries@.take(0) =~= Seq::<IndexEntry>::empty());
    }
    let mut i: usize = 0;
    while i < n
        invariant
            i <= n,
            out@.len() == i,
            sorted_by(out@, entry_leq()),
            out@.to_multiset() =~= entries@.take(i as int).to_multiset(),
        decreases n - i,
    {
        let e = entries[i];
        let j = find_pos(&out, &e);
        let ghost old_out = out@;
        out.insert(j, e);
        proof {
            assert(out@ =~= old_out.insert(j as int, e));
            lemma_insert_to_multiset(old_out, j as int, e);
            assert(entries@.take(i + 1) =~= entries@.take(i as int).push(entries@[i as int]));
            to_multiset_build(entries@.take(i as int), entries@[i as int]);
            assert forall|x: IndexEntry, y: IndexEntry| true implies entry_le(x, y) || entry_le(
                y,
                x,
            ) by {}
            assert(j < old_out.len() ==> entry_le(e, old_out[j as int]));
            assert forall|k1: int, k2: int| 0 <= k1 < k2 < out@.len() implies entry_leq()(
                out@[k1],
                out@[k2],
            ) by {
                if k2 < (j as int) {
                    assert(out@[k1] == old_out[k1] && out@[k2] == old_out[k2]);
                } else if k1 < j && k2 == j {
                    assert(out@[k1] == old_out[k1] && out@[k2] == e);
                } else if k1 < j && k2 > j {
                    assert(out@[k1] == old_out[k1] && out@[k2] == old_out[k2 - 1]);
                } else if k1 == j {
                    assert(out@[k1] == e && out@[k2] == old_out[k2 - 1]);
                    assert(j < old_out.len());
                    assert(!entry_le(old_out[j as int], e));
                    assert(entry_le(e, old_out[j as int]));
                    if (j as int) < k2 - 1 {
                        assert(entry_leq()(old_out[j as int], old_out[k2 - 1]));
                    }
                } else {
                    assert(out@[k1] == old_out[k1 - 1] && out@[k2] == old_out[k2 - 1]);
                }
            }
        }
        i = i + 1;
    }
    proof {
        assert(entries@.take(n as int) =~= entries@);
        entries@.lemma_sort_by_ensures(entry_leq());
        lemma_sorted_unique(out@, entries@.sort_by(entry_leq()), entry_leq());
        assert(out@ =~= entries@.sort_by(entry_leq()));
    }
    out
}


/// The boxes of a level's nodes, in order.
pub open spec fn boxes_of(l: Seq<IndexNode>) -> Seq<BBox> {
    l.map_values(|nd: IndexNode| nd.bbox)
}

/// The boxes of a run of entries, in order.
pub open spec fn entry_boxes(es: Seq<IndexEntry>) -> Seq<BBox> {
    es.map_values(|e: IndexEntry| e.bbox)
}

pub open spec fn spec_min(a: int, b: int) -> int {
    if a <= b {
        a
    } else {
        b
    }
}

/// Groups one level bottom-up: each run of at most `n` consecutive boxes
/// becomes one parent node whose box is the exact union of the run and
/// whose child reference is the position of the run's first member.
pub open spec fn group_nodes(boxes: Seq<BBox>, n: int, start: int) -> Seq<IndexNode>
    decreases boxes.len(),
{
    if boxes.len() == 0 || n < 1 {
        Seq::empty()
    } else {
        let tn = spec_min(n, boxes.len() as int);
        seq![IndexNode { bbox: union_all(boxes.take(tn)), child: start as u64 }] + group_nodes(
            boxes.skip(tn),
            n,
            start + tn,
        )
    }
}

/// Grouping at least halves a level (for capacity at least two), so the
/// levels above a leaf level shrink to a single root.
pub proof fn lemma_group_nodes_len(boxes: Seq<BBox>, n: int, start: int)
    requires
        n >= 2,
    ensures
        2 * group_nodes(boxes, n, start).len() <= boxes.len() + 1,
        boxes.len() > 0 ==> group_nodes(boxes, n, start).len() >= 1,
    decreases boxes.len(),
{
    if boxes.len() > 0 {
        let tn = spec_min(n, boxes.len() as int);
        lemma_group_nodes_len(boxes.skip(tn), n, start + tn);
    }
}

/// Node `j` of a grouped level, in closed form.
pub proof fn lemma_group_nodes_index(boxes: Seq<BBox>, n: int, start: int, j: int)
    requires
        n >= 1,
        0 <= j < group_nodes(boxes, n, start).len(),
    ensures
        j * n < boxes.len(),
        group_nodes(boxes, n, start)[j] == (IndexNode {
            bbox: union_all(boxes.subrange(j * n, spec_min(j * n + n, boxes.len() as int))),
            child: (start + j * n) as u64,
        }),
    decreases j,
{
    let tn = spec_min(n, boxes.len() as int);
    if j == 0 {
        assert(boxes.take(tn) =~= boxes.subrange(0, tn));
    } else {
        lemma_group_nodes_index(boxes.skip(tn), n, start + tn, j - 1);
        assert(tn == n);
        assert((j - 1) * n + n == j * n) by (nonlinear_arith);
        assert(j * n >= n > 0) by (nonlinear_arith)
            requires
                j >= 1,
                n >= 1,
        ;
        assert((j - 1) * n < boxes.skip(n).len());
        assert(j * n < boxes.len());
        assert(boxes.skip(n).subrange(
            (j - 1) * n,
            spec_min((j - 1) * n + n, boxes.skip(n).len() as int),
        ) =~= boxes.subrange(j * n, spec_min(j * n + n, boxes.len() as int)));
    }
}

/// All levels of the tree, leaf level first, ending with the single root
/// level.
pub open spec fn build_levels(level: Seq<IndexNode>, n: int) -> Seq<Seq<IndexNode>>
    decreases level.len()
        when n >= 2
        via build_levels_decreases
{
    if level.len() <= 1 {
        seq![level]
    } else {
        seq![level] + build_levels(group_nodes(boxes_of(level), n, 0), n)
    }
}

#[via_fn]
proof fn build_levels_decreases(level: Seq<IndexNode>, n: int) {
    if level.len() > 1 {
        lemma_group_nodes_len(boxes_of(level), n, 0);
    }
}

/// The serialization order: levels root-first, each level's nodes in
/// order.
pub open spec fn flatten_levels(ls: Seq<Seq<IndexNode>>) -> Seq<IndexNode>
    decreases ls.len(),
{
    if ls.len() == 0 {
        Seq::empty()
    } else {
        ls.first() + flatten_levels(ls.drop_first())
    }
}

pub proof fn lemma_flatten_push(ls: Seq<Seq<IndexNode>>, x: Seq<IndexNode>)
    ensures
        flatten_levels(ls.push(x)) =~= flatten_levels(ls) + x,
    decreases ls.len(),
{
    reveal_with_fuel(flatten_levels, 3);
    if ls.len() == 0 {
        assert(ls.push(x).first() == x);
        assert(ls.push(x).drop_first() =~= Seq::<Seq<IndexNode>>::empty());
        assert(flatten_levels(ls.push(x)) =~= x + flatten_levels(ls.push(x).drop_first()));
        assert(flatten_levels(ls.push(x).drop_first()) == flatten_levels(
            Seq::<Seq<IndexNode>>::empty(),
        ));
        assert(flatten_levels(ls.push(x)) =~= x + Seq::<IndexNode>::empty());
        assert(flatten_levels(ls) =~= Seq::<IndexNode>::empty());
        assert(x + Seq::<IndexNode>::empty() =~= Seq::<IndexNode>::empty() + x);
    } else {
        lemma_flatten_push(ls.drop_first(), x);
        assert(ls.push(x).first() == ls.first());
        assert(ls.push(x).drop_first() =~= ls.drop_first().push(x));
        assert(flatten_levels(ls.push(x)) =~= ls.first() + (flatten_levels(ls.drop_first()) + x));
        assert(ls.first() + (flatten_levels(ls.drop_first()) + x) =~= (ls.first()
            + flatten_levels(ls.drop_first())) + x);
    }
}

/// The leaf level over sorted entries, then the levels above it.
pub open spec fn spec_levels(sorted: Seq<IndexEntry>, n: int) -> Seq<Seq<IndexNode>> {
    build_levels(group_nodes(entry_boxes(sorted), n, 0), n)
}

/// The serialized node sequence of the whole index, root level first.
pub open spec fn spec_index_nodes(sorted: Seq<IndexEntry>, n: int) -> Seq<IndexNode> {
    flatten_levels(spec_levels(sorted, n).reverse())
}

/// Index correctness: above the leaf level, every node's bounding box is
/// the exact geometric union of its children's boxes, and its child
/// reference is the position of its first child in the level below.
pub proof fn lemma_node_box_is_union_of_children(leaf: Seq<IndexNode>, n: int, l: int, j: int)
    requires
        n >= 2,
        1 <= l < build_levels(leaf, n).len(),
        0 <= j < build_levels(leaf, n)[l].len(),
    ensures
        ({
            let ls = build_levels(leaf, n);
            let child_level = ls[l - 1];
            &&& ls[l][j].child == (j * n) as u64
            &&& ls[l][j].bbox == union_all(
                boxes_of(child_level).subrange(
                    j * n,
                    spec_min(j * n + n, child_level.len() as int),
                ),
            )
        }),
    decreases l,
{
    let ls = build_levels(leaf, n);
    assert(leaf.len() > 1);
    let g = group_nodes(boxes_of(leaf), n, 0);
    let up = build_levels(g, n);
    assert(ls =~= seq![leaf] + up);
    assert(ls[l] == up[l - 1]);
    if l == 1 {
        assert(up[0] == g) by {
            if g.len() <= 1 {
            }
        }
        assert(ls[l - 1] == leaf);
        lemma_group_nodes_index(boxes_of(leaf), n, 0, j);
    } else {
        lemma_node_box_is_union_of_children(g, n, l - 1, j);
        assert(ls[l - 1] == up[l - 2]);
        assert(up[l - 1][j] == ls[l][j]);
    }
}

/// Leaf ordering: the keys of the sorted entries are non-decreasing, so
/// for any two leaf groups in order, every key in the earlier group is at
/// most every key in the later one.
pub proof fn lemma_leaf_ordering(sorted: Seq<IndexEntry>, n: int, j1: int, j2: int, p1: int, p2: int)
    requires
        sorted_by(sorted, entry_leq()),
        n >= 1,
        0 <= j1 < j2,
        j1 * n <= p1 < j1 * n + n,
        j2 * n <= p2 < sorted.len(),
        0 <= p1 < sorted.len(),
    ensures
        sorted[p1].key <= sorted[p2].key,
{
    vstd::arithmetic::mul::lemma_mul_inequality(j1 + 1, j2, n);
    assert((j1 + 1) * n == j1 * n + n) by (nonlinear_arith);
    assert(p1 < p2);
    assert(entry_leq()(sorted[p1], sorted[p2]));
    assert(entry_le(sorted[p1], sorted[p2]));
}

fn boxes_of_exec(l: &Vec<IndexNode>) -> (r: Vec<BBox>)
    ensures
        r@ == boxes_of(l@),
{
    let mut out: Vec<BBox> = Vec::new();
    let mut i: usize = 0;
    while i < l.len()
        invariant
            i <= l@.len(),
            out@ =~= boxes_of(l@).take(i as int),
        decreases l@.len() - i,
    {
        out.push(l[i].bbox);
        proof {
            assert(out@ =~= boxes_of(l@).take(i + 1));
        }
        i = i + 1;
    }
    proof {
        assert(boxes_of(l@).take(l@.len() as int) =~= boxes_of(l@));
    }
    out
}

/// Builds one parent level over a sequence of boxes.
#[verifier::loop_isolation(false)]
#[verifier::rlimit(100)]
fn group_level(boxes: &Vec<BBox>, n: u16) -> (r: Vec<IndexNode>)
    requires
        n >= 2,
    ensures
        r@ == group_nodes(boxes@, n as int, 0),
{
    let mut out: Vec<IndexNode> = Vec::new();
    let mut start: usize = 0;
    proof {
        assert(boxes@.skip(0) =~= boxes@);
        assert(Seq::<IndexNode>::empty() + group_nodes(boxes@, n as int, 0) =~= group_nodes(
            boxes@,
            n as int,
            0,
        ));
    }
    while start < boxes.len()
        invariant
            start <= boxes@.len(),
            group_nodes(boxes@, n as int, 0) =~= out@ + group_nodes(
                boxes@.skip(start as int),
                n as int,
                start as int,
            ),
        decreases boxes@.len() - start,
    {
        let ghost out0 = out@;
        let remaining = boxes.len() - start;
        let tn: usize = if (n as usize) < remaining {
            n as usize
        } else {
            remaining
        };
        let ghost sub = boxes@.skip(start as int).take(tn as int);
        let mut acc = boxes[start];
        proof {
            assert(sub[0] == boxes@[start as int]);
            assert(union_all(sub.take(1)) == acc);
        }
        let mut k: usize = 1;
        while k < tn
            invariant
                1 <= k <= tn,
                acc == union_all(sub.take(k as int)),
            decreases tn - k,
        {
            let b2 = boxes[start + k];
            proof {
                assert(sub[k as int] == boxes@[start + k]);
                assert(sub.take(k + 1).drop_last() =~= sub.take(k as int));
                assert(sub.take(k + 1).last() == sub[k as int]);
            }
            acc = acc.union(&b2);
            k = k + 1;
        }
        proof {
            assert(sub.take(tn as int) =~= sub);
        }
        let nd = IndexNode { bbox: acc, child: start as u64 };
        out.push(nd);
        proof {
            assert(spec_min(n as int, boxes@.skip(start as int).len() as int) == tn as int);
            assert(boxes@.skip(start as int).skip(tn as int) =~= boxes@.skip(start + tn));
            assert(group_nodes(boxes@.skip(start as int), n as int, start as int) =~= seq![nd]
                + group_nodes(boxes@.skip(start + tn), n as int, start + tn));
            assert(out@ =~= out0.push(nd));
            assert(out0 + (seq![nd] + group_nodes(boxes@.skip(start + tn), n as int, start + tn))
                =~= out@ + group_nodes(boxes@.skip(start + tn), n as int, start + tn));
        }
        start = start + tn;
    }
    proof {
        assert(boxes@.skip(boxes@.len() as int) =~= Seq::<BBox>::empty());
        assert(group_nodes(Seq::<BBox>::empty(), n as int, boxes@.len() as int)
            =~= Seq::<IndexNode>::empty());
        assert(out@ + Seq::<IndexNode>::empty() =~= out@);
    }
    out
}

/// Builds every level above the given leaf level, leaf first.
#[verifier::loop_isolation(false)]
fn build_all_levels(leaf: Vec<IndexNode>, n: u16) -> (r: Vec<Vec<IndexNode>>)
    requires
        n >= 2,
    ensures
        r@.map_values(|v: Vec<IndexNode>| v@) == build_levels(leaf@, n as int),
{
    let ghost leaf0 = leaf@;
    let mut levels: Vec<Vec<IndexNode>> = Vec::new();
    let mut cur = leaf;
    proof {
        assert(levels@.map_values(|v: Vec<IndexNode>| v@) =~= Seq::<Seq<IndexNode>>::empty());
    }
    while cur.len() > 1
        invariant
            build_levels(leaf0, n as int) =~= levels@.map_values(|v: Vec<IndexNode>| v@)
                + build_levels(cur@, n as int),
        decreases cur@.len(),
    {
        let ghost lv0 = levels@.map_values(|v: Vec<IndexNode>| v@);
        let ghost cur0 = cur@;
        let boxes = boxes_of_exec(&cur);
        let next = group_level(&boxes, n);
        proof {
            lemma_group_nodes_len(boxes_of(cur@), n as int, 0);
        }
        levels.push(cur);
        cur = next;
        proof {
            assert(levels@.map_values(|v: Vec<IndexNode>| v@) =~= lv0.push(cur0));
            assert(build_levels(cur0, n as int) =~= seq![cur0] + build_levels(cur@, n as int));
            assert(lv0 + (seq![cur0] + build_levels(cur@, n as int)) =~= lv0.push(cur0)
                + build_levels(cur@, n as int));
        }
    }
    let ghost lv1 = levels@.map_values(|v: Vec<IndexNode>| v@);
    let ghost curf = cur@;
    levels.push(cur);
    proof {
        assert(build_levels(curf, n as int) =~= seq![curf]);
        assert(levels@.map_values(|v: Vec<IndexNode>| v@) =~= lv1.push(curf));
        assert(lv1 + seq![curf] =~= lv1.push(curf));
    }
    levels
}

/// Builds the whole index over the entries: the sorted entry order, which
/// is also the write order of the features, and the serialized node list,
/// root level first. Fails with `InvalidBranchingFactor` exactly when the
/// capacity is below two, and with `EmptyDataset` exactly when there are
/// no entries.
#[verifier::loop_isolation(false)]
pub fn build_index(entries: &Vec<IndexEntry>, branching: u16) -> (r: Result<
    (Vec<IndexEntry>, Vec<IndexNode>),
    Error,
>)
    ensures
        branching < 2 <==> r == Err::<(Vec<IndexEntry>, Vec<IndexNode>), Error>(
            Error::InvalidBranchingFactor,
        ),
        (branching >= 2 && entries@.len() == 0) <==> r == Err::<
            (Vec<IndexEntry>, Vec<IndexNode>),
            Error,
        >(Error::EmptyDataset),
        match r {
            Ok((sorted, nodes)) => {
                &&& sorted@ == entries@.sort_by(entry_leq())
                &&& nodes@ == spec_index_nodes(entries@.sort_by(entry_leq()), branching as int)
            },
            Err(e) => e == Error::InvalidBranchingFactor || e == Error::EmptyDataset,
        },
{
    if branching < 2 {
        return Err(Error::InvalidBranchingFactor);
    }
    if entries.len() == 0 {
        return Err(Error::EmptyDataset);
    }
    let sorted = sort_entries(entries);
    let ghost sortedv = entries@.sort_by(entry_leq());
    let mut sboxes: Vec<BBox> = Vec::new();
    let mut i: usize = 0;
    while i < sorted.len()
        invariant
            i <= sorted@.len(),
            sorted@ == sortedv,
            sboxes@ =~= entry_boxes(sortedv).take(i as int),
        decreases sorted@.len() - i,
    {
        sboxes.push(sorted[i].bbox);
        proof {
            assert(sboxes@ =~= entry_boxes(sortedv).take(i + 1));
        }
        i = i + 1;
    }
    proof {
        assert(entry_boxes(sortedv).take(sortedv.len() as int) =~= entry_boxes(sortedv));
    }
    let leaf = group_level(&sboxes, branching);
    let mut levels = build_all_levels(leaf, branching);
    let ghost lvs = levels@.map_values(|v: Vec<IndexNode>| v@);
    let mut nodes: Vec<IndexNode> = Vec::new();
    proof {
        assert(lvs.skip(lvs.len() as int) =~= Seq::<Seq<IndexNode>>::empty());
        assert(lvs.skip(lvs.len() as int).reverse() =~= Seq::<Seq<IndexNode>>::empty());
    }
    while levels.len() > 0
        invariant
            levels@.len() <= lvs.len(),
            lvs =~= levels@.map_values(|v: Vec<IndexNode>| v@) + lvs.skip(levels@.len() as int),
            forall|k: int| 0 <= k < levels@.len() ==> (#[trigger] levels@[k])@ == lvs[k],
            nodes@ =~= flatten_levels(lvs.skip(levels@.len() as int).reverse()),
        decreases levels@.len(),
    {
        let ghost li = levels@.len() as int;
        let mut lv = match levels.pop() {
            Some(v) => v,
            None => {
                proof {
                    assert(false);
                }
                Vec::new()
            },
        };
        proof {
            assert(lv@ == lvs[li - 1]);
            assert(lvs.skip(li - 1) =~= seq![lvs[li - 1]] + lvs.skip(li));
            assert(lvs.skip(li - 1).reverse() =~= lvs.skip(li).reverse().push(lvs[li - 1]));
            lemma_flatten_push(lvs.skip(li).reverse(), lvs[li - 1]);
            assert(forall|k: int| 0 <= k < levels@.len() ==> (#[trigger] levels@[k])@ == lvs[k]);
        }
        nodes.append(&mut lv);
    }
    proof {
        assert(lvs.skip(0) =~= lvs);
        assert(nodes@ =~= flatten_levels(lvs.reverse()));
        assert(lvs =~= build_levels(group_nodes(entry_boxes(sortedv), branching as int, 0),
            branching as int));
    }
    Ok((sorted, nodes))
}

} // verus!
