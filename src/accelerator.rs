use vstd::prelude::*;

use crate::material::Color;
use crate::object::SDFObject;
use crate::sdf::{box_ok, in_range, lemma_bbox_ok, lemma_union_box_ok, Aabb};
use crate::vec3::{Vec3, Vec3i};

verus! {

/// The axis a node's objects are ordered along before the split.
#[derive(Clone, Copy, Debug, PartialEq, Eq, Structural)]
pub enum SplitAxis {
    X,
    Y,
    Z,
}

/// What the build knows of one object: its index, twice its box's center, and its box.
#[derive(Clone, Copy, Debug, PartialEq, Eq, Structural)]
pub struct BVHBuildInfo {
    pub index: usize,
    pub center: Vec3i,
    pub bounding_box: Aabb,
}

/// A node of the hierarchy. A leaf stands for one object; an inner node owns two
/// subtrees and encloses both.
#[derive(Debug, PartialEq, Eq)]
pub enum BVHNode {
    Leaf { bounding_box: Aabb, index: usize },
    Internal { bounding_box: Aabb, n: usize, left: Box<BVHNode>, right: Box<BVHNode> },
}

/// A bounding volume hierarchy over a fixed list of objects.
#[derive(Debug)]
pub struct BVH {
    pub root: Option<BVHNode>,
    pub objects: Vec<SDFObject>,
}

pub open spec fn node_box(node: BVHNode) -> Aabb {
    match node {
        BVHNode::Leaf { bounding_box, .. } => bounding_box,
        BVHNode::Internal { bounding_box, .. } => bounding_box,
    }
}

pub open spec fn key(r: BVHBuildInfo, axis: SplitAxis) -> int {
    match axis {
        SplitAxis::X => r.center.x as int,
        SplitAxis::Y => r.center.y as int,
        SplitAxis::Z => r.center.z as int,
    }
}

/// The box enclosing every record of `s`, gathered from the first to the last.
pub open spec fn union_all(s: Seq<BVHBuildInfo>) -> Aabb
    decreases s.len(),
{
    if s.len() <= 1 {
        s[0].bounding_box
    } else {
        union_all(s.drop_last()).union_spec(s.last().bounding_box)
    }
}

/// The axis of largest extent; x wins ties with y and z, y wins ties with z.
pub open spec fn split_axis(b: Aabb) -> SplitAxis {
    let sx = b.max.x - b.min.x;
    let sy = b.max.y - b.min.y;
    let sz = b.max.z - b.min.z;
    if sx >= sy && sx >= sz {
        SplitAxis::X
    } else if sy >= sz {
        SplitAxis::Y
    } else {
        SplitAxis::Z
    }
}

/// `x` put before the first record of `s` whose key is larger.
pub open spec fn insert_sorted(s: Seq<BVHBuildInfo>, x: BVHBuildInfo, axis: SplitAxis) -> Seq<
    BVHBuildInfo,
>
    decreases s.len(),
{
    if s.len() == 0 {
        seq![x]
    } else if key(s[0], axis) > key(x, axis) {
        seq![x] + s
    } else {
        seq![s[0]] + insert_sorted(s.drop_first(), x, axis)
    }
}

/// The records ordered by key along `axis`; records with equal keys keep their order.
pub open spec fn sort_spec(s: Seq<BVHBuildInfo>, axis: SplitAxis) -> Seq<BVHBuildInfo>
    decreases s.len(),
{
    if s.len() == 0 {
        s
    } else {
        insert_sorted(sort_spec(s.drop_last(), axis), s.last(), axis)
    }
}

/// `node` is the hierarchy that the median split builds from `recs`: one record
/// gives a leaf; more give a node with their union box whose halves are built from
/// the records sorted along the widest axis and cut at `len / 2`.
pub open spec fn built(node: BVHNode, recs: Seq<BVHBuildInfo>) -> bool
    decreases recs.len(),
{
    if recs.len() == 1 {
        node == BVHNode::Leaf { bounding_box: recs[0].bounding_box, index: recs[0].index }
    } else if recs.len() > 1 {
        let bb = union_all(recs);
        let sorted = sort_spec(recs, split_axis(bb));
        let mid = recs.len() / 2;
        if sorted.len() != recs.len() {
            false
        } else {
            match node {
                BVHNode::Internal { bounding_box, n, left, right } => bounding_box == bb && n
                    == recs.len() && built(*left, sorted.take(mid as int)) && built(
                    *right,
                    sorted.skip(mid as int),
                ),
                _ => false,
            }
        }
    } else {
        false
    }
}

/// The first hit met when the tree is walked depth first, the right child of a node
/// before its left, entering only nodes whose box holds `p`.
pub open spec fn traverse(node: BVHNode, p: Vec3i, objs: Seq<SDFObject>) -> Option<Color>
    decreases node,
{
    if !node_box(node).contains_spec(p) {
        None
    } else {
        match node {
            BVHNode::Leaf { index, .. } => if index < objs.len() {
                objs[index as int].hit_spec(p)
            } else {
                None
            },
            BVHNode::Internal { left, right, .. } => match traverse(*right, p, objs) {
                Some(c) => Some(c),
                None => traverse(*left, p, objs),
            },
        }
    }
}

/// The build record of each object, in list order.
pub open spec fn records_of(objs: Seq<SDFObject>) -> Seq<BVHBuildInfo> {
    Seq::new(
        objs.len(),
        |i: int|
            BVHBuildInfo {
                index: i as usize,
                center: Vec3 {
                    x: (objs[i].bbox().min.x + objs[i].bbox().max.x) as i64,
                    y: (objs[i].bbox().min.y + objs[i].bbox().max.y) as i64,
                    z: (objs[i].bbox().min.z + objs[i].bbox().max.z) as i64,
                },
                bounding_box: objs[i].bbox(),
            },
    )
}

pub open spec fn records_ok(s: Seq<BVHBuildInfo>) -> bool {
    forall|i: int| 0 <= i < s.len() ==> #[trigger] box_ok(s[i].bounding_box)
}

// ---------------------------------------------------------------- sort lemmas
pub proof fn lemma_insert_sorted(s: Seq<BVHBuildInfo>, x: BVHBuildInfo, axis: SplitAxis)
    ensures
        insert_sorted(s, x, axis).len() == s.len() + 1,
        forall|y: BVHBuildInfo| #[trigger]
            insert_sorted(s, x, axis).contains(y) <==> (s.contains(y) || y == x),
    decreases s.len(),
{
    if s.len() > 0 && key(s[0], axis) <= key(x, axis) {
        lemma_insert_sorted(s.drop_first(), x, axis);
        let t = insert_sorted(s.drop_first(), x, axis);
        assert forall|y: BVHBuildInfo| #[trigger]
            insert_sorted(s, x, axis).contains(y) <==> (s.contains(y) || y == x) by {
            assert(insert_sorted(s, x, axis) == seq![s[0]] + t);
            if s.contains(y) {
                let k = choose|k: int| 0 <= k < s.len() && s[k] == y;
                if k > 0 {
                    assert(s.drop_first()[k - 1] == y);
                    assert(t.contains(y));
                    let j = choose|j: int| 0 <= j < t.len() && t[j] == y;
                    assert((seq![s[0]] + t)[j + 1] == y);
                } else {
                    assert((seq![s[0]] + t)[0] == y);
                }
            }
            if y == x {
                assert(t.contains(x));
                let j = choose|j: int| 0 <= j < t.len() && t[j] == x;
                assert((seq![s[0]] + t)[j + 1] == x);
            }
            if (seq![s[0]] + t).contains(y) {
                let j = choose|j: int| 0 <= j < t.len() + 1 && (seq![s[0]] + t)[j] == y;
                if j > 0 {
                    assert(t[j - 1] == y);
                    assert(t.contains(y));
                    if y != x {
                        assert(s.drop_first().contains(y));
                        let k = choose|k: int| 0 <= k < s.len() - 1 && s.drop_first()[k] == y;
                        assert(s[k + 1] == y);
                    }
                } else {
                    assert(s[0] == y);
                }
            }
        }
    } else if s.len() > 0 {
        assert forall|y: BVHBuildInfo| #[trigger]
            insert_sorted(s, x, axis).contains(y) <==> (s.contains(y) || y == x) by {
            let t = seq![x] + s;
            assert(insert_sorted(s, x, axis) == t);
            if s.contains(y) {
                let k = choose|k: int| 0 <= k < s.len() && s[k] == y;
                assert(t[k + 1] == y);
            }
            if y == x {
                assert(t[0] == x);
            }
            if t.contains(y) {
                let j = choose|j: int| 0 <= j < t.len() && t[j] == y;
                if j > 0 {
                    assert(s[j - 1] == y);
                }
            }
        }
    } else {
        assert forall|y: BVHBuildInfo| #[trigger]
            insert_sorted(s, x, axis).contains(y) <==> (s.contains(y) || y == x) by {
            assert(insert_sorted(s, x, axis) == seq![x]);
            if y == x {
                assert(seq![x][0] == x);
            }
        }
    }
}

pub proof fn lemma_sort(s: Seq<BVHBuildInfo>, axis: SplitAxis)
    ensures
        sort_spec(s, axis).len() == s.len(),
        forall|y: BVHBuildInfo| #[trigger] sort_spec(s, axis).contains(y) <==> s.contains(y),
    decreases s.len(),
{
    if s.len() > 0 {
        lemma_sort(s.drop_last(), axis);
        lemma_insert_sorted(sort_spec(s.drop_last(), axis), s.last(), axis);
        assert forall|y: BVHBuildInfo| #[trigger]
            sort_spec(s, axis).contains(y) <==> s.contains(y) by {
            if s.contains(y) && y != s.last() {
                let k = choose|k: int| 0 <= k < s.len() && s[k] == y;
                assert(s.drop_last()[k] == y);
            }
            if s.drop_last().contains(y) {
                let k = choose|k: int| 0 <= k < s.len() - 1 && s.drop_last()[k] == y;
                assert(s[k] == y);
            }
        }
    }
}

/// `x` comes before `y` along `axis`: a smaller key, or an equal key and a smaller
/// index.
pub open spec fn precedes(x: BVHBuildInfo, y: BVHBuildInfo, axis: SplitAxis) -> bool {
    key(x, axis) < key(y, axis) || (key(x, axis) == key(y, axis) && x.index < y.index)
}

/// Every record comes before every later one.
pub open spec fn sorted_by(s: Seq<BVHBuildInfo>, axis: SplitAxis) -> bool {
    forall|i: int, j: int| 0 <= i < j < s.len() ==> precedes(#[trigger] s[i], #[trigger] s[j], axis)
}

/// Indices grow along the sequence.
pub open spec fn indices_increase(s: Seq<BVHBuildInfo>) -> bool {
    forall|i: int, j: int| 0 <= i < j < s.len() ==> (#[trigger] s[i]).index < (#[trigger] s[j]).index
}

proof fn lemma_insert_sorted_ordered(s: Seq<BVHBuildInfo>, x: BVHBuildInfo, axis: SplitAxis)
    requires
        sorted_by(s, axis),
        forall|k: int| 0 <= k < s.len() ==> (#[trigger] s[k]).index < x.index,
    ensures
        sorted_by(insert_sorted(s, x, axis), axis),
    decreases s.len(),
{
    if s.len() == 0 {
        assert(insert_sorted(s, x, axis) == seq![x]);
    } else if key(s[0], axis) > key(x, axis) {
        let t = seq![x] + s;
        assert(insert_sorted(s, x, axis) == t);
        assert forall|i: int, j: int| 0 <= i < j < t.len() implies precedes(
            #[trigger] t[i],
            #[trigger] t[j],
            axis,
        ) by {
            if i == 0 {
                assert(t[j] == s[j - 1]);
                if j - 1 > 0 {
                    assert(precedes(s[0], s[j - 1], axis));
                }
            } else {
                assert(t[i] == s[i - 1] && t[j] == s[j - 1]);
            }
        }
    } else {
        let rest = s.drop_first();
        assert forall|k: int| 0 <= k < rest.len() implies (#[trigger] rest[k]).index < x.index by {
            assert(rest[k] == s[k + 1]);
        }
        assert forall|i: int, j: int| 0 <= i < j < rest.len() implies precedes(
            #[trigger] rest[i],
            #[trigger] rest[j],
            axis,
        ) by {
            assert(rest[i] == s[i + 1] && rest[j] == s[j + 1]);
        }
        lemma_insert_sorted_ordered(rest, x, axis);
        lemma_insert_sorted(rest, x, axis);
        let u = insert_sorted(rest, x, axis);
        let t = seq![s[0]] + u;
        assert(insert_sorted(s, x, axis) == t);
        assert forall|i: int, j: int| 0 <= i < j < t.len() implies precedes(
            #[trigger] t[i],
            #[trigger] t[j],
            axis,
        ) by {
            if i == 0 {
                assert(t[j] == u[j - 1]);
                assert(u.contains(u[j - 1]));
                if u[j - 1] != x {
                    assert(rest.contains(u[j - 1]));
                    let k = choose|k: int| 0 <= k < rest.len() && rest[k] == u[j - 1];
                    assert(rest[k] == s[k + 1]);
                    assert(precedes(s[0], s[k + 1], axis));
                }
            } else {
                assert(t[i] == u[i - 1] && t[j] == u[j - 1]);
            }
        }
    }
}

/// Sorting records given in index order leaves them ordered by key, records with
/// equal keys keeping their order; so each half of a median split holds no larger
/// key than the half after it.
pub proof fn lemma_sort_ordered(s: Seq<BVHBuildInfo>, axis: SplitAxis)
    requires
        indices_increase(s),
    ensures
        sorted_by(sort_spec(s, axis), axis),
    decreases s.len(),
{
    if s.len() > 0 {
        let d = s.drop_last();
        assert forall|i: int, j: int| 0 <= i < j < d.len() implies (#[trigger] d[i]).index < (
        #[trigger] d[j]).index by {
            assert(d[i] == s[i] && d[j] == s[j]);
        }
        lemma_sort_ordered(d, axis);
        lemma_sort(d, axis);
        let sd = sort_spec(d, axis);
        assert forall|k: int| 0 <= k < sd.len() implies (#[trigger] sd[k]).index < s.last().index by {
            assert(sd.contains(sd[k]));
            let j = choose|j: int| 0 <= j < d.len() && d[j] == sd[k];
            assert(d[j] == s[j]);
        }
        lemma_insert_sorted_ordered(sd, s.last(), axis);
    }
}

/// The build records of an object list come in index order.
pub proof fn lemma_records_in_index_order(objs: Seq<SDFObject>)
    requires
        objs.len() <= usize::MAX,
    ensures
        indices_increase(records_of(objs)),
{
    let r = records_of(objs);
    assert forall|i: int, j: int| 0 <= i < j < r.len() implies (#[trigger] r[i]).index < (
    #[trigger] r[j]).index by {
        assert(r[i].index == i && r[j].index == j);
    }
}

/// Inserting at the first position whose key is larger is what `insert_sorted` does.
pub proof fn lemma_insert_at(s: Seq<BVHBuildInfo>, x: BVHBuildInfo, axis: SplitAxis, j: int)
    requires
        0 <= j <= s.len(),
        forall|k: int| 0 <= k < j ==> key(#[trigger] s[k], axis) <= key(x, axis),
        j == s.len() || key(s[j], axis) > key(x, axis),
    ensures
        insert_sorted(s, x, axis) == s.insert(j, x),
    decreases j,
{
    if j == 0 {
        if s.len() == 0 {
            assert(s.insert(0, x) =~= seq![x]);
        } else {
            assert(s.insert(0, x) =~= seq![x] + s);
        }
    } else {
        assert(key(s[0], axis) <= key(x, axis));
        let t = s.drop_first();
        assert forall|k: int| 0 <= k < j - 1 implies key(#[trigger] t[k], axis) <= key(x, axis) by {
            assert(t[k] == s[k + 1]);
        }
        lemma_insert_at(t, x, axis, j - 1);
        assert(seq![s[0]] + t.insert(j - 1, x) =~= s.insert(j, x));
    }
}

// ---------------------------------------------------------------- tree lemmas
/// Each record's box lies within the union of all of them.
pub proof fn lemma_union_all_within(s: Seq<BVHBuildInfo>, k: int)
    requires
        0 <= k < s.len(),
    ensures
        s[k].bounding_box.within(union_all(s)),
    decreases s.len(),
{
    if s.len() > 1 && k < s.len() - 1 {
        lemma_union_all_within(s.drop_last(), k);
        assert(s.drop_last()[k] == s[k]);
    }
}

/// Whatever a walk of the tree built from `recs` returns is the hit of an object
/// that one of the records names.
pub proof fn lemma_traverse_found(node: BVHNode, recs: Seq<BVHBuildInfo>, p: Vec3i, objs: Seq<SDFObject>)
    requires
        built(node, recs),
        traverse(node, p, objs) is Some,
    ensures
        exists|r: BVHBuildInfo|
            #![trigger recs.contains(r)]
            recs.contains(r) && r.index < objs.len() && objs[r.index as int].hit_spec(p) == traverse(
                node,
                p,
                objs,
            ),
    decreases recs.len(),
{
    if recs.len() == 1 {
        assert(recs.contains(recs[0]));
    } else {
        let bb = union_all(recs);
        let sorted = sort_spec(recs, split_axis(bb));
        let mid = recs.len() / 2;
        lemma_sort(recs, split_axis(bb));
        match node {
            BVHNode::Internal { left, right, .. } => {
                let sub = if traverse(*right, p, objs) is Some {
                    sorted.skip(mid as int)
                } else {
                    sorted.take(mid as int)
                };
                let child = if traverse(*right, p, objs) is Some {
                    *right
                } else {
                    *left
                };
                lemma_traverse_found(child, sub, p, objs);
                let r = choose|r: BVHBuildInfo|
                    #![trigger sub.contains(r)]
                    sub.contains(r) && r.index < objs.len() && objs[r.index as int].hit_spec(p)
                        == traverse(child, p, objs);
                let j = choose|j: int| 0 <= j < sub.len() && sub[j] == r;
                if traverse(*right, p, objs) is Some {
                    assert(sorted[j + mid] == r);
                } else {
                    assert(sorted[j] == r);
                }
                assert(sorted.contains(r));
                assert(recs.contains(r));
            },
            _ => {},
        }
    }
}

/// A record whose object is hit at `p`, inside its own box, is found by the walk.
pub proof fn lemma_traverse_reaches(
    node: BVHNode,
    recs: Seq<BVHBuildInfo>,
    r: BVHBuildInfo,
    p: Vec3i,
    objs: Seq<SDFObject>,
)
    requires
        built(node, recs),
        recs.contains(r),
        r.bounding_box.contains_spec(p),
        r.index < objs.len(),
        objs[r.index as int].hit_spec(p) is Some,
    ensures
        traverse(node, p, objs) is Some,
    decreases recs.len(),
{
    let k = choose|k: int| 0 <= k < recs.len() && recs[k] == r;
    if recs.len() > 1 {
        let bb = union_all(recs);
        let sorted = sort_spec(recs, split_axis(bb));
        let mid = recs.len() / 2;
        lemma_sort(recs, split_axis(bb));
        lemma_union_all_within(recs, k);
        assert(sorted.contains(r));
        let j = choose|j: int| 0 <= j < sorted.len() && sorted[j] == r;
        match node {
            BVHNode::Internal { left, right, .. } => {
                if j < mid {
                    assert(sorted.take(mid as int)[j] == r);
                    if traverse(*right, p, objs) is None {
                        lemma_traverse_reaches(*left, sorted.take(mid as int), r, p, objs);
                    }
                } else {
                    assert(sorted.skip(mid as int)[j - mid] == r);
                    lemma_traverse_reaches(*right, sorted.skip(mid as int), r, p, objs);
                }
            },
            _ => {},
        }
    }
}

/// Building twice from the same records gives the same tree.
pub proof fn lemma_built_unique(a: BVHNode, b: BVHNode, recs: Seq<BVHBuildInfo>)
    requires
        built(a, recs),
        built(b, recs),
    ensures
        a == b,
    decreases recs.len(),
{
    if recs.len() > 1 {
        let bb = union_all(recs);
        let sorted = sort_spec(recs, split_axis(bb));
        let mid = recs.len() / 2;
        match (a, b) {
            (
                BVHNode::Internal { left: la, right: ra, .. },
                BVHNode::Internal { left: lb, right: rb, .. },
            ) => {
                lemma_built_unique(*la, *lb, sorted.take(mid as int));
                lemma_built_unique(*ra, *rb, sorted.skip(mid as int));
            },
            _ => {},
        }
    }
}

/// Building a hierarchy is deterministic: two hierarchies built over the same
/// object list have the same tree, leaf for leaf.
pub proof fn lemma_idempotent_build(a: BVH, b: BVH)
    requires
        a.wf(),
        b.wf(),
        a.objects@ == b.objects@,
    ensures
        a.root == b.root,
{
    match (a.root, b.root) {
        (Some(x), Some(y)) => lemma_built_unique(x, y, records_of(a.objects@)),
        _ => {},
    }
}

/// A query on the hierarchy finds a hit exactly when some object of its list is
/// hit at `p`, provided each object hit at `p` has `p` in its box; the color it
/// returns is that of an object hit at `p`, so with a single such object it is
/// that object's color.
pub proof fn lemma_bvh_equivalence(bvh: BVH, p: Vec3i)
    requires
        bvh.wf(),
        forall|i: int|
            0 <= i < bvh.objects.len() && (#[trigger] bvh.objects@[i]).hit_spec(p) is Some
                ==> bvh.objects@[i].bbox().contains_spec(p),
    ensures
        bvh.hit_spec(p) is Some <==> exists|i: int|
            0 <= i < bvh.objects.len() && (#[trigger] bvh.objects@[i]).hit_spec(p) is Some,
        bvh.hit_spec(p) is Some ==> exists|i: int|
            0 <= i < bvh.objects.len() && (#[trigger] bvh.objects@[i]).hit_spec(p)
                == bvh.hit_spec(p),
{
    let objs = bvh.objects@;
    let recs = records_of(objs);
    match bvh.root {
        Some(node) => {
            if traverse(node, p, objs) is Some {
                lemma_traverse_found(node, recs, p, objs);
                let r = choose|r: BVHBuildInfo|
                    #![trigger recs.contains(r)]
                    recs.contains(r) && r.index < objs.len() && objs[r.index as int].hit_spec(p)
                        == traverse(node, p, objs);
                assert(objs[r.index as int].hit_spec(p) is Some);
            }
            if exists|i: int| 0 <= i < objs.len() && (#[trigger] objs[i]).hit_spec(p) is Some {
                let i = choose|i: int| 0 <= i < objs.len() && (#[trigger] objs[i]).hit_spec(p) is Some;
                assert(recs[i].index == i);
                assert(recs.contains(recs[i]));
                lemma_traverse_reaches(node, recs, recs[i], p, objs);
            }
        },
        None => {},
    }
}

// ---------------------------------------------------------------- build
fn sort_records(recs: &Vec<BVHBuildInfo>, axis: SplitAxis) -> (r: Vec<BVHBuildInfo>)
    ensures
        r@ == sort_spec(recs@, axis),
{
    let mut out: Vec<BVHBuildInfo> = Vec::new();
    let mut i: usize = 0;
    while i < recs.len()
        invariant
            i <= recs.len(),
            out@ == sort_spec(recs@.take(i as int), axis),
        decreases recs.len() - i,
    {
        let x = recs[i];
        proof {
            lemma_sort(recs@.take(i as int), axis);
        }
        let mut j: usize = 0;
        while j < out.len() && key_of(&out[j], axis) <= key_of(&x, axis)
            invariant
                j <= out.len(),
                forall|k: int| 0 <= k < j ==> key(#[trigger] out@[k], axis) <= key(x, axis),
            decreases out.len() - j,
        {
            j += 1;
        }
        proof {
            lemma_insert_at(out@, x, axis, j as int);
            assert(recs@.take(i + 1).drop_last() =~= recs@.take(i as int));
        }
        out.insert(j, x);
        i += 1;
    }
    assert(recs@.take(recs.len() as int) =~= recs@);
    out
}

fn key_of(r: &BVHBuildInfo, axis: SplitAxis) -> (k: i64)
    ensures
        k == key(*r, axis),
{
    match axis {
        SplitAxis::X => r.center.x,
        SplitAxis::Y => r.center.y,
        SplitAxis::Z => r.center.z,
    }
}

fn union_records(recs: &Vec<BVHBuildInfo>) -> (r: Aabb)
    requires
        recs.len() >= 1,
        records_ok(recs@),
    ensures
        r == union_all(recs@),
        box_ok(r),
{
    let mut acc = recs[0].bounding_box;
    assert(recs@.take(1).drop_last().len() == 0);
    let mut i: usize = 1;
    while i < recs.len()
        invariant
            1 <= i <= recs.len(),
            records_ok(recs@),
            acc == union_all(recs@.take(i as int)),
            box_ok(acc),
        decreases recs.len() - i,
    {
        proof {
            assert(recs@.take(i + 1).drop_last() =~= recs@.take(i as int));
            assert(box_ok(recs@[i as int].bounding_box));
            lemma_union_box_ok(acc, recs@[i as int].bounding_box);
        }
        acc = acc.union(&recs[i].bounding_box);
        i += 1;
    }
    assert(recs@.take(recs.len() as int) =~= recs@);
    acc
}

fn choose_axis(b: &Aabb) -> (r: SplitAxis)
    requires
        box_ok(*b),
    ensures
        r == split_axis(*b),
{
    let sx = b.max.x - b.min.x;
    let sy = b.max.y - b.min.y;
    let sz = b.max.z - b.min.z;
    if sx >= sy && sx >= sz {
        SplitAxis::X
    } else if sy >= sz {
        SplitAxis::Y
    } else {
        SplitAxis::Z
    }
}

impl BVHNode {
    /// Builds the hierarchy over `recs` by median split.
    pub fn new_(recs: Vec<BVHBuildInfo>) -> (r: BVHNode)
        requires
            recs.len() >= 1,
            records_ok(recs@),
        ensures
            built(r, recs@),
        decreases recs.len(),
    {
        if recs.len() == 1 {
            return BVHNode::Leaf { bounding_box: recs[0].bounding_box, index: recs[0].index };
        }
        let bounding_box = union_records(&recs);
        let axis = choose_axis(&bounding_box);
        let n = recs.len();
        let mut left = sort_records(&recs, axis);
        proof {
            lemma_sort(recs@, axis);
        }
        let mid = n / 2;
        let right = left.split_off(mid);
        proof {
            let sorted = sort_spec(recs@, axis);
            assert(left@ == sorted.take(mid as int));
            assert(right@ == sorted.skip(mid as int));
            assert forall|i: int| 0 <= i < left@.len() implies #[trigger] box_ok(
                left@[i].bounding_box,
            ) by {
                assert(sorted.contains(left@[i]));
                let k = choose|k: int| 0 <= k < recs@.len() && recs@[k] == left@[i];
                assert(box_ok(recs@[k].bounding_box));
            }
            assert forall|i: int| 0 <= i < right@.len() implies #[trigger] box_ok(
                right@[i].bounding_box,
            ) by {
                assert(sorted[i + mid] == right@[i]);
                assert(sorted.contains(right@[i]));
                let k = choose|k: int| 0 <= k < recs@.len() && recs@[k] == right@[i];
                assert(box_ok(recs@[k].bounding_box));
            }
        }
        let l = BVHNode::new_(left);
        let r = BVHNode::new_(right);
        BVHNode::Internal { bounding_box, n, left: Box::new(l), right: Box::new(r) }
    }

    pub fn bounding_box(&self) -> (r: Aabb)
        ensures
            r == node_box(*self),
    {
        match self {
            BVHNode::Leaf { bounding_box, .. } => *bounding_box,
            BVHNode::Internal { bounding_box, .. } => *bounding_box,
        }
    }

    /// Whether `p` lies in this node's box, faces included.
    pub fn isin(&self, p: Vec3i) -> (r: bool)
        ensures
            r == node_box(*self).contains_spec(p),
    {
        self.bounding_box().contains(p)
    }

    /// The first hit in traversal order among the objects below this node. The
    /// walk keeps an explicit stack: a node is entered only when its box holds `p`,
    /// and an inner node pushes its left child, then its right one.
    pub fn hit(&self, p: Vec3i, objects: &Vec<SDFObject>) -> (r: Option<Color>)
        requires
            in_range(p),
            forall|i: int| 0 <= i < objects.len() ==> (#[trigger] objects@[i]).wf(),
        ensures
            r == traverse(*self, p, objects@),
    {
        let mut stack: Vec<&BVHNode> = Vec::new();
        stack.push(self);
        assert(stack@.drop_last() =~= Seq::<&BVHNode>::empty());
        assert(traverse_stack(stack@.drop_last(), p, objects@) is None);
        while stack.len() > 0
            invariant
                in_range(p),
                forall|i: int| 0 <= i < objects.len() ==> (#[trigger] objects@[i]).wf(),
                traverse_stack(stack@, p, objects@) == traverse(*self, p, objects@),
            decreases stack_size(stack@),
        {
            let ghost s0 = stack@;
            let node = stack.pop().unwrap();
            assert(stack@ == s0.drop_last() && *node == *s0.last());
            assert(traverse_stack(s0, p, objects@) == match traverse(*node, p, objects@) {
                Some(c) => Some(c),
                None => traverse_stack(stack@, p, objects@),
            });
            assert(stack_size(s0) == node_size(*node) + stack_size(stack@));
            if node.isin(p) {
                match node {
                    BVHNode::Leaf { index, .. } => {
                        if *index < objects.len() {
                            let h = objects[*index].hit(p);
                            if h.is_some() {
                                return h;
                            }
                        }
                    },
                    BVHNode::Internal { left, right, .. } => {
                        let ghost before = stack@;
                        stack.push(&**left);
                        stack.push(&**right);
                        proof {
                            let mid = before.push(&**left);
                            assert(stack@.drop_last() =~= mid);
                            assert(mid.drop_last() =~= before);
                            assert(traverse_stack(mid, p, objects@) == match traverse(**left, p, objects@) {
                                Some(c) => Some(c),
                                None => traverse_stack(before, p, objects@),
                            });
                            assert(traverse_stack(stack@, p, objects@) == match traverse(**right, p, objects@) {
                                Some(c) => Some(c),
                                None => traverse_stack(mid, p, objects@),
                            });
                            assert(stack_size(mid) == node_size(**left) + stack_size(before));
                            assert(stack_size(stack@) == node_size(**right) + stack_size(mid));
                        }
                    },
                }
            }
        }
        None
    }
}

/// The first hit of a walk that pops nodes from the end of `stack`.
pub open spec fn traverse_stack(stack: Seq<&BVHNode>, p: Vec3i, objs: Seq<SDFObject>) -> Option<Color>
    decreases stack.len(),
{
    if stack.len() == 0 {
        None
    } else {
        match traverse(*stack.last(), p, objs) {
            Some(c) => Some(c),
            None => traverse_stack(stack.drop_last(), p, objs),
        }
    }
}

/// Number of nodes in a tree.
pub open spec fn node_size(node: BVHNode) -> nat
    decreases node,
{
    match node {
        BVHNode::Leaf { .. } => 1,
        BVHNode::Internal { left, right, .. } => 1 + node_size(*left) + node_size(*right),
    }
}

/// Number of nodes in all the trees on a stack.
pub open spec fn stack_size(stack: Seq<&BVHNode>) -> nat
    decreases stack.len(),
{
    if stack.len() == 0 {
        0
    } else {
        node_size(*stack.last()) + stack_size(stack.drop_last())
    }
}

impl BVHBuildInfo {
    pub fn new(index: usize, object: &SDFObject) -> (r: BVHBuildInfo)
        requires
            object.wf(),
        ensures
            r.index == index,
            r.bounding_box == object.bbox(),
            r.center == (Vec3 {
                x: (object.bbox().min.x + object.bbox().max.x) as i64,
                y: (object.bbox().min.y + object.bbox().max.y) as i64,
                z: (object.bbox().min.z + object.bbox().max.z) as i64,
            }),
            box_ok(r.bounding_box),
    {
        let b = object.bounding_box();
        proof {
            lemma_bbox_ok(&object.sdf);
        }
        BVHBuildInfo { index, center: b.min.add(b.max), bounding_box: b }
    }
}

impl BVH {
    pub open spec fn wf(self) -> bool {
        &&& forall|i: int| 0 <= i < self.objects.len() ==> (#[trigger] self.objects@[i]).wf()
        &&& match self.root {
            None => self.objects.len() == 0,
            Some(node) => self.objects.len() > 0 && built(node, records_of(self.objects@)),
        }
    }

    pub open spec fn hit_spec(self, p: Vec3i) -> Option<Color> {
        match self.root {
            Some(node) => traverse(node, p, self.objects@),
            None => None,
        }
    }

    pub open spec fn bbox(self) -> Option<Aabb> {
        match self.root {
            Some(node) => Some(node_box(node)),
            None => None,
        }
    }

    /// Indexes `objects`; an empty list gives a hierarchy with no root.
    pub fn new(objects: Vec<SDFObject>) -> (r: BVH)
        requires
            forall|i: int| 0 <= i < objects.len() ==> (#[trigger] objects@[i]).wf(),
        ensures
            r.wf(),
            r.objects@ == objects@,
            r.root is None <==> objects.len() == 0,
    {
        if objects.len() == 0 {
            return BVH { root: None, objects };
        }
        let mut recs: Vec<BVHBuildInfo> = Vec::new();
        let mut i: usize = 0;
        while i < objects.len()
            invariant
                i <= objects.len(),
                forall|k: int| 0 <= k < objects.len() ==> (#[trigger] objects@[k]).wf(),
                recs@ == records_of(objects@).take(i as int),
                records_ok(recs@),
            decreases objects.len() - i,
        {
            let rec = BVHBuildInfo::new(i, &objects[i]);
            recs.push(rec);
            proof {
                assert(recs@ =~= records_of(objects@).take(i + 1));
            }
            i += 1;
        }
        assert(recs@ =~= records_of(objects@));
        let root = BVHNode::new_(recs);
        BVH { root: Some(root), objects }
    }

    /// The first object, in traversal order, that `p` hits.
    pub fn hit(&self, p: Vec3i) -> (r: Option<Color>)
        requires
            self.wf(),
            in_range(p),
        ensures
            r == self.hit_spec(p),
    {
        match &self.root {
            Some(node) => node.hit(p, &self.objects),
            None => None,
        }
    }

    /// The root's box; none for an empty hierarchy.
    pub fn bounding_box(&self) -> (r: Option<Aabb>)
        ensures
            r == self.bbox(),
    {
        match &self.root {
            Some(node) => Some(node.bounding_box()),
            None => None,
        }
    }
}

} // verus!
