//! The bounding-volume hierarchy: a binary tree over `(payload, box)` pairs,
//! built top-down by a spatial median split, and the two traversal queries
//! (nearest payload, payloads within a radius).
//!
//! The tree is rebuilt from a flat snapshot every tick and discarded after
//! the tick's queries; nothing here mutates a tree once it is built.

use vstd::prelude::*;

use crate::aabb::{AABB, Dist};
use crate::vec3::{Vec3, COORD_LIMIT};

verus! {

/// Every box of the sequence is well-formed.
pub open spec fn boxes_wf<T>(s: Seq<(T, AABB)>) -> bool {
    forall|k: int| 0 <= k < s.len() ==> (#[trigger] s[k]).1.wf()
}

/// A node of the hierarchy: either a leaf holding exactly one payload and
/// its box, or an internal node holding the union box of its two children.
pub enum BVHNode<T> {
    Leaf { data: T, bbox: AABB },
    Branch { bbox: AABB, left: Box<BVHNode<T>>, right: Box<BVHNode<T>> },
}

impl<T> BVHNode<T> {
    /// The box stored at this node.
    pub open spec fn bbox_s(self) -> AABB {
        match self {
            BVHNode::Leaf { bbox, .. } => bbox,
            BVHNode::Branch { bbox, .. } => bbox,
        }
    }

    /// The `(payload, box)` pairs of the leaves, left to right.
    pub open spec fn leaves(self) -> Seq<(T, AABB)>
        decreases self,
    {
        match self {
            BVHNode::Leaf { data, bbox } => seq![(data, bbox)],
            BVHNode::Branch { left, right, .. } => (*left).leaves() + (*right).leaves(),
        }
    }

    /// Structural soundness: every box is well-formed and every internal
    /// node's box is the union of its children's boxes.
    pub open spec fn wf(self) -> bool
        decreases self,
    {
        match self {
            BVHNode::Leaf { bbox, .. } => bbox.wf(),
            BVHNode::Branch { bbox, left, right } => {
                &&& (*left).wf()
                &&& (*right).wf()
                &&& bbox == AABB::outer_s((*left).bbox_s(), (*right).bbox_s())
                &&& bbox.wf()
            },
        }
    }

    /// A tree has at least one leaf.
    pub proof fn lemma_leaves_nonempty(self)
        ensures
            self.leaves().len() >= 1,
        decreases self,
    {
        match self {
            BVHNode::Leaf { .. } => {},
            BVHNode::Branch { left, right, .. } => {
                (*left).lemma_leaves_nonempty();
                (*right).lemma_leaves_nonempty();
            },
        }
    }

    /// Every leaf box of a well-formed tree lies within the tree's root box,
    /// and is itself well-formed.
    pub proof fn lemma_leaves_in_bbox(self)
        requires
            self.wf(),
        ensures
            forall|k: int|
                0 <= k < self.leaves().len() ==> (#[trigger] self.leaves()[k]).1.subset_s(
                    self.bbox_s(),
                ) && self.leaves()[k].1.wf(),
        decreases self,
    {
        match self {
            BVHNode::Leaf { .. } => {},
            BVHNode::Branch { bbox, left, right } => {
                (*left).lemma_leaves_in_bbox();
                (*right).lemma_leaves_in_bbox();
                crate::aabb::lemma_outer_covers((*left).bbox_s(), (*right).bbox_s());
                assert forall|k: int| 0 <= k < self.leaves().len() implies (
                #[trigger] self.leaves()[k]).1.subset_s(self.bbox_s()) && self.leaves()[k].1.wf() by {
                    let ll = (*left).leaves();
                    if k < ll.len() {
                        assert(self.leaves()[k] == ll[k]);
                        lemma_subset_trans(ll[k].1, (*left).bbox_s(), bbox);
                    } else {
                        let rl = (*right).leaves();
                        assert(self.leaves()[k] == rl[k - ll.len()]);
                        lemma_subset_trans(rl[k - ll.len()].1, (*right).bbox_s(), bbox);
                    }
                }
            },
        }
    }
}

proof fn lemma_subset_trans(a: AABB, b: AABB, c: AABB)
    requires
        a.subset_s(b),
        b.subset_s(c),
    ensures
        a.subset_s(c),
{
}

/// The doubled center coordinate of a box on the chosen axis (`0` = x,
/// `1` = y, otherwise z).  Working with `min + max` instead of the halved
/// center keeps the spatial-median comparison exact.
pub open spec fn center2_s(b: AABB, axis: u8) -> int {
    if axis == 0 {
        b.min.x + b.max.x
    } else if axis == 1 {
        b.min.y + b.max.y
    } else {
        b.min.z + b.max.z
    }
}

fn center2(b: &AABB, axis: u8) -> (r: i64)
    requires
        b.wf(),
    ensures
        r == center2_s(*b, axis),
{
    if axis == 0 {
        b.min.x + b.max.x
    } else if axis == 1 {
        b.min.y + b.max.y
    } else {
        b.min.z + b.max.z
    }
}

/// The union box of the first `k` pairs, as the builder accumulates it.
pub open spec fn outer_upto<T>(s: Seq<(T, AABB)>, k: int) -> AABB
    decreases k,
{
    if k <= 1 {
        s[0].1
    } else {
        AABB::outer_s(outer_upto(s, k - 1), s[k - 1].1)
    }
}

/// The split axis: the one on which the union box is widest, ties
/// preferring x, then y, then z (`0` = x, `1` = y, otherwise z).
pub open spec fn widest_axis_s(outer: AABB) -> u8 {
    let ex = outer.max.x - outer.min.x;
    let ey = outer.max.y - outer.min.y;
    let ez = outer.max.z - outer.min.z;
    if ex >= ey && ex >= ez {
        0
    } else if ey >= ez {
        1
    } else {
        2
    }
}

/// The partition of the pairs by their (doubled) box centers against the
/// (doubled) midpoint `mid2` on `axis`: those at or below, and the rest,
/// each in input order.
pub open spec fn spatial_split_at<T>(s: Seq<(T, AABB)>, axis: u8, mid2: int) -> (
    Seq<(T, AABB)>,
    Seq<(T, AABB)>,
) {
    (
        s.filter(|pr: (T, AABB)| center2_s(pr.1, axis) <= mid2),
        s.filter(|pr: (T, AABB)| !(center2_s(pr.1, axis) <= mid2)),
    )
}

/// The spatial-median partition: pairs whose box center lies at or below
/// the geometric midpoint of the union box on the widest axis, and the
/// rest, each in input order.
pub open spec fn spatial_split_s<T>(s: Seq<(T, AABB)>) -> (Seq<(T, AABB)>, Seq<(T, AABB)>) {
    let outer = outer_upto(s, s.len() as int);
    let axis = widest_axis_s(outer);
    spatial_split_at(s, axis, center2_s(outer, axis))
}

/// How one more pair extends the partition.
proof fn lemma_spatial_split_push<T>(s: Seq<(T, AABB)>, x: (T, AABB), axis: u8, mid2: int)
    ensures
        spatial_split_at(s.push(x), axis, mid2).0 == if center2_s(x.1, axis) <= mid2 {
            spatial_split_at(s, axis, mid2).0.push(x)
        } else {
            spatial_split_at(s, axis, mid2).0
        },
        spatial_split_at(s.push(x), axis, mid2).1 == if center2_s(x.1, axis) <= mid2 {
            spatial_split_at(s, axis, mid2).1
        } else {
            spatial_split_at(s, axis, mid2).1.push(x)
        },
{
    reveal(Seq::filter);
    assert(s.push(x).drop_last() =~= s);
    assert(s.push(x).last() == x);
}

/// The empty sequence splits into two empty groups.
proof fn lemma_spatial_split_empty<T>(axis: u8, mid2: int)
    ensures
        spatial_split_at(Seq::<(T, AABB)>::empty(), axis, mid2).0 == Seq::<(T, AABB)>::empty(),
        spatial_split_at(Seq::<(T, AABB)>::empty(), axis, mid2).1 == Seq::<(T, AABB)>::empty(),
{
    reveal(Seq::filter);
}

/// Where a pair with (doubled) center `key` goes when inserted into a run
/// sorted by center on `axis`: after every pair whose center is at or
/// below `key`, so that equal centers keep their insertion order.
pub open spec fn ins_pos_s<T>(s: Seq<(T, AABB)>, key: int, axis: u8) -> int
    decreases s.len(),
{
    if s.len() == 0 {
        0
    } else if center2_s(s.last().1, axis) <= key {
        s.len() as int
    } else {
        ins_pos_s(s.drop_last(), key, axis)
    }
}

/// The pairs ordered by their box centers on `axis`: a stable insertion
/// sort, so pairs with equal centers keep their input order.
pub open spec fn sort_by_center_s<T>(s: Seq<(T, AABB)>, axis: u8) -> Seq<(T, AABB)>
    decreases s.len(),
{
    if s.len() == 0 {
        Seq::empty()
    } else {
        let sub = sort_by_center_s(s.drop_last(), axis);
        sub.insert(ins_pos_s(sub, center2_s(s.last().1, axis), axis), s.last())
    }
}

proof fn lemma_ins_pos_range<T>(s: Seq<(T, AABB)>, key: int, axis: u8)
    ensures
        0 <= ins_pos_s(s, key, axis) <= s.len(),
    decreases s.len(),
{
    if s.len() > 0 {
        lemma_ins_pos_range(s.drop_last(), key, axis);
    }
}

/// Sorting keeps exactly the pairs: same multiset, same length.
proof fn lemma_sort_multiset<T>(s: Seq<(T, AABB)>, axis: u8)
    ensures
        sort_by_center_s(s, axis).to_multiset() == s.to_multiset(),
        sort_by_center_s(s, axis).len() == s.len(),
    decreases s.len(),
{
    broadcast use vstd::seq_lib::group_to_multiset_ensures;

    if s.len() == 0 {
        assert(sort_by_center_s(s, axis) =~= s);
    } else {
        lemma_sort_multiset(s.drop_last(), axis);
        let sub = sort_by_center_s(s.drop_last(), axis);
        let key = center2_s(s.last().1, axis);
        lemma_ins_pos_range(sub, key, axis);
        sub.insert_ensures(ins_pos_s(sub, key, axis), s.last());
        assert(s =~= s.drop_last().push(s.last()));
    }
}

/// Inserting a well-formed box keeps every box well-formed.
proof fn lemma_insert_wf<T>(s: Seq<(T, AABB)>, x: (T, AABB), p: int)
    requires
        0 <= p <= s.len(),
        boxes_wf(s),
        x.1.wf(),
    ensures
        boxes_wf(s.insert(p, x)),
{
    s.insert_ensures(p, x);
    assert forall|k: int| 0 <= k < s.insert(p, x).len() implies (#[trigger] s.insert(p, x)[k]).1.wf() by {
        if k < p {
            assert(s.insert(p, x)[k] == s[k]);
        } else if k == p {
            assert(s.insert(p, x)[k] == x);
        } else {
            assert(s.insert(p, x)[k] == s[k - 1]);
        }
    }
}

/// The split the builder uses: the spatial median, falling back to the
/// count median — halving the pairs ordered by center on the chosen axis —
/// whenever the spatial split would leave a side empty.
pub open spec fn split_s<T>(s: Seq<(T, AABB)>) -> (Seq<(T, AABB)>, Seq<(T, AABB)>) {
    let axis = widest_axis_s(outer_upto(s, s.len() as int));
    let parts = spatial_split_s(s);
    if parts.0.len() == 0 || parts.1.len() == 0 {
        let sorted = sort_by_center_s(s, axis);
        (sorted.take(s.len() as int / 2), sorted.skip(s.len() as int / 2))
    } else {
        parts
    }
}

/// Complementary filters partition a sequence's length.
proof fn lemma_filter_complement<A>(s: Seq<A>, p: spec_fn(A) -> bool, q: spec_fn(A) -> bool)
    requires
        forall|x: A| #[trigger] q(x) == !p(x),
    ensures
        s.filter(p).len() + s.filter(q).len() == s.len(),
    decreases s.len(),
{
    reveal(Seq::filter);
    if s.len() > 0 {
        lemma_filter_complement(s.drop_last(), p, q);
        assert(q(s.last()) == !p(s.last()));
        assert(s.filter(p) == if p(s.last()) {
            s.drop_last().filter(p).push(s.last())
        } else {
            s.drop_last().filter(p)
        });
        assert(s.filter(q) == if q(s.last()) {
            s.drop_last().filter(q).push(s.last())
        } else {
            s.drop_last().filter(q)
        });
    }
}

/// Both sides of the builder's split are non-empty and their lengths add
/// up, so recursion always makes progress.
proof fn lemma_split_parts<T>(s: Seq<(T, AABB)>)
    requires
        s.len() >= 2,
    ensures
        split_s(s).0.len() >= 1,
        split_s(s).1.len() >= 1,
        split_s(s).0.len() + split_s(s).1.len() == s.len(),
{
    let outer = outer_upto(s, s.len() as int);
    let axis = widest_axis_s(outer);
    let mid2 = center2_s(outer, axis);
    lemma_filter_complement(
        s,
        |pr: (T, AABB)| center2_s(pr.1, axis) <= mid2,
        |pr: (T, AABB)| !(center2_s(pr.1, axis) <= mid2),
    );
    assert(spatial_split_s(s) == spatial_split_at(s, axis, mid2));
    lemma_sort_multiset(s, axis);
}

/// The leaf sequence of the tree the builder produces: the pairs
/// themselves for a single pair, otherwise the leaves of the two split
/// halves, left before right.
pub open spec fn build_leaves_s<T>(s: Seq<(T, AABB)>) -> Seq<(T, AABB)>
    decreases s.len(),
    via build_leaves_s_decreases::<T>
{
    if s.len() <= 1 {
        s
    } else {
        build_leaves_s(split_s(s).0) + build_leaves_s(split_s(s).1)
    }
}

#[via_fn]
proof fn build_leaves_s_decreases<T>(s: Seq<(T, AABB)>) {
    if s.len() >= 2 {
        lemma_split_parts(s);
    }
}

impl<T: Copy> BVHNode<T> {
    /// The box stored at this node.
    pub fn bbox(&self) -> (r: AABB)
        ensures
            r == self.bbox_s(),
    {
        match self {
            BVHNode::Leaf { bbox, .. } => *bbox,
            BVHNode::Branch { bbox, .. } => *bbox,
        }
    }

    /// Builds the hierarchy over a non-empty collection of `(payload, box)`
    /// pairs: a well-formed tree whose leaf sequence is exactly
    /// [`build_leaves_s`] of the input — the input pairs, arranged by the
    /// recursive median split — so in particular the leaves carry exactly
    /// the input pairs as a multiset.
    pub fn create(data_and_boxes: Vec<(T, AABB)>) -> (r: Option<BVHNode<T>>)
        requires
            data_and_boxes@.len() >= 1,
            boxes_wf(data_and_boxes@),
        ensures
            r.is_some(),
            r.unwrap().wf(),
            r.unwrap().leaves() == build_leaves_s(data_and_boxes@),
            r.unwrap().leaves().to_multiset() == data_and_boxes@.to_multiset(),
            r.unwrap().leaves().len() == data_and_boxes@.len(),
        decreases data_and_boxes@.len(),
    {
        broadcast use vstd::seq_lib::group_to_multiset_ensures;

        if data_and_boxes.len() == 1 {
            let pair = data_and_boxes[0];
            let node = BVHNode::Leaf { data: pair.0, bbox: pair.1 };
            proof {
                assert(data_and_boxes@ =~= Seq::empty().push(pair));
                assert(node.leaves() =~= Seq::empty().push(pair));
            }
            Some(node)
        } else {
            let (before, after) = split_heuristic(data_and_boxes);
            let ghost before_seq = before@;
            let ghost after_seq = after@;
            let left = BVHNode::create(before);
            let right = BVHNode::create(after);
            let l = left.unwrap();
            let r = right.unwrap();
            let bbox = AABB::outer(&l.bbox(), &r.bbox());
            let node = BVHNode::Branch { bbox, left: Box::new(l), right: Box::new(r) };
            proof {
                vstd::seq_lib::lemma_multiset_commutative(l.leaves(), r.leaves());
                assert(node.leaves().to_multiset() =~= before_seq.to_multiset().add(
                    after_seq.to_multiset(),
                ));
            }
            Some(node)
        }
    }
}

/// Splits at least two pairs into the two groups of [`split_s`]: both
/// non-empty, together carrying exactly the input pairs.
///
/// The heuristic is the spatial median: the pairs are partitioned by their
/// box centers against the geometric midpoint of their union box, on the
/// axis where that union box is widest (ties prefer x, then y, then z).
/// When every center falls on one side — as happens when all boxes coincide
/// — the split falls back to a count median: the pairs ordered by their
/// centers on the chosen axis, halved.  Either way each side is non-empty,
/// so construction always makes progress.
fn split_heuristic<T: Copy>(data_and_boxes: Vec<(T, AABB)>) -> (r: (Vec<(T, AABB)>, Vec<(T, AABB)>))
    requires
        data_and_boxes@.len() >= 2,
        boxes_wf(data_and_boxes@),
    ensures
        r.0@ == split_s(data_and_boxes@).0,
        r.1@ == split_s(data_and_boxes@).1,
        r.0@.len() >= 1,
        r.1@.len() >= 1,
        r.0@.len() + r.1@.len() == data_and_boxes@.len(),
        boxes_wf(r.0@),
        boxes_wf(r.1@),
        r.0@.to_multiset().add(r.1@.to_multiset()) == data_and_boxes@.to_multiset(),
{
    broadcast use vstd::seq_lib::group_to_multiset_ensures;

    let n = data_and_boxes.len();
    // Union box of all input boxes; it only steers the heuristic.
    let mut outer = data_and_boxes[0].1;
    let mut k: usize = 1;
    while k < n
        invariant
            1 <= k <= n,
            n == data_and_boxes@.len() >= 2,
            boxes_wf(data_and_boxes@),
            outer.wf(),
            outer == outer_upto(data_and_boxes@, k as int),
        decreases n - k,
    {
        outer = AABB::outer(&outer, &data_and_boxes[k].1);
        k = k + 1;
    }
    let ex = outer.max.x - outer.min.x;
    let ey = outer.max.y - outer.min.y;
    let ez = outer.max.z - outer.min.z;
    let axis: u8 = if ex >= ey && ex >= ez {
        0
    } else if ey >= ez {
        1
    } else {
        2
    };
    let mid2 = center2(&outer, axis);
    proof {
        assert(outer == outer_upto(data_and_boxes@, data_and_boxes@.len() as int));
        assert(axis == widest_axis_s(outer));
        assert(mid2 == center2_s(outer, axis));
        assert(data_and_boxes@.take(0) =~= Seq::<(T, AABB)>::empty());
        lemma_spatial_split_empty::<T>(axis, mid2 as int);
    }

    let mut before: Vec<(T, AABB)> = Vec::new();
    let mut after: Vec<(T, AABB)> = Vec::new();
    let mut i: usize = 0;
    while i < n
        invariant
            0 <= i <= n,
            n == data_and_boxes@.len() >= 2,
            boxes_wf(data_and_boxes@),
            boxes_wf(before@),
            boxes_wf(after@),
            before@.len() + after@.len() == i,
            before@.to_multiset().add(after@.to_multiset()) == data_and_boxes@.take(
                i as int,
            ).to_multiset(),
            before@ == spatial_split_at(data_and_boxes@.take(i as int), axis, mid2 as int).0,
            after@ == spatial_split_at(data_and_boxes@.take(i as int), axis, mid2 as int).1,
        decreases n - i,
    {
        broadcast use vstd::seq_lib::group_to_multiset_ensures;

        let pair = data_and_boxes[i];
        proof {
            assert(data_and_boxes@.take(i + 1 as int) =~= data_and_boxes@.take(i as int).push(
                pair,
            ));
            lemma_spatial_split_push(
                data_and_boxes@.take(i as int),
                pair,
                axis,
                mid2 as int,
            );
        }
        if center2(&pair.1, axis) <= mid2 {
            before.push(pair);
            proof {
                lemma_multiset_insert_add_left(before@, after@, pair);
            }
        } else {
            after.push(pair);
        }
        i = i + 1;
    }
    proof {
        assert(data_and_boxes@.take(n as int) =~= data_and_boxes@);
        assert(spatial_split_s(data_and_boxes@) == spatial_split_at(
            data_and_boxes@,
            axis,
            mid2 as int,
        ));
    }
    if before.len() == 0 || after.len() == 0 {
        // Degenerate spatial split: fall back to the count median.  The
        // pairs are first ordered by their centers on the chosen axis
        // (stable insertion sort), then halved, so both sides are
        // non-empty and recursion always terminates.
        let mut sorted: Vec<(T, AABB)> = Vec::new();
        let mut j: usize = 0;
        while j < n
            invariant
                0 <= j <= n,
                n == data_and_boxes@.len() >= 2,
                boxes_wf(data_and_boxes@),
                boxes_wf(sorted@),
                sorted@.len() == j,
                sorted@ == sort_by_center_s(data_and_boxes@.take(j as int), axis),
            decreases n - j,
        {
            let x = data_and_boxes[j];
            let xk = center2(&x.1, axis);
            let mut p: usize = sorted.len();
            proof {
                assert(sorted@.take(sorted@.len() as int) =~= sorted@);
            }
            while p > 0 && center2(&sorted[p - 1].1, axis) > xk
                invariant
                    0 <= p <= sorted@.len(),
                    boxes_wf(sorted@),
                    ins_pos_s(sorted@, xk as int, axis) == ins_pos_s(
                        sorted@.take(p as int),
                        xk as int,
                        axis,
                    ),
                decreases p,
            {
                proof {
                    assert(sorted@.take(p as int).last() == sorted@[p - 1]);
                    assert(sorted@.take(p as int).drop_last() =~= sorted@.take(p - 1 as int));
                }
                p = p - 1;
            }
            proof {
                if p == 0 {
                    assert(sorted@.take(0) =~= Seq::<(T, AABB)>::empty());
                } else {
                    assert(sorted@.take(p as int).last() == sorted@[p - 1]);
                }
                assert(p == ins_pos_s(sorted@, xk as int, axis));
                lemma_insert_wf(sorted@, x, p as int);
            }
            let ghost prev_sorted = sorted@;
            sorted.insert(p, x);
            proof {
                prev_sorted.insert_ensures(p as int, x);
                assert(data_and_boxes@.take(j + 1 as int) =~= data_and_boxes@.take(
                    j as int,
                ).push(x));
                assert(data_and_boxes@.take(j + 1 as int).drop_last() =~= data_and_boxes@.take(
                    j as int,
                ));
            }
            j = j + 1;
        }
        proof {
            assert(data_and_boxes@.take(n as int) =~= data_and_boxes@);
            lemma_sort_multiset(data_and_boxes@, axis);
        }
        let half = n / 2;
        let mut before2: Vec<(T, AABB)> = Vec::new();
        let mut after2: Vec<(T, AABB)> = Vec::new();
        let mut j2: usize = 0;
        while j2 < n
            invariant
                0 <= j2 <= n,
                n == data_and_boxes@.len() >= 2,
                half == n / 2,
                sorted@.len() == n,
                sorted@ == sort_by_center_s(data_and_boxes@, axis),
                boxes_wf(sorted@),
                before2@ == sorted@.take(if j2 <= half {
                    j2 as int
                } else {
                    half as int
                }),
                after2@ == sorted@.subrange(half as int, if j2 >= half {
                    j2 as int
                } else {
                    half as int
                }),
            decreases n - j2,
        {
            let pair = sorted[j2];
            if j2 < half {
                before2.push(pair);
                proof {
                    assert(before2@ =~= sorted@.take(j2 + 1 as int));
                }
            } else {
                after2.push(pair);
                proof {
                    assert(after2@ =~= sorted@.subrange(half as int, j2 + 1 as int));
                }
            }
            j2 = j2 + 1;
        }
        proof {
            assert(sorted@.take(half as int) + sorted@.subrange(half as int, n as int)
                =~= sorted@);
            vstd::seq_lib::lemma_multiset_commutative(
                sorted@.take(half as int),
                sorted@.subrange(half as int, n as int),
            );
            assert(sorted@.skip(half as int) =~= sorted@.subrange(half as int, n as int));
            assert forall|k: int| 0 <= k < before2@.len() implies (#[trigger] before2@[k]).1.wf() by {
                assert(before2@[k] == sorted@[k]);
            }
            assert forall|k: int| 0 <= k < after2@.len() implies (#[trigger] after2@[k]).1.wf() by {
                assert(after2@[k] == sorted@[half + k]);
            }
        }
        (before2, after2)
    } else {
        (before, after)
    }
}

/// The payloads of the pairs whose box has signed distance at most `radius`
/// from the point, in the order the pairs appear.
pub open spec fn in_radius_s<T>(s: Seq<(T, AABB)>, p: Vec3, radius: int) -> Seq<T>
    decreases s.len(),
{
    if s.len() == 0 {
        Seq::empty()
    } else {
        in_radius_s(s.drop_last(), p, radius) + if s.last().1.within_s(p, radius) {
            seq![s.last().0]
        } else {
            Seq::empty()
        }
    }
}

/// The in-radius selection distributes over concatenation.
proof fn lemma_in_radius_concat<T>(a: Seq<(T, AABB)>, b: Seq<(T, AABB)>, p: Vec3, radius: int)
    ensures
        in_radius_s(a + b, p, radius) == in_radius_s(a, p, radius) + in_radius_s(b, p, radius),
    decreases b.len(),
{
    if b.len() == 0 {
        assert(a + b =~= a);
        assert(in_radius_s(b, p, radius) =~= Seq::<T>::empty());
        assert(in_radius_s(a, p, radius) + Seq::<T>::empty() =~= in_radius_s(a, p, radius));
    } else {
        lemma_in_radius_concat(a, b.drop_last(), p, radius);
        assert((a + b).drop_last() =~= a + b.drop_last());
        assert((a + b).last() == b.last());
        assert(in_radius_s(a + b, p, radius) =~= in_radius_s(a, p, radius) + in_radius_s(
            b,
            p,
            radius,
        ));
    }
}

/// If no pair qualifies, the selection is empty.
proof fn lemma_in_radius_none<T>(s: Seq<(T, AABB)>, p: Vec3, radius: int)
    requires
        forall|k: int| 0 <= k < s.len() ==> !(#[trigger] s[k]).1.within_s(p, radius),
    ensures
        in_radius_s(s, p, radius) == Seq::<T>::empty(),
    decreases s.len(),
{
    if s.len() > 0 {
        assert(s.last() == s[s.len() - 1]);
        assert(forall|k: int| 0 <= k < s.drop_last().len() ==> #[trigger] s.drop_last()[k] == s[k]);
        lemma_in_radius_none(s.drop_last(), p, radius);
        assert(in_radius_s(s, p, radius) =~= Seq::<T>::empty());
    }
}

impl<T: Copy> BVHNode<T> {
    /// The payloads of all leaves whose box has signed distance at most
    /// `radius` from the point, in leaf order.  The result is a possibly
    /// empty collection, never an absent one: a point out of range of
    /// every leaf — in particular one the root box already prunes — gets
    /// the empty collection, a normal outcome rather than an error.
    pub fn get_in_radius(&self, position: &Vec3, radius: i64) -> (r: Vec<T>)
        requires
            self.wf(),
            position.in_range(),
            0 <= radius <= COORD_LIMIT,
        ensures
            r@ == in_radius_s(self.leaves(), *position, radius as int),
        decreases *self,
    {
        let d = self.bbox().distance(position);
        if !d.le_radius(radius) {
            proof {
                self.lemma_pruned_empty(*position, radius as int);
            }
            return Vec::new();
        }
        match self {
            BVHNode::Leaf { data, bbox } => {
                proof {
                    assert(in_radius_s(Seq::<(T, AABB)>::empty(), *position, radius as int)
                        =~= Seq::<T>::empty());
                    assert(self.leaves() =~= seq![(*data, *bbox)]);
                    assert(self.leaves().drop_last() =~= Seq::<(T, AABB)>::empty());
                    assert(in_radius_s(self.leaves(), *position, radius as int) =~= seq![*data]);
                }
                vec![*data]
            },
            BVHNode::Branch { left, right, .. } => {
                proof {
                    lemma_in_radius_concat(
                        (**left).leaves(),
                        (**right).leaves(),
                        *position,
                        radius as int,
                    );
                }
                let mut out = left.get_in_radius(position, radius);
                let mut from_right = right.get_in_radius(position, radius);
                out.append(&mut from_right);
                out
            },
        }
    }
}

impl<T> BVHNode<T> {
    /// A pruned subtree contributes nothing: if the node's box is farther
    /// than the radius, no leaf of the node qualifies.
    proof fn lemma_pruned_empty(self, p: Vec3, radius: int)
        requires
            self.wf(),
            !self.bbox_s().within_s(p, radius),
        ensures
            in_radius_s(self.leaves(), p, radius) == Seq::<T>::empty(),
    {
        self.lemma_leaves_in_bbox();
        assert forall|k: int| 0 <= k < self.leaves().len() implies !(
        #[trigger] self.leaves()[k]).1.within_s(p, radius) by {
            let leaf = self.leaves()[k].1;
            if leaf.within_s(p, radius) {
                crate::aabb::lemma_within_mono(leaf, self.bbox_s(), p, radius);
            }
        }
        lemma_in_radius_none(self.leaves(), p, radius);
    }
}

/// Correctness of the nearest query over the built tree: the leaf pair
/// that [`BVHNode::get_closest`] returns is at least as close (in signed
/// distance) to the query point as every input pair's box — it is the
/// closest by distance, not an artifact of traversal order.  The
/// hypothesis is what [`BVHNode::create`] ensures about the tree.
pub proof fn lemma_nearest_minimal<T>(input: Seq<(T, AABB)>, root: BVHNode<T>, p: Vec3)
    requires
        root.leaves().to_multiset() == input.to_multiset(),
        input.len() >= 1,
    ensures
        forall|k: int|
            0 <= k < input.len() ==> root.leaves()[best_idx_s(root.leaves(), p)].1.dist_le_s(
                (#[trigger] input[k]).1,
                p,
            ),
{
    broadcast use vstd::seq_lib::group_to_multiset_ensures;

    let leaves = root.leaves();
    assert(leaves.len() == leaves.to_multiset().len());
    assert(input.len() == input.to_multiset().len());
    lemma_best_idx(leaves, p);
    assert forall|k: int| 0 <= k < input.len() implies leaves[best_idx_s(leaves, p)].1.dist_le_s(
        (#[trigger] input[k]).1,
        p,
    ) by {
        assert(input.contains(input[k]));
        assert(leaves.to_multiset().count(input[k]) > 0);
        assert(leaves.contains(input[k]));
        let m = choose|m: int| 0 <= m < leaves.len() && leaves[m] == input[k];
        assert(leaves[best_idx_s(leaves, p)].1.dist_le_s(leaves[m].1, p));
    }
}

/// Soundness and completeness of the range query over the built tree: a
/// payload is returned by [`BVHNode::get_in_radius`] exactly when some
/// input pair carries it in a box whose signed distance to the query point
/// is at most the radius.  The hypothesis is what [`BVHNode::create`]
/// ensures about the tree; no payload is invented, dropped, or returned
/// past the radius.
pub proof fn lemma_range_query_sound_and_complete<T>(
    input: Seq<(T, AABB)>,
    root: BVHNode<T>,
    p: Vec3,
    radius: int,
    x: T,
)
    requires
        root.leaves().to_multiset() == input.to_multiset(),
    ensures
        in_radius_s(root.leaves(), p, radius).contains(x) <==> exists|k: int|
            0 <= k < input.len() && (#[trigger] input[k]).0 == x && input[k].1.within_s(p, radius),
{
    broadcast use vstd::seq_lib::group_to_multiset_ensures;

    let leaves = root.leaves();
    lemma_in_radius_mem(leaves, p, radius, x);
    if in_radius_s(leaves, p, radius).contains(x) {
        let k = choose|k: int|
            0 <= k < leaves.len() && (#[trigger] leaves[k]).0 == x && leaves[k].1.within_s(
                p,
                radius,
            );
        assert(leaves.contains(leaves[k]));
        assert(input.to_multiset().count(leaves[k]) > 0);
        assert(input.contains(leaves[k]));
        let m = choose|m: int| 0 <= m < input.len() && input[m] == leaves[k];
        assert(input[m].0 == x && input[m].1.within_s(p, radius));
    }
    if exists|k: int|
        0 <= k < input.len() && (#[trigger] input[k]).0 == x && input[k].1.within_s(p, radius) {
        let k = choose|k: int|
            0 <= k < input.len() && (#[trigger] input[k]).0 == x && input[k].1.within_s(p, radius);
        assert(input.contains(input[k]));
        assert(leaves.to_multiset().count(input[k]) > 0);
        assert(leaves.contains(input[k]));
        let m = choose|m: int| 0 <= m < leaves.len() && leaves[m] == input[k];
        assert(leaves[m].0 == x && leaves[m].1.within_s(p, radius));
    }
}

/// The in-radius selection never returns more payloads than there are
/// pairs.
pub proof fn lemma_in_radius_len<T>(s: Seq<(T, AABB)>, p: Vec3, radius: int)
    ensures
        in_radius_s(s, p, radius).len() <= s.len(),
    decreases s.len(),
{
    if s.len() > 0 {
        lemma_in_radius_len(s.drop_last(), p, radius);
    }
}

/// A payload is selected exactly when some pair carries it in a box within
/// the radius.
pub proof fn lemma_in_radius_mem<T>(s: Seq<(T, AABB)>, p: Vec3, radius: int, x: T)
    ensures
        in_radius_s(s, p, radius).contains(x) <==> exists|k: int|
            0 <= k < s.len() && (#[trigger] s[k]).0 == x && s[k].1.within_s(p, radius),
    decreases s.len(),
{
    if s.len() > 0 {
        let t = s.drop_last();
        lemma_in_radius_mem(t, p, radius, x);
        assert(forall|k: int| 0 <= k < t.len() ==> t[k] == s[k]);
        assert(s.last() == s[s.len() - 1]);
        let sel = in_radius_s(s, p, radius);
        let selt = in_radius_s(t, p, radius);
        if sel.contains(x) {
            let m = choose|m: int| 0 <= m < sel.len() && sel[m] == x;
            if m < selt.len() {
                assert(selt.contains(x));
            } else {
                assert(s.last().0 == x && s.last().1.within_s(p, radius));
            }
        }
        if exists|k: int| 0 <= k < s.len() && (#[trigger] s[k]).0 == x && s[k].1.within_s(
            p,
            radius,
        ) {
            let k = choose|k: int|
                0 <= k < s.len() && (#[trigger] s[k]).0 == x && s[k].1.within_s(p, radius);
            if k < s.len() - 1 {
                assert(selt.contains(x));
                let m = choose|m: int| 0 <= m < selt.len() && selt[m] == x;
                assert(sel[m] == x);
            } else {
                assert(sel[sel.len() - 1] == x);
            }
        }
    }
}

/// When every pair carries a different payload, the selected payloads are
/// pairwise different too.
pub proof fn lemma_in_radius_distinct<T>(s: Seq<(T, AABB)>, p: Vec3, radius: int)
    requires
        forall|k1: int, k2: int|
            0 <= k1 < k2 < s.len() ==> (#[trigger] s[k1]).0 != (#[trigger] s[k2]).0,
    ensures
        in_radius_s(s, p, radius).no_duplicates(),
    decreases s.len(),
{
    if s.len() > 0 {
        let t = s.drop_last();
        assert(forall|k: int| 0 <= k < t.len() ==> t[k] == s[k]);
        lemma_in_radius_distinct(t, p, radius);
        let selt = in_radius_s(t, p, radius);
        let sel = in_radius_s(s, p, radius);
        if s.last().1.within_s(p, radius) {
            assert(s.last() == s[s.len() - 1]);
            // The appended payload is new: no earlier pair carries it.
            if selt.contains(s.last().0) {
                lemma_in_radius_mem(t, p, radius, s.last().0);
                let k = choose|k: int|
                    0 <= k < t.len() && (#[trigger] t[k]).0 == s.last().0 && t[k].1.within_s(
                        p,
                        radius,
                    );
                assert(false);
            }
            assert(sel =~= selt.push(s.last().0));
            assert forall|m1: int, m2: int| 0 <= m1 < m2 < sel.len() implies sel[m1] != sel[m2] by {
                if m2 < selt.len() {
                } else {
                    assert(sel[m2] == s.last().0);
                    assert(selt.contains(sel[m1]) ==> sel[m1] != s.last().0);
                }
            }
        } else {
            assert(sel =~= selt);
        }
    }
}

/// The index of the pair whose box is closest (in signed distance) to the
/// point; of several equally close pairs, the last.
pub open spec fn best_idx_s<T>(s: Seq<(T, AABB)>, p: Vec3) -> int
    decreases s.len(),
{
    if s.len() <= 1 {
        0
    } else {
        let b = best_idx_s(s.drop_last(), p);
        if s[b].1.dist_lt_s(s.last().1, p) {
            b
        } else {
            s.len() - 1
        }
    }
}

/// `best_idx_s` names a valid index, its box is at least as close as every
/// box of the sequence, and strictly closer than every later box.
pub proof fn lemma_best_idx<T>(s: Seq<(T, AABB)>, p: Vec3)
    requires
        s.len() >= 1,
    ensures
        0 <= best_idx_s(s, p) < s.len(),
        forall|k: int|
            0 <= k < s.len() ==> s[best_idx_s(s, p)].1.dist_le_s((#[trigger] s[k]).1, p),
        forall|k: int|
            best_idx_s(s, p) < k < s.len() ==> s[best_idx_s(s, p)].1.dist_lt_s(
                (#[trigger] s[k]).1,
                p,
            ),
    decreases s.len(),
{
    if s.len() == 1 {
        crate::aabb::lemma_dist_le_refl(s[0].1, p);
    } else {
        let t = s.drop_last();
        lemma_best_idx(t, p);
        let b = best_idx_s(t, p);
        assert(forall|k: int| 0 <= k < t.len() ==> t[k] == s[k]);
        if s[b].1.dist_lt_s(s.last().1, p) {
            crate::aabb::lemma_dist_le_total(s[b].1, s.last().1, p);
            assert(s[b].1.dist_le_s(s.last().1, p));
            assert(s.last() == s[s.len() - 1]);
        } else {
            // The last pair ties or beats the best of the rest.
            assert(s.last().1.dist_le_s(s[b].1, p));
            assert forall|k: int| 0 <= k < s.len() implies s.last().1.dist_le_s(
                (#[trigger] s[k]).1,
                p,
            ) by {
                if k < s.len() - 1 {
                    crate::aabb::lemma_dist_le_trans(s.last().1, s[b].1, s[k].1, p);
                } else {
                    crate::aabb::lemma_dist_le_refl(s.last().1, p);
                    assert(s.last() == s[s.len() - 1]);
                }
            }
            assert(s.last() == s[s.len() - 1]);
        }
    }
}

/// How the best index of a concatenation arises from the best indices of
/// its halves: the left half wins only when it is strictly closer.
proof fn lemma_best_concat<T>(a: Seq<(T, AABB)>, b: Seq<(T, AABB)>, p: Vec3)
    requires
        a.len() >= 1,
        b.len() >= 1,
    ensures
        best_idx_s(a + b, p) == if a[best_idx_s(a, p)].1.dist_lt_s(b[best_idx_s(b, p)].1, p) {
            best_idx_s(a, p)
        } else {
            a.len() + best_idx_s(b, p)
        },
    decreases b.len(),
{
    let s = a + b;
    lemma_best_idx(a, p);
    lemma_best_idx(b, p);
    let ba = best_idx_s(a, p);
    if b.len() == 1 {
        assert(s.drop_last() =~= a);
        assert(s.last() == b[0]);
        assert(best_idx_s(b, p) == 0);
        assert(forall|k: int| 0 <= k < a.len() ==> s[k] == a[k]);
    } else {
        let bd = b.drop_last();
        lemma_best_concat(a, bd, p);
        lemma_best_idx(bd, p);
        let bbd = best_idx_s(bd, p);
        assert(s.drop_last() =~= a + bd);
        assert(s.last() == b.last());
        assert(forall|k: int| 0 <= k < a.len() ==> s[k] == a[k]);
        assert(forall|k: int| 0 <= k < b.len() ==> s[a.len() + k] == b[k]);
        assert(forall|k: int| 0 <= k < bd.len() ==> bd[k] == b[k]);
        let abig = a[ba].1;
        let bmid = b[bbd].1;
        let blast = b.last().1;
        assert(b.last() == b[b.len() - 1]);
        if abig.dist_lt_s(bmid, p) {
            // Left half beat everything before the final pair.
            if abig.dist_lt_s(blast, p) {
                crate::aabb::lemma_dist_le_total(abig, blast, p);
            } else {
                // blast <= abig < bmid, so the final pair is best overall.
                assert(blast.dist_le_s(abig, p));
                crate::aabb::lemma_dist_lt_le_trans(abig, bmid, bmid, p);
                if bmid.dist_lt_s(blast, p) {
                    crate::aabb::lemma_dist_le_trans(blast, abig, bmid, p);
                    assert(false);
                }
                assert(best_idx_s(b, p) == b.len() - 1);
            }
        } else {
            assert(bmid.dist_le_s(abig, p));
            if bmid.dist_lt_s(blast, p) {
                assert(best_idx_s(b, p) == bbd);
            } else {
                assert(blast.dist_le_s(bmid, p));
                assert(best_idx_s(b, p) == b.len() - 1);
                if abig.dist_lt_s(blast, p) {
                    crate::aabb::lemma_dist_le_trans(blast, bmid, abig, p);
                    assert(false);
                }
            }
        }
    }
}

impl<T: Copy> BVHNode<T> {
    /// The leaf pair whose box is closest (in signed distance) to the
    /// point; of several equally close leaves, the rightmost.  Descends
    /// only into subtrees whose box bound cannot rule them out.
    pub fn get_closest(&self, position: &Vec3) -> (r: Option<(T, AABB)>)
        requires
            self.wf(),
            position.in_range(),
        ensures
            r == Some(self.leaves()[best_idx_s(self.leaves(), *position)]),
        decreases *self,
    {
        match self {
            BVHNode::Leaf { data, bbox } => {
                proof {
                    assert(self.leaves() =~= seq![(*data, *bbox)]);
                }
                Some((*data, *bbox))
            },
            BVHNode::Branch { bbox, left, right } => {
                let ghost ll = (**left).leaves();
                let ghost rl = (**right).leaves();
                proof {
                    (**left).lemma_leaves_nonempty();
                    (**right).lemma_leaves_nonempty();
                    (**left).lemma_leaves_in_bbox();
                    (**right).lemma_leaves_in_bbox();
                    lemma_best_idx(ll, *position);
                    lemma_best_idx(rl, *position);
                    lemma_best_concat(ll, rl, *position);
                    assert(forall|k: int| 0 <= k < ll.len() ==> (ll + rl)[k] == ll[k]);
                    assert(forall|k: int| 0 <= k < rl.len() ==> (ll + rl)[ll.len() + k] == rl[k]);
                }
                let left_contains = left.bbox().contains(position);
                let right_contains = right.bbox().contains(position);
                if left_contains && !right_contains {
                    // The left child surrounds the point; its result may
                    // already rule the right child out by the right box's
                    // own distance bound.
                    let left_closest = left.get_closest(position).unwrap();
                    let dist = left_closest.1.distance(position);
                    let right_bound = right.bbox().distance(position);
                    proof {
                        lemma_close_beats_far_tree(
                            left_closest.1,
                            (**right),
                            dist,
                            right_bound,
                            *position,
                        );
                    }
                    if dist.lt(&right_bound) {
                        return Some(left_closest);
                    }
                    let right_closest = right.get_closest(position).unwrap();
                    Self::pick_closer(left_closest, right_closest, position, Ghost(ll), Ghost(rl))
                } else if right_contains && !left_contains {
                    // Mirror case: try to prune the left child.
                    let right_closest = right.get_closest(position).unwrap();
                    let dist = right_closest.1.distance(position);
                    let left_bound = left.bbox().distance(position);
                    proof {
                        lemma_close_beats_far_tree(
                            right_closest.1,
                            (**left),
                            dist,
                            left_bound,
                            *position,
                        );
                    }
                    if dist.lt(&left_bound) {
                        proof {
                            let bl = best_idx_s(ll, *position);
                            crate::aabb::lemma_dist_le_total(ll[bl].1, rl[best_idx_s(rl, *position)].1, *position);
                        }
                        return Some(right_closest);
                    }
                    let left_closest = left.get_closest(position).unwrap();
                    Self::pick_closer(left_closest, right_closest, position, Ghost(ll), Ghost(rl))
                } else {
                    // No pruning bound applies: search both children.
                    let left_closest = left.get_closest(position).unwrap();
                    let right_closest = right.get_closest(position).unwrap();
                    Self::pick_closer(left_closest, right_closest, position, Ghost(ll), Ghost(rl))
                }
            },
        }
    }

    /// Final comparison of the two children's results: the left one wins
    /// only when strictly closer.
    fn pick_closer(
        left_closest: (T, AABB),
        right_closest: (T, AABB),
        position: &Vec3,
        Ghost(ll): Ghost<Seq<(T, AABB)>>,
        Ghost(rl): Ghost<Seq<(T, AABB)>>,
    ) -> (r: Option<(T, AABB)>)
        requires
            ll.len() >= 1,
            rl.len() >= 1,
            left_closest == ll[best_idx_s(ll, *position)],
            right_closest == rl[best_idx_s(rl, *position)],
            left_closest.1.wf(),
            right_closest.1.wf(),
            position.in_range(),
        ensures
            r == Some((ll + rl)[best_idx_s(ll + rl, *position)]),
    {
        proof {
            lemma_best_idx(ll, *position);
            lemma_best_idx(rl, *position);
            lemma_best_concat(ll, rl, *position);
            assert(forall|k: int| 0 <= k < ll.len() ==> (ll + rl)[k] == ll[k]);
            assert(forall|k: int| 0 <= k < rl.len() ==> (ll + rl)[ll.len() + k] == rl[k]);
        }
        let left_dist = left_closest.1.distance(position);
        let right_dist = right_closest.1.distance(position);
        proof {
            crate::aabb::lemma_dist_value_agrees(
                right_closest.1,
                left_closest.1,
                right_dist,
                left_dist,
                *position,
            );
        }
        if left_dist.lt(&right_dist) {
            Some(left_closest)
        } else {
            Some(right_closest)
        }
    }
}

/// If a candidate leaf box is strictly closer than a whole subtree's root
/// box, it is strictly closer than the subtree's best leaf (and than every
/// leaf of that subtree).
proof fn lemma_close_beats_far_tree<T>(
    candidate: AABB,
    tree: BVHNode<T>,
    dc: Dist,
    dt: Dist,
    p: Vec3,
)
    requires
        tree.wf(),
        match dc {
            Dist::Inside { face } => candidate.contains_s(p) && face == candidate.face_dist_s(p),
            Dist::Outside { sq } => !candidate.contains_s(p) && sq == candidate.sq_dist_s(p),
        },
        match dt {
            Dist::Inside { face } => tree.bbox_s().contains_s(p) && face == tree.bbox_s().face_dist_s(
                p,
            ),
            Dist::Outside { sq } => !tree.bbox_s().contains_s(p) && sq == tree.bbox_s().sq_dist_s(p),
        },
    ensures
        !dt.le_s(dc) ==> forall|k: int|
            0 <= k < tree.leaves().len() ==> candidate.dist_lt_s(
                (#[trigger] tree.leaves()[k]).1,
                p,
            ),
{
    crate::aabb::lemma_dist_value_agrees(tree.bbox_s(), candidate, dt, dc, p);
    if !dt.le_s(dc) {
        tree.lemma_leaves_in_bbox();
        assert forall|k: int| 0 <= k < tree.leaves().len() implies candidate.dist_lt_s(
            (#[trigger] tree.leaves()[k]).1,
            p,
        ) by {
            crate::aabb::lemma_dist_mono(tree.leaves()[k].1, tree.bbox_s(), p);
            crate::aabb::lemma_dist_lt_le_trans(
                candidate,
                tree.bbox_s(),
                tree.leaves()[k].1,
                p,
            );
        }
    }
}

/// Pushing onto the left group inserts into the combined multiset.
proof fn lemma_multiset_insert_add_left<A>(a: Seq<A>, b: Seq<A>, x: A)
    requires
        a.len() >= 1,
        a.last() == x,
    ensures
        a.to_multiset().add(b.to_multiset()) == a.drop_last().to_multiset().add(
            b.to_multiset(),
        ).insert(x),
{
    broadcast use vstd::seq_lib::group_to_multiset_ensures;

    assert(a =~= a.drop_last().push(x));
    assert(a.to_multiset() =~= a.drop_last().to_multiset().insert(x));
    assert(a.to_multiset().add(b.to_multiset()) =~= a.drop_last().to_multiset().add(
        b.to_multiset(),
    ).insert(x));
}

} // verus!
