use crate::bounding_box::BoundingBox;
use crate::num::Num;
use vstd::prelude::*;

verus! {

// A world is a list of objects, known here by their place in it. What the
// library needs of an object are two things that the object computes itself:
// its bounds, and, for one ray and one window of the ray's parameter, the
// parameter at which the ray hit it. `boxes[i]` is what object `i` reported as
// its bounds, `hits[i]` the parameter at which it was hit inside the window,
// if it was. The worlds of this library go through their objects in some
// order; what they find is stated here for any order.

/// Whether `t` lies strictly inside the window from `t_min` to `t_max`.
pub open spec fn inside(t: Num, t_min: Num, t_max: Num) -> bool {
    t_min < t && t < t_max
}

/// The objects of a world of `n` in their own order.
pub open spec fn first_n(n: nat) -> Seq<usize> {
    Seq::new(n, |i: int| i as usize)
}

/// Object `i` where `hits` records that it was hit.
pub open spec fn hit_of(hits: Seq<Option<Num>>, i: usize) -> Option<usize> {
    if i < hits.len() && hits[i as int] is Some {
        Some(i)
    } else {
        None
    }
}

/// `found` is no object, or one that `hits` records as hit.
pub open spec fn is_hit(hits: Seq<Option<Num>>, found: Option<usize>) -> bool {
    found matches Some(i) ==> i < hits.len() && hits[i as int] is Some
}

/// Of two candidates the one that was hit nearer; the first where both were
/// hit equally near.
pub open spec fn nearer(hits: Seq<Option<Num>>, a: Option<usize>, b: Option<usize>) -> Option<
    usize,
> {
    match (a, b) {
        (Some(i), Some(j)) => if hits[j as int].unwrap() < hits[i as int].unwrap() {
            b
        } else {
            a
        },
        (Some(_), None) => a,
        _ => b,
    }
}

/// The object hit first among those of `order`: the objects are gone through
/// in that order, and a later one replaces an earlier one only where it was
/// hit nearer.
pub open spec fn scan(hits: Seq<Option<Num>>, order: Seq<usize>) -> Option<usize>
    decreases order.len(),
{
    if order.len() == 0 {
        None
    } else {
        nearer(hits, scan(hits, order.drop_last()), hit_of(hits, order.last()))
    }
}

/// Object `i` is one of `order`, was hit, and none of `order` was hit nearer.
pub open spec fn is_least(hits: Seq<Option<Num>>, order: Seq<usize>, i: usize) -> bool {
    &&& order.contains(i)
    &&& hit_of(hits, i) is Some
    &&& forall|k: int|
        0 <= k < order.len() && hit_of(hits, #[trigger] order[k]) is Some
            ==> hits[i as int].unwrap() <= hits[order[k] as int].unwrap()
}

/// The object at place `p` of `order` was hit, none of `order` was hit
/// nearer, and none before it as near.
pub open spec fn is_first_least(hits: Seq<Option<Num>>, order: Seq<usize>, p: int) -> bool {
    &&& 0 <= p < order.len()
    &&& is_least(hits, order, order[p])
    &&& forall|k: int|
        0 <= k < p && hit_of(hits, #[trigger] order[k]) is Some
            ==> hits[order[p] as int].unwrap() < hits[order[k] as int].unwrap()
}

/// What a scan finds is the first of the objects hit nearest; it finds
/// nothing only where none was hit.
pub proof fn lemma_scan(hits: Seq<Option<Num>>, order: Seq<usize>)
    ensures
        is_hit(hits, scan(hits, order)),
        scan(hits, order) matches Some(i) ==> exists|p: int| #[trigger]
            is_first_least(hits, order, p) && order[p] == i,
        scan(hits, order) is None ==> forall|k: int|
            0 <= k < order.len() ==> hit_of(hits, #[trigger] order[k]) is None,
    decreases order.len(),
{
    if order.len() > 0 {
        let front = order.drop_last();
        let last = order.len() - 1;
        lemma_scan(hits, front);
        assert forall|k: int| 0 <= k < front.len() implies front[k] == order[k] by {}
        let before = scan(hits, front);
        let place = choose|p: int| #[trigger]
            is_first_least(hits, front, p) && front[p] == before.unwrap();
        if before is Some {
            assert(order.contains(order[place]));
        }
        if scan(hits, order) is Some {
            // the place of what is found: that of what was found before, or the last
            let p = if scan(hits, order) == before {
                place
            } else {
                last
            };
            assert(order.contains(order[last]));
            let t = hits[order[p] as int].unwrap();
            assert forall|k: int|
                0 <= k < order.len() && hit_of(hits, #[trigger] order[k]) is Some implies t
                <= hits[order[k] as int].unwrap() by {
                if k < last {
                    assert(hit_of(hits, front[k]) is Some);
                }
            }
            assert forall|k: int|
                0 <= k < p && hit_of(hits, #[trigger] order[k]) is Some implies t
                < hits[order[k] as int].unwrap() by {
                assert(hit_of(hits, front[k]) is Some);
            }
            assert(is_first_least(hits, order, p));
        } else {
            assert forall|k: int| 0 <= k < order.len() implies hit_of(
                hits,
                #[trigger] order[k],
            ) is None by {
                if k < last {
                    assert(hit_of(hits, front[k]) is None);
                }
            }
        }
    }
}

/// A scan of one list after another finds the nearer of what the scans of
/// the two find.
pub proof fn lemma_scan_concat(hits: Seq<Option<Num>>, a: Seq<usize>, b: Seq<usize>)
    ensures
        scan(hits, a + b) == nearer(hits, scan(hits, a), scan(hits, b)),
    decreases b.len(),
{
    if b.len() == 0 {
        assert(a + b =~= a);
    } else {
        assert((a + b).drop_last() =~= a + b.drop_last());
        assert((a + b).last() == b.last());
        lemma_scan_concat(hits, a, b.drop_last());
    }
}

/// Scans of the same objects in two orders find the same object, unless two
/// objects were hit equally near and nearest.
pub proof fn lemma_scan_any_order(hits: Seq<Option<Num>>, a: Seq<usize>, b: Seq<usize>)
    requires
        a.to_multiset() == b.to_multiset(),
        forall|i: usize, j: usize|
            #![trigger is_least(hits, a, i), is_least(hits, a, j)]
            is_least(hits, a, i) && is_least(hits, a, j) ==> i == j,
    ensures
        scan(hits, a) == scan(hits, b),
{
    broadcast use vstd::seq_lib::group_to_multiset_ensures;

    lemma_scan(hits, a);
    lemma_scan(hits, b);
    assert forall|x: usize| a.contains(x) <==> b.contains(x) by {
        assert(a.contains(x) <==> a.to_multiset().count(x) > 0);
        assert(b.contains(x) <==> b.to_multiset().count(x) > 0);
    }
    match (scan(hits, a), scan(hits, b)) {
        (Some(i), Some(j)) => {
            let q = choose|q: int| #[trigger] is_first_least(hits, b, q) && b[q] == j;
            assert(is_least(hits, a, j)) by {
                assert(b.contains(j));
                assert forall|k: int|
                    0 <= k < a.len() && hit_of(
                        hits,
                        #[trigger] a[k],
                    ) is Some implies hits[j as int].unwrap() <= hits[a[k] as int].unwrap() by {
                    assert(a.contains(a[k]));
                    assert(b.contains(a[k]));
                    let m = choose|m: int| 0 <= m < b.len() && b[m] == a[k];
                    assert(hit_of(hits, b[m]) is Some);
                }
            }
            let p = choose|p: int| #[trigger] is_first_least(hits, a, p) && a[p] == i;
            assert(is_least(hits, a, i));
        },
        (Some(i), None) => {
            let p = choose|p: int| #[trigger] is_first_least(hits, a, p) && a[p] == i;
            assert(a.contains(i));
            assert(b.contains(i));
            let m = choose|m: int| 0 <= m < b.len() && b[m] == i;
            assert(hit_of(hits, b[m]) is None);
        },
        (None, Some(j)) => {
            let q = choose|q: int| #[trigger] is_first_least(hits, b, q) && b[q] == j;
            assert(b.contains(j));
            assert(a.contains(j));
            let m = choose|m: int| 0 <= m < a.len() && a[m] == j;
            assert(hit_of(hits, a[m]) is None);
        },
        (None, None) => {},
    }
}

/// The bounds that object `i` reported, or the empty box at the origin where
/// it reported none.
pub open spec fn box_of(boxes: Seq<Option<BoundingBox>>, i: usize) -> BoundingBox {
    if i < boxes.len() && boxes[i as int] is Some {
        boxes[i as int].unwrap()
    } else {
        BoundingBox::zero()
    }
}

/// The hull of the bounds of the objects of `order`, of which there is one at
/// least.
pub open spec fn hull_over(boxes: Seq<Option<BoundingBox>>, order: Seq<usize>) -> BoundingBox
    decreases order.len(),
{
    if order.len() <= 1 {
        box_of(boxes, order[0])
    } else {
        hull_over(boxes, order.drop_last()).hull(box_of(boxes, order.last()))
    }
}

/// The hull over a list of objects holds the bounds of each, and lies inside
/// every box that holds the bounds of each. It is a box with its lower corner
/// below its upper one where the bounds of each are.
pub proof fn lemma_hull_over(boxes: Seq<Option<BoundingBox>>, order: Seq<usize>, outer: BoundingBox)
    requires
        order.len() > 0,
    ensures
        forall|k: int|
            0 <= k < order.len() ==> hull_over(boxes, order).encloses(
                box_of(boxes, #[trigger] order[k]),
            ),
        (forall|k: int| 0 <= k < order.len() ==> outer.encloses(box_of(boxes, #[trigger] order[k])))
            ==> outer.encloses(hull_over(boxes, order)),
        (forall|k: int| 0 <= k < order.len() ==> box_of(boxes, #[trigger] order[k]).wf())
            ==> hull_over(boxes, order).wf(),
    decreases order.len(),
{
    if order.len() == 1 {
        assert(box_of(boxes, order[0]) == hull_over(boxes, order));
    }
    if order.len() > 1 {
        let front = order.drop_last();
        lemma_hull_over(boxes, front, outer);
        assert forall|k: int| 0 <= k < front.len() implies front[k] == order[k] by {}
        if forall|k: int| 0 <= k < order.len() ==> box_of(boxes, #[trigger] order[k]).wf() {
            assert forall|k: int| 0 <= k < front.len() implies box_of(
                boxes,
                #[trigger] front[k],
            ).wf() by {
                assert(box_of(boxes, order[k]).wf());
            }
            assert(box_of(boxes, order[order.len() - 1]).wf());
        }
        assert forall|k: int| 0 <= k < order.len() implies hull_over(boxes, order).encloses(
            box_of(boxes, #[trigger] order[k]),
        ) by {
            if k < front.len() {
                assert(hull_over(boxes, front).encloses(box_of(boxes, front[k])));
            }
        }
        if forall|k: int|
            0 <= k < order.len() ==> outer.encloses(box_of(boxes, #[trigger] order[k])) {
            assert forall|k: int| 0 <= k < front.len() implies outer.encloses(
                box_of(boxes, #[trigger] front[k]),
            ) by {
                assert(outer.encloses(box_of(boxes, order[k])));
            }
            assert(outer.encloses(box_of(boxes, order[order.len() - 1])));
        }
    }
}

/// The hull over one list after another is the hull of the hulls over the
/// two.
pub proof fn lemma_hull_concat(boxes: Seq<Option<BoundingBox>>, a: Seq<usize>, b: Seq<usize>)
    requires
        a.len() > 0,
        b.len() > 0,
    ensures
        hull_over(boxes, a + b) == hull_over(boxes, a).hull(hull_over(boxes, b)),
    decreases b.len(),
{
    assert((a + b).drop_last() =~= a + b.drop_last());
    assert((a + b).last() == b.last());
    if b.len() == 1 {
        assert(a + b.drop_last() =~= a);
    } else {
        lemma_hull_concat(boxes, a, b.drop_last());
    }
}

/// The hulls over the same objects in two orders are the same.
pub proof fn lemma_hull_any_order(boxes: Seq<Option<BoundingBox>>, a: Seq<usize>, b: Seq<usize>)
    requires
        a.len() > 0,
        a.to_multiset() == b.to_multiset(),
    ensures
        hull_over(boxes, a) == hull_over(boxes, b),
{
    broadcast use vstd::seq_lib::group_to_multiset_ensures;

    assert(b.len() > 0) by {
        assert(a.to_multiset().len() == a.len());
        assert(b.to_multiset().len() == b.len());
    }
    let ha = hull_over(boxes, a);
    let hb = hull_over(boxes, b);
    lemma_hull_over(boxes, a, hb);
    lemma_hull_over(boxes, b, ha);
    assert forall|k: int| 0 <= k < a.len() implies hb.encloses(box_of(boxes, #[trigger] a[k])) by {
        assert(a.contains(a[k]));
        assert(a.to_multiset().count(a[k]) > 0);
        assert(b.contains(a[k]));
        let m = choose|m: int| 0 <= m < b.len() && b[m] == a[k];
        assert(hb.encloses(box_of(boxes, b[m])));
    }
    assert forall|k: int| 0 <= k < b.len() implies ha.encloses(box_of(boxes, #[trigger] b[k])) by {
        assert(b.contains(b[k]));
        assert(b.to_multiset().count(b[k]) > 0);
        assert(a.contains(b[k]));
        let m = choose|m: int| 0 <= m < a.len() && a[m] == b[k];
        assert(ha.encloses(box_of(boxes, a[m])));
    }
}

pub(crate) fn in_window(t: Num, t_min: Num, t_max: Num) -> (yes: bool)
    ensures
        yes == inside(t, t_min, t_max),
{
    t_min < t && t < t_max
}

pub(crate) fn probe(hits: &Vec<Option<Num>>, i: usize) -> (found: Option<usize>)
    ensures
        found == hit_of(hits@, i),
{
    if i < hits.len() && hits[i].is_some() {
        Some(i)
    } else {
        None
    }
}

pub(crate) fn closer(hits: &Vec<Option<Num>>, a: Option<usize>, b: Option<usize>) -> (found: Option<
    usize,
>)
    requires
        is_hit(hits@, a),
        is_hit(hits@, b),
    ensures
        found == nearer(hits@, a, b),
        is_hit(hits@, found),
{
    match (a, b) {
        (Some(i), Some(j)) => {
            if hits[j].unwrap() < hits[i].unwrap() {
                b
            } else {
                a
            }
        },
        (Some(_), None) => a,
        _ => b,
    }
}

} // verus!
