use crate::bounding_box::BoundingBox;
use crate::hitable::{
    box_of, closer, first_n, hull_over, is_hit, is_least, lemma_hull_any_order,
    lemma_hull_concat, lemma_scan_any_order, lemma_scan_concat, probe, scan,
};
use crate::num::Num;
use rand::rngs::ThreadRng;
use vstd::arithmetic::power2::pow2;
use vstd::prelude::*;

verus! {

#[verifier::external_type_specification]
#[verifier::external_body]
pub struct ExThreadRng(ThreadRng);

/// `rand::Rng::gen_range` over the integers from zero up to, and without,
/// `bound`. The generator returns a member of the range that it is given, and
/// panics on an empty one, which `requires` leaves out. Which member comes is
/// not stated. The generator of a thread also panics where the system
/// refuses it fresh entropy: no argument brings that about, and no `requires`
/// can leave it out.
#[verifier::external_body]
fn gen_below(rng: &mut ThreadRng, bound: usize) -> (r: usize)
    requires
        bound > 0,
    ensures
        r < bound,
{
    rand::Rng::gen_range(rng, 0..bound)
}

/// One of the three axes, drawn from `rng`: 0 is x, 1 is y, 2 is z.
pub fn pick_axis(rng: &mut ThreadRng) -> (axis: usize)
    ensures
        axis < 3,
{
    gen_below(rng, 3)
}

/// The order of pairs: by the first component, then by the second.
pub open spec fn pair_le(p: (Num, usize), q: (Num, usize)) -> bool {
    p.0 < q.0 || (p.0 == q.0 && p.1 <= q.1)
}

pub open spec fn ascending(s: Seq<(Num, usize)>) -> bool {
    forall|i: int, j: int| 0 <= i < j < s.len() ==> pair_le(#[trigger] s[i], #[trigger] s[j])
}

fn pair_before(p: (Num, usize), q: (Num, usize)) -> (yes: bool)
    ensures
        yes == pair_le(p, q),
{
    p.0 < q.0 || (p.0 == q.0 && p.1 <= q.1)
}

/// Two ascending lists as one.
fn merge_pairs(a: &Vec<(Num, usize)>, b: &Vec<(Num, usize)>) -> (out: Vec<(Num, usize)>)
    requires
        ascending(a@),
        ascending(b@),
    ensures
        out@.to_multiset() == a@.to_multiset().add(b@.to_multiset()),
        ascending(out@),
{
    let mut out: Vec<(Num, usize)> = Vec::new();
    let mut i: usize = 0;
    let mut j: usize = 0;
    proof {
        broadcast use vstd::seq_lib::group_to_multiset_ensures;

        assert(a@.take(0) =~= Seq::empty());
        assert(b@.take(0) =~= Seq::empty());
        assert(out@.to_multiset() =~= a@.take(0).to_multiset().add(b@.take(0).to_multiset()));
    }
    while i < a.len() || j < b.len()
        invariant
            i <= a.len(),
            j <= b.len(),
            ascending(a@),
            ascending(b@),
            ascending(out@),
            out@.len() == i + j,
            out@.to_multiset() == a@.take(i as int).to_multiset().add(
                b@.take(j as int).to_multiset(),
            ),
            forall|k: int, m: int|
                0 <= k < out@.len() && i <= m < a@.len() ==> pair_le(
                    #[trigger] out@[k],
                    #[trigger] a@[m],
                ),
            forall|k: int, m: int|
                0 <= k < out@.len() && j <= m < b@.len() ==> pair_le(
                    #[trigger] out@[k],
                    #[trigger] b@[m],
                ),
        decreases a.len() - i + (b.len() - j),
    {
        if j >= b.len() || (i < a.len() && pair_before(a[i], b[j])) {
            out.push(a[i]);
            proof {
                broadcast use vstd::seq_lib::group_to_multiset_ensures;

                assert(a@.take(i + 1) =~= a@.take(i as int).push(a@[i as int]));
                assert(out@.to_multiset() =~= a@.take(i + 1).to_multiset().add(
                    b@.take(j as int).to_multiset(),
                ));
            }
            i += 1;
        } else {
            out.push(b[j]);
            proof {
                broadcast use vstd::seq_lib::group_to_multiset_ensures;

                assert(b@.take(j + 1) =~= b@.take(j as int).push(b@[j as int]));
                assert(out@.to_multiset() =~= a@.take(i as int).to_multiset().add(
                    b@.take(j + 1).to_multiset(),
                ));
            }
            j += 1;
        }
    }
    proof {
        assert(a@.take(i as int) =~= a@);
        assert(b@.take(j as int) =~= b@);
    }
    out
}

/// The pairs of `v` in ascending order, each as often as `v` holds it.
fn sort_pairs(v: Vec<(Num, usize)>) -> (out: Vec<(Num, usize)>)
    ensures
        out@.to_multiset() == v@.to_multiset(),
        ascending(out@),
    decreases v.len(),
{
    let n = v.len();
    if n <= 1 {
        return v;
    }
    let mut lower = v;
    let upper = lower.split_off(n / 2);
    proof {
        assert(v@ =~= lower@ + upper@);
        vstd::seq_lib::lemma_multiset_commutative(lower@, upper@);
    }
    let lower = sort_pairs(lower);
    let upper = sort_pairs(upper);
    merge_pairs(&lower, &upper)
}

/// The lower corner's coordinate on an axis: 0 is x, 1 is y, any other z.
pub open spec fn axis_key(bx: BoundingBox, axis: usize) -> Num {
    if axis == 0 {
        bx.a.x
    } else if axis == 1 {
        bx.a.y
    } else {
        bx.a.z
    }
}

/// What objects are sorted by along an axis: the coordinate of the lower
/// corner, then the object's own number.
pub open spec fn rank(boxes: Seq<Option<BoundingBox>>, axis: usize, i: usize) -> (Num, usize) {
    (axis_key(box_of(boxes, i), axis), i)
}

pub open spec fn ranked(boxes: Seq<Option<BoundingBox>>, axis: usize, items: Seq<usize>) -> bool {
    forall|i: int, j: int|
        0 <= i < j < items.len() ==> pair_le(
            rank(boxes, axis, #[trigger] items[i]),
            rank(boxes, axis, #[trigger] items[j]),
        )
}

fn bounds_of(boxes: &Vec<Option<BoundingBox>>, i: usize) -> (bx: BoundingBox)
    ensures
        bx == box_of(boxes@, i),
{
    if i < boxes.len() {
        match boxes[i] {
            Some(b) => b,
            None => BoundingBox::default(),
        }
    } else {
        BoundingBox::default()
    }
}

fn key_along(bx: &BoundingBox, axis: usize) -> (k: Num)
    ensures
        k == axis_key(*bx, axis),
{
    let corner = bx.min();
    match axis {
        0 => corner.x(),
        1 => corner.y(),
        _ => corner.z(),
    }
}

/// Sequences that hold the same things as often keep doing so when one
/// function is applied to every entry.
proof fn lemma_map_keeps_multiset<A, B>(s: Seq<A>, t: Seq<A>, f: spec_fn(A) -> B)
    requires
        s.to_multiset() == t.to_multiset(),
    ensures
        s.map_values(f).to_multiset() == t.map_values(f).to_multiset(),
    decreases s.len(),
{
    broadcast use vstd::seq_lib::group_to_multiset_ensures;

    assert(s.len() == t.len()) by {
        assert(s.to_multiset().len() == s.len());
        assert(t.to_multiset().len() == t.len());
    }
    if s.len() == 0 {
        assert(s.map_values(f) =~= t.map_values(f));
    } else {
        let x = s.last();
        let s0 = s.drop_last();
        assert(s =~= s0.push(x));
        assert(s.to_multiset().count(x) > 0);
        assert(t.contains(x));
        let i = choose|i: int| 0 <= i < t.len() && t[i] == x;
        let t0 = t.remove(i);
        assert(t =~= t0.insert(i, x));
        assert(s0.to_multiset() =~= s.to_multiset().remove(x));
        assert(t0.to_multiset() =~= t.to_multiset().remove(x));
        lemma_map_keeps_multiset(s0, t0, f);
        assert(s.map_values(f) =~= s0.map_values(f).push(f(x)));
        assert(t.map_values(f) =~= t0.map_values(f).insert(i, f(x)));
    }
}

/// The objects of `items` in ascending order along `axis`: by the lower
/// corner of their bounds, objects with the same coordinate by their number.
pub fn order_along(items: &Vec<usize>, boxes: &Vec<Option<BoundingBox>>, axis: usize) -> (out: Vec<
    usize,
>)
    ensures
        out@.to_multiset() == items@.to_multiset(),
        ranked(boxes@, axis, out@),
{
    let mut pairs: Vec<(Num, usize)> = Vec::new();
    let mut k: usize = 0;
    while k < items.len()
        invariant
            k <= items.len(),
            pairs@ == items@.take(k as int).map_values(|i: usize| rank(boxes@, axis, i)),
        decreases items.len() - k,
    {
        let bx = bounds_of(boxes, items[k]);
        pairs.push((key_along(&bx, axis), items[k]));
        k += 1;
        proof {
            assert(items@.take(k as int) =~= items@.take(k - 1).push(items@[k - 1]));
            assert(pairs@ =~= items@.take(k as int).map_values(|i: usize| rank(boxes@, axis, i)));
        }
    }
    proof {
        assert(items@.take(k as int) =~= items@);
    }
    let ghost unsorted = pairs@;
    let pairs = sort_pairs(pairs);
    let mut out: Vec<usize> = Vec::new();
    let mut j: usize = 0;
    while j < pairs.len()
        invariant
            j <= pairs.len(),
            out@ == pairs@.take(j as int).map_values(|p: (Num, usize)| p.1),
        decreases pairs.len() - j,
    {
        out.push(pairs[j].1);
        j += 1;
        proof {
            assert(pairs@.take(j as int) =~= pairs@.take(j - 1).push(pairs@[j - 1]));
            assert(out@ =~= pairs@.take(j as int).map_values(|p: (Num, usize)| p.1));
        }
    }
    proof {
        broadcast use vstd::seq_lib::group_to_multiset_ensures;

        assert(pairs@.take(j as int) =~= pairs@);
        let second = |p: (Num, usize)| p.1;
        lemma_map_keeps_multiset(pairs@, unsorted, second);
        assert(unsorted.map_values(second) =~= items@);
        // every sorted pair is the rank of its own second component
        assert forall|a: int| 0 <= a < pairs@.len() implies pairs@[a] == rank(
            boxes@,
            axis,
            out@[a],
        ) by {
            assert(pairs@.to_multiset().count(pairs@[a]) > 0);
            assert(unsorted.contains(pairs@[a]));
        }
        assert forall|a: int, b: int| 0 <= a < b < out@.len() implies pair_le(
            rank(boxes@, axis, #[trigger] out@[a]),
            rank(boxes@, axis, #[trigger] out@[b]),
        ) by {
            assert(pair_le(pairs@[a], pairs@[b]));
        }
    }
    out
}

/// Whether every object of `left` comes no later along `axis` than every
/// object of `right`.
pub open spec fn all_before(
    boxes: Seq<Option<BoundingBox>>,
    axis: usize,
    left: Seq<usize>,
    right: Seq<usize>,
) -> bool {
    forall|a: int, b: int|
        0 <= a < left.len() && 0 <= b < right.len() ==> pair_le(
            rank(boxes, axis, #[trigger] left[a]),
            rank(boxes, axis, #[trigger] right[b]),
        )
}

/// Whether the leaves `items` of a tree are split along one of the three axes
/// at every node. The shape of a tree follows from the number of its leaves:
/// three or more are split into the lower half, rounded down, on the left and
/// the rest on the right, and the left holds what comes first along the axis
/// of the node. Of two objects in one leaf the left one comes last.
pub open spec fn split_along(boxes: Seq<Option<BoundingBox>>, items: Seq<usize>) -> bool
    decreases items.len(),
{
    if items.len() <= 1 {
        true
    } else if items.len() == 2 {
        exists|axis: usize|
            axis < 3 && #[trigger] all_before(boxes, axis, items.skip(1), items.take(1))
    } else {
        let mid = (items.len() / 2) as int;
        &&& exists|axis: usize|
            axis < 3 && #[trigger] all_before(boxes, axis, items.take(mid), items.skip(mid))
        &&& split_along(boxes, items.take(mid))
        &&& split_along(boxes, items.skip(mid))
    }
}

/// The depth of a tree over `n` objects: one or two make a leaf, and more
/// are as deep as their greater half and one level more.
pub open spec fn levels(n: nat) -> nat
    decreases n,
{
    if n <= 2 {
        1
    } else {
        1 + levels((n - n / 2) as nat)
    }
}

proof fn lemma_levels_grow(a: nat, b: nat)
    requires
        a <= b,
    ensures
        levels(a) <= levels(b),
    decreases b,
{
    if a > 2 {
        lemma_levels_grow((a - a / 2) as nat, (b - b / 2) as nat);
    }
}

/// The depth of a tree is no more than the logarithm of the number of its
/// objects allows: a tree of `d` levels holds two to the power of `d - 1`
/// objects at least.
pub proof fn lemma_levels_are_logarithmic(n: nat)
    requires
        n >= 1,
    ensures
        levels(n) >= 1,
        pow2((levels(n) - 1) as nat) <= n,
        levels(n) >= 2 ==> pow2((levels(n) - 1) as nat) < n,
    decreases n,
{
    vstd::arithmetic::power2::lemma2_to64();
    if n > 2 {
        let k = (n - n / 2) as nat;
        lemma_levels_are_logarithmic(k);
        vstd::arithmetic::power2::lemma_pow2_unfold(levels(k));
    }
}

enum Node {
    One(usize),
    Two(usize, usize),
    Split(Box<BVHTree>, Box<BVHTree>),
}

/// A binary tree over the objects of a world. A leaf holds one object or two,
/// an inner node two trees; every node keeps the box around all it holds.
pub struct BVHTree {
    node: Node,
    bounding_box: BoundingBox,
}

impl BVHTree {
    /// The objects in the leaves, from left to right.
    pub closed spec fn items(self) -> Seq<usize>
        decreases self,
    {
        match self.node {
            Node::One(i) => seq![i],
            Node::Two(i, j) => seq![i, j],
            Node::Split(l, r) => l.items() + r.items(),
        }
    }

    /// The number of nodes on the longest way from the root to a leaf.
    pub closed spec fn depth(self) -> nat
        decreases self,
    {
        match self.node {
            Node::One(_) => 1,
            Node::Two(_, _) => 1,
            Node::Split(l, r) => 1 + vstd::math::max(l.depth() as int, r.depth() as int) as nat,
        }
    }

    /// The box kept at the root.
    pub closed spec fn bounds(self) -> BoundingBox {
        self.bounding_box
    }

    /// Each of the objects of a world of `n` is in one leaf, once, and
    /// nothing else is.
    pub open spec fn holds_each_once(self, n: nat) -> bool {
        self.items().to_multiset() == first_n(n).to_multiset()
    }

    // What holds at every node of a tree that `new` has made: the node keeps
    // the hull of its children, an inner node has three objects or more and
    // the lower half of them on the left, and the children are apart along
    // one of the axes.
    spec fn sound(self, boxes: Seq<Option<BoundingBox>>) -> bool
        decreases self,
    {
        match self.node {
            Node::One(i) => self.bounding_box == box_of(boxes, i),
            Node::Two(i, j) => {
                &&& self.bounding_box == box_of(boxes, i).hull(box_of(boxes, j))
                &&& exists|axis: usize|
                    axis < 3 && #[trigger] all_before(boxes, axis, seq![j], seq![i])
            },
            Node::Split(l, r) => {
                &&& l.sound(boxes)
                &&& r.sound(boxes)
                &&& self.bounding_box == l.bounding_box.hull(r.bounding_box)
                &&& l.items().len() + r.items().len() >= 3
                &&& l.items().len() == (l.items().len() + r.items().len()) / 2
                &&& exists|axis: usize|
                    axis < 3 && #[trigger] all_before(boxes, axis, l.items(), r.items())
            },
        }
    }

    proof fn lemma_sound(self, boxes: Seq<Option<BoundingBox>>)
        requires
            self.sound(boxes),
        ensures
            self.items().len() >= 1,
            split_along(boxes, self.items()),
            self.bounds() == hull_over(boxes, self.items()),
            self.depth() == levels(self.items().len()),
        decreases self,
    {
        let items = self.items();
        match self.node {
            Node::One(i) => {
                assert(items[0] == i);
            },
            Node::Two(i, j) => {
                assert(items.drop_last() =~= seq![i]);
                assert(items.skip(1) =~= seq![j]);
                assert(items.take(1) =~= seq![i]);
                reveal_with_fuel(hull_over, 2);
            },
            Node::Split(l, r) => {
                l.lemma_sound(boxes);
                r.lemma_sound(boxes);
                let mid = (items.len() / 2) as int;
                assert(items.take(mid) =~= l.items());
                assert(items.skip(mid) =~= r.items());
                lemma_hull_concat(boxes, l.items(), r.items());
                lemma_levels_grow(l.items().len(), r.items().len());
            },
        }
    }

    /// A tree and the flat list find the same object in the same world,
    /// however the tree was split, unless two objects were hit equally near
    /// and nearest.
    pub proof fn lemma_agrees_with_list(self, hits: Seq<Option<Num>>, n: nat)
        requires
            self.holds_each_once(n),
            forall|i: usize, j: usize|
                #![trigger is_least(hits, first_n(n), i), is_least(hits, first_n(n), j)]
                is_least(hits, first_n(n), i) && is_least(hits, first_n(n), j) ==> i == j,
        ensures
            scan(hits, self.items()) == scan(hits, first_n(n)),
    {
        lemma_scan_any_order(hits, first_n(n), self.items());
    }

    /// The box at the root of a tree over a world is the hull over the flat
    /// list of its objects.
    pub proof fn lemma_bounds_agree(self, boxes: Seq<Option<BoundingBox>>, n: nat)
        requires
            n >= 1,
            self.holds_each_once(n),
        ensures
            hull_over(boxes, self.items()) == hull_over(boxes, first_n(n)),
    {
        lemma_hull_any_order(boxes, first_n(n), self.items());
    }

    fn build(items: Vec<usize>, boxes: &Vec<Option<BoundingBox>>, rng: &mut ThreadRng) -> (tree:
        BVHTree)
        requires
            items.len() > 0,
        ensures
            tree.items().to_multiset() == items@.to_multiset(),
            tree.sound(boxes@),
        decreases items.len(),
    {
        let n = items.len();
        let axis = pick_axis(rng);
        let mut sorted = order_along(&items, boxes, axis);
        proof {
            broadcast use vstd::seq_lib::group_to_multiset_ensures;

            assert(sorted@.to_multiset().len() == sorted@.len());
            assert(items@.to_multiset().len() == items@.len());
        }
        if n == 1 {
            let left = sorted[0];
            let bounding_box = bounds_of(boxes, left);
            proof {
                assert(seq![left] =~= sorted@);
            }
            BVHTree { node: Node::One(left), bounding_box }
        } else if n == 2 {
            let left = sorted[1];
            let right = sorted[0];
            let box_left = bounds_of(boxes, left);
            let box_right = bounds_of(boxes, right);
            let bounding_box = box_left.surrounding_box(&box_right);
            let tree = BVHTree { node: Node::Two(left, right), bounding_box };
            proof {
                assert(seq![right, left] =~= sorted@);
                assert(seq![left, right] =~= sorted@.reverse());
                sorted@.lemma_reverse_to_multiset();
                assert(all_before(boxes@, axis, seq![right], seq![left]));
            }
            tree
        } else {
            let ghost whole = sorted@;
            let upper = sorted.split_off(n / 2);
            let ghost lower = sorted@;
            let left = Self::build(sorted, boxes, rng);
            let right = Self::build(upper, boxes, rng);
            let bounding_box = left.bounding_box.surrounding_box(&right.bounding_box);
            let tree = BVHTree { node: Node::Split(Box::new(left), Box::new(right)), bounding_box };
            proof {
                broadcast use vstd::seq_lib::group_to_multiset_ensures;

                assert(whole =~= lower + upper@);
                vstd::seq_lib::lemma_multiset_commutative(lower, upper@);
                vstd::seq_lib::lemma_multiset_commutative(left.items(), right.items());
                assert(left.items().to_multiset().len() == left.items().len());
                assert(right.items().to_multiset().len() == right.items().len());
                assert(lower.to_multiset().len() == lower.len());
                assert(upper@.to_multiset().len() == upper@.len());
                assert forall|a: int, b: int|
                    0 <= a < left.items().len() && 0 <= b < right.items().len() implies pair_le(
                    rank(boxes@, axis, #[trigger] left.items()[a]),
                    rank(boxes@, axis, #[trigger] right.items()[b]),
                ) by {
                    let x = left.items()[a];
                    let y = right.items()[b];
                    assert(left.items().to_multiset().count(x) > 0);
                    assert(lower.contains(x));
                    assert(right.items().to_multiset().count(y) > 0);
                    assert(upper@.contains(y));
                    let i = choose|i: int| 0 <= i < lower.len() && lower[i] == x;
                    let j = choose|j: int| 0 <= j < upper@.len() && upper@[j] == y;
                    assert(whole[i] == x);
                    assert(whole[j + lower.len()] == y);
                }
                assert(all_before(boxes@, axis, left.items(), right.items()));
            }
            tree
        }
    }

    /// A tree over the objects of a world, of which `l[i]` is what object `i`
    /// reported as its bounds. Every node draws one of the three axes from
    /// `rng`, orders its objects along it, and is a leaf where it has one or
    /// two of them; else the lower half goes to its left tree and the rest to
    /// its right.
    pub fn new(l: Vec<Option<BoundingBox>>, rng: &mut ThreadRng) -> (tree: BVHTree)
        requires
            l.len() > 0,
        ensures
            tree.holds_each_once(l@.len()),
            split_along(l@, tree.items()),
            tree.bounds() == hull_over(l@, tree.items()),
            tree.depth() == levels(l@.len()),
    {
        let mut items: Vec<usize> = Vec::new();
        let mut i: usize = 0;
        while i < l.len()
            invariant
                i <= l.len(),
                items@ == first_n(i as nat),
            decreases l.len() - i,
        {
            items.push(i);
            i += 1;
            proof {
                assert(items@ =~= first_n(i as nat));
            }
        }
        let tree = Self::build(items, &l, rng);
        proof {
            broadcast use vstd::seq_lib::group_to_multiset_ensures;

            tree.lemma_sound(l@);
            assert(tree.items().to_multiset().len() == tree.items().len());
            assert(first_n(l@.len()).to_multiset().len() == l@.len());
        }
        tree
    }

    fn collect(&self, out: &mut Vec<usize>)
        ensures
            final(out)@ == old(out)@ + self.items(),
        decreases self,
    {
        match &self.node {
            Node::One(i) => {
                out.push(*i);
                proof {
                    assert(out@ =~= old(out)@ + self.items());
                }
            },
            Node::Two(i, j) => {
                out.push(*i);
                out.push(*j);
                proof {
                    assert(out@ =~= old(out)@ + self.items());
                }
            },
            Node::Split(l, r) => {
                l.collect(out);
                r.collect(out);
                proof {
                    assert(out@ =~= old(out)@ + self.items());
                }
            },
        }
    }

    /// The objects in the leaves, from left to right.
    pub fn leaves(&self) -> (out: Vec<usize>)
        ensures
            out@ == self.items(),
    {
        let mut out: Vec<usize> = Vec::new();
        self.collect(&mut out);
        proof {
            assert(out@ =~= self.items());
        }
        out
    }

    pub fn bounding_box(&self) -> (bx: Option<BoundingBox>)
        ensures
            bx == Some(self.bounds()),
    {
        Some(self.bounding_box)
    }

    /// The object that the ray hit first, where `hits[i]` is the parameter at
    /// which it hit object `i`, if it did. Both children are asked; of two
    /// hits the nearer one stays, the left one where they are equally near.
    /// So the tree finds what a scan of its leaves from left to right finds.
    pub fn hit(&self, hits: &Vec<Option<Num>>) -> (found: Option<usize>)
        ensures
            found == scan(hits@, self.items()),
            is_hit(hits@, found),
        decreases self,
    {
        match &self.node {
            Node::One(i) => {
                proof {
                    assert(self.items().drop_last() =~= Seq::<usize>::empty());
                    reveal_with_fuel(scan, 2);
                }
                probe(hits, *i)
            },
            Node::Two(i, j) => {
                proof {
                    assert(self.items().drop_last() =~= seq![*i]);
                    assert(seq![*i].drop_last() =~= Seq::<usize>::empty());
                    reveal_with_fuel(scan, 3);
                }
                closer(hits, probe(hits, *i), probe(hits, *j))
            },
            Node::Split(l, r) => {
                proof {
                    lemma_scan_concat(hits@, l.items(), r.items());
                }
                closer(hits, l.hit(hits), r.hit(hits))
            },
        }
    }
}

} // verus!
