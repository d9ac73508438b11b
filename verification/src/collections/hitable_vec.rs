use crate::bounding_box::BoundingBox;
use crate::hitable::{box_of, closer, first_n, hull_over, is_hit, probe, scan};
use crate::num::Num;
use vstd::prelude::*;

verus! {

/// The hull of all the boxes; none where the list is empty or an object
/// reported no bounds.
pub open spec fn hull_of_all(boxes: Seq<Option<BoundingBox>>) -> Option<BoundingBox> {
    if boxes.len() > 0 && forall|i: int| 0 <= i < boxes.len() ==> (#[trigger] boxes[i]) is Some {
        Some(hull_over(boxes, first_n(boxes.len())))
    } else {
        None
    }
}

/// The objects of a world in the order in which they were added, each as the
/// bounds that it reported.
pub struct HitableVec {
    pub inner: Vec<Option<BoundingBox>>,
}

impl Default for HitableVec {
    fn default() -> (world: HitableVec)
        ensures
            world.inner@ == Seq::<Option<BoundingBox>>::empty(),
    {
        HitableVec { inner: Vec::new() }
    }
}

impl HitableVec {
    pub fn add(&mut self, element: Option<BoundingBox>)
        ensures
            final(self).inner@ == old(self).inner@.push(element),
    {
        self.inner.push(element)
    }

    pub fn into_vec(self) -> (l: Vec<Option<BoundingBox>>)
        ensures
            l@ == self.inner@,
    {
        self.inner
    }

    /// The object that the ray hit first, where `hits[i]` is the parameter at
    /// which it hit object `i`, if it did. The objects are gone through in
    /// their own order, and a later one replaces an earlier one only where it
    /// was hit nearer.
    pub fn hit(&self, hits: &Vec<Option<Num>>) -> (found: Option<usize>)
        ensures
            found == scan(hits@, first_n(self.inner@.len())),
            is_hit(hits@, found),
    {
        let mut found: Option<usize> = None;
        let mut i: usize = 0;
        while i < self.inner.len()
            invariant
                i <= self.inner.len(),
                found == scan(hits@, first_n(i as nat)),
                is_hit(hits@, found),
            decreases self.inner.len() - i,
        {
            proof {
                assert(first_n((i + 1) as nat).drop_last() =~= first_n(i as nat));
            }
            found = closer(hits, found, probe(hits, i));
            i += 1;
        }
        found
    }

    pub fn bounding_box(&self) -> (bx: Option<BoundingBox>)
        ensures
            bx == hull_of_all(self.inner@),
    {
        if self.inner.len() == 0 {
            return None;
        }
        let mut bounding_box = match self.inner[0] {
            Some(b) => b,
            None => {
                return None;
            },
        };
        let mut i: usize = 1;
        while i < self.inner.len()
            invariant
                1 <= i <= self.inner.len(),
                forall|k: int| 0 <= k < i ==> (#[trigger] self.inner@[k]) is Some,
                bounding_box == hull_over(self.inner@, first_n(i as nat)),
            decreases self.inner.len() - i,
        {
            proof {
                assert(first_n((i + 1) as nat).drop_last() =~= first_n(i as nat));
            }
            match self.inner[i] {
                Some(b) => {
                    bounding_box = bounding_box.surrounding_box(&b);
                },
                None => {
                    return None;
                },
            }
            i += 1;
        }
        Some(bounding_box)
    }
}

} // verus!
