//! Axis-aligned bounding boxes over fixed-point planar coordinates.
//!
//! Coordinates are `i32` fixed-point values: the format stores plane
//! positions on an integer grid, so box arithmetic is exact and the index
//! build is fully deterministic.

use vstd::prelude::*;

verus! {

/// An axis-aligned bounding box. Well formed when each minimum is at most
/// its maximum.
#[derive(Clone, Copy, PartialEq, Eq, Structural, Debug)]
pub struct BBox {
    pub min_x: i32,
    pub min_y: i32,
    pub max_x: i32,
    pub max_y: i32,
}

impl BBox {
    pub open spec fn wf(self) -> bool {
        self.min_x <= self.max_x && self.min_y <= self.max_y
    }

    /// The degenerate box of a single point.
    pub open spec fn spec_point(x: i32, y: i32) -> BBox {
        BBox { min_x: x, min_y: y, max_x: x, max_y: y }
    }

    pub fn point(x: i32, y: i32) -> (r: BBox)
        ensures
            r == BBox::spec_point(x, y),
            r.wf(),
    {
        BBox { min_x: x, min_y: y, max_x: x, max_y: y }
    }

    /// The smallest box covering both operands.
    pub open spec fn spec_union(self, o: BBox) -> BBox {
        BBox {
            min_x: if o.min_x < self.min_x { o.min_x } else { self.min_x },
            min_y: if o.min_y < self.min_y { o.min_y } else { self.min_y },
            max_x: if o.max_x > self.max_x { o.max_x } else { self.max_x },
            max_y: if o.max_y > self.max_y { o.max_y } else { self.max_y },
        }
    }

    pub fn union(&self, o: &BBox) -> (r: BBox)
        ensures
            r == self.spec_union(*o),
    {
        BBox {
            min_x: if o.min_x < self.min_x { o.min_x } else { self.min_x },
            min_y: if o.min_y < self.min_y { o.min_y } else { self.min_y },
            max_x: if o.max_x > self.max_x { o.max_x } else { self.max_x },
            max_y: if o.max_y > self.max_y { o.max_y } else { self.max_y },
        }
    }

    /// One box covers another when it contains every point of it.
    pub open spec fn covers(self, o: BBox) -> bool {
        self.min_x <= o.min_x && self.min_y <= o.min_y && o.max_x <= self.max_x
            && o.max_y <= self.max_y
    }
}

/// The union of a sequence of boxes; meaningful only for nonempty input.
pub open spec fn union_all(bs: Seq<BBox>) -> BBox
    decreases bs.len(),
{
    if bs.len() <= 1 {
        bs[0]
    } else {
        union_all(bs.drop_last()).spec_union(bs.last())
    }
}

/// The union of well-formed boxes is well formed and covers each member.
pub proof fn lemma_union_all_covers(bs: Seq<BBox>)
    requires
        bs.len() > 0,
        forall|i: int| 0 <= i < bs.len() ==> (#[trigger] bs[i]).wf(),
    ensures
        union_all(bs).wf(),
        forall|i: int| 0 <= i < bs.len() ==> union_all(bs).covers(#[trigger] bs[i]),
    decreases bs.len(),
{
    if bs.len() > 1 {
        lemma_union_all_covers(bs.drop_last());
        assert(forall|i: int|
            0 <= i < bs.len() - 1 ==> bs.drop_last()[i] == #[trigger] bs[i]);
    }
}

} // verus!
