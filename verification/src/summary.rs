//! The geometry summarizer: the bounding box of a feature's payload.
//!
//! A payload declares its point count and then its points; the summarizer
//! folds their degenerate boxes into one covering box. A feature with no
//! points gets the documented degenerate box at the grid origin — it is
//! kept, never dropped, so the output feature count always equals the
//! input's.

use crate::codec::{le_val, read_i32, read_u32, ungrid_i32};
use crate::geom::{union_all, BBox};
use crate::model::{payload_n_points, wf_payload, Feature};
use vstd::prelude::*;

verus! {

/// Point `i` of a payload, as stored on the grid.
pub open spec fn payload_point_x(p: Seq<u8>, i: int) -> i32 {
    ungrid_i32(le_val(p, 4 + 8 * i, 4))
}

pub open spec fn payload_point_y(p: Seq<u8>, i: int) -> i32 {
    ungrid_i32(le_val(p, 4 + 8 * i + 4, 4))
}

/// The degenerate boxes of a payload's points, in order.
pub open spec fn payload_boxes(p: Seq<u8>) -> Seq<BBox> {
    Seq::new(payload_n_points(p), |i: int| BBox::spec_point(payload_point_x(p, i), payload_point_y(p, i)))
}

/// The documented degenerate-geometry policy: a payload with no points
/// summarizes to the single-point box at the grid origin.
pub open spec fn spec_summarize(p: Seq<u8>) -> BBox {
    if payload_n_points(p) == 0 {
        BBox { min_x: 0, min_y: 0, max_x: 0, max_y: 0 }
    } else {
        union_all(payload_boxes(p))
    }
}

/// The summary box is always well formed.
pub proof fn lemma_summarize_wf(p: Seq<u8>)
    ensures
        spec_summarize(p).wf(),
{
    if payload_n_points(p) != 0 {
        let bs = payload_boxes(p);
        assert(forall|i: int| 0 <= i < bs.len() ==> (#[trigger] bs[i]).wf());
        crate::geom::lemma_union_all_covers(bs);
    }
}

/// Computes the bounding box of a structurally valid feature.
#[verifier::loop_isolation(false)]
pub fn summarize(f: &Feature) -> (r: BBox)
    requires
        wf_payload(f@),
    ensures
        r == spec_summarize(f@),
        r.wf(),
{
    let p = &f.payload;
    let npts = read_u32(p, 0);
    proof {
        assert(payload_n_points(f@) == npts as nat);
        lemma_summarize_wf(f@);
    }
    if npts == 0 {
        return BBox { min_x: 0, min_y: 0, max_x: 0, max_y: 0 };
    }
    let ghost bs = payload_boxes(f@);
    let x0 = read_i32(p, 4);
    let y0 = read_i32(p, 8);
    let mut acc = BBox::point(x0, y0);
    proof {
        assert(bs[0] == acc);
        assert(union_all(bs.take(1)) == acc);
    }
    let mut i: u32 = 1;
    while i < npts
        invariant
            1 <= i <= npts,
            acc == union_all(bs.take(i as int)),
        decreases npts - i,
    {
        let off: usize = 4 + 8 * (i as usize);
        let x = read_i32(p, off);
        let y = read_i32(p, off + 4);
        proof {
            assert(bs[i as int] == BBox::spec_point(payload_point_x(f@, i as int), payload_point_y(f@, i as int)));
        }
        let b = BBox::point(x, y);
        acc = acc.union(&b);
        proof {
            assert(bs.take(i + 1).drop_last() =~= bs.take(i as int));
            assert(bs.take(i + 1).last() == bs[i as int]);
        }
        i = i + 1;
    }
    proof {
        assert(bs.take(npts as int) =~= bs);
    }
    acc
}

} // verus!
