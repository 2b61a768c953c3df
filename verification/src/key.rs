//! The feature sort key: a space-filling-curve value of a box's center.
//!
//! Each coordinate of the center is mapped onto an unsigned 32-bit grid and
//! the two grid values are bit-interleaved into one 64-bit key, so that
//! features near each other on the plane tend to sit near each other in key
//! order. Distinct centers always get distinct keys; ties between equal
//! centers are broken by the original feature ordinal at the sort.

use crate::geom::BBox;
use vstd::prelude::*;

verus! {

/// Powers of four, the size of the interleaving's value space.
pub open spec fn pow4(n: nat) -> nat
    decreases n,
{
    if n == 0 {
        1
    } else {
        4 * pow4((n - 1) as nat)
    }
}

/// Interleaving the low `n` binary digits of `x` and `y`: digit `i` of `x`
/// lands at even position `2 * i`, digit `i` of `y` at position `2 * i + 1`.
pub open spec fn interleave(x: nat, y: nat, n: nat) -> nat
    decreases n,
{
    if n == 0 {
        0
    } else {
        4 * interleave(x / 2, y / 2, (n - 1) as nat) + 2 * (y % 2) + x % 2
    }
}

pub proof fn lemma_interleave_bound(x: nat, y: nat, n: nat)
    ensures
        interleave(x, y, n) < pow4(n),
    decreases n,
{
    if n > 0 {
        lemma_interleave_bound(x / 2, y / 2, (n - 1) as nat);
    }
}

pub proof fn lemma_pow4_32()
    ensures
        pow4(32) == 0x1_0000_0000_0000_0000,
{
    reveal_with_fuel(pow4, 33);
}

/// The signed coordinate moved onto the unsigned grid, keeping the order.
pub open spec fn grid(v: i32) -> nat {
    (v as int + 0x8000_0000) as nat
}

pub fn grid_exec(v: i32) -> (r: u32)
    ensures
        r as nat == grid(v),
{
    ((v as i64) + 0x8000_0000i64) as u32
}

/// The grid coordinates of a box's center, rounded down.
pub open spec fn center_x(b: BBox) -> nat {
    (grid(b.min_x) + grid(b.max_x)) / 2
}

pub open spec fn center_y(b: BBox) -> nat {
    (grid(b.min_y) + grid(b.max_y)) / 2
}

/// The key under which a feature with bounding box `b` is sorted.
pub open spec fn spec_sort_key(b: BBox) -> nat {
    interleave(center_x(b), center_y(b), 32)
}

fn interleave_exec(x: u32, y: u32, n: u8) -> (r: u64)
    requires
        n <= 32,
    ensures
        r as nat == interleave(x as nat, y as nat, n as nat),
    decreases n,
{
    if n == 0 {
        0u64
    } else {
        let rest = interleave_exec(x / 2, y / 2, n - 1);
        proof {
            lemma_interleave_bound((x / 2) as nat, (y / 2) as nat, (n - 1) as nat);
            lemma_pow4_le((n - 1) as nat, 31);
            lemma_pow4_32();
            reveal_with_fuel(pow4, 2);
        }
        rest * 4 + 2 * ((y % 2) as u64) + (x % 2) as u64
    }
}

pub proof fn lemma_pow4_le(n: nat, m: nat)
    requires
        n <= m,
    ensures
        pow4(n) <= pow4(m),
    decreases m,
{
    if n < m && m > 0 {
        lemma_pow4_le(n, (m - 1) as nat);
    }
}

/// Computes the sort key of a box.
pub fn sort_key(b: &BBox) -> (r: u64)
    ensures
        r as nat == spec_sort_key(*b),
{
    let gx_min = grid_exec(b.min_x);
    let gx_max = grid_exec(b.max_x);
    let gy_min = grid_exec(b.min_y);
    let gy_max = grid_exec(b.max_y);
    let cx = ((gx_min as u64 + gx_max as u64) / 2) as u32;
    let cy = ((gy_min as u64 + gy_max as u64) / 2) as u32;
    interleave_exec(cx, cy, 32)
}

} // verus!
