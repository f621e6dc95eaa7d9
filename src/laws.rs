//! Properties that relate several operations of the library.
use crate::binary_raster::{grid_fits, grid_merged, grid_overlap, rows_of};
use crate::bitline::{
    clear_pixels, lemma_lines_overlap_symmetric, line_fits, line_merged, lines_overlap, pixel_at, pixel_bools,
    pixel_bytes,
};
use vstd::prelude::*;

verus! {

/// Some pixel of the grid is set.
pub open spec fn has_set_pixel(v: Seq<Seq<bool>>) -> bool {
    exists|r: int, j: int| 0 <= r < v.len() && 0 <= j < v[r].len() && #[trigger] v[r][j]
}

/// Every byte is 0 or 1.
pub open spec fn is_binary(p: Seq<u8>) -> bool {
    forall|i: int| 0 <= i < p.len() ==> p[i] == 0 || p[i] == 1
}

/// Reading bytes of 0 and 1 into a row and writing the row back out gives
/// the same bytes.
pub proof fn lemma_line_round_trip(p: Seq<u8>)
    requires
        is_binary(p),
    ensures
        pixel_bytes(pixel_bools(p)) == p,
{
    assert(pixel_bytes(pixel_bools(p)) =~= p);
}

/// Cutting a buffer of 0 and 1 bytes into rows of `w` pixels, `w` dividing
/// its length, and writing each row back out gives the buffer back, row by row.
pub proof fn lemma_raster_round_trip(p: Seq<u8>, w: int)
    requires
        is_binary(p),
        w > 0,
        p.len() as int % w == 0,
    ensures
        rows_of(p, w).len() * w == p.len(),
        forall|i: int|
            0 <= i < rows_of(p, w).len() ==> #[trigger] pixel_bytes(rows_of(p, w)[i])
                == p.subrange(i * w, i * w + w),
{
    vstd::arithmetic::div_mod::lemma_fundamental_div_mod(p.len() as int, w);
    vstd::arithmetic::mul::lemma_mul_is_commutative(p.len() as int / w, w);
    assert forall|i: int| 0 <= i < rows_of(p, w).len() implies #[trigger] pixel_bytes(
        rows_of(p, w)[i],
    ) == p.subrange(i * w, i * w + w) by {
        assert(i * w + w <= p.len()) by (nonlinear_arith)
            requires
                0 <= i < p.len() as int / w,
                p.len() == (p.len() as int / w) * w,
                w > 0,
        ;
        assert(0 <= i * w) by (nonlinear_arith)
            requires
                0 <= i,
                w > 0,
        ;
        lemma_line_round_trip(p.subrange(i * w, i * w + w));
    }
}

/// A row moved `k` pixels on, written out as bytes, is `k` zero bytes
/// followed by the row's own bytes.
pub proof fn lemma_shift_prepends_zeros(v: Seq<bool>, k: int)
    requires
        0 <= k < 64,
    ensures
        pixel_bytes(clear_pixels(k) + v) == Seq::new(k as nat, |i: int| 0u8) + pixel_bytes(v),
{
    assert(pixel_bytes(clear_pixels(k) + v) =~= Seq::new(k as nat, |i: int| 0u8) + pixel_bytes(v));
}

/// Collision does not depend on which raster is placed on which: `b` at
/// (`dx`, `dy`) on `a` collides exactly when `a` at (`-dx`, `-dy`) on `b` does.
pub proof fn lemma_grid_overlap_symmetric(a: Seq<Seq<bool>>, b: Seq<Seq<bool>>, dx: int, dy: int)
    ensures
        grid_overlap(a, b, dx, dy) == grid_overlap(b, a, -dx, -dy),
{
    if grid_overlap(a, b, dx, dy) {
        let r = choose|r: int|
            0 <= r < b.len() && 0 <= r + dy < a.len() && #[trigger] lines_overlap(a[r + dy], b[r], dx);
        lemma_lines_overlap_symmetric(a[r + dy], b[r], dx);
        let r2 = r + dy;
        assert(b[r2 + -dy] == b[r]);
        assert(lines_overlap(b[r2 + -dy], a[r2], -dx));
    }
    if grid_overlap(b, a, -dx, -dy) {
        let r = choose|r: int|
            0 <= r < a.len() && 0 <= r + -dy < b.len() && #[trigger] lines_overlap(
                b[r + -dy],
                a[r],
                -dx,
            );
        lemma_lines_overlap_symmetric(b[r + -dy], a[r], -dx);
        let r2 = r - dy;
        assert(a[r2 + dy] == a[r]);
        assert(lines_overlap(a[r2 + dy], b[r2], dx));
    }
}

/// Once a shape with a set pixel has been merged in at a place, it still fits
/// there and now collides there: placing it a second time is refused.
pub proof fn lemma_merged_shape_collides(a: Seq<Seq<bool>>, b: Seq<Seq<bool>>, dx: int, dy: int)
    requires
        grid_fits(a, b, dx, dy),
        has_set_pixel(b),
    ensures
        grid_fits(grid_merged(a, b, dx, dy), b, dx, dy),
        grid_overlap(grid_merged(a, b, dx, dy), b, dx, dy),
{
    let m = grid_merged(a, b, dx, dy);
    assert forall|r: int| 0 <= r < b.len() implies #[trigger] m[r + dy] == line_merged(
        a[r + dy],
        b[r],
        dx,
    ) by {
        assert(r + dy - dy == r);
    }
    assert forall|r: int| 0 <= r < b.len() implies #[trigger] line_fits(m[r + dy], b[r], dx) by {
        assert(line_fits(a[r + dy], b[r], dx));
        assert(m[r + dy].len() == a[r + dy].len());
    }
    let (r, j) = choose|r: int, j: int| 0 <= r < b.len() && 0 <= j < b[r].len() && #[trigger] b[r][j];
    assert(line_fits(a[r + dy], b[r], dx));
    assert(m[r + dy][dx + j]) by {
        assert(pixel_at(b[r], dx + j - dx));
    }
    assert(pixel_at(m[r + dy], dx + j));
    assert(lines_overlap(m[r + dy], b[r], dx));
}

/// A placement that starts below the last row never collides.
pub proof fn lemma_below_never_collides(a: Seq<Seq<bool>>, b: Seq<Seq<bool>>, dx: int, dy: int)
    requires
        dy >= a.len(),
    ensures
        !grid_overlap(a, b, dx, dy),
{
}

} // verus!
