//! A bitmap as a stack of packed rows, with bounded placement, merge and
//! collision tests at pixel positions.
use crate::bitline::{
    chunk_count, clear_pixels, lemma_shifted_placement, line_fits, line_merged, lines_overlap,
    pixel_bools, BitLine,
};
use vstd::prelude::*;

verus! {

/// The longest row a raster holds, so that a row moved by less than one
/// chunk still has a length that fits in `usize`.
pub const MAX_ROW_BITS: usize = usize::MAX - 64;

/// The chunk at which a placement at pixel column `x` starts.
pub open spec fn chunk_offset_of(x: int) -> int {
    if chunk_count(x) >= 1 {
        chunk_count(x) - 1
    } else {
        0
    }
}

/// The column at which a placement at pixel column `x` lands: its chunk
/// offset, in pixels, plus the sub-chunk shift `x % 64`. This is `x` itself
/// except at a non-zero multiple of 64, which lands one chunk early, at
/// `x - 64`.
pub open spec fn placed_x(x: int) -> int {
    chunk_offset_of(x) * 64 + x % 64
}

/// Some row of `b`, placed at column `dx` and row `dy` on `a`, has a set pixel
/// where `a` has one; rows of `b` that fall outside `a` are ignored.
pub open spec fn grid_overlap(a: Seq<Seq<bool>>, b: Seq<Seq<bool>>, dx: int, dy: int) -> bool {
    exists|r: int|
        0 <= r < b.len() && 0 <= r + dy < a.len() && #[trigger] lines_overlap(a[r + dy], b[r], dx)
}

/// `b`, placed at column `dx` and row `dy`, has all its rows inside `a` and
/// every set pixel inside the row it lands on.
pub open spec fn grid_fits(a: Seq<Seq<bool>>, b: Seq<Seq<bool>>, dx: int, dy: int) -> bool {
    &&& 0 <= dy
    &&& dy + b.len() <= a.len()
    &&& forall|r: int| 0 <= r < b.len() ==> #[trigger] line_fits(a[r + dy], b[r], dx)
}

/// `a` with the set pixels of `b`, placed at column `dx` and row `dy`, added.
pub open spec fn grid_merged(a: Seq<Seq<bool>>, b: Seq<Seq<bool>>, dx: int, dy: int) -> Seq<
    Seq<bool>,
> {
    Seq::new(
        a.len(),
        |r: int|
            if 0 <= r - dy < b.len() {
                line_merged(a[r], b[r - dy], dx)
            } else {
                a[r]
            },
    )
}

/// The most chunks any row of `v` takes once moved `amount` pixels on.
pub open spec fn max_chunks(v: Seq<Seq<bool>>, amount: int) -> int
    decreases v.len(),
{
    if v.len() == 0 {
        0
    } else {
        vstd::math::max(max_chunks(v.drop_last(), amount), chunk_count(v.last().len() + amount))
    }
}

/// The rows cut from a flat pixel buffer, `w` pixels each; a partial last
/// row is dropped, and a width of 0 gives no rows.
pub open spec fn rows_of(p: Seq<u8>, w: int) -> Seq<Seq<bool>> {
    if w <= 0 {
        Seq::empty()
    } else {
        Seq::new((p.len() as int / w) as nat, |i: int| pixel_bools(p.subrange(i * w, i * w + w)))
    }
}

/// Placing rows moved `s` pixels on at column `dx` is placing the rows
/// themselves at column `dx + s`.
proof fn lemma_grid_shifted(a: Seq<Seq<bool>>, b: Seq<Seq<bool>>, sb: Seq<Seq<bool>>, s: int, dx: int, dy: int)
    requires
        s >= 0,
        sb.len() == b.len(),
        forall|r: int| 0 <= r < b.len() ==> #[trigger] sb[r] == clear_pixels(s) + b[r],
    ensures
        grid_overlap(a, sb, dx, dy) == grid_overlap(a, b, dx + s, dy),
        grid_fits(a, sb, dx, dy) == grid_fits(a, b, dx + s, dy),
        grid_merged(a, sb, dx, dy) == grid_merged(a, b, dx + s, dy),
{
    assert forall|r: int| 0 <= r < b.len() && 0 <= r + dy < a.len() implies {
        &&& #[trigger] lines_overlap(a[r + dy], sb[r], dx) == lines_overlap(a[r + dy], b[r], dx + s)
        &&& line_fits(a[r + dy], sb[r], dx) == line_fits(a[r + dy], b[r], dx + s)
        &&& line_merged(a[r + dy], sb[r], dx) == line_merged(a[r + dy], b[r], dx + s)
    } by {
        lemma_shifted_placement(a[r + dy], b[r], s, dx);
    }
    if grid_overlap(a, sb, dx, dy) {
        let r = choose|r: int|
            0 <= r < sb.len() && 0 <= r + dy < a.len() && #[trigger] lines_overlap(a[r + dy], sb[r], dx);
        assert(lines_overlap(a[r + dy], b[r], dx + s));
    }
    if grid_overlap(a, b, dx + s, dy) {
        let r = choose|r: int|
            0 <= r < b.len() && 0 <= r + dy < a.len() && #[trigger] lines_overlap(a[r + dy], b[r], dx + s);
        assert(lines_overlap(a[r + dy], sb[r], dx));
    }
    if grid_fits(a, b, dx + s, dy) {
        assert forall|r: int| 0 <= r < b.len() implies #[trigger] line_fits(a[r + dy], sb[r], dx) by {
            lemma_shifted_placement(a[r + dy], b[r], s, dx);
        }
    }
    if grid_fits(a, sb, dx, dy) {
        assert forall|r: int| 0 <= r < b.len() implies #[trigger] line_fits(a[r + dy], b[r], dx + s) by {
            assert(line_fits(a[r + dy], sb[r], dx));
            lemma_shifted_placement(a[r + dy], b[r], s, dx);
        }
    }
    assert forall|r: int| 0 <= r < a.len() && 0 <= r - dy < b.len() implies #[trigger] line_merged(
        a[r],
        sb[r - dy],
        dx,
    ) == line_merged(a[r], b[r - dy], dx + s) by {
        lemma_shifted_placement(a[r], b[r - dy], s, dx);
    }
    assert(grid_merged(a, sb, dx, dy) =~= grid_merged(a, b, dx + s, dy));
}

/// A bitmap: one packed row per pixel row, top to bottom.
#[derive(Debug, Clone, PartialEq, Eq)]
pub struct BinaryRaster(Vec<BitLine>);

impl View for BinaryRaster {
    type V = Seq<Seq<bool>>;

    closed spec fn view(&self) -> Seq<Seq<bool>> {
        Seq::new(self.0.len() as nat, |i: int| self.0@[i]@)
    }
}

/// Splits a pixel column into the chunk a placement starts at and the shift
/// inside that chunk.
fn placement(x: usize) -> (r: (usize, u32))
    ensures
        r.0 == chunk_offset_of(x as int),
        r.1 == x % 64,
        r.0 * 64 + r.1 == placed_x(x as int),
{
    let c = BitLine::chunks_to_fit(x);
    let seg = if c >= 1 {
        c - 1
    } else {
        0
    };
    (seg, (x % 64) as u32)
}

impl BinaryRaster {
    /// Every row is well formed.
    pub closed spec fn rows_wf(&self) -> bool {
        forall|i: int| 0 <= i < self.0.len() ==> #[trigger] self.0@[i].wf()
    }

    /// Every row is well formed and leaves room for a shift by less than a chunk.
    pub closed spec fn wf(&self) -> bool {
        &&& self.rows_wf()
        &&& forall|i: int| 0 <= i < self.0.len() ==> #[trigger] self.0@[i]@.len() <= MAX_ROW_BITS
    }

    /// `height` rows of `width` clear pixels.
    pub fn new(width: usize, height: usize) -> (r: BinaryRaster)
        requires
            width <= MAX_ROW_BITS,
        ensures
            r.wf(),
            r@ == Seq::new(height as nat, |i: int| clear_pixels(width as int)),
    {
        let mut rows: Vec<BitLine> = Vec::with_capacity(height);
        let mut i: usize = 0;
        while i < height
            invariant
                i <= height,
                rows.len() == i,
                width <= MAX_ROW_BITS,
                forall|k: int|
                    0 <= k < i ==> (#[trigger] rows@[k]).wf() && rows@[k]@ == clear_pixels(
                        width as int,
                    ),
            decreases height - i,
        {
            rows.push(BitLine::new(width));
            i += 1;
        }
        let r = BinaryRaster(rows);
        assert(r@ =~= Seq::new(height as nat, |i: int| clear_pixels(width as int)));
        r
    }

    /// The raster cut from a flat buffer of pixels, `width` per row and one
    /// byte per pixel, any non-zero byte a set pixel. A partial last row is
    /// dropped; a width of 0 gives an empty raster.
    pub fn from_raster(pixels: &[u8], width: usize) -> (r: BinaryRaster)
        requires
            width <= MAX_ROW_BITS,
        ensures
            r.wf(),
            r@ == rows_of(pixels@, width as int),
    {
        if width == 0 {
            let r = BinaryRaster(Vec::new());
            assert(r@ =~= rows_of(pixels@, width as int));
            return r;
        }
        let len = pixels.len();
        let n = len / width;
        proof {
            vstd::arithmetic::div_mod::lemma_fundamental_div_mod(len as int, width as int);
            vstd::arithmetic::div_mod::lemma_mod_pos_bound(len as int, width as int);
            vstd::arithmetic::mul::lemma_mul_is_commutative(n as int, width as int);
        }
        let mut rows: Vec<BitLine> = Vec::with_capacity(n);
        let mut i: usize = 0;
        let mut start: usize = 0;
        while i < n
            invariant
                0 < width <= MAX_ROW_BITS,
                len == pixels@.len(),
                n == len / width,
                n * width <= len,
                i <= n,
                start == i * width,
                rows.len() == i,
                forall|k: int|
                    0 <= k < i ==> (#[trigger] rows@[k]).wf() && rows@[k]@.len() == width && rows@[k]@ == pixel_bools(
                        pixels@.subrange(k * width, k * width + width),
                    ),
            decreases n - i,
        {
            proof {
                assert((i + 1) * width <= n * width) by (nonlinear_arith)
                    requires
                        i + 1 <= n,
                        width > 0,
                ;
                assert((i + 1) * width == i * width + width) by (nonlinear_arith);
            }
            let row = BitLine::from_bits(&pixels[start..start + width]);
            rows.push(row);
            proof {
                assert((i + 1) * width == i * width + width) by (nonlinear_arith);
            }
            start = start + width;
            i += 1;
        }
        let r = BinaryRaster(rows);
        assert(r@ =~= rows_of(pixels@, width as int));
        r
    }
    /// The most chunks any row is stored in.
    fn max_chunkwidth(&self) -> (r: usize)
        requires
            self.rows_wf(),
        ensures
            r == max_chunks(self@, 0),
    {
        let mut m: usize = 0;
        let mut i: usize = 0;
        while i < self.0.len()
            invariant
                i <= self.0.len(),
                self.rows_wf(),
                m == max_chunks(self@.take(i as int), 0),
            decreases self.0.len() - i,
        {
            let c = self.0[i].chunk_width();
            if c > m {
                m = c;
            }
            proof {
                assert(self@.take(i + 1).drop_last() =~= self@.take(i as int));
            }
            i += 1;
        }
        assert(self@.take(self.0.len() as int) =~= self@);
        m
    }

    /// The most chunks any row would take once moved `amount` pixels on,
    /// found without moving anything.
    fn max_chunkwidth_after_shift(&self, amount: u32) -> (r: usize)
        requires
            amount < 64,
        ensures
            r == max_chunks(self@, amount as int),
    {
        let mut m: usize = 0;
        let mut i: usize = 0;
        while i < self.0.len()
            invariant
                i <= self.0.len(),
                amount < 64,
                m == max_chunks(self@.take(i as int), amount as int),
            decreases self.0.len() - i,
        {
            let c = self.0[i].chunk_width_after_shift(amount);
            if c > m {
                m = c;
            }
            proof {
                assert(self@.take(i + 1).drop_last() =~= self@.take(i as int));
            }
            i += 1;
        }
        assert(self@.take(self.0.len() as int) =~= self@);
        m
    }

    /// Every row moved `amount` pixels on, as a new raster.
    pub fn shifted_right(&self, amount: u32) -> (r: BinaryRaster)
        requires
            self.wf(),
            amount < 64,
        ensures
            r.rows_wf(),
            r@.len() == self@.len(),
            forall|i: int| 0 <= i < self@.len() ==> #[trigger] r@[i] == clear_pixels(amount as int) + self@[i],
    {
        let mut rows: Vec<BitLine> = Vec::with_capacity(self.0.len());
        let mut i: usize = 0;
        while i < self.0.len()
            invariant
                i <= self.0.len(),
                self.wf(),
                amount < 64,
                rows.len() == i,
                forall|k: int|
                    0 <= k < i ==> (#[trigger] rows@[k]).wf() && rows@[k]@ == clear_pixels(amount as int)
                        + self@[k],
            decreases self.0.len() - i,
        {
            rows.push(self.0[i].shifted_right(amount));
            i += 1;
        }
        BinaryRaster(rows)
    }

    /// Whether `other` would fit at `pos`, judged on chunk counts: its rows,
    /// moved by the sub-chunk shift, need no more chunks past the chunk
    /// offset than the widest row here has, and it ends strictly above the
    /// last row. The strict test refuses a placement whose last row would be
    /// this raster's last row, although such a placement fits.
    pub fn can_fit(&self, other: &BinaryRaster, pos: (usize, usize)) -> (r: bool)
        requires
            self.wf(),
            other.wf(),
        ensures
            r == (chunk_offset_of(pos.0 as int) + max_chunks(other@, pos.0 as int % 64) <= max_chunks(
                self@,
                0,
            ) && pos.1 + other@.len() < self@.len()),
    {
        let (segment_offset, shift_amount) = placement(pos.0);
        let need = other.max_chunkwidth_after_shift(shift_amount);
        let have = self.max_chunkwidth();
        let horizontal = need <= have && segment_offset <= have - need;
        let vertical = pos.1 < self.0.len() && other.0.len() < self.0.len() - pos.1;
        horizontal && vertical
    }

    /// Whether some row of `source`, placed `segment_offset` chunks in and
    /// `line_offset` rows down, collides with the row it lands on.
    fn collision_check(&self, source: &BinaryRaster, segment_offset: usize, line_offset: usize) -> (r: bool)
        requires
            self.rows_wf(),
            source.rows_wf(),
            line_offset + source@.len() <= self@.len(),
        ensures
            r == grid_overlap(self@, source@, segment_offset * 64, line_offset as int),
    {
        let mut i: usize = 0;
        while i < source.0.len()
            invariant
                i <= source.0.len(),
                self.rows_wf(),
                source.rows_wf(),
                line_offset + source@.len() <= self@.len(),
                forall|k: int|
                    0 <= k < i ==> !#[trigger] lines_overlap(
                        self@[k + line_offset],
                        source@[k],
                        segment_offset * 64,
                    ),
            decreases source.0.len() - i,
        {
            if self.0[i + line_offset].collision_check(&source.0[i], segment_offset) {
                assert(lines_overlap(self@[i + line_offset], source@[i as int], segment_offset * 64));
                return true;
            }
            i += 1;
        }
        false
    }

    /// Adds every row of `source`, placed `segment_offset` chunks in and
    /// `line_offset` rows down, to the row it lands on.
    fn merge_rows(&mut self, source: &BinaryRaster, segment_offset: usize, line_offset: usize)
        requires
            old(self).wf(),
            source.rows_wf(),
            grid_fits(old(self)@, source@, segment_offset * 64, line_offset as int),
        ensures
            final(self).wf(),
            final(self)@ == grid_merged(old(self)@, source@, segment_offset * 64, line_offset as int),
    {
        let ghost start = self@;
        let mut i: usize = 0;
        while i < source.0.len()
            invariant
                i <= source.0.len(),
                self.wf(),
                source.rows_wf(),
                start == old(self)@,
                grid_fits(start, source@, segment_offset * 64, line_offset as int),
                self@.len() == start.len(),
                forall|r: int|
                    0 <= r < start.len() ==> #[trigger] self@[r] == if line_offset <= r < line_offset + i {
                        line_merged(start[r], source@[r - line_offset], segment_offset * 64)
                    } else {
                        start[r]
                    },
            decreases source.0.len() - i,
        {
            let ghost before = self@;
            assert(line_fits(start[i + line_offset], source@[i as int], segment_offset * 64));
            assert(self@[i + line_offset] == start[i + line_offset]);
            self.0[i + line_offset].add_from(&source.0[i], segment_offset);
            proof {
                assert forall|r: int| 0 <= r < start.len() implies #[trigger] self@[r] == if line_offset <= r < line_offset + i + 1 {
                    line_merged(start[r], source@[r - line_offset], segment_offset * 64)
                } else {
                    start[r]
                } by {
                    if r != i + line_offset {
                        assert(self@[r] == before[r]);
                    }
                }
                assert forall|r: int| 0 <= r < self.0.len() implies #[trigger] self.0@[r]@.len() <= MAX_ROW_BITS by {
                    assert(self@[r].len() == start[r].len());
                }
            }
            i += 1;
        }
        assert(self@ =~= grid_merged(start, source@, segment_offset * 64, line_offset as int));
    }

    /// Adds `source` at `pos` unless one of its set pixels lands on a set
    /// pixel here. On a collision nothing changes and `Err(())` comes back;
    /// otherwise every row is merged and `Ok(())` comes back. That the
    /// placement fits is the caller's duty, a precondition rather than an
    /// error.
    pub fn add_from_checked(&mut self, source: &BinaryRaster, pos: (usize, usize)) -> (r: Result<(), ()>)
        requires
            old(self).wf(),
            source.wf(),
            grid_fits(old(self)@, source@, placed_x(pos.0 as int), pos.1 as int),
        ensures
            final(self).wf(),
            r is Err <==> grid_overlap(old(self)@, source@, placed_x(pos.0 as int), pos.1 as int),
            r is Err ==> final(self)@ == old(self)@,
            r is Ok ==> final(self)@ == grid_merged(
                old(self)@,
                source@,
                placed_x(pos.0 as int),
                pos.1 as int,
            ),
    {
        let (segment_offset, shift_amount) = placement(pos.0);
        let shifted = source.shifted_right(shift_amount);
        proof {
            lemma_grid_shifted(self@, source@, shifted@, shift_amount as int, segment_offset * 64, pos.1 as int);
        }
        if self.collision_check(&shifted, segment_offset, pos.1) {
            return Err(());
        }
        self.merge_rows(&shifted, segment_offset, pos.1);
        Ok(())
    }
    /// Adds `source` at `pos` without testing for collisions.
    pub fn add_from(&mut self, source: &BinaryRaster, pos: (usize, usize))
        requires
            old(self).wf(),
            source.wf(),
            grid_fits(old(self)@, source@, placed_x(pos.0 as int), pos.1 as int),
        ensures
            final(self).wf(),
            final(self)@ == grid_merged(old(self)@, source@, placed_x(pos.0 as int), pos.1 as int),
    {
        let (segment_offset, shift_amount) = placement(pos.0);
        let shifted = source.shifted_right(shift_amount);
        proof {
            lemma_grid_shifted(self@, source@, shifted@, shift_amount as int, segment_offset * 64, pos.1 as int);
        }
        self.merge_rows(&shifted, segment_offset, pos.1);
    }

    /// Whether `other`, placed at `pos`, has a set pixel where this raster
    /// has one. Rows of `other` below the last row here are ignored, so a
    /// placement that starts below it never collides.
    pub fn collision_check_at(&self, other: &BinaryRaster, pos: (usize, usize)) -> (r: bool)
        requires
            self.wf(),
            other.wf(),
        ensures
            r == grid_overlap(self@, other@, placed_x(pos.0 as int), pos.1 as int),
    {
        if pos.1 >= self.0.len() {
            return false;
        }
        let (segment_offset, shift_amount) = placement(pos.0);
        let shifted = other.shifted_right(shift_amount);
        proof {
            lemma_grid_shifted(self@, other@, shifted@, shift_amount as int, segment_offset * 64, pos.1 as int);
        }
        let other_height = if shifted.0.len() <= self.0.len() - pos.1 {
            shifted.0.len()
        } else {
            self.0.len() - pos.1
        };
        let mut i: usize = 0;
        while i < other_height
            invariant
                i <= other_height,
                other_height <= shifted@.len(),
                other_height + pos.1 <= self@.len(),
                other_height == shifted@.len() || other_height + pos.1 == self@.len(),
                self.rows_wf(),
                shifted.rows_wf(),
                shift_amount < 64,
                shifted@.len() == other@.len(),
                forall|k: int| 0 <= k < other@.len() ==> #[trigger] shifted@[k] == clear_pixels(shift_amount as int) + other@[k],
                segment_offset * 64 + shift_amount == placed_x(pos.0 as int),
                forall|k: int|
                    0 <= k < i ==> !#[trigger] lines_overlap(
                        self@[k + pos.1],
                        shifted@[k],
                        segment_offset * 64,
                    ),
            decreases other_height - i,
        {
            if self.0[i + pos.1].collision_check(&shifted.0[i], segment_offset) {
                proof {
                    assert(lines_overlap(self@[i + pos.1], shifted@[i as int], segment_offset * 64));
                    lemma_grid_shifted(self@, other@, shifted@, shift_amount as int, segment_offset * 64, pos.1 as int);
                }
                return true;
            }
            i += 1;
        }
        false
    }
}

} // verus!
