//! One packed row of boolean pixels.
use vstd::prelude::*;

verus! {

/// How a set pixel is drawn.
pub const BIT_1: &'static str = "██";

/// How a clear pixel is drawn.
pub const BIT_0: &'static str = "  ";

/// The drawing of one pixel.
pub open spec fn glyph(b: bool) -> Seq<char> {
    if b {
        BIT_1@
    } else {
        BIT_0@
    }
}

/// The drawings of the pixels of `v`, one after the other.
pub open spec fn glyphs(v: Seq<bool>) -> Seq<char>
    decreases v.len(),
{
    if v.len() == 0 {
        Seq::empty()
    } else {
        glyphs(v.drop_last()) + glyph(v.last())
    }
}

/// Every `step`-th pixel of `v`, starting with the first.
pub open spec fn sampled(v: Seq<bool>, step: int) -> Seq<bool> {
    Seq::new(((v.len() + step - 1) / step) as nat, |k: int| v[k * step])
}

/// Number of chunks needed to hold `bits` pixels.
pub open spec fn chunk_count(bits: int) -> int {
    (bits + 63) / 64
}

/// Whether bit `k` of the chunk `c` is set.
pub open spec fn chunk_bit(c: u64, k: u64) -> bool {
    (c >> k) & 1u64 == 1u64
}

/// Pixel `i` of a packed chunk sequence; every pixel outside the chunks is clear.
pub open spec fn packed_pixel(data: Seq<u64>, i: int) -> bool {
    0 <= i < data.len() * 64 && chunk_bit(data[i / 64], (i % 64) as u64)
}

/// Pixel `i` of a row, clear outside it.
pub open spec fn pixel_at(v: Seq<bool>, i: int) -> bool {
    0 <= i < v.len() && v[i]
}

/// The row as bytes, 1 for a set pixel and 0 for a clear one.
pub open spec fn pixel_bytes(v: Seq<bool>) -> Seq<u8> {
    v.map_values(|b: bool| if b { 1u8 } else { 0u8 })
}

/// A byte sequence read as pixels: any non-zero byte is a set pixel.
pub open spec fn pixel_bools(p: Seq<u8>) -> Seq<bool> {
    p.map_values(|b: u8| b != 0)
}

/// `n` clear pixels.
pub open spec fn clear_pixels(n: int) -> Seq<bool> {
    Seq::new(n as nat, |i: int| false)
}

/// No pixel of `v` is set.
pub open spec fn all_clear(v: Seq<bool>) -> bool {
    forall|i: int| 0 <= i < v.len() ==> !v[i]
}

/// `s` is the position of the first set pixel of `v`.
pub open spec fn is_first_set(v: Seq<bool>, s: int) -> bool {
    &&& 0 <= s < v.len()
    &&& v[s]
    &&& forall|j: int| 0 <= j < s ==> !v[j]
}

/// `e` is the position of the last set pixel of `v`.
pub open spec fn is_last_set(v: Seq<bool>, e: int) -> bool {
    &&& 0 <= e < v.len()
    &&& v[e]
    &&& forall|j: int| e < j < v.len() ==> !v[j]
}

/// `b` holds, at offset `shift`, a set pixel that `a` also has set.
pub open spec fn lines_overlap(a: Seq<bool>, b: Seq<bool>, shift: int) -> bool {
    exists|j: int| 0 <= j < b.len() && b[j] && #[trigger] pixel_at(a, shift + j)
}

/// `a` with the set pixels of `b`, placed at offset `shift`, added.
pub open spec fn line_merged(a: Seq<bool>, b: Seq<bool>, shift: int) -> Seq<bool> {
    Seq::new(a.len(), |i: int| a[i] || pixel_at(b, i - shift))
}

/// Every set pixel of `b`, placed at offset `shift`, lands inside `a`.
pub open spec fn line_fits(a: Seq<bool>, b: Seq<bool>, shift: int) -> bool {
    forall|j: int| 0 <= j < b.len() && b[j] ==> 0 <= shift + j < a.len()
}

/// Placing a row moved `s` pixels on at offset `shift` is placing the row
/// itself at offset `shift + s`.
pub proof fn lemma_shifted_placement(a: Seq<bool>, b: Seq<bool>, s: int, shift: int)
    requires
        s >= 0,
    ensures
        lines_overlap(a, clear_pixels(s) + b, shift) == lines_overlap(a, b, shift + s),
        line_fits(a, clear_pixels(s) + b, shift) == line_fits(a, b, shift + s),
        line_merged(a, clear_pixels(s) + b, shift) == line_merged(a, b, shift + s),
{
    let sb = clear_pixels(s) + b;
    assert forall|j: int| 0 <= j < b.len() implies sb[j + s] == b[j] by {}
    if lines_overlap(a, sb, shift) {
        let j = choose|j: int| 0 <= j < sb.len() && sb[j] && #[trigger] pixel_at(a, shift + j);
        assert(pixel_at(a, (shift + s) + (j - s)));
    }
    if lines_overlap(a, b, shift + s) {
        let j = choose|j: int| 0 <= j < b.len() && b[j] && #[trigger] pixel_at(a, shift + s + j);
        assert(pixel_at(a, shift + (j + s)));
    }
    if line_fits(a, b, shift + s) {
        assert forall|j: int| 0 <= j < sb.len() && sb[j] implies 0 <= shift + j < a.len() by {
            assert(b[j - s]);
        }
    }
    if line_fits(a, sb, shift) {
        assert forall|j: int| 0 <= j < b.len() && b[j] implies 0 <= shift + s + j < a.len() by {
            assert(sb[j + s]);
        }
    }
    assert(line_merged(a, sb, shift) =~= line_merged(a, b, shift + s));
}

/// Overlap does not depend on which row is placed on which: `b` at offset
/// `shift` on `a` overlaps exactly when `a` at offset `-shift` on `b` does.
pub proof fn lemma_lines_overlap_symmetric(a: Seq<bool>, b: Seq<bool>, shift: int)
    ensures
        lines_overlap(a, b, shift) == lines_overlap(b, a, -shift),
{
    if lines_overlap(a, b, shift) {
        let j = choose|j: int| 0 <= j < b.len() && b[j] && #[trigger] pixel_at(a, shift + j);
        assert(pixel_at(b, -shift + (shift + j)));
    }
    if lines_overlap(b, a, -shift) {
        let i = choose|i: int| 0 <= i < a.len() && a[i] && #[trigger] pixel_at(b, -shift + i);
        assert(pixel_at(a, shift + (-shift + i)));
    }
}

proof fn lemma_bit_zero(k: u64)
    requires
        k < 64,
    ensures
        !chunk_bit(0, k),
{
    assert(!chunk_bit(0, k)) by (bit_vector)
        requires
            k < 64,
    ;
}

proof fn lemma_bit_or(a: u64, b: u64, k: u64)
    requires
        k < 64,
    ensures
        chunk_bit(a | b, k) == (chunk_bit(a, k) || chunk_bit(b, k)),
{
    assert(chunk_bit(a | b, k) == (chunk_bit(a, k) || chunk_bit(b, k))) by (bit_vector)
        requires
            k < 64,
    ;
}

proof fn lemma_bit_and(a: u64, b: u64, k: u64)
    requires
        k < 64,
    ensures
        chunk_bit(a & b, k) == (chunk_bit(a, k) && chunk_bit(b, k)),
{
    assert(chunk_bit(a & b, k) == (chunk_bit(a, k) && chunk_bit(b, k))) by (bit_vector)
        requires
            k < 64,
    ;
}

proof fn lemma_bit_set(c: u64, b: u64, k: u64)
    requires
        k < 64,
        b < 64,
    ensures
        chunk_bit(c | (1u64 << b), k) == (chunk_bit(c, k) || k == b),
{
    assert(chunk_bit(c | (1u64 << b), k) == (chunk_bit(c, k) || k == b)) by (bit_vector)
        requires
            k < 64,
            b < 64,
    ;
}

proof fn lemma_bit_value(c: u64, k: u64)
    ensures
        ((c >> k) & 1u64) as u8 == if chunk_bit(c, k) { 1u8 } else { 0u8 },
{
    assert(((c >> k) & 1u64) as u8 == if chunk_bit(c, k) { 1u8 } else { 0u8 }) by (bit_vector);
}

/// A chunk with some bit set is not zero, and a non-zero chunk has a set bit.
proof fn lemma_nonzero_has_bit(c: u64)
    ensures
        c != 0 <==> exists|k: u64| k < 64 && #[trigger] chunk_bit(c, k),
{
    if c != 0 {
        vstd::std_specs::bits::axiom_u64_trailing_zeros(c);
        let t = vstd::std_specs::bits::u64_trailing_zeros(c) as u64;
        assert(t < 64 && chunk_bit(c, t));
    }
    assert forall|k: u64| k < 64 && #[trigger] chunk_bit(c, k) implies c != 0 by {
        lemma_bit_zero(k);
    }
}

/// What a chunk carries over into the next one when a row moves `a` pixels on.
pub open spec fn spill_of(prev: u64, a: u64) -> u64 {
    if a == 0 {
        0
    } else {
        prev >> ((64 - a) as u64)
    }
}

proof fn lemma_bit_spill(prev: u64, a: u64, k: u64)
    requires
        a < 64,
        k < 64,
    ensures
        chunk_bit(spill_of(prev, a), k) == (k < a && chunk_bit(prev, (k + 64 - a) as u64)),
{
    assert(chunk_bit(spill_of(prev, a), k) == (k < a && chunk_bit(prev, (k + 64 - a) as u64)))
        by (bit_vector)
        requires
            a < 64,
            k < 64,
    ;
}

proof fn lemma_bit_shifted(c: u64, prev: u64, a: u64, k: u64)
    requires
        a < 64,
        k < 64,
    ensures
        chunk_bit((c << a) | spill_of(prev, a), k) == if k >= a {
            chunk_bit(c, (k - a) as u64)
        } else {
            chunk_bit(prev, (k + 64 - a) as u64)
        },
{
    assert(chunk_bit((c << a) | spill_of(prev, a), k) == if k >= a {
        chunk_bit(c, (k - a) as u64)
    } else {
        chunk_bit(prev, (k + 64 - a) as u64)
    }) by (bit_vector)
        requires
            a < 64,
            k < 64,
    ;
}

/// The chunks of `bits` pixels hold at least those pixels and less than one
/// chunk more.
proof fn lemma_chunk_count(bits: int)
    requires
        bits >= 0,
    ensures
        chunk_count(bits) * 64 >= bits,
        chunk_count(bits) * 64 < bits + 64,
        chunk_count(bits) >= 0,
{
    vstd::arithmetic::div_mod::lemma_fundamental_div_mod(bits + 63, 64);
}

/// Splits a position into its chunk and its bit.
proof fn lemma_split(p: int, q: int, k: int)
    requires
        p == q * 64 + k,
        0 <= k < 64,
    ensures
        p / 64 == q,
        p % 64 == k,
{
    vstd::arithmetic::div_mod::lemma_fundamental_div_mod_converse(p, 64, q, k);
}

/// The packed layout of a row: its chunk count and clear padding.
pub open spec fn packed_wf(data: Seq<u64>, bits: int) -> bool {
    &&& data.len() == chunk_count(bits)
    &&& forall|i: int| bits <= i ==> !#[trigger] packed_pixel(data, i)
}

/// A row of pixels packed into 64-bit chunks: pixel `i` is bit `i % 64` of
/// chunk `i / 64`.
#[derive(Debug, Clone, PartialEq, Eq)]
pub struct BitLine {
    data: Vec<u64>,
    bits: usize,
}

impl View for BitLine {
    type V = Seq<bool>;

    closed spec fn view(&self) -> Seq<bool> {
        Seq::new(self.bits as nat, |i: int| packed_pixel(self.data@, i))
    }
}

impl BitLine {
    /// The chunks hold exactly the row: one chunk per 64 pixels, rounded up,
    /// and every bit past the last pixel clear.
    pub closed spec fn wf(&self) -> bool {
        packed_wf(self.data@, self.bits as int)
    }

    /// Turns a pixel position into the index of its chunk and the position
    /// of its bit inside that chunk.
    pub fn chunked(i: usize) -> (r: (usize, u32))
        ensures
            r.0 == i / 64,
            r.1 == i % 64,
    {
        (i / 64, (i % 64) as u32)
    }

    /// How many chunks are needed to hold this many pixels.
    pub fn chunks_to_fit(bits: usize) -> (r: usize)
        ensures
            r == chunk_count(bits as int),
    {
        bits / 64 + if bits % 64 == 0 { 0 } else { 1 }
    }

    /// A row of `bits` clear pixels.
    pub fn new(bits: usize) -> (r: BitLine)
        ensures
            r.wf(),
            r@ == clear_pixels(bits as int),
    {
        let n = BitLine::chunks_to_fit(bits);
        let data: Vec<u64> = vec![0u64; n];
        proof {
            assert forall|i: int| #![trigger packed_pixel(data@, i)] 0 <= i < data@.len() * 64
                implies !packed_pixel(data@, i) by {
                lemma_bit_zero((i % 64) as u64);
            }
        }
        let r = BitLine { data, bits };
        assert(r@ =~= clear_pixels(bits as int));
        r
    }
    /// Every pixel of the chunks reads as the row does, clear outside it.
    proof fn lemma_view_pixel(&self)
        requires
            self.wf(),
        ensures
            forall|j: int| #[trigger] packed_pixel(self.data@, j) == pixel_at(self@, j),
    {
    }

    /// The row moved `amount` pixels toward higher positions: `amount` clear
    /// pixels come first, then the row. The chunks are walked from the lowest,
    /// each one carrying its high bits over into the next.
    pub fn shifted_right(&self, amount: u32) -> (r: BitLine)
        requires
            self.wf(),
            amount < 64,
            self@.len() + amount <= usize::MAX,
        ensures
            r.wf(),
            r@ == clear_pixels(amount as int) + self@,
    {
        let a = amount as u64;
        let n = self.data.len();
        let new_bits = self.bits + amount as usize;
        let new_n = BitLine::chunks_to_fit(new_bits);
        proof {
            lemma_chunk_count(self.bits as int);
            lemma_chunk_count(new_bits as int);
        }
        let mut res: Vec<u64> = Vec::with_capacity(new_n);
        let mut spill: u64 = 0;
        let mut i: usize = 0;
        while i < n
            invariant
                n == self.data.len(),
                i <= n,
                res.len() == i,
                a == amount as u64,
                a < 64,
                spill == if i == 0 { 0u64 } else { spill_of(self.data@[i - 1], a) },
                forall|p: int|
                    0 <= p < res.len() * 64 ==> #[trigger] packed_pixel(res@, p) == (p >= a
                        && packed_pixel(self.data@, p - a)),
            decreases n - i,
        {
            let c = self.data[i];
            let ghost before = res@;
            res.push((c << a) | spill);
            proof {
                let prev = if i == 0 { 0u64 } else { self.data@[i - 1] };
                assert(spill == spill_of(prev, a)) by {
                    if i == 0 {
                        assert(spill_of(0u64, a) == 0u64) by (bit_vector);
                    }
                }
                assert forall|p: int| 0 <= p < res.len() * 64 implies #[trigger] packed_pixel(
                    res@,
                    p,
                ) == (p >= a && packed_pixel(self.data@, p - a)) by {
                    let q = p / 64;
                    let k = p % 64;
                    lemma_split(p, q, k);
                    if q < i {
                        assert(res@[q] == before[q]);
                        assert(packed_pixel(before, p) == (p >= a && packed_pixel(self.data@, p - a)));
                    } else {
                        assert(q == i);
                        lemma_bit_shifted(c, prev, a, k as u64);
                        if k >= a {
                            lemma_split(p - a, q, k - a);
                        } else if i > 0 {
                            lemma_split(p - a, q - 1, k + 64 - a);
                        } else {
                            lemma_bit_zero((k + 64 - a) as u64);
                        }
                    }
                }
            }
            spill = if a == 0 { 0 } else { c >> (64 - a) };
            i += 1;
        }
        if res.len() < new_n {
            let ghost before = res@;
            res.push(spill);
            proof {
                assert forall|p: int| 0 <= p < res.len() * 64 implies #[trigger] packed_pixel(
                    res@,
                    p,
                ) == (p >= a && packed_pixel(self.data@, p - a)) by {
                    let q = p / 64;
                    let k = p % 64;
                    lemma_split(p, q, k);
                    if q < n {
                        assert(res@[q] == before[q]);
                        assert(packed_pixel(before, p) == (p >= a && packed_pixel(self.data@, p - a)));
                    } else {
                        assert(q == n);
                        if n == 0 {
                            assert(spill_of(0u64, a) == 0u64) by (bit_vector);
                            lemma_bit_zero(k as u64);
                        } else {
                            lemma_bit_spill(self.data@[n - 1], a, k as u64);
                            if k < a {
                                lemma_split(p - a, q - 1, k + 64 - a);
                            }
                        }
                    }
                }
            }
        }
        let r = BitLine { data: res, bits: new_bits };
        proof {
            assert forall|p: int| new_bits <= p implies !#[trigger] packed_pixel(r.data@, p) by {
                if p < r.data@.len() * 64 {
                    assert(!packed_pixel(self.data@, p - a));
                }
            }
            assert(r@ =~= clear_pixels(amount as int) + self@);
        }
        r
    }
    /// The position of the first set pixel, or `None` when no pixel is set.
    pub fn start(&self) -> (r: Option<usize>)
        requires
            self.wf(),
        ensures
            r is None <==> all_clear(self@),
            r matches Some(s) ==> is_first_set(self@, s as int),
    {
        proof {
            self.lemma_view_pixel();
        }
        let n = self.data.len();
        let mut i: usize = 0;
        while i < n
            invariant
                n == self.data.len(),
                i <= n,
                self.wf(),
                forall|j: int| #[trigger] packed_pixel(self.data@, j) == pixel_at(self@, j),
                forall|p: int| 0 <= p < i * 64 ==> !#[trigger] packed_pixel(self.data@, p),
            decreases n - i,
        {
            let c = self.data[i];
            let tz = c.trailing_zeros();
            proof {
                vstd::std_specs::bits::axiom_u64_trailing_zeros(c);
            }
            if tz < 64 {
                proof {
                    let p = i * 64 + tz;
                    lemma_split(p, i as int, tz as int);
                    assert(packed_pixel(self.data@, p));
                    assert forall|j: int| 0 <= j < p implies !self@[j] by {
                        if j >= i * 64 {
                            lemma_split(j, i as int, j - i * 64);
                            assert((c >> ((j - i * 64) as u64)) & 1u64 == 0u64);
                        } else {
                            assert(!packed_pixel(self.data@, j));
                        }
                    }
                }
                return Some(i * 64 + tz as usize);
            }
            proof {
                assert forall|p: int| 0 <= p < (i + 1) * 64 implies !#[trigger] packed_pixel(
                    self.data@,
                    p,
                ) by {
                    if p >= i * 64 {
                        lemma_split(p, i as int, p - i * 64);
                        lemma_bit_zero((p - i * 64) as u64);
                    }
                }
            }
            i += 1;
        }
        proof {
            lemma_chunk_count(self.bits as int);
            assert forall|j: int| 0 <= j < self@.len() implies !self@[j] by {
                assert(!packed_pixel(self.data@, j));
            }
        }
        None
    }

    /// The position of the last set pixel, or `None` when no pixel is set.
    pub fn end(&self) -> (r: Option<usize>)
        requires
            self.wf(),
        ensures
            r is None <==> all_clear(self@),
            r matches Some(e) ==> is_last_set(self@, e as int),
    {
        proof {
            self.lemma_view_pixel();
            lemma_chunk_count(self.bits as int);
        }
        let mut i: usize = self.data.len();
        while i > 0
            invariant
                i <= self.data.len(),
                self.wf(),
                forall|j: int| #[trigger] packed_pixel(self.data@, j) == pixel_at(self@, j),
                forall|p: int| i * 64 <= p ==> !#[trigger] packed_pixel(self.data@, p),
            decreases i,
        {
            let c = self.data[i - 1];
            let lz = c.leading_zeros();
            proof {
                vstd::std_specs::bits::axiom_u64_leading_zeros(c);
            }
            if lz < 64 {
                proof {
                    let k = (63 - lz) as u64;
                    let p = (i - 1) * 64 + k;
                    lemma_split(p, i - 1, k as int);
                    assert((c >> k) & 1u64 != 0u64 ==> chunk_bit(c, k)) by (bit_vector);
                    assert(packed_pixel(self.data@, p));
                    assert forall|j: int| p < j < self@.len() implies !self@[j] by {
                        if j < i * 64 {
                            lemma_split(j, i - 1, j - (i - 1) * 64);
                            assert((c >> ((j - (i - 1) * 64) as u64)) & 1u64 == 0u64);
                        } else {
                            assert(!packed_pixel(self.data@, j));
                        }
                    }
                }
                return Some((i - 1) * 64 + (63 - lz) as usize);
            }
            proof {
                assert forall|p: int| (i - 1) * 64 <= p implies !#[trigger] packed_pixel(
                    self.data@,
                    p,
                ) by {
                    if p < i * 64 {
                        lemma_split(p, i - 1, p - (i - 1) * 64);
                        lemma_bit_zero((p - (i - 1) * 64) as u64);
                    }
                }
            }
            i -= 1;
        }
        proof {
            assert forall|j: int| 0 <= j < self@.len() implies !self@[j] by {
                assert(!packed_pixel(self.data@, j));
            }
        }
        None
    }

    /// Whether `other`, placed `segment_offset` chunks into this row, has a
    /// set pixel where this row has one too. Chunks of `other` that fall past
    /// this row's chunks are ignored.
    pub fn collision_check(&self, other: &BitLine, segment_offset: usize) -> (r: bool)
        requires
            self.wf(),
            other.wf(),
        ensures
            r == lines_overlap(self@, other@, segment_offset * 64),
    {
        proof {
            self.lemma_view_pixel();
            other.lemma_view_pixel();
            lemma_chunk_count(self.bits as int);
            lemma_chunk_count(other.bits as int);
        }
        let off = segment_offset;
        let n = self.data.len();
        if off >= n {
            proof {
                assert forall|j: int| 0 <= j < other@.len() && other@[j] implies !#[trigger] pixel_at(
                    self@,
                    off * 64 + j,
                ) by {}
            }
            return false;
        }
        let other_len = if other.data.len() <= n - off {
            other.data.len()
        } else {
            n - off
        };
        let mut i: usize = 0;
        while i < other_len
            invariant
                n == self.data.len(),
                off == segment_offset,
                off < n,
                other_len <= other.data.len(),
                other_len + off <= n,
                i <= other_len,
                forall|j: int| #[trigger] packed_pixel(self.data@, j) == pixel_at(self@, j),
                forall|j: int| #[trigger] packed_pixel(other.data@, j) == pixel_at(other@, j),
                forall|q: int, k: u64|
                    0 <= q < i && k < 64 ==> !(chunk_bit(self.data@[q + off], k)
                        && #[trigger] chunk_bit(other.data@[q], k)),
            decreases other_len - i,
        {
            let both = self.data[i + off] & other.data[i];
            proof {
                lemma_nonzero_has_bit(both);
            }
            if both != 0 {
                proof {
                    let k = choose|k: u64| k < 64 && #[trigger] chunk_bit(both, k);
                    lemma_bit_and(self.data@[i + off], other.data@[i as int], k);
                    let j: int = i * 64 + k;
                    lemma_split(j, i as int, k as int);
                    lemma_split(off * 64 + j, i + off, k as int);
                    assert(packed_pixel(other.data@, j));
                    assert(packed_pixel(self.data@, off * 64 + j));
                    assert(other@[j] && pixel_at(self@, off * 64 + j));
                }
                return true;
            }
            proof {
                assert forall|k: u64| k < 64 implies !(chunk_bit(self.data@[i + off], k)
                    && #[trigger] chunk_bit(other.data@[i as int], k)) by {
                    lemma_bit_and(self.data@[i + off], other.data@[i as int], k);
                }
            }
            i += 1;
        }
        proof {
            assert forall|j: int| 0 <= j < other@.len() && other@[j] implies !#[trigger] pixel_at(
                self@,
                off * 64 + j,
            ) by {
                let q = j / 64;
                let k = j % 64;
                lemma_split(j, q, k);
                lemma_split(off * 64 + j, q + off, k);
                assert(packed_pixel(other.data@, j));
                if pixel_at(self@, off * 64 + j) {
                    assert(packed_pixel(self.data@, off * 64 + j));
                    assert(q < other_len);
                    assert(chunk_bit(other.data@[q], k as u64));
                }
            }
        }
        false
    }

    /// Adds the set pixels of `source`, placed `segment_offset` chunks into
    /// this row. Only the chunks of `source` up to its last set pixel are read.
    pub fn add_from(&mut self, source: &BitLine, segment_offset: usize)
        requires
            old(self).wf(),
            source.wf(),
            line_fits(old(self)@, source@, segment_offset * 64),
        ensures
            final(self).wf(),
            final(self)@ == line_merged(old(self)@, source@, segment_offset * 64),
    {
        proof {
            self.lemma_view_pixel();
            source.lemma_view_pixel();
            lemma_chunk_count(self.bits as int);
            lemma_chunk_count(source.bits as int);
        }
        let off = segment_offset;
        let ghost start_data = self.data@;
        match source.end() {
            None => {
                proof {
                    assert(self@ =~= line_merged(self@, source@, off * 64));
                }
            },
            Some(e) => {
                proof {
                    vstd::arithmetic::div_mod::lemma_fundamental_div_mod(e as int, 64);
                }
                let m = e / 64 + 1;
                let mut i: usize = 0;
                while i < m
                    invariant
                        m == e / 64 + 1,
                        m <= source.data.len(),
                        m + off <= self.data.len(),
                        self.data.len() == start_data.len(),
                        self.bits == old(self).bits,
                        start_data == old(self).data@,
                        i <= m,
                        forall|p: int|
                            0 <= p < start_data.len() * 64 ==> #[trigger] packed_pixel(
                                self.data@,
                                p,
                            ) == (packed_pixel(start_data, p) || (off * 64 <= p < (off + i) * 64
                                && packed_pixel(source.data@, p - off * 64))),
                    decreases m - i,
                {
                    let ghost before = self.data@;
                    let v = self.data[i + off] | source.data[i];
                    self.data.set(i + off, v);
                    proof {
                        assert forall|p: int| 0 <= p < start_data.len() * 64 implies #[trigger] packed_pixel(
                            self.data@,
                            p,
                        ) == (packed_pixel(start_data, p) || (off * 64 <= p < (off + i + 1) * 64
                            && packed_pixel(source.data@, p - off * 64))) by {
                            let q = p / 64;
                            let k = p % 64;
                            lemma_split(p, q, k);
                            assert(packed_pixel(before, p) == (packed_pixel(start_data, p) || (off
                                * 64 <= p < (off + i) * 64 && packed_pixel(
                                source.data@,
                                p - off * 64,
                            ))));
                            if q == i + off {
                                lemma_bit_or(before[q], source.data@[i as int], k as u64);
                                lemma_split(p - off * 64, i as int, k);
                            } else {
                                assert(self.data@[q] == before[q]);
                            }
                        }
                    }
                    i += 1;
                }
                proof {
                    assert forall|p: int| 0 <= p < start_data.len() * 64 && off * 64 + m * 64 <= p
                        implies !#[trigger] packed_pixel(self.data@, p) || packed_pixel(start_data, p) by {
                        assert(!pixel_at(source@, p - off * 64));
                    }
                }
            },
        }
        proof {
            assert forall|p: int| self.bits <= p implies !#[trigger] packed_pixel(
                self.data@,
                p,
            ) by {
                assert(!packed_pixel(start_data, p));
                assert(!pixel_at(source@, p - off * 64));
            }
            assert(self@ =~= line_merged(old(self)@, source@, off * 64));
        }
    }
    /// A row read from bytes, one per pixel: any non-zero byte is a set pixel.
    pub fn from_bits(bits: &[u8]) -> (r: BitLine)
        ensures
            r.wf(),
            r@ == pixel_bools(bits@),
    {
        let len = bits.len();
        let chunkslen = BitLine::chunks_to_fit(len);
        proof {
            lemma_chunk_count(len as int);
        }
        let mut data: Vec<u64> = vec![0u64; chunkslen];
        proof {
            assert forall|i: int| #![trigger packed_pixel(data@, i)] 0 <= i < data@.len() * 64
                implies !packed_pixel(data@, i) by {
                lemma_bit_zero((i % 64) as u64);
            }
        }
        let mut idx: usize = 0;
        while idx < len
            invariant
                len == bits@.len(),
                idx <= len,
                data.len() == chunkslen,
                chunkslen == chunk_count(len as int),
                chunkslen * 64 >= len,
                forall|p: int|
                    0 <= p < chunkslen * 64 ==> #[trigger] packed_pixel(data@, p) == (p < idx
                        && bits@[p] != 0),
            decreases len - idx,
        {
            let (chunk_i, bit_i) = BitLine::chunked(idx);
            proof {
                vstd::arithmetic::div_mod::lemma_fundamental_div_mod(idx as int, 64);
            }
            if bits[idx] != 0 {
                let ghost before = data@;
                let v = data[chunk_i] | (1u64 << bit_i);
                data.set(chunk_i, v);
                proof {
                    assert forall|p: int| 0 <= p < chunkslen * 64 implies #[trigger] packed_pixel(
                        data@,
                        p,
                    ) == (p < idx + 1 && bits@[p] != 0) by {
                        let q = p / 64;
                        let k = p % 64;
                        lemma_split(p, q, k);
                        assert(packed_pixel(before, p) == (p < idx && bits@[p] != 0));
                        if q == chunk_i {
                            lemma_bit_set(before[q], bit_i as u64, k as u64);
                        } else {
                            assert(data@[q] == before[q]);
                        }
                    }
                }
            } else {
                proof {
                    assert forall|p: int| 0 <= p < chunkslen * 64 implies #[trigger] packed_pixel(
                        data@,
                        p,
                    ) == (p < idx + 1 && bits@[p] != 0) by {
                        assert(packed_pixel(data@, p) == (p < idx && bits@[p] != 0));
                    }
                }
            }
            idx += 1;
        }
        let r = BitLine { data, bits: len };
        proof {
            assert forall|p: int| len <= p implies !#[trigger] packed_pixel(r.data@, p) by {
                if p < chunkslen * 64 {
                    assert(packed_pixel(r.data@, p) == (p < len && bits@[p] != 0));
                }
            }
            assert(r@ =~= pixel_bools(bits@));
        }
        r
    }

    /// The row as bytes, one per pixel: 1 for a set pixel, 0 for a clear one.
    pub fn to_bits(&self) -> (r: Vec<u8>)
        requires
            self.wf(),
        ensures
            r@ == pixel_bytes(self@),
    {
        let mut res: Vec<u8> = Vec::with_capacity(self.bits);
        let mut p: usize = 0;
        while p < self.bits
            invariant
                p <= self.bits,
                self.wf(),
                res@ == pixel_bytes(self@.take(p as int)),
            decreases self.bits - p,
        {
            let (chunk_i, bit_i) = BitLine::chunked(p);
            proof {
                vstd::arithmetic::div_mod::lemma_fundamental_div_mod(p as int, 64);
                lemma_chunk_count(self.bits as int);
            }
            let bit = (self.data[chunk_i] >> bit_i) & 1;
            proof {
                lemma_bit_value(self.data@[chunk_i as int], bit_i as u64);
            }
            res.push(bit as u8);
            proof {
                assert(self@.take(p + 1) =~= self@.take(p as int).push(self@[p as int]));
                assert(res@ =~= pixel_bytes(self@.take(p + 1)));
            }
            p += 1;
        }
        proof {
            assert(self@.take(self.bits as int) =~= self@);
        }
        res
    }

    /// The extent of the set pixels, from the first to the last inclusive;
    /// 0 when no pixel is set.
    pub fn width(&self) -> (r: usize)
        requires
            self.wf(),
        ensures
            all_clear(self@) ==> r == 0,
            forall|s: int, e: int|
                is_first_set(self@, s) && is_last_set(self@, e) ==> r == e - s + 1,
    {
        match self.end() {
            None => 0,
            Some(end) => match self.start() {
                Some(start) => end - start + 1,
                None => 0,
            },
        }
    }

    /// The number of chunks the row is stored in.
    pub fn chunk_width(&self) -> (r: usize)
        requires
            self.wf(),
        ensures
            r == chunk_count(self@.len() as int),
    {
        self.data.len()
    }

    /// The number of chunks the row would take once moved `amount` pixels on.
    pub(crate) fn chunk_width_after_shift(&self, amount: u32) -> (r: usize)
        requires
            amount < 64,
        ensures
            r == chunk_count(self@.len() + amount),
    {
        proof {
            vstd::arithmetic::div_mod::lemma_fundamental_div_mod(self.bits as int, 64);
            vstd::arithmetic::div_mod::lemma_fundamental_div_mod(
                self.bits % 64 + amount + 63,
                64,
            );
            vstd::arithmetic::div_mod::lemma_fundamental_div_mod(self.bits + amount + 63, 64);
        }
        self.bits / 64 + BitLine::chunks_to_fit(self.bits % 64 + amount as usize)
    }
    /// The row drawn as text, one drawing per `resolution` pixels (every
    /// pixel at 1, every other one at 2); empty at a resolution of 0.
    pub fn get_display(&self, resolution: u32) -> (r: String)
        requires
            self.wf(),
        ensures
            resolution == 0 ==> r@ == Seq::<char>::empty(),
            resolution > 0 ==> r@ == glyphs(sampled(self@, resolution as int)),
    {
        let mut out = String::new();
        if resolution == 0 {
            return out;
        }
        let step = resolution as usize;
        let bytes = self.to_bits();
        let len = bytes.len();
        let ghost v = self@;
        let ghost samples = sampled(v, step as int);
        if len == 0 {
            proof {
                vstd::arithmetic::div_mod::lemma_basic_div(step - 1, step as int);
                assert(out@ =~= glyphs(samples));
            }
            return out;
        }
        let mut i: usize = 0;
        let ghost mut k: int = 0;
        loop
            invariant
                step > 0,
                step == resolution,
                v == self@,
                len == v.len(),
                len > 0,
                bytes@ == pixel_bytes(v),
                samples == sampled(v, step as int),
                i == k * step,
                0 <= k,
                i < len,
                out@ == glyphs(samples.take(k)),
            decreases len - i,
        {
            proof {
                assert(k < samples.len()) by (nonlinear_arith)
                    requires
                        i == k * step,
                        i < len,
                        step > 0,
                        samples.len() == (len + step - 1) / (step as int),
                ;
            }
            if bytes[i] == 1 {
                out.append(BIT_1);
            } else {
                out.append(BIT_0);
            }
            proof {
                assert(samples[k] == v[i as int]);
                assert(samples.take(k + 1).drop_last() =~= samples.take(k));
                assert(out@ =~= glyphs(samples.take(k + 1)));
                k = k + 1;
            }
            if len - i <= step {
                proof {
                    assert(k == samples.len()) by (nonlinear_arith)
                        requires
                            i == (k - 1) * step,
                            len - i <= step,
                            i < len,
                            step > 0,
                            samples.len() == (len + step - 1) / (step as int),
                    ;
                    assert(samples.take(k) =~= samples);
                }
                return out;
            }
            proof {
                assert(k * step == (k - 1) * step + step) by (nonlinear_arith);
            }
            i = i + step;
        }
    }
}

} // verus!
