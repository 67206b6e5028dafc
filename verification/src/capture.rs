//! Frame-buffer store, frame-ingestion protocol, region color search, and
//! coordinate remapping.
//!
//! The store holds the latest captured frame (BGRA bytes, row stride possibly
//! larger than `width * 4`), its geometry, and the capture scale. One writer
//! replaces the whole state at once; readers copy state out. Serialization of
//! concurrent access is the embedder's duty (one mutex around the store);
//! every method here is a plain sequential operation.
//!
//! The capture scale arrives on the wire as a big-endian IEEE-754
//! single-precision value. The store keeps it as an exact positive rational
//! `num / den`, so that coordinate mapping is exact integer arithmetic. A
//! wire scale that is not a positive normal number in the representable
//! range makes the frame malformed, and malformed frames are skipped.

use vstd::prelude::*;

use crate::colors::euclid_match;

verus! {

/// The signal byte announcing that a frame is ready in the shared region.
pub const SIGNAL_BYTE: u8 = 0xAA;

/// Two to the power `k`.
pub open spec fn pow2(k: int) -> int
    decreases k,
{
    if k <= 0 {
        1
    } else {
        2 * pow2(k - 1)
    }
}

proof fn lemma_pow2_pos(k: int)
    ensures
        pow2(k) >= 1,
    decreases k,
{
    if k > 0 {
        lemma_pow2_pos(k - 1);
    }
}

/// The capture scale as an exact positive rational `num / den`.
#[derive(Debug, Clone, Copy, PartialEq, Eq, Structural)]
pub struct Scale {
    pub num: u32,
    pub den: u32,
}

impl Scale {
    /// Both sides of the ratio are positive.
    pub open spec fn valid(self) -> bool {
        self.num >= 1 && self.den >= 1
    }

    /// The scale 1, used before any frame has been captured.
    pub fn one() -> (r: Scale)
        ensures
            r.valid(),
            r.num == 1,
            r.den == 1,
    {
        Scale { num: 1, den: 1 }
    }
}

/// Strips common factors of two: divides `m` by two while it is even and `k`
/// steps remain, and returns what is left of both.
pub open spec fn reduce_pow2(m: int, k: int) -> (int, int)
    decreases k,
{
    if k > 0 && m % 2 == 0 {
        reduce_pow2(m / 2, k - 1)
    } else {
        (m, k)
    }
}

proof fn lemma_reduce_pow2(m: int, k: int)
    requires
        m >= 1,
        k >= 0,
    ensures
        reduce_pow2(m, k).0 >= 1,
        0 <= reduce_pow2(m, k).1 <= k,
        reduce_pow2(m, k).0 * pow2(k) == m * pow2(reduce_pow2(m, k).1),
    decreases k,
{
    if k > 0 && m % 2 == 0 {
        let m2 = m / 2;
        assert(m == 2 * m2);
        lemma_reduce_pow2(m2, k - 1);
        let r = reduce_pow2(m2, k - 1);
        assert(r.0 * pow2(k) == 2 * (r.0 * pow2(k - 1))) by (nonlinear_arith)
            requires
                pow2(k) == 2 * pow2(k - 1),
        ;
        assert(2 * (m2 * pow2(r.1)) == m * pow2(r.1)) by (nonlinear_arith)
            requires
                m == 2 * m2,
        ;
    }
}

/// The sign bit of an IEEE-754 single-precision value.
pub open spec fn f32_sign(bits: u32) -> u32 {
    bits >> 31
}

/// The exponent field of an IEEE-754 single-precision value.
pub open spec fn f32_exp(bits: u32) -> u32 {
    (bits >> 23) & 0xFF
}

/// The fraction field of an IEEE-754 single-precision value.
pub open spec fn f32_frac(bits: u32) -> u32 {
    bits & 0x7FFFFF
}

/// The rational scale encoded by IEEE-754 single-precision bits, when the
/// value is a positive normal number `m * 2^(e - 150)` whose reduced fraction
/// fits in two `u32` words; `None` otherwise (zero, negative, subnormal,
/// infinite, not a number, or out of range).
pub open spec fn spec_scale_of_bits(bits: u32) -> Option<Scale> {
    if f32_sign(bits) != 0 || f32_exp(bits) == 0 || f32_exp(bits) == 255 {
        None
    } else {
        let m = f32_frac(bits) + 0x800000;
        let e = f32_exp(bits) as int;
        if e >= 150 {
            if e - 150 <= 8 {
                Some(Scale { num: (m * pow2(e - 150)) as u32, den: 1 })
            } else {
                None
            }
        } else {
            let r = reduce_pow2(m as int, 150 - e);
            if r.1 <= 31 {
                Some(Scale { num: r.0 as u32, den: pow2(r.1) as u32 })
            } else {
                None
            }
        }
    }
}

/// The rational value of a decoded scale equals the encoded value
/// `m * 2^(e - 150)`: cross-multiplied, `num * 2^150 == m * 2^e * den`.
pub proof fn lemma_scale_value(bits: u32)
    requires
        spec_scale_of_bits(bits) is Some,
    ensures
        spec_scale_of_bits(bits)->Some_0.valid(),
        spec_scale_of_bits(bits)->Some_0.num * pow2(150) == (f32_frac(bits) + 0x800000) * pow2(
            f32_exp(bits) as int,
        ) * spec_scale_of_bits(bits)->Some_0.den,
{
    let m = (f32_frac(bits) + 0x800000) as int;
    let e = f32_exp(bits) as int;
    assert(f32_frac(bits) < 0x800000) by (bit_vector);
    assert(f32_exp(bits) < 256) by (bit_vector);
    assert(m >= 1);
    if e >= 150 {
        let k = e - 150;
        lemma_pow2_pos(k);
        assert(pow2(e) == pow2(k) * pow2(150)) by {
            lemma_pow2_add(k, 150);
        }
        assert(m * pow2(k) * pow2(150) == m * (pow2(k) * pow2(150))) by (nonlinear_arith);
        lemma_pow2_monotone(k, 8);
        assert(pow2(8) == 256) by {
            reveal_with_fuel(pow2, 10);
        }
        assert(m * pow2(k) <= 0xFFFFFF * 256) by (nonlinear_arith)
            requires
                0 <= m <= 0xFFFFFF,
                1 <= pow2(k) <= 256,
        ;
        assert(m * pow2(k) >= m) by (nonlinear_arith)
            requires
                pow2(k) >= 1,
                m >= 1,
        ;
    } else {
        let k = 150 - e;
        let r = reduce_pow2(m, k);
        lemma_reduce_pow2(m, k);
        lemma_pow2_pos(r.1);
        // r.0 * pow2(k) == m * pow2(r.1), so
        // r.0 * pow2(150) == r.0 * pow2(k) * pow2(e) == m * pow2(e) * pow2(r.1)
        assert(pow2(150) == pow2(k) * pow2(e)) by {
            lemma_pow2_add(k, e);
        }
        assert(r.0 * (pow2(k) * pow2(e)) == (r.0 * pow2(k)) * pow2(e)) by (nonlinear_arith);
        assert((m * pow2(r.1)) * pow2(e) == m * pow2(e) * pow2(r.1)) by (nonlinear_arith);
        assert(pow2(r.1) <= pow2(31)) by {
            lemma_pow2_monotone(r.1, 31);
        }
        assert(pow2(31) == 0x80000000) by {
            reveal_with_fuel(pow2, 33);
        }
        lemma_pow2_monotone(r.1, k);
        assert(r.0 <= m) by (nonlinear_arith)
            requires
                r.0 * pow2(k) == m * pow2(r.1),
                1 <= pow2(r.1) <= pow2(k),
                r.0 >= 1,
                m >= 1,
        ;
        assert(r.0 * pow2(k) == m * pow2(r.1));
    }
}

proof fn lemma_pow2_add(a: int, b: int)
    requires
        a >= 0,
        b >= 0,
    ensures
        pow2(a + b) == pow2(a) * pow2(b),
    decreases a,
{
    if a > 0 {
        lemma_pow2_add(a - 1, b);
        assert(2 * (pow2(a - 1) * pow2(b)) == (2 * pow2(a - 1)) * pow2(b)) by (nonlinear_arith);
    }
}

proof fn lemma_pow2_monotone(a: int, b: int)
    requires
        a <= b,
    ensures
        pow2(a) <= pow2(b),
    decreases b,
{
    if a < b && b > 0 {
        lemma_pow2_monotone(a, b - 1);
        lemma_pow2_pos(b - 1);
    }
}

/// Reads the scale out of IEEE-754 single-precision bits, exactly.
pub fn scale_from_bits(bits: u32) -> (r: Option<Scale>)
    ensures
        r == spec_scale_of_bits(bits),
        r is Some ==> r->Some_0.valid(),
{
    let sign = bits >> 31;
    let exp = (bits >> 23) & 0xFF;
    let frac = bits & 0x7FFFFF;
    if sign != 0 || exp == 0 || exp == 255 {
        return None;
    }
    proof {
        assert(bits & 0x7FFFFF < 0x800000) by (bit_vector);
    }
    let m0: u32 = frac + 0x800000;
    if exp >= 150 {
        let e: u32 = exp - 150;
        if e <= 8 {
            let mut num: u32 = m0;
            let mut i: u32 = 0;
            while i < e
                invariant
                    0 <= i <= e,
                    e <= 8,
                    m0 < 0x1000000,
                    num == m0 * pow2(i as int),
                decreases e - i,
            {
                proof {
                    lemma_pow2_pos(i + 1);
                    lemma_pow2_monotone(i + 1, 8);
                    assert(pow2(8) == 256) by {
                        reveal_with_fuel(pow2, 10);
                    }
                    assert(m0 * pow2(i + 1) <= 0xFFFFFF * 256) by (nonlinear_arith)
                        requires
                            0 <= m0 <= 0xFFFFFF,
                            1 <= pow2(i + 1) <= 256,
                    ;
                    assert(m0 * pow2(i + 1) == 2 * (m0 * pow2(i as int))) by (nonlinear_arith)
                        requires
                            pow2(i + 1) == 2 * pow2(i as int),
                    ;
                }
                num = num * 2;
                i = i + 1;
            }
            proof {
                lemma_pow2_pos(e as int);
                assert(num >= 1) by (nonlinear_arith)
                    requires
                        num == m0 * pow2(e as int),
                        m0 >= 1,
                        pow2(e as int) >= 1,
                ;
            }
            Some(Scale { num, den: 1 })
        } else {
            None
        }
    } else {
        let mut m: u32 = m0;
        let mut k: u32 = 150 - exp;
        while k > 0 && m % 2 == 0
            invariant
                m >= 1,
                reduce_pow2(m as int, k as int) == reduce_pow2(m0 as int, (150 - exp) as int),
            decreases k,
        {
            m = m / 2;
            k = k - 1;
        }
        if k <= 31 {
            let mut den: u32 = 1;
            let mut i: u32 = 0;
            while i < k
                invariant
                    0 <= i <= k,
                    k <= 31,
                    den == pow2(i as int),
                decreases k - i,
            {
                proof {
                    lemma_pow2_monotone(i + 1, 31);
                    assert(pow2(31) == 0x80000000) by {
                        reveal_with_fuel(pow2, 33);
                    }
                }
                den = den * 2;
                i = i + 1;
            }
            proof {
                lemma_reduce_pow2(m0 as int, (150 - exp) as int);
                lemma_pow2_pos(k as int);
            }
            Some(Scale { num: m, den })
        } else {
            None
        }
    }
}

/// A big-endian 32-bit word.
pub open spec fn be32(b0: u8, b1: u8, b2: u8, b3: u8) -> u32 {
    (b0 * 0x1000000 + b1 * 0x10000 + b2 * 0x100 + b3) as u32
}

/// The width field of a frame header.
pub open spec fn header_width(r: Seq<u8>) -> u32 {
    be32(r[0], r[1], r[2], r[3])
}

/// The height field of a frame header.
pub open spec fn header_height(r: Seq<u8>) -> u32 {
    be32(r[4], r[5], r[6], r[7])
}

/// The scale bits of a frame header.
pub open spec fn header_scale_bits(r: Seq<u8>) -> u32 {
    be32(r[8], r[9], r[10], r[11])
}

/// Whether a signaled shared region carries a frame that must be applied:
/// the signal byte announces a frame, the region holds the full header and
/// payload, and the scale decodes to a positive rational. Anything else is
/// skipped.
pub open spec fn spec_frame_ok(signal: u8, r: Seq<u8>) -> bool {
    &&& signal == SIGNAL_BYTE
    &&& r.len() >= 12
    &&& spec_scale_of_bits(header_scale_bits(r)) is Some
    &&& r.len() >= 12 + 4 * (header_width(r) * header_height(r))
    &&& 4 * header_width(r) <= usize::MAX
}

/// The frame-buffer store: the latest captured frame and its geometry.
/// `data` is empty until a frame arrives; when non-empty it holds
/// `stride * height` BGRA bytes.
pub struct FrameStore {
    pub data: Vec<u8>,
    pub width: usize,
    pub height: usize,
    pub stride: usize,
    pub scale: Scale,
}

impl FrameStore {
    /// The store's invariant: geometry agrees with the byte count, and the
    /// scale is a positive rational.
    pub open spec fn wf(self) -> bool {
        (self.data@.len() == 0 || self.data@.len() == self.stride * self.height)
            && self.scale.valid()
    }

    /// A store with no frame captured yet and scale 1.
    pub fn new() -> (r: FrameStore)
        ensures
            r.wf(),
            r.data@.len() == 0,
            r.scale.num == 1,
            r.scale.den == 1,
    {
        FrameStore { data: Vec::new(), width: 0, height: 0, stride: 0, scale: Scale::one() }
    }

    /// Swaps the whole state at once: frame bytes, geometry, and scale. This
    /// is the store's only mutation; no partial update is ever observable.
    pub fn ingest_frame(
        &mut self,
        bytes: Vec<u8>,
        width: usize,
        height: usize,
        stride: usize,
        scale: Scale,
    )
        requires
            scale.valid(),
            bytes@.len() == 0 || bytes@.len() == stride * height,
        ensures
            final(self).wf(),
            final(self).data@ == bytes@,
            final(self).width == width,
            final(self).height == height,
            final(self).stride == stride,
            final(self).scale == scale,
    {
        self.data = bytes;
        self.width = width;
        self.height = height;
        self.stride = stride;
        self.scale = scale;
    }

    /// Copies the whole state out: frame bytes, geometry, and scale.
    pub fn snapshot(&self) -> (r: (Vec<u8>, usize, usize, usize, Scale))
        ensures
            r.0@ == self.data@,
            r.1 == self.width,
            r.2 == self.height,
            r.3 == self.stride,
            r.4 == self.scale,
    {
        (
            crate::img::copy_bytes(&self.data),
            self.width,
            self.height,
            self.stride,
            self.scale,
        )
    }
}


/// The smaller of two integers.
pub open spec fn min_int(a: int, b: int) -> int {
    if a < b {
        a
    } else {
        b
    }
}

/// Magnitude of an integer.
pub open spec fn abs_int(v: int) -> int {
    if v >= 0 {
        v
    } else {
        -v
    }
}

/// Whether the BGRA pixel whose first byte sits at offset `y * stride + 4 * x`
/// exists in the buffer and, with its BGR bytes reordered to RGB, matches the
/// target within the tolerance (Euclidean mode).
pub open spec fn match_at(
    pixels: Seq<u8>,
    stride: int,
    x: int,
    y: int,
    target: (u8, u8, u8),
    tolerance: u8,
) -> bool {
    let off = y * stride + 4 * x;
    &&& 0 <= off
    &&& off + 3 < pixels.len()
    &&& euclid_match(
        pixels[off + 2],
        pixels[off + 1],
        pixels[off],
        target.0,
        target.1,
        target.2,
        tolerance,
    )
}

/// No pixel of the rectangle `[sx, ex) x [sy, ey)` matches.
pub open spec fn no_match_in(
    pixels: Seq<u8>,
    stride: int,
    target: (u8, u8, u8),
    tolerance: u8,
    sx: int,
    ex: int,
    sy: int,
    ey: int,
) -> bool {
    forall|x: int, y: int|
        sx <= x < ex && sy <= y < ey ==> !#[trigger] match_at(pixels, stride, x, y, target, tolerance)
}

/// Some pixel of the rectangle `[sx, ex) x [sy, ey)` matches.
pub open spec fn any_match_in(
    pixels: Seq<u8>,
    stride: int,
    target: (u8, u8, u8),
    tolerance: u8,
    sx: int,
    ex: int,
    sy: int,
    ey: int,
) -> bool {
    exists|x: int, y: int|
        sx <= x < ex && sy <= y < ey && #[trigger] match_at(pixels, stride, x, y, target, tolerance)
}

/// The result `r` is the first matching pixel of the rectangle
/// `[sx, ex) x [sy, ey)` in row-major scan order (top to bottom, left to
/// right), or nothing when no pixel of the rectangle matches.
pub open spec fn finds_first(
    pixels: Seq<u8>,
    stride: int,
    target: (u8, u8, u8),
    tolerance: u8,
    sx: int,
    ex: int,
    sy: int,
    ey: int,
    r: Option<(i32, i32)>,
) -> bool {
    match r {
        None => no_match_in(pixels, stride, target, tolerance, sx, ex, sy, ey),
        Some(p) => exists|x: int, y: int|
            {
                &&& sx <= x < ex
                &&& sy <= y < ey
                &&& #[trigger] match_at(pixels, stride, x, y, target, tolerance)
                &&& p.0 == x as i32
                &&& p.1 == y as i32
                &&& no_match_in(pixels, stride, target, tolerance, sx, ex, sy, y)
                &&& no_match_in(pixels, stride, target, tolerance, sx, x, y, y + 1)
            },
    }
}

/// A result that is the first match of a rectangle exists exactly when some
/// pixel of the rectangle matches.
pub proof fn lemma_finds_first_some(
    pixels: Seq<u8>,
    stride: int,
    target: (u8, u8, u8),
    tolerance: u8,
    sx: int,
    ex: int,
    sy: int,
    ey: int,
    r: Option<(i32, i32)>,
)
    requires
        finds_first(pixels, stride, target, tolerance, sx, ex, sy, ey, r),
    ensures
        r is Some <==> any_match_in(pixels, stride, target, tolerance, sx, ex, sy, ey),
{
}

proof fn lemma_mul_nonneg(a: int, b: int)
    requires
        a >= 0,
        b >= 0,
    ensures
        a * b >= 0,
{
    assert(a * b >= 0) by (nonlinear_arith)
        requires
            a >= 0,
            b >= 0,
    ;
}

/// Scans the rectangle in row-major order for the first pixel matching the
/// target within the tolerance. The row range is clipped to the buffer
/// height; a pixel whose four bytes are not fully inside the buffer is
/// skipped.
#[verifier::loop_isolation(false)]
pub fn find_color_in_buffer(
    pixels: &Vec<u8>,
    _buffer_width: usize,
    buffer_height: usize,
    stride: usize,
    target_rgb: (u8, u8, u8),
    tolerance: u8,
    search_rect: (usize, usize, usize, usize),
) -> (r: Option<(i32, i32)>)
    ensures
        finds_first(
            pixels@,
            stride as int,
            target_rgb,
            tolerance,
            search_rect.0 as int,
            search_rect.0 + search_rect.2,
            search_rect.1 as int,
            min_int(search_rect.1 + search_rect.3, buffer_height as int),
            r,
        ),
{
    let (sx, sy, w, h) = search_rect;
    let len = pixels.len();
    let ghost ex_spec: int = sx + w;
    let ghost ey_spec: int = min_int(sy + h, buffer_height as int);
    let end_y: usize = {
        let s: u128 = sy as u128 + h as u128;
        let bh: u128 = buffer_height as u128;
        if s < bh {
            s as usize
        } else {
            buffer_height
        }
    };
    let ex_cap: usize = {
        let s: u128 = sx as u128 + w as u128;
        if s <= len as u128 {
            s as usize
        } else if len > sx {
            len
        } else {
            sx
        }
    };
    let mut y: usize = sy;
    while y < end_y
        invariant
            sy <= y,
            y <= end_y || y == sy,
            end_y as int == ey_spec,
            len == pixels@.len(),
            ex_cap <= ex_spec,
            ex_cap as int == ex_spec || ex_cap >= len,
            ex_cap >= sx,
            no_match_in(pixels@, stride as int, target_rgb, tolerance, sx as int, ex_spec, sy as int, y as int),
        decreases end_y - y,
    {
        proof {
            lemma_mul_nonneg(y as int, stride as int);
            assert((y as int) * (stride as int) < 0x100000000000000000000000000000000 - 4) by (nonlinear_arith)
                requires
                    0 <= (y as int) && (y as int) < 0x10000000000000000,
                    0 <= (stride as int) && (stride as int) < 0x10000000000000000,
            ;
        }
        let row128: u128 = (y as u128) * (stride as u128);
        if row128 + 3 < len as u128 {
            let mut x: usize = sx;
            while x < ex_cap
                invariant
                    sx <= x <= ex_cap,
                    len == pixels@.len(),
                    sy <= y < end_y,
                    end_y as int == ey_spec,
                    ex_cap <= ex_spec,
                    ex_cap as int == ex_spec || ex_cap >= len,
                    ex_cap >= sx,
                    row128 == y as int * stride as int,
                    row128 + 3 < len,
                    no_match_in(pixels@, stride as int, target_rgb, tolerance, sx as int, ex_spec, sy as int, y as int),
                    no_match_in(pixels@, stride as int, target_rgb, tolerance, sx as int, x as int, y as int, y + 1),
                decreases ex_cap - x,
            {
                let off128: u128 = row128 + 4 * (x as u128);
                if off128 + 3 < len as u128 {
                    let off: usize = off128 as usize;
                    let bb = pixels[off];
                    let gg = pixels[off + 1];
                    let rr = pixels[off + 2];
                    if crate::colors::is_color_match(
                        rr,
                        gg,
                        bb,
                        target_rgb.0,
                        target_rgb.1,
                        target_rgb.2,
                        tolerance,
                    ) {
                        proof {
                            let gx = x as int;
                            let gy = y as int;
                            assert(match_at(pixels@, stride as int, gx, gy, target_rgb, tolerance));
                            assert(sx as int <= gx && gx < ex_spec);
                            assert(sy as int <= gy && gy < ey_spec);
                            assert(no_match_in(pixels@, stride as int, target_rgb, tolerance, sx as int, ex_spec, sy as int, gy));
                            assert(no_match_in(pixels@, stride as int, target_rgb, tolerance, sx as int, gx, gy, gy + 1));
                        }
                        return Some((x as i32, y as i32));
                    }
                }
                proof {
                    assert(!match_at(pixels@, stride as int, x as int, y as int, target_rgb, tolerance));
                    assert forall|x2: int, y2: int|
                        sx <= x2 < x + 1 && y <= y2 < y + 1 implies !match_at(
                        pixels@,
                        stride as int,
                        x2,
                        y2,
                        target_rgb,
                        tolerance,
                    ) by {
                        if x2 < x {
                            assert(!match_at(pixels@, stride as int, x2, y2, target_rgb, tolerance));
                        }
                    }
                }
                x = x + 1;
            }
            proof {
                assert forall|x2: int, y2: int|
                    sx <= x2 < ex_spec && y <= y2 < y + 1 implies !match_at(
                    pixels@,
                    stride as int,
                    x2,
                    y2,
                    target_rgb,
                    tolerance,
                ) by {
                    if x2 >= ex_cap {
                        assert(x2 >= len);
                        assert(y2 * (stride as int) + 4 * x2 + 3 >= 4 * len + 3) by (nonlinear_arith)
                            requires
                                y2 >= 0,
                                stride as int >= 0,
                                x2 >= len,
                        ;
                    } else {
                        assert(!match_at(pixels@, stride as int, x2, y2, target_rgb, tolerance));
                    }
                }
            }
        } else {
            proof {
                assert forall|x2: int, y2: int|
                    sx <= x2 < ex_spec && y <= y2 < y + 1 implies !match_at(
                    pixels@,
                    stride as int,
                    x2,
                    y2,
                    target_rgb,
                    tolerance,
                ) by {
                    assert(4 * x2 >= 0);
                    assert(y2 * (stride as int) >= y as int * stride as int) by (nonlinear_arith)
                        requires
                            y2 >= y,
                            stride as int >= 0,
                            y >= 0,
                    ;
                }
            }
        }
        proof {
            assert forall|x2: int, y2: int|
                sx <= x2 < ex_spec && sy <= y2 < y + 1 implies !match_at(
                pixels@,
                stride as int,
                x2,
                y2,
                target_rgb,
                tolerance,
            ) by {
                if y2 < y {
                    assert(!match_at(pixels@, stride as int, x2, y2, target_rgb, tolerance));
                } else {
                    assert(!match_at(pixels@, stride as int, x2, y2, target_rgb, tolerance));
                }
            }
        }
        y = y + 1;
    }
    None
}


/// A device-space coordinate divided by the scale `num / den`, truncating
/// toward zero: negative coordinates land at 0, and results beyond the
/// machine's address range saturate.
pub open spec fn div_scale(c: int, num: int, den: int) -> int {
    if c <= 0 {
        0
    } else {
        let q = (c * den) / num;
        if q > usize::MAX {
            usize::MAX as int
        } else {
            q
        }
    }
}

/// Divides one device-space coordinate by the scale.
fn div_by_scale(c: i32, s: &Scale) -> (r: usize)
    requires
        s.valid(),
    ensures
        r == div_scale(c as int, s.num as int, s.den as int),
{
    if c <= 0 {
        0
    } else {
        proof {
            assert((c as int) * (s.den as int) < 0x8000000000000000) by (nonlinear_arith)
                requires
                    0 <= (c as int) && (c as int) < 0x80000000,
                    0 <= (s.den as int) && (s.den as int) < 0x100000000,
            ;
        }
        let p: u64 = (c as u64) * (s.den as u64);
        let q: u64 = p / (s.num as u64);
        if q > usize::MAX as u64 {
            usize::MAX
        } else {
            q as usize
        }
    }
}

/// The search rectangle in buffer space: a supplied rectangle is divided by
/// the scale coordinate by coordinate; no rectangle means the whole buffer.
pub open spec fn spec_region_rect(
    region: Option<Vec<i32>>,
    s: Scale,
    w: int,
    h: int,
) -> (int, int, int, int) {
    match region {
        Some(v) => (
            div_scale(v@[0] as int, s.num as int, s.den as int),
            div_scale(v@[1] as int, s.num as int, s.den as int),
            div_scale(v@[2] as int, s.num as int, s.den as int),
            div_scale(v@[3] as int, s.num as int, s.den as int),
        ),
        None => (0, 0, w, h),
    }
}

/// One coordinate scaled up to device space: `v * num / den`, rounded to the
/// nearest integer with ties away from zero.
pub open spec fn scaled_round(v: int, num: int, den: int) -> int {
    let q = (2 * abs_int(v) * num + den) / (2 * den);
    if v >= 0 {
        q
    } else {
        -q
    }
}

/// An integer clamped into the 32-bit signed range.
pub open spec fn clamp_i32(v: int) -> int {
    if v > i32::MAX {
        i32::MAX as int
    } else if v < i32::MIN {
        i32::MIN as int
    } else {
        v
    }
}

/// A buffer-space coordinate mapped to device space by the scale: scaled,
/// rounded, and clamped into the 32-bit range.
pub open spec fn spec_map_coord(v: int, s: Scale) -> int {
    clamp_i32(scaled_round(v, s.num as int, s.den as int))
}

/// Maps one buffer-space coordinate to device space.
fn map_one(v: i32, s: &Scale) -> (r: i32)
    requires
        s.valid(),
    ensures
        r as int == spec_map_coord(v as int, *s),
{
    let mag: u64 = if v >= 0 {
        v as u64
    } else {
        (-(v as i64)) as u64
    };
    proof {
        assert(mag == abs_int(v as int));
        assert((mag as int) * (s.num as int) <= 0x80000000 * 0xFFFFFFFF) by (nonlinear_arith)
            requires
                0 <= (mag as int) && (mag as int) <= 0x80000000,
                0 <= (s.num as int) && (s.num as int) < 0x100000000,
        ;
    }
    let p: u64 = mag * (s.num as u64);
    let q: u64 = (2 * p + (s.den as u64)) / (2 * (s.den as u64));
    proof {
        assert(2 * (mag as int) * (s.num as int) == 2 * ((mag as int) * (s.num as int)))
            by (nonlinear_arith);
    }
    if v >= 0 {
        if q > i32::MAX as u64 {
            i32::MAX
        } else {
            q as i32
        }
    } else {
        if q >= 2147483648u64 {
            i32::MIN
        } else {
            -(q as i32)
        }
    }
}

impl FrameStore {
    /// Finds the first pixel of the (possibly scaled) search region matching
    /// the target within the tolerance, in row-major scan order; nothing when
    /// no frame has been captured or no pixel matches. A supplied region is
    /// in device-real coordinates — four values, left, top, width, height —
    /// and is divided by the current scale first.
    pub fn find_color_helper(
        &self,
        target_rgb: (u8, u8, u8),
        tolerance: u8,
        region: Option<Vec<i32>>,
    ) -> (r: Option<(i32, i32)>)
        requires
            self.wf(),
            region matches Some(v) ==> v@.len() >= 4,
        ensures
            self.data@.len() == 0 ==> r is None,
            self.data@.len() > 0 ==> finds_first(
                self.data@,
                self.stride as int,
                target_rgb,
                tolerance,
                spec_region_rect(region, self.scale, self.width as int, self.height as int).0,
                spec_region_rect(region, self.scale, self.width as int, self.height as int).0
                    + spec_region_rect(region, self.scale, self.width as int, self.height as int).2,
                spec_region_rect(region, self.scale, self.width as int, self.height as int).1,
                min_int(
                    spec_region_rect(region, self.scale, self.width as int, self.height as int).1
                        + spec_region_rect(
                        region,
                        self.scale,
                        self.width as int,
                        self.height as int,
                    ).3,
                    self.height as int,
                ),
                r,
            ),
    {
        if self.data.len() == 0 {
            return None;
        }
        let rect: (usize, usize, usize, usize) = match &region {
            Some(v) => (
                div_by_scale(v[0], &self.scale),
                div_by_scale(v[1], &self.scale),
                div_by_scale(v[2], &self.scale),
                div_by_scale(v[3], &self.scale),
            ),
            None => (0, 0, self.width, self.height),
        };
        find_color_in_buffer(
            &self.data,
            self.width,
            self.height,
            self.stride,
            target_rgb,
            tolerance,
            rect,
        )
    }

    /// Maps buffer-space coordinates to device-real coordinates using the
    /// current scale, both coordinates from the same state.
    pub fn map_coordinates(&self, x: i32, y: i32) -> (r: (i32, i32))
        requires
            self.wf(),
        ensures
            r.0 as int == spec_map_coord(x as int, self.scale),
            r.1 as int == spec_map_coord(y as int, self.scale),
    {
        (map_one(x, &self.scale), map_one(y, &self.scale))
    }

    /// Decodes a signaled shared-memory region and applies the frame it
    /// holds. A signal other than the frame-ready byte, a region shorter
    /// than the header plus payload, or a malformed scale leaves the store
    /// untouched; nothing is ever partially applied.
    pub fn ingest_signaled(&mut self, signal: u8, region: &Vec<u8>) -> (applied: bool)
        requires
            old(self).wf(),
        ensures
            final(self).wf(),
            applied == spec_frame_ok(signal, region@),
            !applied ==> *final(self) == *old(self),
            applied ==> final(self).width == header_width(region@) as int
                && final(self).height == header_height(region@) as int
                && final(self).stride == 4 * header_width(region@)
                && final(self).scale == spec_scale_of_bits(header_scale_bits(region@))->Some_0
                && final(self).data@ == region@.subrange(
                12,
                12 + 4 * (header_width(region@) * header_height(region@)),
            ),
    {
        if signal != SIGNAL_BYTE {
            return false;
        }
        let n = region.len();
        if n < 12 {
            return false;
        }
        let w32 = be32_word(region[0], region[1], region[2], region[3]);
        let h32 = be32_word(region[4], region[5], region[6], region[7]);
        let sbits = be32_word(region[8], region[9], region[10], region[11]);
        let scale = match scale_from_bits(sbits) {
            Some(s) => s,
            None => {
                return false;
            },
        };
        proof {
            assert((w32 as int) * (h32 as int) <= 0xFFFFFFFF * 0xFFFFFFFF) by (nonlinear_arith)
                requires
                    0 <= (w32 as int) && (w32 as int) < 0x100000000,
                    0 <= (h32 as int) && (h32 as int) < 0x100000000,
            ;
            lemma_mul_nonneg(w32 as int, h32 as int);
            assert((4 * (w32 as int)) * (h32 as int) <= 0x400000000 * 0x100000000)
                by (nonlinear_arith)
                requires
                    0 <= (w32 as int) && (w32 as int) < 0x100000000,
                    0 <= (h32 as int) && (h32 as int) < 0x100000000,
            ;
            lemma_mul_nonneg(4 * (w32 as int), h32 as int);
        }
        let fsz128: u128 = 4u128 * (w32 as u128) * (h32 as u128);
        proof {
            assert(4 * (w32 as int) * (h32 as int) == 4 * ((w32 as int) * (h32 as int)))
                by (nonlinear_arith);
        }
        if (n as u128) < 12u128 + fsz128 {
            return false;
        }
        if 4u128 * (w32 as u128) > usize::MAX as u128 {
            return false;
        }
        let fsz: usize = fsz128 as usize;
        let mut bytes: Vec<u8> = Vec::new();
        let mut i: usize = 0;
        while i < fsz
            invariant
                0 <= i <= fsz,
                fsz + 12 <= n,
                n == region@.len(),
                bytes@ =~= region@.subrange(12, 12 + i as int),
            decreases fsz - i,
        {
            bytes.push(region[12 + i]);
            i = i + 1;
        }
        proof {
            assert(bytes@ =~= region@.subrange(12, 12 + fsz as int));
            assert((4 * (w32 as int)) * (h32 as int) == 4 * ((w32 as int) * (h32 as int)))
                by (nonlinear_arith);
        }
        self.data = bytes;
        self.width = w32 as usize;
        self.height = h32 as usize;
        self.stride = (4u128 * (w32 as u128)) as usize;
        self.scale = scale;
        true
    }
}

/// Builds a 32-bit word out of four big-endian bytes.
fn be32_word(b0: u8, b1: u8, b2: u8, b3: u8) -> (r: u32)
    ensures
        r == be32(b0, b1, b2, b3),
{
    (b0 as u32) * 0x1000000 + (b1 as u32) * 0x10000 + (b2 as u32) * 0x100 + (b3 as u32)
}

/// Mapping with scale 1 is the identity on every 32-bit coordinate.
pub proof fn lemma_map_identity(v: int, s: Scale)
    requires
        s.valid(),
        s.num == s.den,
        i32::MIN <= v <= i32::MAX,
    ensures
        spec_map_coord(v, s) == v,
{
    let n = s.num as int;
    assert((2 * abs_int(v) * n + n) / (2 * n) == abs_int(v)) by (nonlinear_arith)
        requires
            n >= 1,
            abs_int(v) >= 0,
    ;
}

} // verus!
