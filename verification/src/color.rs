//! Fixed-point laser colors.
//!
//! A laser carries an RGB color.  Each channel is a fixed-point value in
//! units of 1/65280 of full intensity, so that the 255-step scale the level
//! format stores colors in maps exactly onto whole units of 256.  Mixing two
//! colors averages them channel-wise and then normalizes the result to unit
//! Euclidean length (in fixed-point, rounding down); goal matching compares
//! channels under an absolute tolerance of two steps of the 255-step scale.

use vstd::prelude::*;

verus! {

/// Fixed-point value of a full-intensity channel: 255 * 256.
pub const CHANNEL_FULL: u32 = 65280;

/// Goal-matching tolerance per channel: 2/255 of full intensity.
pub const CHANNEL_TOLERANCE: u32 = 512;

/// An RGB color with fixed-point channels; see the module doc.
#[derive(Clone, Copy, Debug, PartialEq, Eq, Structural)]
pub struct Color {
    pub r: u32,
    pub g: u32,
    pub b: u32,
}

impl Color {
    /// Every channel is at most full intensity.
    pub open spec fn wf(self) -> bool {
        self.r <= CHANNEL_FULL && self.g <= CHANNEL_FULL && self.b <= CHANNEL_FULL
    }

    /// The color an 8-bit-per-channel triple stands for.
    pub open spec fn from_rgb8_spec(r: u8, g: u8, b: u8) -> Color {
        Color { r: (r as u32 * 256) as u32, g: (g as u32 * 256) as u32, b: (b as u32 * 256) as u32 }
    }

    /// Scales an 8-bit-per-channel triple, as read from level data, onto the
    /// fixed-point scale.
    pub fn from_rgb8(r: u8, g: u8, b: u8) -> (c: Color)
        ensures
            c == Color::from_rgb8_spec(r, g, b),
            c.wf(),
    {
        Color { r: r as u32 * 256, g: g as u32 * 256, b: b as u32 * 256 }
    }
}

/// The squared Euclidean length of a color vector.
pub open spec fn norm_sq(r: int, g: int, b: int) -> int {
    r * r + g * g + b * b
}

/// Whether `r` is the integer square root, rounded down, of `n`.
pub open spec fn is_sqrt_floor(n: int, r: int) -> bool {
    0 <= r && r * r <= n && n < (r + 1) * (r + 1)
}

/// The integer square root of `n`, rounded down.
pub open spec fn sqrt_floor(n: int) -> int {
    choose|r: int| is_sqrt_floor(n, r)
}

/// The integer square root is unique.
pub proof fn lemma_sqrt_floor_unique(n: int, r1: int, r2: int)
    requires
        is_sqrt_floor(n, r1),
        is_sqrt_floor(n, r2),
    ensures
        r1 == r2,
{
    assert(r1 == r2) by (nonlinear_arith)
        requires
            is_sqrt_floor(n, r1),
            is_sqrt_floor(n, r2),
    ;
}

/// A witness pins down `sqrt_floor`.
pub proof fn lemma_sqrt_floor_is(n: int, r: int)
    requires
        is_sqrt_floor(n, r),
    ensures
        sqrt_floor(n) == r,
{
    assert(is_sqrt_floor(n, sqrt_floor(n)));
    lemma_sqrt_floor_unique(n, sqrt_floor(n), r);
}

/// Integer square root, rounded down, by binary search.
pub fn isqrt64(n: u64) -> (r: u64)
    ensures
        is_sqrt_floor(n as int, r as int),
        r == sqrt_floor(n as int),
{
    let mut lo: u64 = 0;
    let mut hi: u64 = 0x1_0000_0000;
    while lo + 1 < hi
        invariant
            lo < hi <= 0x1_0000_0000,
            lo as int * lo as int <= n as int,
            (n as int) < hi as int * hi as int,
        decreases hi - lo,
    {
        let mid: u64 = lo + (hi - lo) / 2;
        proof {
            assert(mid as int * mid as int <= 0x1_0000_0000 * 0x1_0000_0000) by (nonlinear_arith)
                requires
                    0 <= mid as int <= 0x1_0000_0000,
            ;
        }
        if (mid as u128) * (mid as u128) <= n as u128 {
            lo = mid;
        } else {
            hi = mid;
        }
    }
    assert(is_sqrt_floor(n as int, lo as int));
    proof {
        lemma_sqrt_floor_is(n as int, lo as int);
    }
    lo
}

/// The channel-wise average of two colors, rounded down.
pub open spec fn average_spec(a: Color, b: Color) -> Color {
    Color {
        r: ((a.r + b.r) / 2) as u32,
        g: ((a.g + b.g) / 2) as u32,
        b: ((a.b + b.b) / 2) as u32,
    }
}

/// `c` scaled to unit Euclidean length on the fixed-point scale, rounding
/// down; the zero color stays zero.
pub open spec fn normalize_spec(c: Color) -> Color {
    let n = sqrt_floor(norm_sq(c.r as int, c.g as int, c.b as int));
    if n == 0 {
        c
    } else {
        Color {
            r: (c.r * CHANNEL_FULL / n) as u32,
            g: (c.g * CHANNEL_FULL / n) as u32,
            b: (c.b * CHANNEL_FULL / n) as u32,
        }
    }
}

/// The color a mixer emits for inputs `a` and `b`: their normalized average.
pub open spec fn mix_spec(a: Color, b: Color) -> Color {
    normalize_spec(average_spec(a, b))
}

/// The square root of a sum of squares bounds each summand.
proof fn lemma_sqrt_bounds_channel(c: int, n: int, s: int)
    requires
        0 <= c,
        c * c <= n,
        is_sqrt_floor(n, s),
    ensures
        c <= s,
{
    assert(c <= s) by (nonlinear_arith)
        requires
            0 <= c,
            c * c <= n,
            is_sqrt_floor(n, s),
    ;
}

/// One channel of the normalization: `c * CHANNEL_FULL / n`.
fn normalize_channel(c: u32, n: u64) -> (out: u32)
    requires
        0 < n,
        c as int <= n as int,
        c <= CHANNEL_FULL,
    ensures
        out == c as int * CHANNEL_FULL as int / n as int,
        out <= CHANNEL_FULL,
{
    proof {
        assert(c as int * CHANNEL_FULL as int <= 65280 * 65280) by (nonlinear_arith)
            requires
                0 <= c as int <= 65280,
        ;
    }
    let wide: u64 = (c as u64) * (CHANNEL_FULL as u64);
    let out: u64 = wide / n;
    assert(out <= CHANNEL_FULL) by (nonlinear_arith)
        requires
            0 < n,
            c as int <= n as int,
            wide == c as int * CHANNEL_FULL as int,
            out == wide as int / n as int,
    ;
    out as u32
}

/// Mixes two colors: channel-wise average, then normalization to unit
/// length.  This is what a mixer device emits.
pub fn mix(a: Color, b: Color) -> (out: Color)
    requires
        a.wf(),
        b.wf(),
    ensures
        out == mix_spec(a, b),
        out.wf(),
{
    let avg = Color { r: (a.r + b.r) / 2, g: (a.g + b.g) / 2, b: (a.b + b.b) / 2 };
    assert(avg == average_spec(a, b));
    proof {
        assert(avg.r as int * avg.r as int <= 65280 * 65280 && avg.g as int * avg.g as int <= 65280
            * 65280 && avg.b as int * avg.b as int <= 65280 * 65280) by (nonlinear_arith)
            requires
                0 <= avg.r as int <= 65280,
                0 <= avg.g as int <= 65280,
                0 <= avg.b as int <= 65280,
        ;
    }
    let nsq: u64 = (avg.r as u64) * (avg.r as u64) + (avg.g as u64) * (avg.g as u64) + (avg.b
        as u64) * (avg.b as u64);
    assert(nsq == norm_sq(avg.r as int, avg.g as int, avg.b as int)) by (nonlinear_arith)
        requires
            avg.r <= CHANNEL_FULL,
            avg.g <= CHANNEL_FULL,
            avg.b <= CHANNEL_FULL,
            nsq == avg.r as int * avg.r as int + avg.g as int * avg.g as int + avg.b as int
                * avg.b as int,
    ;
    let n: u64 = isqrt64(nsq);
    if n == 0 {
        avg
    } else {
        proof {
            assert(avg.r as int * avg.r as int <= nsq as int) by (nonlinear_arith)
                requires
                    nsq as int == norm_sq(avg.r as int, avg.g as int, avg.b as int),
            ;
            assert(avg.g as int * avg.g as int <= nsq as int) by (nonlinear_arith)
                requires
                    nsq as int == norm_sq(avg.r as int, avg.g as int, avg.b as int),
            ;
            assert(avg.b as int * avg.b as int <= nsq as int) by (nonlinear_arith)
                requires
                    nsq as int == norm_sq(avg.r as int, avg.g as int, avg.b as int),
            ;
            lemma_sqrt_bounds_channel(avg.r as int, nsq as int, n as int);
            lemma_sqrt_bounds_channel(avg.g as int, nsq as int, n as int);
            lemma_sqrt_bounds_channel(avg.b as int, nsq as int, n as int);
        }
        let out = Color {
            r: normalize_channel(avg.r, n),
            g: normalize_channel(avg.g, n),
            b: normalize_channel(avg.b, n),
        };
        out
    }
}

/// Whether two colors match channel-wise within the goal tolerance.
pub open spec fn close_spec(a: Color, b: Color) -> bool {
    &&& abs_diff(a.r as int, b.r as int) <= CHANNEL_TOLERANCE
    &&& abs_diff(a.g as int, b.g as int) <= CHANNEL_TOLERANCE
    &&& abs_diff(a.b as int, b.b as int) <= CHANNEL_TOLERANCE
}

/// The absolute difference of two integers.
pub open spec fn abs_diff(a: int, b: int) -> int {
    if a >= b {
        a - b
    } else {
        b - a
    }
}

/// One channel's distance, |a - b|.
fn channel_diff(a: u32, b: u32) -> (d: u32)
    ensures
        d == abs_diff(a as int, b as int),
{
    if a >= b {
        a - b
    } else {
        b - a
    }
}

/// Compares two colors under the goal tolerance: every channel must differ
/// by at most `CHANNEL_TOLERANCE`.
pub fn close_to(a: Color, b: Color) -> (eq: bool)
    ensures
        eq == close_spec(a, b),
{
    channel_diff(a.r, b.r) <= CHANNEL_TOLERANCE && channel_diff(a.g, b.g) <= CHANNEL_TOLERANCE
        && channel_diff(a.b, b.b) <= CHANNEL_TOLERANCE
}

} // verus!
