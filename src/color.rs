use vstd::prelude::*;

verus! {

/// Fixed-point value of full intensity in a color channel.
pub const UNIT: u32 = 1000;

/// Largest luminance of any color.
pub const LUMINANCE_MAX: u32 = 67502;

/// A linear color, one fixed-point channel each (`UNIT` is full intensity).
#[derive(Clone, Copy, Debug, PartialEq, Eq, Structural)]
pub struct Color {
    pub r: u16,
    pub g: u16,
    pub b: u16,
}

/// Perceived brightness in channel units, rounded up so that only black has none.
pub open spec fn luminance_spec(c: Color) -> int {
    (299 * c.r + 587 * c.g + 144 * c.b + 999) / 1000
}

/// The largest `s` with `s * s <= v`.
pub open spec fn is_isqrt(s: int, v: int) -> bool {
    s >= 0 && s * s <= v && v < (s + 1) * (s + 1)
}

impl Color {
    pub fn new(r: u16, g: u16, b: u16) -> (c: Color)
        ensures
            c.r == r,
            c.g == g,
            c.b == b,
    {
        Color { r, g, b }
    }

    pub open spec fn black_spec() -> Color {
        Color { r: 0, g: 0, b: 0 }
    }

    pub fn black() -> (c: Color)
        ensures
            c == Color::black_spec(),
    {
        Color { r: 0, g: 0, b: 0 }
    }
}

/// Perceived brightness: 0.299 red, 0.587 green, 0.144 blue, rounded up, so that every
/// color but black has some.
pub fn luminance(c: Color) -> (r: u32)
    ensures
        r == luminance_spec(c),
        r <= LUMINANCE_MAX,
        r == 0 <==> (c.r == 0 && c.g == 0 && c.b == 0),
{
    (299 * c.r as u32 + 587 * c.g as u32 + 144 * c.b as u32 + 999) / 1000
}

/// The integer square root of `v`.
pub fn isqrt(v: u64) -> (s: u64)
    requires
        v < 0x1_0000_0000_0000,
    ensures
        is_isqrt(s as int, v as int),
{
    let mut s: u64 = 0;
    loop
        invariant
            s * s <= v,
            v < 0x1_0000_0000_0000,
            s <= 0x100_0000,
        decreases v - s * s,
    {
        proof {
            assert((s + 1) * (s + 1) <= 0x1_0000_0200_0001) by (nonlinear_arith)
                requires
                    s <= 0x100_0000,
            ;
        }
        if (s + 1) * (s + 1) > v {
            return s;
        }
        proof {
            assert((s + 1) * (s + 1) > s * s) by (nonlinear_arith);
            assert(s + 1 <= 0x100_0000) by (nonlinear_arith)
                requires
                    (s + 1) * (s + 1) <= v,
                    v < 0x1_0000_0000_0000,
            ;
        }
        s = s + 1;
    }
}

/// The value under the square root in `channel_byte`: the channel as a fraction of `UNIT`,
/// times 65536, rounded down.
pub open spec fn byte_radicand(c: u16) -> int {
    65536 * c / 1000
}

/// The display byte of a channel: its square root (gamma 2) scaled to 256 levels, rounded
/// down and held to at most 255.
pub fn channel_byte(c: u16) -> (r: u8)
    ensures
        r == 255 <==> byte_radicand(c) >= 255 * 255,
        r < 255 ==> is_isqrt(r as int, byte_radicand(c)),
{
    let v = 65536u64 * c as u64 / 1000;
    let s = isqrt(v);
    if s >= 255 {
        proof {
            assert(v >= 255 * 255) by (nonlinear_arith)
                requires
                    s * s <= v,
                    s >= 255,
            ;
        }
        255
    } else {
        proof {
            assert(v < 255 * 255) by (nonlinear_arith)
                requires
                    v < (s + 1) * (s + 1),
                    s < 255,
            ;
        }
        s as u8
    }
}

} // verus!
