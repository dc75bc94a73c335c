//! The two color value types and the conversions between them.
//!
//! `RgbaColorType` holds red/green/blue intensity fractions and an opacity
//! fraction, each stored as the real value times `UNIT`.  Its primary
//! constructor is deliberately permissive: channels are stored verbatim.
//! `HslaColorType` holds hue (degrees), saturation and lightness (percent)
//! and opacity, also times `UNIT`; its constructor normalizes, wrapping the
//! hue into `[0, 360)` degrees and clamping saturation and lightness into
//! `[0, 100]` percent.

use vstd::prelude::*;

use crate::fixed::{
    clamp_pct, clamp_pct_i64, round_div, round_div_i64, wrap_hue, wrap_hue_i64, DEG_FULL, PCT_FULL,
    UNIT,
};

verus! {

/// A color in the additive red/green/blue model with an opacity channel.
/// Each field is a real value times `UNIT`; `r`, `g`, `b` are intended to
/// lie in `[0, UNIT]` but are not clamped on construction.
#[derive(Clone, Copy, Debug, PartialEq, Eq, Structural)]
pub struct RgbaColorType {
    pub r: i64,
    pub g: i64,
    pub b: i64,
    pub a: i64,
}

/// A color in the hue/saturation/lightness model with an opacity channel.
/// `h` is degrees times `UNIT`, `s` and `l` are percent times `UNIT`, and
/// the normalizing constructor keeps them in `[0, 360)` degrees and
/// `[0, 100]` percent respectively.
#[derive(Clone, Copy, Debug, PartialEq, Eq, Structural)]
pub struct HslaColorType {
    pub h: i64,
    pub s: i64,
    pub l: i64,
    pub a: i64,
}

/// A representation whose perceptual complement can be taken.
pub trait Color {
    type Type;

    /// What the complement is, as a specification value.
    spec fn spec_complement(&self) -> Self::Type;

    /// The perceptual complement.
    fn complement(&self) -> (c: Self::Type)
        ensures
            c == self.spec_complement(),
    ;
}

impl RgbaColorType {
    /// All three intensity channels lie in `[0, UNIT]`, the unit range.
    pub open spec fn unit_range(self) -> bool {
        0 <= self.r <= UNIT && 0 <= self.g <= UNIT && 0 <= self.b <= UNIT
    }

    /// Build a color from three channels, stored verbatim, with opacity
    /// fixed at full (`UNIT`).
    pub fn new(r: i64, g: i64, b: i64) -> (c: RgbaColorType)
        ensures
            c.r == r,
            c.g == g,
            c.b == b,
            c.a == UNIT,
    {
        RgbaColorType { r, g, b, a: UNIT }
    }

    /// Build a color from an ordered `[r, g, b]` triple of unit-range
    /// channel values; equivalent to `new`.
    pub fn from_unit_triple(c: [i64; 3]) -> (out: RgbaColorType)
        ensures
            out.r == c[0],
            out.g == c[1],
            out.b == c[2],
            out.a == UNIT,
    {
        RgbaColorType::new(c[0], c[1], c[2])
    }

    /// Build a color from an `[r, g, b]` byte triple: each byte `v` maps to
    /// the exact channel value `v / 255`, so 255 becomes full intensity and
    /// 0 becomes none.
    pub fn from_byte_triple(c: [u8; 3]) -> (out: RgbaColorType)
        ensures
            out.r == byte_to_channel(c[0]),
            out.g == byte_to_channel(c[1]),
            out.b == byte_to_channel(c[2]),
            out.a == UNIT,
    {
        RgbaColorType::new(c[0] as i64 * 1000, c[1] as i64 * 1000, c[2] as i64 * 1000)
    }

    /// Export the three intensity channels as an `[r, g, b]` byte triple:
    /// each channel maps to `round(channel * 255)`, saturated into
    /// `[0, 255]` when the channel lies outside the unit range.
    pub fn to_byte_triple(&self) -> (out: [u8; 3])
        ensures
            out[0] == channel_to_byte(self.r),
            out[1] == channel_to_byte(self.g),
            out[2] == channel_to_byte(self.b),
    {
        [channel_to_byte_i64(self.r), channel_to_byte_i64(self.g), channel_to_byte_i64(self.b)]
    }
}

impl HslaColorType {
    /// The invariant the normalizing constructor establishes: hue in
    /// `[0, 360)` degrees, saturation and lightness in `[0, 100]` percent.
    pub open spec fn wf(self) -> bool {
        0 <= self.h < DEG_FULL && 0 <= self.s <= PCT_FULL && 0 <= self.l <= PCT_FULL
    }

    /// Build from hue (degrees times `UNIT`), saturation and lightness
    /// (percent times `UNIT`), normalizing: the hue is wrapped into a
    /// single turn, saturation and lightness are clamped, and opacity is
    /// fixed at full.
    pub fn new(h: i64, s: i64, l: i64) -> (c: HslaColorType)
        ensures
            c.h == wrap_hue(h as int),
            c.s == clamp_pct(s as int),
            c.l == clamp_pct(l as int),
            c.a == UNIT,
            c.wf(),
    {
        let mut c = HslaColorType { h, s, l, a: UNIT };
        c.validate();
        c
    }

    /// Normalize in place: wrap the hue, clamp saturation and lightness.
    fn validate(&mut self)
        ensures
            final(self).h == wrap_hue(old(self).h as int),
            final(self).s == clamp_pct(old(self).s as int),
            final(self).l == clamp_pct(old(self).l as int),
            final(self).a == old(self).a,
            final(self).wf(),
    {
        self.h = wrap_hue_i64(self.h);
        self.s = clamp_pct_i64(self.s);
        self.l = clamp_pct_i64(self.l);
    }
}

/// 60 degrees times `UNIT`: one sixth of a hue turn, `DEG_FULL / 6`.
pub const SIXTH_TURN: i64 = 15_300_000;

/// 120 degrees times `UNIT`: one third of a hue turn, `DEG_FULL / 3`.
pub const THIRD_TURN: i64 = 30_600_000;

/// 180 degrees times `UNIT`: half a hue turn, `DEG_FULL / 2`.
pub const HALF_TURN: i64 = 45_900_000;

/// 240 degrees times `UNIT`: two thirds of a hue turn, `2 * DEG_FULL / 3`.
pub const TWO_THIRDS_TURN: i64 = 61_200_000;

/// `100 * PCT_FULL`: the denominator that reduces a product of two
/// percent-scaled values to a channel value.
pub const QP_DEN: i64 = 2_550_000_000;

/// The larger of two values.
pub open spec fn max2(a: int, b: int) -> int {
    if a >= b {
        a
    } else {
        b
    }
}

/// The smaller of two values.
pub open spec fn min2(a: int, b: int) -> int {
    if a <= b {
        a
    } else {
        b
    }
}

/// The hexagonal hue ramp: `t` is a position inside one hue turn (degrees
/// times `UNIT`, wrapped once into range if it falls outside), and the
/// result ramps from `p` up to `q` over the first sixth of the turn, stays
/// at `q` until half, ramps back down to `p` at two thirds, and stays at
/// `p` for the rest.
pub open spec fn spec_hue2rgb(p: int, q: int, t: int) -> int {
    let t1 = if t < 0 {
        t + DEG_FULL
    } else {
        t
    };
    let t2 = if t1 > DEG_FULL {
        t1 - DEG_FULL
    } else {
        t1
    };
    if t2 < SIXTH_TURN {
        p + round_div((q - p) * t2, SIXTH_TURN as int)
    } else if t2 < HALF_TURN {
        q
    } else if t2 < TWO_THIRDS_TURN {
        p + round_div((q - p) * (TWO_THIRDS_TURN - t2), SIXTH_TURN as int)
    } else {
        p
    }
}

/// What converting an HSLA color to RGBA yields.  With zero saturation
/// every channel is the lightness; otherwise the two ramp bounds `q` and
/// `p` are derived from lightness and saturation and each channel reads
/// the hue ramp at its own third-of-a-turn offset.  Opacity comes out
/// full: the source opacity is not propagated.
pub open spec fn spec_hsl_to_rgb(c: HslaColorType) -> RgbaColorType {
    let h = c.h as int;
    let s = c.s as int;
    let l = c.l as int;
    if s == 0 {
        let v = round_div(l, 100) as i64;
        RgbaColorType { r: v, g: v, b: v, a: UNIT }
    } else {
        let qn = if 2 * l < PCT_FULL {
            l * (PCT_FULL + s)
        } else {
            (l + s) * PCT_FULL - l * s
        };
        let q = round_div(qn, QP_DEN as int);
        let p = round_div(200 * UNIT * l - qn, QP_DEN as int);
        RgbaColorType {
            r: spec_hue2rgb(p, q, h + THIRD_TURN) as i64,
            g: spec_hue2rgb(p, q, h) as i64,
            b: spec_hue2rgb(p, q, h - THIRD_TURN) as i64,
            a: UNIT,
        }
    }
}

/// What converting an RGBA color to HSLA yields.  Lightness is the mean
/// of the channel extremes; an achromatic color (all channels equal) gets
/// hue and saturation zero; otherwise saturation is the spread over the
/// headroom and the hue picks the sector of the largest channel.  The
/// result is fed through the normalizing constructor.
pub open spec fn spec_rgb_to_hsl(c: RgbaColorType) -> HslaColorType {
    let r = c.r as int;
    let g = c.g as int;
    let b = c.b as int;
    let mx = max2(max2(r, g), b);
    let mn = min2(min2(r, g), b);
    let l2 = 50 * (mx + mn);
    if mx == mn {
        HslaColorType { h: 0, s: 0, l: clamp_pct(l2) as i64, a: UNIT }
    } else {
        let d = mx - mn;
        let sden = if mx + mn > UNIT {
            2 * UNIT - mx - mn
        } else {
            mx + mn
        };
        let s2 = round_div(100 * UNIT * d, sden);
        let h2 = if mx == r {
            round_div(60 * UNIT * (g - b), d) + if g < b {
                DEG_FULL as int
            } else {
                0
            }
        } else if mx == g {
            round_div(60 * UNIT * (b - r), d) + THIRD_TURN
        } else {
            round_div(60 * UNIT * (r - g), d) + TWO_THIRDS_TURN
        };
        HslaColorType {
            h: wrap_hue(h2) as i64,
            s: clamp_pct(s2) as i64,
            l: clamp_pct(l2) as i64,
            a: UNIT,
        }
    }
}

/// The exact channel value of a byte: `v / 255` in fixed-point form,
/// which is `v * 1000` at the `UNIT` scale.
pub open spec fn byte_to_channel(v: u8) -> i64 {
    (v * 1000) as i64
}

/// What a channel inverted about full intensity is: `UNIT - x`, saturated
/// at the top of the `i64` range (the bottom cannot be reached).
pub open spec fn complement_channel(x: i64) -> i64 {
    if UNIT - x > i64::MAX {
        i64::MAX
    } else {
        (UNIT - x) as i64
    }
}

/// The byte a channel exports to: `round(x * 255 / UNIT)`, ties away from
/// zero, saturated into `[0, 255]`.
pub open spec fn channel_to_byte(x: i64) -> u8 {
    let scaled = round_div(255 * x, 255000);
    if scaled < 0 {
        0
    } else if scaled > 255 {
        255
    } else {
        scaled as u8
    }
}

/// Executable byte export of one channel.
fn channel_to_byte_i64(x: i64) -> (r: u8)
    ensures
        r == channel_to_byte(x),
{
    if x <= 0 {
        0
    } else if x >= UNIT {
        proof {
            let n = 255 * (x as int);
            let d = UNIT as int;
            vstd::arithmetic::div_mod::lemma_div_is_ordered(511 * d, 2 * n + d, 2 * d);
            vstd::arithmetic::div_mod::lemma_fundamental_div_mod_converse(511 * d, 2 * d, 255, d);
        }
        255
    } else {
        proof {
            let n = 255 * (x as int);
            let d = UNIT as int;
            vstd::arithmetic::div_mod::lemma_div_is_ordered(2 * n + d, 511 * d, 2 * d);
            vstd::arithmetic::div_mod::lemma_fundamental_div_mod_converse(511 * d, 2 * d, 255, d);
        }
        round_div_i64(255 * x, UNIT) as u8
    }
}

impl Color for RgbaColorType {
    type Type = RgbaColorType;

    /// Each intensity channel inverted about full intensity; opacity is
    /// re-derived as full, not preserved.
    open spec fn spec_complement(&self) -> RgbaColorType {
        RgbaColorType {
            r: complement_channel(self.r),
            g: complement_channel(self.g),
            b: complement_channel(self.b),
            a: UNIT,
        }
    }

    fn complement(&self) -> (c: RgbaColorType)
        ensures
            c == self.spec_complement(),
    {
        RgbaColorType::new(
            complement_channel_i64(self.r),
            complement_channel_i64(self.g),
            complement_channel_i64(self.b),
        )
    }
}

/// Executable channel inversion.
fn complement_channel_i64(x: i64) -> (r: i64)
    ensures
        r == complement_channel(x),
{
    let wide: i128 = UNIT as i128 - x as i128;
    if wide > i64::MAX as i128 {
        i64::MAX
    } else {
        wide as i64
    }
}

/// Bounds on the ramp numerators: both are nonnegative, the lower one is
/// below the upper one, and the upper one is at most a full channel times
/// the denominator.
proof fn lemma_pq_bounds(l: int, s: int)
    requires
        0 <= l <= PCT_FULL,
        1 <= s <= PCT_FULL,
    ensures
        ({
            let qn = if 2 * l < PCT_FULL {
                l * (PCT_FULL + s)
            } else {
                (l + s) * PCT_FULL - l * s
            };
            0 <= 200 * UNIT * l - qn <= qn <= (UNIT as int) * (QP_DEN as int)
        }),
{
    assert((UNIT as int) * (QP_DEN as int) == 650_250_000_000_000);
    if 2 * l < PCT_FULL {
        let qn = l * (25_500_000 + s);
        assert(0 <= qn <= 650_250_000_000_000 && 51_000_000 * l - qn == l * (25_500_000 - s) && 0
            <= l * (25_500_000 - s) <= qn) by (nonlinear_arith)
            requires
                0 <= l && 2 * l < 25_500_000 && 1 <= s <= 25_500_000 && qn == l * (25_500_000 + s),
        ;
    } else {
        let qn = (l + s) * 25_500_000 - l * s;
        assert(qn == 650_250_000_000_000 - (25_500_000 - l) * (25_500_000 - s) && 0 <= (25_500_000
            - l) * (25_500_000 - s) <= 650_250_000_000_000 && 0 <= 51_000_000 * l - qn <= qn)
            by (nonlinear_arith)
            requires
                25_500_000 <= 2 * l && l <= 25_500_000 && 1 <= s <= 25_500_000 && qn == (l + s)
                    * 25_500_000 - l * s,
        ;
    }
}

/// Executable hue ramp; private helper of the HSL to RGB conversion.
fn hue2rgb(p: i64, q: i64, t: i64) -> (r: i64)
    requires
        0 <= p <= q <= UNIT,
        -THIRD_TURN <= t <= DEG_FULL + THIRD_TURN,
    ensures
        r == spec_hue2rgb(p as int, q as int, t as int),
        p <= r <= q,
{
    let mut tt = t;
    if tt < 0 {
        tt = tt + DEG_FULL;
    }
    if tt > DEG_FULL {
        tt = tt - DEG_FULL;
    }
    if tt < SIXTH_TURN {
        proof {
            assert(0 <= (q - p) * tt <= (q - p) * (SIXTH_TURN as int)) by (nonlinear_arith)
                requires
                    0 <= q - p && 0 <= tt <= SIXTH_TURN,
            ;
            assert((q - p) * (SIXTH_TURN as int) <= 255000 * 15_300_000) by (nonlinear_arith)
                requires
                    0 <= q - p <= 255000,
            ;
            crate::fixed::lemma_round_div_between(
                (q - p) * (tt as int),
                SIXTH_TURN as int,
                0,
                q - p,
            );
        }
        p + round_div_i64((q - p) * tt, SIXTH_TURN)
    } else if tt < HALF_TURN {
        q
    } else if tt < TWO_THIRDS_TURN {
        proof {
            assert(0 <= (q - p) * ((TWO_THIRDS_TURN - tt) as int) <= (q - p) * (
            SIXTH_TURN as int)) by (nonlinear_arith)
                requires
                    0 <= q - p && 0 <= TWO_THIRDS_TURN - tt <= SIXTH_TURN,
            ;
            assert((q - p) * (SIXTH_TURN as int) <= 255000 * 15_300_000) by (nonlinear_arith)
                requires
                    0 <= q - p <= 255000,
            ;
            crate::fixed::lemma_round_div_between(
                (q - p) * ((TWO_THIRDS_TURN - tt) as int),
                SIXTH_TURN as int,
                0,
                q - p,
            );
        }
        p + round_div_i64((q - p) * (TWO_THIRDS_TURN - tt), SIXTH_TURN)
    } else {
        p
    }
}

impl RgbaColorType {
    /// Convert an HSLA color to RGBA.  The input must be normalized, as
    /// the `HslaColorType` constructor leaves it; the resulting channels
    /// all lie in the unit range, and opacity is re-derived as full
    /// rather than propagated from the source.
    pub fn from_hsla(c: HslaColorType) -> (out: RgbaColorType)
        requires
            c.wf(),
        ensures
            out == spec_hsl_to_rgb(c),
            out.unit_range(),
            out.a == UNIT,
    {
        if c.s == 0 {
            proof {
                crate::fixed::lemma_round_div_between(c.l as int, 100, 0, UNIT as int);
            }
            let v = round_div_i64(c.l, 100);
            RgbaColorType::new(v, v, v)
        } else {
            proof {
                lemma_pq_bounds(c.l as int, c.s as int);
            }
            let qn: i64 = if 2 * c.l < PCT_FULL {
                proof {
                    assert((c.l as int) * ((PCT_FULL + c.s) as int) <= 25_500_000 * 51_000_000)
                        by (nonlinear_arith)
                        requires
                            0 <= c.l <= 25_500_000 && 0 <= c.s <= 25_500_000,
                    ;
                }
                c.l * (PCT_FULL + c.s)
            } else {
                proof {
                    assert(0 <= (c.l as int) * (c.s as int) <= 25_500_000 * 25_500_000)
                        by (nonlinear_arith)
                        requires
                            0 <= c.l <= 25_500_000 && 0 <= c.s <= 25_500_000,
                    ;
                }
                (c.l + c.s) * PCT_FULL - c.l * c.s
            };
            let pn: i64 = 200 * UNIT * c.l - qn;
            proof {
                crate::fixed::lemma_round_div_between(qn as int, QP_DEN as int, 0, UNIT as int);
                crate::fixed::lemma_round_div_between(pn as int, QP_DEN as int, 0, UNIT as int);
                crate::fixed::lemma_round_div_ordered(pn as int, qn as int, QP_DEN as int);
            }
            let q = round_div_i64(qn, QP_DEN);
            let p = round_div_i64(pn, QP_DEN);
            RgbaColorType::new(
                hue2rgb(p, q, c.h + THIRD_TURN),
                hue2rgb(p, q, c.h),
                hue2rgb(p, q, c.h - THIRD_TURN),
            )
        }
    }
}

impl HslaColorType {
    /// Convert an RGBA color to HSLA.  The channels must lie in the unit
    /// range; the result is normalized and carries full opacity.  An
    /// achromatic input (all channels equal) yields hue and saturation
    /// zero.
    pub fn from_rgba(c: RgbaColorType) -> (out: HslaColorType)
        requires
            c.unit_range(),
        ensures
            out == spec_rgb_to_hsl(c),
            out.wf(),
            out.a == UNIT,
            c.r == c.g && c.g == c.b ==> out.h == 0 && out.s == 0,
    {
        let mx0 = if c.r >= c.g {
            c.r
        } else {
            c.g
        };
        let mx = if mx0 >= c.b {
            mx0
        } else {
            c.b
        };
        let mn0 = if c.r <= c.g {
            c.r
        } else {
            c.g
        };
        let mn = if mn0 <= c.b {
            mn0
        } else {
            c.b
        };
        let l2 = 50 * (mx + mn);
        if mx == mn {
            HslaColorType::new(0, 0, l2)
        } else {
            let d = mx - mn;
            let sden = if mx + mn > UNIT {
                2 * UNIT - mx - mn
            } else {
                mx + mn
            };
            let s2 = round_div_i64(100 * UNIT * d, sden);
            let hq = if mx == c.r {
                proof {
                    crate::fixed::lemma_round_div_between(
                        60 * (UNIT as int) * (c.g - c.b),
                        d as int,
                        -(60 * UNIT as int),
                        60 * UNIT as int,
                    );
                }
                let base = round_div_i64(60 * UNIT * (c.g - c.b), d);
                if c.g < c.b {
                    base + DEG_FULL
                } else {
                    base
                }
            } else if mx == c.g {
                proof {
                    crate::fixed::lemma_round_div_between(
                        60 * (UNIT as int) * (c.b - c.r),
                        d as int,
                        -(60 * UNIT as int),
                        60 * UNIT as int,
                    );
                }
                round_div_i64(60 * UNIT * (c.b - c.r), d) + THIRD_TURN
            } else {
                proof {
                    crate::fixed::lemma_round_div_between(
                        60 * (UNIT as int) * (c.r - c.g),
                        d as int,
                        -(60 * UNIT as int),
                        60 * UNIT as int,
                    );
                }
                round_div_i64(60 * UNIT * (c.r - c.g), d) + TWO_THIRDS_TURN
            };
            HslaColorType::new(hq, s2, l2)
        }
    }
}

/// Inverting every channel twice gives the original intensity channels
/// back, whenever they lie in the unit range; the opacity comes out full
/// in every case, so the round trip is the identity exactly when the
/// original opacity was already full.
pub proof fn lemma_complement_involution(c: RgbaColorType)
    requires
        c.unit_range(),
    ensures
        c.spec_complement().spec_complement().r == c.r,
        c.spec_complement().spec_complement().g == c.g,
        c.spec_complement().spec_complement().b == c.b,
        c.spec_complement().spec_complement().a == UNIT,
{
}

/// The decimal digit character of a value below ten.
pub open spec fn dec_digit(d: nat) -> char {
    if d == 0 {
        '0'
    } else if d == 1 {
        '1'
    } else if d == 2 {
        '2'
    } else if d == 3 {
        '3'
    } else if d == 4 {
        '4'
    } else if d == 5 {
        '5'
    } else if d == 6 {
        '6'
    } else if d == 7 {
        '7'
    } else if d == 8 {
        '8'
    } else {
        '9'
    }
}

/// The decimal digit characters of a nonnegative value, most significant
/// first, with no leading zeros.
pub open spec fn dec_digits(n: nat) -> Seq<char>
    decreases n,
{
    if n < 10 {
        seq![dec_digit(n)]
    } else {
        dec_digits(n / 10).push(dec_digit(n % 10))
    }
}

/// The decimal rendering of a value: its digits, preceded by a minus sign
/// when negative.
pub open spec fn dec_str(v: int) -> Seq<char> {
    if v < 0 {
        seq!['-'] + dec_digits((-v) as nat)
    } else {
        dec_digits(v as nat)
    }
}

/// Relies on the standard decimal `Display` of `i64`: the value's digits
/// in base ten, preceded by `-` when it is negative.
#[verifier::external_body]
fn i64_to_string(v: i64) -> (r: String)
    ensures
        r@ == dec_str(v as int),
{
    format!("{}", v)
}

impl RgbaColorType {
    /// Render as `RGB(<r>, <g>, <b>)`, each intensity channel as the
    /// decimal form of its fixed-point integer; opacity is not included.
    pub fn display_string(&self) -> (out: String)
        ensures
            out@ == "RGB("@ + dec_str(self.r as int) + ", "@ + dec_str(self.g as int) + ", "@
                + dec_str(self.b as int) + ")"@,
    {
        let mut out = String::from_str("RGB(");
        out.append(i64_to_string(self.r).as_str());
        out.append(", ");
        out.append(i64_to_string(self.g).as_str());
        out.append(", ");
        out.append(i64_to_string(self.b).as_str());
        out.append(")");
        out
    }
}

/// The rounded hue ramp position of a channel offset `x` inside a spread
/// `d`, with its bounds and its exact recovery: reading the ramp back at
/// the rounded position returns `x`, because the position misses the true
/// one by at most half a unit, which the read scales down by `d / UNIT`.
proof fn lemma_hue_near(d: int, x: int, hr: int)
    requires
        1 <= d <= UNIT,
        0 <= x <= d,
        hr == round_div(60 * (UNIT as int) * x, d),
    ensures
        0 <= hr <= SIXTH_TURN,
        x >= 1 ==> hr >= 60,
        x <= d - 1 ==> hr <= SIXTH_TURN - 60,
        round_div(d * hr, SIXTH_TURN as int) == x,
{
    let u = UNIT as int;
    let st = SIXTH_TURN as int;
    let n = 60 * u * x;
    assert(0 * d <= n && n <= st * d && x * st == n && (x >= 1 ==> 60 * d <= n) && (x <= d - 1
        ==> n <= (st - 60) * d)) by (nonlinear_arith)
        requires
            u == 255000 && st == 15_300_000 && 1 <= d <= u && 0 <= x <= d && n == 60 * u * x,
    ;
    crate::fixed::lemma_round_div_between(n, d, 0, st);
    if x >= 1 {
        crate::fixed::lemma_round_div_between(n, d, 60, st);
    }
    if x <= d - 1 {
        crate::fixed::lemma_round_div_between(n, d, 0, st - 60);
    }
    crate::fixed::lemma_round_div_err(n, d);
    let e = hr * d - n;
    assert(d * hr == hr * d) by (nonlinear_arith);
    crate::fixed::lemma_round_div_near(x, e, st);
    assert(x * st + e == d * hr);
}

/// With the channel extremes `mx > mn` of a unit-range color, the rounded
/// saturation and the exact lightness reproduce the extremes as the ramp
/// bounds of the backward conversion: the upper bound is exactly `mx` and
/// the lower exactly `mn`, since the saturation rounding error is scaled
/// far below half a channel unit.
proof fn lemma_ramp_bounds_exact(mx: int, mn: int)
    requires
        0 <= mn < mx <= UNIT,
    ensures
        ({
            let sden = if mx + mn > UNIT {
                2 * UNIT - mx - mn
            } else {
                mx + mn
            };
            let s2 = round_div(100 * UNIT * (mx - mn), sden);
            let l2 = 50 * (mx + mn);
            let qn = if 2 * l2 < PCT_FULL {
                l2 * (PCT_FULL + s2)
            } else {
                (l2 + s2) * PCT_FULL - l2 * s2
            };
            1 <= s2 <= PCT_FULL && round_div(qn, QP_DEN as int) == mx && round_div(
                200 * UNIT * l2 - qn,
                QP_DEN as int,
            ) == mn
        }),
{
    let u = UNIT as int;
    let qp = QP_DEN as int;
    let d = mx - mn;
    let sden = if mx + mn > u {
        2 * u - mx - mn
    } else {
        mx + mn
    };
    let ns = 100 * u * d;
    let s2 = round_div(ns, sden);
    let l2 = 50 * (mx + mn);
    assert(1 <= sden <= u);
    assert(d <= sden);
    assert(1 * sden <= ns && ns <= (100 * u) * sden) by (nonlinear_arith)
        requires
            u == 255000 && 1 <= d <= sden && sden <= u && ns == 100 * u * d,
    ;
    crate::fixed::lemma_round_div_between(ns, sden, 1, 100 * u);
    crate::fixed::lemma_round_div_err(ns, sden);
    let es = s2 * sden - ns;
    if 2 * l2 < PCT_FULL {
        let qn = l2 * (PCT_FULL + s2);
        assert(qn == mx * qp + 50 * es && 200 * u * l2 - qn == mn * qp + -(50 * es))
            by (nonlinear_arith)
            requires
                qn == (50 * (mx + mn)) * (100 * u + s2) && es == s2 * (mx + mn) - 100 * u * (mx
                    - mn) && qp == 10000 * u && l2 == 50 * (mx + mn),
        ;
        crate::fixed::lemma_round_div_near(mx, 50 * es, qp);
        crate::fixed::lemma_round_div_near(mn, -(50 * es), qp);
    } else {
        let qn = (l2 + s2) * PCT_FULL - l2 * s2;
        assert(sden == 2 * u - mx - mn);
        assert(qn == mx * qp + 50 * es && 200 * u * l2 - qn == mn * qp + -(50 * es))
            by (nonlinear_arith)
            requires
                qn == (50 * (mx + mn) + s2) * (100 * u) - (50 * (mx + mn)) * s2 && es == s2 * (2 * u
                    - mx - mn) - 100 * u * (mx - mn) && qp == 10000 * u && l2 == 50 * (mx + mn),
        ;
        crate::fixed::lemma_round_div_near(mx, 50 * es, qp);
        crate::fixed::lemma_round_div_near(mn, -(50 * es), qp);
    }
}

/// Converting any RGBA color with unit-range channels and full opacity to
/// HSLA and back reproduces it exactly.  The hue, saturation and
/// lightness are each a single rounded division away from their true
/// values, and on the way back every rounding error is scaled down so far
/// that the nearest whole channel value is always the original one.
#[verifier::rlimit(100)]
pub proof fn lemma_round_trip(c: RgbaColorType)
    requires
        c.unit_range(),
        c.a == UNIT,
    ensures
        spec_hsl_to_rgb(spec_rgb_to_hsl(c)) == c,
{
    let r = c.r as int;
    let g = c.g as int;
    let b = c.b as int;
    let u = UNIT as int;
    let mx = max2(max2(r, g), b);
    let mn = min2(min2(r, g), b);
    if mx == mn {
        crate::fixed::lemma_round_div_exact(r, 100);
    } else {
        let d = mx - mn;
        lemma_ramp_bounds_exact(mx, mn);
        if mx == r {
            if g < b {
                let hr = round_div(60 * u * (b - g), d);
                lemma_hue_near(d, b - g, hr);
                assert(60 * u * (g - b) == -(60 * u * (b - g)) && 60 * u * (b - g) > 0)
                    by (nonlinear_arith)
                    requires
                        u == 255000 && (g - b) < 0 < (b - g),
                ;
                assert(round_div(60 * u * (g - b), d) == -hr);
            } else {
                let hr = round_div(60 * u * (g - b), d);
                lemma_hue_near(d, g - b, hr);
                if hr == SIXTH_TURN {
                    crate::fixed::lemma_round_div_exact(d, SIXTH_TURN as int);
                }
            }
        } else if mx == g {
            if b < r {
                let hr = round_div(60 * u * (r - b), d);
                lemma_hue_near(d, r - b, hr);
                assert(60 * u * (b - r) == -(60 * u * (r - b)) && 60 * u * (r - b) > 0)
                    by (nonlinear_arith)
                    requires
                        u == 255000 && (b - r) < 0 < (r - b),
                ;
                assert(round_div(60 * u * (b - r), d) == -hr);
            } else {
                let hr = round_div(60 * u * (b - r), d);
                lemma_hue_near(d, b - r, hr);
                if hr == SIXTH_TURN {
                    crate::fixed::lemma_round_div_exact(d, SIXTH_TURN as int);
                }
            }
        } else {
            if g > r {
                let hr = round_div(60 * u * (g - r), d);
                lemma_hue_near(d, g - r, hr);
                assert(60 * u * (r - g) == -(60 * u * (g - r)) && 60 * u * (g - r) > 0)
                    by (nonlinear_arith)
                    requires
                        u == 255000 && (r - g) < 0 < (g - r),
                ;
                assert(round_div(60 * u * (r - g), d) == -hr);
            } else {
                let hr = round_div(60 * u * (r - g), d);
                lemma_hue_near(d, r - g, hr);
                if hr == SIXTH_TURN {
                    crate::fixed::lemma_round_div_exact(d, SIXTH_TURN as int);
                }
            }
        }
    }
}

} // verus!
