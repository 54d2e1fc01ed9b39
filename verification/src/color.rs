use vstd::prelude::*;

verus! {

/// An RGB color, one byte per channel.
#[derive(Clone, Copy, Debug, PartialEq, Eq)]
pub struct Rgb {
    pub r: u8,
    pub g: u8,
    pub b: u8,
}

pub open spec fn max2(a: int, b: int) -> int {
    if a >= b {
        a
    } else {
        b
    }
}

pub open spec fn min2(a: int, b: int) -> int {
    if a <= b {
        a
    } else {
        b
    }
}

/// A channel value clamped to the `u8` bounds.
pub open spec fn clamp_channel(c: int) -> int {
    if c < 0 {
        0
    } else if c > 255 {
        255
    } else {
        c
    }
}

/// The saturation fix applied to every newborn color: keep the hue and the
/// value of the color, force its saturation to 4/5. In HSV terms the value is
/// the largest channel, which is kept; the chroma becomes 4/5 of the value
/// (truncating); the smallest channel drops to value minus chroma; a middle
/// channel keeps its relative position between the two. A color with all
/// channels equal has no hue of its own and is treated as hue zero (red).
pub open spec fn saturate_spec(c: Rgb) -> Rgb {
    let mx = max2(max2(c.r as int, c.g as int), c.b as int);
    let mn = min2(min2(c.r as int, c.g as int), c.b as int);
    let chroma = mx * 4 / 5;
    let low = mx - chroma;
    if mx == mn {
        Rgb { r: mx as u8, g: low as u8, b: low as u8 }
    } else {
        Rgb {
            r: (low + (c.r - mn) * chroma / (mx - mn)) as u8,
            g: (low + (c.g - mn) * chroma / (mx - mn)) as u8,
            b: (low + (c.b - mn) * chroma / (mx - mn)) as u8,
        }
    }
}

/// A rescaled channel never leaves the band between the new low channel and
/// the old maximum, so the rescaling in `saturate_spec` stays within `u8`.
proof fn lemma_rescale_in_range(v: int, mn: int, mx: int, chroma: int)
    requires
        0 <= mn <= v <= mx <= 255,
        mn < mx,
        0 <= chroma <= mx,
    ensures
        0 <= (v - mn) * chroma / (mx - mn) <= chroma,
{
    let d = mx - mn;
    assert((v - mn) * chroma <= d * chroma) by (nonlinear_arith)
        requires 0 <= v - mn <= d && 0 <= chroma;
    vstd::arithmetic::div_mod::lemma_div_is_ordered((v - mn) * chroma, d * chroma, d);
    vstd::arithmetic::div_mod::lemma_div_by_multiple(chroma, d);
    vstd::arithmetic::div_mod::lemma_div_pos_is_pos((v - mn) * chroma, d);
    assert((v - mn) * chroma >= 0) by (nonlinear_arith)
        requires v - mn >= 0 && chroma >= 0;
}

/// Forces the saturation of a color to 4/5 while keeping its hue and value.
pub fn saturate(c: Rgb) -> (out: Rgb)
    ensures
        out == saturate_spec(c),
{
    let mx: u8 = if c.r >= c.g { c.r } else { c.g };
    let mx: u8 = if mx >= c.b { mx } else { c.b };
    let mn: u8 = if c.r <= c.g { c.r } else { c.g };
    let mn: u8 = if mn <= c.b { mn } else { c.b };
    let chroma: u16 = mx as u16 * 4 / 5;
    let low: u16 = mx as u16 - chroma;
    if mx == mn {
        Rgb { r: mx, g: low as u8, b: low as u8 }
    } else {
        let d: u16 = (mx - mn) as u16;
        let dr: u16 = (c.r - mn) as u16;
        let dg: u16 = (c.g - mn) as u16;
        let db: u16 = (c.b - mn) as u16;
        proof {
            lemma_rescale_in_range(c.r as int, mn as int, mx as int, chroma as int);
            lemma_rescale_in_range(c.g as int, mn as int, mx as int, chroma as int);
            lemma_rescale_in_range(c.b as int, mn as int, mx as int, chroma as int);
            assert(dr * chroma <= 255 * 204) by (nonlinear_arith)
                requires dr <= 255 && chroma <= 204;
            assert(dg * chroma <= 255 * 204) by (nonlinear_arith)
                requires dg <= 255 && chroma <= 204;
            assert(db * chroma <= 255 * 204) by (nonlinear_arith)
                requires db <= 255 && chroma <= 204;
        }
        Rgb {
            r: (low + dr * chroma / d) as u8,
            g: (low + dg * chroma / d) as u8,
            b: (low + db * chroma / d) as u8,
        }
    }
}

/// A channel moved by a signed offset, saturating at the `u8` bounds.
pub fn shift_channel(c: u8, o: i8) -> (out: u8)
    ensures
        out as int == clamp_channel(c as int + o as int),
{
    let t: i32 = c as i32 + o as i32;
    if t < 0 {
        0
    } else if t > 255 {
        255
    } else {
        t as u8
    }
}

/// The truncating channel average over `cnt` parents, moved by a jitter
/// offset and clamped to the channel bounds.
pub open spec fn jittered_channel(sum: int, cnt: int, j: int) -> int {
    clamp_channel(sum / cnt + j)
}

/// The color derived for a newborn cell from per-channel sums over `cnt`
/// parent colors and per-channel jitter offsets: the truncating channel
/// averages, each jittered and clamped, then re-saturated.
pub open spec fn derived_color(
    sr: int,
    sg: int,
    sb: int,
    cnt: int,
    jr: int,
    jg: int,
    jb: int,
) -> Rgb {
    if cnt <= 0 {
        Rgb { r: 0, g: 0, b: 0 }
    } else {
        saturate_spec(
            Rgb {
                r: jittered_channel(sr, cnt, jr) as u8,
                g: jittered_channel(sg, cnt, jg) as u8,
                b: jittered_channel(sb, cnt, jb) as u8,
            },
        )
    }
}

/// A jittered channel stays within the jitter bound of the average it
/// started from: before the saturation fix, a newborn channel lies within
/// nine of the truncating average of its parents' channels.
pub proof fn lemma_jitter_within_bound(sum: int, cnt: int, j: int)
    requires
        1 <= cnt,
        0 <= sum <= 255 * cnt,
        -9 <= j <= 9,
    ensures
        sum / cnt - 9 <= jittered_channel(sum, cnt, j) <= sum / cnt + 9,
{
    vstd::arithmetic::div_mod::lemma_div_pos_is_pos(sum, cnt);
    vstd::arithmetic::div_mod::lemma_div_is_ordered(sum, 255 * cnt, cnt);
    vstd::arithmetic::div_mod::lemma_div_by_multiple(255, cnt);
    assert(cnt * 255 == 255 * cnt) by (nonlinear_arith);
}

} // verus!
