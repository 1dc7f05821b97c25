//! Which pixels a line between two stars covers and which palette colour
//! each of them takes.
use vstd::prelude::*;

use crate::geometry::{div_toward_zero, div_trunc};
use crate::star::LinkStyle;

verus! {

/// Colour of the `i`-th pixel from either end of a dim line, for `i < 5`.
pub open spec fn dim_end_color(i: int) -> int {
    if i == 0 || i == 2 || i == 3 {
        1
    } else {
        0
    }
}

/// Colour of the `i`-th pixel from either end of a bright line, for `i < 5`.
pub open spec fn bright_end_color(i: int) -> int {
    if i == 2 || i == 4 {
        2
    } else {
        1
    }
}

/// Palette colour of pixel `progress` of a line `steps` pixels long, drawn in
/// `style` at frame `timer`; `0` leaves the pixel as it is. Dashed lines leave
/// their first pixels out and march with the timer; dim and bright lines leave
/// a gap at both ends and fade in over their first and last pixels; a shine
/// runs along bright lines.
pub open spec fn line_color(style: LinkStyle, steps: int, progress: int, timer: int) -> int {
    match style {
        LinkStyle::Dashed => if progress < 4 {
            0
        } else if (progress - (timer / 6) % 5 + 5) % 5 < 3 {
            1
        } else {
            0
        },
        LinkStyle::Dim => if progress < 3 || progress > steps - 3 {
            0
        } else if progress < 8 {
            dim_end_color(progress - 3)
        } else if steps - progress < 8 {
            dim_end_color(steps - progress - 3)
        } else {
            1
        },
        LinkStyle::Bright => if progress < 4 || progress > steps - 4 {
            0
        } else {
            let base = if progress < 9 {
                bright_end_color(progress - 4)
            } else if steps - progress < 9 {
                bright_end_color(steps - progress - 4)
            } else {
                2
            };
            let shine = (timer % 256) * 2;
            if shine <= progress < shine + 6 {
                base + 1
            } else {
                base
            }
        },
    }
}

/// Colour of the `i`-th pixel from either end of a dim line.
fn dim_end(i: u32) -> (r: u8)
    requires
        i < 5,
    ensures
        r == dim_end_color(i as int),
{
    match i {
        0 => 1,
        1 => 0,
        2 => 1,
        3 => 1,
        _ => 0,
    }
}

/// Colour of the `i`-th pixel from either end of a bright line.
fn bright_end(i: u32) -> (r: u8)
    requires
        i < 5,
    ensures
        r == bright_end_color(i as int),
{
    match i {
        0 => 1,
        1 => 1,
        2 => 2,
        3 => 1,
        _ => 2,
    }
}

/// Palette colour of pixel `progress` of a line `steps` pixels long, drawn in
/// `style` at frame `timer`.
pub fn get_color(style: LinkStyle, steps: u32, progress: u32, timer: u32) -> (r: u8)
    requires
        progress < steps,
    ensures
        r == line_color(style, steps as int, progress as int, timer as int),
        r <= 3,
{
    match style {
        LinkStyle::Dashed => {
            if progress < 4 {
                0
            } else if (progress - (timer / 6) % 5) % 5 < 3 {
                1
            } else {
                0
            }
        },
        LinkStyle::Dim => {
            if progress < 3 || progress > steps - 3 {
                0
            } else if progress < 8 {
                dim_end(progress - 3)
            } else if steps - progress < 8 {
                dim_end(steps - progress - 3)
            } else {
                1
            }
        },
        LinkStyle::Bright => {
            if progress < 4 || progress > steps - 4 {
                return 0;
            }
            let base: u8 = if progress < 9 {
                bright_end(progress - 4)
            } else if steps - progress < 9 {
                bright_end(steps - progress - 4)
            } else {
                2
            };
            let shine: u32 = (timer % 256) * 2;
            if progress >= shine && progress < shine + 6 {
                base + 1
            } else {
                base
            }
        },
    }
}

/// Number of pixels of a line from `(x1, y1)` to `(x2, y2)`: the longer of
/// its two extents.
pub open spec fn line_steps(x1: int, y1: int, x2: int, y2: int) -> int {
    let ax = if x2 >= x1 { x2 - x1 } else { x1 - x2 };
    let ay = if y2 >= y1 { y2 - y1 } else { y1 - y2 };
    if ax >= ay { ax } else { ay }
}

/// The world positions of the pixels of a line from `(x1, y1)` to `(x2, y2)`
/// in order from the start: pixel `i` lies at the start plus the offset times
/// `(2i + 1) / (2 * steps)`, rounded toward zero.
pub fn line_points(x1: i16, y1: i16, x2: i16, y2: i16) -> (r: Vec<(i32, i32)>)
    ensures
        r@.len() == line_steps(x1 as int, y1 as int, x2 as int, y2 as int),
        forall|i: int|
            #![trigger r@[i]]
            0 <= i < r@.len() ==> {
                let steps = line_steps(x1 as int, y1 as int, x2 as int, y2 as int);
                &&& r@[i].0 == x1 + div_trunc((x2 - x1) * (2 * i + 1), 2 * steps)
                &&& r@[i].1 == y1 + div_trunc((y2 - y1) * (2 * i + 1), 2 * steps)
            },
{
    let dx: i64 = x2 as i64 - x1 as i64;
    let dy: i64 = y2 as i64 - y1 as i64;
    let ax: i64 = if dx >= 0 { dx } else { -dx };
    let ay: i64 = if dy >= 0 { dy } else { -dy };
    let steps: i64 = if ax >= ay { ax } else { ay };
    let mut points: Vec<(i32, i32)> = Vec::new();
    let mut i: i64 = 0;
    while i < steps
        invariant
            0 <= i <= steps,
            steps == line_steps(x1 as int, y1 as int, x2 as int, y2 as int),
            steps < 0x1_0000,
            -steps <= dx <= steps,
            -steps <= dy <= steps,
            dx == x2 - x1,
            dy == y2 - y1,
            points@.len() == i,
            forall|j: int|
                #![trigger points@[j]]
                0 <= j < i ==> points@[j].0 == x1 + div_trunc(dx * (2 * j + 1), 2 * steps)
                    && points@[j].1 == y1 + div_trunc(dy * (2 * j + 1), 2 * steps),
        decreases steps - i,
    {
        proof {
            assert(-0x2_0000_0000 < dx * (2 * i + 1) < 0x2_0000_0000
                && -0x2_0000_0000 < dy * (2 * i + 1) < 0x2_0000_0000) by (nonlinear_arith)
                requires
                    -steps <= dx <= steps,
                    -steps <= dy <= steps,
                    0 <= i < steps,
                    steps < 0x1_0000,
            ;
            lemma_offset_within(dx as int, 2 * i + 1, 2 * steps as int);
            lemma_offset_within(dy as int, 2 * i + 1, 2 * steps as int);
        }
        let ox: i64 = div_toward_zero(dx * (2 * i + 1), 2 * steps);
        let oy: i64 = div_toward_zero(dy * (2 * i + 1), 2 * steps);
        points.push(((x1 as i64 + ox) as i32, (y1 as i64 + oy) as i32));
        i = i + 1;
    }
    points
}

/// A part `m / s` (with `0 < m < s`) of an offset no longer than `s / 2` is no longer than `s / 2`.
proof fn lemma_offset_within(d: int, m: int, s: int)
    requires
        0 < m < s,
        -s <= 2 * d <= s,
    ensures
        -s <= div_trunc(d * m, s) <= s,
{
    if d >= 0 {
        assert(0 <= (d * m) / s <= d) by (nonlinear_arith)
            requires
                0 <= d,
                0 < m < s,
        ;
    } else {
        assert(d * m < 0 && 0 <= (-(d * m)) / s <= -d) by (nonlinear_arith)
            requires
                d < 0,
                0 < m < s,
        ;
    }
}

} // verus!
