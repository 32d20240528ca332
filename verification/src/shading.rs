//! The shading model of a canvas and the pixel span of one scanline.

use vstd::prelude::*;

verus! {

/// What is interpolated across a triangle: nothing (one intensity for the
/// whole face), the intensity computed at each vertex, or the normal.
#[derive(Clone, Copy, Debug, PartialEq, Eq, Structural)]
pub enum ShadingModel {
    Flat,
    Gouraud,
    Phong,
}

/// Number of pixels on a scanline from `x_left` to `x_right`, both included;
/// zero when the bounds are crossed.
pub open spec fn span_len(x_left: int, x_right: int) -> nat {
    if x_left <= x_right {
        (x_right - x_left + 1) as nat
    } else {
        0
    }
}

/// One value repeated over every pixel of the span `x_left..=x_right`: the
/// intensities of a flat-shaded scanline, or the colours of a scanline of a
/// surface of one colour.
pub fn constant_span<T: Copy>(value: T, x_left: i64, x_right: i64) -> (span: Vec<T>)
    requires
        x_right - x_left < usize::MAX,
    ensures
        span@ == Seq::new(span_len(x_left as int, x_right as int), |k: int| value),
{
    let mut span: Vec<T> = Vec::new();
    if x_left > x_right {
        return span;
    }
    let mut x: i64 = x_left;
    loop
        invariant_except_break
            x_left <= x <= x_right,
            span@ == Seq::new((x - x_left) as nat, |k: int| value),
        ensures
            span@ == Seq::new(span_len(x_left as int, x_right as int), |k: int| value),
        decreases x_right - x,
    {
        span.push(value);
        assert(span@ =~= Seq::new((x - x_left + 1) as nat, |k: int| value));
        if x == x_right {
            break;
        }
        x = x + 1;
    }
    span
}

} // verus!
