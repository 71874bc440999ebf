//! Texel addressing for texture sampling: clamping a texel coordinate to
//! the image, and the pair of neighbouring texels bilinear filtering reads.
use vstd::prelude::*;

verus! {

/// `x` clamped to `0..=size - 1`.
pub open spec fn clamped(x: int, size: int) -> int {
    if x < 0 {
        0
    } else if x > size - 1 {
        size - 1
    } else {
        x
    }
}

/// The texel column (or row) that coordinate `x` reads in an image `size`
/// texels across: `x` clamped to the image.
pub fn clamp_texel(x: i32, size: u32) -> (res: u32)
    requires
        1 <= size <= i32::MAX,
    ensures
        res == clamped(x as int, size as int),
{
    let last: i32 = size as i32 - 1;
    let c: i32 = if x < 0 { 0 } else if x > last { last } else { x };
    c as u32
}

/// The two texel columns (or rows) bilinear filtering blends for a sample
/// whose lower neighbour is `x0`: `x0` and `x0 + 1`, each clamped to the
/// image.
pub fn linear_texels(x0: i32, size: u32) -> (res: (u32, u32))
    requires
        1 <= size <= i32::MAX,
        x0 < i32::MAX,
    ensures
        res.0 == clamped(x0 as int, size as int),
        res.1 == clamped(x0 + 1, size as int),
{
    let first = clamp_texel(x0, size);
    let second = clamp_texel(x0 + 1, size);
    (first, second)
}

/// Law: a clamped texel lies in the image, and a coordinate already in the
/// image is read as it is.
pub proof fn clamped_texel_in_image(x: int, size: int)
    requires
        size >= 1,
    ensures
        0 <= clamped(x, size) < size,
        0 <= x < size ==> clamped(x, size) == x,
{
}

} // verus!
