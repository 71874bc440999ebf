//! Supersampling: the size of the enlarged render target, and the box
//! filter that resolves it back to the output resolution.
use vstd::prelude::*;
use crate::pixel::Rgba;
use crate::tiles::lemma_cell_join;

verus! {

/// The render-target side for an output side `size` and supersampling
/// factor `scale`: `size` itself when `scale` is 1, otherwise
/// `size * scale` as 32-bit unsigned arithmetic, cut to 16 bits.
pub fn render_extent(size: u16, scale: i32) -> (res: u16)
    requires
        scale == 1 || size as int * (scale as u32) as int <= u32::MAX,
    ensures
        scale == 1 ==> res == size,
        scale != 1 ==> res as int == (size as int * (scale as u32) as int) % 0x10000,
{
    if scale == 1 {
        size
    } else {
        let wide: u32 = size as u32 * scale as u32;
        let res = wide as u16;
        assert(res as int == wide as int % 0x10000) by (bit_vector)
            requires res == wide as u16;
        res
    }
}

/// Channel `k` of a pixel: 0 red, 1 green, 2 blue, 3 alpha.
pub open spec fn channel(c: Rgba, k: int) -> int {
    if k == 0 {
        c.r as int
    } else if k == 1 {
        c.g as int
    } else if k == 2 {
        c.b as int
    } else {
        c.a as int
    }
}

/// Sum of channel `k` over the `n` pixels `frame[start .. start + n]`.
pub open spec fn row_sum(frame: Seq<Rgba>, start: int, n: nat, k: int) -> int
    decreases n,
{
    if n == 0 {
        0
    } else {
        row_sum(frame, start, (n - 1) as nat, k) + channel(frame[start + n - 1], k)
    }
}

/// Sum of channel `k` over the `rows` x `cols` block whose top-left pixel is
/// `(x0, y0)` in a frame stored row by row, `stride` pixels per row.
pub open spec fn block_sum(
    frame: Seq<Rgba>,
    stride: int,
    x0: int,
    y0: int,
    rows: nat,
    cols: nat,
    k: int,
) -> int
    decreases rows,
{
    if rows == 0 {
        0
    } else {
        block_sum(frame, stride, x0, y0, (rows - 1) as nat, cols, k) + row_sum(
            frame,
            (y0 + rows - 1) * stride + x0,
            cols,
            k,
        )
    }
}

/// Channel `k` of output pixel `(x, y)`: the truncated mean of the
/// `scale` x `scale` block of render pixels it covers.
pub open spec fn block_mean(frame: Seq<Rgba>, stride: int, x: int, y: int, scale: nat, k: int) -> int {
    block_sum(frame, stride, x * scale, y * scale, scale, scale, k) / (scale * scale) as int
}

/// Whether `out` is the box-filtered `width` x `height` image of the render
/// target `frame`, which is `scale` times larger on each side.
pub open spec fn is_downsampled(
    out: Seq<Rgba>,
    frame: Seq<Rgba>,
    width: int,
    height: int,
    scale: nat,
) -> bool {
    &&& out.len() == width * height
    &&& forall|i: int|
        0 <= i < out.len() ==> {
            let p = #[trigger] out[i];
            let x = i % width;
            let y = i / width;
            &&& p.r == block_mean(frame, width * scale, x, y, scale, 0)
            &&& p.g == block_mean(frame, width * scale, x, y, scale, 1)
            &&& p.b == block_mean(frame, width * scale, x, y, scale, 2)
            &&& p.a == block_mean(frame, width * scale, x, y, scale, 3)
        }
}

proof fn lemma_row_sum_bounds(frame: Seq<Rgba>, start: int, n: nat, k: int)
    ensures
        0 <= row_sum(frame, start, n, k) <= 255 * n,
    decreases n,
{
    if n > 0 {
        lemma_row_sum_bounds(frame, start, (n - 1) as nat, k);
    }
}

proof fn lemma_block_sum_bounds(
    frame: Seq<Rgba>,
    stride: int,
    x0: int,
    y0: int,
    rows: nat,
    cols: nat,
    k: int,
)
    ensures
        0 <= block_sum(frame, stride, x0, y0, rows, cols, k) <= 255 * rows * cols,
    decreases rows,
{
    if rows > 0 {
        lemma_block_sum_bounds(frame, stride, x0, y0, (rows - 1) as nat, cols, k);
        lemma_row_sum_bounds(frame, (y0 + rows - 1) * stride + x0, cols, k);
        assert(255 * (rows - 1) * cols + 255 * cols == 255 * rows * cols) by (nonlinear_arith);
    }
}

/// The truncated mean of each channel over the `scale` x `scale` block of
/// `frame` (stored `stride` pixels per row) that output pixel `(x, y)`
/// covers.
pub fn block_average(frame: &Vec<Rgba>, stride: usize, x: usize, y: usize, scale: u32) -> (res: Rgba)
    requires
        scale >= 1,
        scale * scale * 255 <= u32::MAX,
        x * scale + scale <= stride,
        (y * scale + scale) * stride <= frame.len(),
    ensures
        res.r == block_mean(frame@, stride as int, x as int, y as int, scale as nat, 0),
        res.g == block_mean(frame@, stride as int, x as int, y as int, scale as nat, 1),
        res.b == block_mean(frame@, stride as int, x as int, y as int, scale as nat, 2),
        res.a == block_mean(frame@, stride as int, x as int, y as int, scale as nat, 3),
{
    let ghost f = frame@;
    let ghost st = stride as int;
    let ghost x0 = x as int * scale as int;
    let ghost y0 = y as int * scale as int;
    let ghost n = scale as nat;
    let mut r_sum: u32 = 0;
    let mut g_sum: u32 = 0;
    let mut b_sum: u32 = 0;
    let mut a_sum: u32 = 0;
    let mut sy: u32 = 0;
    while sy < scale
        invariant
            f == frame@,
            st == stride,
            x0 == x * scale,
            y0 == y * scale,
            n == scale,
            scale >= 1,
            scale * scale * 255 <= u32::MAX,
            x * scale + scale <= stride,
            (y * scale + scale) * stride <= frame.len(),
            sy <= scale,
            r_sum == block_sum(f, st, x0, y0, sy as nat, n, 0),
            g_sum == block_sum(f, st, x0, y0, sy as nat, n, 1),
            b_sum == block_sum(f, st, x0, y0, sy as nat, n, 2),
            a_sum == block_sum(f, st, x0, y0, sy as nat, n, 3),
        decreases scale - sy,
    {
        proof {
            lemma_block_sum_bounds(f, st, x0, y0, sy as nat, n, 0);
            lemma_block_sum_bounds(f, st, x0, y0, sy as nat, n, 1);
            lemma_block_sum_bounds(f, st, x0, y0, sy as nat, n, 2);
            lemma_block_sum_bounds(f, st, x0, y0, sy as nat, n, 3);
        }
        let ghost rs = r_sum as int;
        let ghost gs = g_sum as int;
        let ghost bs = b_sum as int;
        let ghost as_ = a_sum as int;
        let ghost row_start = (y0 + sy) * st + x0;
        let mut sx: u32 = 0;
        while sx < scale
            invariant
                f == frame@,
                st == stride,
                x0 == x * scale,
                y0 == y * scale,
                n == scale,
                scale >= 1,
                scale * scale * 255 <= u32::MAX,
                x * scale + scale <= stride,
                (y * scale + scale) * stride <= frame.len(),
                sy < scale,
                sx <= scale,
                row_start == (y0 + sy) * st + x0,
                0 <= rs <= 255 * sy * scale,
                0 <= gs <= 255 * sy * scale,
                0 <= bs <= 255 * sy * scale,
                0 <= as_ <= 255 * sy * scale,
                r_sum == rs + row_sum(f, row_start, sx as nat, 0),
                g_sum == gs + row_sum(f, row_start, sx as nat, 1),
                b_sum == bs + row_sum(f, row_start, sx as nat, 2),
                a_sum == as_ + row_sum(f, row_start, sx as nat, 3),
            decreases scale - sx,
        {
            proof {
                lemma_row_sum_bounds(f, row_start, sx as nat, 0);
                lemma_row_sum_bounds(f, row_start, sx as nat, 1);
                lemma_row_sum_bounds(f, row_start, sx as nat, 2);
                lemma_row_sum_bounds(f, row_start, sx as nat, 3);
                assert(255 * sy * scale + 255 * sx + 255 <= scale * scale * 255) by (nonlinear_arith)
                    requires sy < scale, sx < scale;
                assert(row_start + sx < frame.len()) by (nonlinear_arith)
                    requires
                        row_start == (y0 + sy) * st + x0,
                        x0 == x * scale,
                        y0 == y * scale,
                        sx < scale,
                        sy < scale,
                        x * scale + scale <= st,
                        (y * scale + scale) * st <= frame.len(),
                        st >= 0,
                ;
                assert(row_start >= 0) by (nonlinear_arith)
                    requires row_start == (y0 + sy) * st + x0, x0 >= 0, y0 >= 0, st >= 0, sy >= 0;
                assert(y * scale + scale <= (y * scale + scale) * stride) by (nonlinear_arith)
                    requires stride >= 1, y * scale + scale >= 0;
                assert(y * scale + sy < y * scale + scale);
                assert(x * scale <= stride);
                assert((y * scale + sy) * stride <= (y * scale + scale) * stride) by (nonlinear_arith)
                    requires y * scale + sy < y * scale + scale, stride >= 0;
            }
            let hy: usize = y * scale as usize + sy as usize;
            let hx: usize = x * scale as usize + sx as usize;
            let idx: usize = hy * stride + hx;
            let c = frame[idx];
            r_sum = r_sum + c.r as u32;
            g_sum = g_sum + c.g as u32;
            b_sum = b_sum + c.b as u32;
            a_sum = a_sum + c.a as u32;
            sx = sx + 1;
        }
        sy = sy + 1;
    }
    let count: u32 = scale * scale;
    proof {
        assert(count >= 1) by (nonlinear_arith)
            requires count == scale * scale, scale >= 1;
        lemma_block_sum_bounds(f, st, x0, y0, n, n, 0);
        lemma_block_sum_bounds(f, st, x0, y0, n, n, 1);
        lemma_block_sum_bounds(f, st, x0, y0, n, n, 2);
        lemma_block_sum_bounds(f, st, x0, y0, n, n, 3);
        lemma_mean_fits(r_sum as int, scale as int);
        lemma_mean_fits(g_sum as int, scale as int);
        lemma_mean_fits(b_sum as int, scale as int);
        lemma_mean_fits(a_sum as int, scale as int);
    }
    Rgba {
        r: (r_sum / count) as u8,
        g: (g_sum / count) as u8,
        b: (b_sum / count) as u8,
        a: (a_sum / count) as u8,
    }
}

proof fn lemma_mean_fits(sum: int, scale: int)
    requires
        scale >= 1,
        0 <= sum <= 255 * scale * scale,
    ensures
        0 <= sum / (scale * scale) <= 255,
{
    assert(0 <= sum / (scale * scale) <= 255) by (nonlinear_arith)
        requires scale >= 1, 0 <= sum <= 255 * scale * scale;
}

/// Resolves a supersampled render target to the output resolution: output
/// pixel `(x, y)` gets, channel by channel, the truncated mean of the
/// `scale` x `scale` block of render pixels starting at
/// `(x * scale, y * scale)`. The render target is `width * scale` pixels
/// wide and `height * scale` high, stored row by row.
pub fn downsample(frame: &Vec<Rgba>, width: u16, height: u16, scale: i32) -> (res: Vec<Rgba>)
    requires
        scale >= 1,
        width * scale <= u16::MAX,
        height * scale <= u16::MAX,
        frame.len() == (width * scale) * (height * scale),
        width == 0 || height == 0 || scale * scale * 255 <= u32::MAX,
    ensures
        is_downsampled(res@, frame@, width as int, height as int, scale as nat),
{
    let s: u32 = scale as u32;
    let stride: usize = width as usize * s as usize;
    let mut out: Vec<Rgba> = Vec::new();
    let mut y: u16 = 0;
    while y < height
        invariant
            s == scale,
            s >= 1,
            stride == width * s,
            width * s <= u16::MAX,
            height * s <= u16::MAX,
            frame.len() == (width * s) * (height * s),
            width == 0 || height == 0 || s * s * 255 <= u32::MAX,
            y <= height,
            out.len() == y * width,
            forall|i: int|
                0 <= i < out.len() ==> {
                    let p = #[trigger] out@[i];
                    let px = i % (width as int);
                    let py = i / (width as int);
                    &&& p.r == block_mean(frame@, stride as int, px, py, s as nat, 0)
                    &&& p.g == block_mean(frame@, stride as int, px, py, s as nat, 1)
                    &&& p.b == block_mean(frame@, stride as int, px, py, s as nat, 2)
                    &&& p.a == block_mean(frame@, stride as int, px, py, s as nat, 3)
                },
        decreases height - y,
    {
        let mut x: u16 = 0;
        while x < width
            invariant
                s == scale,
                s >= 1,
                stride == width * s,
                width * s <= u16::MAX,
                height * s <= u16::MAX,
                frame.len() == (width * s) * (height * s),
                width == 0 || s * s * 255 <= u32::MAX,
                y < height,
                x <= width,
                out.len() == y * width + x,
                forall|i: int|
                    0 <= i < out.len() ==> {
                        let p = #[trigger] out@[i];
                        let px = i % (width as int);
                        let py = i / (width as int);
                        &&& p.r == block_mean(frame@, stride as int, px, py, s as nat, 0)
                        &&& p.g == block_mean(frame@, stride as int, px, py, s as nat, 1)
                        &&& p.b == block_mean(frame@, stride as int, px, py, s as nat, 2)
                        &&& p.a == block_mean(frame@, stride as int, px, py, s as nat, 3)
                    },
            decreases width - x,
        {
            proof {
                assert(x * s + s <= width * s) by (nonlinear_arith)
                    requires x < width;
                assert((y * s + s) * stride <= (height * s) * (width * s)) by (nonlinear_arith)
                    requires y < height, stride == width * s, s >= 1;
                lemma_cell_join(x as int, y as int, width as int);
            }
            let p = block_average(frame, stride, x as usize, y as usize, s);
            out.push(p);
            x = x + 1;
        }
        y = y + 1;
        assert(out.len() == y * width) by (nonlinear_arith)
            requires out.len() == (y - 1) * width + width;
    }
    proof {
        assert(out.len() == (width as int) * (height as int)) by (nonlinear_arith)
            requires out.len() == y * width, y == height;
    }
    out
}

/// Position in the frame of pixel `(j, r)` of the block at `(x0, y0)`.
pub open spec fn block_index(stride: int, x0: int, y0: int, r: int, j: int) -> int {
    (y0 + r) * stride + x0 + j
}

proof fn lemma_row_sum_uniform(frame: Seq<Rgba>, start: int, n: nat, k: int, c: Rgba)
    requires
        forall|j: int| start <= j < start + n ==> frame[j] == c,
    ensures
        row_sum(frame, start, n, k) == n * channel(c, k),
    decreases n,
{
    if n > 0 {
        lemma_row_sum_uniform(frame, start, (n - 1) as nat, k, c);
        assert(frame[start + n - 1] == c);
        assert((n - 1) * channel(c, k) + channel(c, k) == n * channel(c, k)) by (nonlinear_arith);
        assert(row_sum(frame, start, n, k) == row_sum(frame, start, (n - 1) as nat, k) + channel(
            frame[start + n - 1],
            k,
        ));
    } else {
        assert(n * channel(c, k) == 0) by (nonlinear_arith)
            requires n == 0;
    }
}

proof fn lemma_block_sum_uniform(
    frame: Seq<Rgba>,
    stride: int,
    x0: int,
    y0: int,
    rows: nat,
    cols: nat,
    k: int,
    c: Rgba,
)
    requires
        forall|r: int, j: int|
            0 <= r < rows && 0 <= j < cols ==> frame[#[trigger] block_index(stride, x0, y0, r, j)] == c,
    ensures
        block_sum(frame, stride, x0, y0, rows, cols, k) == rows * cols * channel(c, k),
    decreases rows,
{
    if rows > 0 {
        lemma_block_sum_uniform(frame, stride, x0, y0, (rows - 1) as nat, cols, k, c);
        let start = (y0 + rows - 1) * stride + x0;
        assert forall|j: int| start <= j < start + cols implies frame[j] == c by {
            assert(frame[block_index(stride, x0, y0, rows - 1, j - start)] == c);
        }
        lemma_row_sum_uniform(frame, start, cols, k, c);
        assert((rows - 1) * cols * channel(c, k) + cols * channel(c, k) == rows * cols * channel(c, k))
            by (nonlinear_arith);
    } else {
        assert(rows * cols * channel(c, k) == 0) by (nonlinear_arith)
            requires rows == 0;
    }
}

/// Law: resolving a render target filled with a single color gives an
/// image of that same color.
pub proof fn downsampling_keeps_uniform_color(
    out: Seq<Rgba>,
    frame: Seq<Rgba>,
    width: int,
    height: int,
    scale: nat,
    c: Rgba,
    i: int,
)
    requires
        scale >= 1,
        width >= 0,
        height >= 0,
        frame.len() == (width * scale) * (height * scale),
        forall|j: int| 0 <= j < frame.len() ==> frame[j] == c,
        is_downsampled(out, frame, width, height, scale),
        0 <= i < out.len(),
    ensures
        out[i] == c,
{
    let x = i % width;
    let y = i / width;
    let stride = width * scale;
    assert(width > 0) by (nonlinear_arith)
        requires 0 <= i < width * height, width >= 0, height >= 0;
    crate::tiles::lemma_cell_split(i, width);
    assert(y < height) by (nonlinear_arith)
        requires i == y * width + x, 0 <= x, i < width * height, width > 0, y >= 0;
    assert forall|r: int, j: int| 0 <= r < scale && 0 <= j < scale implies frame[#[trigger] block_index(
        stride,
        x * scale,
        y * scale,
        r,
        j,
    )] == c by {
        let idx = block_index(stride, x * scale, y * scale, r, j);
        assert(0 <= idx < frame.len()) by (nonlinear_arith)
            requires
                idx == (y * scale + r) * stride + x * scale + j,
                stride == width * scale,
                0 <= r < scale,
                0 <= j < scale,
                0 <= x < width,
                0 <= y < height,
                frame.len() == (width * scale) * (height * scale),
        ;
    }
    assert(scale * scale > 0) by (nonlinear_arith)
        requires scale >= 1;
    lemma_block_sum_uniform(frame, stride, x * scale, y * scale, scale, scale, 0, c);
    lemma_block_sum_uniform(frame, stride, x * scale, y * scale, scale, scale, 1, c);
    lemma_block_sum_uniform(frame, stride, x * scale, y * scale, scale, scale, 2, c);
    lemma_block_sum_uniform(frame, stride, x * scale, y * scale, scale, scale, 3, c);
    lemma_mean_of_uniform(scale as int, channel(c, 0));
    lemma_mean_of_uniform(scale as int, channel(c, 1));
    lemma_mean_of_uniform(scale as int, channel(c, 2));
    lemma_mean_of_uniform(scale as int, channel(c, 3));
}

proof fn lemma_mean_of_uniform(scale: int, v: int)
    requires
        scale >= 1,
    ensures
        scale * scale * v / (scale * scale) == v,
{
    assert(scale * scale * v / (scale * scale) == v) by (nonlinear_arith)
        requires scale >= 1;
}

} // verus!
