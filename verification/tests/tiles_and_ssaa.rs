use rustgraph::pixel::Rgba;
use rustgraph::ssaa::{block_average, downsample, render_extent};
use rustgraph::tiles::{
    bin_triangles, clip_span, screen_cell_range, shadow_cell_range, shadow_span, shadow_texel_bounds,
    shadow_tile_count, shadow_tile_extent, tile_count, tile_rects, CellRange,
};

#[test]
fn tile_count_rounds_up() {
    assert_eq!(tile_count(100, 32), 4);
    assert_eq!(tile_count(96, 32), 3);
    assert_eq!(tile_count(0, 32), 0);
    assert_eq!(tile_count(1, 1), 1);
    assert_eq!(shadow_tile_count(4096, 128), 32);
    assert_eq!(shadow_tile_count(1000, 128), 8);
}

#[test]
fn tile_rects_cut_at_frame_edge() {
    let t = tile_rects(5, 3, 2, 2);
    assert_eq!(t.len(), 6);
    assert_eq!((t[0].x_start, t[0].y_start, t[0].x_end, t[0].y_end, t[0].cell), (0, 0, 2, 2, 0));
    assert_eq!((t[2].x_start, t[2].y_start, t[2].x_end, t[2].y_end, t[2].cell), (4, 0, 5, 2, 2));
    assert_eq!((t[5].x_start, t[5].y_start, t[5].x_end, t[5].y_end, t[5].cell), (4, 2, 5, 3, 5));
}

#[test]
fn tiles_partition_every_pixel() {
    let (w, h) = (37u16, 23u16);
    let t = tile_rects(w, h, 8, 5);
    for y in 0..h {
        for x in 0..w {
            let n = t
                .iter()
                .filter(|r| r.x_start <= x && x < r.x_end && r.y_start <= y && y < r.y_end)
                .count();
            assert_eq!(n, 1, "pixel ({}, {})", x, y);
        }
    }
}

#[test]
fn binning_puts_each_triangle_in_touched_tiles() {
    let ranges = vec![
        CellRange { x0: 0, x1: 1, y0: 0, y1: 0 },
        CellRange { x0: 1, x1: 1, y0: 0, y1: 1 },
        CellRange { x0: 2, x1: 1, y0: 0, y1: 1 },
    ];
    let lists = bin_triangles(&ranges, 2, 2);
    assert_eq!(lists, vec![vec![0], vec![0, 1], vec![], vec![1]]);
}

#[test]
fn screen_cell_range_clamps() {
    let r = screen_cell_range(-3, -1, 2, 9, 4, 4);
    assert_eq!(r, CellRange { x0: 0, x1: 3, y0: 2, y1: 3 });
    let r = screen_cell_range(1, 2, 0, 0, 4, 4);
    assert_eq!(r, CellRange { x0: 1, x1: 2, y0: 0, y1: 0 });
}

#[test]
fn shadow_cell_range_divides_by_tile() {
    let r = shadow_cell_range(130, 0, 600, 127, 128, 128, 4, 4);
    assert_eq!(r, CellRange { x0: 1, x1: 3, y0: 0, y1: 0 });
}

#[test]
fn spans_clip_to_tile() {
    assert_eq!(clip_span(3, 40, 8, 16), (8, 15));
    assert_eq!(clip_span(10, 12, 8, 16), (10, 12));
    assert_eq!(clip_span(0, 5, 0, 0), (0, 0));
    assert_eq!(shadow_span(128, 256, 100, 300), (128, 256));
    assert_eq!(shadow_span(0, 128, 10, 20), (10, 20));
}

#[test]
fn shadow_texel_bounds_clamp_and_wrap() {
    assert_eq!(shadow_texel_bounds(-4, 5000, 4096), (0, 4095));
    assert_eq!(shadow_texel_bounds(10, 20, 4096), (10, 20));
    assert_eq!(shadow_texel_bounds(10, -1, 4096), (10, u32::MAX));
}

#[test]
fn shadow_tile_extent_cut_at_edge() {
    assert_eq!(shadow_tile_extent(0, 128, 300), (0, 128));
    assert_eq!(shadow_tile_extent(2, 128, 300), (256, 300));
}

#[test]
fn render_extent_scales() {
    assert_eq!(render_extent(800, 1), 800);
    assert_eq!(render_extent(800, 2), 1600);
    assert_eq!(render_extent(0, -3), 0);
    assert_eq!(render_extent(40000, 2), (80000u32 % 65536) as u16);
}

#[test]
fn downsample_uniform_keeps_color() {
    let c = Rgba::new(17, 99, 200, 255);
    let f = vec![c; 6 * 4];
    let out = downsample(&f, 2, 1, 3);
    assert_eq!(out, vec![c, c]);
}

#[test]
fn downsample_means_blocks() {
    // 4x2 render target, scale 2 -> 2x1 output
    let p = |v: u8| Rgba::new(v, v, v, v);
    let f = vec![p(0), p(2), p(100), p(101), p(4), p(6), p(102), p(104)];
    let out = downsample(&f, 2, 1, 2);
    assert_eq!(out, vec![p(3), p(101)]);
    assert_eq!(block_average(&f, 4, 1, 0, 2), p(101));
}
