use rustgraph::config::{default_rasterizer_config, RasterizerConfig};
use rustgraph::pixel::{pack_argb, Rgba};
use rustgraph::rasterizer::{Buffers, Rasterizer};

fn cfg(scale: i32, bg: [u8; 4]) -> RasterizerConfig {
    RasterizerConfig {
        culling_enabled: false,
        ssaa_scale: scale,
        tile_width: 2,
        tile_height: 2,
        thread_count: 0,
        background_color: bg,
    }
}

#[test]
fn new_fills_background() {
    let r = Rasterizer::new(3, 2, cfg(1, [10, 20, 30, 40]));
    assert_eq!(r.frame_buffer().len(), 6);
    for p in r.frame_buffer() {
        assert_eq!(*p, Rgba::new(10, 20, 30, 40));
    }
    assert_eq!(r.width(), 3);
    assert_eq!(r.height(), 2);
}

#[test]
fn set_pixel_counts_rows_from_bottom() {
    let mut r = Rasterizer::new(3, 2, cfg(1, [0, 0, 0, 255]));
    let red = Rgba::new(255, 0, 0, 255);
    r.set_pixel(1, 0, red);
    // bottom row is the last row of the buffer
    assert_eq!(r.frame_buffer()[3 + 1], red);
    assert_eq!(r.get_index(1, 0), 4);
    assert_eq!(r.get_index(2, 1), 2);
    let changed: Vec<usize> = (0..6).filter(|&i| r.frame_buffer()[i] != Rgba::new(0, 0, 0, 255)).collect();
    assert_eq!(changed, vec![4]);
}

#[test]
fn set_pixel_outside_frame_is_ignored() {
    let mut r = Rasterizer::new(3, 2, cfg(1, [1, 2, 3, 4]));
    r.set_pixel(3, 0, Rgba::new(9, 9, 9, 9));
    r.set_pixel(0, 2, Rgba::new(9, 9, 9, 9));
    assert!(r.frame_buffer().iter().all(|p| *p == Rgba::new(1, 2, 3, 4)));
}

#[test]
fn clear_color_restores_background() {
    let mut r = Rasterizer::new(2, 2, cfg(1, [5, 6, 7, 8]));
    r.set_pixel(0, 0, Rgba::new(1, 1, 1, 1));
    r.clear(Buffers::depth());
    assert_eq!(r.frame_buffer()[2], Rgba::new(1, 1, 1, 1));
    r.clear(Buffers::color().union(Buffers::depth()));
    assert!(r.frame_buffer().iter().all(|p| *p == Rgba::new(5, 6, 7, 8)));
}

#[test]
fn buffers_flags() {
    let both = Buffers::color().union(Buffers::depth());
    assert_eq!(both.bits(), 3);
    assert!(both.contains(Buffers::color()));
    assert!(both.contains(Buffers::depth()));
    assert!(!Buffers::depth().contains(Buffers::color()));
}

#[test]
fn buffer_ids_are_fresh_and_increasing() {
    let mut r = Rasterizer::new(1, 1, default_rasterizer_config());
    let p = r.load_positions();
    let i = r.load_indices(vec![[0, 1, 2]]);
    let c = r.load_colors(vec![[255, 0, 0], [0, 255, 0], [0, 0, 255]]);
    assert_eq!(p.id(), 1);
    assert_eq!(i.id(), 2);
    assert_eq!(c.id(), 3);
    assert_eq!(r.get_next_id(), 4);
}

#[test]
fn resolve_frame_without_supersampling_keeps_frame() {
    let mut r = Rasterizer::new(2, 1, cfg(1, [0, 0, 0, 0]));
    let f = vec![Rgba::new(1, 2, 3, 4), Rgba::new(5, 6, 7, 8)];
    r.resolve_frame(f.clone());
    assert_eq!(r.frame_buffer(), &f);
}

#[test]
fn resolve_frame_box_filters() {
    let mut r = Rasterizer::new(1, 1, cfg(2, [0, 0, 0, 0]));
    let f = vec![
        Rgba::new(0, 10, 255, 255),
        Rgba::new(4, 10, 255, 255),
        Rgba::new(8, 10, 0, 255),
        Rgba::new(13, 11, 0, 255),
    ];
    r.resolve_frame(f);
    // (0 + 4 + 8 + 13) / 4 = 6, (10+10+10+11)/4 = 10, 510/4 = 127
    assert_eq!(r.frame_buffer(), &vec![Rgba::new(6, 10, 127, 255)]);
}

#[test]
fn pack_argb_layout() {
    assert_eq!(pack_argb(Rgba::new(0x12, 0x34, 0x56, 0x78)), 0x78123456);
    assert_eq!(pack_argb(Rgba::new(255, 0, 0, 255)), 0xffff0000);
    assert_eq!(pack_argb(Rgba::new(0, 0, 0, 0)), 0);
}

#[test]
fn pack_argb_keeps_channels() {
    let c = Rgba::new(200, 100, 50, 25);
    let w = pack_argb(c);
    assert_eq!((w >> 24) as u8, 25);
    assert_eq!((w >> 16) as u8, 200);
    assert_eq!((w >> 8) as u8, 100);
    assert_eq!(w as u8, 50);
}
