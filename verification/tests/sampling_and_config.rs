use rustgraph::config::{
    default_model_config, default_output_config, default_rasterizer_config, default_window_config,
    effective_tile_size,
};
use rustgraph::shader::pcf_texels;
use rustgraph::texture::{clamp_texel, linear_texels};

#[test]
fn default_config_values() {
    let w = default_window_config();
    assert_eq!(w.title, "RustGraph(CPU Rasterizer)");
    assert_eq!((w.width, w.height), (1280, 800));
    let r = default_rasterizer_config();
    assert!(!r.culling_enabled);
    assert_eq!(r.ssaa_scale, 1);
    assert_eq!((r.tile_width, r.tile_height, r.thread_count), (128, 128, 0));
    assert_eq!(r.background_color, [0, 0, 0, 255]);
    assert_eq!(default_model_config().path, "./model/suzanne.glb");
    let o = default_output_config();
    assert_eq!(o.png_path, "./output.png");
    assert_eq!(o.debug_dir, "./debug_output");
}

#[test]
fn tile_size_at_least_one() {
    assert_eq!(effective_tile_size(0), 1);
    assert_eq!(effective_tile_size(64), 64);
}

#[test]
fn texel_clamping() {
    assert_eq!(clamp_texel(-7, 16), 0);
    assert_eq!(clamp_texel(5, 16), 5);
    assert_eq!(clamp_texel(99, 16), 15);
    assert_eq!(linear_texels(-1, 16), (0, 0));
    assert_eq!(linear_texels(7, 16), (7, 8));
    assert_eq!(linear_texels(15, 16), (15, 15));
}

#[test]
fn pcf_texels_neighbours() {
    let t = pcf_texels(2, 3, 8);
    assert_eq!((t.i00, t.i10, t.i01, t.i11), (26, 27, 34, 35));
    let t = pcf_texels(-5, 100, 8);
    assert_eq!((t.i00, t.i10, t.i01, t.i11), (56, 57, 56, 57));
    let t = pcf_texels(0, 0, 1);
    assert_eq!((t.i00, t.i10, t.i01, t.i11), (0, 0, 0, 0));
}
