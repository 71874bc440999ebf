//! Renderer settings: window, rasterizer, model and output sections, and
//! the built-in defaults used when no settings file can be read.
use vstd::prelude::*;

verus! {

/// Output window: title and size in pixels.
pub struct WindowConfig {
    pub title: String,
    pub width: u16,
    pub height: u16,
}

/// Rasterizer settings.
#[derive(Clone, Copy)]
pub struct RasterizerConfig {
    /// Discard triangles wound clockwise on screen.
    pub culling_enabled: bool,
    /// Supersampling factor per side; 1 renders at the output size.
    pub ssaa_scale: i32,
    /// Tile size used to split the frame between workers.
    pub tile_width: u16,
    pub tile_height: u16,
    /// Worker count; 0 lets the thread pool decide.
    pub thread_count: u16,
    /// RGBA color the frame is cleared to.
    pub background_color: [u8; 4],
}

/// Model to load.
pub struct ModelConfig {
    pub path: String,
}

/// Where the rendered image and the debug images go.
#[derive(Clone)]
pub struct OutputConfig {
    pub png_path: String,
    pub debug_dir: String,
}

/// Default window: 1280 x 800 titled "RustGraph(CPU Rasterizer)".
pub fn default_window_config() -> (res: WindowConfig)
    ensures
        res.title@ == "RustGraph(CPU Rasterizer)"@,
        res.width == 1280,
        res.height == 800,
{
    WindowConfig { title: "RustGraph(CPU Rasterizer)".to_owned(), width: 1280, height: 800 }
}

/// Default rasterizer settings: no culling, no supersampling, 128 x 128
/// tiles, automatic worker count, opaque black background.
pub fn default_rasterizer_config() -> (res: RasterizerConfig)
    ensures
        !res.culling_enabled,
        res.ssaa_scale == 1,
        res.tile_width == 128,
        res.tile_height == 128,
        res.thread_count == 0,
        res.background_color@ == seq![0u8, 0u8, 0u8, 255u8],
{
    let res = RasterizerConfig {
        culling_enabled: false,
        ssaa_scale: 1,
        tile_width: 128,
        tile_height: 128,
        thread_count: 0,
        background_color: [0, 0, 0, 255],
    };
    assert(res.background_color@ =~= seq![0u8, 0u8, 0u8, 255u8]);
    res
}

/// Default model: `./model/suzanne.glb`.
pub fn default_model_config() -> (res: ModelConfig)
    ensures
        res.path@ == "./model/suzanne.glb"@,
{
    ModelConfig { path: "./model/suzanne.glb".to_owned() }
}

/// Default outputs: `./output.png`, debug images under `./debug_output`.
pub fn default_output_config() -> (res: OutputConfig)
    ensures
        res.png_path@ == "./output.png"@,
        res.debug_dir@ == "./debug_output"@,
{
    OutputConfig { png_path: "./output.png".to_owned(), debug_dir: "./debug_output".to_owned() }
}

/// The tile side actually used: the configured one, at least 1.
pub fn effective_tile_size(configured: u16) -> (res: u16)
    ensures
        res == if configured >= 1 { configured } else { 1 },
{
    if configured >= 1 { configured } else { 1 }
}

} // verus!
