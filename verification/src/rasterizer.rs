//! The rasterizer's integer state: the color frame buffer with its
//! bottom-up pixel addressing, the vertex-buffer registry and its ids, and
//! the final resolve of a rendered frame.
use vstd::prelude::*;
use std::collections::BTreeMap;
use crate::config::RasterizerConfig;
use crate::pixel::Rgba;
use crate::ssaa::{downsample, is_downsampled};

verus! {

/// A set of the render buffers a clear applies to.
#[derive(Clone, Copy, PartialEq, Eq, Debug, Structural)]
pub struct Buffers {
    bits: u32,
}

/// Bit of the color buffer.
pub const COLOR_BIT: u32 = 1;

/// Bit of the depth buffer.
pub const DEPTH_BIT: u32 = 2;

impl Buffers {
    pub closed spec fn spec_bits(self) -> u32 {
        self.bits
    }

    /// The color buffer alone.
    pub fn color() -> (res: Buffers)
        ensures
            res.spec_bits() == COLOR_BIT,
    {
        Buffers { bits: COLOR_BIT }
    }

    /// The depth buffer alone.
    pub fn depth() -> (res: Buffers)
        ensures
            res.spec_bits() == DEPTH_BIT,
    {
        Buffers { bits: DEPTH_BIT }
    }

    /// The buffers of `self` together with those of `other`.
    pub fn union(self, other: Buffers) -> (res: Buffers)
        ensures
            res.spec_bits() == self.spec_bits() | other.spec_bits(),
    {
        Buffers { bits: self.bits | other.bits }
    }

    pub fn bits(self) -> (res: u32)
        ensures
            res == self.spec_bits(),
    {
        self.bits
    }

    /// Whether every buffer of `other` is in `self`.
    pub fn contains(self, other: Buffers) -> (res: bool)
        ensures
            res == (self.spec_bits() & other.spec_bits() == other.spec_bits()),
    {
        self.bits & other.bits == other.bits
    }
}

/// Drawing primitive kinds.
#[derive(Clone, Copy, PartialEq, Eq, Debug, Structural)]
pub enum Primitive {
    Line,
    Triangle,
}

/// Handle of a loaded position buffer.
#[derive(Clone, Copy, PartialEq, Eq, Debug, Structural)]
pub struct PosBufId {
    pos_id: u32,
}

/// Handle of a loaded index buffer.
#[derive(Clone, Copy, PartialEq, Eq, Debug, Structural)]
pub struct IndBufId {
    ind_id: u32,
}

/// Handle of a loaded color buffer.
#[derive(Clone, Copy, PartialEq, Eq, Debug, Structural)]
pub struct ColBufId {
    col_id: u32,
}

impl PosBufId {
    pub closed spec fn spec_id(self) -> u32 {
        self.pos_id
    }

    pub fn id(self) -> (res: u32)
        ensures
            res == self.spec_id(),
    {
        self.pos_id
    }
}

impl IndBufId {
    pub closed spec fn spec_id(self) -> u32 {
        self.ind_id
    }

    pub fn id(self) -> (res: u32)
        ensures
            res == self.spec_id(),
    {
        self.ind_id
    }
}

impl ColBufId {
    pub closed spec fn spec_id(self) -> u32 {
        self.col_id
    }

    pub fn id(self) -> (res: u32)
        ensures
            res == self.spec_id(),
    {
        self.col_id
    }
}

/// Position of pixel `(x, y)` in a `width` x `height` frame stored top row
/// first, with `y` counted from the bottom row.
pub open spec fn pixel_index(width: int, height: int, x: int, y: int) -> int {
    (height - 1 - y) * width + x
}

/// The background pixel of a configuration.
pub open spec fn background(config: RasterizerConfig) -> Rgba {
    Rgba {
        r: config.background_color[0],
        g: config.background_color[1],
        b: config.background_color[2],
        a: config.background_color[3],
    }
}

/// Integer state of the rasterizer.
pub struct Rasterizer {
    width: u16,
    height: u16,
    frame_buf: Vec<Rgba>,
    next_id: u32,
    config: RasterizerConfig,
    ind_buf: BTreeMap<u32, Vec<[u32; 3]>>,
    col_buf: BTreeMap<u32, Vec<[u8; 3]>>,
}

impl Rasterizer {
    pub closed spec fn spec_width(&self) -> u16 {
        self.width
    }

    pub closed spec fn spec_height(&self) -> u16 {
        self.height
    }

    /// The color buffer, top row first.
    pub closed spec fn frame(&self) -> Seq<Rgba> {
        self.frame_buf@
    }

    /// The last buffer id handed out (0 before the first).
    pub closed spec fn last_id(&self) -> u32 {
        self.next_id
    }

    pub closed spec fn spec_config(&self) -> RasterizerConfig {
        self.config
    }

    /// Index buffers by id.
    pub closed spec fn index_buffers(&self) -> Map<u32, Seq<[u32; 3]>> {
        self.ind_buf@.map_values(|v: Vec<[u32; 3]>| v@)
    }

    /// Color buffers by id.
    pub closed spec fn color_buffers(&self) -> Map<u32, Seq<[u8; 3]>> {
        self.col_buf@.map_values(|v: Vec<[u8; 3]>| v@)
    }

    /// Every registered buffer has an id that was already handed out.
    pub closed spec fn ids_issued(&self) -> bool {
        &&& forall|k: u32| self.ind_buf@.contains_key(k) ==> 1 <= k <= self.next_id
        &&& forall|k: u32| self.col_buf@.contains_key(k) ==> 1 <= k <= self.next_id
    }

    /// A rasterizer whose `w` x `h` color buffer is filled with the
    /// configured background, with no buffers loaded.
    pub fn new(w: u16, h: u16, configure: RasterizerConfig) -> (res: Rasterizer)
        ensures
            res.spec_width() == w,
            res.spec_height() == h,
            res.spec_config() == configure,
            res.frame().len() == w * h,
            forall|i: int| 0 <= i < w * h ==> #[trigger] res.frame()[i] == background(configure),
            res.last_id() == 0,
            res.index_buffers() == Map::<u32, Seq<[u32; 3]>>::empty(),
            res.color_buffers() == Map::<u32, Seq<[u8; 3]>>::empty(),
            res.ids_issued(),
    {
        let bg = configure.background_color;
        let bg_color = Rgba { r: bg[0], g: bg[1], b: bg[2], a: bg[3] };
        assert(w as int * h as int <= 0xffff * 0xffff) by (nonlinear_arith)
            requires w <= 0xffff, h <= 0xffff;
        let n: usize = w as usize * h as usize;
        let mut frame_buf: Vec<Rgba> = Vec::new();
        let mut i: usize = 0;
        while i < n
            invariant
                i <= n,
                frame_buf.len() == i,
                forall|j: int| 0 <= j < i ==> #[trigger] frame_buf@[j] == bg_color,
            decreases n - i,
        {
            frame_buf.push(bg_color);
            i = i + 1;
        }
        let res = Rasterizer {
            width: w,
            height: h,
            frame_buf,
            next_id: 0,
            config: configure,
            ind_buf: BTreeMap::new(),
            col_buf: BTreeMap::new(),
        };
        assert(res.index_buffers() =~= Map::<u32, Seq<[u32; 3]>>::empty());
        assert(res.color_buffers() =~= Map::<u32, Seq<[u8; 3]>>::empty());
        res
    }

    pub fn width(&self) -> (res: u16)
        ensures
            res == self.spec_width(),
    {
        self.width
    }

    pub fn height(&self) -> (res: u16)
        ensures
            res == self.spec_height(),
    {
        self.height
    }

    pub fn config(&self) -> (res: RasterizerConfig)
        ensures
            res == self.spec_config(),
    {
        self.config
    }

    /// Writes `color` at pixel `(x, y)`, `y` counted from the bottom row;
    /// a pixel outside the frame is ignored.
    pub fn set_pixel(&mut self, x: u16, y: u16, color: Rgba)
        requires
            old(self).frame().len() == old(self).spec_width() * old(self).spec_height(),
        ensures
            final(self).spec_width() == old(self).spec_width(),
            final(self).spec_height() == old(self).spec_height(),
            final(self).spec_config() == old(self).spec_config(),
            final(self).last_id() == old(self).last_id(),
            final(self).index_buffers() == old(self).index_buffers(),
            final(self).color_buffers() == old(self).color_buffers(),
            final(self).ids_issued() == old(self).ids_issued(),
            x < old(self).spec_width() && y < old(self).spec_height() ==> final(self).frame() == old(
                self,
            ).frame().update(
                pixel_index(old(self).spec_width() as int, old(self).spec_height() as int, x as int, y as int),
                color,
            ),
            !(x < old(self).spec_width() && y < old(self).spec_height()) ==> final(self).frame() == old(
                self,
            ).frame(),
    {
        if x >= self.width || y >= self.height {
            return;
        }
        proof {
            assert((self.height - y - 1) * self.width + x < self.width * self.height) by (nonlinear_arith)
                requires x < self.width, y < self.height;
            assert((self.height - y - 1) * self.width >= 0) by (nonlinear_arith)
                requires y < self.height;
            assert(self.width * self.height <= 0xffff * 0xffff) by (nonlinear_arith)
                requires self.width <= 0xffff, self.height <= 0xffff;
        }
        let idx: usize = (self.height - y - 1) as usize * self.width as usize + x as usize;
        self.frame_buf.set(idx, color);
    }

    /// Frame-buffer position of pixel `(x, y)`, `y` counted from the
    /// bottom row.
    pub fn get_index(&self, x: u16, y: u16) -> (res: usize)
        requires
            y < self.spec_height(),
        ensures
            res == pixel_index(self.spec_width() as int, self.spec_height() as int, x as int, y as int),
    {
        proof {
            assert((self.height - 1 - y) * self.width + x <= 0xffff * 0xffff + 0xffff) by (nonlinear_arith)
                requires y < self.height, self.height <= 0xffff, self.width <= 0xffff, x <= 0xffff;
            assert((self.height - 1 - y) * self.width >= 0) by (nonlinear_arith)
                requires y < self.height;
        }
        let row = (self.height - 1 - y) as usize;
        let width = self.width as usize;
        let col = x as usize;
        row * width + col
    }

    /// Clears the color buffer to the configured background when `buff`
    /// names it. The depth buffer is held by the caller.
    pub fn clear(&mut self, buff: Buffers)
        ensures
            final(self).spec_width() == old(self).spec_width(),
            final(self).spec_height() == old(self).spec_height(),
            final(self).spec_config() == old(self).spec_config(),
            final(self).last_id() == old(self).last_id(),
            final(self).index_buffers() == old(self).index_buffers(),
            final(self).color_buffers() == old(self).color_buffers(),
            final(self).ids_issued() == old(self).ids_issued(),
            final(self).frame().len() == old(self).frame().len(),
            buff.spec_bits() & COLOR_BIT == COLOR_BIT ==> forall|i: int|
                0 <= i < final(self).frame().len() ==> #[trigger] final(self).frame()[i] == background(
                    old(self).spec_config(),
                ),
            buff.spec_bits() & COLOR_BIT != COLOR_BIT ==> final(self).frame() == old(self).frame(),
    {
        let bg = self.config.background_color;
        let bg_color = Rgba { r: bg[0], g: bg[1], b: bg[2], a: bg[3] };
        if buff.contains(Buffers::color()) {
            let n = self.frame_buf.len();
            let mut i: usize = 0;
            while i < n
                invariant
                    i <= n,
                    n == self.frame_buf.len(),
                    bg_color == background(self.config),
                    self.width == old(self).width,
                    self.height == old(self).height,
                    self.config == old(self).config,
                    self.next_id == old(self).next_id,
                    self.ind_buf == old(self).ind_buf,
                    self.col_buf == old(self).col_buf,
                    self.frame_buf.len() == old(self).frame_buf.len(),
                    forall|j: int| 0 <= j < i ==> #[trigger] self.frame_buf@[j] == bg_color,
                decreases n - i,
            {
                self.frame_buf.set(i, bg_color);
                i = i + 1;
            }
        }
    }

    /// Hands out the next buffer id: one more than the last.
    pub fn get_next_id(&mut self) -> (res: u32)
        requires
            old(self).last_id() < u32::MAX,
        ensures
            res == old(self).last_id() + 1,
            final(self).last_id() == res,
            final(self).spec_width() == old(self).spec_width(),
            final(self).spec_height() == old(self).spec_height(),
            final(self).spec_config() == old(self).spec_config(),
            final(self).frame() == old(self).frame(),
            final(self).index_buffers() == old(self).index_buffers(),
            final(self).color_buffers() == old(self).color_buffers(),
            old(self).ids_issued() ==> final(self).ids_issued(),
    {
        self.next_id = self.next_id + 1;
        self.next_id
    }

    /// Reserves an id for a position buffer, which the caller stores.
    pub fn load_positions(&mut self) -> (res: PosBufId)
        requires
            old(self).last_id() < u32::MAX,
        ensures
            res.spec_id() == old(self).last_id() + 1,
            final(self).last_id() == res.spec_id(),
            final(self).spec_width() == old(self).spec_width(),
            final(self).spec_height() == old(self).spec_height(),
            final(self).spec_config() == old(self).spec_config(),
            final(self).frame() == old(self).frame(),
            final(self).index_buffers() == old(self).index_buffers(),
            final(self).color_buffers() == old(self).color_buffers(),
            old(self).ids_issued() ==> final(self).ids_issued(),
    {
        PosBufId { pos_id: self.get_next_id() }
    }

    /// Stores an index buffer (one vertex-index triple per triangle) under
    /// a fresh id.
    pub fn load_indices(&mut self, indices: Vec<[u32; 3]>) -> (res: IndBufId)
        requires
            old(self).last_id() < u32::MAX,
        ensures
            res.spec_id() == old(self).last_id() + 1,
            final(self).last_id() == res.spec_id(),
            !old(self).index_buffers().contains_key(res.spec_id()) || !old(self).ids_issued(),
            final(self).index_buffers() == old(self).index_buffers().insert(res.spec_id(), indices@),
            final(self).color_buffers() == old(self).color_buffers(),
            final(self).spec_width() == old(self).spec_width(),
            final(self).spec_height() == old(self).spec_height(),
            final(self).spec_config() == old(self).spec_config(),
            final(self).frame() == old(self).frame(),
            old(self).ids_issued() ==> final(self).ids_issued(),
    {
        let id = IndBufId { ind_id: self.get_next_id() };
        self.ind_buf.insert(id.ind_id, indices);
        assert(self.index_buffers() =~= old(self).index_buffers().insert(id.ind_id, indices@));
        id
    }

    /// Stores a color buffer (one RGB triple per vertex) under a fresh id.
    pub fn load_colors(&mut self, colors: Vec<[u8; 3]>) -> (res: ColBufId)
        requires
            old(self).last_id() < u32::MAX,
        ensures
            res.spec_id() == old(self).last_id() + 1,
            final(self).last_id() == res.spec_id(),
            !old(self).color_buffers().contains_key(res.spec_id()) || !old(self).ids_issued(),
            final(self).color_buffers() == old(self).color_buffers().insert(res.spec_id(), colors@),
            final(self).index_buffers() == old(self).index_buffers(),
            final(self).spec_width() == old(self).spec_width(),
            final(self).spec_height() == old(self).spec_height(),
            final(self).spec_config() == old(self).spec_config(),
            final(self).frame() == old(self).frame(),
            old(self).ids_issued() ==> final(self).ids_issued(),
    {
        let id = ColBufId { col_id: self.get_next_id() };
        self.col_buf.insert(id.col_id, colors);
        assert(self.color_buffers() =~= old(self).color_buffers().insert(id.col_id, colors@));
        id
    }

    /// Takes the frame rendered at the supersampled size as the new color
    /// buffer: box-filtered down to the output size when the configured
    /// scale is above 1, as it is otherwise.
    pub fn resolve_frame(&mut self, rendered: Vec<Rgba>)
        requires
            old(self).spec_config().ssaa_scale > 1 ==> {
                let s = old(self).spec_config().ssaa_scale as int;
                let w = old(self).spec_width() as int;
                let h = old(self).spec_height() as int;
                &&& w * s <= u16::MAX
                &&& h * s <= u16::MAX
                &&& rendered.len() == (w * s) * (h * s)
                &&& (w == 0 || h == 0 || s * s * 255 <= u32::MAX)
            },
        ensures
            final(self).spec_width() == old(self).spec_width(),
            final(self).spec_height() == old(self).spec_height(),
            final(self).spec_config() == old(self).spec_config(),
            final(self).last_id() == old(self).last_id(),
            final(self).index_buffers() == old(self).index_buffers(),
            final(self).color_buffers() == old(self).color_buffers(),
            final(self).ids_issued() == old(self).ids_issued(),
            old(self).spec_config().ssaa_scale > 1 ==> is_downsampled(
                final(self).frame(),
                rendered@,
                old(self).spec_width() as int,
                old(self).spec_height() as int,
                old(self).spec_config().ssaa_scale as nat,
            ),
            old(self).spec_config().ssaa_scale <= 1 ==> final(self).frame() == rendered@,
    {
        let scale = self.config.ssaa_scale;
        if scale > 1 {
            self.frame_buf = downsample(&rendered, self.width, self.height, scale);
        } else {
            self.frame_buf = rendered;
        }
    }

    /// Whether every buffer id has been handed out, so that loading another
    /// buffer would overflow the id counter.
    pub fn buffer_ids_exhausted(&self) -> (res: bool)
        ensures
            res == (self.last_id() == u32::MAX),
    {
        self.next_id == u32::MAX
    }

    /// The color buffer, top row first.
    pub fn frame_buffer(&self) -> (res: &Vec<Rgba>)
        ensures
            res@ == self.frame(),
    {
        &self.frame_buf
    }
}

/// Law: bottom-up pixel addressing is one-to-one. Every pixel of a
/// `width` x `height` frame has its own slot in the buffer, so writing one
/// pixel never changes another.
pub proof fn pixel_addressing_is_one_to_one(width: int, height: int, x1: int, y1: int, x2: int, y2: int)
    requires
        0 <= x1 < width,
        0 <= y1 < height,
        0 <= x2 < width,
        0 <= y2 < height,
    ensures
        0 <= pixel_index(width, height, x1, y1) < width * height,
        pixel_index(width, height, x1, y1) == pixel_index(width, height, x2, y2) ==> x1 == x2 && y1 == y2,
{
    crate::tiles::lemma_cell_in_grid(x1, height - 1 - y1, width, height);
    crate::tiles::lemma_cell_join(x1, height - 1 - y1, width);
    crate::tiles::lemma_cell_join(x2, height - 1 - y2, width);
}

/// Law: pixels are stored top row first with `y` counted from the bottom.
/// Pixel `(x, y)` of a `width` x `height` frame sits in buffer row
/// `height - 1 - y`, column `x`: the bottom row is the last buffer row and
/// the top row the first.
pub proof fn pixel_rows_count_from_bottom(width: int, height: int, x: int, y: int)
    requires
        0 <= x < width,
        0 <= y < height,
    ensures
        pixel_index(width, height, x, y) / width == height - 1 - y,
        pixel_index(width, height, x, y) % width == x,
{
    crate::tiles::lemma_cell_join(x, height - 1 - y, width);
}

} // verus!
