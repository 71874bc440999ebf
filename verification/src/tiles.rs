//! Screen tiling: the tile grid, the tile rectangles that the frame is cut
//! into, and the assignment of triangles to the tiles their bounding boxes
//! touch.
use vstd::prelude::*;
use vstd::arithmetic::div_mod::{
    lemma_fundamental_div_mod,
    lemma_fundamental_div_mod_converse,
};

verus! {

/// Number of tiles of side `tile` needed to cover `extent` pixels.
pub open spec fn tiles_needed(extent: int, tile: int) -> int {
    (extent + tile - 1) / tile
}

/// A cell index splits into a column `c % tiles_x` and a row `c / tiles_x`.
pub proof fn lemma_cell_split(c: int, tiles_x: int)
    requires
        c >= 0,
        tiles_x > 0,
    ensures
        c == (c / tiles_x) * tiles_x + c % tiles_x,
        0 <= c % tiles_x < tiles_x,
        c / tiles_x >= 0,
{
    lemma_fundamental_div_mod(c, tiles_x);
    assert(tiles_x * (c / tiles_x) == (c / tiles_x) * tiles_x) by (nonlinear_arith);
    assert(0 <= c % tiles_x < tiles_x) by (nonlinear_arith)
        requires tiles_x > 0;
    assert(c / tiles_x >= 0) by (nonlinear_arith)
        requires c >= 0, tiles_x > 0;
}

/// Row `cy`, column `cx` has cell index `cy * tiles_x + cx`, and back.
pub proof fn lemma_cell_join(cx: int, cy: int, tiles_x: int)
    requires
        0 <= cx < tiles_x,
        cy >= 0,
    ensures
        (cy * tiles_x + cx) % tiles_x == cx,
        (cy * tiles_x + cx) / tiles_x == cy,
        cy * tiles_x + cx >= 0,
{
    lemma_fundamental_div_mod_converse(cy * tiles_x + cx, tiles_x, cy, cx);
    assert(cy * tiles_x >= 0) by (nonlinear_arith)
        requires cy >= 0, tiles_x > 0;
}

/// Facts about a ceiling division `n = tiles_needed(extent, tile)`.
pub proof fn lemma_tiles_needed(extent: int, tile: int)
    requires
        extent >= 0,
        tile >= 1,
    ensures
        tiles_needed(extent, tile) >= 0,
        tiles_needed(extent, tile) * tile >= extent,
        tiles_needed(extent, tile) * tile <= extent + tile - 1,
        extent > 0 ==> tiles_needed(extent, tile) >= 1,
        extent == 0 ==> tiles_needed(extent, tile) == 0,
        extent > 0 ==> (tiles_needed(extent, tile) - 1) * tile < extent,
{
    let n = tiles_needed(extent, tile);
    let s = extent + tile - 1;
    lemma_cell_split(s, tile);
    let r = s % tile;
    assert(s == n * tile + r);
    assert(n >= 0);
    assert(n * tile >= extent) by (nonlinear_arith)
        requires s == n * tile + r, 0 <= r < tile, s == extent + tile - 1;
    assert((n - 1) * tile == n * tile - tile) by (nonlinear_arith);
    if extent == 0 {
        assert(n == 0) by (nonlinear_arith)
            requires n * tile + r == tile - 1, 0 <= r < tile, n >= 0, tile >= 1;
    }
    if extent > 0 {
        assert(n >= 1) by (nonlinear_arith)
            requires n * tile >= extent, extent > 0, tile >= 1, n >= 0;
    }
}

/// Number of tiles of side `tile` that cover `extent` screen pixels.
pub fn tile_count(extent: u16, tile: u16) -> (res: u16)
    requires
        tile >= 1,
        extent + tile <= u16::MAX,
    ensures
        res == tiles_needed(extent as int, tile as int),
{
    (extent + tile - 1) / tile
}

/// Number of shadow-map tiles of side `tile` that cover `extent` texels.
pub fn shadow_tile_count(extent: u32, tile: u32) -> (res: u32)
    requires
        tile >= 1,
        extent + tile <= u32::MAX,
    ensures
        res == tiles_needed(extent as int, tile as int),
{
    (extent + tile - 1) / tile
}

/// A screen tile: pixels `x_start <= x < x_end`, `y_start <= y < y_end`,
/// whose triangle list is the one at index `cell`.
#[derive(Clone, Copy, PartialEq, Eq, Debug, Structural)]
pub struct TileRect {
    pub x_start: u16,
    pub y_start: u16,
    pub x_end: u16,
    pub y_end: u16,
    pub cell: usize,
}

pub open spec fn min_int(a: int, b: int) -> int {
    if a < b { a } else { b }
}

pub open spec fn max_int(a: int, b: int) -> int {
    if a > b { a } else { b }
}

/// Whether `r` has the bounds of tile `(tx, ty)` of a `width` x `height`
/// frame cut into `tile_w` x `tile_h` tiles, with cell index `cell`.
pub open spec fn is_tile_rect(
    r: TileRect,
    width: int,
    height: int,
    tile_w: int,
    tile_h: int,
    tx: int,
    ty: int,
    cell: int,
) -> bool {
    &&& r.x_start == tx * tile_w
    &&& r.y_start == ty * tile_h
    &&& r.x_end == min_int(tx * tile_w + tile_w, width)
    &&& r.y_end == min_int(ty * tile_h + tile_h, height)
    &&& r.cell == cell
}

/// The tile at position `i` of the row-major tile list.
pub open spec fn tile_at(
    r: TileRect,
    width: int,
    height: int,
    tile_w: int,
    tile_h: int,
    i: int,
) -> bool {
    let tiles_x = tiles_needed(width, tile_w);
    is_tile_rect(r, width, height, tile_w, tile_h, i % tiles_x, i / tiles_x, i)
}

pub open spec fn rect_contains(r: TileRect, x: int, y: int) -> bool {
    r.x_start <= x < r.x_end && r.y_start <= y < r.y_end
}

/// What the tile grid of a `width` x `height` frame requires: tiles of at
/// least one pixel, and a tile count that fits the 16-bit arithmetic.
pub open spec fn grid_fits(width: int, height: int, tile_w: int, tile_h: int) -> bool {
    &&& tile_w >= 1
    &&& tile_h >= 1
    &&& 0 <= width
    &&& 0 <= height
    &&& width + tile_w <= u16::MAX
    &&& height + tile_h <= u16::MAX
}

/// Cuts a `width` x `height` frame into `tile_w` x `tile_h` tiles, listed
/// row by row; the last tile of a row or column is cut at the frame edge.
pub fn tile_rects(width: u16, height: u16, tile_w: u16, tile_h: u16) -> (res: Vec<TileRect>)
    requires
        grid_fits(width as int, height as int, tile_w as int, tile_h as int),
    ensures
        res.len() == tiles_needed(width as int, tile_w as int) * tiles_needed(
            height as int,
            tile_h as int,
        ),
        forall|i: int|
            0 <= i < res.len() ==> tile_at(
                #[trigger] res@[i],
                width as int,
                height as int,
                tile_w as int,
                tile_h as int,
                i,
            ),
{
    let tiles_x = tile_count(width, tile_w);
    let tiles_y = tile_count(height, tile_h);
    proof {
        lemma_tiles_needed(width as int, tile_w as int);
        lemma_tiles_needed(height as int, tile_h as int);
    }
    let ghost txi = tiles_x as int;
    let ghost tyi = tiles_y as int;
    let mut res: Vec<TileRect> = Vec::new();
    let mut ty: u16 = 0;
    while ty < tiles_y
        invariant
            grid_fits(width as int, height as int, tile_w as int, tile_h as int),
            tiles_x == tiles_needed(width as int, tile_w as int),
            tiles_y == tiles_needed(height as int, tile_h as int),
            txi == tiles_x,
            tyi == tiles_y,
            tiles_x * tile_w <= width + tile_w - 1,
            tiles_y * tile_h <= height + tile_h - 1,
            height > 0 ==> (tiles_y - 1) * tile_h < height,
            width > 0 ==> (tiles_x - 1) * tile_w < width,
            tiles_y >= 1 ==> height > 0,
            tiles_x >= 1 ==> width > 0,
            ty <= tiles_y,
            res.len() == ty * txi,
            forall|i: int|
                0 <= i < res.len() ==> tile_at(
                    #[trigger] res@[i],
                    width as int,
                    height as int,
                    tile_w as int,
                    tile_h as int,
                    i,
                ),
        decreases tiles_y - ty,
    {
        assert(ty * tile_h + tile_h <= height + tile_h - 1) by (nonlinear_arith)
            requires ty < tyi, tyi * tile_h <= height + tile_h - 1, tile_h >= 1;
        let y_start: u16 = ty * tile_h;
        let y_end: u16 = if y_start + tile_h < height { y_start + tile_h } else { height };
        let mut tx: u16 = 0;
        while tx < tiles_x
            invariant
                grid_fits(width as int, height as int, tile_w as int, tile_h as int),
                tiles_x == tiles_needed(width as int, tile_w as int),
                txi == tiles_x,
                tyi == tiles_y,
                tiles_x * tile_w <= width + tile_w - 1,
                ty < tiles_y,
                tx <= tiles_x,
                y_start == ty * tile_h,
                y_end == min_int(ty * tile_h + tile_h, height as int),
                res.len() == ty * txi + tx,
                forall|i: int|
                    0 <= i < res.len() ==> tile_at(
                        #[trigger] res@[i],
                        width as int,
                        height as int,
                        tile_w as int,
                        tile_h as int,
                        i,
                    ),
            decreases tiles_x - tx,
        {
            assert(tx * tile_w + tile_w <= width + tile_w - 1) by (nonlinear_arith)
                requires tx < txi, txi * tile_w <= width + tile_w - 1, tile_w >= 1;
            let x_start: u16 = tx * tile_w;
            let x_end: u16 = if x_start + tile_w < width { x_start + tile_w } else { width };
            assert(ty as int * txi + tx as int <= usize::MAX) by (nonlinear_arith)
                requires ty < tyi, tx < txi, txi <= u16::MAX, tyi <= u16::MAX;
            let cell: usize = ty as usize * tiles_x as usize + tx as usize;
            let r = TileRect { x_start, y_start, x_end, y_end, cell };
            proof {
                lemma_cell_join(tx as int, ty as int, txi);
                assert(tile_at(r, width as int, height as int, tile_w as int, tile_h as int, res.len() as int));
            }
            res.push(r);
            tx = tx + 1;
        }
        ty = ty + 1;
        assert(res.len() == ty * txi) by (nonlinear_arith)
            requires res.len() == (ty - 1) * txi + txi;
    }
    assert(res.len() == txi * tyi) by (nonlinear_arith)
        requires res.len() == ty * txi, ty == tyi;
    res
}

/// Law: the tiles of a frame partition it. Every pixel of the frame lies in
/// exactly one tile, so tiles can be shaded independently without two of
/// them writing the same pixel.
pub proof fn tiles_partition_frame(
    width: int,
    height: int,
    tile_w: int,
    tile_h: int,
    tiles: Seq<TileRect>,
    x: int,
    y: int,
)
    requires
        grid_fits(width, height, tile_w, tile_h),
        tiles.len() == tiles_needed(width, tile_w) * tiles_needed(height, tile_h),
        forall|i: int| 0 <= i < tiles.len() ==> tile_at(#[trigger] tiles[i], width, height, tile_w, tile_h, i),
        0 <= x < width,
        0 <= y < height,
    ensures
        exists|i: int| 0 <= i < tiles.len() && rect_contains(#[trigger] tiles[i], x, y),
        forall|i: int, j: int|
            0 <= i < tiles.len() && 0 <= j < tiles.len() && rect_contains(#[trigger] tiles[i], x, y)
                && rect_contains(#[trigger] tiles[j], x, y) ==> i == j,
{
    let tiles_x = tiles_needed(width, tile_w);
    let tiles_y = tiles_needed(height, tile_h);
    lemma_tiles_needed(width, tile_w);
    lemma_tiles_needed(height, tile_h);
    let tx = x / tile_w;
    let ty = y / tile_h;
    lemma_cell_split(x, tile_w);
    lemma_cell_split(y, tile_h);
    assert(tx < tiles_x) by (nonlinear_arith)
        requires tx * tile_w <= x, x < width, tiles_x * tile_w >= width, tile_w >= 1, tx >= 0;
    assert(ty < tiles_y) by (nonlinear_arith)
        requires ty * tile_h <= y, y < height, tiles_y * tile_h >= height, tile_h >= 1, ty >= 0;
    let i = ty * tiles_x + tx;
    lemma_cell_join(tx, ty, tiles_x);
    lemma_cell_in_grid(tx, ty, tiles_x, tiles_y);
    assert(tile_at(tiles[i], width, height, tile_w, tile_h, i));
    assert(tx * tile_w + tile_w > x) by (nonlinear_arith)
        requires x == tx * tile_w + x % tile_w, x % tile_w < tile_w;
    assert(ty * tile_h + tile_h > y) by (nonlinear_arith)
        requires y == ty * tile_h + y % tile_h, y % tile_h < tile_h;
    assert(rect_contains(tiles[i], x, y));
    assert forall|a: int, b: int|
        0 <= a < tiles.len() && 0 <= b < tiles.len() && rect_contains(#[trigger] tiles[a], x, y)
            && rect_contains(#[trigger] tiles[b], x, y) implies a == b by {
        assert(tile_at(tiles[a], width, height, tile_w, tile_h, a));
        assert(tile_at(tiles[b], width, height, tile_w, tile_h, b));
        lemma_cell_split(a, tiles_x);
        lemma_cell_split(b, tiles_x);
        lemma_tile_column(x, tile_w, a % tiles_x);
        lemma_tile_column(x, tile_w, b % tiles_x);
        lemma_tile_column(y, tile_h, a / tiles_x);
        lemma_tile_column(y, tile_h, b / tiles_x);
    }
}

/// Column `cx` of row `cy` of a `tiles_x` x `tiles_y` grid is one of its
/// `tiles_x * tiles_y` cells.
pub proof fn lemma_cell_in_grid(cx: int, cy: int, tiles_x: int, tiles_y: int)
    requires
        0 <= cx < tiles_x,
        0 <= cy < tiles_y,
    ensures
        0 <= cy * tiles_x + cx < tiles_x * tiles_y,
{
    assert(cy * tiles_x + cx < (cy + 1) * tiles_x) by (nonlinear_arith)
        requires cx < tiles_x;
    assert((cy + 1) * tiles_x <= tiles_y * tiles_x) by (nonlinear_arith)
        requires cy + 1 <= tiles_y, tiles_x >= 0;
    assert(tiles_y * tiles_x == tiles_x * tiles_y) by (nonlinear_arith);
    assert(cy * tiles_x >= 0) by (nonlinear_arith)
        requires cy >= 0, tiles_x >= 0;
}

/// A pixel coordinate inside `[k * tile, k * tile + tile)` has tile index `k`.
proof fn lemma_tile_column(x: int, tile: int, k: int)
    requires
        tile >= 1,
        k >= 0,
        k * tile <= x,
        x < k * tile + tile,
    ensures
        x / tile == k,
{
    lemma_fundamental_div_mod_converse(x, tile, k, x - k * tile);
}


/// The tiles a triangle's bounding box touches: columns `x0..=x1`, rows
/// `y0..=y1` (empty when `x0 > x1` or `y0 > y1`).
#[derive(Clone, Copy, PartialEq, Eq, Debug, Structural)]
pub struct CellRange {
    pub x0: usize,
    pub x1: usize,
    pub y0: usize,
    pub y1: usize,
}

pub open spec fn range_covers(r: CellRange, cx: int, cy: int) -> bool {
    r.x0 <= cx <= r.x1 && r.y0 <= cy <= r.y1
}

/// Whether cell `c` of a grid `tiles_x` cells wide lies in range `r`.
pub open spec fn covers_cell(r: CellRange, c: int, tiles_x: int) -> bool {
    range_covers(r, c % tiles_x, c / tiles_x)
}

pub open spec fn strictly_increasing(s: Seq<usize>) -> bool {
    forall|i: int, j: int| 0 <= i < j < s.len() ==> s[i] < s[j]
}

/// `list` is exactly the triangles among the first `n` of `ranges` whose
/// range covers cell `c`, in increasing order.
pub open spec fn cell_list_exact(
    list: Seq<usize>,
    ranges: Seq<CellRange>,
    n: int,
    c: int,
    tiles_x: int,
) -> bool {
    &&& strictly_increasing(list)
    &&& forall|k: int|
        0 <= k < list.len() ==> #[trigger] list[k] < n && covers_cell(ranges[list[k] as int], c, tiles_x)
    &&& forall|t: int|
        0 <= t < n && covers_cell(ranges[t], c, tiles_x) ==> #[trigger] list.contains(t as usize)
}

/// The triangle lists of a `tiles_x` x `tiles_y` grid when triangle `t`
/// touches the cells of `ranges[t]`: the list of each cell holds, in
/// increasing order, every triangle that touches that cell and no other.
pub open spec fn binned_exactly(
    lists: Seq<Vec<usize>>,
    ranges: Seq<CellRange>,
    tiles_x: int,
    tiles_y: int,
) -> bool {
    &&& lists.len() == tiles_x * tiles_y
    &&& forall|c: int|
        0 <= c < lists.len() ==> cell_list_exact(
            #[trigger] lists[c]@,
            ranges,
            ranges.len() as int,
            c,
            tiles_x,
        )
}

/// Assigns each triangle to every tile its range touches. `ranges[t]` is
/// the clamped cell range of triangle `t`; the result has one list per
/// tile, in row-major order, holding triangle indices.
pub fn bin_triangles(ranges: &Vec<CellRange>, tiles_x: usize, tiles_y: usize) -> (res: Vec<Vec<usize>>)
    requires
        tiles_x * tiles_y <= usize::MAX,
        forall|t: int| 0 <= t < ranges.len() ==> (#[trigger] ranges[t]).x1 < tiles_x && ranges[t].y1 < tiles_y,
    ensures
        binned_exactly(res@, ranges@, tiles_x as int, tiles_y as int),
{
    let total = tiles_x * tiles_y;
    let mut lists: Vec<Vec<usize>> = Vec::new();
    let mut c: usize = 0;
    while c < total
        invariant
            c <= total,
            lists.len() == c,
            forall|k: int| 0 <= k < c ==> (#[trigger] lists[k])@.len() == 0,
        decreases total - c,
    {
        lists.push(Vec::new());
        c = c + 1;
    }
    let ghost tx = tiles_x as int;
    let n = ranges.len();
    let mut t: usize = 0;
    while t < n
        invariant
            total == tiles_x * tiles_y,
            tx == tiles_x,
            n == ranges.len(),
            t <= n,
            lists.len() == total,
            forall|i: int| 0 <= i < ranges.len() ==> (#[trigger] ranges[i]).x1 < tiles_x && ranges[i].y1 < tiles_y,
            forall|k: int|
                0 <= k < lists.len() ==> cell_list_exact(
                    #[trigger] lists[k]@,
                    ranges@,
                    t as int,
                    k,
                    tx,
                ),
        decreases n - t,
    {
        let r = ranges[t];
        let ghost before = lists@;
        let mut cy = r.y0;
        while cy <= r.y1
            invariant
                total == tiles_x * tiles_y,
                tx == tiles_x,
                n == ranges.len(),
                t < n,
                r == ranges[t as int],
                r.x1 < tiles_x,
                r.y1 < tiles_y,
                r.y0 <= cy,
                cy <= r.y1 + 1 || cy == r.y0,
                lists.len() == total,
                before.len() == total,
                forall|k: int|
                    0 <= k < total ==> cell_list_exact(
                        #[trigger] before[k]@,
                        ranges@,
                        t as int,
                        k,
                        tx,
                    ),
                forall|k: int|
                    0 <= k < total ==> (#[trigger] lists[k])@ == if covers_cell(r, k, tx) && k / tx < cy {
                        before[k]@.push(t)
                    } else {
                        before[k]@
                    },
            decreases r.y1 + 1 - cy,
        {
            let mut cx = r.x0;
            while cx <= r.x1
                invariant
                    total == tiles_x * tiles_y,
                    tx == tiles_x,
                    t < n,
                    r.x1 < tiles_x,
                    r.y1 < tiles_y,
                    r.y0 <= cy <= r.y1,
                    r.x0 <= cx,
                    cx <= r.x1 + 1 || cx == r.x0,
                    lists.len() == total,
                    before.len() == total,
                    forall|k: int|
                        0 <= k < total ==> (#[trigger] lists[k])@ == if covers_cell(r, k, tx) && (k / tx < cy
                            || (k / tx == cy && k % tx < cx)) {
                            before[k]@.push(t)
                        } else {
                            before[k]@
                        },
                decreases r.x1 + 1 - cx,
            {
                proof {
                    lemma_cell_in_grid(cx as int, cy as int, tx, tiles_y as int);
                    lemma_cell_join(cx as int, cy as int, tx);
                }
                let cell = cy * tiles_x + cx;
                let ghost prev = lists@;
                lists[cell].push(t);
                proof {
                    assert forall|k: int| 0 <= k < total implies (#[trigger] lists[k])@ == if covers_cell(
                        r,
                        k,
                        tx,
                    ) && (k / tx < cy || (k / tx == cy && k % tx < cx + 1)) {
                        before[k]@.push(t)
                    } else {
                        before[k]@
                    } by {
                        lemma_cell_split(k, tx);
                        if k != cell as int {
                            assert(lists[k] == prev[k]);
                            assert(!(k / tx == cy && k % tx == cx));
                        }
                    }
                }
                cx = cx + 1;
            }
            proof {
                assert forall|k: int| 0 <= k < total implies (#[trigger] lists[k])@ == if covers_cell(
                    r,
                    k,
                    tx,
                ) && k / tx < cy + 1 {
                    before[k]@.push(t)
                } else {
                    before[k]@
                } by {
                    lemma_cell_split(k, tx);
                }
            }
            cy = cy + 1;
        }
        proof {
            assert forall|k: int| 0 <= k < total implies cell_list_exact(
                #[trigger] lists[k]@,
                ranges@,
                t + 1,
                k,
                tx,
            ) by {
                lemma_cell_split(k, tx);
                let b = before[k]@;
                assert(cell_list_exact(b, ranges@, t as int, k, tx));
                if covers_cell(r, k, tx) {
                    assert(k / tx < cy);
                    assert(lists[k]@ == b.push(t));
                    assert(lists[k]@[b.len() as int] == t);
                    assert(lists[k]@.contains(t));
                    assert forall|u: int| 0 <= u < t + 1 && covers_cell(ranges[u], k, tx) implies
                        #[trigger] lists[k]@.contains(u as usize) by {
                        if u < t {
                            assert(b.contains(u as usize));
                            let w = choose|w: int| 0 <= w < b.len() && b[w] == u as usize;
                            assert(lists[k]@[w] == u as usize);
                        } else {
                            assert(lists[k]@[b.len() as int] == t);
                        }
                    }
                } else {
                    assert(lists[k]@ == b);
                    assert forall|u: int| 0 <= u < t + 1 && covers_cell(ranges[u], k, tx) implies
                        #[trigger] lists[k]@.contains(u as usize) by {
                        if u == t {
                            assert(false);
                        }
                    }
                }
            }
        }
        t = t + 1;
    }
    lists
}

/// The cells a screen triangle touches, from the tile coordinates of its
/// bounding box corners (`floor(min / tile)` and `floor(max / tile)`): the
/// low ends are clamped at zero and the high ends at the last column or
/// row, a negative high end counting as past the last one.
pub fn screen_cell_range(
    cell_x_min: i32,
    cell_x_max: i32,
    cell_y_min: i32,
    cell_y_max: i32,
    tiles_x: u16,
    tiles_y: u16,
) -> (res: CellRange)
    requires
        tiles_x >= 1,
        tiles_y >= 1,
    ensures
        res.x0 == max_int(cell_x_min as int, 0),
        res.y0 == max_int(cell_y_min as int, 0),
        res.x1 == if cell_x_max < 0 { tiles_x - 1 } else { min_int(cell_x_max as int, tiles_x - 1) },
        res.y1 == if cell_y_max < 0 { tiles_y - 1 } else { min_int(cell_y_max as int, tiles_y - 1) },
        res.x1 < tiles_x,
        res.y1 < tiles_y,
{
    let x0: usize = if cell_x_min > 0 { cell_x_min as usize } else { 0 };
    let y0: usize = if cell_y_min > 0 { cell_y_min as usize } else { 0 };
    let last_x = tiles_x as usize - 1;
    let last_y = tiles_y as usize - 1;
    let x1: usize = if cell_x_max < 0 || cell_x_max as usize > last_x { last_x } else { cell_x_max as usize };
    let y1: usize = if cell_y_max < 0 || cell_y_max as usize > last_y { last_y } else { cell_y_max as usize };
    CellRange { x0, x1, y0, y1 }
}

/// The shadow-map tiles a triangle touches, from its clamped texel
/// bounding box: the first tile is `min / tile`, the last `max / tile`
/// cut at the last column or row.
pub fn shadow_cell_range(
    min_x: u32,
    min_y: u32,
    max_x: u32,
    max_y: u32,
    tile_w: u32,
    tile_h: u32,
    tiles_x: u32,
    tiles_y: u32,
) -> (res: CellRange)
    requires
        tile_w >= 1,
        tile_h >= 1,
        tiles_x >= 1,
        tiles_y >= 1,
    ensures
        res.x0 == min_x / tile_w,
        res.y0 == min_y / tile_h,
        res.x1 == min_int((max_x / tile_w) as int, tiles_x - 1),
        res.y1 == min_int((max_y / tile_h) as int, tiles_y - 1),
        res.x1 < tiles_x,
        res.y1 < tiles_y,
{
    let tx_min = min_x / tile_w;
    let ty_min = min_y / tile_h;
    let tx_max = if max_x / tile_w < tiles_x - 1 { max_x / tile_w } else { tiles_x - 1 };
    let ty_max = if max_y / tile_h < tiles_y - 1 { max_y / tile_h } else { tiles_y - 1 };
    CellRange { x0: tx_min as usize, x1: tx_max as usize, y0: ty_min as usize, y1: ty_max as usize }
}

/// The pixel rows or columns of a triangle's bounding box `lo..=hi` that a
/// tile spanning `start..end` shades: `max(lo, start)..=min(hi, end - 1)`,
/// where an empty tile (`end == 0`) ends at 0.
pub fn clip_span(lo: u16, hi: u16, start: u16, end: u16) -> (res: (u16, u16))
    ensures
        res.0 == max_int(lo as int, start as int),
        res.1 == min_int(hi as int, if end == 0 { 0 } else { end - 1 }),
{
    let first = if lo > start { lo } else { start };
    let last_in_tile = end.saturating_sub(1);
    let last = if hi < last_in_tile { hi } else { last_in_tile };
    (first, last)
}

/// The texels of a shadow tile `start..=end` that a triangle whose texel
/// bounding box is `lo..=hi` covers: `max(start, lo)..=min(end, hi)`.
/// The tile's closing edge `end` is included.
pub fn shadow_span(start: u32, end: u32, lo: u32, hi: u32) -> (res: (u32, u32))
    ensures
        res.0 == max_int(start as int, lo as int),
        res.1 == min_int(end as int, hi as int),
{
    let first = if start > lo { start } else { lo };
    let last = if end < hi { end } else { hi };
    (first, last)
}

/// The texel bounding box of a shadow triangle along one axis, from the
/// floor of its lowest and the ceiling of its highest coordinate: the low
/// end clamped at 0, the high end at the last texel `res - 1`, both then
/// taken as unsigned 32-bit values (a negative high end wraps around).
pub fn shadow_texel_bounds(lo: i32, hi: i32, res: u32) -> (r: (u32, u32))
    requires
        res <= i32::MAX,
    ensures
        r.0 == max_int(lo as int, 0),
        ({
            let m = min_int(hi as int, res - 1);
            r.1 as int == if m >= 0 { m } else { m + 0x1_0000_0000 }
        }),
{
    let first: u32 = if lo > 0 { lo as u32 } else { 0 };
    let last_texel: i32 = res as i32 - 1;
    let m: i32 = if hi < last_texel { hi } else { last_texel };
    let last: u32 = m as u32;
    assert(last as int == if m >= 0 { m as int } else { m + 0x1_0000_0000 }) by (bit_vector)
        requires last == m as u32;
    (first, last)
}

/// Start and end of shadow tile `t` along one axis of a map `extent` texels
/// across: `t * tile` and `(t + 1) * tile` cut at `extent`.
pub fn shadow_tile_extent(t: u32, tile: u32, extent: u32) -> (res: (u32, u32))
    requires
        tile >= 1,
        extent + tile <= u32::MAX,
        t < tiles_needed(extent as int, tile as int),
    ensures
        res.0 == t * tile,
        res.1 == min_int(t * tile + tile, extent as int),
{
    proof {
        lemma_tiles_needed(extent as int, tile as int);
        let n = tiles_needed(extent as int, tile as int);
        assert(t * tile + tile <= n * tile) by (nonlinear_arith)
            requires t < n, tile >= 1;
        assert((t + 1) * tile == t * tile + tile) by (nonlinear_arith);
        assert(n * tile <= extent + tile - 1);
    }
    let start = t * tile;
    let next = (t + 1) * tile;
    let end = if next < extent { next } else { extent };
    (start, end)
}

} // verus!
