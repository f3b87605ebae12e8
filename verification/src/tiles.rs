//! The symbols of a sample picture: its tiles, each distinct one given an
//! id in the order of first appearance.

use vstd::prelude::*;
use crate::grid::{Grid, GridView};
use crate::seat::{Cell, Seat};
use crate::select::precedes;

verus! {

/// A picture as rows of pixel colours.
#[derive(Clone, Debug, PartialEq, Eq)]
pub struct Bitmap {
    pub width: usize,
    pub height: usize,
    pub rows: Vec<Vec<u32>>,
}

/// The place of a tile in a picture, counted in tiles: column `x` of row
/// `y`.
#[derive(Clone, Copy, Debug, PartialEq, Eq, Structural)]
pub struct Tile {
    pub y: usize,
    pub x: usize,
}

/// Why a picture cannot be cut into tiles.
#[derive(Clone, Copy, Debug, PartialEq, Eq, Structural)]
pub enum TileGenError {
    /// The width of the picture is not a multiple of the tile's width.
    NonFactorWidth,
    /// The height of the picture is not a multiple of the tile's height.
    NonFactorHeight,
}

/// The colour at column `i` of row `j` within the tile at `(ty, tx)`.
pub open spec fn tile_pixel(
    pixels: Seq<Seq<u32>>,
    tw: int,
    th: int,
    ty: int,
    tx: int,
    j: int,
    i: int,
) -> u32 {
    pixels[ty * th + j][tx * tw + i]
}

/// The tiles at `(ay, ax)` and `(by, bx)` show the same colours.
pub open spec fn same_tile(
    pixels: Seq<Seq<u32>>,
    tw: int,
    th: int,
    ay: int,
    ax: int,
    by: int,
    bx: int,
) -> bool {
    forall|j: int, i: int|
        0 <= j < th && 0 <= i < tw ==> #[trigger] tile_pixel(pixels, tw, th, ay, ax, j, i)
            == tile_pixel(pixels, tw, th, by, bx, j, i)
}

/// The cell for the tile at `(y, x)` is decided; its id names a tile of the
/// list that shows the same colours and does not come after `(y, x)`.
pub open spec fn names_tile(
    pixels: Seq<Seq<u32>>,
    tw: int,
    th: int,
    tiles: Seq<Tile>,
    cell: Cell,
    y: int,
    x: int,
) -> bool {
    &&& cell is Collapsed
    &&& cell.candidates()[0] < tiles.len()
    &&& same_tile(
        pixels,
        tw,
        th,
        tiles[cell.candidates()[0] as int].y as int,
        tiles[cell.candidates()[0] as int].x as int,
        y,
        x,
    )
    &&& !precedes(
        y,
        x,
        tiles[cell.candidates()[0] as int].y as int,
        tiles[cell.candidates()[0] as int].x as int,
    )
}

/// The listed tiles lie within `gh` rows of `gw` tiles, stand in reading
/// order, and no two of them show the same colours.
pub open spec fn distinct_tiles(
    pixels: Seq<Seq<u32>>,
    tw: int,
    th: int,
    gw: int,
    gh: int,
    tiles: Seq<Tile>,
) -> bool {
    &&& forall|k: int| 0 <= k < tiles.len() ==> (#[trigger] tiles[k]).y < gh && tiles[k].x < gw
    &&& forall|a: int, b: int|
        0 <= a < b < tiles.len() ==> precedes(
            (#[trigger] tiles[a]).y as int,
            tiles[a].x as int,
            (#[trigger] tiles[b]).y as int,
            tiles[b].x as int,
        )
    &&& forall|a: int, b: int|
        0 <= a < b < tiles.len() ==> !same_tile(
            pixels,
            tw,
            th,
            (#[trigger] tiles[a]).y as int,
            tiles[a].x as int,
            (#[trigger] tiles[b]).y as int,
            tiles[b].x as int,
        )
}

impl Bitmap {
    /// There are `height` rows of `width` pixels.
    pub open spec fn wf(&self) -> bool {
        &&& self.rows@.len() == self.height
        &&& forall|y: int| 0 <= y < self.height ==> (#[trigger] self.rows@[y])@.len() == self.width
    }

    /// The colours, row by row.
    pub open spec fn pixels(&self) -> Seq<Seq<u32>> {
        Seq::new(self.rows@.len(), |y: int| self.rows@[y]@)
    }

    /// `grid` and `tiles` are the symbols of the picture cut into tiles of
    /// `tw` by `th` pixels: one cell for each tile, one id for each distinct
    /// tile, the ids given in the order in which reading the picture row by
    /// row first meets the tiles, and `tiles[id]` the place of that first
    /// meeting.
    pub open spec fn is_cut_into(&self, tw: int, th: int, grid: GridView, tiles: Seq<Tile>) -> bool {
        &&& grid.wf()
        &&& grid.w == self.width as int / tw
        &&& grid.h == self.height as int / th
        &&& grid.n == tiles.len()
        &&& distinct_tiles(self.pixels(), tw, th, grid.w as int, grid.h as int, tiles)
        &&& forall|y: int, x: int|
            grid.has(y, x) ==> names_tile(
                self.pixels(),
                tw,
                th,
                tiles,
                #[trigger] grid.cells[y][x],
                y,
                x,
            )
    }
}

impl Bitmap {
    /// The listed place of a tile is where its colours are first met: no
    /// tile before it shows the same colours.
    pub proof fn lemma_tiles_are_first(
        &self,
        tw: int,
        th: int,
        grid: GridView,
        tiles: Seq<Tile>,
        k: int,
        y: int,
        x: int,
    )
        requires
            self.is_cut_into(tw, th, grid, tiles),
            0 <= k < tiles.len(),
            grid.has(y, x),
            precedes(y, x, tiles[k].y as int, tiles[k].x as int),
        ensures
            !same_tile(self.pixels(), tw, th, tiles[k].y as int, tiles[k].x as int, y, x),
    {
        let px = self.pixels();
        let cell = grid.cells[y][x];
        assert(names_tile(px, tw, th, tiles, cell, y, x));
        let j = cell.candidates()[0] as int;
        if same_tile(px, tw, th, tiles[k].y as int, tiles[k].x as int, y, x) {
            assert forall|jj: int, ii: int| 0 <= jj < th && 0 <= ii < tw implies #[trigger] tile_pixel(
                px,
                tw,
                th,
                tiles[j].y as int,
                tiles[j].x as int,
                jj,
                ii,
            ) == tile_pixel(px, tw, th, tiles[k].y as int, tiles[k].x as int, jj, ii) by {
                assert(tile_pixel(px, tw, th, tiles[j].y as int, tiles[j].x as int, jj, ii)
                    == tile_pixel(px, tw, th, y, x, jj, ii));
                assert(tile_pixel(px, tw, th, tiles[k].y as int, tiles[k].x as int, jj, ii)
                    == tile_pixel(px, tw, th, y, x, jj, ii));
            }
            assert(same_tile(
                px,
                tw,
                th,
                tiles[j].y as int,
                tiles[j].x as int,
                tiles[k].y as int,
                tiles[k].x as int,
            ));
            if j < k {
                assert(false);
            } else if j > k {
                assert(precedes(
                    tiles[k].y as int,
                    tiles[k].x as int,
                    tiles[j].y as int,
                    tiles[j].x as int,
                ));
                assert(false);
            } else {
                assert(false);
            }
        }
    }
}

/// The pixel at offset `k` within part `t` lies within the extent, when
/// `count` parts of `size` pixels fit in it.
pub proof fn lemma_within(t: int, k: int, size: int, count: int, extent: int)
    by (nonlinear_arith)
    requires
        0 <= t < count,
        0 <= k < size,
        count * size <= extent,
    ensures
        0 <= t * size,
        t * size + k < extent,
{
}

/// Whether two tiles of the picture show the same colours.
fn tile_equal(
    img: &Bitmap,
    tile_w: usize,
    tile_h: usize,
    a: Tile,
    b: Tile,
    Ghost(gw): Ghost<int>,
    Ghost(gh): Ghost<int>,
) -> (same: bool)
    requires
        img.wf(),
        gw * tile_w <= img.width,
        gh * tile_h <= img.height,
        a.y < gh && a.x < gw,
        b.y < gh && b.x < gw,
    ensures
        same == same_tile(
            img.pixels(),
            tile_w as int,
            tile_h as int,
            a.y as int,
            a.x as int,
            b.y as int,
            b.x as int,
        ),
{
    let ghost px = img.pixels();
    let ghost tw = tile_w as int;
    let ghost th = tile_h as int;
    let mut j: usize = 0;
    while j < tile_h
        invariant
            img.wf(),
            px == img.pixels(),
            tw == tile_w && th == tile_h,
            gw * tile_w <= img.width,
            gh * tile_h <= img.height,
            a.y < gh && a.x < gw,
            b.y < gh && b.x < gw,
            j <= tile_h,
            forall|jj: int, ii: int|
                0 <= jj < j && 0 <= ii < tw ==> #[trigger] tile_pixel(
                    px,
                    tw,
                    th,
                    a.y as int,
                    a.x as int,
                    jj,
                    ii,
                ) == tile_pixel(px, tw, th, b.y as int, b.x as int, jj, ii),
        decreases tile_h - j,
    {
        proof {
            lemma_within(a.y as int, j as int, th, gh, img.height as int);
            lemma_within(b.y as int, j as int, th, gh, img.height as int);
        }
        let row_a = a.y * tile_h + j;
        let row_b = b.y * tile_h + j;
        let mut i: usize = 0;
        while i < tile_w
            invariant
                img.wf(),
                px == img.pixels(),
                tw == tile_w && th == tile_h,
                gw * tile_w <= img.width,
                gh * tile_h <= img.height,
                a.y < gh && a.x < gw,
                b.y < gh && b.x < gw,
                j < tile_h,
                i <= tile_w,
                row_a == a.y * tile_h + j,
                row_b == b.y * tile_h + j,
                row_a < img.height,
                row_b < img.height,
                forall|jj: int, ii: int|
                    0 <= jj < j && 0 <= ii < tw ==> #[trigger] tile_pixel(
                        px,
                        tw,
                        th,
                        a.y as int,
                        a.x as int,
                        jj,
                        ii,
                    ) == tile_pixel(px, tw, th, b.y as int, b.x as int, jj, ii),
                forall|ii: int|
                    0 <= ii < i ==> #[trigger] tile_pixel(
                        px,
                        tw,
                        th,
                        a.y as int,
                        a.x as int,
                        j as int,
                        ii,
                    ) == tile_pixel(px, tw, th, b.y as int, b.x as int, j as int, ii),
            decreases tile_w - i,
        {
            proof {
                lemma_within(a.x as int, i as int, tw, gw, img.width as int);
                lemma_within(b.x as int, i as int, tw, gw, img.width as int);
            }
            let col_a = a.x * tile_w + i;
            let col_b = b.x * tile_w + i;
            if img.rows[row_a][col_a] != img.rows[row_b][col_b] {
                assert(tile_pixel(px, tw, th, a.y as int, a.x as int, j as int, i as int)
                    != tile_pixel(px, tw, th, b.y as int, b.x as int, j as int, i as int));
                return false;
            }
            i += 1;
        }
        j += 1;
    }
    true
}

/// Cuts the picture into tiles of `tile_w` by `tile_h` pixels and numbers
/// the distinct ones in the order of first appearance. Returns the grid of
/// ids, every cell decided, and for each id the place of the tile that
/// first showed it. A picture whose width or height is not a multiple of
/// the tile's is refused; the width is looked at first.
pub fn generate_tiles(img: &Bitmap, tile_w: usize, tile_h: usize) -> (cut: Result<
    (Grid, Vec<Tile>),
    TileGenError,
>)
    requires
        img.wf(),
        tile_w > 0,
        tile_h > 0,
    ensures
        img.width % tile_w != 0 ==> cut == Err::<(Grid, Vec<Tile>), TileGenError>(
            TileGenError::NonFactorWidth,
        ),
        img.width % tile_w == 0 && img.height % tile_h != 0 ==> cut == Err::<
            (Grid, Vec<Tile>),
            TileGenError,
        >(TileGenError::NonFactorHeight),
        img.width % tile_w == 0 && img.height % tile_h == 0 ==> cut is Ok,
        cut matches Ok(table) ==> table.0.wf() && img.is_cut_into(
            tile_w as int,
            tile_h as int,
            table.0@,
            table.1@,
        ),
{
    if img.width % tile_w != 0 {
        return Err(TileGenError::NonFactorWidth);
    }
    if img.height % tile_h != 0 {
        return Err(TileGenError::NonFactorHeight);
    }
    let gw: usize = img.width / tile_w;
    let gh: usize = img.height / tile_h;
    let ghost px = img.pixels();
    let ghost tw = tile_w as int;
    let ghost th = tile_h as int;
    proof {
        vstd::arithmetic::div_mod::lemma_fundamental_div_mod(img.width as int, tw);
        vstd::arithmetic::div_mod::lemma_fundamental_div_mod(img.height as int, th);
        assert(gw * tile_w == img.width) by (nonlinear_arith)
            requires
                img.width == tw * (img.width as int / tw) + (img.width as int % tw),
                img.width as int % tw == 0,
                gw == img.width as int / tw,
                tw == tile_w,
        ;
        assert(gh * tile_h == img.height) by (nonlinear_arith)
            requires
                img.height == th * (img.height as int / th) + (img.height as int % th),
                img.height as int % th == 0,
                gh == img.height as int / th,
                th == tile_h,
        ;
    }
    let mut tiles: Vec<Tile> = Vec::new();
    let mut data: Vec<Vec<Seat>> = Vec::new();
    let mut y: usize = 0;
    while y < gh
        invariant
            img.wf(),
            px == img.pixels(),
            tw == tile_w && th == tile_h,
            gw * tile_w == img.width,
            gh * tile_h == img.height,
            y <= gh,
            data@.len() == y,
            forall|v: int| 0 <= v < y ==> (#[trigger] data@[v])@.len() == gw,
            distinct_tiles(px, tw, th, gw as int, gh as int, tiles@),
            forall|k: int|
                0 <= k < tiles@.len() ==> precedes(
                    (#[trigger] tiles@[k]).y as int,
                    tiles@[k].x as int,
                    y as int,
                    0,
                ),
            forall|v: int, u: int|
                0 <= v < y && 0 <= u < gw ==> names_tile(
                    px,
                    tw,
                    th,
                    tiles@,
                    (#[trigger] data@[v]@[u])@,
                    v,
                    u,
                ),
        decreases gh - y,
    {
        let mut row: Vec<Seat> = Vec::new();
        let mut x: usize = 0;
        while x < gw
            invariant
                img.wf(),
                px == img.pixels(),
                tw == tile_w && th == tile_h,
                gw * tile_w == img.width,
                gh * tile_h == img.height,
                y < gh,
                x <= gw,
                data@.len() == y,
                row@.len() == x,
                forall|v: int| 0 <= v < y ==> (#[trigger] data@[v])@.len() == gw,
                distinct_tiles(px, tw, th, gw as int, gh as int, tiles@),
                forall|k: int|
                    0 <= k < tiles@.len() ==> precedes(
                        (#[trigger] tiles@[k]).y as int,
                        tiles@[k].x as int,
                        y as int,
                        x as int,
                    ),
                forall|v: int, u: int|
                    0 <= v < y && 0 <= u < gw ==> names_tile(
                        px,
                        tw,
                        th,
                        tiles@,
                        (#[trigger] data@[v]@[u])@,
                        v,
                        u,
                    ),
                forall|u: int|
                    0 <= u < x ==> names_tile(px, tw, th, tiles@, (#[trigger] row@[u])@, y as int, u),
            decreases gw - x,
        {
            let here = Tile { y, x };
            let mut found: Option<usize> = None;
            let mut k: usize = 0;
            while k < tiles.len()
                invariant_except_break
                    found is None,
                    forall|m: int|
                        0 <= m < k ==> !same_tile(
                            px,
                            tw,
                            th,
                            (#[trigger] tiles@[m]).y as int,
                            tiles@[m].x as int,
                            y as int,
                            x as int,
                        ),
                invariant
                    img.wf(),
                    px == img.pixels(),
                    tw == tile_w && th == tile_h,
                    gw * tile_w == img.width,
                    gh * tile_h == img.height,
                    here == (Tile { y, x }),
                    y < gh,
                    x < gw,
                    k <= tiles.len(),
                    forall|m: int| 0 <= m < tiles@.len() ==> (#[trigger] tiles@[m]).y < gh
                        && tiles@[m].x < gw,
                ensures
                    match found {
                        Some(v) => v < tiles@.len() && same_tile(
                            px,
                            tw,
                            th,
                            tiles@[v as int].y as int,
                            tiles@[v as int].x as int,
                            y as int,
                            x as int,
                        ),
                        None => forall|m: int|
                            0 <= m < tiles@.len() ==> !same_tile(
                                px,
                                tw,
                                th,
                                (#[trigger] tiles@[m]).y as int,
                                tiles@[m].x as int,
                                y as int,
                                x as int,
                            ),
                    },
                decreases tiles.len() - k,
            {
                if tile_equal(img, tile_w, tile_h, tiles[k], here, Ghost(gw as int), Ghost(gh as int)) {
                    found = Some(k);
                    break ;
                }
                k += 1;
            }
            let ghost before = tiles@;
            match found {
                Some(v) => {
                    row.push(Seat::Collapsed(v));
                },
                None => {
                    row.push(Seat::Collapsed(tiles.len()));
                    tiles.push(here);
                    proof {
                        assert(same_tile(px, tw, th, y as int, x as int, y as int, x as int));
                        assert forall|v: int, u: int| 0 <= v < y && 0 <= u < gw implies names_tile(
                            px,
                            tw,
                            th,
                            tiles@,
                            (#[trigger] data@[v]@[u])@,
                            v,
                            u,
                        ) by {
                            assert(names_tile(px, tw, th, before, data@[v]@[u]@, v, u));
                            assert(tiles@[data@[v]@[u]@.candidates()[0] as int]
                                == before[data@[v]@[u]@.candidates()[0] as int]);
                        }
                        assert forall|u: int| 0 <= u < x implies names_tile(
                            px,
                            tw,
                            th,
                            tiles@,
                            (#[trigger] row@[u])@,
                            y as int,
                            u,
                        ) by {
                            assert(names_tile(px, tw, th, before, row@[u]@, y as int, u));
                            assert(tiles@[row@[u]@.candidates()[0] as int]
                                == before[row@[u]@.candidates()[0] as int]);
                        }
                        assert forall|a: int, b: int| 0 <= a < b < tiles@.len() implies precedes(
                            (#[trigger] tiles@[a]).y as int,
                            tiles@[a].x as int,
                            (#[trigger] tiles@[b]).y as int,
                            tiles@[b].x as int,
                        ) && !same_tile(
                            px,
                            tw,
                            th,
                            tiles@[a].y as int,
                            tiles@[a].x as int,
                            tiles@[b].y as int,
                            tiles@[b].x as int,
                        ) by {
                            assert(tiles@[a] == before[a]);
                            if b < before.len() {
                                assert(tiles@[b] == before[b]);
                            }
                        }
                    }
                },
            }
            x += 1;
        }
        data.push(row);
        y += 1;
    }
    let grid = Grid { data, num_possibilities: tiles.len(), w: gw, h: gh };
    proof {
        assert forall|v: int, u: int| 0 <= v < gh && 0 <= u < gw implies (
        #[trigger] grid.data@[v]@[u])@.valid(tiles@.len() as nat) by {
            assert(names_tile(px, tw, th, tiles@, grid.data@[v]@[u]@, v, u));
        }
        grid.lemma_view();
        assert forall|v: int, u: int| grid@.has(v, u) implies names_tile(
            px,
            tw,
            th,
            tiles@,
            #[trigger] grid@.cells[v][u],
            v,
            u,
        ) by {
            assert(names_tile(px, tw, th, tiles@, grid.data@[v]@[u]@, v, u));
        }
    }
    Ok((grid, tiles))
}

impl GridView {
    /// Every cell is decided.
    pub open spec fn decided(self) -> bool {
        forall|y: int, x: int| self.has(y, x) ==> (#[trigger] self.cells[y][x]) is Collapsed
    }
}

/// Every listed tile lies within the picture.
pub open spec fn tiles_within(tiles: Seq<Tile>, tw: int, th: int, width: int, height: int) -> bool {
    forall|k: int|
        0 <= k < tiles.len() ==> ((#[trigger] tiles[k]).x + 1) * tw <= width && (tiles[k].y + 1)
            * th <= height
}

/// The pixel at offset `k` within part `t`, when part `t` ends within the
/// extent.
pub proof fn lemma_within_part(t: int, k: int, size: int, extent: int)
    by (nonlinear_arith)
    requires
        0 <= t,
        0 <= k < size,
        (t + 1) * size <= extent,
    ensures
        0 <= t * size,
        t * size + k < extent,
{
}

/// Pixel `k` of part `t` comes before pixel `m` of part `u` when the part
/// comes before, or is the same and the pixel comes before.
pub proof fn lemma_pixel_order(t: int, k: int, u: int, m: int, size: int)
    by (nonlinear_arith)
    requires
        0 <= t,
        0 <= k < size,
        0 <= m <= size,
        t < u || (t == u && k < m),
    ensures
        t * size + k < u * size + m,
{
}

/// Whether part `t` of `size` pixels ends within the extent.
fn part_fits(t: usize, size: usize, extent: usize) -> (ok: bool)
    ensures
        ok == ((t + 1) * size <= extent),
{
    assert((t + 1) * size <= 0x1_0000_0000_0000_0000 * 0xffff_ffff_ffff_ffff) by (nonlinear_arith)
        requires
            0 <= t + 1 <= 0x1_0000_0000_0000_0000,
            0 <= size <= 0xffff_ffff_ffff_ffff,
    ;
    let end: u128 = (t as u128 + 1) * (size as u128);
    end <= extent as u128
}

/// Whether every listed tile lies within a picture of the given size.
pub fn tiles_fit(tiles: &Vec<Tile>, tile_w: usize, tile_h: usize, width: usize, height: usize) -> (ok:
    bool)
    ensures
        ok == tiles_within(tiles@, tile_w as int, tile_h as int, width as int, height as int),
{
    let mut k: usize = 0;
    while k < tiles.len()
        invariant
            k <= tiles.len(),
            forall|m: int|
                0 <= m < k ==> ((#[trigger] tiles@[m]).x + 1) * tile_w <= width && (tiles@[m].y
                    + 1) * tile_h <= height,
        decreases tiles.len() - k,
    {
        if !part_fits(tiles[k].x, tile_w, width) || !part_fits(tiles[k].y, tile_h, height) {
            return false;
        }
        k += 1;
    }
    true
}

impl Bitmap {
    /// Whether there are `height` rows of `width` pixels.
    pub fn is_valid(&self) -> (ok: bool)
        ensures
            ok == self.wf(),
    {
        if self.rows.len() != self.height {
            return false;
        }
        let mut y: usize = 0;
        while y < self.height
            invariant
                self.rows@.len() == self.height,
                y <= self.height,
                forall|v: int| 0 <= v < y ==> (#[trigger] self.rows@[v])@.len() == self.width,
            decreases self.height - y,
        {
            if self.rows[y].len() != self.width {
                return false;
            }
            y += 1;
        }
        true
    }
}

impl Grid {
    /// Whether every seat is decided.
    pub fn is_decided(&self) -> (ok: bool)
        requires
            self.wf(),
        ensures
            ok == self@.decided(),
    {
        proof {
            self.lemma_view();
        }
        let mut y: usize = 0;
        while y < self.h
            invariant
                self.wf(),
                y <= self.h,
                forall|v: int, u: int|
                    0 <= v < y && 0 <= u < self.w ==> (#[trigger] self@.cells[v][u]) is Collapsed,
            decreases self.h - y,
        {
            let mut x: usize = 0;
            while x < self.w
                invariant
                    self.wf(),
                    y < self.h,
                    x <= self.w,
                    forall|v: int, u: int|
                        (0 <= v < y && 0 <= u < self.w || v == y && 0 <= u < x) ==> (
                        #[trigger] self@.cells[v][u]) is Collapsed,
                decreases self.w - x,
            {
                if self.get(y, x).get_id().is_err() {
                    assert(self@.has(y as int, x as int));
                    return false;
                }
                x += 1;
            }
            y += 1;
        }
        true
    }
}

impl Grid {
    /// The picture of a solved grid: in the place of each cell the tile
    /// that its id names, copied from `source`. The picture is `w` tiles
    /// wide and `h` tiles high.
    pub fn render(&self, source: &Bitmap, tiles: &Vec<Tile>, tile_w: usize, tile_h: usize) -> (out:
        Bitmap)
        requires
            self.wf(),
            self@.decided(),
            source.wf(),
            self.num_possibilities <= tiles@.len(),
            tiles_within(
                tiles@,
                tile_w as int,
                tile_h as int,
                source.width as int,
                source.height as int,
            ),
            self.w * tile_w <= usize::MAX,
            self.h * tile_h <= usize::MAX,
        ensures
            out.wf(),
            out.width == self.w * tile_w,
            out.height == self.h * tile_h,
            forall|y: int, x: int, j: int, i: int|
                self@.has(y, x) && 0 <= j < tile_h && 0 <= i < tile_w ==> #[trigger] tile_pixel(
                    out.pixels(),
                    tile_w as int,
                    tile_h as int,
                    y,
                    x,
                    j,
                    i,
                ) == tile_pixel(
                    source.pixels(),
                    tile_w as int,
                    tile_h as int,
                    tiles@[self@.cells[y][x].candidates()[0] as int].y as int,
                    tiles@[self@.cells[y][x].candidates()[0] as int].x as int,
                    j,
                    i,
                ),
    {
        let ghost view = self@;
        let ghost px = source.pixels();
        let ghost tw = tile_w as int;
        let ghost th = tile_h as int;
        proof {
            self.lemma_view();
        }
        let width: usize = self.w * tile_w;
        let height: usize = self.h * tile_h;
        let mut rows: Vec<Vec<u32>> = Vec::new();
        let mut y: usize = 0;
        while y < self.h
            invariant
                self.wf(),
                view == self@,
                view.wf(),
                view.decided(),
                source.wf(),
                px == source.pixels(),
                tw == tile_w && th == tile_h,
                self.num_possibilities <= tiles@.len(),
                tiles_within(tiles@, tw, th, source.width as int, source.height as int),
                width == self.w * tile_w,
                height == self.h * tile_h,
                y <= self.h,
                rows@.len() == y * th,
                forall|r: int| 0 <= r < rows@.len() ==> (#[trigger] rows@[r])@.len() == width,
                forall|v: int, x: int, jj: int, i: int|
                    0 <= v < y && 0 <= x < self.w && 0 <= jj < th && 0 <= i < tw ==> (
                    #[trigger] rows@[v * th + jj]@[x * tw + i]) == tile_pixel(
                        px,
                        tw,
                        th,
                        tiles@[view.cells[v][x].candidates()[0] as int].y as int,
                        tiles@[view.cells[v][x].candidates()[0] as int].x as int,
                        jj,
                        i,
                    ),
            decreases self.h - y,
        {
            let mut j: usize = 0;
            while j < tile_h
                invariant
                    self.wf(),
                    view == self@,
                    view.wf(),
                    view.decided(),
                    source.wf(),
                    px == source.pixels(),
                    tw == tile_w && th == tile_h,
                    self.num_possibilities <= tiles@.len(),
                    tiles_within(tiles@, tw, th, source.width as int, source.height as int),
                    width == self.w * tile_w,
                    height == self.h * tile_h,
                    y < self.h,
                    j <= tile_h,
                    rows@.len() == y * th + j,
                    forall|r: int| 0 <= r < rows@.len() ==> (#[trigger] rows@[r])@.len() == width,
                    forall|v: int, x: int, jj: int, i: int|
                        (0 <= v < y && 0 <= jj < th || v == y && 0 <= jj < j) && 0 <= x < self.w
                            && 0 <= i < tw ==> (#[trigger] rows@[v * th + jj]@[x * tw + i])
                            == tile_pixel(
                            px,
                            tw,
                            th,
                            tiles@[view.cells[v][x].candidates()[0] as int].y as int,
                            tiles@[view.cells[v][x].candidates()[0] as int].x as int,
                            jj,
                            i,
                        ),
                decreases tile_h - j,
            {
                let mut row: Vec<u32> = Vec::new();
                let mut x: usize = 0;
                while x < self.w
                    invariant
                        self.wf(),
                        view == self@,
                        view.wf(),
                        view.decided(),
                        source.wf(),
                        px == source.pixels(),
                        tw == tile_w && th == tile_h,
                        self.num_possibilities <= tiles@.len(),
                        tiles_within(tiles@, tw, th, source.width as int, source.height as int),
                        width == self.w * tile_w,
                        y < self.h,
                        j < tile_h,
                        x <= self.w,
                        row@.len() == x * tw,
                        forall|u: int, ii: int|
                            0 <= u < x && 0 <= ii < tw ==> (#[trigger] row@[u * tw + ii])
                                == tile_pixel(
                                px,
                                tw,
                                th,
                                tiles@[view.cells[y as int][u].candidates()[0] as int].y as int,
                                tiles@[view.cells[y as int][u].candidates()[0] as int].x as int,
                                j as int,
                                ii,
                            ),
                    decreases self.w - x,
                {
                    assert(view.has(y as int, x as int));
                    let ghost cell = view.cells[y as int][x as int];
                    assert(cell is Collapsed);
                    assert(cell.valid(view.n));
                    let id = self.get(y, x).get_id().unwrap();
                    assert(id == cell.candidates()[0]);
                    let tile = tiles[id];
                    proof {
                        lemma_within_part(tile.y as int, j as int, th, source.height as int);
                    }
                    let from_row = tile.y * tile_h + j;
                    let mut i: usize = 0;
                    while i < tile_w
                        invariant
                            source.wf(),
                            px == source.pixels(),
                            tw == tile_w && th == tile_h,
                            (tile.x + 1) * tw <= source.width,
                            from_row == tile.y * tile_h + j,
                            from_row < source.height,
                            x < self.w,
                            i <= tile_w,
                            row@.len() == x * tw + i,
                            tile == tiles@[view.cells[y as int][x as int].candidates()[0] as int],
                            forall|u: int, ii: int|
                                (0 <= u < x && 0 <= ii < tw || u == x && 0 <= ii < i) ==> (
                                #[trigger] row@[u * tw + ii]) == tile_pixel(
                                    px,
                                    tw,
                                    th,
                                    tiles@[view.cells[y as int][u].candidates()[0] as int].y as int,
                                    tiles@[view.cells[y as int][u].candidates()[0] as int].x as int,
                                    j as int,
                                    ii,
                                ),
                        decreases tile_w - i,
                    {
                        proof {
                            lemma_within_part(tile.x as int, i as int, tw, source.width as int);
                        }
                        let ghost before = row@;
                        row.push(source.rows[from_row][tile.x * tile_w + i]);
                        proof {
                            assert forall|u: int, ii: int|
                                (0 <= u < x && 0 <= ii < tw || u == x && 0 <= ii < i + 1) implies (
                                #[trigger] row@[u * tw + ii]) == tile_pixel(
                                    px,
                                    tw,
                                    th,
                                    tiles@[view.cells[y as int][u].candidates()[0] as int].y as int,
                                    tiles@[view.cells[y as int][u].candidates()[0] as int].x as int,
                                    j as int,
                                    ii,
                                ) by {
                                if u == x && ii == i {
                                } else {
                                    lemma_pixel_order(u, ii, x as int, i as int, tw);
                                    assert(row@[u * tw + ii] == before[u * tw + ii]);
                                }
                            }
                        }
                        i += 1;
                    }
                    assert((x + 1) * tw == x * tw + tw) by (nonlinear_arith);
                    x += 1;
                }
                let ghost before = rows@;
                rows.push(row);
                proof {
                    assert forall|v: int, x: int, jj: int, i: int|
                        (0 <= v < y && 0 <= jj < th || v == y && 0 <= jj < j + 1) && 0 <= x
                            < self.w && 0 <= i < tw implies (
                    #[trigger] rows@[v * th + jj]@[x * tw + i]) == tile_pixel(
                        px,
                        tw,
                        th,
                        tiles@[view.cells[v][x].candidates()[0] as int].y as int,
                        tiles@[view.cells[v][x].candidates()[0] as int].x as int,
                        jj,
                        i,
                    ) by {
                        if v == y && jj == j {
                        } else {
                            lemma_pixel_order(v, jj, y as int, j as int, th);
                            assert(rows@[v * th + jj] == before[v * th + jj]);
                        }
                    }
                }
                j += 1;
            }
            assert((y + 1) * th == y * th + th) by (nonlinear_arith);
            y += 1;
        }
        let out = Bitmap { width, height, rows };
        proof {
            assert forall|y: int, x: int, j: int, i: int|
                view.has(y, x) && 0 <= j < tile_h && 0 <= i < tile_w implies #[trigger] tile_pixel(
                out.pixels(),
                tw,
                th,
                y,
                x,
                j,
                i,
            ) == tile_pixel(
                px,
                tw,
                th,
                tiles@[view.cells[y][x].candidates()[0] as int].y as int,
                tiles@[view.cells[y][x].candidates()[0] as int].x as int,
                j,
                i,
            ) by {
                lemma_within(y, j, th, self.h as int, height as int);
                assert(out.pixels()[y * th + j] == rows@[y * th + j]@);
            }
        }
        out
    }
}

} // verus!
