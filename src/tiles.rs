use vstd::prelude::*;
use vstd::arithmetic::div_mod::{lemma_fundamental_div_mod, lemma_fundamental_div_mod_converse};

verus! {

/// One refinement pass over a frame: the whole frame, cut in square tiles of
/// edge `tile_size` (clipped at the right and bottom borders).
#[derive(Clone, Copy, Debug, PartialEq, Eq, Structural)]
pub struct ImageLevel {
    pub tile_size: usize,
    /// Whether this is the first level of its frame.
    pub is_init: bool,
    pub width: usize,
    pub height: usize,
}

/// A rectangle of pixels: anchor `(x, y)`, width `w` and height `h`.
#[derive(Clone, Copy, Debug, PartialEq, Eq, Structural)]
pub struct Tile {
    pub x: usize,
    pub y: usize,
    pub w: usize,
    pub h: usize,
}

/// Number of tile columns of a level: one column per started run of `ts`
/// pixels, and a single column of zero-width tiles for a frame of width zero.
pub open spec fn tile_cols(ts: nat, width: nat) -> nat {
    if ts == 0 {
        0
    } else if width == 0 {
        1
    } else {
        ((width + ts - 1) as int / (ts as int)) as nat
    }
}

/// Number of tile rows of a level: one row per started run of `ts` pixels.
pub open spec fn tile_rows(ts: nat, height: nat) -> nat {
    if ts == 0 {
        0
    } else {
        ((height + ts - 1) as int / (ts as int)) as nat
    }
}

/// Number of tiles of a level with tile edge `ts`.
pub open spec fn tile_count(ts: nat, width: nat, height: nat) -> nat {
    tile_cols(ts, width) * tile_rows(ts, height)
}

/// Tile number `k` of a level, counted row-major: its anchor is on the grid of
/// step `ts`, and its size is `ts` clipped at the frame's border.
pub open spec fn tile_at(ts: nat, width: nat, height: nat, k: nat) -> Tile {
    let cols = tile_cols(ts, width);
    let x = ((k as int) % (cols as int)) * ts;
    let y = ((k as int) / (cols as int)) * ts;
    Tile {
        x: x as usize,
        y: y as usize,
        w: vstd::math::min((ts as int), width - x) as usize,
        h: vstd::math::min((ts as int), height - y) as usize,
    }
}

/// The refinement levels of a frame: tile edge `tile_size` first, then each
/// next level with half the edge of the previous one, down to an edge of one.
#[derive(Clone, Copy, Debug, PartialEq, Eq, Structural)]
pub struct ImageLevelIter {
    pub tile_size: usize,
    pub is_init: bool,
    pub width: usize,
    pub height: usize,
}

impl ImageLevelIter {
    /// The next level, or `None` once the tile edge has reached zero.
    pub fn next(&mut self) -> (r: Option<ImageLevel>)
        ensures
            old(self).tile_size == 0 ==> r.is_none() && *final(self) == *old(self),
            old(self).tile_size > 0 ==> r == Some(
                ImageLevel {
                    tile_size: old(self).tile_size,
                    is_init: old(self).is_init,
                    width: old(self).width,
                    height: old(self).height,
                },
            ) && *final(self) == (ImageLevelIter {
                tile_size: old(self).tile_size / 2,
                is_init: false,
                width: old(self).width,
                height: old(self).height,
            }),
    {
        if self.tile_size > 0 {
            let curr_tile_size = self.tile_size;
            let curr_is_init = self.is_init;
            self.tile_size = self.tile_size / 2;
            self.is_init = false;
            Some(
                ImageLevel {
                    tile_size: curr_tile_size,
                    is_init: curr_is_init,
                    width: self.width,
                    height: self.height,
                },
            )
        } else {
            None
        }
    }
}

impl ImageLevel {
    /// The tiles of this level, row-major from the top-left corner.
    pub fn tiles(&self) -> (r: TileIter)
        requires
            self.tile_size > 0,
        ensures
            r == (TileIter {
                tile_size: self.tile_size,
                width: self.width,
                height: self.height,
                is_init: self.is_init,
                x: 0,
                y: 0,
                in_even_row: true,
            }),
            r.wf(),
            r.position() == 0,
    {
        proof {
            let ts = self.tile_size as int;
            lemma_fundamental_div_mod_converse(0, ts, 0, 0);
            lemma_fundamental_div_mod_converse(ts - 1, ts, 0, ts - 1);
            let cols = tile_cols(ts as nat, self.width as nat);
            assert(cols * 0 == 0);
            assert(0 * cols + 0 == 0);
        }
        TileIter {
            tile_size: self.tile_size,
            width: self.width,
            height: self.height,
            is_init: self.is_init,
            x: 0,
            y: 0,
            in_even_row: true,
        }
    }
}

/// Walks the tiles of one level, row-major; `(x, y)` is the anchor of the
/// next tile, and `y` reaches `height` once every tile has been handed out.
#[derive(Clone, Copy, Debug, PartialEq, Eq, Structural)]
pub struct TileIter {
    pub tile_size: usize,
    pub x: usize,
    pub y: usize,
    pub width: usize,
    pub height: usize,
    /// Copied from the level; the walk does not read it.
    pub is_init: bool,
    /// Set at the start; the walk does not read it.
    pub in_even_row: bool,
}

impl TileIter {
    /// The anchor lies on the tile grid inside the frame (or at its end).
    pub open spec fn wf(&self) -> bool {
        &&& self.tile_size > 0
        &&& (self.x as int) % (self.tile_size as int) == 0
        &&& (self.x < self.width || self.x == 0)
        &&& (self.y < self.height ==> (self.y as int) % (self.tile_size as int) == 0)
    }

    /// The number of tiles handed out so far.
    pub open spec fn position(&self) -> nat {
        if self.y >= self.height {
            self.count()
        } else {
            (((self.y as int) / (self.tile_size as int)) * tile_cols(self.tile_size as nat, self.width as nat)
                + (self.x as int) / (self.tile_size as int)) as nat
        }
    }

    /// The number of tiles of the level.
    pub open spec fn count(&self) -> nat {
        tile_count(self.tile_size as nat, self.width as nat, self.height as nat)
    }

    /// Tile number `k` of the level.
    pub open spec fn tile(&self, k: nat) -> Tile {
        tile_at(self.tile_size as nat, self.width as nat, self.height as nat, k)
    }

    /// The next tile, or `None` once the level is covered.
    pub fn next(&mut self) -> (r: Option<Tile>)
        requires
            old(self).wf(),
        ensures
            final(self).wf(),
            final(self).tile_size == old(self).tile_size,
            final(self).width == old(self).width,
            final(self).height == old(self).height,
            final(self).is_init == old(self).is_init,
            final(self).in_even_row == old(self).in_even_row,
            old(self).y < old(self).height ==> final(self).x == (if old(self).tile_size
                >= old(self).width - old(self).x {
                0
            } else {
                old(self).x + old(self).tile_size
            }),
            old(self).y < old(self).height ==> final(self).y == (if old(self).tile_size
                < old(self).width - old(self).x {
                old(self).y as int
            } else if old(self).tile_size >= old(self).height - old(self).y {
                old(self).height as int
            } else {
                old(self).y + old(self).tile_size
            }),
            old(self).position() <= old(self).count(),
            old(self).position() < old(self).count() ==> r == Some(old(self).tile(old(self).position()))
                && final(self).position() == old(self).position() + 1,
            old(self).position() == old(self).count() ==> r.is_none() && *final(self) == *old(self),
    {
        proof {
            lemma_position(*self);
        }
        if self.y >= self.height {
            return None;
        }
        let curr_x = self.x;
        let curr_y = self.y;
        let (next_x, next_y, curr_tile_width, curr_tile_height) = if self.tile_size >= self.width
            - curr_x {
            let curr_tile_width = self.width - curr_x;
            if self.tile_size >= self.height - curr_y {
                (0, self.height, curr_tile_width, self.height - curr_y)
            } else {
                (0, curr_y + self.tile_size, curr_tile_width, self.tile_size)
            }
        } else {
            let curr_tile_height = if self.tile_size < self.height - curr_y {
                self.tile_size
            } else {
                self.height - curr_y
            };
            (curr_x + self.tile_size, curr_y, self.tile_size, curr_tile_height)
        };
        let ghost prev = *self;
        self.x = next_x;
        self.y = next_y;
        proof {
            lemma_step(prev, *self);
        }
        Some(Tile { x: curr_x, y: curr_y, w: curr_tile_width, h: curr_tile_height })
    }
}

/// Whether tile `t` holds pixel `(x, y)`.
pub open spec fn tile_contains(t: Tile, x: int, y: int) -> bool {
    t.x <= x < t.x + t.w && t.y <= y < t.y + t.h
}

/// The number of the tile of a level that holds pixel `(x, y)`.
pub open spec fn tile_index_of(ts: nat, width: nat, x: nat, y: nat) -> nat {
    ((y as int / ts as int) * tile_cols(ts, width) + x as int / ts as int) as nat
}

/// The tiles of a level cover the frame exactly once: each lies inside the
/// frame, and each pixel of the frame lies in one tile, and in no other.
pub proof fn lemma_level_partitions_frame(ts: usize, width: usize, height: usize, x: usize, y: usize)
    requires
        ts > 0,
        x < width,
        y < height,
    ensures
        forall|k: nat|
            k < tile_count(ts as nat, width as nat, height as nat) ==> {
                let t = #[trigger] tile_at(ts as nat, width as nat, height as nat, k);
                t.x + t.w <= width && t.y + t.h <= height
            },
        tile_index_of(ts as nat, width as nat, x as nat, y as nat) < tile_count(
            ts as nat,
            width as nat,
            height as nat,
        ),
        tile_contains(
            tile_at(
                ts as nat,
                width as nat,
                height as nat,
                tile_index_of(ts as nat, width as nat, x as nat, y as nat),
            ),
            x as int,
            y as int,
        ),
        forall|k: nat|
            k < tile_count(ts as nat, width as nat, height as nat) && tile_contains(
                #[trigger] tile_at(ts as nat, width as nat, height as nat, k),
                x as int,
                y as int,
            ) ==> k == tile_index_of(ts as nat, width as nat, x as nat, y as nat),
{
    let t = ts as nat;
    let w = width as nat;
    let h = height as nat;
    let cols = tile_cols(t, w);
    let rows = tile_rows(t, h);
    assert forall|k: nat| k < tile_count(t, w, h) implies {
        let tl = #[trigger] tile_at(t, w, h, k);
        tl.x + tl.w <= width && tl.y + tl.h <= height
    } by {
        lemma_cell(t, w, h, k);
    }
    let col = (x as int / ts as int) as nat;
    let row = (y as int / ts as int) as nat;
    lemma_fundamental_div_mod(x as int, ts as int);
    lemma_fundamental_div_mod(y as int, ts as int);
    lemma_grid_cell(t, w, x as nat);
    lemma_grid_cell(t, h, y as nat);
    let k0 = tile_index_of(t, w, x as nat, y as nat);
    assert(k0 == row * cols + col);
    lemma_index(cols, row, col);
    assert(row * cols + col < rows * cols) by (nonlinear_arith)
        requires
            row < rows,
            col < cols,
    ;
    lemma_cell(t, w, h, k0);
    let t0 = tile_at(t, w, h, k0);
    let xm = (x as int) % (ts as int);
    let ym = (y as int) % (ts as int);
    assert(col * t <= x < col * t + t) by (nonlinear_arith)
        requires
            x == ts * col + xm,
            0 <= xm < ts,
            t == ts,
    ;
    assert(row * t <= y < row * t + t) by (nonlinear_arith)
        requires
            y == ts * row + ym,
            0 <= ym < ts,
            t == ts,
    ;
    assert(t0.x == col * t && t0.y == row * t);
    assert(tile_contains(t0, x as int, y as int));
    assert forall|k: nat| k < tile_count(t, w, h) && tile_contains(
        #[trigger] tile_at(t, w, h, k),
        x as int,
        y as int,
    ) implies k == k0 by {
        lemma_cell(t, w, h, k);
        let c = (k as int % cols as int) as nat;
        let r = (k as int / cols as int) as nat;
        lemma_fundamental_div_mod(k as int, cols as int);
        // The tile's column run [c * t, c * t + t) holds x, so c is x's column.
        lemma_fundamental_div_mod_converse(x as int, t as int, c as int, x - c * t);
        lemma_fundamental_div_mod_converse(y as int, t as int, r as int, y - r * t);
        assert(k == cols * r + c);
        assert(k0 == r * cols + c);
        assert(cols * r == r * cols) by (nonlinear_arith);
    }
}

/// Pixel coordinate `x` inside a run of `width` pixels lies in a grid cell
/// whose number is below the cell count.
proof fn lemma_grid_cell(ts: nat, width: nat, x: nat)
    requires
        ts > 0,
        x < width,
    ensures
        (x as int / ts as int) < tile_cols(ts, width),
        (x as int / ts as int) < tile_rows(ts, width),
{
    lemma_fundamental_div_mod(x as int, ts as int);
    let q = x as int / ts as int;
    let m = x as int % ts as int;
    let g = (x as int - m) as nat;
    assert(g == q * ts) by (nonlinear_arith)
        requires
            x == ts * q + m,
            g == x - m,
    ;
    assert((g as int) % (ts as int) == 0) by {
        lemma_fundamental_div_mod_converse(g as int, ts as int, q, 0);
    }
    lemma_column(ts, width, g);
    lemma_fundamental_div_mod_converse(g as int, ts as int, q, 0);
}

/// Tile number `k` of a level lies on grid cell `(k % cols, k / cols)` and
/// inside the frame.
proof fn lemma_cell(ts: nat, width: nat, height: nat, k: nat)
    requires
        ts > 0,
        width <= usize::MAX,
        height <= usize::MAX,
        k < tile_count(ts, width, height),
    ensures
        ({
            let cols = tile_cols(ts, width);
            let c = k as int % cols as int;
            let r = k as int / cols as int;
            let t = tile_at(ts, width, height, k);
            &&& 0 <= c < cols
            &&& 0 <= r < tile_rows(ts, height)
            &&& t.x == c * ts
            &&& t.y == r * ts
            &&& (width > 0 ==> t.w == vstd::math::min(ts as int, width - c * ts) && t.w > 0)
            &&& (width == 0 ==> t.w == 0)
            &&& t.h == vstd::math::min(ts as int, height - r * ts)
            &&& t.h > 0
            &&& t.x + t.w <= width
            &&& t.y + t.h <= height
        }),
{
    let cols = tile_cols(ts, width);
    let rows = tile_rows(ts, height);
    assert(cols > 0) by {
        if width > 0 {
            vstd::arithmetic::div_mod::lemma_div_by_self(ts as int);
            vstd::arithmetic::div_mod::lemma_div_is_ordered(ts as int, (width + ts - 1) as int, ts as int);
        }
    }
    lemma_fundamental_div_mod(k as int, cols as int);
    let c = k as int % cols as int;
    let r = k as int / cols as int;
    assert(0 <= r < rows) by (nonlinear_arith)
        requires
            k == cols * r + c,
            0 <= c < cols,
            k < cols * rows,
            0 <= k,
    ;
    if height == 0 {
        lemma_fundamental_div_mod_converse(ts - 1, ts as int, 0, ts - 1);
    }
    assert(height > 0);
    lemma_cell_inside(ts, width, c as nat);
    lemma_cell_inside(ts, height, r as nat);
    assert(0 <= c * ts && 0 <= r * ts) by (nonlinear_arith)
        requires
            0 <= c,
            0 <= r,
            ts > 0,
    ;
    let t = tile_at(ts, width, height, k);
    if width == 0 {
        assert(c == 0);
        assert(c * ts == 0) by (nonlinear_arith)
            requires
                c == 0,
        ;
    } else {
        assert(c * ts < width);
    }
    assert(t.x == c * ts);
    assert(t.y == r * ts);
    assert(t.h == vstd::math::min(ts as int, height - r * ts));
}

/// Grid cell `c`, below the cell count of a run of `width > 0` pixels, starts
/// inside the run.
proof fn lemma_cell_inside(ts: nat, width: nat, c: nat)
    requires
        ts > 0,
        width > 0 ==> c < ((width + ts - 1) as int / ts as int),
    ensures
        width > 0 ==> c * ts < width,
{
    if width > 0 {
        lemma_fundamental_div_mod((width + ts - 1) as int, ts as int);
        let q = (width + ts - 1) as int / ts as int;
        let m = (width + ts - 1) as int % ts as int;
        assert(c * ts < width) by (nonlinear_arith)
            requires
                c + 1 <= q,
                width + ts - 1 == ts * q + m,
                0 <= m < ts,
        ;
    }
}

/// `x` lies on the grid of step `ts` within a run of `width` pixels (or is
/// the zero anchor of an empty run): its column is below the column count,
/// and is the last column exactly when one more step reaches the border.
proof fn lemma_column(ts: nat, width: nat, x: nat)
    requires
        ts > 0,
        (x as int) % (ts as int) == 0,
        x < width || x == 0,
    ensures
        x == ((x as int) / (ts as int)) * ts,
        (x as int) / (ts as int) < tile_cols(ts, width),
        ((x as int) / (ts as int) + 1 == tile_cols(ts, width)) <==> (x + ts >= width),
{
    lemma_fundamental_div_mod((x as int), (ts as int));
    let q = (x as int) / (ts as int);
    assert(x == ts * q);
    assert(x == q * ts) by (nonlinear_arith)
        requires
            x == ts * q,
    ;
    if width > 0 {
        let c = tile_cols(ts, width) as int;
        lemma_fundamental_div_mod(width + ts - 1, (ts as int));
        let r = (width + ts - 1) % (ts as int);
        assert(width + ts - 1 == ts * c + r);
        assert(width + ts - 1 == c * ts + r) by (nonlinear_arith)
            requires
                width + ts - 1 == ts * c + r,
        ;
        assert(0 <= r < ts);
        // q * ts < width <= c * ts, so q < c.
        assert(q < c) by (nonlinear_arith)
            requires
                q * ts < width,
                width + ts - 1 == c * ts + r,
                r < ts,
                ts > 0,
        ;
        if x + ts >= width {
            assert(q + 1 >= c) by (nonlinear_arith)
                requires
                    q * ts + ts >= width,
                    width + ts - 1 == c * ts + r,
                    0 <= r,
                    ts > 0,
            ;
        }
        if q + 1 == c {
            assert(x + ts >= width) by (nonlinear_arith)
                requires
                    q + 1 == c,
                    x == q * ts,
                    width + ts - 1 == c * ts + r,
                    r < ts,
            ;
        }
    } else {
        assert(x == 0);
    }
}

/// The same as `lemma_column`, for rows: `y` on the grid and inside the frame.
proof fn lemma_row(ts: nat, height: nat, y: nat)
    requires
        ts > 0,
        (y as int) % (ts as int) == 0,
        y < height,
    ensures
        y == ((y as int) / (ts as int)) * ts,
        (y as int) / (ts as int) < tile_rows(ts, height),
        ((y as int) / (ts as int) + 1 == tile_rows(ts, height)) <==> (y + ts >= height),
{
    lemma_column(ts, height, y);
}

/// Tile number `row * cols + col` is the tile at grid cell `(col, row)`.
proof fn lemma_index(cols: nat, row: nat, col: nat)
    requires
        col < cols,
    ensures
        ((row * cols + col) as int) % (cols as int) == col,
        ((row * cols + col) as int) / (cols as int) == row,
{
    lemma_fundamental_div_mod_converse((row * cols + col) as int, (cols as int), (row as int), (col as int));
}

/// A well-formed iterator has handed out at most all the tiles, and the next
/// tile has the iterator's anchor.
pub(crate) proof fn lemma_position(it: TileIter)
    requires
        it.wf(),
    ensures
        it.position() <= it.count(),
        it.y < it.height ==> it.position() < it.count() && it.tile(it.position()) == (Tile {
            x: it.x,
            y: it.y,
            w: vstd::math::min(it.tile_size as int, it.width - it.x) as usize,
            h: vstd::math::min(it.tile_size as int, it.height - it.y) as usize,
        }),
{
    if it.y < it.height {
        let ts = it.tile_size as nat;
        let cols = tile_cols(ts, it.width as nat);
        let rows = tile_rows(ts, it.height as nat);
        lemma_column(ts, it.width as nat, it.x as nat);
        lemma_row(ts, it.height as nat, it.y as nat);
        let col = ((it.x as int) / (ts as int)) as nat;
        let row = ((it.y as int) / (ts as int)) as nat;
        lemma_index(cols, row, col);
        assert(row * cols + col < rows * cols) by (nonlinear_arith)
            requires
                row < rows,
                col < cols,
        ;
    }
}

/// One step of `TileIter::next` from `prev` to `next` hands out tile number
/// `prev.position()` and advances the position by one.
proof fn lemma_step(prev: TileIter, next: TileIter)
    requires
        prev.wf(),
        prev.y < prev.height,
        next.tile_size == prev.tile_size,
        next.width == prev.width,
        next.height == prev.height,
        if prev.tile_size >= prev.width - prev.x {
            next.x == 0 && if prev.tile_size >= prev.height - prev.y {
                next.y == prev.height
            } else {
                next.y == prev.y + prev.tile_size
            }
        } else {
            next.x == prev.x + prev.tile_size && next.y == prev.y
        },
    ensures
        next.wf(),
        next.position() == prev.position() + 1,
{
    let ts = prev.tile_size as nat;
    let cols = tile_cols(ts, prev.width as nat);
    let rows = tile_rows(ts, prev.height as nat);
    lemma_column(ts, prev.width as nat, prev.x as nat);
    lemma_row(ts, prev.height as nat, prev.y as nat);
    let col = ((prev.x as int) / (ts as int)) as nat;
    let row = ((prev.y as int) / (ts as int)) as nat;
    if prev.tile_size >= prev.width - prev.x {
        assert(col + 1 == cols);
        if prev.tile_size >= prev.height - prev.y {
            assert(row + 1 == rows);
            assert(row * cols + col + 1 == rows * cols) by (nonlinear_arith)
                requires
                    row + 1 == rows,
                    col + 1 == cols,
            ;
        } else {
            assert(next.y == (row + 1) * ts + 0) by (nonlinear_arith)
                requires
                    next.y == prev.y + ts,
                    prev.y == row * ts,
            ;
            lemma_fundamental_div_mod_converse((next.y as int), (ts as int), row + 1 as int, 0);
            assert((row + 1) * cols == row * cols + cols) by (nonlinear_arith);
        }
    } else {
        assert(next.x == (col + 1) * ts + 0) by (nonlinear_arith)
            requires
                next.x == prev.x + ts,
                prev.x == col * ts,
        ;
        lemma_fundamental_div_mod_converse((next.x as int), (ts as int), col + 1 as int, 0);
    }
}

} // verus!
