//! Row-major textures and the tiles an image is cut into.

use vstd::prelude::*;
use vstd::arithmetic::div_mod::{lemma_fundamental_div_mod, lemma_fundamental_div_mod_converse};

verus! {

/// A rectangle of cells inside an image, and a cursor that walks its cells
/// row by row.
#[derive(Clone, Copy, Default, Debug, PartialEq)]
pub struct Tile {
    pub x: usize,
    pub y: usize,
    pub width: usize,
    pub height: usize,
    /// The column in which each row of the rectangle starts. It is public,
    /// as the cursor is, so that contracts can say where a tile lies.
    pub start_x: usize,
    /// The row in which the rectangle starts.
    pub start_y: usize,
}

impl Tile {
    /// The top-left cell of the rectangle.
    pub open spec fn origin(self) -> (usize, usize) {
        (self.start_x, self.start_y)
    }

    /// The cursor lies inside the rectangle, or has left it by its last row,
    /// and the rectangle's far corner is a pair of `usize`.
    pub open spec fn wf(self) -> bool {
        &&& self.origin().0 + self.width <= usize::MAX
        &&& self.origin().1 + self.height <= usize::MAX
        &&& self.origin().0 <= self.x
        &&& self.origin().1 <= self.y <= self.origin().1 + self.height
        &&& self.y < self.origin().1 + self.height ==> self.x < self.origin().0 + self.width
        &&& self.y == self.origin().1 + self.height ==> self.x == self.origin().0
    }

    /// How many cells the cursor has passed.
    pub open spec fn passed(self) -> int {
        (self.y - self.origin().1) * self.width + (self.x - self.origin().0)
    }

    /// The `k`-th cell of the rectangle in row-major order.
    pub open spec fn cell(self, k: int) -> (usize, usize) {
        (
            (self.origin().0 + k % (self.width as int)) as usize,
            (self.origin().1 + k / (self.width as int)) as usize,
        )
    }

    /// The cells that the cursor has yet to give, in the order it gives them.
    pub open spec fn remaining(self) -> Seq<(usize, usize)> {
        Seq::new(
            (self.width * self.height - self.passed()) as nat,
            |i: int| self.cell(self.passed() + i),
        )
    }

    /// The rectangle of the given size at `(x, y)`, with the cursor on its
    /// first cell.
    pub fn new(x: usize, y: usize, width: usize, height: usize) -> (t: Tile)
        ensures
            t.x == x,
            t.y == y,
            t.width == width,
            t.height == height,
            t.origin() == (x, y),
            t.passed() == 0,
            t.wf() <==> x + width <= usize::MAX && y + height <= usize::MAX && (width > 0
                || height == 0),
    {
        let t = Tile { x, y, width, height, start_x: x, start_y: y };
        assert(t.passed() == 0) by (nonlinear_arith)
            requires
                t.passed() == (t.y - t.y) * t.width + (t.x - t.x),
        ;
        t
    }

    /// Give the cell under the cursor and move the cursor on: one to the
    /// right, or to the start of the next row.
    pub fn next(&mut self) -> (r: Option<(usize, usize)>)
        requires
            old(self).wf(),
        ensures
            final(self).wf(),
            final(self).origin() == old(self).origin(),
            final(self).width == old(self).width,
            final(self).height == old(self).height,
            r is None <==> old(self).remaining().len() == 0,
            r is None ==> *final(self) == *old(self),
            r is Some ==> r->0 == (old(self).x, old(self).y) && r->0 == old(self).remaining()[0]
                && final(self).remaining() == old(self).remaining().skip(1),
    {
        let ghost before = *self;
        let ghost w = self.width as int;
        let ghost h = self.height as int;
        let ghost dy = self.y - self.start_y;
        let ghost dx = self.x - self.start_x;
        if self.y == self.start_y + self.height {
            assert(before.passed() == w * h) by (nonlinear_arith)
                requires
                    before.passed() == dy * w + dx,
                    dy == h,
                    dx == 0,
            ;
            return None;
        }
        proof {
            assert(dy * w + dx < w * h && dy * w + w == (dy + 1) * w && 0 <= dy * w)
                by (nonlinear_arith)
                requires
                    0 <= dy < h,
                    0 <= dx < w,
            ;
            lemma_fundamental_div_mod_converse(before.passed(), w, dy, dx);
        }
        let result = (self.x, self.y);
        if self.x == self.start_x + self.width - 1 {
            self.x = self.start_x;
            self.y += 1;
        } else {
            self.x += 1;
        }
        proof {
            assert(self.passed() == before.passed() + 1);
            assert(self.remaining() =~= before.remaining().skip(1));
        }
        Some(result)
    }
}

/// The number of tiles of side `size` that one row of tiles holds over an
/// image of the given width: an image without columns still has one, empty,
/// tile in each row of tiles.
pub open spec fn tile_columns(width: int, size: int) -> int {
    if width == 0 {
        1
    } else {
        (width + size - 1) / size
    }
}

/// The number of rows of tiles of side `size` over an image of the given height.
pub open spec fn tile_rows(height: int, size: int) -> int {
    (height + size - 1) / size
}

/// The `k`-th tile of side `size` over an image of the given size, counted
/// from zero, row of tiles by row of tiles: its left edge, its top edge,
/// its width and its height. Tiles at the right and bottom edges are
/// clipped to the image.
pub open spec fn nth_tile(width: int, height: int, size: int, k: int) -> (int, int, int, int) {
    let x = (k % tile_columns(width, size)) * size;
    let y = (k / tile_columns(width, size)) * size;
    (
        x,
        y,
        if size <= width - x {
            size
        } else {
            width - x
        },
        if size <= height - y {
            size
        } else {
            height - y
        },
    )
}

/// Cell `(px, py)` lies in the tile with the given left edge, top edge,
/// width and height.
pub open spec fn tile_holds(tile: (int, int, int, int), px: int, py: int) -> bool {
    tile.0 <= px < tile.0 + tile.2 && tile.1 <= py < tile.1 + tile.3
}

/// The tiles cut the image into parts that do not overlap: each cell of the
/// image lies in one tile and in no other.
pub proof fn lemma_tiles_partition_image(width: int, height: int, size: int, px: int, py: int)
    requires
        size > 0,
        0 <= px < width,
        0 <= py < height,
    ensures
        ({
            let k = (py / size) * tile_columns(width, size) + px / size;
            &&& 0 <= k < tile_rows(height, size) * tile_columns(width, size)
            &&& tile_holds(nth_tile(width, height, size, k), px, py)
            &&& forall|j: int|
                0 <= j < tile_rows(height, size) * tile_columns(width, size) && tile_holds(
                    #[trigger] nth_tile(width, height, size, j),
                    px,
                    py,
                ) ==> j == k
        }),
{
    let cols = tile_columns(width, size);
    let rows = tile_rows(height, size);
    let c = px / size;
    let r = py / size;
    let k = r * cols + c;
    lemma_fundamental_div_mod(px, size);
    lemma_fundamental_div_mod(py, size);
    lemma_ceil_div(width, size);
    lemma_ceil_div(height, size);
    assert(size * c == c * size && size * r == r * size) by (nonlinear_arith);
    assert(0 <= c < cols && 0 <= r < rows) by (nonlinear_arith)
        requires
            c * size <= px < width,
            r * size <= py < height,
            0 <= px < c * size + size,
            0 <= py < r * size + size,
            width <= cols * size,
            height <= rows * size,
            size > 0,
    ;
    assert(0 <= r * cols && r * cols + cols <= rows * cols && r * cols == cols * r)
        by (nonlinear_arith)
        requires
            0 <= r < rows,
            0 < cols,
    ;
    lemma_fundamental_div_mod_converse(k, cols, r, c);
    assert forall|j: int|
        0 <= j < rows * cols && tile_holds(
            #[trigger] nth_tile(width, height, size, j),
            px,
            py,
        ) implies j == k by {
        let cj = j % cols;
        let rj = j / cols;
        lemma_fundamental_div_mod(j, cols);
        assert(cols * rj == rj * cols) by (nonlinear_arith);
        lemma_fundamental_div_mod_converse(px, size, cj, px - cj * size);
        lemma_fundamental_div_mod_converse(py, size, rj, py - rj * size);
    }
}

/// Rounding a quotient up: `(v + s - 1) / s` is the least `k` with `v <= k * s`.
pub proof fn lemma_ceil_div(v: int, s: int)
    requires
        s > 0,
        v >= 0,
    ensures
        v <= ((v + s - 1) / s) * s,
        ((v + s - 1) / s - 1) * s < v || v == 0,
        v == 0 ==> (v + s - 1) / s == 0,
        (v + s - 1) / s >= 0,
{
    let k = (v + s - 1) / s;
    let r = (v + s - 1) % s;
    lemma_fundamental_div_mod(v + s - 1, s);
    assert(v + s - 1 == s * k + r);
    assert(s * k == k * s && (k - 1) * s == k * s - s) by (nonlinear_arith);
    if v == 0 {
        assert(0 * s == 0) by (nonlinear_arith);
        lemma_fundamental_div_mod_converse(s - 1, s, 0, s - 1);
    }
    if k < 0 {
        assert(k * s <= -s) by (nonlinear_arith)
            requires
                k <= -1,
                s > 0,
        ;
    }
}

/// The rounded-up quotient of a value that lies above `q * s` and not above
/// `(q + 1) * s` is `q + 1`.
pub proof fn lemma_ceil_div_between(v: int, s: int, q: int)
    requires
        s > 0,
        q * s < v <= (q + 1) * s,
    ensures
        (v + s - 1) / s == q + 1,
{
    assert((q + 1) * s == q * s + s) by (nonlinear_arith);
    lemma_fundamental_div_mod_converse(v + s - 1, s, q + 1, v - q * s - 1);
}

/// A multiple of `s` divides evenly, and rounds up to itself.
pub proof fn lemma_div_multiple(q: int, s: int)
    requires
        s > 0,
    ensures
        (q * s) / s == q,
        (q * s) % s == 0,
        (q * s + s - 1) / s == q,
{
    lemma_fundamental_div_mod_converse(q * s, s, q, 0);
    lemma_fundamental_div_mod_converse(q * s + s - 1, s, q, s - 1);
}

/// A cursor that cuts an image into square tiles, row of tiles by row of
/// tiles; the tiles at the right and bottom edges are clipped to the image.
#[derive(Clone, Copy, Default, Debug)]
pub struct TileIterator {
    width: usize,
    height: usize,
    size: usize,
    x: usize,
    y: usize,
}

impl TileIterator {
    /// Width and height of the image that is cut.
    pub closed spec fn image(self) -> (usize, usize) {
        (self.width, self.height)
    }

    /// The side of a tile that is not clipped.
    pub closed spec fn size(self) -> usize {
        self.size
    }

    /// The top-left cell of the tile that comes next.
    pub closed spec fn cursor(self) -> (usize, usize) {
        (self.x, self.y)
    }

    /// The cursor lies inside the image on a corner of the tile grid, or at
    /// the start of the row below the image when all tiles are given.
    pub open spec fn wf(self) -> bool {
        let w = self.image().0 as int;
        let h = self.image().1 as int;
        let x = self.cursor().0 as int;
        let y = self.cursor().1 as int;
        let s = self.size() as int;
        &&& x <= w
        &&& y <= h
        &&& x < w || x == 0
        &&& y == h ==> x == 0
        &&& s > 0 ==> x % s == 0
        &&& s > 0 ==> y % s == 0 || y == h
    }

    /// Width of the tile under the cursor.
    pub open spec fn here_width(self) -> int {
        let room = self.image().0 - self.cursor().0;
        if self.size() <= room {
            self.size() as int
        } else {
            room
        }
    }

    /// Height of the tile under the cursor.
    pub open spec fn here_height(self) -> int {
        let room = self.image().1 - self.cursor().1;
        if self.size() <= room {
            self.size() as int
        } else {
            room
        }
    }

    /// Where the cursor stands once the tile under it is given: right of
    /// that tile, or below it at the left edge when the row of tiles ends.
    pub open spec fn cursor_after(self) -> (int, int) {
        let (x, y) = self.cursor();
        if x + self.here_width() == self.image().0 {
            (0, y + self.here_height())
        } else {
            (x + self.here_width(), y as int)
        }
    }

    /// How many tiles are yet to come, for a tile side above zero.
    pub open spec fn left(self) -> int {
        let w = self.image().0 as int;
        let h = self.image().1 as int;
        let x = self.cursor().0 as int;
        let y = self.cursor().1 as int;
        let s = self.size() as int;
        (tile_rows(h, s) - (y + s - 1) / s) * tile_columns(w, s) - x / s
    }

    /// How many tiles have been given, for a tile side above zero.
    pub open spec fn given(self) -> int {
        tile_rows(self.image().1 as int, self.size() as int) * tile_columns(
            self.image().0 as int,
            self.size() as int,
        ) - self.left()
    }

    /// The tile under the cursor is the next in the count of tiles: after
    /// `k` tiles the cursor stands on the corner of the `k`-th tile.
    pub proof fn lemma_cursor_on_nth_tile(self)
        requires
            self.wf(),
            self.size() > 0,
            self.cursor().1 < self.image().1,
        ensures
            0 <= self.given(),
            nth_tile(
                self.image().0 as int,
                self.image().1 as int,
                self.size() as int,
                self.given(),
            ) == (
                self.cursor().0 as int,
                self.cursor().1 as int,
                self.here_width(),
                self.here_height(),
            ),
    {
        let w = self.image().0 as int;
        let h = self.image().1 as int;
        let x = self.cursor().0 as int;
        let y = self.cursor().1 as int;
        let s = self.size() as int;
        let rows = tile_rows(h, s);
        let cols = tile_columns(w, s);
        let c = x / s;
        let r = y / s;
        lemma_fundamental_div_mod(x, s);
        lemma_fundamental_div_mod(y, s);
        assert(s * c == c * s && s * r == r * s) by (nonlinear_arith);
        lemma_div_multiple(c, s);
        lemma_div_multiple(r, s);
        lemma_ceil_div(w, s);
        assert(0 <= r && 0 <= c) by (nonlinear_arith)
            requires
                0 <= r * s,
                0 <= c * s,
                s > 0,
        ;
        if w > 0 {
            assert(c < cols) by (nonlinear_arith)
                requires
                    c * s < w,
                    w <= cols * s,
                    s > 0,
            ;
        }
        assert(rows * cols - ((rows - r) * cols - c) == r * cols + c && 0 <= r * cols)
            by (nonlinear_arith)
            requires
                0 <= r,
                0 < cols,
        ;
        assert(r * cols == cols * r) by (nonlinear_arith);
        lemma_fundamental_div_mod_converse(r * cols + c, cols, r, c);
    }

    /// With tiles of a side above zero, the count of tiles to come is never
    /// negative, and is zero exactly when the cursor has left the image.
    pub proof fn lemma_left(self)
        requires
            self.wf(),
            self.size() > 0,
        ensures
            self.left() >= 0,
            self.left() == 0 <==> self.cursor().1 == self.image().1,
    {
        let w = self.image().0 as int;
        let h = self.image().1 as int;
        let x = self.cursor().0 as int;
        let y = self.cursor().1 as int;
        let s = self.size() as int;
        let rows = tile_rows(h, s);
        let cols = tile_columns(w, s);
        let c = x / s;
        lemma_fundamental_div_mod(x as int, s);
        assert(x == s * c);
        assert(s * c == c * s) by (nonlinear_arith);
        lemma_div_multiple(c, s);
        if y == h {
            assert(x == 0);
            assert((rows - rows) * cols == 0) by (nonlinear_arith);
        } else {
            let r = y / s;
            lemma_fundamental_div_mod(y as int, s);
            assert(s * r == r * s) by (nonlinear_arith);
            lemma_div_multiple(r, s);
            lemma_ceil_div(h as int, s);
            lemma_ceil_div(w as int, s);
            assert(r < rows) by (nonlinear_arith)
                requires
                    r * s < h,
                    h <= rows * s,
                    s > 0,
            ;
            if w > 0 {
                assert(c < cols) by (nonlinear_arith)
                    requires
                        c * s < w,
                        w <= cols * s,
                        s > 0,
                ;
            }
            assert((rows - r) * cols >= cols) by (nonlinear_arith)
                requires
                    rows - r >= 1,
                    cols >= 1,
            ;
        }
    }

    /// Giving one tile leaves one tile fewer to come.
    pub proof fn lemma_left_after(self, after: TileIterator)
        requires
            self.wf(),
            self.size() > 0,
            self.cursor().1 < self.image().1,
            after.image() == self.image(),
            after.size() == self.size(),
            after.cursor().0 == self.cursor_after().0,
            after.cursor().1 == self.cursor_after().1,
        ensures
            after.wf(),
            after.left() == self.left() - 1,
    {
        let w = self.image().0 as int;
        let h = self.image().1 as int;
        let x = self.cursor().0 as int;
        let y = self.cursor().1 as int;
        let s = self.size() as int;
        let rows = tile_rows(h, s);
        let cols = tile_columns(w, s);
        let c = x / s;
        let r = y / s;
        lemma_fundamental_div_mod(x as int, s);
        lemma_fundamental_div_mod(y as int, s);
        assert(s * c == c * s && s * r == r * s && (c + 1) * s == c * s + s && (r + 1) * s == r * s
            + s) by (nonlinear_arith);
        lemma_div_multiple(c, s);
        lemma_div_multiple(r, s);
        lemma_div_multiple(c + 1, s);
        lemma_div_multiple(r + 1, s);
        lemma_div_multiple(0, s);
        assert(0 * s == 0) by (nonlinear_arith);
        if x + self.here_width() == w {
            if w > 0 {
                lemma_ceil_div_between(w as int, s, c);
            }
            assert(cols == c + 1);
            let y2 = y + self.here_height();
            lemma_ceil_div_between(y2, s, r);
            assert((rows - (r + 1)) * cols == (rows - r) * cols - cols) by (nonlinear_arith);
        } else {
            assert(self.here_width() == s);
        }
    }

    /// Give the tile under the cursor and move the cursor on.
    pub fn next(&mut self) -> (r: Option<Tile>)
        requires
            old(self).wf(),
        ensures
            final(self).wf(),
            final(self).image() == old(self).image(),
            final(self).size() == old(self).size(),
            r is None <==> old(self).cursor().1 == old(self).image().1,
            r is None ==> *final(self) == *old(self),
            r is Some ==> {
                let t = r->0;
                &&& (t.x, t.y) == old(self).cursor()
                &&& t.origin() == old(self).cursor()
                &&& t.width == old(self).here_width()
                &&& t.height == old(self).here_height()
                &&& final(self).cursor().0 == old(self).cursor_after().0
                &&& final(self).cursor().1 == old(self).cursor_after().1
            },
            old(self).size() > 0 && r is Some ==> final(self).left() == old(self).left() - 1,
            old(self).size() > 0 && r is Some ==> nth_tile(
                old(self).image().0 as int,
                old(self).image().1 as int,
                old(self).size() as int,
                old(self).given(),
            ) == (r->0.x as int, r->0.y as int, r->0.width as int, r->0.height as int),
    {
        if self.y == self.height {
            return None;
        }
        let ghost before = *self;
        let room_x: usize = self.width - self.x;
        let room_y: usize = self.height - self.y;
        let tw: usize = if self.size <= room_x { self.size } else { room_x };
        let th: usize = if self.size <= room_y { self.size } else { room_y };
        let (tx, ty) = (self.x, self.y);

        self.x += tw;
        if self.x == self.width {
            self.x = 0;
            self.y += th;
        }
        proof {
            if before.size() > 0 {
                before.lemma_left_after(*self);
                before.lemma_cursor_on_nth_tile();
            }
        }
        Some(Tile::new(tx, ty, tw, th))
    }

    /// The number of tiles that are yet to come. With a tile side of zero
    /// the cursor never moves, so the count is asked only once all tiles
    /// are given.
    pub fn count(self) -> (n: usize)
        requires
            self.wf(),
            self.size() > 0 || self.cursor().1 == self.image().1,
            self.size() > 0 ==> self.left() <= usize::MAX,
        ensures
            self.size() > 0 ==> n == self.left(),
            self.cursor().1 == self.image().1 ==> n == 0,
    {
        if self.size == 0 {
            return 0;
        }
        let mut rest = self;
        let mut n: usize = 0;
        proof {
            rest.lemma_left();
        }
        loop
            invariant
                rest.wf(),
                rest.size() > 0,
                rest.size() == self.size(),
                rest.left() >= 0,
                n + rest.left() == self.left(),
                self.left() <= usize::MAX,
            ensures
                n == self.left(),
            decreases rest.left(),
        {
            proof {
                rest.lemma_left();
            }
            match rest.next() {
                None => {
                    break ;
                },
                Some(_) => {
                    n = n + 1;
                    proof {
                        rest.lemma_left();
                    }
                },
            }
        }
        proof {
            self.lemma_left();
        }
        n
    }
}

/// `v` is a value that `T::default()` may return.
pub open spec fn is_default<T: Default>(v: T) -> bool {
    call_ensures(T::default, (), v)
}

/// A rectangular grid of values stored row by row.
#[derive(Clone, Debug, Default, PartialEq)]
pub struct Texture<T> where T: Copy + Clone + Default {
    pub width: usize,
    pub height: usize,
    pub buffer: Vec<T>,
}

impl<T> Texture<T> where T: Copy + Clone + Default {
    /// The buffer holds exactly one value for each cell.
    pub open spec fn wf(self) -> bool {
        self.buffer.len() == self.width * self.height
    }

    /// The buffer holds at least one value for each cell.
    pub open spec fn covers(self) -> bool {
        self.width * self.height <= self.buffer.len()
    }

    /// The place of cell `(x, y)` in the buffer.
    pub open spec fn index_of(self, x: int, y: int) -> int {
        self.width * y + x
    }

    /// The value stored for cell `(x, y)`.
    pub open spec fn at(self, x: int, y: int) -> T {
        self.buffer@[self.index_of(x, y)]
    }

    /// Cell `(x, y)` lies inside the grid.
    pub open spec fn holds(self, x: int, y: int) -> bool {
        0 <= x < self.width && 0 <= y < self.height
    }

    /// Every cell inside a grid that its buffer covers has a place among
    /// the first `width * height` values of the buffer.
    pub proof fn lemma_index_in_buffer(self, x: int, y: int)
        requires
            self.covers(),
            self.holds(x, y),
        ensures
            0 <= self.index_of(x, y) < self.width * self.height,
            self.index_of(x, y) < self.buffer.len(),
    {
        let w = self.width as int;
        let h = self.height as int;
        assert(0 <= w * y && w * y + w <= w * h) by (nonlinear_arith)
            requires
                0 <= y < h,
                0 <= w,
        ;
    }

    /// Two cells inside the grid that share a place in the buffer are one cell.
    pub proof fn lemma_index_distinct(self, x1: int, y1: int, x2: int, y2: int)
        requires
            0 <= x1 < self.width,
            0 <= x2 < self.width,
            self.index_of(x1, y1) == self.index_of(x2, y2),
        ensures
            x1 == x2,
            y1 == y2,
    {
        let w = self.width as int;
        assert(y1 == y2) by (nonlinear_arith)
            requires
                0 <= x1 < w,
                0 <= x2 < w,
                w * y1 + x1 == w * y2 + x2,
        ;
    }

    /// A texture of the given size with every cell at the default value.
    pub fn blank(width: usize, height: usize) -> (t: Texture<T>)
        requires
            width * height <= usize::MAX,
        ensures
            t.width == width,
            t.height == height,
            t.wf(),
            forall|i: int| 0 <= i < t.buffer@.len() ==> is_default(#[trigger] t.buffer@[i]),
            forall|i: int, j: int|
                0 <= i < t.buffer@.len() && 0 <= j < t.buffer@.len() ==> t.buffer@[i]
                    == t.buffer@[j],
    {
        let n: usize = width * height;
        let fill: T = T::default();
        let mut buffer: Vec<T> = Vec::with_capacity(n);
        let mut i: usize = 0;
        while i < n
            invariant
                i <= n,
                buffer@.len() == i,
                is_default(fill),
                forall|k: int| 0 <= k < i ==> buffer@[k] == fill,
            decreases n - i,
        {
            buffer.push(fill);
            i = i + 1;
        }
        Texture { width, height, buffer }
    }

    /// A texture over an existing buffer.
    pub fn new(width: usize, height: usize, buffer: Vec<T>) -> (t: Texture<T>)
        ensures
            t.width == width,
            t.height == height,
            t.buffer == buffer,
    {
        Texture { width, height, buffer }
    }

    /// Write a single value to the texture.
    pub fn write1x1(&mut self, x: usize, y: usize, value: T)
        requires
            old(self).index_of(x as int, y as int) < old(self).buffer.len(),
        ensures
            final(self).width == old(self).width,
            final(self).height == old(self).height,
            final(self).buffer@ == old(self).buffer@.update(
                old(self).index_of(x as int, y as int),
                value,
            ),
    {
        assert(0 <= self.width * y) by (nonlinear_arith)
            requires
                0 <= self.width,
                0 <= y,
        ;
        let i: usize = self.width * y + x;
        self.buffer[i] = value;
    }

    /// Read a single value from the texture.
    pub fn lookup1x1(&self, x: usize, y: usize) -> (value: T)
        requires
            self.index_of(x as int, y as int) < self.buffer.len(),
        ensures
            value == self.at(x as int, y as int),
    {
        assert(0 <= self.width * y) by (nonlinear_arith)
            requires
                0 <= self.width,
                0 <= y,
        ;
        let i: usize = self.width * y + x;
        self.buffer[i]
    }

    /// Read a 2x2 window from the texture: the cell, its right neighbour,
    /// and the two cells below them.
    pub fn lookup2x2(&self, x: usize, y: usize) -> (window: [T; 4])
        requires
            self.index_of(x as int, y + 1) + 1 < self.buffer.len(),
        ensures
            window@ == seq![
                self.at(x as int, y as int),
                self.at(x + 1, y as int),
                self.at(x as int, y + 1),
                self.at(x + 1, y + 1),
            ],
    {
        assert(0 <= self.width * y && self.width * (y + 1) == self.width * y + self.width)
            by (nonlinear_arith)
            requires
                0 <= self.width,
                0 <= y,
        ;
        let i1: usize = self.width * y + x;
        let i2: usize = i1 + self.width;
        let window = [self.buffer[i1], self.buffer[i1 + 1], self.buffer[i2], self.buffer[i2 + 1]];
        assert(window@ =~= seq![
            self.at(x as int, y as int),
            self.at(x + 1, y as int),
            self.at(x as int, y + 1),
            self.at(x + 1, y + 1),
        ]);
        window
    }

    /// Cut the image into square tiles of side `size`.
    pub fn tiles(&mut self, size: usize) -> (it: TileIterator)
        ensures
            *final(self) == *old(self),
            it.wf(),
            it.image() == (old(self).width, old(self).height),
            it.size() == size,
            it.cursor() == (0usize, 0usize),
            size > 0 ==> it.left() == tile_rows(old(self).height as int, size as int)
                * tile_columns(old(self).width as int, size as int),
            size > 0 ==> it.given() == 0,
    {
        let it = TileIterator { width: self.width, height: self.height, size, x: 0, y: 0 };
        proof {
            if size > 0 {
                lemma_div_multiple(0, size as int);
                assert(0 * size == 0) by (nonlinear_arith);
            }
        }
        it
    }
}

} // verus!
