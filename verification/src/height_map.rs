//! The height field: a power-of-two grid of bilinear patches over a raster
//! of elevations, and the pyramid of maximum elevations above it.

use vstd::prelude::*;
use vstd::arithmetic::div_mod::{lemma_fundamental_div_mod, lemma_fundamental_div_mod_converse};
use vstd::arithmetic::power2::{
    lemma2_to64, lemma_pow2_adds, lemma_pow2_pos, lemma_pow2_unfold, pow2,
};
use crate::math::{ceil_pow2, is_ceil_pow2, lemma_limit_is_pow2, max_pow2_arg, next_pow2};
use crate::ops::{
    blit, block_max, height_map_to_bilinear_patch, lemma_blit_source_cell, max4,
    maximum_mipmap_bilinear_patch, patch_corners, patch_max,
};
use crate::textures::{is_default, Texture};

verus! {

/// The sample of a raster at `(x, y)`, and zero beyond its edges.
pub open spec fn padded(raster: Texture<i64>, x: int, y: int) -> i64 {
    if 0 <= x < raster.width && 0 <= y < raster.height {
        raster.at(x, y)
    } else {
        0
    }
}

/// The corner elevations of the patch over cell `(x, y)` of a raster that is
/// padded with zeros: north-west, north-east, south-east, south-west.
pub open spec fn corner_heights(raster: Texture<i64>, x: int, y: int) -> Seq<i64> {
    seq![
        padded(raster, x, y),
        padded(raster, x + 1, y),
        padded(raster, x + 1, y + 1),
        padded(raster, x, y + 1),
    ]
}

/// The value of cell `(x, y)` at the given level of the pyramid of maxima
/// over a grid of patches: at level zero the highest corner of the patch,
/// above it the highest of the four cells beneath.
pub open spec fn level_max(patches: Texture<[i64; 4]>, level: nat, x: int, y: int) -> int
    decreases level,
{
    if level == 0 {
        patch_max(patches.at(x, y)@)
    } else {
        let below = (level - 1) as nat;
        max4(
            level_max(patches, below, 2 * x, 2 * y),
            level_max(patches, below, 2 * x + 1, 2 * y),
            level_max(patches, below, 2 * x, 2 * y + 1),
            level_max(patches, below, 2 * x + 1, 2 * y + 1),
        )
    }
}

/// Leaf cell `(lx, ly)` of the patch grid lies beneath cell `(x, y)` of the
/// given level: a cell of level `n` covers a square of `2^n` by `2^n` leaves.
pub open spec fn beneath(level: nat, x: int, y: int, lx: int, ly: int) -> bool {
    &&& x * pow2(level) <= lx < (x + 1) * pow2(level)
    &&& y * pow2(level) <= ly < (y + 1) * pow2(level)
}

/// A leaf beneath a cell lies beneath one of the cell's four children.
pub proof fn lemma_beneath_child(level: nat, x: int, y: int, lx: int, ly: int)
    requires
        level > 0,
        beneath(level, x, y, lx, ly),
    ensures
        beneath((level - 1) as nat, 2 * x, 2 * y, lx, ly) || beneath(
            (level - 1) as nat,
            2 * x + 1,
            2 * y,
            lx,
            ly,
        ) || beneath((level - 1) as nat, 2 * x, 2 * y + 1, lx, ly) || beneath(
            (level - 1) as nat,
            2 * x + 1,
            2 * y + 1,
            lx,
            ly,
        ),
{
    let p = pow2((level - 1) as nat) as int;
    lemma_pow2_unfold(level);
    lemma_halves(x, p);
    lemma_halves(y, p);
}

/// A leaf beneath a child of a cell lies beneath the cell.
pub proof fn lemma_beneath_parent(level: nat, x: int, y: int, dx: int, dy: int, lx: int, ly: int)
    requires
        level > 0,
        0 <= dx <= 1,
        0 <= dy <= 1,
        beneath((level - 1) as nat, 2 * x + dx, 2 * y + dy, lx, ly),
    ensures
        beneath(level, x, y, lx, ly),
{
    let p = pow2((level - 1) as nat) as int;
    lemma_pow2_unfold(level);
    lemma_pow2_pos((level - 1) as nat);
    lemma_halves(x, p);
    lemma_halves(y, p);
}

/// The span of a cell is the span of its two halves, one after the other.
pub proof fn lemma_halves(x: int, p: int)
    ensures
        x * (2 * p) == (2 * x) * p,
        (2 * x + 1) * p == (2 * x) * p + p,
        (2 * x + 1 + 1) * p == (2 * x) * p + 2 * p,
        (x + 1) * (2 * p) == (2 * x) * p + 2 * p,
{
    assert(x * (2 * p) == (2 * x) * p && (2 * x + 1) * p == (2 * x) * p + p && (2 * x + 1 + 1) * p
        == (2 * x) * p + 2 * p && (x + 1) * (2 * p) == (2 * x) * p + 2 * p) by (nonlinear_arith);
}

/// The cell of a level that a leaf lies beneath is found by halving the
/// leaf's column and row once for each level: a leaf in column `lx` lies in
/// the span of column `x` just when `lx / 2^level` is `x`.
pub proof fn lemma_beneath_by_halving(level: nat, x: int, lx: int)
    requires
        0 <= lx,
    ensures
        x * pow2(level) <= lx < (x + 1) * pow2(level) <==> lx / (pow2(level) as int) == x,
{
    let p = pow2(level) as int;
    lemma_pow2_pos(level);
    lemma_fundamental_div_mod(lx, p);
    let q = lx / p;
    assert(p * q == q * p && (q + 1) * p == q * p + p && (x + 1) * p == x * p + p)
        by (nonlinear_arith);
    if x * p <= lx < (x + 1) * p {
        lemma_fundamental_div_mod_converse(lx, p, x, lx - x * p);
    }
}

/// The value of a cell of the pyramid is not below any corner elevation of
/// any patch beneath the cell.
pub proof fn lemma_level_max_bounds(
    patches: Texture<[i64; 4]>,
    level: nat,
    x: int,
    y: int,
    lx: int,
    ly: int,
    k: int,
)
    requires
        beneath(level, x, y, lx, ly),
        0 <= k < 4,
    ensures
        level_max(patches, level, x, y) >= patches.at(lx, ly)@[k],
    decreases level,
{
    if level == 0 {
        lemma2_to64();
        assert(1 * pow2(0) == 1 && x * 1 == x && y * 1 == y);
    } else {
        let below = (level - 1) as nat;
        lemma_beneath_child(level, x, y, lx, ly);
        if beneath(below, 2 * x, 2 * y, lx, ly) {
            lemma_level_max_bounds(patches, below, 2 * x, 2 * y, lx, ly, k);
        } else if beneath(below, 2 * x + 1, 2 * y, lx, ly) {
            lemma_level_max_bounds(patches, below, 2 * x + 1, 2 * y, lx, ly, k);
        } else if beneath(below, 2 * x, 2 * y + 1, lx, ly) {
            lemma_level_max_bounds(patches, below, 2 * x, 2 * y + 1, lx, ly, k);
        } else {
            lemma_level_max_bounds(patches, below, 2 * x + 1, 2 * y + 1, lx, ly, k);
        }
    }
}

/// The value of a cell of the pyramid is a corner elevation of a patch
/// beneath the cell.
pub proof fn lemma_level_max_attained(patches: Texture<[i64; 4]>, level: nat, x: int, y: int)
    ensures
        exists|lx: int, ly: int, k: int|
            beneath(level, x, y, lx, ly) && 0 <= k < 4 && level_max(patches, level, x, y)
                == #[trigger] patches.at(lx, ly)@[k],
    decreases level,
{
    if level == 0 {
        lemma2_to64();
        assert(1 * pow2(0) == 1 && x * 1 == x && y * 1 == y && (x + 1) * 1 == x + 1 && (y + 1) * 1
            == y + 1);
        assert(beneath(0, x, y, x, y));
        let c = patches.at(x, y)@;
        let m = patch_max(c);
        let k = if m == c[0] {
            0int
        } else if m == c[1] {
            1int
        } else if m == c[2] {
            2int
        } else {
            3int
        };
        assert(level_max(patches, level, x, y) == patches.at(x, y)@[k]);
    } else {
        let below = (level - 1) as nat;
        let m = level_max(patches, level, x, y);
        let (dx, dy) = if m == level_max(patches, below, 2 * x, 2 * y) {
            (0int, 0int)
        } else if m == level_max(patches, below, 2 * x + 1, 2 * y) {
            (1int, 0int)
        } else if m == level_max(patches, below, 2 * x, 2 * y + 1) {
            (0int, 1int)
        } else {
            (1int, 1int)
        };
        assert(m == level_max(patches, below, 2 * x + dx, 2 * y + dy));
        lemma_level_max_attained(patches, below, 2 * x + dx, 2 * y + dy);
        let (lx, ly, k) = choose|lx: int, ly: int, k: int|
            beneath(below, 2 * x + dx, 2 * y + dy, lx, ly) && 0 <= k < 4 && level_max(
                patches,
                below,
                2 * x + dx,
                2 * y + dy,
            ) == #[trigger] patches.at(lx, ly)@[k];
        lemma_beneath_parent(level, x, y, dx, dy, lx, ly);
        assert(level_max(patches, level, x, y) == patches.at(lx, ly)@[k]);
    }
}

/// `m` is level `level` of the pyramid over `patches`: a square grid of the
/// given side whose cells hold the maxima of what lies beneath them.
pub open spec fn pyramid_level(
    m: Texture<i64>,
    patches: Texture<[i64; 4]>,
    level: nat,
    side: int,
) -> bool {
    &&& m.wf()
    &&& m.width == side
    &&& m.height == side
    &&& forall|x: int, y: int|
        m.holds(x, y) ==> #[trigger] m.at(x, y) == level_max(patches, level, x, y)
}

/// The larger of a raster's two dimensions.
pub open spec fn larger_dimension(width: int, height: int) -> int {
    if width >= height {
        width
    } else {
        height
    }
}

/// A raster of this size has a patch grid that can be built: the padded
/// raster, of side one more than the grid, has a buffer whose length is a
/// `usize`.
pub open spec fn grid_fits(width: int, height: int) -> bool {
    let n = larger_dimension(width, height);
    &&& n <= max_pow2_arg()
    &&& (next_pow2(n) + 1) * (next_pow2(n) + 1) <= usize::MAX
}

/// A cell of the pyramid: a level, zero for the patch grid itself, and the
/// cell's column and row at that level.
#[derive(Clone, Copy, Debug, PartialEq, Eq, Structural)]
pub struct Cell {
    pub level: usize,
    pub x: usize,
    pub y: usize,
}

/// Why no height field can be built from a raster.
#[derive(Clone, Copy, Debug, PartialEq, Eq, Structural)]
pub enum BuildError {
    /// The raster has no samples: its width or its height is zero.
    Empty,
    /// The padded square over the raster has more cells than a buffer can
    /// hold.
    TooLarge,
    /// The raster's buffer does not hold one sample for each cell.
    Malformed,
}

/// Whether a height field can be built from `raster`, and if not, why not.
pub open spec fn build_verdict(raster: Texture<i64>) -> Option<BuildError> {
    if raster.width == 0 || raster.height == 0 {
        Some(BuildError::Empty)
    } else if !grid_fits(raster.width as int, raster.height as int) {
        Some(BuildError::TooLarge)
    } else if !raster.wf() {
        Some(BuildError::Malformed)
    } else {
        None
    }
}

/// A height field over a raster of elevations.
#[derive(Clone, Debug)]
pub struct HeightMap {
    /// Width of the raster that the field was built from.
    pub width: usize,
    /// Height of the raster that the field was built from.
    pub height: usize,
    /// Map containing bilinear patches
    pub bilinear_patches: Texture<[i64; 4]>,
    /// Maximum mipmaps for the bilinear patches
    pub maximum_mipmaps: Vec<Texture<i64>>,
}

impl HeightMap {
    /// The number of levels of the pyramid.
    pub open spec fn levels(self) -> int {
        self.maximum_mipmaps.len() as int
    }

    /// The side of the square grid at the given level.
    pub open spec fn side(self, level: int) -> int {
        pow2((self.levels() - 1 - level) as nat) as int
    }

    /// Level `level` of the pyramid is a square grid of the right side whose
    /// cells hold the maxima of what lies beneath them.
    pub open spec fn level_ok(self, level: int) -> bool {
        pyramid_level(
            self.maximum_mipmaps@[level],
            self.bilinear_patches,
            level as nat,
            self.side(level),
        )
    }

    /// The patch grid is a square with a power of two as its side that
    /// covers the raster, and above it stands the full pyramid of maxima, up
    /// to a single cell.
    pub open spec fn wf(self) -> bool {
        &&& self.levels() >= 1
        &&& self.bilinear_patches.wf()
        &&& self.bilinear_patches.width == self.side(0)
        &&& self.bilinear_patches.height == self.side(0)
        &&& self.width <= self.side(0)
        &&& self.height <= self.side(0)
        &&& forall|level: int| 0 <= level < self.levels() ==> #[trigger] self.level_ok(level)
    }

    /// The field is the one built from `raster`: its grid has the least
    /// power of two that covers the raster as its side, and the patch of
    /// each cell has the samples at the cell's corners as its corners, zero
    /// where the raster has no sample.
    pub open spec fn models(self, raster: Texture<i64>) -> bool {
        &&& self.wf()
        &&& self.width == raster.width
        &&& self.height == raster.height
        &&& is_ceil_pow2(
            larger_dimension(raster.width as int, raster.height as int),
            self.side(0),
        )
        &&& forall|x: int, y: int|
            self.bilinear_patches.holds(x, y) ==> (#[trigger] self.bilinear_patches.at(x, y))@
                == corner_heights(raster, x, y)
    }

    /// `cell` is a cell of the pyramid.
    pub open spec fn contains(self, cell: Cell) -> bool {
        &&& cell.level < self.levels()
        &&& cell.x < self.side(cell.level as int)
        &&& cell.y < self.side(cell.level as int)
    }

    /// The single cell at the top of the pyramid; none for a field without
    /// levels.
    pub open spec fn top(self) -> Option<Cell> {
        if self.levels() == 0 {
            None
        } else {
            Some(Cell { level: (self.levels() - 1) as usize, x: 0, y: 0 })
        }
    }

    /// The single cell at the top of the pyramid, where a search of the
    /// field starts; none for a field without levels.
    pub fn root(&self) -> (r: Option<Cell>)
        ensures
            r == self.top(),
            self.wf() ==> r is Some && self.contains(r->0),
    {
        if self.maximum_mipmaps.len() == 0 {
            return None;
        }
        proof {
            lemma_pow2_pos(0);
        }
        Some(Cell { level: self.maximum_mipmaps.len() - 1, x: 0, y: 0 })
    }

    /// The elevation that no patch beneath `cell` rises above: the top of
    /// the box that bounds the surface over the cell.
    pub fn ceiling(&self, cell: Cell) -> (top: i64)
        requires
            self.wf(),
            self.contains(cell),
        ensures
            top == self.maximum_mipmaps@[cell.level as int].at(cell.x as int, cell.y as int),
            top == level_max(
                self.bilinear_patches,
                cell.level as nat,
                cell.x as int,
                cell.y as int,
            ),
    {
        proof {
            assert(self.level_ok(cell.level as int));
            self.maximum_mipmaps@[cell.level as int].lemma_index_in_buffer(
                cell.x as int,
                cell.y as int,
            );
        }
        self.maximum_mipmaps[cell.level].lookup1x1(cell.x, cell.y)
    }

    /// The corner elevations of the patch over cell `(x, y)` of the grid:
    /// north-west, north-east, south-east, south-west.
    pub fn patch(&self, x: usize, y: usize) -> (corners: [i64; 4])
        requires
            self.wf(),
            self.bilinear_patches.holds(x as int, y as int),
        ensures
            corners == self.bilinear_patches.at(x as int, y as int),
    {
        proof {
            self.bilinear_patches.lemma_index_in_buffer(x as int, y as int);
        }
        self.bilinear_patches.lookup1x1(x, y)
    }

    /// The number of grid cells along one side of a cell of the given level.
    pub fn scale(&self, level: usize) -> (span: usize)
        requires
            self.wf(),
            level < self.levels(),
        ensures
            span == pow2(level as nat),
            span * self.side(level as int) == self.side(0),
    {
        let ghost top = (self.levels() - 1) as nat;
        let ghost side = pow2((top - level) as nat) as int;
        let ghost span = pow2(level as nat) as int;
        proof {
            assert(self.level_ok(level as int));
            lemma_pow2_adds(level as nat, (top - level) as nat);
            lemma_pow2_pos((top - level) as nat);
            lemma_pow2_pos(level as nat);
            lemma_fundamental_div_mod_converse(span * side, side, span, 0);
        }
        self.bilinear_patches.width / self.maximum_mipmaps[level].width
    }

    /// Every cell of every level holds a value that is not below any corner
    /// elevation of any patch beneath the cell.
    pub open spec fn bounds_what_lies_beneath(self) -> bool {
        forall|level: int, x: int, y: int, lx: int, ly: int, k: int|
            0 <= level < self.levels() && self.maximum_mipmaps@[level].holds(x, y) && beneath(
                level as nat,
                x,
                y,
                lx,
                ly,
            ) && 0 <= k < 4 ==> #[trigger] self.maximum_mipmaps@[level].at(x, y)
                >= #[trigger] self.bilinear_patches.at(lx, ly)@[k]
    }

    /// The last level of the pyramid is a single cell, and its value is the
    /// highest corner elevation of the whole patch grid: no corner is
    /// above it, and one corner is equal to it.
    pub open spec fn peak_is_highest(self) -> bool {
        &&& self.maximum_mipmaps@[self.levels() - 1].width == 1
        &&& self.maximum_mipmaps@[self.levels() - 1].height == 1
        &&& forall|x: int, y: int, k: int|
            self.bilinear_patches.holds(x, y) && 0 <= k < 4 ==> self.peak()
                >= #[trigger] self.bilinear_patches.at(x, y)@[k]
        &&& exists|x: int, y: int, k: int|
            self.bilinear_patches.holds(x, y) && 0 <= k < 4 && self.peak()
                == #[trigger] self.bilinear_patches.at(x, y)@[k]
    }

    /// The pyramid of a well-formed field bounds the surface: every cell of
    /// every level is not below any corner of any patch beneath it, and the
    /// single cell at the top equals the highest corner of the grid. This
    /// holds of every well-formed field, however it came to be and whatever
    /// its size.
    pub proof fn lemma_bound_invariant(self)
        requires
            self.wf(),
        ensures
            self.bounds_what_lies_beneath(),
            self.peak_is_highest(),
    {
        assert forall|level: int, x: int, y: int, lx: int, ly: int, k: int|
            0 <= level < self.levels() && self.maximum_mipmaps@[level].holds(x, y) && beneath(
                level as nat,
                x,
                y,
                lx,
                ly,
            ) && 0 <= k < 4 implies #[trigger] self.maximum_mipmaps@[level].at(x, y)
            >= #[trigger] self.bilinear_patches.at(lx, ly)@[k] by {
            self.lemma_mipmap_bounds(level, x, y, lx, ly, k);
        }
        self.lemma_top_is_global_max();
        assert(self.level_ok(self.levels() - 1));
        lemma2_to64();
    }

    /// Every cell of every level of the pyramid is an upper bound of the
    /// corner elevations of every patch beneath it.
    pub proof fn lemma_mipmap_bounds(self, level: int, x: int, y: int, lx: int, ly: int, k: int)
        requires
            self.wf(),
            0 <= level < self.levels(),
            self.maximum_mipmaps@[level].holds(x, y),
            beneath(level as nat, x, y, lx, ly),
            0 <= k < 4,
        ensures
            self.maximum_mipmaps@[level].at(x, y) >= self.bilinear_patches.at(lx, ly)@[k],
            self.bilinear_patches.holds(lx, ly),
    {
        assert(self.level_ok(level));
        lemma_level_max_bounds(self.bilinear_patches, level as nat, x, y, lx, ly, k);
        self.lemma_leaves_beneath(level, x, y, lx, ly);
    }

    /// The leaves beneath a cell of the pyramid are cells of the patch grid.
    pub proof fn lemma_leaves_beneath(self, level: int, x: int, y: int, lx: int, ly: int)
        requires
            self.wf(),
            0 <= level < self.levels(),
            0 <= x < self.side(level),
            0 <= y < self.side(level),
            beneath(level as nat, x, y, lx, ly),
        ensures
            self.bilinear_patches.holds(lx, ly),
    {
        let top = (self.levels() - 1) as nat;
        let span = pow2(level as nat) as int;
        let side = pow2((top - level) as nat) as int;
        lemma_pow2_adds((top - level) as nat, level as nat);
        lemma_pow2_pos(level as nat);
        assert(0 <= x * span && (x + 1) * span <= side * span && 0 <= y * span && (y + 1) * span
            <= side * span) by (nonlinear_arith)
            requires
                0 <= x < side,
                0 <= y < side,
                span > 0,
        ;
    }

    /// The value of the single cell at the top of the pyramid.
    pub open spec fn peak(self) -> i64 {
        self.maximum_mipmaps@[self.levels() - 1].at(0, 0)
    }

    /// The single cell at the top of the pyramid holds the highest corner
    /// elevation of the whole patch grid.
    pub proof fn lemma_top_is_global_max(self)
        requires
            self.wf(),
        ensures
            forall|x: int, y: int, k: int|
                self.bilinear_patches.holds(x, y) && 0 <= k < 4 ==> self.peak()
                    >= #[trigger] self.bilinear_patches.at(x, y)@[k],
            exists|x: int, y: int, k: int|
                self.bilinear_patches.holds(x, y) && 0 <= k < 4 && self.peak()
                    == #[trigger] self.bilinear_patches.at(x, y)@[k],
    {
        let top = self.levels() - 1;
        let patches = self.bilinear_patches;
        let peak = self.maximum_mipmaps@[top].at(0, 0);
        lemma2_to64();
        assert(self.level_ok(top));
        assert(self.maximum_mipmaps@[top].holds(0, 0));
        assert(0 * pow2(top as nat) == 0 && (0 + 1) * pow2(top as nat) == pow2(top as nat))
            by (nonlinear_arith);
        assert forall|x: int, y: int, k: int| patches.holds(x, y) && 0 <= k < 4 implies peak
            >= #[trigger] patches.at(x, y)@[k] by {
            assert(beneath(top as nat, 0, 0, x, y));
            lemma_level_max_bounds(patches, top as nat, 0, 0, x, y, k);
        }
        lemma_level_max_attained(patches, top as nat, 0, 0);
        let (lx, ly, k) = choose|lx: int, ly: int, k: int|
            beneath(top as nat, 0, 0, lx, ly) && 0 <= k < 4 && level_max(patches, top as nat, 0, 0)
                == #[trigger] patches.at(lx, ly)@[k];
        assert(patches.holds(lx, ly) && 0 <= k < 4 && peak == patches.at(lx, ly)@[k]);
    }

    /// Over the field of a raster, the top of the pyramid is not below any
    /// sample of the raster nor below zero, the elevation of the padding,
    /// and it is one of the two: a sample or zero.
    pub proof fn lemma_peak_over_raster(self, raster: Texture<i64>)
        requires
            self.models(raster),
        ensures
            self.peak() >= 0,
            forall|x: int, y: int| raster.holds(x, y) ==> self.peak() >= #[trigger] raster.at(x, y),
            self.peak() == 0 || exists|x: int, y: int|
                raster.holds(x, y) && self.peak() == #[trigger] raster.at(x, y),
    {
        let patches = self.bilinear_patches;
        let side = self.side(0);
        self.lemma_top_is_global_max();
        lemma_pow2_pos((self.levels() - 1) as nat);
        // the patch in the far corner of the grid has its south-east corner
        // beyond the raster
        assert(patches.holds(side - 1, side - 1));
        assert(patches.at(side - 1, side - 1)@[2] == padded(raster, side, side));
        assert forall|x: int, y: int| raster.holds(x, y) implies self.peak()
            >= #[trigger] raster.at(x, y) by {
            assert(patches.holds(x, y));
            assert(patches.at(x, y)@[0] == padded(raster, x, y));
        }
        let (x, y, k) = choose|x: int, y: int, k: int|
            patches.holds(x, y) && 0 <= k < 4 && self.peak() == #[trigger] patches.at(x, y)@[k];
        let (cx, cy) = if k == 0 {
            (x, y)
        } else if k == 1 {
            (x + 1, y)
        } else if k == 2 {
            (x + 1, y + 1)
        } else {
            (x, y + 1)
        };
        assert(patches.at(x, y)@[k] == padded(raster, cx, cy));
        if raster.holds(cx, cy) {
            assert(self.peak() == raster.at(cx, cy));
        }
    }

    /// Build the height field of a raster of elevations, or say why the
    /// raster has none: an empty raster, a raster too large for the machine
    /// and a buffer of the wrong length are turned away, in that order.
    pub fn build(height_map: &Texture<i64>) -> (r: Result<HeightMap, BuildError>)
        ensures
            match r {
                Ok(field) => {
                    &&& build_verdict(*height_map) is None
                    &&& field.models(*height_map)
                    &&& field.bounds_what_lies_beneath()
                    &&& field.peak_is_highest()
                },
                Err(e) => build_verdict(*height_map) == Some(e),
            },
    {
        if height_map.width == 0 || height_map.height == 0 {
            return Err(BuildError::Empty);
        }
        let n = if height_map.width >= height_map.height {
            height_map.width
        } else {
            height_map.height
        };
        if n > usize::MAX / 2 + 1 {
            return Err(BuildError::TooLarge);
        }
        let size = ceil_pow2(n);
        proof {
            lemma_limit_is_pow2();
            let k = choose|k: nat| max_pow2_arg() == #[trigger] pow2(k);
            assert(n <= pow2(k));
        }
        match (size + 1).checked_mul(size + 1) {
            Some(_) => {},
            None => {
                return Err(BuildError::TooLarge);
            },
        }
        proof {
            let w = height_map.width as int;
            let h = height_map.height as int;
            let full = size as int;
            assert(w * h <= (full + 1) * (full + 1)) by (nonlinear_arith)
                requires
                    0 <= w <= full,
                    0 <= h <= full,
            ;
        }
        if height_map.buffer.len() != height_map.width * height_map.height {
            return Err(BuildError::Malformed);
        }
        Ok(HeightMap::new(height_map))
    }

    /// Build the height field of a raster of elevations.
    ///
    /// The raster is laid into the top-left corner of a zero-filled square
    /// of side `s + 1`, where `s` is the least power of two that covers the
    /// raster. Each cell of the `s` by `s` grid gets the patch spanned by
    /// its four corner samples, and the pyramid of maxima is reduced from
    /// the grid until a single cell is left.
    pub fn new(height_map: &Texture<i64>) -> (field: HeightMap)
        requires
            height_map.covers(),
            height_map.width >= 1,
            height_map.height >= 1,
            grid_fits(height_map.width as int, height_map.height as int),
        ensures
            field.models(*height_map),
            field.bounds_what_lies_beneath(),
            field.peak_is_highest(),
    {
        // Round the raster's larger dimension up to a power of two
        let height_map_size = if height_map.width >= height_map.height {
            height_map.width
        } else {
            height_map.height
        };
        let mut size = ceil_pow2(height_map_size);
        let ghost top: nat = choose|e: nat| size as int == #[trigger] pow2(e);
        let ghost full = size as int;
        let ghost w = height_map.width as int;
        let ghost h = height_map.height as int;
        proof {
            assert(full * full <= (full + 1) * (full + 1) && full + 1 <= (full + 1) * (full + 1))
                by (nonlinear_arith)
                requires
                    full >= 0,
            ;
        }

        // Lay the raster into a zero-filled square of side `size + 1`
        let mut height_map2: Texture<i64> = Texture::blank(size + 1, size + 1);
        let ghost zeros = height_map2;
        proof {
            assert(w * (h - 1) + w == w * h && (full + 1) * (h - 1) + w <= (full + 1) * (full + 1))
                by (nonlinear_arith)
                requires
                    1 <= w <= full,
                    1 <= h <= full,
            ;
        }
        blit(height_map, &mut height_map2, 0, 0);
        proof {
            assert forall|cx: int, cy: int| height_map2.holds(cx, cy) implies height_map2.at(
                cx,
                cy,
            ) == padded(*height_map, cx, cy) by {
                zeros.lemma_index_in_buffer(cx, cy);
                lemma_blit_source_cell(w, full + 1, 0, 0, w, h, cx, cy);
                assert(is_default(zeros.buffer@[zeros.index_of(cx, cy)]));
            }
        }

        // Then create the bilinear patch texture and its initial mipmap
        let mut bilinear_patches: Texture<[i64; 4]> = Texture::blank(size, size);
        let mut bilinear_patches_mipmap0: Texture<i64> = Texture::blank(size, size);
        height_map_to_bilinear_patch(
            &height_map2,
            &mut bilinear_patches,
            &mut bilinear_patches_mipmap0,
        );
        proof {
            assert forall|x: int, y: int| bilinear_patches.holds(x, y) implies (
            #[trigger] bilinear_patches.at(x, y))@ == corner_heights(*height_map, x, y) by {
                assert(height_map2.holds(x, y) && height_map2.holds(x + 1, y) && height_map2.holds(
                    x + 1,
                    y + 1,
                ) && height_map2.holds(x, y + 1));
                assert(patch_corners(height_map2, x, y) =~= corner_heights(*height_map, x, y));
            }
            assert(pyramid_level(bilinear_patches_mipmap0, bilinear_patches, 0, full));
        }

        // Create the subsequent mipmap levels from level0
        let mut maximum_mipmaps: Vec<Texture<i64>> = Vec::new();
        maximum_mipmaps.push(bilinear_patches_mipmap0);
        let ghost mut k: nat = 0;
        while size > 1
            invariant
                k <= top,
                size as int == pow2((top - k) as nat),
                size * size <= usize::MAX,
                maximum_mipmaps@.len() == k + 1,
                bilinear_patches.wf(),
                forall|level: int|
                    0 <= level <= k ==> pyramid_level(
                        #[trigger] maximum_mipmaps@[level],
                        bilinear_patches,
                        level as nat,
                        pow2((top - level) as nat) as int,
                    ),
            decreases size,
        {
            let ghost previous_side = size as int;
            proof {
                lemma2_to64();
                lemma_pow2_unfold((top - k) as nat);
                assert((previous_side / 2) * (previous_side / 2) <= previous_side * previous_side)
                    by (nonlinear_arith)
                    requires
                        previous_side >= 0,
                ;
            }
            size /= 2;
            let mut next: Texture<i64> = Texture::blank(size, size);
            let ghost levels_before = maximum_mipmaps@;
            {
                let previous = &maximum_mipmaps[maximum_mipmaps.len() - 1];
                maximum_mipmap_bilinear_patch(previous, &mut next);
                proof {
                    let prev = levels_before[k as int];
                    assert(pyramid_level(
                        prev,
                        bilinear_patches,
                        k,
                        pow2((top - k) as nat) as int,
                    ));
                    assert forall|x: int, y: int| next.holds(x, y) implies #[trigger] next.at(x, y)
                        == level_max(bilinear_patches, k + 1, x, y) by {
                        assert(prev.holds(2 * x, 2 * y) && prev.holds(2 * x + 1, 2 * y)
                            && prev.holds(2 * x, 2 * y + 1) && prev.holds(2 * x + 1, 2 * y + 1));
                        assert(next.at(x, y) == block_max(prev, x, y));
                    }
                }
            }
            maximum_mipmaps.push(next);
            proof {
                k = k + 1;
                assert forall|level: int| 0 <= level <= k implies pyramid_level(
                    #[trigger] maximum_mipmaps@[level],
                    bilinear_patches,
                    level as nat,
                    pow2((top - level) as nat) as int,
                ) by {
                    if level < k {
                        assert(maximum_mipmaps@[level] == levels_before[level]);
                    }
                }
            }
        }
        proof {
            // a side of one is the power of two with exponent zero
            if top > k {
                lemma_pow2_unfold((top - k) as nat);
                lemma_pow2_pos((top - k - 1) as nat);
            }
        }

        let field = HeightMap {
            width: height_map.width,
            height: height_map.height,
            bilinear_patches,
            maximum_mipmaps,
        };
        proof {
            assert forall|level: int| 0 <= level < field.levels() implies #[trigger] field.level_ok(
                level,
            ) by {
                assert(pyramid_level(
                    field.maximum_mipmaps@[level],
                    field.bilinear_patches,
                    level as nat,
                    pow2((top - level) as nat) as int,
                ));
            }
            field.lemma_bound_invariant();
        }
        field
    }
}

} // verus!
