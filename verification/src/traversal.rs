//! The walk over the pyramid of a height field that a ray query makes.
//!
//! The walk keeps a stack of cells still to be examined. Its caller takes
//! the cell on top, tests the ray against the box that bounds the surface
//! over that cell, and either drops the cell, or resolves the ray against
//! the patch of a cell at level zero, or descends: the four children go on
//! the stack, the one farthest from the ray's origin first, so that the
//! nearest is the next to be examined. The walk ends when the caller has
//! its answer or the stack is empty.
//!
//! Whatever the caller decides, no patch comes up twice, and a patch is
//! passed over only where a cell above it was dropped.

use crate::height_map::{beneath, lemma_beneath_child, lemma_beneath_parent, Cell, HeightMap};
use vstd::arithmetic::power2::{lemma_pow2_pos, lemma_pow2_unfold, pow2};
use vstd::prelude::*;

verus! {

/// What the test of a ray against the box over a cell found.
#[derive(Clone, Copy, Debug, PartialEq, Eq, Structural)]
pub enum BoxProbe {
    /// The ray passes the box by.
    Missed,
    /// The ray meets the box only behind its origin.
    Behind,
    /// The ray enters the box, or starts inside it.
    Entered,
}

/// What the test of a ray against the patch of a cell at level zero found.
#[derive(Clone, Copy, Debug, PartialEq, Eq, Structural)]
pub enum PatchProbe {
    /// The ray does not meet the patch.
    Missed,
    /// The ray meets the patch beyond the rectangle of the field.
    Outside,
    /// The ray meets the patch within the rectangle of the field.
    Inside,
}

/// What is done with the cell under examination.
#[derive(Clone, Copy, Debug, PartialEq, Eq, Structural)]
pub enum Action {
    /// The cell is dropped with all that lies beneath it.
    Drop,
    /// The cell is at level zero: the ray is tested against its patch.
    Resolve,
    /// The four children of the cell go on the stack.
    Descend,
}

/// Where a walk stands.
#[derive(Clone, Copy, Debug, PartialEq, Eq, Structural)]
pub enum State {
    /// Cells are still examined.
    Traversing,
    /// A patch was hit within the field: the hit is the answer.
    LeafResolved,
    /// No cell is left: the ray meets nothing.
    Exhausted,
}

/// What the outcome of the box test asks for: a cell whose box is missed,
/// or met only behind the ray's origin, is dropped; a cell at level zero
/// whose box is entered is resolved against its patch; any other cell
/// whose box is entered is descended from.
pub open spec fn action_for(cell: Cell, probe: BoxProbe) -> Action {
    match probe {
        BoxProbe::Missed => Action::Drop,
        BoxProbe::Behind => Action::Drop,
        BoxProbe::Entered => if cell.level == 0 {
            Action::Resolve
        } else {
            Action::Descend
        },
    }
}

/// Decide what is done with the cell under examination, given what the
/// test of the ray against its box found.
pub fn decide(cell: Cell, probe: BoxProbe) -> (action: Action)
    ensures
        action == action_for(cell, probe),
{
    match probe {
        BoxProbe::Missed => Action::Drop,
        BoxProbe::Behind => Action::Drop,
        BoxProbe::Entered => {
            if cell.level == 0 {
                Action::Resolve
            } else {
                Action::Descend
            }
        },
    }
}

/// Where the walk stands once a patch is tested: a hit within the field
/// ends it; after a miss, or a hit beyond the field, it goes on.
pub fn resolve(probe: PatchProbe) -> (state: State)
    ensures
        state == (match probe {
            PatchProbe::Inside => State::LeafResolved,
            PatchProbe::Missed => State::Traversing,
            PatchProbe::Outside => State::Traversing,
        }),
{
    match probe {
        PatchProbe::Inside => State::LeafResolved,
        PatchProbe::Missed => State::Traversing,
        PatchProbe::Outside => State::Traversing,
    }
}

/// The four cells beneath `cell`, in the order north-west, north-east,
/// south-west, south-east.
pub open spec fn children(cell: Cell) -> Seq<Cell> {
    let level = (cell.level - 1) as usize;
    seq![
        Cell { level, x: (2 * cell.x) as usize, y: (2 * cell.y) as usize },
        Cell { level, x: (2 * cell.x + 1) as usize, y: (2 * cell.y) as usize },
        Cell { level, x: (2 * cell.x) as usize, y: (2 * cell.y + 1) as usize },
        Cell { level, x: (2 * cell.x + 1) as usize, y: (2 * cell.y + 1) as usize },
    ]
}

/// Of four children with the given distances, child `j` goes on the stack
/// before child `i`: it is farther away, or as far and earlier in order.
pub open spec fn precedes(distance: Seq<u64>, j: int, i: int) -> bool {
    distance[j] > distance[i] || (distance[j] == distance[i] && j < i)
}

/// One if child `j` goes on the stack before child `i`, else zero.
pub open spec fn ahead(distance: Seq<u64>, j: int, i: int) -> int {
    if precedes(distance, j, i) {
        1
    } else {
        0
    }
}

/// The place of child `i` among the four when they are put farthest first:
/// the number of children that go on the stack before it.
pub open spec fn rank(distance: Seq<u64>, i: int) -> int {
    ahead(distance, 0, i) + ahead(distance, 1, i) + ahead(distance, 2, i) + ahead(distance, 3, i)
}

/// The child that takes place `r` when the four are put farthest first.
pub open spec fn placed(distance: Seq<u64>, r: int) -> int {
    choose|i: int| 0 <= i < 4 && rank(distance, i) == r
}

/// Four cells put farthest first; cells at one distance keep their order.
pub open spec fn far_first(cells: Seq<Cell>, distance: Seq<u64>) -> Seq<Cell> {
    Seq::new(4, |r: int| cells[placed(distance, r)])
}

/// Each of the four places is taken by one child.
pub proof fn lemma_rank_is_a_permutation(distance: Seq<u64>)
    requires
        distance.len() == 4,
    ensures
        forall|i: int| 0 <= i < 4 ==> 0 <= #[trigger] rank(distance, i) < 4,
        forall|i: int, j: int|
            0 <= i < 4 && 0 <= j < 4 && i != j ==> #[trigger] rank(distance, i) != #[trigger] rank(
                distance,
                j,
            ),
        forall|i: int| 0 <= i < 4 ==> placed(distance, #[trigger] rank(distance, i)) == i,
        forall|r: int|
            0 <= r < 4 ==> 0 <= #[trigger] placed(distance, r) < 4 && rank(
                distance,
                placed(distance, r),
            ) == r,
{
    let r0 = rank(distance, 0);
    let r1 = rank(distance, 1);
    let r2 = rank(distance, 2);
    let r3 = rank(distance, 3);
    assert(0 <= r0 < 4 && 0 <= r1 < 4 && 0 <= r2 < 4 && 0 <= r3 < 4);
    assert(r0 != r1 && r0 != r2 && r0 != r3 && r1 != r2 && r1 != r3 && r2 != r3);
    assert forall|r: int| 0 <= r < 4 implies 0 <= #[trigger] placed(distance, r) < 4 && rank(
        distance,
        placed(distance, r),
    ) == r by {
        assert(r == r0 || r == r1 || r == r2 || r == r3);
    }
}

/// The cells come farthest first: along the result no distance grows, and
/// of two cells at one distance the one that came in first comes first.
pub proof fn lemma_far_first_descends(distance: Seq<u64>, r: int, s: int)
    requires
        distance.len() == 4,
        0 <= r < s < 4,
    ensures
        distance[placed(distance, r)] >= distance[placed(distance, s)],
        distance[placed(distance, r)] == distance[placed(distance, s)] ==> placed(distance, r)
            < placed(distance, s),
{
    lemma_rank_is_a_permutation(distance);
}

/// Leaf `(lx, ly)` of the patch grid lies beneath `cell`.
pub open spec fn over(cell: Cell, lx: int, ly: int) -> bool {
    beneath(cell.level as nat, cell.x as int, cell.y as int, lx, ly)
}

/// Leaf `(lx, ly)` lies beneath one of `cells`.
pub open spec fn covers(cells: Seq<Cell>, lx: int, ly: int) -> bool {
    exists|i: int| 0 <= i < cells.len() && over(#[trigger] cells[i], lx, ly)
}

/// No leaf lies beneath both cells.
pub open spec fn apart(a: Cell, b: Cell) -> bool {
    forall|lx: int, ly: int| !(#[trigger] over(a, lx, ly) && over(b, lx, ly))
}

/// No leaf lies beneath two of `cells`.
pub open spec fn scattered(cells: Seq<Cell>) -> bool {
    forall|i: int, j: int|
        0 <= i < j < cells.len() ==> apart(#[trigger] cells[i], #[trigger] cells[j])
}

/// The children of `cell` are cells with coordinates that a `usize` holds.
pub open spec fn splits(cell: Cell) -> bool {
    cell.level > 0 && 2 * cell.x + 1 <= usize::MAX && 2 * cell.y + 1 <= usize::MAX
}

/// The leaves beneath a child lie beneath its parent.
pub proof fn lemma_child_within(cell: Cell, k: int, lx: int, ly: int)
    requires
        splits(cell),
        0 <= k < 4,
        over(children(cell)[k], lx, ly),
    ensures
        over(cell, lx, ly),
{
    let dx: int = if k == 1 || k == 3 {
        1
    } else {
        0
    };
    let dy: int = if k == 2 || k == 3 {
        1
    } else {
        0
    };
    lemma_beneath_parent(cell.level as nat, cell.x as int, cell.y as int, dx, dy, lx, ly);
}

/// A leaf beneath a cell lies beneath one of its children.
pub proof fn lemma_children_cover(cell: Cell, lx: int, ly: int)
    requires
        splits(cell),
        over(cell, lx, ly),
    ensures
        covers(children(cell), lx, ly),
{
    lemma_beneath_child(cell.level as nat, cell.x as int, cell.y as int, lx, ly);
    let c = children(cell);
    assert(over(c[0], lx, ly) || over(c[1], lx, ly) || over(c[2], lx, ly) || over(c[3], lx, ly));
}

/// Two cells of one level that share a leaf are one cell.
pub proof fn lemma_level_cells_apart(a: Cell, b: Cell)
    requires
        a.level == b.level,
        a.x != b.x || a.y != b.y,
    ensures
        apart(a, b),
{
    let p = pow2(a.level as nat) as int;
    lemma_pow2_pos(a.level as nat);
    assert forall|lx: int, ly: int| !(#[trigger] over(a, lx, ly) && over(b, lx, ly)) by {
        if over(a, lx, ly) && over(b, lx, ly) {
            lemma_same_span(a.x as int, b.x as int, p, lx);
            lemma_same_span(a.y as int, b.y as int, p, ly);
        }
    }
}

/// A number lies in one span of length `p` only.
pub proof fn lemma_same_span(x1: int, x2: int, p: int, l: int)
    requires
        p > 0,
        x1 * p <= l < (x1 + 1) * p,
        x2 * p <= l < (x2 + 1) * p,
    ensures
        x1 == x2,
{
    assert(x1 == x2) by (nonlinear_arith)
        requires
            p > 0,
            x1 * p <= l < (x1 + 1) * p,
            x2 * p <= l < (x2 + 1) * p,
    ;
}

/// No leaf lies beneath two children of one cell.
pub proof fn lemma_children_apart(cell: Cell, a: int, b: int)
    requires
        splits(cell),
        0 <= a < 4,
        0 <= b < 4,
        a != b,
    ensures
        apart(children(cell)[a], children(cell)[b]),
{
    lemma_level_cells_apart(children(cell)[a], children(cell)[b]);
}

/// A cell that is apart from a parent is apart from each of its children.
pub proof fn lemma_apart_from_child(other: Cell, cell: Cell, k: int)
    requires
        splits(cell),
        0 <= k < 4,
        apart(other, cell),
    ensures
        apart(other, children(cell)[k]),
{
    assert forall|lx: int, ly: int| !(#[trigger] over(other, lx, ly) && over(
        children(cell)[k],
        lx,
        ly,
    )) by {
        if over(other, lx, ly) && over(children(cell)[k], lx, ly) {
            lemma_child_within(cell, k, lx, ly);
        }
    }
}

/// To descend from a cell loses no leaf and gains none: the leaves beneath
/// the stack with the children on it are those beneath the stack and the
/// cell.
pub proof fn lemma_descent_keeps_cover(
    pending: Seq<Cell>,
    cell: Cell,
    distance: Seq<u64>,
    lx: int,
    ly: int,
)
    requires
        splits(cell),
        distance.len() == 4,
    ensures
        covers(pending + far_first(children(cell), distance), lx, ly) <==> covers(pending, lx, ly)
            || over(cell, lx, ly),
{
    let sorted = far_first(children(cell), distance);
    let after = pending + sorted;
    lemma_rank_is_a_permutation(distance);
    if covers(after, lx, ly) {
        let i = choose|i: int| 0 <= i < after.len() && over(#[trigger] after[i], lx, ly);
        if i < pending.len() {
            assert(over(pending[i], lx, ly));
        } else {
            let r = i - pending.len();
            assert(after[i] == sorted[r]);
            lemma_child_within(cell, placed(distance, r), lx, ly);
        }
    }
    if covers(pending, lx, ly) {
        let i = choose|i: int| 0 <= i < pending.len() && over(#[trigger] pending[i], lx, ly);
        assert(over(after[i], lx, ly));
    }
    if over(cell, lx, ly) {
        lemma_children_cover(cell, lx, ly);
        let k = choose|k: int| 0 <= k < 4 && over(#[trigger] children(cell)[k], lx, ly);
        let r = rank(distance, k);
        assert(sorted[r] == children(cell)[k]);
        assert(over(after[pending.len() + r], lx, ly));
    }
}

/// To drop the cell on top of the stack loses the leaves beneath that cell
/// and no others that the rest of the stack does not have.
pub proof fn lemma_drop_loses_one_cell(pending: Seq<Cell>, lx: int, ly: int)
    requires
        pending.len() > 0,
    ensures
        covers(pending, lx, ly) <==> covers(pending.drop_last(), lx, ly) || over(
            pending.last(),
            lx,
            ly,
        ),
{
    let rest = pending.drop_last();
    if covers(pending, lx, ly) {
        let i = choose|i: int| 0 <= i < pending.len() && over(#[trigger] pending[i], lx, ly);
        if i < rest.len() {
            assert(over(rest[i], lx, ly));
        }
    }
    if covers(rest, lx, ly) {
        let i = choose|i: int| 0 <= i < rest.len() && over(#[trigger] rest[i], lx, ly);
        assert(over(pending[i], lx, ly));
    }
    if over(pending.last(), lx, ly) {
        assert(over(pending[pending.len() - 1], lx, ly));
    }
}

/// A walk starts with the whole grid beneath its stack.
pub proof fn lemma_walk_starts_over_the_grid(field: HeightMap, lx: int, ly: int)
    requires
        field.wf(),
        field.bilinear_patches.holds(lx, ly),
    ensures
        covers(seq![field.top()->0], lx, ly),
{
    let top = field.top()->0;
    let p = pow2(top.level as nat) as int;
    assert(0 * p == 0 && (0 + 1) * p == p) by (nonlinear_arith);
    assert(over(seq![top][0], lx, ly));
}

/// The number of cells in the part of the pyramid that hangs from a cell of
/// the given level, the cell itself included.
pub open spec fn subtree(level: nat) -> nat
    decreases level,
{
    if level == 0 {
        1
    } else {
        1 + 4 * subtree((level - 1) as nat)
    }
}

/// The most cells that a walk can still hand out: the cells that hang from
/// the cells on its stack.
pub open spec fn budget(cells: Seq<Cell>) -> nat
    decreases cells.len(),
{
    if cells.len() == 0 {
        0
    } else {
        subtree(cells.last().level as nat) + budget(cells.drop_last())
    }
}

/// A cell that goes on the stack adds the cells that hang from it.
pub proof fn lemma_budget_push(cells: Seq<Cell>, cell: Cell)
    ensures
        budget(cells.push(cell)) == budget(cells) + subtree(cell.level as nat),
{
    assert(cells.push(cell).drop_last() =~= cells);
}

/// The place of child `i` among four children put farthest first.
fn rank_of(distance: &[u64; 4], i: usize) -> (r: usize)
    requires
        i < 4,
    ensures
        r == rank(distance@, i as int),
{
    let mut r: usize = 0;
    let mut j: usize = 0;
    while j < 4
        invariant
            j <= 4,
            i < 4,
            r <= j,
            r == (if j > 0 {
                ahead(distance@, 0, i as int)
            } else {
                0
            }) + (if j > 1 {
                ahead(distance@, 1, i as int)
            } else {
                0
            }) + (if j > 2 {
                ahead(distance@, 2, i as int)
            } else {
                0
            }) + (if j > 3 {
                ahead(distance@, 3, i as int)
            } else {
                0
            }),
        decreases 4 - j,
    {
        if distance[j] > distance[i] || (distance[j] == distance[i] && j < i) {
            r = r + 1;
        }
        j = j + 1;
    }
    r
}

/// Put four cells in the order in which they go on the stack: farthest
/// first, and cells at one distance in the order they came in.
pub fn order_far_first(cells: [Cell; 4], distance: [u64; 4]) -> (sorted: [Cell; 4])
    ensures
        sorted@ == far_first(cells@, distance@),
{
    let mut sorted = cells;
    let mut i: usize = 0;
    proof {
        lemma_rank_is_a_permutation(distance@);
    }
    while i < 4
        invariant
            i <= 4,
            forall|k: int| 0 <= k < i ==> sorted@[rank(distance@, k)] == cells@[k],
            forall|k: int| 0 <= k < 4 ==> 0 <= #[trigger] rank(distance@, k) < 4,
            forall|k: int, j: int|
                0 <= k < 4 && 0 <= j < 4 && k != j ==> #[trigger] rank(distance@, k)
                    != #[trigger] rank(distance@, j),
        decreases 4 - i,
    {
        let r = rank_of(&distance, i);
        sorted[r] = cells[i];
        i = i + 1;
    }
    proof {
        assert forall|r: int| 0 <= r < 4 implies sorted@[r] == far_first(cells@, distance@)[r] by {
            let k = placed(distance@, r);
            assert(sorted@[rank(distance@, k)] == cells@[k]);
        }
        assert(sorted@ =~= far_first(cells@, distance@));
    }
    sorted
}

/// A walk over the pyramid of a height field.
pub struct Traversal<'a> {
    field: &'a HeightMap,
    stack: Vec<Cell>,
    current: Option<Cell>,
}

impl<'a> Traversal<'a> {
    /// The height field that is walked.
    pub closed spec fn field(self) -> HeightMap {
        *self.field
    }

    /// The cells still to be examined; the last is the next.
    pub closed spec fn pending(self) -> Seq<Cell> {
        self.stack@
    }

    /// The cell that was handed out last and is under examination; none
    /// before the first cell, after a descent and when the walk is over.
    pub closed spec fn current(self) -> Option<Cell> {
        self.current
    }

    /// Where the walk stands as far as its stack tells: it is over when no
    /// cell is under examination and none is left on the stack.
    pub open spec fn state(self) -> State {
        if self.current() is None && self.pending().len() == 0 {
            State::Exhausted
        } else {
            State::Traversing
        }
    }

    /// The field is well formed; the cell under examination and the cells
    /// on the stack are cells of the field; and no leaf lies beneath two of
    /// them.
    pub open spec fn wf(self) -> bool {
        &&& self.field().wf()
        &&& forall|i: int|
            0 <= i < self.pending().len() ==> self.field().contains(#[trigger] self.pending()[i])
        &&& scattered(self.pending())
        &&& self.current() is Some ==> {
            &&& self.field().contains(self.current()->0)
            &&& forall|i: int|
                0 <= i < self.pending().len() ==> apart(
                    #[trigger] self.pending()[i],
                    self.current()->0,
                )
        }
    }

    /// Start a walk at the top of the pyramid. Over a field without levels
    /// the walk is over before it starts.
    pub fn new(field: &'a HeightMap) -> (walk: Traversal<'a>)
        ensures
            walk.field() == *field,
            walk.current() is None,
            walk.pending() == match field.top() {
                Some(cell) => seq![cell],
                None => Seq::<Cell>::empty(),
            },
            budget(walk.pending()) == match field.top() {
                Some(cell) => subtree(cell.level as nat),
                None => 0,
            },
            field.wf() ==> walk.wf(),
    {
        let mut stack: Vec<Cell> = Vec::new();
        match field.root() {
            Some(cell) => {
                stack.push(cell);
                proof {
                    lemma_budget_push(Seq::<Cell>::empty(), cell);
                    assert(stack@ =~= seq![cell]);
                    assert(stack@ =~= Seq::<Cell>::empty().push(cell));
                }
            },
            None => {},
        }
        Traversal { field, stack, current: None }
    }

    /// Take the next cell to examine off the stack; none when the walk is
    /// over. The cell that was under examination is dropped with all that
    /// lies beneath it.
    pub fn next(&mut self) -> (r: Option<Cell>)
        ensures
            final(self).field() == old(self).field(),
            final(self).current() == r,
            r is None <==> old(self).pending().len() == 0,
            r is None <==> final(self).state() == State::Exhausted,
            r is None ==> final(self).pending() == old(self).pending(),
            r is Some ==> r->0 == old(self).pending().last() && final(self).pending() == old(
                self,
            ).pending().drop_last(),
            r is Some ==> budget(final(self).pending()) + subtree(r->0.level as nat) == budget(
                old(self).pending(),
            ),
            old(self).wf() ==> final(self).wf(),
    {
        let r = self.stack.pop();
        self.current = r;
        proof {
            if r is Some {
                assert(self.stack@ =~= old(self).stack@.drop_last());
                if old(self).wf() {
                    let before = old(self).pending();
                    assert forall|i: int| 0 <= i < self.pending().len() implies apart(
                        #[trigger] self.pending()[i],
                        r->0,
                    ) by {
                        assert(apart(before[i], before[before.len() - 1]));
                    }
                    assert forall|i: int, j: int| 0 <= i < j < self.pending().len() implies apart(
                        #[trigger] self.pending()[i],
                        #[trigger] self.pending()[j],
                    ) by {
                        assert(apart(before[i], before[j]));
                    }
                    assert forall|i: int|
                        0 <= i < self.pending().len() implies self.field().contains(
                        #[trigger] self.pending()[i],
                    ) by {
                        assert(self.field().contains(before[i]));
                    }
                    assert(self.field().contains(before[before.len() - 1]));
                }
            }
        }
        r
    }

    /// Put the four children of the cell under examination on the stack,
    /// the farthest first, given the distance of each from the ray's origin
    /// in the order north-west, north-east, south-west, south-east. The
    /// nearest child is then the next cell to examine.
    pub fn descend(&mut self, distance: [u64; 4])
        requires
            old(self).wf(),
            old(self).current() is Some,
            old(self).current()->0.level > 0,
        ensures
            final(self).state() == State::Traversing,
            final(self).field() == old(self).field(),
            final(self).current() is None,
            splits(old(self).current()->0),
            final(self).pending() == old(self).pending() + far_first(
                children(old(self).current()->0),
                distance@,
            ),
            budget(final(self).pending()) + 1 == budget(old(self).pending()) + subtree(
                old(self).current()->0.level as nat,
            ),
            final(self).wf(),
    {
        let cell = match self.current {
            Some(cell) => cell,
            None => {
                return ;
            },
        };
        proof {
            lemma_pow2_unfold((self.field().levels() - cell.level) as nat);
            assert(self.field().level_ok(cell.level - 1));
        }
        let level = cell.level - 1;
        let (cx, cy) = (cell.x * 2, cell.y * 2);
        let candidates = [
            Cell { level, x: cx, y: cy },
            Cell { level, x: cx + 1, y: cy },
            Cell { level, x: cx, y: cy + 1 },
            Cell { level, x: cx + 1, y: cy + 1 },
        ];
        assert(candidates@ =~= children(cell));
        let sorted = order_far_first(candidates, distance);
        let ghost before = self.stack@;
        proof {
            lemma_rank_is_a_permutation(distance@);
            assert forall|r: int| 0 <= r < 4 implies self.field().contains(#[trigger] sorted@[r])
                && sorted@[r].level == level && sorted@[r] == children(cell)[placed(
                distance@,
                r,
            )] by {
                let k = placed(distance@, r);
                assert(sorted@[r] == candidates@[k]);
            }
            assert forall|k: int| 0 <= k < before.len() implies self.field().contains(
                #[trigger] before[k],
            ) && apart(before[k], cell) by {
                assert(self.field().contains(self.pending()[k]));
                assert(apart(self.pending()[k], cell));
            }
            assert(scattered(before));
        }
        let mut i: usize = 0;
        while i < 4
            invariant
                i <= 4,
                splits(cell),
                distance@.len() == 4,
                self.field() == old(self).field(),
                self.current() == Some(cell),
                self.field().wf(),
                self.field().contains(cell),
                self.stack@ == before + sorted@.subrange(0, i as int),
                budget(self.stack@) == budget(before) + i * subtree(level as nat),
                forall|r: int|
                    0 <= r < 4 ==> self.field().contains(#[trigger] sorted@[r]) && sorted@[r].level
                        == level && sorted@[r] == children(cell)[placed(distance@, r)],
                forall|r: int| 0 <= r < 4 ==> 0 <= #[trigger] placed(distance@, r) < 4,
                forall|k: int|
                    0 <= k < before.len() ==> self.field().contains(#[trigger] before[k]) && apart(
                        before[k],
                        cell,
                    ),
                scattered(before),
            decreases 4 - i,
        {
            proof {
                lemma_budget_push(self.stack@, sorted@[i as int]);
                assert((i + 1) * subtree(level as nat) == i * subtree(level as nat) + subtree(
                    level as nat,
                )) by (nonlinear_arith);
            }
            self.stack.push(sorted[i]);
            proof {
                assert(self.stack@ =~= before + sorted@.subrange(0, i + 1));
            }
            i = i + 1;
        }
        self.current = None;
        proof {
            assert(sorted@.subrange(0, 4) =~= sorted@);
            assert(4 * subtree(level as nat) + 1 == subtree(cell.level as nat));
            let after = self.stack@;
            assert(after =~= before + far_first(children(cell), distance@));
            assert forall|a: int, b: int| 0 <= a < b < after.len() implies apart(
                #[trigger] after[a],
                #[trigger] after[b],
            ) by {
                if b < before.len() {
                    assert(apart(before[a], before[b]));
                } else {
                    let s = b - before.len();
                    assert(after[b] == sorted@[s]);
                    if a < before.len() {
                        lemma_apart_from_child(before[a], cell, placed(distance@, s));
                    } else {
                        let r = a - before.len();
                        assert(after[a] == sorted@[r]);
                        lemma_rank_is_a_permutation(distance@);
                        assert(rank(distance@, placed(distance@, r)) == r);
                        assert(rank(distance@, placed(distance@, s)) == s);
                        lemma_children_apart(cell, placed(distance@, r), placed(distance@, s));
                    }
                }
            }
            assert forall|k: int| 0 <= k < after.len() implies self.field().contains(
                #[trigger] self.pending()[k],
            ) by {
                if k < before.len() {
                    assert(self.field().contains(before[k]));
                } else {
                    assert(after[k] == sorted@[k - before.len()]);
                }
            }
        }
    }
}

} // verus!
