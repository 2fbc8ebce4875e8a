//! Quad trees stored as a flat list of nodes that name their children by
//! index, and the tree that covers a height map with tiles, each tile split
//! into quarters where the terrain under it has relief.

use crate::math::{ceil_pow2, max_pow2_arg, next_pow2};
use crate::ops::walked;
use crate::textures::{Texture, Tile};
use std::collections::VecDeque;
use vstd::prelude::*;

verus! {

/// A node of a quad tree: its data and up to four children, each named by
/// its index in the tree's list of nodes.
#[derive(Copy, Clone, Default, Debug, PartialEq)]
pub struct QuadTreeNode<T> where T: Copy + Default {
    pub data: T,
    pub children: [Option<usize>; 4],
}

/// A quad tree; the first node, if there is one, is the root.
#[derive(Clone, Debug, Default, PartialEq)]
pub struct QuadTree<T> where T: Copy + Default {
    pub nodes: Vec<QuadTreeNode<T>>,
}

/// The first of four slots that is empty, or four where all are taken.
pub open spec fn first_free(slots: Seq<Option<usize>>) -> int {
    if slots[0] is None {
        0
    } else if slots[1] is None {
        1
    } else if slots[2] is None {
        2
    } else if slots[3] is None {
        3
    } else {
        4
    }
}

impl<T> QuadTreeNode<T> where T: Copy + Default {
    /// A node without children.
    pub fn new(data: T) -> (node: QuadTreeNode<T>)
        ensures
            node.data == data,
            node.children@ == seq![None::<usize>, None, None, None],
    {
        let node = QuadTreeNode { data, children: [None;4] };
        assert(node.children@ =~= seq![None::<usize>, None, None, None]);
        node
    }

    /// Returns true if this is a leaf node
    pub fn is_leaf(&self) -> (leaf: bool)
        ensures
            leaf <==> forall|i: int| 0 <= i < 4 ==> self.children@[i] is None,
    {
        let mut i: usize = 0;
        while i < 4
            invariant
                i <= 4,
                forall|k: int| 0 <= k < i ==> self.children@[k] is None,
            decreases 4 - i,
        {
            if self.children[i].is_some() {
                return false;
            }
            i = i + 1;
        }
        true
    }

    /// Append a child node into this node: the child takes the first empty
    /// slot. A node whose four slots are taken stays as it is.
    pub fn append(&mut self, child: usize)
        ensures
            final(self).data == old(self).data,
            first_free(old(self).children@) < 4 ==> final(self).children@ == old(
                self,
            ).children@.update(first_free(old(self).children@), Some(child)),
            first_free(old(self).children@) == 4 ==> final(self).children@ == old(self).children@,
    {
        let mut i: usize = 0;
        while i < 4
            invariant
                i <= 4,
                *self == *old(self),
                forall|k: int| 0 <= k < i ==> self.children@[k] is Some,
            decreases 4 - i,
        {
            if self.children[i].is_none() {
                self.children[i] = Some(child);
                return ;
            }
            i = i + 1;
        }
    }
}

impl<T> QuadTree<T> where T: Copy + Default {
    /// A tree over a list of nodes.
    pub fn new(nodes: Vec<QuadTreeNode<T>>) -> (tree: QuadTree<T>)
        ensures
            tree.nodes == nodes,
    {
        QuadTree { nodes }
    }

    /// The root of the tree: its first node, or none for an empty tree.
    pub fn root(&self) -> (r: Option<QuadTreeNode<T>>)
        ensures
            self.nodes@.len() == 0 ==> r is None,
            self.nodes@.len() > 0 ==> r == Some(self.nodes@[0]),
    {
        if self.nodes.len() == 0 {
            None
        } else {
            Some(self.nodes[0])
        }
    }
}

/// State of a tile to be inserted into a quad tree
#[derive(Clone, Copy, Debug)]
pub struct TileState {
    pub parent: Option<usize>,
    pub tile: Tile,
}

/// The tile of the given size at `(x, y)`, with its cursor on its first
/// cell.
pub open spec fn tile_at(x: int, y: int, width: int, height: int) -> Tile {
    Tile {
        x: x as usize,
        y: y as usize,
        width: width as usize,
        height: height as usize,
        start_x: x as usize,
        start_y: y as usize,
    }
}

/// Quarter `k` of a tile: the north-west, the north-east, the south-east
/// and the south-west quarter, in that order. Each has half the width and
/// half the height of the tile.
pub open spec fn quarter(tile: Tile, k: int) -> Tile {
    let w = tile.width / 2;
    let h = tile.height / 2;
    if k == 0 {
        tile_at(tile.x as int, tile.y as int, w as int, h as int)
    } else if k == 1 {
        tile_at(tile.x + w, tile.y as int, w as int, h as int)
    } else if k == 2 {
        tile_at(tile.x + w, tile.y + h, w as int, h as int)
    } else {
        tile_at(tile.x as int, tile.y + h, w as int, h as int)
    }
}

/// How many of the first `i` nodes of a tree are split.
pub open spec fn splits_before(split: Seq<bool>, i: int) -> int
    decreases i,
{
    if i <= 0 {
        0
    } else {
        splits_before(split, i - 1) + if split[i - 1] {
            1int
        } else {
            0int
        }
    }
}

/// The index at which the four children of node `i` start, if node `i` is
/// split: the nodes stand in the order in which a walk level by level comes
/// to them, so the children of a node follow the children of all split
/// nodes before it.
pub open spec fn first_child(split: Seq<bool>, i: int) -> int {
    1 + 4 * splits_before(split, i)
}

/// Node `i` of a tree, of which the first `done` nodes are in place, is as
/// it should be: it holds what `visit` gives for its tile, it is split just
/// where its tile is at least four wide and `visit` finds relief on it, and
/// it names those of its four children that are in place, in their order.
pub open spec fn node_in_place<T, F>(
    node: QuadTreeNode<T>,
    tiles: Seq<Tile>,
    split: Seq<bool>,
    visit: F,
    i: int,
    done: int,
) -> bool where T: Copy + Default, F: Fn(Tile) -> (T, bool) {
    &&& exists|rough: bool| #[trigger]
        call_ensures(visit, (tiles[i],), (node.data, rough)) && split[i] == (tiles[i].width >= 4
            && rough)
    &&& forall|k: int|
        0 <= k < 4 ==> #[trigger] node.children@[k] == if split[i] && first_child(split, i) + k
            < done {
            Some((first_child(split, i) + k) as usize)
        } else {
            None
        }
}

/// Child `k` of node `i`, where that node is split, comes after the node
/// and before the end of the tree, and stands for quarter `k` of the node's
/// tile.
pub open spec fn child_in_place(tiles: Seq<Tile>, split: Seq<bool>, i: int, k: int) -> bool {
    split[i] ==> {
        &&& i < first_child(split, i) + k < tiles.len()
        &&& tiles[first_child(split, i) + k] == quarter(tiles[i], k)
    }
}

/// `tree` is the quad tree over `root` that `visit` gives: with `tiles`
/// the tile of each node and `split` whether each node is split, the first
/// node stands for `root`, every node is as `node_in_place` says, the
/// children of a split node stand for the four quarters of its tile and
/// come after it, and the tree has no other nodes than the root and the
/// children of split nodes.
pub open spec fn is_quad_tree<T, F>(
    tree: QuadTree<T>,
    tiles: Seq<Tile>,
    split: Seq<bool>,
    root: Tile,
    visit: F,
) -> bool where T: Copy + Default, F: Fn(Tile) -> (T, bool) {
    let n = tree.nodes@.len() as int;
    &&& n >= 1
    &&& tiles.len() == n
    &&& split.len() == n
    &&& n == first_child(split, n)
    &&& tiles[0] == root
    &&& forall|i: int|
        0 <= i < n ==> node_in_place(#[trigger] tree.nodes@[i], tiles, split, visit, i, n)
    &&& forall|i: int, k: int|
        0 <= i < n && 0 <= k < 4 ==> #[trigger] child_in_place(tiles, split, i, k)
}

/// The most nodes that a tree over a tile of the given width can have.
pub open spec fn tiles_under(width: nat) -> nat
    decreases width,
{
    if width >= 4 {
        1 + 4 * tiles_under(width / 2)
    } else {
        1
    }
}

/// The most nodes that the tiles from `from` up to `to` can still give.
pub open spec fn pending_work(tiles: Seq<Tile>, from: int, to: int) -> nat
    decreases to - from,
{
    if from >= to {
        0
    } else {
        tiles_under(tiles[to - 1].width as nat) + pending_work(tiles, from, to - 1)
    }
}

/// The work that is pending is that of the first tile and that of the rest.
pub proof fn lemma_pending_first(tiles: Seq<Tile>, from: int, to: int)
    requires
        from < to,
    ensures
        pending_work(tiles, from, to) == tiles_under(tiles[from].width as nat) + pending_work(
            tiles,
            from + 1,
            to,
        ),
    decreases to - from,
{
    assert(pending_work(tiles, from, to) == tiles_under(tiles[to - 1].width as nat) + pending_work(
        tiles,
        from,
        to - 1,
    ));
    if from + 1 < to {
        lemma_pending_first(tiles, from, to - 1);
        assert(pending_work(tiles, from + 1, to) == tiles_under(tiles[to - 1].width as nat)
            + pending_work(tiles, from + 1, to - 1));
    } else {
        assert(pending_work(tiles, from, to - 1) == 0);
        assert(pending_work(tiles, from + 1, to) == 0);
    }
}

/// Tiles that are added behind do not change the work of those before.
pub proof fn lemma_pending_prefix(tiles: Seq<Tile>, more: Seq<Tile>, from: int, to: int)
    requires
        0 <= from,
        to <= tiles.len() <= more.len(),
        forall|g: int| 0 <= g < tiles.len() ==> tiles[g] == more[g],
    ensures
        pending_work(more, from, to) == pending_work(tiles, from, to),
    decreases to - from,
{
    if from < to {
        lemma_pending_prefix(tiles, more, from, to - 1);
    }
}

/// Whether the nodes after the first `i` are split has no part in the
/// count of the splits before `i`.
pub proof fn lemma_splits_prefix(split: Seq<bool>, more: Seq<bool>, i: int)
    requires
        i <= split.len() <= more.len(),
        forall|g: int| 0 <= g < split.len() ==> split[g] == more[g],
    ensures
        splits_before(more, i) == splits_before(split, i),
    decreases i,
{
    if i > 0 {
        lemma_splits_prefix(split, more, i - 1);
    }
}

/// The count of splits does not fall, and a split node adds one to it.
pub proof fn lemma_splits_grow(split: Seq<bool>, i: int, j: int)
    requires
        0 <= i <= j,
    ensures
        splits_before(split, i) <= splits_before(split, j),
        i < j && split[i] ==> splits_before(split, i) + 1 <= splits_before(split, j),
    decreases j - i,
{
    if i < j {
        lemma_splits_grow(split, i, j - 1);
    }
}

/// The side of the tile that covers `size` cells: the least power of two
/// that is not below `size`, and zero for zero.
pub open spec fn padded_side(size: int) -> int {
    if size == 0 {
        0
    } else {
        next_pow2(size)
    }
}

/// The tile that the tree over a height map of the given size starts from.
pub open spec fn root_tile(width: int, height: int) -> Tile {
    tile_at(0, 0, padded_side(width), padded_side(height))
}

/// The tile lies within a rectangle of the given size at the origin.
pub open spec fn within(tile: Tile, width: int, height: int) -> bool {
    tile.x + tile.width <= width && tile.y + tile.height <= height
}

/// The queue holds, in their order, the tiles that have been found and are
/// not yet nodes, each with the node that it was split from.
pub open spec fn queue_in_step(
    queue: Seq<TileState>,
    tiles: Seq<Tile>,
    parents: Seq<int>,
    done: int,
) -> bool {
    &&& queue.len() == tiles.len() - done
    &&& forall|j: int|
        0 <= j < queue.len() ==> (#[trigger] queue[j]).tile == tiles[done + j] && queue[j].parent
            == if done + j == 0 {
            None
        } else {
            Some(parents[done + j] as usize)
        }
}

/// Each tile but the first is a quarter of the tile of a split node that
/// is in place, and stands where the children of that node stand.
pub open spec fn tiles_in_step(
    tiles: Seq<Tile>,
    split: Seq<bool>,
    parents: Seq<int>,
    slots: Seq<int>,
    done: int,
) -> bool {
    forall|g: int|
        1 <= g < tiles.len() ==> {
            &&& 0 <= #[trigger] parents[g] < done
            &&& parents[g] < g
            &&& split[parents[g]]
            &&& 0 <= slots[g] < 4
            &&& first_child(split, parents[g]) + slots[g] == g
            &&& tiles[g] == quarter(tiles[parents[g]], slots[g])
        }
}

/// Build the quad tree over a height map of the given size.
///
/// The tree starts from one tile that covers the height map, its sides
/// rounded up to powers of two. `visit` gives for a tile what its node is
/// to hold, and whether the terrain under the tile has relief; a tile that
/// is at least four wide and has relief is split into its four quarters.
/// The nodes stand in the order in which the tiles are found, level by
/// level.
pub fn height_map_quad_tree<T, F>(width: usize, height: usize, visit: F) -> (tree: QuadTree<
    T,
>) where T: Copy + Default, F: Fn(Tile) -> (T, bool)
    requires
        width <= max_pow2_arg(),
        height <= max_pow2_arg(),
        forall|tile: Tile| call_requires(visit, (tile,)),
    ensures
        exists|tiles: Seq<Tile>, split: Seq<bool>| #[trigger]
            is_quad_tree(tree, tiles, split, root_tile(width as int, height as int), visit),
{
    let full_width = ceil_pow2(width);
    let full_height = ceil_pow2(height);
    let root = Tile::new(0, 0, full_width, full_height);
    assert(root == root_tile(width as int, height as int));

    let mut nodes: Vec<QuadTreeNode<T>> = Vec::new();
    let mut queue: VecDeque<TileState> = VecDeque::new();
    queue.push_back(TileState { parent: None, tile: root });

    let ghost mut tiles: Seq<Tile> = seq![root];
    let ghost mut split: Seq<bool> = Seq::empty();
    let ghost mut parents: Seq<int> = seq![0int];
    let ghost mut slots: Seq<int> = seq![0int];

    loop
        invariant
            forall|tile: Tile| call_requires(visit, (tile,)),
            tiles.len() == parents.len(),
            tiles.len() == slots.len(),
            split.len() == nodes@.len(),
            nodes@.len() <= tiles.len(),
            tiles.len() == first_child(split, nodes@.len() as int),
            tiles.len() >= 1,
            tiles[0] == root,
            root == root_tile(width as int, height as int),
            forall|g: int|
                0 <= g < tiles.len() ==> within(
                    #[trigger] tiles[g],
                    full_width as int,
                    full_height as int,
                ),
            queue_in_step(queue@, tiles, parents, nodes@.len() as int),
            tiles_in_step(tiles, split, parents, slots, nodes@.len() as int),
            forall|i: int|
                0 <= i < nodes@.len() ==> node_in_place(
                    #[trigger] nodes@[i],
                    tiles,
                    split,
                    visit,
                    i,
                    nodes@.len() as int,
                ),
        ensures
            queue@.len() == 0,
        decreases pending_work(tiles, nodes@.len() as int, tiles.len() as int),
    {
        let ghost done = nodes@.len() as int;
        let ghost tiles_before = tiles;
        let ghost split_before = split;
        let ghost nodes_before = nodes@;
        let work = match queue.pop_front() {
            Some(work) => work,
            None => {
                break ;
            },
        };
        assert(work.tile == tiles[done]);
        let (data, rough) = visit(work.tile);

        let node_index = nodes.len();
        nodes.push(QuadTreeNode::new(data));

        if let Some(pidx) = work.parent {
            let mut parent = nodes[pidx];
            proof {
                assert(node_in_place(
                    nodes_before[pidx as int],
                    tiles,
                    split,
                    visit,
                    pidx as int,
                    done,
                ));
                assert(first_free(parent.children@) == slots[done]);
            }
            parent.append(node_index);
            nodes[pidx] = parent;
        }
        let splits = work.tile.width >= 4 && rough;
        if splits {
            let x = work.tile.x;
            let y = work.tile.y;
            let w = work.tile.width / 2;
            let h = work.tile.height / 2;

            queue.push_back(TileState { parent: Some(node_index), tile: Tile::new(x, y, w, h) });
            queue.push_back(
                TileState { parent: Some(node_index), tile: Tile::new(x + w, y, w, h) },
            );
            queue.push_back(
                TileState { parent: Some(node_index), tile: Tile::new(x + w, y + h, w, h) },
            );
            queue.push_back(
                TileState { parent: Some(node_index), tile: Tile::new(x, y + h, w, h) },
            );
            proof {
                tiles = tiles.push(quarter(work.tile, 0)).push(quarter(work.tile, 1)).push(
                    quarter(work.tile, 2),
                ).push(quarter(work.tile, 3));
                parents = parents.push(done).push(done).push(done).push(done);
                slots = slots.push(0).push(1).push(2).push(3);
            }
        }
        proof {
            split = split.push(splits);
            let now = done + 1;
            lemma_splits_prefix(split_before, split, done);
            assert(splits_before(split, now) == splits_before(split, done) + if splits {
                1int
            } else {
                0int
            });
            assert forall|i: int| 0 <= i <= done implies first_child(split, i) == first_child(
                split_before,
                i,
            ) by {
                lemma_splits_prefix(split_before, split, i);
            }
            // the work that is left
            lemma_pending_first(tiles_before, done, tiles_before.len() as int);
            lemma_pending_prefix(tiles_before, tiles, now, tiles_before.len() as int);
            if splits {
                let t = tiles_before.len() as int;
                assert(pending_work(tiles, now, t + 4) == 4 * tiles_under(
                    (work.tile.width / 2) as nat,
                ) + pending_work(tiles, now, t)) by {
                    assert(pending_work(tiles, now, t + 4) == tiles_under(
                        tiles[t + 3].width as nat,
                    ) + pending_work(tiles, now, t + 3));
                    assert(pending_work(tiles, now, t + 3) == tiles_under(
                        tiles[t + 2].width as nat,
                    ) + pending_work(tiles, now, t + 2));
                    assert(pending_work(tiles, now, t + 2) == tiles_under(
                        tiles[t + 1].width as nat,
                    ) + pending_work(tiles, now, t + 1));
                    assert(pending_work(tiles, now, t + 1) == tiles_under(tiles[t].width as nat)
                        + pending_work(tiles, now, t));
                }
            }
            // the nodes that are in place
            assert forall|i: int| 0 <= i < nodes@.len() implies node_in_place(
                #[trigger] nodes@[i],
                tiles,
                split,
                visit,
                i,
                now,
            ) by {
                if i < done {
                    let before = nodes_before[i];
                    assert(node_in_place(before, tiles_before, split_before, visit, i, done));
                    let rough_i = choose|r: bool| #[trigger]
                        call_ensures(visit, (tiles_before[i],), (before.data, r))
                            && split_before[i] == (tiles_before[i].width >= 4 && r);
                    assert(call_ensures(visit, (tiles[i],), (nodes@[i].data, rough_i)));
                    assert(first_child(split, i) == first_child(split_before, i));
                    if done > 0 && i != parents[done] && split[i] {
                        // the new node is the child of another node
                        let p = parents[done];
                        if p < i {
                            lemma_splits_grow(split_before, p, i);
                        } else {
                            lemma_splits_grow(split_before, i, p);
                        }
                    }
                    assert forall|k: int| 0 <= k < 4 implies #[trigger] nodes@[i].children@[k]
                        == if split[i] && first_child(split, i) + k < now {
                        Some((first_child(split, i) + k) as usize)
                    } else {
                        None
                    } by {
                        assert(before.children@[k] == if split_before[i] && first_child(
                            split_before,
                            i,
                        ) + k < done {
                            Some((first_child(split_before, i) + k) as usize)
                        } else {
                            None
                        });
                    }
                } else {
                    assert(call_ensures(visit, (tiles[i],), (nodes@[i].data, rough)));
                }
            }
        }
    }
    let tree = QuadTree::new(nodes);
    proof {
        let n = tree.nodes@.len() as int;
        assert forall|i: int, k: int| 0 <= i < n && 0 <= k < 4 implies #[trigger] child_in_place(
            tiles,
            split,
            i,
            k,
        ) by {
            if split[i] {
                lemma_splits_grow(split, i, n);
                lemma_child_follows(tiles, split, parents, slots, n, i, k);
            }
        }
        assert(is_quad_tree(tree, tiles, split, root_tile(width as int, height as int), visit));
    }
    tree
}

/// In a finished tree, child `k` of a split node `i` is a tile that was
/// split from node `i` as its quarter `k`, and it comes after node `i`.
proof fn lemma_child_follows(
    tiles: Seq<Tile>,
    split: Seq<bool>,
    parents: Seq<int>,
    slots: Seq<int>,
    n: int,
    i: int,
    k: int,
)
    requires
        tiles.len() == n,
        split.len() == n,
        n == first_child(split, n),
        tiles_in_step(tiles, split, parents, slots, n),
        0 <= i < n,
        split[i],
        0 <= k < 4,
        first_child(split, i) + k < n,
    ensures
        i < first_child(split, i) + k,
        tiles[first_child(split, i) + k] == quarter(tiles[i], k),
{
    let g = first_child(split, i) + k;
    lemma_splits_grow(split, 0, i);
    let p = parents[g];
    // two split nodes whose children overlap are one node
    if p < i {
        lemma_splits_grow(split, p, i);
    } else if i < p {
        lemma_splits_grow(split, i, p);
    }
}

/// The part of a tile that lies on a texture: its width and its height,
/// for a tile whose corner is not beyond the texture.
pub open spec fn clipped(texture: Texture<i64>, tile: Tile) -> (int, int) {
    (
        if tile.width <= texture.width - tile.x {
            tile.width as int
        } else {
            texture.width - tile.x
        },
        if tile.height <= texture.height - tile.y {
            tile.height as int
        } else {
            texture.height - tile.y
        },
    )
}

/// Cell `(x, y)` of the texture lies under the tile.
pub open spec fn under(texture: Texture<i64>, tile: Tile, x: int, y: int) -> bool {
    &&& tile.x <= x < tile.x + clipped(texture, tile).0
    &&& tile.y <= y < tile.y + clipped(texture, tile).1
}

/// `lo` and `hi` are the lowest and the highest elevation among the cells
/// of the texture that lie under the tile, or both zero where none does.
pub open spec fn is_extent(texture: Texture<i64>, tile: Tile, lo: i64, hi: i64) -> bool {
    if clipped(texture, tile).0 == 0 || clipped(texture, tile).1 == 0 {
        lo == 0 && hi == 0
    } else {
        &&& forall|x: int, y: int|
            under(texture, tile, x, y) ==> lo <= #[trigger] texture.at(x, y) <= hi
        &&& exists|x: int, y: int| under(texture, tile, x, y) && lo == #[trigger] texture.at(x, y)
        &&& exists|x: int, y: int| under(texture, tile, x, y) && hi == #[trigger] texture.at(x, y)
    }
}

/// Return the min and max elevation values for a section of the texture:
/// the part of the tile that lies on the texture. A tile whose corner lies
/// beyond the texture has none.
pub fn extents(texture: &Texture<i64>, tile: Tile) -> (r: Option<(i64, i64)>)
    requires
        texture.covers(),
    ensures
        r is None <==> tile.x > texture.width || tile.y > texture.height,
        r is Some ==> ({
            let found = r->0;
            is_extent(*texture, tile, found.0, found.1)
        }),
{
    if tile.x > texture.width || tile.y > texture.height {
        return None;
    }
    let room_x = texture.width - tile.x;
    let room_y = texture.height - tile.y;
    let width = if tile.width <= room_x {
        tile.width
    } else {
        room_x
    };
    let height = if tile.height <= room_y {
        tile.height
    } else {
        room_y
    };
    if width == 0 || height == 0 {
        return Some((0, 0));
    }
    proof {
        texture.lemma_index_in_buffer(tile.x as int, tile.y as int);
    }
    let first = texture.lookup1x1(tile.x, tile.y);
    let mut min = first;
    let mut max = first;
    let ghost mut at_min = (tile.x as int, tile.y as int);
    let ghost mut at_max = (tile.x as int, tile.y as int);
    let mut dy: usize = 0;
    while dy < height
        invariant
            dy <= height,
            texture.covers(),
            tile.x + width <= texture.width,
            tile.y + height <= texture.height,
            (width as int, height as int) == clipped(*texture, tile),
            width > 0,
            height > 0,
            under(*texture, tile, at_min.0, at_min.1) && min == texture.at(at_min.0, at_min.1),
            under(*texture, tile, at_max.0, at_max.1) && max == texture.at(at_max.0, at_max.1),
            forall|x: int, y: int|
                under(*texture, tile, x, y) && walked(x, y, tile.x as int, tile.y + dy) ==> min
                    <= #[trigger] texture.at(x, y) <= max,
        decreases height - dy,
    {
        let mut dx: usize = 0;
        while dx < width
            invariant
                dx <= width,
                dy < height,
                texture.covers(),
                tile.x + width <= texture.width,
                tile.y + height <= texture.height,
                (width as int, height as int) == clipped(*texture, tile),
                under(*texture, tile, at_min.0, at_min.1) && min == texture.at(at_min.0, at_min.1),
                under(*texture, tile, at_max.0, at_max.1) && max == texture.at(at_max.0, at_max.1),
                forall|x: int, y: int|
                    under(*texture, tile, x, y) && walked(x, y, tile.x + dx, tile.y + dy) ==> min
                        <= #[trigger] texture.at(x, y) <= max,
            decreases width - dx,
        {
            proof {
                texture.lemma_index_in_buffer(tile.x + dx, tile.y + dy);
            }
            let value = texture.lookup1x1(tile.x + dx, tile.y + dy);
            if value > max {
                max = value;
                proof {
                    at_max = (tile.x + dx, tile.y + dy);
                }
            }
            if value < min {
                min = value;
                proof {
                    at_min = (tile.x + dx, tile.y + dy);
                }
            }
            dx = dx + 1;
        }
        dy = dy + 1;
    }
    Some((min, max))
}

} // verus!
