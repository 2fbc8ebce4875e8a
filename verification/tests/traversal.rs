use peaks::height_map::{Cell, HeightMap};
use peaks::textures::Texture;
use peaks::traversal::{
    decide, order_far_first, resolve, Action, BoxProbe, PatchProbe, State, Traversal,
};

fn cell(level: usize, x: usize, y: usize) -> Cell {
    Cell { level, x, y }
}

fn four() -> [Cell; 4] {
    [cell(0, 0, 0), cell(0, 1, 0), cell(0, 0, 1), cell(0, 1, 1)]
}

#[test]
fn farthest_cell_comes_first() {
    let sorted = order_far_first(four(), [10, 40, 20, 30]);
    assert_eq!(sorted, [cell(0, 1, 0), cell(0, 1, 1), cell(0, 0, 1), cell(0, 0, 0)]);
}

#[test]
fn cells_in_order_are_reversed() {
    let sorted = order_far_first(four(), [1, 2, 3, 4]);
    assert_eq!(sorted, [cell(0, 1, 1), cell(0, 0, 1), cell(0, 1, 0), cell(0, 0, 0)]);
}

#[test]
fn cells_at_one_distance_keep_their_order() {
    assert_eq!(order_far_first(four(), [5, 5, 5, 5]), four());
    let sorted = order_far_first(four(), [7, 9, 7, 9]);
    assert_eq!(sorted, [cell(0, 1, 0), cell(0, 1, 1), cell(0, 0, 0), cell(0, 0, 1)]);
    let sorted = order_far_first(four(), [0, u64::MAX, 0, 0]);
    assert_eq!(sorted, [cell(0, 1, 0), cell(0, 0, 0), cell(0, 0, 1), cell(0, 1, 1)]);
}

fn small_field() -> HeightMap {
    HeightMap::new(&Texture::new(3, 3, vec![1, 2, 3, 4, 5, 6, 7, 8, 9]))
}

#[test]
fn walk_starts_at_the_top() {
    let field = small_field();
    let mut walk = Traversal::new(&field);
    assert_eq!(walk.next(), Some(cell(2, 0, 0)));
    assert_eq!(walk.next(), None);
    assert_eq!(walk.next(), None);
}

#[test]
fn walk_over_a_field_without_levels_is_over() {
    let field = HeightMap {
        width: 0,
        height: 0,
        bilinear_patches: Texture::blank(0, 0),
        maximum_mipmaps: vec![],
    };
    let mut walk = Traversal::new(&field);
    assert_eq!(walk.next(), None);
}

#[test]
fn nearest_child_is_examined_first() {
    let field = small_field();
    let mut walk = Traversal::new(&field);
    assert_eq!(walk.next(), Some(cell(2, 0, 0)));
    walk.descend([30, 10, 40, 20]);
    assert_eq!(walk.next(), Some(cell(1, 1, 0)));
    assert_eq!(walk.next(), Some(cell(1, 1, 1)));
    assert_eq!(walk.next(), Some(cell(1, 0, 0)));
    assert_eq!(walk.next(), Some(cell(1, 0, 1)));
    assert_eq!(walk.next(), None);
}

#[test]
fn children_have_doubled_coordinates() {
    let field = small_field();
    let mut walk = Traversal::new(&field);
    assert_eq!(walk.next(), Some(cell(2, 0, 0)));
    walk.descend([4, 1, 3, 2]);
    // north-east is nearest, then south-east
    assert_eq!(walk.next(), Some(cell(1, 1, 0)));
    assert_eq!(walk.next(), Some(cell(1, 1, 1)));
    walk.descend([4, 3, 2, 1]);
    assert_eq!(walk.next(), Some(cell(0, 3, 3)));
    assert_eq!(walk.next(), Some(cell(0, 2, 3)));
    assert_eq!(walk.next(), Some(cell(0, 3, 2)));
    assert_eq!(walk.next(), Some(cell(0, 2, 2)));
    // what was on the stack before stays beneath the children
    assert_eq!(walk.next(), Some(cell(1, 0, 1)));
    assert_eq!(walk.next(), Some(cell(1, 0, 0)));
    assert_eq!(walk.next(), None);
}

#[test]
fn dropped_cell_takes_its_patches_with_it() {
    let field = small_field();
    let mut walk = Traversal::new(&field);
    walk.next();
    walk.descend([1, 2, 3, 4]);
    let mut patches = Vec::new();
    while let Some(c) = walk.next() {
        // the cell in the north-east is dropped, the others are entered
        if c.level == 1 && (c.x, c.y) != (1, 0) {
            walk.descend([0, 0, 0, 0]);
        } else if c.level == 0 {
            patches.push((c.x, c.y));
        }
    }
    patches.sort();
    assert_eq!(
        patches,
        vec![
            (0, 0), (0, 1), (0, 2), (0, 3), (1, 0), (1, 1), (1, 2), (1, 3),
            (2, 2), (2, 3), (3, 2), (3, 3),
        ]
    );
}

#[test]
fn full_walk_hands_out_every_cell_once() {
    let field = small_field();
    let mut walk = Traversal::new(&field);
    let mut seen = Vec::new();
    while let Some(c) = walk.next() {
        assert!(c.level < field.maximum_mipmaps.len());
        assert!(c.x < field.maximum_mipmaps[c.level].width);
        assert!(c.y < field.maximum_mipmaps[c.level].height);
        assert!(!seen.contains(&c));
        seen.push(c);
        if c.level > 0 {
            let d = (c.x * 7 + c.y * 3) as u64;
            walk.descend([d, d + 2, d + 1, d]);
        }
    }
    // one cell at the top, four below it, sixteen patches
    assert_eq!(seen.len(), 21);
}

#[test]
fn cell_whose_box_is_not_entered_is_dropped() {
    for level in [0, 1, 7] {
        assert_eq!(decide(cell(level, 3, 2), BoxProbe::Missed), Action::Drop);
        assert_eq!(decide(cell(level, 3, 2), BoxProbe::Behind), Action::Drop);
    }
}

#[test]
fn cell_at_level_zero_is_resolved() {
    assert_eq!(decide(cell(0, 0, 0), BoxProbe::Entered), Action::Resolve);
    assert_eq!(decide(cell(0, 5, 9), BoxProbe::Entered), Action::Resolve);
}

#[test]
fn cell_above_level_zero_is_descended_from() {
    assert_eq!(decide(cell(1, 0, 0), BoxProbe::Entered), Action::Descend);
    assert_eq!(decide(cell(12, 1, 1), BoxProbe::Entered), Action::Descend);
}

#[test]
fn only_a_hit_within_the_field_ends_the_walk() {
    assert_eq!(resolve(PatchProbe::Inside), State::LeafResolved);
    assert_eq!(resolve(PatchProbe::Outside), State::Traversing);
    assert_eq!(resolve(PatchProbe::Missed), State::Traversing);
}

#[test]
fn walk_follows_its_decisions_to_the_end() {
    // every box is entered and no patch is hit: each cell is handed out
    let field = small_field();
    let mut walk = Traversal::new(&field);
    let mut resolved = 0;
    let mut descended = 0;
    while let Some(c) = walk.next() {
        match decide(c, BoxProbe::Entered) {
            Action::Descend => {
                walk.descend([0, 0, 0, 0]);
                descended += 1;
            }
            Action::Resolve => {
                assert_eq!(resolve(PatchProbe::Missed), State::Traversing);
                resolved += 1;
            }
            Action::Drop => unreachable!(),
        }
    }
    assert_eq!((descended, resolved), (5, 16));
}
