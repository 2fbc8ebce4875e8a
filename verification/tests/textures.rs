use peaks::ops::{blit, blit_region, operator1x1, texels};
use peaks::textures::{Texture, Tile};

#[test]
fn blitting_textures() {
    let mut dest = Texture::new(8, 8, vec![0.0; 8 * 8]);
    let mut src = Texture::new(2, 2, vec![0.0; 2 * 2]);

    src.write1x1(0, 0, 250.0);
    src.write1x1(1, 1, 255.0);
    blit(&src, &mut dest, 6, 6);

    assert_eq!(dest.lookup1x1(0, 0), 0.0);
    assert_eq!(dest.lookup1x1(6, 6), 250.0);
    assert_eq!(dest.lookup1x1(7, 7), 255.0);
}

#[test]
fn iterating_image_tiles() {
    let mut img = Texture::new(64, 64, vec![0.0; 64 * 64 * 3]);
    let tiles = img.tiles(8);
    assert_eq!(tiles.count(), 64);
}

#[test]
fn blank_texture_holds_defaults() {
    let t: Texture<i64> = Texture::blank(3, 2);
    assert_eq!(t.width, 3);
    assert_eq!(t.height, 2);
    assert_eq!(t.buffer, vec![0; 6]);
    let e: Texture<u8> = Texture::blank(0, 5);
    assert!(e.buffer.is_empty());
}

#[test]
fn cells_are_stored_row_by_row() {
    let mut t: Texture<i64> = Texture::blank(3, 2);
    t.write1x1(2, 0, 7);
    t.write1x1(0, 1, 9);
    assert_eq!(t.buffer, vec![0, 0, 7, 9, 0, 0]);
    assert_eq!(t.lookup1x1(2, 0), 7);
    assert_eq!(t.lookup1x1(0, 1), 9);
    assert_eq!(t.lookup1x1(1, 1), 0);
}

#[test]
fn window_is_read_in_raster_order() {
    let t = Texture::new(3, 3, vec![1, 2, 3, 4, 5, 6, 7, 8, 9]);
    assert_eq!(t.lookup2x2(0, 0), [1, 2, 4, 5]);
    assert_eq!(t.lookup2x2(1, 1), [5, 6, 8, 9]);
    assert_eq!(t.lookup2x2(1, 0), [2, 3, 5, 6]);
}

#[test]
fn blit_leaves_the_rest_alone() {
    let mut dest = Texture::new(4, 3, vec![9; 12]);
    let src = Texture::new(2, 2, vec![1, 2, 3, 4]);
    blit(&src, &mut dest, 1, 1);
    assert_eq!(dest.buffer, vec![9, 9, 9, 9, 9, 1, 2, 9, 9, 3, 4, 9]);
    assert_eq!(dest.width, 4);
    assert_eq!(dest.height, 3);
}

#[test]
fn blit_region_copies_the_top_left_part() {
    let mut dest = Texture::new(4, 3, vec![0; 12]);
    let src = Texture::new(3, 3, vec![1, 2, 3, 4, 5, 6, 7, 8, 9]);
    blit_region(&src, &mut dest, 2, 0, 2, 3);
    assert_eq!(dest.buffer, vec![0, 0, 1, 2, 0, 0, 4, 5, 0, 0, 7, 8]);
}

#[test]
fn blit_region_of_no_rows_changes_nothing() {
    let mut dest = Texture::new(2, 2, vec![5, 6, 7, 8]);
    let src = Texture::new(2, 2, vec![1, 2, 3, 4]);
    blit_region(&src, &mut dest, 0, 0, 2, 0);
    assert_eq!(dest.buffer, vec![5, 6, 7, 8]);
}

#[test]
fn overlapping_rows_keep_the_later_row() {
    // rows three wide written into an output two wide: each row runs into
    // the next, which then overwrites the overlap
    let mut dest = Texture::new(2, 3, vec![0; 6]);
    let src = Texture::new(3, 2, vec![1, 2, 3, 4, 5, 6]);
    blit(&src, &mut dest, 0, 0);
    assert_eq!(dest.buffer, vec![1, 2, 4, 5, 6, 0]);
}

#[test]
fn operator_maps_every_cell() {
    let input = Texture::new(3, 2, vec![1u8, 2, 3, 4, 5, 6]);
    let mut output: Texture<i64> = Texture::blank(3, 2);
    operator1x1(&input, &mut output, |v: u8| i64::from(v) * 10);
    assert_eq!(output.buffer, vec![10, 20, 30, 40, 50, 60]);
}

#[test]
fn tile_walks_its_cells_row_by_row() {
    let mut tile = Tile::new(5, 7, 3, 2);
    let mut cells = Vec::new();
    while let Some(cell) = tile.next() {
        cells.push(cell);
    }
    assert_eq!(cells, vec![(5, 7), (6, 7), (7, 7), (5, 8), (6, 8), (7, 8)]);
    assert_eq!(tile.next(), None);
}

#[test]
fn tile_without_rows_has_no_cells() {
    let mut tile = Tile::new(1, 1, 0, 0);
    assert_eq!(tile.next(), None);
    let mut flat = Tile::new(1, 1, 4, 0);
    assert_eq!(flat.next(), None);
}

#[test]
fn tiles_are_clipped_at_the_edges() {
    let mut img: Texture<u8> = Texture::blank(10, 7);
    let mut it = img.tiles(4);
    let mut seen = Vec::new();
    while let Some(t) = it.next() {
        seen.push((t.x, t.y, t.width, t.height));
    }
    assert_eq!(
        seen,
        vec![
            (0, 0, 4, 4),
            (4, 0, 4, 4),
            (8, 0, 2, 4),
            (0, 4, 4, 3),
            (4, 4, 4, 3),
            (8, 4, 2, 3),
        ]
    );
    assert_eq!(it.next(), None);
}

#[test]
fn tile_count_is_rows_times_columns() {
    let mut img: Texture<u8> = Texture::blank(10, 7);
    assert_eq!(img.tiles(4).count(), 6);
    assert_eq!(img.tiles(1).count(), 70);
    assert_eq!(img.tiles(16).count(), 1);
    assert_eq!(img.tiles(7).count(), 2);
    let mut flat: Texture<u8> = Texture::blank(10, 0);
    assert_eq!(flat.tiles(4).count(), 0);
    let mut thin: Texture<u8> = Texture::blank(0, 9);
    assert_eq!(thin.tiles(4).count(), 3);
    // tiles of side zero over an image without rows: none to come
    assert_eq!(flat.tiles(0).count(), 0);
}

#[test]
fn tiles_of_side_zero_are_empty() {
    let mut img: Texture<u8> = Texture::blank(3, 2);
    let mut it = img.tiles(0);
    for _ in 0..3 {
        let t = it.next().unwrap();
        assert_eq!((t.x, t.y, t.width, t.height), (0, 0, 0, 0));
    }
}

#[test]
fn tile_count_falls_by_one_with_each_tile() {
    let mut img: Texture<u8> = Texture::blank(9, 9);
    let mut it = img.tiles(4);
    let mut left = it.count();
    assert_eq!(left, 9);
    while let Some(_) = it.next() {
        left -= 1;
        assert_eq!(it.count(), left);
    }
    assert_eq!(left, 0);
}

#[test]
fn tiles_cover_each_cell_once() {
    let mut img: Texture<u32> = Texture::blank(11, 6);
    let mut it = img.tiles(4);
    while let Some(mut tile) = it.next() {
        while let Some((x, y)) = tile.next() {
            let seen = img.lookup1x1(x, y);
            img.write1x1(x, y, seen + 1);
        }
    }
    assert_eq!(img.buffer, vec![1; 66]);
}

#[test]
fn one_component_fills_all_three() {
    let t = texels(2, 1, 1, &vec![0.25, 0.5]);
    assert_eq!((t.width, t.height), (2, 1));
    assert_eq!(t.buffer, vec![[0.25, 0.25, 0.25], [0.5, 0.5, 0.5]]);
    // the size is taken on trust: each component gives a cell
    let t = texels(1, 1, 1, &vec![1, 2, 3]);
    assert_eq!((t.width, t.height), (1, 1));
    assert_eq!(t.buffer, vec![[1, 1, 1], [2, 2, 2], [3, 3, 3]]);
}

#[test]
fn three_components_make_a_cell() {
    let t = texels(2, 1, 3, &vec![1, 2, 3, 4, 5, 6]);
    assert_eq!((t.width, t.height), (2, 1));
    assert_eq!(t.buffer, vec![[1, 2, 3], [4, 5, 6]]);
    // components beyond the last cell are left aside
    let t = texels(1, 1, 3, &vec![1, 2, 3, 4, 5, 6]);
    assert_eq!(t.buffer, vec![[1, 2, 3]]);
    let t = texels(0, 7, 3, &Vec::<u8>::new());
    assert!(t.buffer.is_empty());
}

#[test]
fn other_numbers_of_components_give_a_blank_cell() {
    for components in [0, 2, 4, 9] {
        let t = texels(5, 5, components, &vec![7, 8, 9, 10]);
        assert_eq!((t.width, t.height), (1, 1));
        assert_eq!(t.buffer, vec![[0, 0, 0]]);
    }
}
