use peaks::height_map::{BuildError, Cell, HeightMap};
use peaks::ops::{height_map_to_bilinear_patch, maximum_mipmap_bilinear_patch};
use peaks::textures::Texture;

/// The integer that stands for an elevation: it orders as the elevation
/// does, and zero stands for zero.
fn key(v: f64) -> i64 {
    let bits = v.to_bits() as i64;
    bits ^ ((((bits >> 63) as u64) >> 1) as i64)
}

/// The elevation that an integer stands for.
fn elevation(k: i64) -> f64 {
    f64::from_bits((k ^ ((((k >> 63) as u64) >> 1) as i64)) as u64)
}

fn keys(values: &[f64]) -> Vec<i64> {
    values.iter().map(|v| key(*v)).collect()
}

fn elevations(keys: &[i64]) -> Vec<f64> {
    keys.iter().map(|k| elevation(*k)).collect()
}

fn patches(keys: &[[i64; 4]]) -> Vec<[f64; 4]> {
    keys.iter()
        .map(|p| [elevation(p[0]), elevation(p[1]), elevation(p[2]), elevation(p[3])])
        .collect()
}

fn sample_raster() -> Texture<i64> {
    Texture::new(
        5,
        5,
        keys(&[
            1.0, 3.5, 6.0, 8.5, 11.0, 1.5, 4.0, 6.5, 9.0, 11.5, 2.0, 4.5, 7.0, 9.5, 12.0, 2.5, 5.0,
            7.5, 10.0, 12.5, 3.0, 5.5, 8.0, 10.5, 13.0,
        ]),
    )
}

#[test]
fn keys_keep_the_order_of_elevations() {
    let values = [-1.0e9, -2.5, -0.0, 0.0, 1.0e-300, 0.5, 1.0, 13.0, 1.0e12];
    for pair in values.windows(2) {
        assert!(key(pair[0]) <= key(pair[1]));
    }
    for v in values {
        assert_eq!(elevation(key(v)).to_bits(), v.to_bits());
    }
    assert_eq!(key(0.0), 0);
}

#[test]
fn test_maximum_mipmaps_bilinear_patches() {
    let mut bilinear_patches = Texture::blank(4, 4);
    let mut bilinear_patches_mipmap0 = Texture::blank(4, 4);
    let mut bilinear_patches_mipmap1 = Texture::blank(2, 2);
    let mut bilinear_patches_mipmap2 = Texture::blank(1, 1);
    let height_map = sample_raster();

    height_map_to_bilinear_patch(
        &height_map,
        &mut bilinear_patches,
        &mut bilinear_patches_mipmap0,
    );
    maximum_mipmap_bilinear_patch(&bilinear_patches_mipmap0, &mut bilinear_patches_mipmap1);
    maximum_mipmap_bilinear_patch(&bilinear_patches_mipmap1, &mut bilinear_patches_mipmap2);

    assert_eq!(
        patches(&bilinear_patches.buffer),
        [
            // Row 1
            [1.0, 3.5, 4.0, 1.5],
            [3.5, 6.0, 6.5, 4.0],
            [6.0, 8.5, 9.0, 6.5],
            [8.5, 11.0, 11.5, 9.0],
            // Row 2
            [1.5, 4.0, 4.5, 2.0],
            [4.0, 6.5, 7.0, 4.5],
            [6.5, 9.0, 9.5, 7.0],
            [9.0, 11.5, 12.0, 9.5],
            // Row 3
            [2.0, 4.5, 5.0, 2.5],
            [4.5, 7.0, 7.5, 5.0],
            [7.0, 9.5, 10.0, 7.5],
            [9.5, 12.0, 12.5, 10.0],
            // Row 4
            [2.5, 5.0, 5.5, 3.0],
            [5.0, 7.5, 8.0, 5.5],
            [7.5, 10.0, 10.5, 8.0],
            [10.0, 12.5, 13.0, 10.5],
        ]
    );

    assert_eq!(
        elevations(&bilinear_patches_mipmap0.buffer),
        [4.0, 6.5, 9.0, 11.5, 4.5, 7.0, 9.5, 12.0, 5.0, 7.5, 10.0, 12.5, 5.5, 8.0, 10.5, 13.0,]
    );
    assert_eq!(elevations(&bilinear_patches_mipmap1.buffer), [7.0, 12.0, 8.0, 13.0]);
    assert_eq!(elevations(&bilinear_patches_mipmap2.buffer), [13.0]);
}

#[test]
fn mipmap_of_negative_elevations_takes_the_highest() {
    let level = Texture::new(2, 2, vec![-5, -9, -7, -6]);
    let mut top = Texture::blank(1, 1);
    maximum_mipmap_bilinear_patch(&level, &mut top);
    assert_eq!(top.buffer, vec![-5]);
}

#[test]
fn field_of_a_five_by_five_raster() {
    // the raster is padded with zeros to nine by nine samples, which gives
    // a grid of eight by eight patches and four levels
    let field = HeightMap::new(&sample_raster());
    assert_eq!(field.width, 5);
    assert_eq!(field.height, 5);
    assert_eq!(field.bilinear_patches.width, 8);
    assert_eq!(field.bilinear_patches.height, 8);
    let sides: Vec<(usize, usize)> =
        field.maximum_mipmaps.iter().map(|m| (m.width, m.height)).collect();
    assert_eq!(sides, vec![(8, 8), (4, 4), (2, 2), (1, 1)]);
    assert_eq!(elevations(&field.maximum_mipmaps[3].buffer), [13.0]);
    // each quarter of the grid touches the sample at the raster's far corner
    assert_eq!(elevations(&field.maximum_mipmaps[2].buffer), [13.0, 13.0, 13.0, 13.0]);
    assert_eq!(
        elevations(&field.maximum_mipmaps[1].buffer),
        [7.0, 12.0, 12.0, 0.0, 8.0, 13.0, 13.0, 0.0, 8.0, 13.0, 13.0, 0.0, 0.0, 0.0, 0.0, 0.0]
    );
    // the patch at the raster's corner has three corners beyond the raster
    assert_eq!(
        patches(&[field.bilinear_patches.lookup1x1(4, 4)]),
        [[13.0, 0.0, 0.0, 0.0]]
    );
    assert_eq!(patches(&[field.bilinear_patches.lookup1x1(4, 0)]), [[11.0, 0.0, 0.0, 11.5]]);
    assert_eq!(patches(&[field.bilinear_patches.lookup1x1(7, 7)]), [[0.0, 0.0, 0.0, 0.0]]);
    assert_eq!(patches(&[field.bilinear_patches.lookup1x1(0, 0)]), [[1.0, 3.5, 4.0, 1.5]]);
}

#[test]
fn field_of_a_single_sample() {
    let field = HeightMap::new(&Texture::new(1, 1, vec![42]));
    assert_eq!(field.bilinear_patches.width, 1);
    assert_eq!(field.maximum_mipmaps.len(), 1);
    assert_eq!(field.bilinear_patches.buffer, vec![[42, 0, 0, 0]]);
    assert_eq!(field.maximum_mipmaps[0].buffer, vec![42]);
    assert_eq!(field.root(), Some(Cell { level: 0, x: 0, y: 0 }));
}

#[test]
fn field_of_a_raster_of_a_power_of_two() {
    let field = HeightMap::new(&Texture::new(2, 2, vec![1, 2, 3, 4]));
    assert_eq!(field.bilinear_patches.width, 2);
    assert_eq!(
        field.bilinear_patches.buffer,
        vec![[1, 2, 4, 3], [2, 0, 0, 4], [3, 4, 0, 0], [4, 0, 0, 0]]
    );
    assert_eq!(field.maximum_mipmaps[0].buffer, vec![4, 4, 4, 4]);
    assert_eq!(field.maximum_mipmaps[1].buffer, vec![4]);
}

#[test]
fn field_of_a_wide_raster_is_square() {
    let field = HeightMap::new(&Texture::new(3, 1, vec![-1, -2, -3]));
    assert_eq!(field.width, 3);
    assert_eq!(field.height, 1);
    assert_eq!(field.bilinear_patches.width, 4);
    assert_eq!(field.bilinear_patches.height, 4);
    assert_eq!(field.maximum_mipmaps.len(), 3);
    // below sea level the zero padding is the highest corner
    assert_eq!(field.maximum_mipmaps[2].buffer, vec![0]);
    assert_eq!(field.bilinear_patches.lookup1x1(0, 0), [-1, -2, 0, 0]);
}

/// A raster with hills and hollows, from a fixed recurrence.
fn rough_raster(width: usize, height: usize) -> Texture<i64> {
    let mut state: u64 = 0x2545f4914f6cdd1d;
    let mut samples = Vec::new();
    for _ in 0..width * height {
        state ^= state << 13;
        state ^= state >> 7;
        state ^= state << 17;
        samples.push((state % 2001) as i64 - 1000);
    }
    Texture::new(width, height, samples)
}

#[test]
fn every_cell_bounds_the_patches_beneath_it() {
    let field = HeightMap::new(&rough_raster(11, 6));
    let side = field.bilinear_patches.width;
    assert_eq!(side, 16);
    for level in 0..field.maximum_mipmaps.len() {
        let span = field.scale(level);
        assert_eq!(span, 1 << level);
        let cells = side / span;
        assert_eq!(field.maximum_mipmaps[level].width, cells);
        for y in 0..cells {
            for x in 0..cells {
                let bound = field.ceiling(Cell { level, x, y });
                let mut highest = i64::MIN;
                for ly in y * span..(y + 1) * span {
                    for lx in x * span..(x + 1) * span {
                        for corner in field.patch(lx, ly) {
                            assert!(bound >= corner);
                            highest = highest.max(corner);
                        }
                    }
                }
                assert_eq!(bound, highest);
            }
        }
    }
}

#[test]
fn top_cell_is_the_highest_corner_of_the_grid() {
    let raster = rough_raster(7, 9);
    let field = HeightMap::new(&raster);
    let highest = field.bilinear_patches.buffer.iter().flatten().max().unwrap();
    let top = field.root().unwrap();
    assert_eq!(top, Cell { level: 4, x: 0, y: 0 });
    assert_eq!(field.ceiling(top), *highest);
    assert_eq!(*highest, raster.buffer.iter().max().unwrap().clone().max(0));
}

#[test]
fn build_turns_away_what_has_no_field() {
    assert_eq!(HeightMap::build(&Texture::new(0, 0, vec![])).err(), Some(BuildError::Empty));
    assert_eq!(HeightMap::build(&Texture::new(0, 3, vec![])).err(), Some(BuildError::Empty));
    assert_eq!(HeightMap::build(&Texture::new(3, 0, vec![1])).err(), Some(BuildError::Empty));
    assert_eq!(
        HeightMap::build(&Texture::new(2, 2, vec![1, 2, 3])).err(),
        Some(BuildError::Malformed)
    );
    assert_eq!(
        HeightMap::build(&Texture::new(2, 2, vec![1, 2, 3, 4, 5])).err(),
        Some(BuildError::Malformed)
    );
    assert_eq!(
        HeightMap::build(&Texture::new(usize::MAX, 2, vec![1, 2])).err(),
        Some(BuildError::TooLarge)
    );
    assert_eq!(
        HeightMap::build(&Texture::new(1, usize::MAX / 2 + 1, vec![])).err(),
        Some(BuildError::TooLarge)
    );
    // a square of side 65536 has too many cells for a buffer of 32-bit
    // length, one of side 2^32 for any buffer
    let side = 1 << (usize::BITS / 2);
    assert_eq!(
        HeightMap::build(&Texture::new(side, 1, vec![7])).err(),
        Some(BuildError::TooLarge)
    );
    assert_eq!(
        HeightMap::build(&Texture::new(side / 2, 1, vec![7])).err(),
        Some(BuildError::Malformed)
    );
}

#[test]
fn build_gives_the_field_that_new_gives() {
    let raster = rough_raster(5, 3);
    let built = HeightMap::build(&raster).unwrap();
    let field = HeightMap::new(&raster);
    assert_eq!(built.width, field.width);
    assert_eq!(built.height, field.height);
    assert_eq!(built.bilinear_patches.buffer, field.bilinear_patches.buffer);
    assert_eq!(built.maximum_mipmaps.len(), field.maximum_mipmaps.len());
    for (a, b) in built.maximum_mipmaps.iter().zip(field.maximum_mipmaps.iter()) {
        assert_eq!(a.buffer, b.buffer);
    }
}

#[test]
fn field_without_levels_has_no_root() {
    let field = HeightMap {
        width: 0,
        height: 0,
        bilinear_patches: Texture::blank(0, 0),
        maximum_mipmaps: vec![],
    };
    assert_eq!(field.root(), None);
}
