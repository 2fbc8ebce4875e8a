use peaks::export::{outcome, png, EncodeError};
use peaks::math::Color;
use peaks::ops::rgb_bytes;
use peaks::textures::Texture;
use std::io::Cursor;

fn image() -> Texture<Color> {
    Texture::new(
        3,
        2,
        vec![
            Color::new(255, 0, 0),
            Color::new(0, 255, 0),
            Color::new(0, 0, 255),
            Color::new(1, 2, 3),
            Color::new(40, 50, 60),
            Color::new(250, 251, 252),
        ],
    )
}

#[test]
fn channels_follow_cell_by_cell() {
    assert_eq!(
        rgb_bytes(&image()),
        vec![255, 0, 0, 0, 255, 0, 0, 0, 255, 1, 2, 3, 40, 50, 60, 250, 251, 252]
    );
    let none: Texture<Color> = Texture::blank(0, 0);
    assert!(rgb_bytes(&none).is_empty());
}

#[test]
fn png_file_decodes_to_the_image() {
    let file = png(3, 2, &image()).unwrap();
    assert_eq!(file[..8], [137, 80, 78, 71, 13, 10, 26, 10]);
    assert_ne!(file, rgb_bytes(&image()));

    let mut reader = png::Decoder::new(Cursor::new(file)).read_info().unwrap();
    let mut pixels = vec![0; reader.output_buffer_size().unwrap()];
    let info = reader.next_frame(&mut pixels).unwrap();
    assert_eq!((info.width, info.height), (3, 2));
    assert_eq!(info.color_type, png::ColorType::Rgb);
    assert_eq!(info.bit_depth, png::BitDepth::Eight);
    assert_eq!(pixels, rgb_bytes(&image()));
}

#[test]
fn png_of_one_image_is_one_file() {
    assert_eq!(png(3, 2, &image()).unwrap(), png(3, 2, &image()).unwrap());
    // the same cells as two rows of three and as three rows of two
    assert_ne!(png(3, 2, &image()).unwrap(), png(2, 3, &image()).unwrap());
}

#[test]
fn image_without_cells_is_turned_away() {
    let none: Texture<Color> = Texture::blank(0, 0);
    assert_eq!(png(0, 0, &none), Err(EncodeError::Empty));
    assert_eq!(png(0, 2, &image()), Err(EncodeError::Empty));
    assert_eq!(png(3, 0, &image()), Err(EncodeError::Empty));
    assert_eq!(png(0, 4_000_000_000, &none), Err(EncodeError::Empty));
}

#[test]
fn size_that_the_cells_do_not_fill_is_turned_away() {
    assert_eq!(png(3, 3, &image()), Err(EncodeError::Size));
    assert_eq!(png(1, 1, &image()), Err(EncodeError::Size));
    assert_eq!(png(6, 2, &image()), Err(EncodeError::Size));
    let none: Texture<Color> = Texture::blank(0, 0);
    assert_eq!(png(1, 1, &none), Err(EncodeError::Size));
}

#[test]
fn size_beyond_any_buffer_is_turned_away() {
    // sizes whose product, or three times it, no usize holds
    let none: Texture<Color> = Texture::blank(0, 0);
    assert_eq!(png(4_000_000_000, 4_000_000_000, &none), Err(EncodeError::Size));
    assert_eq!(png(u32::MAX, u32::MAX, &image()), Err(EncodeError::Size));
    assert_eq!(png(2_500_000_000, 2_500_000_000, &image()), Err(EncodeError::Size));
}

#[test]
fn size_counts_whatever_the_texture_says_of_itself() {
    // the cells are taken in rows of the width that is asked for
    let cells = Texture::new(1, 1, image().buffer);
    assert_eq!(png(3, 2, &cells), png(3, 2, &image()));
    assert!(png(3, 2, &cells).is_ok());
}

#[test]
fn outcome_hands_on_what_the_encoder_gave() {
    assert_eq!(outcome(Ok(vec![1, 2, 3])), Ok(vec![1, 2, 3]));
    let error = png::Encoder::new(Vec::new(), 0, 1).write_header().err().unwrap();
    let message = format!("{}", error);
    assert!(!message.is_empty());
    assert_eq!(outcome(Err(error)), Err(EncodeError::Refused { reason: message }));
}
