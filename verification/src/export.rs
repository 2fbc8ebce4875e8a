//! Images as the bytes of a PNG file.

use crate::math::Color;
use crate::ops::{channels, rgb_bytes};
use crate::textures::Texture;
use vstd::prelude::*;

verus! {

/// The error of the PNG encoder.
#[verifier::external_type_specification]
#[verifier::external_body]
pub struct ExEncodingError(png::EncodingError);

/// Why an image was not encoded.
#[derive(Clone, Debug, PartialEq, Eq)]
pub enum EncodeError {
    /// The image is to have no cells: its width or its height is zero.
    Empty,
    /// The texture does not hold one cell for each cell of the image, or
    /// holds more channels than the encoder can count.
    Size,
    /// The encoder turned the image down, for the reason it gave.
    Refused { reason: String },
}

/// An image of the given size can be handed to the encoder with `cells`
/// cells: neither side is zero, the cells are as many as the size says, and
/// the length of a row of channels with a byte before it is a `usize`.
pub open spec fn encodable(width: u32, height: u32, cells: int) -> bool {
    &&& width > 0
    &&& height > 0
    &&& cells == width * height
    &&& 3 * cells < usize::MAX
}

/// What `png::Encoder` makes of `rgb`, taken as the rows of an image of the
/// given size in eight-bit RGB: the bytes of the PNG file, or none where the
/// encoder turns the image down. The bytes are those of the encoder and of
/// its compressor at the versions that this crate is built with; another
/// release of either may pack the same image into other bytes.
pub uninterp spec fn png_file(width: u32, height: u32, rgb: Seq<u8>) -> Option<Seq<u8>>;

/// Runs `png::Encoder` with colour type RGB and a depth of eight bits over
/// an image held in memory, and writes into memory: `Encoder::new`,
/// `write_header`, `write_image_data` and `finish`.
///
/// The encoder is called only with a size that is not zero and with as
/// many bytes as the size takes, three to a cell: on other inputs it
/// multiplies the length of a row by the height without a check. The
/// contract claims that the outcome depends on the size and the bytes
/// alone, and gives it its name. It does not claim that the encoder takes
/// every image that it is called with.
#[verifier::external_body]
fn encode_rgb(width: u32, height: u32, rgb: &Vec<u8>) -> (r: Result<Vec<u8>, png::EncodingError>)
    requires
        width > 0,
        height > 0,
        rgb@.len() == 3 * width * height,
        rgb@.len() < usize::MAX,
    ensures
        match r {
            Ok(file) => png_file(width, height, rgb@) == Some(file@),
            Err(_) => png_file(width, height, rgb@) is None,
        },
{
    let mut file: Vec<u8> = Vec::new();
    let mut encoder = png::Encoder::new(&mut file, width, height);
    encoder.set_color(png::ColorType::Rgb);
    encoder.set_depth(png::BitDepth::Eight);
    let mut writer = encoder.write_header()?;
    writer.write_image_data(rgb)?;
    writer.finish()?;
    Ok(file)
}

/// The message that `png::EncodingError` displays. Nothing is claimed of
/// its text.
#[verifier::external_body]
fn reason_of(error: &png::EncodingError) -> (reason: String) {
    format!("{}", error)
}

/// What the library hands on of the encoder's outcome: the file as it is,
/// or the encoder's error as its message.
pub fn outcome(encoded: Result<Vec<u8>, png::EncodingError>) -> (r: Result<Vec<u8>, EncodeError>)
    ensures
        encoded is Ok ==> r == Ok::<Vec<u8>, EncodeError>(encoded->Ok_0),
        encoded is Err ==> r is Err && r->Err_0 is Refused,
{
    match encoded {
        Ok(file) => Ok(file),
        Err(error) => Err(EncodeError::Refused { reason: reason_of(&error) }),
    }
}

/// The PNG file of an image of the given size whose rows are the cells of
/// `texture`, in eight-bit RGB.
///
/// An image without cells and a texture that does not fill the image are
/// turned away before the encoder is called; every other image goes to the
/// encoder, and what comes back is what the encoder made of it.
pub fn png(width: u32, height: u32, texture: &Texture<Color>) -> (r: Result<Vec<u8>, EncodeError>)
    ensures
        width == 0 || height == 0 <==> r == Err::<Vec<u8>, EncodeError>(EncodeError::Empty),
        width > 0 && height > 0 && !encodable(width, height, texture.buffer@.len() as int) <==> r
            == Err::<Vec<u8>, EncodeError>(EncodeError::Size),
        encodable(width, height, texture.buffer@.len() as int) ==> match png_file(
            width,
            height,
            channels(texture.buffer@),
        ) {
            Some(file) => r is Ok && r->Ok_0@ == file,
            None => r is Err && r->Err_0 is Refused,
        },
{
    if width == 0 || height == 0 {
        return Err(EncodeError::Empty);
    }
    let cells = match (width as usize).checked_mul(height as usize) {
        Some(cells) => cells,
        None => {
            return Err(EncodeError::Size);
        },
    };
    if texture.buffer.len() != cells {
        return Err(EncodeError::Size);
    }
    let bytes = rgb_bytes(texture);
    if bytes.len() == usize::MAX {
        return Err(EncodeError::Size);
    }
    assert(3 * (width * height) == 3 * width * height) by (nonlinear_arith);
    outcome(encode_rgb(width, height, &bytes))
}

} // verus!
