//! Decoding an encoded texture image into tightly packed RGBA pixel bytes.

use vstd::prelude::*;

verus! {

/// A decoded image: `width * height` pixels of four bytes each, rows packed
/// top to bottom.
pub struct Image {
    pub width: u32,
    pub height: u32,
    pub data: Vec<u8>,
}

/// The byte stream was not a decodable image.
#[derive(Clone, Copy, Debug, PartialEq, Eq, Structural)]
pub struct DecodeError;

/// What decoding a byte stream yields once converted to 8-bit RGBA: the
/// dimensions and the pixel bytes, or nothing when the stream is not a
/// decodable image. The result is a function of the bytes alone.
pub uninterp spec fn decoded_rgba(bytes: Seq<u8>) -> Option<(u32, u32, Seq<u8>)>;

/// The declared error type of the image decoder.
#[verifier::external_type_specification]
#[verifier::external_body]
pub struct ExImageError(image::ImageError);

/// Relies on image::load_from_memory, DynamicImage::to_rgba8 and
/// GenericImageView::dimensions: decoding reads nothing but the bytes, the
/// RGBA conversion keeps the dimensions, and the converted buffer holds
/// exactly four bytes for each of its `width * height` pixels.
#[verifier::external_body]
fn decode_rgba(bytes: &[u8]) -> (r: Result<(u32, u32, Vec<u8>), image::ImageError>)
    ensures
        r is Ok <==> decoded_rgba(bytes@) is Some,
        r matches Ok(t) ==> decoded_rgba(bytes@) == Some((t.0, t.1, t.2@)) && t.2@.len() == 4 * (
        t.0 as int) * (t.1 as int),
{
    let img = image::load_from_memory(bytes)?;
    let rgba = img.to_rgba8();
    let dimensions = image::GenericImageView::dimensions(&img);
    Ok((dimensions.0, dimensions.1, rgba.into_vec()))
}

impl Image {
    /// Four bytes for every pixel.
    pub open spec fn wf(self) -> bool {
        self.data@.len() == 4 * (self.width as int) * (self.height as int)
    }

    /// Decodes an encoded image (the texture atlas is a PNG) into its RGBA
    /// pixels; fails exactly when the bytes are not a decodable image.
    pub fn from_bytes(bytes: &[u8]) -> (r: Result<Image, DecodeError>)
        ensures
            r is Ok <==> decoded_rgba(bytes@) is Some,
            r matches Ok(img) ==> decoded_rgba(bytes@) == Some(
                (img.width, img.height, img.data@),
            ) && img.wf(),
    {
        match decode_rgba(bytes) {
            Ok((width, height, data)) => Ok(Image { width, height, data }),
            Err(_) => Err(DecodeError),
        }
    }
}

} // verus!
