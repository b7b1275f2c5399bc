//! From a decoded picture to a cover.
//!
//! The picture comes decoded: the decoders can panic on files that nothing
//! short of decoding them tells apart, so no decoder is called from here.

use crate::album::CoverImage;
use vstd::prelude::*;

verus! {

/// A decoded picture, as `image` holds it. Nothing of it is visible here.
#[verifier::external_type_specification]
#[verifier::external_body]
pub struct ExDynamicImage(image::DynamicImage);

/// Why `image` could not encode a picture. Nothing of it is visible here.
#[verifier::external_type_specification]
#[verifier::external_body]
pub struct ExImageError(image::ImageError);

/// The width and the height of `picture`, in pixels.
pub uninterp spec fn size_of(picture: image::DynamicImage) -> (u32, u32);

/// The bytes of the JPEG file that `picture` is written as at `quality`:
/// `None` where it cannot be written as one.
pub uninterp spec fn jpeg_of(picture: image::DynamicImage, quality: u8) -> Option<Seq<u8>>;

/// The width and the height of `picture`, as `dimensions` of
/// `image::GenericImageView` gives them. The contract claims only that the
/// picture decides them.
#[verifier::external_body]
fn dimensions_of(picture: &image::DynamicImage) -> (size: (u32, u32))
    ensures
        size == size_of(*picture),
{
    image::GenericImageView::dimensions(picture)
}

/// Writes `picture` as a JPEG file of the given quality into memory, with
/// `image::DynamicImage::write_to`, and hands the bytes written back. The
/// contract claims only that the picture and the quality decide whether this
/// succeeds and which bytes it gives.
#[verifier::external_body]
fn encode_jpeg(picture: &image::DynamicImage, quality: u8) -> (bytes: Result<
    Vec<u8>,
    image::ImageError,
>)
    ensures
        match bytes {
            Ok(b) => jpeg_of(*picture, quality) == Some(b@),
            Err(_) => jpeg_of(*picture, quality) is None,
        },
{
    let mut out = std::io::Cursor::new(Vec::new());
    picture.write_to(&mut out, image::ImageOutputFormat::Jpeg(quality))?;
    Ok(out.into_inner())
}

/// The quality at which the picture of a cover is written.
pub const JPEG_QUALITY: u8 = 90;

/// The cover with the given size and picture.
pub fn cover_of(width: u32, height: u32, jpeg: Option<Vec<u8>>) -> (cover: CoverImage)
    ensures
        cover.width == width,
        cover.height == height,
        cover.jpeg == jpeg,
{
    CoverImage { width, height, jpeg }
}

/// The cover that shows `picture`: it has the size of the picture, and holds
/// the picture written as a JPEG file at `JPEG_QUALITY`, or nothing where the
/// picture cannot be written as one.
pub fn cover_from(picture: &image::DynamicImage) -> (cover: CoverImage)
    ensures
        (cover.width, cover.height) == size_of(*picture),
        cover@.jpeg == jpeg_of(*picture, JPEG_QUALITY),
{
    let (width, height) = dimensions_of(picture);
    let jpeg = match encode_jpeg(picture, JPEG_QUALITY) {
        Ok(written) => Some(written),
        Err(_) => None,
    };
    cover_of(width, height, jpeg)
}

} // verus!
