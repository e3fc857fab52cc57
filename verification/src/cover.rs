//! Cover art: the embedded picture of an audio file, decoded to pixels.

use vstd::prelude::*;

verus! {

/// A decoded picture: four bytes a pixel (red, green, blue, alpha), row by row.
pub struct Cover {
    pub width: u32,
    pub height: u32,
    pub pixels: Vec<u8>,
}

/// The width, the height and the pixel bytes of a picture, if there is one.
pub open spec fn cover_data(cover: Option<Cover>) -> Option<(u32, u32, Seq<u8>)> {
    match cover {
        Some(c) => Some((c.width, c.height, c.pixels@)),
        None => None,
    }
}

/// `outcome` is one that `image::load_from_memory` and `DynamicImage::into_rgba8` can have on
/// `data`: a picture, or `None` for data that they reject.
///
/// A relation, not a function: the decoders choose their arithmetic by the processor, so the last
/// bits of a pixel may differ between machines.
pub uninterp spec fn may_decode_as(
    data: Seq<u8>,
    outcome: Option<(u32, u32, Seq<u8>)>,
) -> bool;

/// Calls `image::load_from_memory` on `data` and `DynamicImage::into_rgba8` on its result.
///
/// Believed of them: what comes out is an outcome of decoding `data`, and a picture has its four
/// bytes for each pixel. Which pixels the picture has is not spelled out.
#[verifier::external_body]
fn decode_rgba(data: &Vec<u8>) -> (r: Option<Cover>)
    ensures
        may_decode_as(data@, cover_data(r)),
        r matches Some(c) ==> c.pixels@.len() >= 4 * (c.width * c.height),
{
    match image::load_from_memory(data) {
        Ok(img) => {
            let rgba = img.into_rgba8();
            let (width, height) = rgba.dimensions();
            Some(Cover { width, height, pixels: rgba.into_raw() })
        },
        Err(_) => None,
    }
}

/// Decodes the cover of a file: the first of its embedded pictures. A file without pictures has
/// none, and nor has one whose first picture cannot be decoded.
pub fn load_cover(pictures: &Vec<Vec<u8>>) -> (r: Option<Cover>)
    ensures
        pictures@.len() == 0 ==> r is None,
        pictures@.len() > 0 ==> may_decode_as(pictures@[0]@, cover_data(r)),
        r matches Some(c) ==> c.pixels@.len() >= 4 * (c.width * c.height),
{
    if pictures.len() == 0 {
        None
    } else {
        decode_rgba(&pictures[0])
    }
}

} // verus!
