//! Pictures handed to the globe: equirectangular maps, row by row from the
//! north-west corner.
use vstd::prelude::*;

verus! {

/// A one-channel land/sea mask (white is land).
pub struct MaskImage {
    pub width: i32,
    pub height: i32,
    /// One brightness byte per pixel.
    pub data: Vec<u8>,
}

/// An RGB terrain map.
pub struct SurfaceImage {
    pub width: i32,
    pub height: i32,
    /// Three bytes per pixel: red, green, blue.
    pub data: Vec<u8>,
}

/// A picture as eight-bit RGBA, row by row from the top left corner, four
/// bytes a pixel.
pub struct RgbaPicture {
    pub width: u32,
    pub height: u32,
    pub data: Vec<u8>,
}

/// Whether `image::load_from_memory` decodes these bytes (the format is
/// guessed from the bytes themselves).
pub uninterp spec fn decodes(bytes: Seq<u8>) -> bool;

/// The picture `image::load_from_memory` decodes from these bytes, after
/// `DynamicImage::to_rgba8`: width, height and RGBA bytes.
pub uninterp spec fn decoded_rgba(bytes: Seq<u8>) -> (u32, u32, Seq<u8>);

/// `image::load_from_memory` and then `DynamicImage::to_rgba8` on what it
/// decoded, taken apart into size and pixel bytes; the decoded picture
/// itself cannot be named in between. It succeeds exactly when `decodes`
/// says so, gives the picture `decoded_rgba` names, and the RGBA buffer holds
/// four bytes for each pixel. The decoders themselves are not spelled out.
#[verifier::external_body]
fn load_rgba(bytes: &[u8]) -> (r: Option<RgbaPicture>)
    ensures
        r is Some <==> decodes(bytes@),
        r matches Some(p) ==> (p.width, p.height, p.data@) == decoded_rgba(bytes@)
            && p.data@.len() == 4 * p.width * p.height,
{
    match image::load_from_memory(bytes) {
        Ok(img) => {
            let rgba = img.to_rgba8();
            Some(RgbaPicture { width: rgba.width(), height: rgba.height(), data: rgba.into_raw() })
        },
        Err(_) => None,
    }
}

/// Decodes a picture file (PNG and the like) into eight-bit RGBA; `None`
/// when the bytes are no picture the decoder knows.
pub fn decode_rgba(bytes: &[u8]) -> (r: Option<RgbaPicture>)
    ensures
        r is Some <==> decodes(bytes@),
        r matches Some(p) ==> (p.width, p.height, p.data@) == decoded_rgba(bytes@)
            && p.data@.len() == 4 * p.width * p.height,
{
    load_rgba(bytes)
}

} // verus!
