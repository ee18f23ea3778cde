//! Decoding of PNG icons into RGBA pixel data.
use vstd::prelude::*;

verus! {

/// An RGBA image: four bytes per pixel, row after row.
pub struct Png {
    pub data: Vec<u8>,
    pub width: u32,
    pub height: u32,
}

/// Why an image was refused.
#[derive(Clone, Copy, Debug, PartialEq, Eq, Structural)]
pub enum ImageError {
    /// The bytes are no PNG image, or it has no pixels.
    PngDecode,
    /// The decoded image is not RGBA.
    PngFormat,
}

/// The first frame that the PNG decoder makes of `b` (8-bit channels,
/// palettes expanded): its pixel bytes, width, height and whether it is
/// RGBA; `None` when decoding fails.
pub uninterp spec fn png_frame(b: Seq<u8>) -> Option<(Seq<u8>, u32, u32, bool)>;

/// Relies on `png::Decoder::new`, `set_transformations`, `read_info`,
/// `Reader::output_buffer_size` and `Reader::next_frame`: decodes the first
/// frame of `bytes`, with 16-bit channels stripped and palettes expanded.
#[verifier::external_body]
fn read_png_frame(bytes: &[u8]) -> (r: Option<(Vec<u8>, u32, u32, bool)>)
    ensures
        r is None ==> png_frame(bytes@) is None,
        r matches Some((d, w, h, rgba)) ==> png_frame(bytes@) == Some((d@, w, h, rgba)),
{
    let mut decoder = png::Decoder::new(bytes);
    decoder.set_transformations(png::Transformations::STRIP_16 | png::Transformations::EXPAND);
    let mut reader = decoder.read_info().ok()?;
    let mut data = vec![0; reader.output_buffer_size()];
    let info = reader.next_frame(&mut data).ok()?;
    Some((data, info.width, info.height, info.color_type == png::ColorType::Rgba))
}

/// The error a decoded frame is refused with, if any.
pub open spec fn frame_error(width: u32, height: u32, rgba: bool) -> Option<ImageError> {
    if width == 0 || height == 0 {
        Some(ImageError::PngDecode)
    } else if !rgba {
        Some(ImageError::PngFormat)
    } else {
        None
    }
}

/// Accepts a decoded frame as an image when it has pixels and is RGBA.
pub fn png_from_frame(data: Vec<u8>, width: u32, height: u32, rgba: bool) -> (r: Result<Png, ImageError>)
    ensures
        r is Ok <==> frame_error(width, height, rgba) is None,
        r matches Err(e) ==> frame_error(width, height, rgba) == Some(e),
        r matches Ok(p) ==> p.data@ == data@ && p.width == width && p.height == height,
{
    if width == 0 || height == 0 {
        return Err(ImageError::PngDecode);
    }
    if !rgba {
        return Err(ImageError::PngFormat);
    }
    Ok(Png { data, width, height })
}

/// Decodes a PNG image held in memory. Fails with `PngDecode` when the
/// decoder fails or the image is empty, and with `PngFormat` when it is not
/// RGBA.
pub fn decode_png_bytes(bytes: &[u8]) -> (r: Result<Png, ImageError>)
    ensures
        png_frame(bytes@) is None ==> r == Err::<Png, ImageError>(ImageError::PngDecode),
        png_frame(bytes@) matches Some((d, w, h, rgba)) ==> {
            &&& (r is Ok <==> frame_error(w, h, rgba) is None)
            &&& r matches Err(e) ==> frame_error(w, h, rgba) == Some(e)
            &&& r matches Ok(p) ==> p.data@ == d && p.width == w && p.height == h
        },
{
    match read_png_frame(bytes) {
        None => Err(ImageError::PngDecode),
        Some((data, width, height, rgba)) => png_from_frame(data, width, height, rgba),
    }
}

} // verus!
