//! PNG textures, through `png`.

use vstd::prelude::*;

verus! {

/// The file that the encoder of `png` makes of RGBA pixels of eight bits, or its error.
pub uninterp spec fn png_of(width: u32, height: u32, pixels: Seq<u8>) -> Result<
    Seq<u8>,
    Seq<char>,
>;

pub open spec fn big_endian(n: u32) -> Seq<u8> {
    seq![
        (n / 0x100_0000) as u8,
        (n / 0x1_0000 % 0x100) as u8,
        (n / 0x100 % 0x100) as u8,
        (n % 0x100) as u8,
    ]
}

/// The signature of a PNG file and its header chunk up to the check sum: the size of
/// the image, then eight bits of RGBA, not interlaced.
pub open spec fn png_head(width: u32, height: u32) -> Seq<u8> {
    seq![137u8, 80, 78, 71, 13, 10, 26, 10, 0, 0, 0, 13, 73, 72, 68, 82] + big_endian(width)
        + big_endian(height) + seq![8u8, 6, 0, 0, 0]
}

/// Calls `png::Encoder::new`, `set_color`, `set_depth` and `write_header`, then
/// `png::Writer::write_image_data` and `finish`. The claims are that the outcome depends
/// on the arguments alone, that an image without width or height is refused, and that a
/// file starts with the signature and the header of its size. The compressed pixels are
/// not stated, nor that an image is never refused otherwise.
#[verifier::external_body]
pub(crate) fn encode_png(width: u32, height: u32, pixels: &[u8]) -> (r: Result<Vec<u8>, String>)
    requires
        pixels@.len() == 4 * (width * height),
    ensures
        match r {
            Ok(file) => png_of(width, height, pixels@) == Ok::<Seq<u8>, Seq<char>>(file@),
            Err(e) => png_of(width, height, pixels@) == Err::<Seq<u8>, Seq<char>>(e@),
        },
        width == 0 || height == 0 ==> r is Err,
        r matches Ok(file) ==> file@.len() >= 29 && file@.take(29) == png_head(width, height),
{
    let mut file = Vec::new();
    let mut encoder = png::Encoder::new(&mut file, width, height);
    encoder.set_color(png::ColorType::Rgba);
    encoder.set_depth(png::BitDepth::Eight);
    let mut writer = encoder.write_header().map_err(|e| e.to_string())?;
    writer.write_image_data(pixels).map_err(|e| e.to_string())?;
    writer.finish().map_err(|e| e.to_string())?;
    Ok(file)
}

} // verus!
