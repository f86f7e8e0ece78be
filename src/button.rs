use vstd::prelude::*;
use crate::colorize::{
    Bitmap,
    ColorAnalysis,
    ColorAnalyzer,
    Rgb,
    color_tags,
    hex_average_of,
    names_of,
    standard_palette,
};
use crate::text::{chars_of, ends_with_str, has_suffix};

verus! {

broadcast use vstd::string::group_string_axioms;

/// The image crate's decoding error (`image::ImageError`), carried without looking inside.
#[verifier::external_type_specification]
#[verifier::external_body]
pub struct ExImageError(image::ImageError);

/// What decoding `bytes` gives: width, height and the pixels row by row, or nothing when the
/// bytes are not an image in a supported format.
pub uninterp spec fn decoded_image(bytes: Seq<u8>) -> Option<(u32, u32, Seq<Rgb>)>;

/// Relies on `image::load_from_memory` (format guessed from the bytes), then
/// `DynamicImage::to_rgb8` and `ImageBuffer::pixels`, which yields `width * height` pixels.
#[verifier::external_body]
fn decode_rgb(bytes: &[u8]) -> (r: Result<Bitmap, image::ImageError>)
    ensures
        r is Ok <==> decoded_image(bytes@) is Some,
        r matches Ok(bm) ==> decoded_image(bytes@) == Some((bm.width, bm.height, bm.pixels@)),
        r matches Ok(bm) ==> bm.wf(),
{
    let rgb = image::load_from_memory(bytes)?.to_rgb8();
    let (width, height) = rgb.dimensions();
    let pixels = rgb.pixels().map(|p| Rgb::from_channels(p.0)).collect();
    Ok(Bitmap { width, height, pixels })
}

/// The bytes are not an image that can be decoded.
#[derive(Debug, PartialEq, Eq, Structural)]
pub enum DecodeError {
    Undecodable,
}

pub const BUTTON_WIDTH: u32 = 88;

pub const BUTTON_HEIGHT: u32 = 31;

/// The webring button standard: exactly 88 by 31 pixels.
pub open spec fn is_button_size(width: u32, height: u32) -> bool {
    width == BUTTON_WIDTH && height == BUTTON_HEIGHT
}

/// Decodes an image.
pub fn decode_image(bytes: &[u8]) -> (r: Result<Bitmap, DecodeError>)
    ensures
        r is Err <==> decoded_image(bytes@) is None,
        r matches Ok(bm) ==> decoded_image(bytes@) == Some((bm.width, bm.height, bm.pixels@))
            && bm.wf(),
{
    match decode_rgb(bytes) {
        Ok(bm) => Ok(bm),
        Err(_) => Err(DecodeError::Undecodable),
    }
}

/// Whether the bytes decode to an image of exactly 88 by 31 pixels.
pub fn check_button(buffer: &[u8]) -> (r: Result<bool, DecodeError>)
    ensures
        match decoded_image(buffer@) {
            None => r == Err::<bool, DecodeError>(DecodeError::Undecodable),
            Some((w, h, _)) => r == Ok::<bool, DecodeError>(is_button_size(w, h)),
        },
{
    let bm = decode_image(buffer)?;
    Ok(bm.width == BUTTON_WIDTH && bm.height == BUTTON_HEIGHT)
}

/// What classification owes for a decoded image: nothing unless it is button-sized, else the
/// palette analysis.
pub open spec fn classification_ok(width: u32, height: u32, pixels: Seq<Rgb>, r: Option<ColorAnalysis>) -> bool {
    if is_button_size(width, height) {
        r matches Some(a) && names_of(a.tags@) == color_tags(standard_palette(), pixels)
            && a.hex_average@ == hex_average_of(pixels)
    } else {
        r is None
    }
}

/// Accepts a decoded image as a button when it is exactly 88 by 31, and analyses its colours.
pub fn classify_bitmap(image: &Bitmap) -> (r: Option<ColorAnalysis>)
    requires
        image.wf(),
    ensures
        classification_ok(image.width, image.height, image.pixels@, r),
{
    if image.width == BUTTON_WIDTH && image.height == BUTTON_HEIGHT {
        let analyzer = ColorAnalyzer::new();
        assert(image.pixels@.len() == 2728) by (nonlinear_arith)
            requires
                image.pixels@.len() == image.width * image.height,
                image.width == 88,
                image.height == 31,
        ;
        assert(analyzer@.len() == 11);
        Some(analyzer.analyze_image(image))
    } else {
        None
    }
}

/// Decodes the bytes and classifies them; undecodable bytes are no button.
pub fn classify_button(bytes: &[u8]) -> (r: Option<ColorAnalysis>)
    ensures
        match decoded_image(bytes@) {
            None => r is None,
            Some((w, h, px)) => classification_ok(w, h, px, r),
        },
{
    match decode_image(bytes) {
        Ok(bm) => classify_bitmap(&bm),
        Err(_) => None,
    }
}

pub open spec fn image_suffixes() -> Seq<Seq<char>> {
    seq!["jpg"@, "jpeg"@, "png"@, "gif"@, "webp"@]
}

/// A URL that ends in one of the image extensions (without looking for the dot).
pub open spec fn is_image_url_spec(url: Seq<char>) -> bool {
    exists|i: int| 0 <= i < image_suffixes().len() && has_suffix(url, #[trigger] image_suffixes()[i])
}

pub fn is_image_url(url: &str) -> (r: bool)
    ensures
        r == is_image_url_spec(url@),
{
    let u = chars_of(url);
    let r = ends_with_str(&u, "jpg") || ends_with_str(&u, "jpeg") || ends_with_str(&u, "png")
        || ends_with_str(&u, "gif") || ends_with_str(&u, "webp");
    assert(r == is_image_url_spec(url@)) by {
        if is_image_url_spec(url@) {
            let i = choose|i: int| 0 <= i < image_suffixes().len() && has_suffix(url@, #[trigger] image_suffixes()[i]);
            assert(0 <= i < 5);
        }
        if r {
            if has_suffix(url@, "jpg"@) { assert(image_suffixes()[0] == "jpg"@); }
            if has_suffix(url@, "jpeg"@) { assert(image_suffixes()[1] == "jpeg"@); }
            if has_suffix(url@, "png"@) { assert(image_suffixes()[2] == "png"@); }
            if has_suffix(url@, "gif"@) { assert(image_suffixes()[3] == "gif"@); }
            if has_suffix(url@, "webp"@) { assert(image_suffixes()[4] == "webp"@); }
        }
    }
    r
}

} // verus!
