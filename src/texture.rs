//! Image textures: a decoded picture held as rows of 8-bit RGB samples, and
//! the lookup of the texel under integer image coordinates.
use vstd::prelude::*;

verus! {

#[verifier::external_type_specification]
#[verifier::external_body]
pub struct ExImageError(image::ImageError);

/// Relies on image's `load_from_memory` (format guessed from the leading
/// bytes), `DynamicImage::into_rgb8` and `ImageBuffer::into_raw`: the
/// picture's width, height and row-major RGB samples, or the decoder's error.
/// Every constructor of an `ImageBuffer` keeps at least three samples per
/// pixel of an RGB buffer, and `into_raw` hands that buffer out whole.
#[verifier::external_body]
fn decode_rgb8(bytes: &[u8]) -> (r: Result<(u32, u32, Vec<u8>), image::ImageError>)
    ensures
        r matches Ok((w, h, d)) ==> d@.len() >= 3 * w * h,
{
    let rgb = image::load_from_memory(bytes)?.into_rgb8();
    let (width, height) = rgb.dimensions();
    Ok((width, height, rgb.into_raw()))
}

/// Why a picture cannot become a texture.
#[derive(Clone, Copy, Debug, PartialEq, Eq, Structural)]
pub enum TextureError {
    /// The bytes are no picture that the decoder reads.
    Decode,
    /// The picture has no pixel.
    Empty,
    /// Fewer samples than three per pixel.
    Truncated,
}

/// A picture of `width` by `height` pixels, three samples each, row by row
/// from the top.
pub struct ImageTexture {
    pub width: u32,
    pub height: u32,
    pub data: Vec<u8>,
}

pub open spec fn clamp_below(i: u32, n: u32) -> int {
    if i < n { i as int } else { n - 1 }
}

/// Offset of the first sample of the texel under column `i`, row `j`, the
/// coordinates held to the picture.
pub open spec fn texel_offset(width: u32, height: u32, i: u32, j: u32) -> int {
    3 * (width * clamp_below(j, height) + clamp_below(i, width))
}

proof fn lemma_texel_in_picture(width: u32, height: u32, i: int, j: int)
    requires
        0 <= i < width,
        0 <= j < height,
    ensures
        0 <= width * j,
        width * j + i + 1 <= width * height,
        3 * (width * j + i) + 2 < 3 * width * height,
{
    assert(width * j + i + 1 <= width * height && 0 <= width * j) by (nonlinear_arith)
        requires
            0 <= i < width,
            0 <= j < height,
    ;
    assert(3 * (width * j + i) + 2 < 3 * width * height) by (nonlinear_arith)
        requires
            width * j + i + 1 <= width * height,
    ;
}

impl ImageTexture {
    /// At least one pixel, and three samples for each.
    pub open spec fn wf(&self) -> bool {
        &&& self.width > 0
        &&& self.height > 0
        &&& 3 * self.width * self.height <= self.data@.len()
    }

    /// A texture over `data`, the row-major RGB samples of a `width` by
    /// `height` picture.
    pub fn from_rgb8(width: u32, height: u32, data: Vec<u8>) -> (r: Result<ImageTexture, TextureError>)
        ensures
            (width == 0 || height == 0) <==> r == Err::<ImageTexture, TextureError>(TextureError::Empty),
            (width > 0 && height > 0 && data@.len() < 3 * width * height) <==> r == Err::<ImageTexture, TextureError>(
                TextureError::Truncated,
            ),
            r is Ok <==> (width > 0 && height > 0 && data@.len() >= 3 * width * height),
            r matches Ok(t) ==> t.wf() && t.width == width && t.height == height && t.data@ == data@,
    {
        if width == 0 || height == 0 {
            return Err(TextureError::Empty);
        }
        assert((width as u128) * (height as u128) <= 0xffff_ffff_ffff_ffff_u128) by (nonlinear_arith)
            requires
                width <= 0xffff_ffff_u32,
                height <= 0xffff_ffff_u32,
        ;
        let wh: u128 = (width as u128) * (height as u128);
        let need: u128 = 3 * wh;
        assert(need == 3 * width * height) by (nonlinear_arith)
            requires
                wh == width * height,
                need == 3 * wh,
        ;
        if (data.len() as u128) < need {
            return Err(TextureError::Truncated);
        }
        Ok(ImageTexture { width, height, data })
    }

    /// A texture over the picture that `bytes` encode: an error when the
    /// decoder rejects them or the picture has no pixel, else the picture.
    pub fn new(bytes: &[u8]) -> (r: Result<ImageTexture, TextureError>)
        ensures
            r matches Ok(t) ==> t.wf(),
            r matches Err(e) ==> e == TextureError::Decode || e == TextureError::Empty,
    {
        match decode_rgb8(bytes) {
            Ok((width, height, data)) => ImageTexture::from_rgb8(width, height, data),
            Err(_) => Err(TextureError::Decode),
        }
    }

    /// The RGB samples of the texel under column `i`, row `j` (from the
    /// top); coordinates past the picture read its last column or row.
    pub fn texel(&self, i: u32, j: u32) -> (r: (u8, u8, u8))
        requires
            self.wf(),
        ensures
            r == (
                self.data@[texel_offset(self.width, self.height, i, j)],
                self.data@[texel_offset(self.width, self.height, i, j) + 1],
                self.data@[texel_offset(self.width, self.height, i, j) + 2],
            ),
    {
        let ci: u32 = if i < self.width { i } else { self.width - 1 };
        let cj: u32 = if j < self.height { j } else { self.height - 1 };
        let len = self.data.len();
        proof {
            lemma_texel_in_picture(self.width, self.height, ci as int, cj as int);
            assert(3 * (self.width * cj + ci) + 2 < len);
        }
        let at: usize = 3 * ((self.width as usize) * (cj as usize) + ci as usize);
        (self.data[at], self.data[at + 1], self.data[at + 2])
    }
}

} // verus!
