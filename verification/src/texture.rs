//! Colour sources for shading: a constant colour, and an RGBA image, decoded
//! from file bytes, whose texels are looked up by clamped integer coordinates.

use vstd::prelude::*;
use image::GenericImageView;

verus! {

/// A colour as red, green, blue and alpha bytes.
pub type RGBA = [u8; 4];

/// A source that gives the same colour everywhere.
pub struct ConstantSamplerTarget {
    value: RGBA,
}

impl ConstantSamplerTarget {
    /// The colour this source gives.
    pub closed spec fn spec_value(&self) -> RGBA {
        self.value
    }

    /// A source of the colour `value`.
    pub fn new(value: RGBA) -> (r: Self)
        ensures
            r.spec_value() == value,
    {
        Self { value }
    }

    /// The colour this source gives, wherever it is sampled.
    pub fn value(&self) -> (r: RGBA)
        ensures
            r == self.spec_value(),
    {
        self.value
    }
}

/// An image of `width` by `height` texels, four bytes (RGBA) each, row by row
/// from the top.
pub struct ImageTexture {
    data: Vec<u8>,
    width: u32,
    height: u32,
}

/// What decoding `bytes` as an image of the format that the file extension
/// `ext` names gives: its width, its height and its pixels as RGBA bytes, row
/// by row from the top; `None` where the extension names no format or the
/// bytes do not decode.
pub uninterp spec fn decoded_rgba(bytes: Seq<u8>, ext: Seq<char>) -> Option<(u32, u32, Seq<u8>)>;

/// `image::ImageFormat::from_extension` on `ext`, then
/// `image::load_from_memory_with_format` on `bytes`, and the image's
/// `dimensions()` and `to_rgba8().into_raw()`. The pixel bytes of an image
/// buffer are never fewer than width times height times four
/// (`ImageBuffer::new` and `ImageBuffer::from_raw` hold to that, and its
/// fields are private). Whether a decoder may panic on some input is not
/// stated.
#[verifier::external_body]
fn decode_rgba(bytes: &[u8], ext: &str) -> (r: Option<(u32, u32, Vec<u8>)>)
    ensures
        match r {
            Some((w, h, px)) => {
                &&& decoded_rgba(bytes@, ext@) == Some((w, h, px@))
                &&& w * h * 4 <= px@.len()
            },
            None => decoded_rgba(bytes@, ext@) is None,
        },
{
    let format = image::ImageFormat::from_extension(ext)?;
    let img = image::load_from_memory_with_format(bytes, format).ok()?;
    let (w, h) = img.dimensions();
    Some((w, h, img.to_rgba8().into_raw()))
}

/// The texel at column `x`, row `y` of an image of `w` by `h` texels held in
/// `data`, the coordinates clamped to the image.
pub open spec fn texel_at(data: Seq<u8>, w: int, h: int, x: int, y: int) -> RGBA {
    let cx = if x < w - 1 { x } else { w - 1 };
    let cy = if y < h - 1 { y } else { h - 1 };
    let i = (cy * w + cx) * 4;
    [data[i], data[i + 1], data[i + 2], data[i + 3]]
}

impl ImageTexture {
    /// The texel bytes, row by row.
    pub closed spec fn bytes(&self) -> Seq<u8> {
        self.data@
    }

    /// The width in texels.
    pub closed spec fn spec_width(&self) -> u32 {
        self.width
    }

    /// The height in texels.
    pub closed spec fn spec_height(&self) -> u32 {
        self.height
    }

    /// The texel bytes cover the image.
    pub open spec fn wf(&self) -> bool {
        self.spec_width() * self.spec_height() * 4 <= self.bytes().len()
    }

    /// The width in texels.
    pub fn width(&self) -> (r: u32)
        ensures
            r == self.spec_width(),
    {
        self.width
    }

    /// The height in texels.
    pub fn height(&self) -> (r: u32)
        ensures
            r == self.spec_height(),
    {
        self.height
    }

    /// An image from its RGBA bytes, row by row from the top; `None` where the
    /// bytes do not fill `width` by `height` texels exactly.
    pub fn from_rgba(data: Vec<u8>, width: u32, height: u32) -> (r: Option<Self>)
        ensures
            match r {
                Some(t) => {
                    &&& data@.len() == width * height * 4
                    &&& t.wf()
                    &&& t.bytes() == data@
                    &&& t.spec_width() == width
                    &&& t.spec_height() == height
                },
                None => data@.len() != width * height * 4,
            },
    {
        assert((width as u128) * (height as u128) <= 0xffff_ffffu128 * 0xffff_ffffu128) by (nonlinear_arith);
        let expected: u128 = (width as u128) * (height as u128) * 4;
        if (data.len() as u128) != expected {
            return None;
        }
        Some(ImageTexture { data, width, height })
    }

    /// The image that the file bytes `bytes` hold, read in the format that the
    /// file extension `ext` names.
    pub fn decode(bytes: &[u8], ext: &str) -> (r: Result<ImageTexture, String>)
        ensures
            match decoded_rgba(bytes@, ext@) {
                Some((w, h, px)) => {
                    &&& r matches Ok(t)
                    &&& t.spec_width() == w
                    &&& t.spec_height() == h
                    &&& t.bytes() == px
                    &&& t.wf()
                },
                None => r matches Err(e) && e@ == "Unable to decode texture file"@,
            },
    {
        match decode_rgba(bytes, ext) {
            Some((width, height, data)) => Ok(ImageTexture { data, width, height }),
            None => Err("Unable to decode texture file".to_owned()),
        }
    }

    /// The texel at column `x`, row `y`, each clamped to the last one of the
    /// image.
    pub fn texel(&self, x: u32, y: u32) -> (r: RGBA)
        requires
            self.wf(),
            self.spec_width() > 0,
            self.spec_height() > 0,
            (self.spec_width() * self.spec_height() - 1) * 4 <= u32::MAX,
        ensures
            r == texel_at(self.bytes(), self.spec_width() as int, self.spec_height() as int, x as int, y as int),
    {
        let xi = if x < self.width - 1 { x } else { self.width - 1 };
        let yi = if y < self.height - 1 { y } else { self.height - 1 };
        assert(yi * self.width + xi <= self.width * self.height - 1) by (nonlinear_arith)
            requires
                yi < self.height,
                xi < self.width,
        ;
        let i = ((yi * self.width + xi) * 4) as usize;
        [self.data[i], self.data[i + 1], self.data[i + 2], self.data[i + 3]]
    }
}

} // verus!
