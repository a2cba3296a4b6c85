//! Decoded RGB bitmaps, as used by image textures.

use vstd::prelude::*;
use std::sync::Arc;

verus! {

/// Width and height of the image that the bytes of an encoded image file
/// (PNG, JPEG, ...) describe; `None` where the bytes are not an image that can
/// be decoded. The decoded samples themselves get no name: a decoder may round
/// differently from one processor to another.
pub uninterp spec fn rgb8_size(bytes: Seq<u8>) -> Option<(u32, u32)>;

/// Relies on `image::load_from_memory` (format guessed from the leading bytes),
/// `DynamicImage::to_rgb8` and `ImageBuffer::into_raw`: whether the bytes decode,
/// and to which dimensions; the raw buffer of an RGB image holds exactly three
/// samples per pixel, row by row.
#[verifier::external_body]
fn decode_rgb8(bytes: &[u8]) -> (r: Result<(u32, u32, Vec<u8>), String>)
    ensures
        match r {
            Ok((w, h, data)) => {
                &&& rgb8_size(bytes@) == Some((w, h))
                &&& data@.len() == 3 * w * h
            },
            Err(_) => rgb8_size(bytes@) is None,
        },
{
    match ::image::load_from_memory(bytes) {
        Ok(decoded) => {
            let rgb = decoded.to_rgb8();
            let (w, h) = rgb.dimensions();
            Ok((w, h, rgb.into_raw()))
        },
        Err(e) => Err(e.to_string()),
    }
}

/// Why an image texture could not be built.
#[derive(Debug)]
pub enum TextureError {
    /// The bytes are not an image that can be decoded; holds the decoder's message.
    Undecodable(String),
}

/// An RGB bitmap with 8 bits per sample, stored row by row from the top.
#[derive(Debug)]
pub struct Image {
    width: u32,
    height: u32,
    data: Vec<u8>,
}

/// The sample of channel `c` (0 red, 1 green, 2 blue) of pixel `(x, y)`.
pub open spec fn sample_index(width: nat, x: nat, y: nat, c: nat) -> nat {
    3 * (y * width + x) + c
}

/// `i`, or the last index below `limit` where `i` lies beyond it.
pub open spec fn clamp_index(i: nat, limit: nat) -> nat {
    if i < limit { i } else { (limit - 1) as nat }
}

proof fn lemma_sample_in_bounds(w: nat, h: nat, x: nat, y: nat)
    requires
        x < w,
        y < h,
    ensures
        sample_index(w, x, y, 2) < 3 * w * h,
        y * w + x < w * h,
        w * h <= 3 * w * h,
{
    assert(y * w + x < w * h) by (nonlinear_arith)
        requires
            x < w,
            y < h,
    ;
    assert(3 * w * h == 3 * (w * h)) by (nonlinear_arith);
}

impl Image {
    /// Width in pixels.
    pub closed spec fn spec_width(&self) -> nat {
        self.width as nat
    }

    /// Height in pixels.
    pub closed spec fn spec_height(&self) -> nat {
        self.height as nat
    }

    /// The samples, three per pixel, row by row.
    pub closed spec fn samples(&self) -> Seq<u8> {
        self.data@
    }

    pub open spec fn wf(&self) -> bool {
        &&& self.samples().len() == 3 * self.spec_width() * self.spec_height()
        &&& self.spec_width() <= u32::MAX
        &&& self.spec_height() <= u32::MAX
    }

    /// The colour of pixel `(x, y)`, for `x` below the width and `y` below the height.
    pub open spec fn texel(&self, x: nat, y: nat) -> (u8, u8, u8) {
        let w = self.spec_width();
        (
            self.samples()[sample_index(w, x, y, 0) as int],
            self.samples()[sample_index(w, x, y, 1) as int],
            self.samples()[sample_index(w, x, y, 2) as int],
        )
    }

    /// Decodes an encoded image file's bytes into an RGB bitmap.
    pub fn new(bytes: &[u8]) -> (r: Result<Image, TextureError>)
        ensures
            match rgb8_size(bytes@) {
                Some((w, h)) => {
                    &&& r is Ok
                    &&& r->Ok_0.wf()
                    &&& r->Ok_0.spec_width() == w
                    &&& r->Ok_0.spec_height() == h
                },
                None => r is Err,
            },
    {
        match decode_rgb8(bytes) {
            Ok((width, height, data)) => Ok(Image { width, height, data }),
            Err(reason) => Err(TextureError::Undecodable(reason)),
        }
    }

    /// As `new`, shared.
    pub fn new_arc(bytes: &[u8]) -> (r: Arc<Result<Image, TextureError>>)
        ensures
            match rgb8_size(bytes@) {
                Some((w, h)) => {
                    &&& *r is Ok
                    &&& r->Ok_0.wf()
                    &&& r->Ok_0.spec_width() == w
                    &&& r->Ok_0.spec_height() == h
                },
                None => *r is Err,
            },
    {
        Arc::new(Image::new(bytes))
    }

    pub fn width(&self) -> (r: u32)
        ensures
            r == self.spec_width(),
    {
        self.width
    }

    pub fn height(&self) -> (r: u32)
        ensures
            r == self.spec_height(),
    {
        self.height
    }

    /// The colour of pixel `(i, j)`, where an index past the last column or
    /// row stands for that last column or row; `None` for an image without pixels.
    pub fn pixel(&self, i: u32, j: u32) -> (r: Option<(u8, u8, u8)>)
        requires
            self.wf(),
        ensures
            self.spec_width() == 0 || self.spec_height() == 0 ==> r is None,
            self.spec_width() > 0 && self.spec_height() > 0 ==> r == Some(
                self.texel(
                    clamp_index(i as nat, self.spec_width()),
                    clamp_index(j as nat, self.spec_height()),
                ),
            ),
    {
        if self.width == 0 || self.height == 0 {
            return None;
        }
        let x: u32 = if i < self.width { i } else { self.width - 1 };
        let y: u32 = if j < self.height { j } else { self.height - 1 };
        proof {
            lemma_sample_in_bounds(self.width as nat, self.height as nat, x as nat, y as nat);
        }
        let n: usize = self.data.len();
        assert(n == 3 * self.spec_width() * self.spec_height());
        let base: usize = 3 * (y as usize * self.width as usize + x as usize);
        Some((self.data[base], self.data[base + 1], self.data[base + 2]))
    }
}

} // verus!
