//! A decoded picture: rows of RGB bytes.

use vstd::prelude::*;

verus! {

/// A picture of `width` by `height` pixels, three bytes to the pixel, rows
/// from the top and each row from the left.
pub struct RTImage {
    data: Vec<u8>,
    width: u32,
    height: u32,
    bytes_per_scanline: u32,
}

/// The number of bytes of one pixel.
pub const BYTES_PER_PIXEL: u32 = 3;

impl RTImage {
    #[verifier::type_invariant]
    spec fn fits(self) -> bool {
        self.well_formed()
    }

    /// The bytes of the picture.
    pub closed spec fn bytes(self) -> Seq<u8> {
        self.data@
    }

    /// The number of pixels in a row.
    pub closed spec fn spec_width(&self) -> u32 {
        self.width
    }

    /// The number of rows.
    pub closed spec fn spec_height(&self) -> u32 {
        self.height
    }

    /// The number of bytes of one row.
    pub closed spec fn scanline(self) -> u32 {
        self.bytes_per_scanline
    }

    /// Whether the picture holds three bytes for each of its pixels. Every
    /// picture that this library hands out is so.
    pub open spec fn well_formed(self) -> bool {
        &&& self.scanline() == BYTES_PER_PIXEL * self.width()
        &&& self.bytes().len() == self.scanline() * self.height()
    }

    /// Where the first byte of the pixel in column `i` of row `j` stands.
    pub open spec fn offset(self, i: int, j: int) -> int {
        3 * i + 3 * self.width() * j
    }

    /// The picture of the given size over the given bytes, provided a row
    /// takes no more bytes than a `u32` counts and `data` holds exactly the
    /// bytes of `height` rows.
    pub fn new(width: u32, height: u32, data: Vec<u8>) -> (made: Option<Self>)
        ensures
            made is Some <==> 3 * width <= u32::MAX && data.len() == 3 * width * height,
            made matches Some(image) ==> {
                &&& image.well_formed()
                &&& image.width() == width
                &&& image.height() == height
                &&& image.bytes() == data@
            },
    {
        if width > u32::MAX / BYTES_PER_PIXEL {
            return None;
        }
        let bytes_per_scanline = width * BYTES_PER_PIXEL;
        assert(bytes_per_scanline * height == 3 * width * height) by (nonlinear_arith)
            requires
                bytes_per_scanline == width * 3,
        ;
        assert(bytes_per_scanline * height <= 0xffff_ffff * 0xffff_ffff) by (nonlinear_arith)
            requires
                bytes_per_scanline <= 0xffff_ffff,
                height <= 0xffff_ffff,
        ;
        if data.len() as u128 != bytes_per_scanline as u128 * height as u128 {
            return None;
        }
        Some(RTImage { data, width, height, bytes_per_scanline })
    }

    #[verifier::when_used_as_spec(spec_width)]
    pub fn width(&self) -> (w: u32)
        ensures
            w == self.width(),
    {
        self.width
    }

    #[verifier::when_used_as_spec(spec_height)]
    pub fn height(&self) -> (h: u32)
        ensures
            h == self.height(),
    {
        self.height
    }

    /// The bytes of the picture.
    pub fn data(&self) -> (d: &Vec<u8>)
        ensures
            d@ == self.bytes(),
            self.well_formed(),
    {
        proof {
            use_type_invariant(self);
        }
        &self.data
    }
}

} // verus!
