//! The parts of textures that are decided on whole numbers: which texel of a
//! picture a lookup lands on, and which of two textures a lattice cell of a
//! checker pattern shows.

use vstd::prelude::*;
use crate::color::Rgb;
use crate::rt_image::RTImage;

verus! {

/// A texture that looks its colours up in a picture.
pub struct ImageTexture {
    image: RTImage,
}

/// The lesser of a coordinate and the last one there is.
pub open spec fn clamped(coordinate: int, count: int) -> int {
    if coordinate > count - 1 {
        count - 1
    } else {
        coordinate
    }
}

impl ImageTexture {
    /// The picture behind the texture.
    pub closed spec fn picture(self) -> RTImage {
        self.image
    }

    /// The texel that a lookup in column `i` and row `j` lands on: the one
    /// there, or the nearest in the picture where `i` or `j` lies beyond it.
    pub open spec fn texel_at(self, i: int, j: int) -> Rgb {
        let image = self.picture();
        let index = image.offset(
            clamped(i, image.width() as int),
            clamped(j, image.height() as int),
        );
        Rgb { r: image.bytes()[index], g: image.bytes()[index + 1], b: image.bytes()[index + 2] }
    }

    pub fn new(image: RTImage) -> (texture: Self)
        ensures
            texture.picture() == image,
    {
        ImageTexture { image }
    }

    pub fn image(&self) -> (image: &RTImage)
        ensures
            *image == self.picture(),
    {
        &self.image
    }

    /// The texel nearest to column `i` of row `j`, rows counted from the top.
    /// A picture without pixels has none.
    pub fn texel(&self, i: usize, j: usize) -> (texel: Option<Rgb>)
        ensures
            texel is Some <==> self.picture().width() > 0 && self.picture().height() > 0,
            texel matches Some(rgb) ==> rgb == self.texel_at(i as int, j as int),
    {
        let width = self.image.width() as usize;
        let height = self.image.height() as usize;
        if width == 0 || height == 0 {
            return None;
        }
        let mut i = i;
        let mut j = j;
        if i > width - 1 {
            i = width - 1
        }
        if j > height - 1 {
            j = height - 1
        }
        let data = self.image.data();
        let row = 3 * width;
        assert(row * j + 3 * i + 2 < data.len() && row * j == 3 * width * j) by (nonlinear_arith)
            requires
                0 <= i < width,
                0 <= j < height,
                row == 3 * width,
                data.len() == row * height,
        ;
        let index = 3 * i + row * j;
        Some(Rgb { r: data[index], g: data[index + 1], b: data[index + 2] })
    }
}

/// A pattern of two textures that alternate from each cell of a lattice to
/// the next.
pub struct CheckerTexture<T> {
    pub even: T,
    pub odd: T,
}

/// Whether a lattice cell shows the even texture: whether its three
/// coordinates add up to an even number.
pub open spec fn is_even_cell(x: int, y: int, z: int) -> bool {
    (x + y + z) % 2 == 0
}

/// Stepping to the next cell along any one axis changes the texture.
pub proof fn lemma_neighbours_differ(x: int, y: int, z: int)
    ensures
        is_even_cell(x + 1, y, z) != is_even_cell(x, y, z),
        is_even_cell(x, y + 1, z) != is_even_cell(x, y, z),
        is_even_cell(x, y, z + 1) != is_even_cell(x, y, z),
{
}

impl<T> CheckerTexture<T> {
    pub fn new(even: T, odd: T) -> (texture: Self)
        ensures
            texture.even == even,
            texture.odd == odd,
    {
        CheckerTexture { even, odd }
    }

    /// The texture that the lattice cell `(x, y, z)` shows.
    pub fn select(&self, x: i64, y: i64, z: i64) -> (texture: &T)
        ensures
            *texture == if is_even_cell(x as int, y as int, z as int) {
                self.even
            } else {
                self.odd
            },
    {
        let low: i64 = (x ^ y ^ z) & 1;
        assert((low == 0) == ((x + y + z) % 2 == 0)) by (bit_vector)
            requires
                low == (x ^ y ^ z) & 1,
        ;
        if low == 0 {
            &self.even
        } else {
            &self.odd
        }
    }
}

} // verus!
