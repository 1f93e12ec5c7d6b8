use vstd::prelude::*;
use crate::color::Color;
use crate::tiles::ImageLevelIter;

verus! {

/// Edge length of the tiles of the first, coarsest refinement level.
pub const FIRST_TILE_SIZE: usize = 64;

/// Offset of the first byte of pixel `(x, y)` in a row-major RGBA buffer.
pub open spec fn pixel_offset(width: int, x: int, y: int) -> int {
    (y * width + x) * 4
}

/// The bytes of `buf` after pixel `(x, y)` has been set to `c`.
pub open spec fn with_pixel(buf: Seq<u8>, width: int, x: int, y: int, c: Color) -> Seq<u8> {
    let i = pixel_offset(width, x, y);
    buf.update(i, c.r).update(i + 1, c.g).update(i + 2, c.b).update(i + 3, c.a)
}

/// Whether pixel number `p` (row-major) belongs to a `width` x `height` frame
/// and lies whole inside a buffer of `len` bytes.
pub open spec fn pixel_in_buffer(width: int, height: int, len: int, p: int) -> bool {
    0 <= p < width * height && p * 4 + 3 < len
}

/// The value of byte `i` of a buffer of `old` bytes after every pixel of a
/// `width` x `height` frame that fits whole in it has been made opaque black.
pub open spec fn filled_black(old: Seq<u8>, width: int, height: int, i: int) -> u8 {
    if pixel_in_buffer(width, height, old.len() as int, i / 4) {
        if i % 4 == 3 { 255u8 } else { 0u8 }
    } else {
        old[i]
    }
}

/// Whether the four bytes of pixel `(x, y)` of a frame of width `width` lie
/// inside a buffer of `len` bytes, which `ImageData::set_pixel` asks for.
pub fn pixel_fits(width: usize, len: usize, x: usize, y: usize) -> (r: bool)
    ensures
        r == (pixel_offset(width as int, x as int, y as int) + 3 < len),
{
    let row = match y.checked_mul(width) {
        Some(v) => v,
        None => {
            proof {
                assert(y * width <= (y * width + x) * 4 + 3) by (nonlinear_arith)
                    requires
                        0 <= y,
                        0 <= width,
                        0 <= x,
                ;
            }
            return false;
        },
    };
    let p = match row.checked_add(x) {
        Some(v) => v,
        None => {
            return false;
        },
    };
    p < len / 4
}

/// A frame of `width` x `height` pixels, stored row-major with four bytes
/// (red, green, blue, alpha) per pixel.
pub struct ImageData<'a> {
    pub width: usize,
    pub height: usize,
    pub buffer: &'a mut [u8],
}

impl<'a> ImageData<'a> {
    /// Writes colour `c` into the four bytes of pixel `(x, y)`.
    pub fn set_pixel(&mut self, x: usize, y: usize, c: &Color)
        requires
            pixel_offset(old(self).width as int, x as int, y as int) + 3 < old(self).buffer@.len(),
        ensures
            final(self).width == old(self).width,
            final(self).height == old(self).height,
            final(self).buffer@ == with_pixel(
                old(self).buffer@,
                old(self).width as int,
                x as int,
                y as int,
                *c,
            ),
    {
        let len = self.buffer.len();
        proof {
            let w = self.width as int;
            assert(0 <= y * w <= y * w + x) by (nonlinear_arith)
                requires
                    0 <= y,
                    0 <= w,
                    0 <= x,
            ;
            assert((y * w + x) * 4 + 3 < len);
        }
        let index = (y * self.width + x) * 4;
        self.buffer[index] = c.r;
        self.buffer[index + 1] = c.g;
        self.buffer[index + 2] = c.b;
        self.buffer[index + 3] = c.a;
    }

    /// The refinement levels of this frame, coarsest first.
    pub fn levels(&self) -> (r: ImageLevelIter)
        ensures
            r == (ImageLevelIter {
                tile_size: FIRST_TILE_SIZE,
                is_init: true,
                width: self.width,
                height: self.height,
            }),
    {
        ImageLevelIter {
            tile_size: FIRST_TILE_SIZE,
            is_init: true,
            width: self.width,
            height: self.height,
        }
    }
}

/// The size of a frame, without its pixels.
#[derive(Clone, Copy, Debug, PartialEq, Eq, Structural)]
pub struct ImageDimension {
    pub width: usize,
    pub height: usize,
}

impl ImageDimension {
    /// The refinement levels of a frame of this size, coarsest first.
    pub fn levels(&self) -> (r: ImageLevelIter)
        ensures
            r == (ImageLevelIter {
                tile_size: FIRST_TILE_SIZE,
                is_init: true,
                width: self.width,
                height: self.height,
            }),
    {
        ImageLevelIter {
            tile_size: FIRST_TILE_SIZE,
            is_init: true,
            width: self.width,
            height: self.height,
        }
    }
}

impl<'a> From<ImageData<'a>> for ImageDimension {
    fn from(img_data: ImageData<'a>) -> (r: ImageDimension) {
        ImageDimension { width: img_data.width, height: img_data.height }
    }
}

impl<'a> vstd::std_specs::convert::FromSpecImpl<ImageData<'a>> for ImageDimension {
    open spec fn obeys_from_spec() -> bool {
        true
    }

    open spec fn from_spec(img_data: ImageData<'a>) -> ImageDimension {
        ImageDimension { width: img_data.width, height: img_data.height }
    }
}

/// For a positive `w`: `p` lies in the first `h` rows of width `w` exactly
/// when its row number is below `h`.
pub proof fn lemma_row_below(p: int, w: int, h: int)
    requires
        0 <= p,
        0 < w,
    ensures
        (p / w < h) <==> (p < w * h),
{
    vstd::arithmetic::div_mod::lemma_fundamental_div_mod(p, w);
    let q = p / w;
    let r = p % w;
    assert(0 <= r < w);
    assert(p == w * q + r);
    if q < h {
        assert(w * q + w <= w * h) by (nonlinear_arith)
            requires
                q + 1 <= h,
                0 < w,
        ;
    } else {
        assert(w * h <= w * q) by (nonlinear_arith)
            requires
                h <= q,
                0 < w,
        ;
    }
}

/// Makes every pixel of a `width` x `height` frame opaque black, leaving
/// alone the bytes of a pixel that does not fit whole in `buffer`.
pub fn fill_black(width: usize, height: usize, buffer: &mut [u8])
    ensures
        final(buffer)@.len() == old(buffer)@.len(),
        forall|i: int|
            0 <= i < old(buffer)@.len() ==> #[trigger] final(buffer)@[i] == filled_black(
                old(buffer)@,
                width as int,
                height as int,
                i,
            ),
{
    let len = buffer.len();
    let n = len / 4;
    let mut p: usize = 0;
    while p < n && width > 0 && p / width < height
        invariant
            n == len / 4,
            len == old(buffer)@.len(),
            buffer@.len() == len,
            p <= n,
            width > 0 ==> (p <= width * height),
            width == 0 ==> p == 0,
            forall|i: int|
                0 <= i < len ==> #[trigger] buffer@[i] == (if i / 4 < p {
                    filled_black(old(buffer)@, width as int, height as int, i)
                } else {
                    old(buffer)@[i]
                }),
        decreases n - p,
    {
        proof {
            lemma_row_below(p as int, width as int, height as int);
        }
        let index = p * 4;
        buffer[index] = 0;
        buffer[index + 1] = 0;
        buffer[index + 2] = 0;
        buffer[index + 3] = 255;
        p = p + 1;
    }
    proof {
        if width > 0 && p < n {
            lemma_row_below(p as int, width as int, height as int);
        }
    }
}

} // verus!
