use vstd::prelude::*;

use crate::color::Rgb;
use crate::image::IndexedImage;
use crate::palette::Palette;
use crate::raster::{clip, copy_rect, rect_spec, resize_data, resize_spec};

verus! {

/// A true-color image: three bytes (red, green, blue) per pixel, row after
/// row.
#[derive(Debug, Clone, PartialEq, Eq)]
pub struct RgbImage {
    width: u32,
    height: u32,
    data: Vec<u8>,
}

/// What an [`RgbImage`] holds.
pub struct RgbView {
    pub width: int,
    pub height: int,
    pub data: Seq<u8>,
}

/// `n` pixels of one color, as bytes.
pub open spec fn filled_bytes(n: int, c: Rgb) -> Seq<u8> {
    Seq::new((3 * n) as nat, |k: int| c.0[k % 3])
}

/// `bytes` with the first pixels painted with the colors that `palette`
/// gives the indices of `indices`, as far as both reach.
pub open spec fn painted(bytes: Seq<u8>, indices: Seq<u8>, palette: Seq<Rgb>) -> Seq<u8> {
    Seq::new(
        bytes.len(),
        |k: int|
            if k / 3 < indices.len() {
                palette[indices[k / 3] as int].0[k % 3]
            } else {
                bytes[k]
            },
    )
}

impl View for RgbImage {
    type V = RgbView;

    closed spec fn view(&self) -> RgbView {
        RgbView { width: self.width as int, height: self.height as int, data: self.data@ }
    }
}

fn fill_bytes(n: usize, color: Rgb) -> (r: Vec<u8>)
    requires
        3 * n <= usize::MAX,
    ensures
        r@ == filled_bytes(n as int, color),
{
    let mut out: Vec<u8> = Vec::new();
    let mut k: usize = 0;
    while k < 3 * n
        invariant
            3 * n <= usize::MAX,
            k <= 3 * n,
            out@ == filled_bytes(n as int, color).take(k as int),
        decreases 3 * n - k,
    {
        out.push(color.0[k % 3]);
        proof {
            assert(out@ =~= filled_bytes(n as int, color).take(k + 1));
        }
        k = k + 1;
    }
    proof {
        assert(out@ =~= filled_bytes(n as int, color));
    }
    out
}

impl RgbImage {
    /// The buffer holds three bytes for each pixel.
    pub open spec fn wf(&self) -> bool {
        self@.data.len() == 3 * self@.width * self@.height
    }

    /// A black image.
    pub fn new(width: u32, height: u32) -> (r: Self)
        requires
            3 * width * height <= usize::MAX,
        ensures
            r.wf(),
            r@.width == width,
            r@.height == height,
            r@.data == filled_bytes(width * height, Rgb([0u8, 0u8, 0u8])),
    {
        RgbImage::from_color(width, height, Rgb([0, 0, 0]))
    }

    /// An image of one color.
    pub fn from_color(width: u32, height: u32, color: Rgb) -> (r: Self)
        requires
            3 * width * height <= usize::MAX,
        ensures
            r.wf(),
            r@.width == width,
            r@.height == height,
            r@.data == filled_bytes(width * height, color),
    {
        assert((width as int) * (height as int) <= 3 * width * height) by (nonlinear_arith);
        assert(3 * ((width as int) * (height as int)) == 3 * width * height) by (nonlinear_arith);
        let data = fill_bytes((width as usize) * (height as usize), color);
        RgbImage { width, height, data }
    }

    /// An image over the first `3 * width * height` bytes of `image`, or
    /// `None` if it holds fewer.
    pub fn from_buffer(width: u32, height: u32, image: &[u8]) -> (r: Option<Self>)
        ensures
            (r is Some) == (image@.len() >= 3 * width * height),
            r matches Some(img) ==> img.wf() && img@.width == width && img@.height == height
                && img@.data == image@.take(3 * width * height),
    {
        assert(3 * (width as u128) * (height as u128) <= 3 * 0xFFFF_FFFFu128 * 0xFFFF_FFFFu128) by (nonlinear_arith);
        let size: u128 = 3 * (width as u128) * (height as u128);
        if (image.len() as u128) < size {
            return None;
        }
        let size = size as usize;
        let mut data: Vec<u8> = Vec::new();
        let mut k: usize = 0;
        while k < size
            invariant
                size <= image@.len(),
                k <= size,
                data@ == image@.take(k as int),
            decreases size - k,
        {
            data.push(image[k]);
            proof {
                assert(data@ =~= image@.take(k + 1));
            }
            k = k + 1;
        }
        Some(RgbImage { width, height, data })
    }

    /// The colors of an indexed image.
    pub fn from_indexed_image(indexed_image: &IndexedImage) -> (r: Self)
        requires
            indexed_image.wf(),
            3 * indexed_image@.width * indexed_image@.height <= usize::MAX,
        ensures
            r.wf(),
            r@.width == indexed_image@.width,
            r@.height == indexed_image@.height,
            r@.data == painted(
                filled_bytes(
                    indexed_image@.width * indexed_image@.height,
                    Rgb([0u8, 0u8, 0u8]),
                ),
                indexed_image@.data,
                indexed_image@.palette,
            ),
    {
        let mut image = RgbImage::new(indexed_image.width(), indexed_image.height());
        image.draw_indexed_image(indexed_image);
        image
    }

    pub fn width(&self) -> (r: u32)
        ensures
            r == self@.width,
    {
        self.width
    }

    pub fn height(&self) -> (r: u32)
        ensures
            r == self@.height,
    {
        self.height
    }

    pub fn size(&self) -> (r: (u32, u32))
        ensures
            r.0 == self@.width,
            r.1 == self@.height,
    {
        (self.width, self.height)
    }

    /// The bytes, three per pixel, row after row.
    pub fn data(&self) -> (r: &[u8])
        ensures
            r@ == self@.data,
    {
        self.data.as_slice()
    }

    pub fn get_pixel(&self, x: u32, y: u32) -> (r: Rgb)
        requires
            self.wf(),
            x < self@.width,
            y < self@.height,
        ensures
            r == Rgb(
                [
                    self@.data[3 * (y * self@.width + x)],
                    self@.data[3 * (y * self@.width + x) + 1],
                    self@.data[3 * (y * self@.width + x) + 2],
                ],
            ),
    {
        let n = self.data.len();
        proof {
            lemma_pixel_in(x as int, y as int, self.width as int, self.height as int);
        }
        let offset = 3 * ((self.width as usize) * (y as usize) + (x as usize));
        Rgb([self.data[offset], self.data[offset + 1], self.data[offset + 2]])
    }

    pub fn set_pixel(&mut self, x: u32, y: u32, color: Rgb)
        requires
            old(self).wf(),
            x < old(self)@.width,
            y < old(self)@.height,
        ensures
            final(self).wf(),
            final(self)@.width == old(self)@.width,
            final(self)@.height == old(self)@.height,
            final(self)@.data == old(self)@.data.update(
                3 * (y * old(self)@.width + x),
                color.0[0],
            ).update(3 * (y * old(self)@.width + x) + 1, color.0[1]).update(
                3 * (y * old(self)@.width + x) + 2,
                color.0[2],
            ),
    {
        let n = self.data.len();
        proof {
            lemma_pixel_in(x as int, y as int, self.width as int, self.height as int);
        }
        let offset = 3 * ((self.width as usize) * (y as usize) + (x as usize));
        self.data.set(offset, color.0[0]);
        self.data.set(offset + 1, color.0[1]);
        self.data.set(offset + 2, color.0[2]);
    }

    /// Paints every pixel with `color`.
    pub fn fill(&mut self, color: Rgb)
        requires
            old(self).wf(),
        ensures
            final(self).wf(),
            final(self)@.width == old(self)@.width,
            final(self)@.height == old(self)@.height,
            final(self)@.data == filled_bytes(old(self)@.width * old(self)@.height, color),
    {
        let n = self.data.len();
        let mut k: usize = 0;
        while k < n
            invariant
                n == self.data@.len(),
                n == 3 * self.width * self.height,
                self.width == old(self).width,
                self.height == old(self).height,
                k <= n,
                forall|j: int| 0 <= j < k ==> #[trigger] self.data@[j] == color.0[j % 3],
            decreases n - k,
        {
            self.data.set(k, color.0[k % 3]);
            k = k + 1;
        }
        proof {
            assert(3 * (self.width * self.height) == 3 * self.width * self.height) by (nonlinear_arith);
            assert(self.data@ =~= filled_bytes(self.width * self.height, color));
        }
    }

    /// The part of this image at `x`, `y`, `width` by `height` pixels,
    /// clipped to the image.
    pub fn get_rect(&self, x: u32, y: u32, width: u32, height: u32) -> (r: Self)
        requires
            self.wf(),
        ensures
            r.wf(),
            (r@.width, r@.height) == clip(
                x as int,
                y as int,
                width as int,
                height as int,
                self@.width,
                self@.height,
            ),
            r@.data == rect_spec(self@.data, self@.width, x as int, y as int, r@.width, r@.height, 3),
    {
        let (rw, rh): (u32, u32) = if x >= self.width || y >= self.height {
            (0, 0)
        } else {
            (
                if width < self.width - x {
                    width
                } else {
                    self.width - x
                },
                if height < self.height - y {
                    height
                } else {
                    self.height - y
                },
            )
        };
        assert(self.width * self.height * 3 == 3 * self.width * self.height) by (nonlinear_arith);
        assert(rw * rh * 3 == 3 * rw * rh) by (nonlinear_arith);
        if rw == 0 || rh == 0 {
            let data: Vec<u8> = Vec::new();
            assert(rw * rh * 3 == 0) by (nonlinear_arith)
                requires
                    rw == 0 || rh == 0,
            ;
            assert(data@ =~= rect_spec(
                self@.data,
                self@.width,
                x as int,
                y as int,
                rw as int,
                rh as int,
                3,
            ));
            return RgbImage { width: rw, height: rh, data };
        }
        let data = copy_rect(
            self.data.as_slice(),
            self.width as usize,
            self.height as usize,
            x as usize,
            y as usize,
            rw as usize,
            rh as usize,
            3,
        );
        RgbImage { width: rw, height: rh, data }
    }

    /// The bytes of the part at `x`, `y`, `width` by `height` pixels,
    /// clipped to the image, row after row.
    pub fn get_rect_data(&self, x: u32, y: u32, width: u32, height: u32) -> (r: Vec<u8>)
        requires
            self.wf(),
        ensures
            ({
                let (rw, rh) = clip(
                    x as int,
                    y as int,
                    width as int,
                    height as int,
                    self@.width,
                    self@.height,
                );
                r@ == rect_spec(self@.data, self@.width, x as int, y as int, rw, rh, 3)
            }),
    {
        let rect = self.get_rect(x, y, width, height);
        rect.data
    }

    /// Makes this image the part of `other` at `x`, `y`, `width` by
    /// `height` pixels, clipped to `other`.
    pub fn get_rect_from(&mut self, x: u32, y: u32, width: u32, height: u32, other: &RgbImage)
        requires
            other.wf(),
        ensures
            final(self).wf(),
            (final(self)@.width, final(self)@.height) == clip(
                x as int,
                y as int,
                width as int,
                height as int,
                other@.width,
                other@.height,
            ),
            final(self)@.data == rect_spec(
                other@.data,
                other@.width,
                x as int,
                y as int,
                final(self)@.width,
                final(self)@.height,
                3,
            ),
    {
        *self = other.get_rect(x, y, width, height);
    }

    /// Changes the size, keeping the part that both sizes cover; new pixels
    /// are `color`.
    pub fn resize(&mut self, width: u32, height: u32, color: Rgb)
        requires
            old(self).wf(),
            3 * width * height <= usize::MAX,
        ensures
            final(self).wf(),
            final(self)@.width == width,
            final(self)@.height == height,
            final(self)@.data == resize_spec(
                old(self)@.data,
                old(self)@.width,
                old(self)@.height,
                width as int,
                height as int,
                seq![color.0[0], color.0[1], color.0[2]],
                3,
            ),
    {
        let fill: [u8; 3] = [color.0[0], color.0[1], color.0[2]];
        assert(fill@ =~= seq![color.0[0], color.0[1], color.0[2]]);
        assert(self.width * self.height * 3 == 3 * self.width * self.height) by (nonlinear_arith);
        assert(width * height * 3 == 3 * width * height) by (nonlinear_arith);
        let data = resize_data(
            self.data.as_slice(),
            self.width as usize,
            self.height as usize,
            width as usize,
            height as usize,
            fill.as_slice(),
            3,
        );
        self.width = width;
        self.height = height;
        self.data = data;
    }

    /// Paints the pixels of an indexed image with its own palette.
    pub fn draw_indexed_image(&mut self, indexed_image: &IndexedImage)
        requires
            old(self).wf(),
            indexed_image.wf(),
        ensures
            final(self).wf(),
            final(self)@.width == old(self)@.width,
            final(self)@.height == old(self)@.height,
            final(self)@.data == painted(
                old(self)@.data,
                indexed_image@.data,
                indexed_image@.palette,
            ),
    {
        self.draw_indexed_image_with_palette(indexed_image, indexed_image.palette());
    }

    /// Paints the pixels of an indexed image with `palette`, as far as both
    /// images reach.
    pub fn draw_indexed_image_with_palette(&mut self, indexed_image: &IndexedImage, palette: &Palette)
        requires
            old(self).wf(),
            palette.wf(),
        ensures
            final(self).wf(),
            final(self)@.width == old(self)@.width,
            final(self)@.height == old(self)@.height,
            final(self)@.data == painted(old(self)@.data, indexed_image@.data, palette@),
    {
        let indices = indexed_image.data();
        let n = self.data.len();
        let mut k: usize = 0;
        while k < n
            invariant
                n == self.data@.len(),
                n == 3 * self.width * self.height,
                self.width == old(self).width,
                self.height == old(self).height,
                palette.wf(),
                indices@ == indexed_image@.data,
                old(self)@.data.len() == n,
                k <= n,
                forall|j: int|
                    0 <= j < n ==> #[trigger] self.data@[j] == if j < k {
                        painted(old(self)@.data, indices@, palette@)[j]
                    } else {
                        old(self)@.data[j]
                    },
            decreases n - k,
        {
            let i = k / 3;
            if i < indices.len() {
                let c = palette.get(indices[i]);
                self.data.set(k, c.0[k % 3]);
                proof {
                    assert(painted(old(self)@.data, indices@, palette@)[k as int] == c.0[(k % 3) as int]);
                }
            } else {
                proof {
                    assert(painted(old(self)@.data, indices@, palette@)[k as int] == old(self)@.data[k as int]);
                }
            }
            k = k + 1;
        }
        proof {
            assert(self.data@ =~= painted(old(self)@.data, indices@, palette@));
        }
    }
}

proof fn lemma_pixel_in(x: int, y: int, w: int, h: int)
    requires
        0 <= x < w,
        0 <= y < h,
    ensures
        0 <= 3 * (y * w + x) + 2 < 3 * w * h,
        0 <= y * w <= y * w + x,
        w * y == y * w,
{
    assert(0 <= y * w <= y * w + x < w * h) by (nonlinear_arith)
        requires
            0 <= x < w,
            0 <= y < h,
    ;
    assert(3 * w * h == 3 * (w * h)) by (nonlinear_arith);
    assert(w * y == y * w) by (nonlinear_arith);
}

} // verus!
