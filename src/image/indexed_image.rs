use vstd::prelude::*;

use crate::color::Rgb;
use crate::ilbm::{columns_swapped, swap_columns};
use crate::image::RgbImage;
use crate::image::rgb_image::painted;
use crate::palette::Palette;
use crate::raster::{clip, copy_rect, rect_spec, resize_data, resize_spec};

verus! {

/// An image of palette indices, one byte per pixel, row after row, with
/// its palette.
#[derive(Debug, Clone, PartialEq, Eq)]
pub struct IndexedImage {
    width: u32,
    height: u32,
    data: Vec<u8>,
    palette: Palette,
}

/// What an [`IndexedImage`] holds.
pub struct IndexedView {
    pub width: int,
    pub height: int,
    pub data: Seq<u8>,
    pub palette: Seq<Rgb>,
}

impl View for IndexedImage {
    type V = IndexedView;

    closed spec fn view(&self) -> IndexedView {
        IndexedView {
            width: self.width as int,
            height: self.height as int,
            data: self.data@,
            palette: self.palette@,
        }
    }
}

fn filled(n: usize, index: u8) -> (r: Vec<u8>)
    ensures
        r@ == Seq::new(n as nat, |_i: int| index),
{
    let mut out: Vec<u8> = Vec::new();
    let mut k: usize = 0;
    while k < n
        invariant
            k <= n,
            out@ == Seq::new(k as nat, |_i: int| index),
        decreases n - k,
    {
        out.push(index);
        k = k + 1;
        proof {
            assert(out@ =~= Seq::new(k as nat, |_i: int| index));
        }
    }
    out
}

impl IndexedImage {
    /// One index for each pixel, and a full palette.
    pub open spec fn wf(&self) -> bool {
        &&& self@.data.len() == self@.width * self@.height
        &&& self@.palette.len() == 256
    }

    /// An image whose pixels all have index 0.
    pub fn new(width: u32, height: u32, palette: Palette) -> (r: Self)
        requires
            palette.wf(),
            width * height <= usize::MAX,
        ensures
            r.wf(),
            r@.width == width,
            r@.height == height,
            r@.data == Seq::new((width * height) as nat, |_i: int| 0u8),
            r@.palette == palette@,
    {
        IndexedImage::from_index(width, height, 0, palette)
    }

    /// An image whose pixels all have index `index`.
    pub fn from_index(width: u32, height: u32, index: u8, palette: Palette) -> (r: Self)
        requires
            palette.wf(),
            width * height <= usize::MAX,
        ensures
            r.wf(),
            r@.width == width,
            r@.height == height,
            r@.data == Seq::new((width * height) as nat, |_i: int| index),
            r@.palette == palette@,
    {
        let data = filled((width as usize) * (height as usize), index);
        IndexedImage { width, height, data, palette }
    }

    /// An image over the first `width * height` indices of `image`, or
    /// `None` if it holds fewer.
    pub fn from_buffer(width: u32, height: u32, image: Vec<u8>, palette: Palette) -> (r: Option<
        Self,
    >)
        requires
            palette.wf(),
        ensures
            (r is Some) == (image@.len() >= width * height),
            r matches Some(img) ==> img.wf() && img@.width == width && img@.height == height
                && img@.data == image@.take(width * height) && img@.palette == palette@,
    {
        assert((width as u64) * (height as u64) <= 0xFFFF_FFFFu64 * 0xFFFF_FFFFu64) by (nonlinear_arith);
        let size: u64 = (width as u64) * (height as u64);
        if (image.len() as u64) < size {
            return None;
        }
        let mut data = image;
        data.truncate(size as usize);
        Some(IndexedImage { width, height, data, palette })
    }

    pub fn width(&self) -> (r: u32)
        ensures
            r == self@.width,
    {
        self.width
    }

    pub fn height(&self) -> (r: u32)
        ensures
            r == self@.height,
    {
        self.height
    }

    pub fn size(&self) -> (r: (u32, u32))
        ensures
            r.0 == self@.width,
            r.1 == self@.height,
    {
        (self.width, self.height)
    }

    pub fn palette(&self) -> (r: &Palette)
        requires
            self.wf(),
        ensures
            r@ == self@.palette,
            r.wf(),
    {
        &self.palette
    }

    /// The palette, to change in place.
    pub fn palette_mut(&mut self) -> (r: &mut Palette)
        ensures
            r@ == old(self)@.palette,
            final(self)@ == (IndexedView { palette: final(r)@, ..old(self)@ }),
    {
        &mut self.palette
    }

    /// The colors of this image, as an RGB image.
    pub fn to_rgb_image(&self) -> (r: RgbImage)
        requires
            self.wf(),
            3 * self@.width * self@.height <= usize::MAX,
        ensures
            r.wf(),
            r@.width == self@.width,
            r@.height == self@.height,
            r@.data == painted(
                crate::image::rgb_image::filled_bytes(self@.width * self@.height, Rgb([0u8, 0u8, 0u8])),
                self@.data,
                self@.palette,
            ),
    {
        RgbImage::from_indexed_image(self)
    }

    /// Replaces the palette.
    pub fn set_palette(&mut self, palette: Palette)
        requires
            old(self).wf(),
            palette.wf(),
        ensures
            final(self).wf(),
            final(self)@ == (IndexedView { palette: palette@, ..old(self)@ }),
    {
        self.palette = palette;
    }

    /// The indices, one per pixel, row after row.
    pub fn data(&self) -> (r: &[u8])
        ensures
            r@ == self@.data,
    {
        self.data.as_slice()
    }

    pub fn get_index(&self, x: u32, y: u32) -> (r: u8)
        requires
            self.wf(),
            x < self@.width,
            y < self@.height,
        ensures
            r == self@.data[y * self@.width + x],
    {
        let n = self.data.len();
        proof {
            lemma_in_image(x as int, y as int, self.width as int, self.height as int);
        }
        self.data[(self.width as usize) * (y as usize) + (x as usize)]
    }

    pub fn set_index(&mut self, x: u32, y: u32, index: u8)
        requires
            old(self).wf(),
            x < old(self)@.width,
            y < old(self)@.height,
        ensures
            final(self).wf(),
            final(self)@ == (IndexedView {
                data: old(self)@.data.update(y * old(self)@.width + x, index),
                ..old(self)@
            }),
    {
        let n = self.data.len();
        proof {
            lemma_in_image(x as int, y as int, self.width as int, self.height as int);
        }
        let offset = (self.width as usize) * (y as usize) + (x as usize);
        self.data.set(offset, index);
    }

    /// Sets every pixel to `index`.
    pub fn fill(&mut self, index: u8)
        requires
            old(self).wf(),
        ensures
            final(self).wf(),
            final(self)@ == (IndexedView {
                data: Seq::new(old(self)@.data.len(), |_i: int| index),
                ..old(self)@
            }),
    {
        let n = self.data.len();
        self.data = filled(n, index);
    }

    /// The part of this image at `x`, `y`, `width` by `height` pixels,
    /// clipped to the image, with the same palette.
    pub fn get_rect(&self, x: u32, y: u32, width: u32, height: u32) -> (r: Self)
        requires
            self.wf(),
        ensures
            r.wf(),
            (r@.width, r@.height) == clip(
                x as int,
                y as int,
                width as int,
                height as int,
                self@.width,
                self@.height,
            ),
            r@.data == rect_spec(self@.data, self@.width, x as int, y as int, r@.width, r@.height, 1),
            r@.palette == self@.palette,
    {
        let (rw, rh, data) = self.rect_data(x, y, width, height);
        IndexedImage { width: rw, height: rh, data, palette: self.palette.copy() }
    }

    /// The indices of the part at `x`, `y`, `width` by `height` pixels,
    /// clipped to the image, row after row.
    pub fn get_rect_data(&self, x: u32, y: u32, width: u32, height: u32) -> (r: Vec<u8>)
        requires
            self.wf(),
        ensures
            ({
                let (rw, rh) = clip(
                    x as int,
                    y as int,
                    width as int,
                    height as int,
                    self@.width,
                    self@.height,
                );
                r@ == rect_spec(self@.data, self@.width, x as int, y as int, rw, rh, 1)
            }),
    {
        let (_rw, _rh, data) = self.rect_data(x, y, width, height);
        data
    }

    fn rect_data(&self, x: u32, y: u32, width: u32, height: u32) -> (r: (u32, u32, Vec<u8>))
        requires
            self.wf(),
        ensures
            (r.0 as int, r.1 as int) == clip(
                x as int,
                y as int,
                width as int,
                height as int,
                self@.width,
                self@.height,
            ),
            r.2@ == rect_spec(self@.data, self@.width, x as int, y as int, r.0 as int, r.1 as int, 1),
            r.2@.len() == r.0 * r.1,
    {
        let (rw, rh): (u32, u32) = if x >= self.width || y >= self.height {
            (0, 0)
        } else {
            (
                if width < self.width - x {
                    width
                } else {
                    self.width - x
                },
                if height < self.height - y {
                    height
                } else {
                    self.height - y
                },
            )
        };
        assert(self.width * self.height * 1 == self.width * self.height) by (nonlinear_arith);
        if rw == 0 || rh == 0 {
            let data: Vec<u8> = Vec::new();
            assert(rw * rh * 1 == 0 && rw * rh == 0) by (nonlinear_arith)
                requires
                    rw == 0 || rh == 0,
            ;
            assert(data@ =~= rect_spec(
                self@.data,
                self@.width,
                x as int,
                y as int,
                rw as int,
                rh as int,
                1,
            ));
            return (rw, rh, data);
        }
        let data = copy_rect(
            self.data.as_slice(),
            self.width as usize,
            self.height as usize,
            x as usize,
            y as usize,
            rw as usize,
            rh as usize,
            1,
        );
        assert(rw * rh * 1 == rw * rh) by (nonlinear_arith);
        (rw, rh, data)
    }

    /// Makes this image the part of `other` at `x`, `y`, `width` by
    /// `height` pixels, clipped to `other`; the palette stays.
    pub fn get_rect_from(&mut self, x: u32, y: u32, width: u32, height: u32, other: &IndexedImage)
        requires
            old(self).wf(),
            other.wf(),
        ensures
            final(self).wf(),
            (final(self)@.width, final(self)@.height) == clip(
                x as int,
                y as int,
                width as int,
                height as int,
                other@.width,
                other@.height,
            ),
            final(self)@.data == rect_spec(
                other@.data,
                other@.width,
                x as int,
                y as int,
                final(self)@.width,
                final(self)@.height,
                1,
            ),
            final(self)@.palette == old(self)@.palette,
    {
        let (rw, rh, data) = other.rect_data(x, y, width, height);
        self.width = rw;
        self.height = rh;
        self.data = data;
    }

    /// Changes the size, keeping the part that both sizes cover; new pixels
    /// get `index`.
    pub fn resize(&mut self, width: u32, height: u32, index: u8)
        requires
            old(self).wf(),
            width * height <= usize::MAX,
        ensures
            final(self).wf(),
            final(self)@.width == width,
            final(self)@.height == height,
            final(self)@.data == resize_spec(
                old(self)@.data,
                old(self)@.width,
                old(self)@.height,
                width as int,
                height as int,
                seq![index],
                1,
            ),
            final(self)@.palette == old(self)@.palette,
    {
        let fill: [u8; 1] = [index];
        assert(fill@ =~= seq![index]);
        assert(self.width * self.height * 1 == self.width * self.height) by (nonlinear_arith);
        assert(width * height * 1 == width * height) by (nonlinear_arith);
        let data = resize_data(
            self.data.as_slice(),
            self.width as usize,
            self.height as usize,
            width as usize,
            height as usize,
            fill.as_slice(),
            1,
        );
        self.width = width;
        self.height = height;
        self.data = data;
    }

    /// Reverses each group of 8 pixels in every row.
    pub fn column_swap(&mut self)
        requires
            old(self).wf(),
        ensures
            final(self).wf(),
            final(self)@ == (IndexedView {
                data: columns_swapped(old(self)@.data, old(self)@.width, old(self)@.height),
                ..old(self)@
            }),
    {
        assert(self.height * self.width == self.width * self.height) by (nonlinear_arith);
        swap_columns(&mut self.data, self.width as usize, self.height as usize);
    }

    /// Paints the pixels of `image` with the colors that `palette` gives
    /// this image's indices.
    pub fn apply_with_palette(&self, image: &mut RgbImage, palette: &Palette)
        requires
            old(image).wf(),
            palette.wf(),
        ensures
            final(image).wf(),
            final(image)@.width == old(image)@.width,
            final(image)@.height == old(image)@.height,
            final(image)@.data == painted(old(image)@.data, self@.data, palette@),
    {
        image.draw_indexed_image_with_palette(self, palette);
    }

    /// Paints the pixels of `image` with this image's colors.
    pub fn apply(&self, image: &mut RgbImage)
        requires
            self.wf(),
            old(image).wf(),
        ensures
            final(image).wf(),
            final(image)@.width == old(image)@.width,
            final(image)@.height == old(image)@.height,
            final(image)@.data == painted(old(image)@.data, self@.data, self@.palette),
    {
        image.draw_indexed_image_with_palette(self, &self.palette);
    }
}

proof fn lemma_in_image(x: int, y: int, w: int, h: int)
    requires
        0 <= x < w,
        0 <= y < h,
    ensures
        0 <= y * w <= y * w + x < w * h,
        w * y == y * w,
{
    assert(0 <= y * w <= y * w + x < w * h) by (nonlinear_arith)
        requires
            0 <= x < w,
            0 <= y < h,
    ;
    assert(w * y == y * w) by (nonlinear_arith);
}

} // verus!
