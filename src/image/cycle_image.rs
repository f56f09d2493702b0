use vstd::prelude::*;

use crate::body::mask_view;
use crate::color::Rgb;
use crate::ilbm::{
    broken, cmaps_view, ilbm_matches, read_spec, result_matches, ErrorKind, IlbmModel, Result, CCRT,
    CRNG, ILBM,
};
use crate::image::{IndexedImage, RgbImage};
use crate::image::indexed_image::IndexedView;
use crate::image::rgb_image::painted;
use crate::palette::{blended_all, cycled_all, Cycle, Palette};
use crate::raster::{clip, rect_spec, resize_spec};

verus! {

/// Timed cycles give their delay in microseconds; the rate of the cycle is
/// the delay times this, divided by a million. The factor was chosen to make
/// timed cycles run as fast as the same image's range cycles.
pub const CCRT_RATE_FACTOR: u64 = 8903;

/// An indexed image with the cycles that animate its palette.
#[derive(Debug, Clone)]
pub struct CycleImage {
    filename: Option<String>,
    indexed_image: IndexedImage,
    cycles: Vec<Cycle>,
}

/// What a [`CycleImage`] holds.
pub struct CycleView {
    pub filename: Option<Seq<char>>,
    pub image: IndexedView,
    pub cycles: Seq<Cycle>,
}

impl View for CycleImage {
    type V = CycleView;

    closed spec fn view(&self) -> CycleView {
        CycleView {
            filename: match self.filename {
                Some(s) => Some(s@),
                None => None,
            },
            image: self.indexed_image@,
            cycles: self.cycles@,
        }
    }
}

/// The palette of a container: its first color map, black past its end,
/// or all black if there is none.
pub open spec fn cmap_palette(cmaps: Seq<Seq<Rgb>>) -> Seq<Rgb> {
    Seq::new(
        256,
        |i: int|
            if cmaps.len() > 0 && i < cmaps[0].len() {
                cmaps[0][i]
            } else {
                Rgb([0u8, 0u8, 0u8])
            },
    )
}

/// The cycle that an active range chunk describes.
pub open spec fn crng_cycle(c: CRNG) -> Cycle {
    Cycle { low: c.low, high: c.high, rate: c.rate as u32, reverse: c.flags & 2u16 != 0 }
}

/// The cycles of the range chunks whose flags mark them active, in order.
pub open spec fn crng_cycles(crngs: Seq<CRNG>) -> Seq<Cycle>
    decreases crngs.len(),
{
    if crngs.len() == 0 {
        Seq::empty()
    } else {
        crng_cycles(crngs.drop_last()) + if crngs.last().flags & 1u16 != 0 {
            seq![crng_cycle(crngs.last())]
        } else {
            Seq::empty()
        }
    }
}

/// The rate of a timed cycle: its whole delay in microseconds times
/// [`CCRT_RATE_FACTOR`], divided by a million, kept to 32 bits.
pub open spec fn ccrt_rate(c: CCRT) -> u32 {
    (((c.delay_sec * 1_000_000 + c.delay_usec) * CCRT_RATE_FACTOR / 1_000_000) % 0x1_0000_0000) as u32
}

/// The cycle that an active timed cycle chunk describes: direction 1 runs
/// reversed.
pub open spec fn ccrt_cycle(c: CCRT) -> Cycle {
    Cycle { low: c.low, high: c.high, rate: ccrt_rate(c), reverse: c.direction == 1 }
}

/// The cycles of the timed cycle chunks with a direction, in order.
pub open spec fn ccrt_cycles(ccrts: Seq<CCRT>) -> Seq<Cycle>
    decreases ccrts.len(),
{
    if ccrts.len() == 0 {
        Seq::empty()
    } else {
        ccrt_cycles(ccrts.drop_last()) + if ccrts.last().direction != 0 {
            seq![ccrt_cycle(ccrts.last())]
        } else {
            Seq::empty()
        }
    }
}

/// The image a decoded container gives: width, height, indices, palette
/// and cycles. An image without pixels, or pixel data short of
/// `width * height`, is a broken file; with no pixel chunk all indices
/// are 0.
pub open spec fn adapt_spec(m: IlbmModel) -> core::result::Result<
    (int, int, Seq<u8>, Seq<Rgb>, Seq<Cycle>),
    ErrorKind,
> {
    let w = m.header.width as int;
    let h = m.header.height as int;
    let palette = cmap_palette(m.cmaps);
    let cycles = crng_cycles(m.crngs) + ccrt_cycles(m.ccrts);
    if w == 0 || h == 0 {
        Err(ErrorKind::BrokenFile)
    } else {
        match m.body {
            Some(b) => if b.0.len() < w * h {
                Err(ErrorKind::BrokenFile)
            } else {
                Ok((w, h, b.0.take(w * h), palette, cycles))
            },
            None => Ok((w, h, Seq::new((w * h) as nat, |_i: int| 0u8), palette, cycles)),
        }
    }
}

/// The model of a decoded container.
pub open spec fn ilbm_model(v: ILBM) -> IlbmModel {
    IlbmModel {
        file_type: v.file_type,
        header: v.header,
        camg: v.camg,
        body: match v.body {
            Some(b) => Some((b.pixels@, mask_view(b.mask))),
            None => None,
        },
        cmaps: cmaps_view(v.cmaps@),
        crngs: v.crngs@,
        ccrts: v.ccrts@,
    }
}

/// A cycle image holds what the adapter gives.
pub open spec fn adapted(img: CycleImage, a: (int, int, Seq<u8>, Seq<Rgb>, Seq<Cycle>)) -> bool {
    &&& img.wf()
    &&& img@.filename is None
    &&& img@.image.width == a.0
    &&& img@.image.height == a.1
    &&& img@.image.data == a.2
    &&& img@.image.palette == a.3
    &&& img@.cycles == a.4
}

impl CycleImage {
    pub open spec fn wf(&self) -> bool {
        self@.image.data.len() == self@.image.width * self@.image.height
            && self@.image.palette.len() == 256
    }

    pub fn new(filename: Option<String>, indexed_image: IndexedImage, cycles: Vec<Cycle>) -> (r: Self)
        requires
            indexed_image.wf(),
        ensures
            r.wf(),
            r@.filename == match filename {
                Some(s) => Some(s@),
                None => None::<Seq<char>>,
            },
            r@.image == indexed_image@,
            r@.cycles == cycles@,
    {
        CycleImage { filename, indexed_image, cycles }
    }

    pub fn filename(&self) -> (r: Option<&str>)
        ensures
            r matches Some(s) ==> self@.filename == Some(s@),
            r is None ==> self@.filename is None,
    {
        match &self.filename {
            Some(s) => Some(s.as_str()),
            None => None,
        }
    }

    pub fn indexed_image(&self) -> (r: &IndexedImage)
        ensures
            r@ == self@.image,
    {
        &self.indexed_image
    }

    pub fn cycles(&self) -> (r: &[Cycle])
        ensures
            r@ == self@.cycles,
    {
        self.cycles.as_slice()
    }

    pub fn width(&self) -> (r: u32)
        ensures
            r == self@.image.width,
    {
        self.indexed_image.width()
    }

    pub fn height(&self) -> (r: u32)
        ensures
            r == self@.image.height,
    {
        self.indexed_image.height()
    }

    pub fn size(&self) -> (r: (u32, u32))
        ensures
            r.0 == self@.image.width,
            r.1 == self@.image.height,
    {
        (self.width(), self.height())
    }

    pub fn palette(&self) -> (r: &Palette)
        requires
            self.wf(),
        ensures
            r@ == self@.image.palette,
            r.wf(),
    {
        self.indexed_image.palette()
    }

    /// The palette, to change in place.
    pub fn palette_mut(&mut self) -> (r: &mut Palette)
        ensures
            r@ == old(self)@.image.palette,
            final(self)@ == (CycleView {
                image: IndexedView { palette: final(r)@, ..old(self)@.image },
                ..old(self)@
            }),
    {
        self.indexed_image.palette_mut()
    }

    pub fn get_index(&self, x: u32, y: u32) -> (r: u8)
        requires
            self.wf(),
            x < self@.image.width,
            y < self@.image.height,
        ensures
            r == self@.image.data[y * self@.image.width + x],
    {
        self.indexed_image.get_index(x, y)
    }

    /// The part at `x`, `y`, `width` by `height` pixels, clipped to the
    /// image, with the same palette and cycles and no file name.
    pub fn get_rect(&self, x: u32, y: u32, width: u32, height: u32) -> (r: Self)
        requires
            self.wf(),
        ensures
            r.wf(),
            r@.filename is None,
            (r@.image.width, r@.image.height) == clip(
                x as int,
                y as int,
                width as int,
                height as int,
                self@.image.width,
                self@.image.height,
            ),
            r@.image.data == rect_spec(
                self@.image.data,
                self@.image.width,
                x as int,
                y as int,
                r@.image.width,
                r@.image.height,
                1,
            ),
            r@.image.palette == self@.image.palette,
            r@.cycles == self@.cycles,
    {
        let mut cycles: Vec<Cycle> = Vec::new();
        let mut i: usize = 0;
        while i < self.cycles.len()
            invariant
                i <= self.cycles@.len(),
                cycles@ == self.cycles@.take(i as int),
            decreases self.cycles@.len() - i,
        {
            cycles.push(self.cycles[i]);
            proof {
                assert(cycles@ =~= self.cycles@.take(i + 1));
            }
            i = i + 1;
        }
        proof {
            assert(cycles@ =~= self.cycles@);
        }
        CycleImage {
            filename: None,
            indexed_image: self.indexed_image.get_rect(x, y, width, height),
            cycles,
        }
    }

    /// Makes the pixels the part of `other` at `x`, `y`, `width` by
    /// `height` pixels, clipped to `other`; palette and cycles stay.
    pub fn get_rect_from(&mut self, x: u32, y: u32, width: u32, height: u32, other: &CycleImage)
        requires
            old(self).wf(),
            other.wf(),
        ensures
            final(self).wf(),
            (final(self)@.image.width, final(self)@.image.height) == clip(
                x as int,
                y as int,
                width as int,
                height as int,
                other@.image.width,
                other@.image.height,
            ),
            final(self)@.image.data == rect_spec(
                other@.image.data,
                other@.image.width,
                x as int,
                y as int,
                final(self)@.image.width,
                final(self)@.image.height,
                1,
            ),
            final(self)@.image.palette == old(self)@.image.palette,
            final(self)@.cycles == old(self)@.cycles,
            final(self)@.filename == old(self)@.filename,
    {
        self.indexed_image.get_rect_from(x, y, width, height, &other.indexed_image);
    }

    /// Changes the size, keeping the part both sizes cover; new pixels get
    /// `index`.
    pub fn resize(&mut self, width: u32, height: u32, index: u8)
        requires
            old(self).wf(),
            width * height <= usize::MAX,
        ensures
            final(self).wf(),
            final(self)@.image.width == width,
            final(self)@.image.height == height,
            final(self)@.image.data == resize_spec(
                old(self)@.image.data,
                old(self)@.image.width,
                old(self)@.image.height,
                width as int,
                height as int,
                seq![index],
                1,
            ),
            final(self)@.image.palette == old(self)@.image.palette,
            final(self)@.cycles == old(self)@.cycles,
            final(self)@.filename == old(self)@.filename,
    {
        self.indexed_image.resize(width, height, index);
    }

    /// Renders the frame at `now` milliseconds: `frame_palette` becomes the
    /// palette as the cycles show it then (blended if `blend` is set), and
    /// `target` is painted with it.
    pub fn render_frame(&self, now: u64, blend: bool, frame_palette: &mut Palette, target: &mut RgbImage)
        requires
            self.wf(),
            old(target).wf(),
        ensures
            final(frame_palette).wf(),
            final(frame_palette)@ == if blend {
                blended_all(self@.image.palette, self@.cycles, now as int)
            } else {
                cycled_all(self@.image.palette, self@.cycles, now as int)
            },
            final(target).wf(),
            final(target)@.width == old(target)@.width,
            final(target)@.height == old(target)@.height,
            final(target)@.data == painted(
                old(target)@.data,
                self@.image.data,
                final(frame_palette)@,
            ),
    {
        frame_palette.apply_cycles_from(
            self.indexed_image.palette(),
            self.cycles.as_slice(),
            now,
            blend,
        );
        self.indexed_image.apply_with_palette(target, frame_palette);
    }

    /// Turns a decoded container into an image: the header's size, the
    /// pixel chunk's indices, the first color map as palette, and the
    /// active range and timed cycles, range cycles first.
    pub fn from_ilbm(ilbm: ILBM) -> (r: Result<CycleImage>)
        ensures
            result_matches(
                r,
                adapt_spec(ilbm_model(ilbm)),
                |img: CycleImage, a: (int, int, Seq<u8>, Seq<Rgb>, Seq<Cycle>)| adapted(img, a),
            ),
    {
        let ghost m = ilbm_model(ilbm);
        let width = ilbm.header.width as u32;
        let height = ilbm.header.height as u32;
        if width == 0 || height == 0 {
            return Err(broken("image has no pixels"));
        }
        let palette = if ilbm.cmaps.len() > 0 {
            Palette::from_colors(ilbm.cmaps[0].colors.as_slice())
        } else {
            Palette::new()
        };
        proof {
            assert(palette@ =~= cmap_palette(m.cmaps));
        }
        let mut cycles: Vec<Cycle> = Vec::new();
        let mut i: usize = 0;
        while i < ilbm.crngs.len()
            invariant
                i <= ilbm.crngs@.len(),
                cycles@ == crng_cycles(ilbm.crngs@.take(i as int)),
            decreases ilbm.crngs@.len() - i,
        {
            let c = ilbm.crngs[i];
            proof {
                assert(ilbm.crngs@.take(i + 1).drop_last() =~= ilbm.crngs@.take(i as int));
            }
            if c.flags & 1 != 0 {
                cycles.push(Cycle::new(c.low, c.high, c.rate as u32, c.flags & 2 != 0));
            }
            proof {
                assert(cycles@ =~= crng_cycles(ilbm.crngs@.take(i + 1)));
            }
            i = i + 1;
        }
        proof {
            assert(ilbm.crngs@.take(i as int) =~= ilbm.crngs@);
        }
        let ghost first = cycles@;
        let mut j: usize = 0;
        while j < ilbm.ccrts.len()
            invariant
                j <= ilbm.ccrts@.len(),
                first == crng_cycles(ilbm.crngs@),
                cycles@ == first + ccrt_cycles(ilbm.ccrts@.take(j as int)),
            decreases ilbm.ccrts@.len() - j,
        {
            let c = ilbm.ccrts[j];
            proof {
                assert(ilbm.ccrts@.take(j + 1).drop_last() =~= ilbm.ccrts@.take(j as int));
            }
            if c.direction != 0 {
                assert((c.delay_sec as u128) * 1_000_000 <= 0xFFFF_FFFFu128 * 1_000_000) by (nonlinear_arith);
                let usec: u128 = (c.delay_sec as u128) * 1_000_000 + (c.delay_usec as u128);
                assert(usec * (CCRT_RATE_FACTOR as u128) <= 0x1_0000_0000_0000_0000u128 * 8903) by (nonlinear_arith)
                    requires
                        usec <= 0xFFFF_FFFFu128 * 1_000_000 + 0xFFFF_FFFFu128,
                        CCRT_RATE_FACTOR == 8903,
                ;
                let rate = ((usec * (CCRT_RATE_FACTOR as u128) / 1_000_000) % 0x1_0000_0000) as u32;
                cycles.push(Cycle::new(c.low, c.high, rate, c.direction == 1));
            }
            proof {
                assert(cycles@ =~= first + ccrt_cycles(ilbm.ccrts@.take(j + 1)));
            }
            j = j + 1;
        }
        proof {
            assert(ilbm.ccrts@.take(j as int) =~= ilbm.ccrts@);
        }
        let image = match ilbm.body {
            Some(body) => {
                match IndexedImage::from_buffer(width, height, body.pixels, palette) {
                    Some(img) => img,
                    None => {
                        return Err(broken("image buffer is too small for given width/height"));
                    },
                }
            },
            None => {
                assert((width as int) * (height as int) <= 0xFFFF * 0xFFFF) by (nonlinear_arith)
                    requires
                        width <= 0xFFFF,
                        height <= 0xFFFF,
                ;
                IndexedImage::new(width, height, palette)
            },
        };
        Ok(CycleImage { filename: None, indexed_image: image, cycles })
    }

    /// Decodes a container and turns it into an image.
    pub fn read_ilbm(data: &[u8]) -> (r: Result<CycleImage>)
        ensures
            match read_spec(data@) {
                Err(k) => r matches Err(e) && e.kind == k,
                Ok(m) => result_matches(
                    r,
                    adapt_spec(m),
                    |img: CycleImage, a: (int, int, Seq<u8>, Seq<Rgb>, Seq<Cycle>)| adapted(img, a),
                ),
            },
    {
        match ILBM::read(data) {
            Err(e) => Err(e),
            Ok(ilbm) => {
                proof {
                    lemma_model_of_match(ilbm, read_spec(data@)->Ok_0);
                }
                CycleImage::from_ilbm(ilbm)
            },
        }
    }
}

proof fn lemma_model_of_match(v: ILBM, m: IlbmModel)
    requires
        ilbm_matches(v, m),
    ensures
        ilbm_model(v) == m,
{
    let mv = ilbm_model(v);
    assert(mv.body == m.body);
}

} // verus!
