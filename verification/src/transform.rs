//! Geometric transforms applied uniformly to every frame of every
//! state: resample to a new size, crop a rectangle, or paste onto a
//! larger transparent canvas.

use vstd::prelude::*;
use crate::bitmap::{crop_h, crop_w, crop_x, crop_y, Image};
use crate::types::{Dmi, DmiError, State};

verus! {

/// The resampling filters the resize operation offers.
#[derive(Clone, Copy, Debug, PartialEq, Eq, Structural)]
pub enum FilterType {
    Nearest,
    Triangle,
    CatmullRom,
    Gaussian,
    Lanczos3,
}

impl FilterType {
    /// A stable code for each filter, used to name resampling results.
    pub open spec fn code(self) -> int {
        match self {
            FilterType::Nearest => 0,
            FilterType::Triangle => 1,
            FilterType::CatmullRom => 2,
            FilterType::Gaussian => 3,
            FilterType::Lanczos3 => 4,
        }
    }
}

/// The pixels `image::imageops` resampling produces for a source
/// bitmap, a target size and a filter; a function of those alone.
pub uninterp spec fn resample_of(
    px: Seq<u8>,
    sw: int,
    sh: int,
    tw: int,
    th: int,
    filter: int,
) -> Seq<u8>;

/// Relies on `DynamicImage::resize_exact`: resamples to exactly the
/// requested dimensions with the requested filter.
#[verifier::external_body]
fn resize_frame(img: &Image, w: u32, h: u32, filter: FilterType) -> (r: Image)
    requires
        img.wf(),
        img.width > 0,
        img.height > 0,
        w > 0,
        h > 0,
    ensures
        r.width == w,
        r.height == h,
        r.wf(),
        r.pixels@ == resample_of(
            img.pixels@,
            img.width as int,
            img.height as int,
            w as int,
            h as int,
            filter.code(),
        ),
{
    let buf = image::RgbaImage::from_raw(img.width, img.height, img.pixels.clone()).unwrap();
    let dynimg = image::DynamicImage::ImageRgba8(buf);
    let m = match filter {
        FilterType::Nearest => image::imageops::FilterType::Nearest,
        FilterType::Triangle => image::imageops::FilterType::Triangle,
        FilterType::CatmullRom => image::imageops::FilterType::CatmullRom,
        FilterType::Gaussian => image::imageops::FilterType::Gaussian,
        FilterType::Lanczos3 => image::imageops::FilterType::Lanczos3,
    };
    let out = dynimg.resize_exact(w, h, m).to_rgba8();
    Image { width: w, height: h, pixels: out.into_raw() }
}

impl State {
    /// Resample every frame to exactly `(width, height)`.
    pub fn resize(&mut self, width: u32, height: u32, method: FilterType)
        requires
            width > 0,
            height > 0,
            forall|i: int|
                0 <= i < old(self).frames@.len() ==> (#[trigger] old(self).frames@[i]).wf()
                    && old(self).frames@[i].width > 0 && old(self).frames@[i].height > 0,
        ensures
            final(self).name@ == old(self).name@,
            final(self).dirs == old(self).dirs,
            final(self).frame_count == old(self).frame_count,
            final(self).delays@ == old(self).delays@,
            final(self).loop_ == old(self).loop_,
            final(self).rewind == old(self).rewind,
            final(self).movement == old(self).movement,
            final(self).hotspots@ == old(self).hotspots@,
            final(self).frames@.len() == old(self).frames@.len(),
            forall|i: int|
                0 <= i < old(self).frames@.len() ==> {
                    let f = #[trigger] final(self).frames@[i];
                    let g = old(self).frames@[i];
                    f.wf() && f.width == width && f.height == height && f.pixels@
                        == resample_of(
                        g.pixels@,
                        g.width as int,
                        g.height as int,
                        width as int,
                        height as int,
                        method.code(),
                    )
                },
    {
        let n = self.frames.len();
        let mut i: usize = 0;
        while i < n
            invariant
                0 <= i <= n,
                n == self.frames@.len(),
                n == old(self).frames@.len(),
                width > 0,
                height > 0,
                self.name@ == old(self).name@,
                self.dirs == old(self).dirs,
                self.frame_count == old(self).frame_count,
                self.delays@ == old(self).delays@,
                self.loop_ == old(self).loop_,
                self.rewind == old(self).rewind,
                self.movement == old(self).movement,
                self.hotspots@ == old(self).hotspots@,
                forall|q: int|
                    i <= q < n ==> self.frames@[q] == (#[trigger] old(self).frames@[q]),
                forall|q: int|
                    0 <= q < n ==> (#[trigger] old(self).frames@[q]).wf() && old(
                        self,
                    ).frames@[q].width > 0 && old(self).frames@[q].height > 0,
                forall|q: int|
                    0 <= q < i ==> {
                        let f = #[trigger] self.frames@[q];
                        let g = old(self).frames@[q];
                        f.wf() && f.width == width && f.height == height && f.pixels@
                            == resample_of(
                            g.pixels@,
                            g.width as int,
                            g.height as int,
                            width as int,
                            height as int,
                            method.code(),
                        )
                    },
            decreases n - i,
        {
            proof {
                assert(self.frames@[i as int] == old(self).frames@[i as int]);
                assert((old(self).frames@[i as int]).wf());
            }
            let nf = resize_frame(&self.frames[i], width, height, method);
            let ghost prev = self.frames@;
            self.frames.set(i, nf);
            proof {
                assert(self.frames@ =~~= prev.update(i as int, nf));
            }
            i = i + 1;
        }
    }

    /// Crop every frame to the rectangle `(x, y, width, height)`,
    /// clamped to each frame's bounds as `DynamicImage::crop` clamps.
    pub fn crop(&mut self, x: u32, y: u32, width: u32, height: u32)
        requires
            forall|i: int|
                0 <= i < old(self).frames@.len() ==> (#[trigger] old(self).frames@[i]).wf(),
        ensures
            final(self).name@ == old(self).name@,
            final(self).dirs == old(self).dirs,
            final(self).frame_count == old(self).frame_count,
            final(self).delays@ == old(self).delays@,
            final(self).loop_ == old(self).loop_,
            final(self).rewind == old(self).rewind,
            final(self).movement == old(self).movement,
            final(self).hotspots@ == old(self).hotspots@,
            final(self).frames@.len() == old(self).frames@.len(),
            forall|i: int|
                0 <= i < old(self).frames@.len() ==> {
                    let f = #[trigger] final(self).frames@[i];
                    let g = old(self).frames@[i];
                    &&& f.wf()
                    &&& f.width == crop_w(g.width as int, x as int, width as int)
                    &&& f.height == crop_h(g.height as int, y as int, height as int)
                    &&& forall|a: int, b: int, c: int|
                        0 <= a < f.width && 0 <= b < f.height && 0 <= c < 4
                            ==> #[trigger] f.pixel(a, b, c) == g.pixel(
                            crop_x(g.width as int, x as int) + a,
                            crop_y(g.height as int, y as int) + b,
                            c,
                        )
                },
    {
        let n = self.frames.len();
        let mut i: usize = 0;
        while i < n
            invariant
                0 <= i <= n,
                n == self.frames@.len(),
                n == old(self).frames@.len(),
                self.name@ == old(self).name@,
                self.dirs == old(self).dirs,
                self.frame_count == old(self).frame_count,
                self.delays@ == old(self).delays@,
                self.loop_ == old(self).loop_,
                self.rewind == old(self).rewind,
                self.movement == old(self).movement,
                self.hotspots@ == old(self).hotspots@,
                forall|q: int|
                    i <= q < n ==> self.frames@[q] == (#[trigger] old(self).frames@[q]),
                forall|q: int|
                    0 <= q < n ==> (#[trigger] old(self).frames@[q]).wf(),
                forall|q: int|
                    0 <= q < i ==> {
                        let f = #[trigger] self.frames@[q];
                        let g = old(self).frames@[q];
                        &&& f.wf()
                        &&& f.width == crop_w(g.width as int, x as int, width as int)
                        &&& f.height == crop_h(g.height as int, y as int, height as int)
                        &&& forall|a: int, b: int, c: int|
                            0 <= a < f.width && 0 <= b < f.height && 0 <= c < 4
                                ==> #[trigger] f.pixel(a, b, c) == g.pixel(
                                crop_x(g.width as int, x as int) + a,
                                crop_y(g.height as int, y as int) + b,
                                c,
                            )
                    },
            decreases n - i,
        {
            proof {
                assert(self.frames@[i as int] == old(self).frames@[i as int]);
                assert((old(self).frames@[i as int]).wf());
            }
            let nf = self.frames[i].extract(x, y, width, height);
            let ghost prev = self.frames@;
            self.frames.set(i, nf);
            proof {
                assert(self.frames@ =~~= prev.update(i as int, nf));
            }
            i = i + 1;
        }
    }

    /// Paste every frame, unscaled, at `(x, y)` onto a fresh
    /// transparent canvas of `(width, height)`.
    pub fn expand(&mut self, x: u32, y: u32, width: u32, height: u32)
        requires
            forall|i: int|
                0 <= i < old(self).frames@.len() ==> (#[trigger] old(self).frames@[i]).wf(),
            4 * ((width as int) * (height as int)) <= usize::MAX,
        ensures
            final(self).name@ == old(self).name@,
            final(self).dirs == old(self).dirs,
            final(self).frame_count == old(self).frame_count,
            final(self).delays@ == old(self).delays@,
            final(self).loop_ == old(self).loop_,
            final(self).rewind == old(self).rewind,
            final(self).movement == old(self).movement,
            final(self).hotspots@ == old(self).hotspots@,
            final(self).frames@.len() == old(self).frames@.len(),
            forall|i: int|
                0 <= i < old(self).frames@.len() ==> {
                    let f = #[trigger] final(self).frames@[i];
                    let g = old(self).frames@[i];
                    &&& f.wf()
                    &&& f.width == width
                    &&& f.height == height
                    &&& forall|a: int, b: int, c: int|
                        0 <= a < width && 0 <= b < height && 0 <= c < 4 ==> #[trigger] f.pixel(
                            a,
                            b,
                            c,
                        ) == if x <= a < x + g.width && y <= b < y + g.height {
                            g.pixel(a - x, b - y, c)
                        } else {
                            0u8
                        }
                },
    {
        let n = self.frames.len();
        let mut i: usize = 0;
        while i < n
            invariant
                0 <= i <= n,
                n == self.frames@.len(),
                n == old(self).frames@.len(),
                4 * ((width as int) * (height as int)) <= usize::MAX,
                self.name@ == old(self).name@,
                self.dirs == old(self).dirs,
                self.frame_count == old(self).frame_count,
                self.delays@ == old(self).delays@,
                self.loop_ == old(self).loop_,
                self.rewind == old(self).rewind,
                self.movement == old(self).movement,
                self.hotspots@ == old(self).hotspots@,
                forall|q: int|
                    i <= q < n ==> self.frames@[q] == (#[trigger] old(self).frames@[q]),
                forall|q: int|
                    0 <= q < n ==> (#[trigger] old(self).frames@[q]).wf(),
                forall|q: int|
                    0 <= q < i ==> {
                        let f = #[trigger] self.frames@[q];
                        let g = old(self).frames@[q];
                        &&& f.wf()
                        &&& f.width == width
                        &&& f.height == height
                        &&& forall|a: int, b: int, c: int|
                            0 <= a < width && 0 <= b < height && 0 <= c < 4
                                ==> #[trigger] f.pixel(a, b, c) == if x <= a < x + g.width && y
                                <= b < y + g.height {
                                g.pixel(a - x, b - y, c)
                            } else {
                                0u8
                            }
                    },
            decreases n - i,
        {
            proof {
                assert(self.frames@[i as int] == old(self).frames@[i as int]);
                assert((old(self).frames@[i as int]).wf());
            }
            let ghost g = self.frames@[i as int];
            let mut canvas = Image::blank(width, height).unwrap();
            let ghost blankimg = canvas;
            canvas.paste(&self.frames[i], x, y);
            proof {
                assert forall|a: int, b: int, c: int|
                    0 <= a < width && 0 <= b < height && 0 <= c < 4 implies
                    #[trigger] canvas.pixel(a, b, c) == (if x <= a < x + g.width && y <= b < y
                    + g.height {
                    g.pixel(a - x, b - y, c)
                } else {
                    0u8
                }) by {
                    crate::bitmap::lemma_pix_idx_bounds(width as int, height as int, a, b, c);
                    assert(blankimg.pixels@[crate::bitmap::pix_idx(width as int, a, b, c)]
                        == 0u8);
                }
            }
            let ghost prev = self.frames@;
            self.frames.set(i, canvas);
            proof {
                assert(self.frames@ =~~= prev.update(i as int, canvas));
            }
            i = i + 1;
        }
    }
}

impl Dmi {
    /// Resample every frame of every state and adopt the new base
    /// dimensions; per-state scalar fields are untouched. Both the
    /// source and the target dimensions must be positive: the
    /// resampler is degenerate on zero-sized bitmaps, so a container
    /// that opened with a zero height cannot be resampled.
    pub fn resize(&mut self, width: u32, height: u32, method: FilterType)
        requires
            width > 0,
            height > 0,
            old(self).frames_wf(),
            old(self).width > 0,
            old(self).height > 0,
        ensures
            final(self).name@ == old(self).name@,
            final(self).width == width,
            final(self).height == height,
            final(self).states@.len() == old(self).states@.len(),
            final(self).frames_wf(),
            forall|i: int|
                0 <= i < old(self).states@.len() ==> (#[trigger] final(self).states@[
                    i
                ]).same_scalars(old(self).states@[i]) && final(self).states@[i].frames@.len()
                    == old(self).states@[i].frames@.len(),
            forall|i: int, j: int|
                0 <= i < old(self).states@.len() && 0 <= j < old(self).states@[
                    i
                ].frames@.len() ==> (#[trigger] final(self).states@[i].frames@[j]).pixels@
                    == resample_of(
                    old(self).states@[i].frames@[j].pixels@,
                    old(self).width as int,
                    old(self).height as int,
                    width as int,
                    height as int,
                    method.code(),
                ),
    {
        let n = self.states.len();
        let ghost ow = self.width;
        let ghost oh = self.height;
        self.width = width;
        self.height = height;
        let mut i: usize = 0;
        while i < n
            invariant
                0 <= i <= n,
                n == self.states@.len(),
                n == old(self).states@.len(),
                width > 0,
                height > 0,
                self.width == width,
                self.height == height,
                self.name@ == old(self).name@,
                ow == old(self).width,
                oh == old(self).height,
                ow > 0,
                oh > 0,
                old(self).frames_wf(),
                forall|q: int|
                    i <= q < n ==> self.states@[q] == (#[trigger] old(self).states@[q]),
                forall|q: int|
                    0 <= q < i ==> (#[trigger] self.states@[q]).same_scalars(
                        old(self).states@[q],
                    ) && self.states@[q].frames@.len() == old(self).states@[q].frames@.len()
                        && self.states@[q].frames_wf(width, height),
                forall|q: int, j: int|
                    0 <= q < i && 0 <= j < old(self).states@[q].frames@.len() ==> (
                    #[trigger] self.states@[q].frames@[j]).pixels@ == resample_of(
                        old(self).states@[q].frames@[j].pixels@,
                        ow as int,
                        oh as int,
                        width as int,
                        height as int,
                        method.code(),
                    ),
            decreases n - i,
        {
            let ghost pres = self.states@;
            let mut st = self.states.remove(i);
            proof {
                assert(st == old(self).states@[i as int]);
                assert(old(self).states@[i as int].frames_wf(ow, oh));
                assert forall|j: int| 0 <= j < st.frames@.len() implies (
                #[trigger] st.frames@[j]).wf() && st.frames@[j].width > 0 && st.frames@[
                    j
                ].height > 0 by {
                    assert(st.frames@[j].width == ow && st.frames@[j].height == oh);
                }
            }
            st.resize(width, height, method);
            self.states.insert(i, st);
            proof {
                assert(self.states@ =~~= pres.update(i as int, st));
            }
            i = i + 1;
        }
    }

    /// Crop every frame of every state and adopt the new base
    /// dimensions; per-state scalar fields are untouched.
    pub fn crop(&mut self, x: u32, y: u32, width: u32, height: u32)
        requires
            old(self).frames_wf(),
        ensures
            final(self).name@ == old(self).name@,
            final(self).width == width,
            final(self).height == height,
            final(self).states@.len() == old(self).states@.len(),
            forall|i: int|
                0 <= i < old(self).states@.len() ==> (#[trigger] final(self).states@[
                    i
                ]).same_scalars(old(self).states@[i]) && final(self).states@[i].frames@.len()
                    == old(self).states@[i].frames@.len(),
            forall|i: int, j: int|
                0 <= i < old(self).states@.len() && 0 <= j < old(self).states@[
                    i
                ].frames@.len() ==> {
                    let f = #[trigger] final(self).states@[i].frames@[j];
                    let g = old(self).states@[i].frames@[j];
                    &&& f.wf()
                    &&& f.width == crop_w(g.width as int, x as int, width as int)
                    &&& f.height == crop_h(g.height as int, y as int, height as int)
                    &&& forall|a: int, b: int, c: int|
                        0 <= a < f.width && 0 <= b < f.height && 0 <= c < 4
                            ==> #[trigger] f.pixel(a, b, c) == g.pixel(
                            crop_x(g.width as int, x as int) + a,
                            crop_y(g.height as int, y as int) + b,
                            c,
                        )
                },
    {
        let n = self.states.len();
        self.width = width;
        self.height = height;
        let mut i: usize = 0;
        while i < n
            invariant
                0 <= i <= n,
                n == self.states@.len(),
                n == old(self).states@.len(),
                self.width == width,
                self.height == height,
                self.name@ == old(self).name@,
                old(self).frames_wf(),
                forall|q: int|
                    i <= q < n ==> self.states@[q] == (#[trigger] old(self).states@[q]),
                forall|q: int|
                    0 <= q < i ==> (#[trigger] self.states@[q]).same_scalars(
                        old(self).states@[q],
                    ) && self.states@[q].frames@.len() == old(self).states@[q].frames@.len(),
                forall|q: int, j: int|
                    0 <= q < i && 0 <= j < old(self).states@[q].frames@.len() ==> {
                        let f = #[trigger] self.states@[q].frames@[j];
                        let g = old(self).states@[q].frames@[j];
                        &&& f.wf()
                        &&& f.width == crop_w(g.width as int, x as int, width as int)
                        &&& f.height == crop_h(g.height as int, y as int, height as int)
                        &&& forall|a: int, b: int, c: int|
                            0 <= a < f.width && 0 <= b < f.height && 0 <= c < 4
                                ==> #[trigger] f.pixel(a, b, c) == g.pixel(
                                crop_x(g.width as int, x as int) + a,
                                crop_y(g.height as int, y as int) + b,
                                c,
                            )
                    },
            decreases n - i,
        {
            let ghost pres = self.states@;
            let mut st = self.states.remove(i);
            proof {
                assert(st == old(self).states@[i as int]);
                assert(old(self).states@[i as int].frames_wf(
                    old(self).width,
                    old(self).height,
                ));
                assert(forall|j: int|
                    0 <= j < st.frames@.len() ==> (#[trigger] st.frames@[j]).wf());
            }
            st.crop(x, y, width, height);
            self.states.insert(i, st);
            proof {
                assert(self.states@ =~~= pres.update(i as int, st));
            }
            i = i + 1;
        }
    }

    /// Paste every frame of every state onto a fresh transparent
    /// canvas and adopt the new base dimensions.
    pub fn expand(&mut self, x: u32, y: u32, width: u32, height: u32)
        requires
            old(self).frames_wf(),
            4 * ((width as int) * (height as int)) <= usize::MAX,
        ensures
            final(self).name@ == old(self).name@,
            final(self).width == width,
            final(self).height == height,
            final(self).states@.len() == old(self).states@.len(),
            final(self).frames_wf(),
            forall|i: int|
                0 <= i < old(self).states@.len() ==> (#[trigger] final(self).states@[
                    i
                ]).same_scalars(old(self).states@[i]) && final(self).states@[i].frames@.len()
                    == old(self).states@[i].frames@.len(),
            forall|i: int, j: int|
                0 <= i < old(self).states@.len() && 0 <= j < old(self).states@[
                    i
                ].frames@.len() ==> {
                    let f = #[trigger] final(self).states@[i].frames@[j];
                    let g = old(self).states@[i].frames@[j];
                    forall|a: int, b: int, c: int|
                        0 <= a < width && 0 <= b < height && 0 <= c < 4 ==> #[trigger] f.pixel(
                            a,
                            b,
                            c,
                        ) == if x <= a < x + g.width && y <= b < y + g.height {
                            g.pixel(a - x, b - y, c)
                        } else {
                            0u8
                        }
                },
    {
        let n = self.states.len();
        self.width = width;
        self.height = height;
        let mut i: usize = 0;
        while i < n
            invariant
                0 <= i <= n,
                n == self.states@.len(),
                n == old(self).states@.len(),
                4 * ((width as int) * (height as int)) <= usize::MAX,
                self.width == width,
                self.height == height,
                self.name@ == old(self).name@,
                old(self).frames_wf(),
                forall|q: int|
                    i <= q < n ==> self.states@[q] == (#[trigger] old(self).states@[q]),
                forall|q: int|
                    0 <= q < i ==> (#[trigger] self.states@[q]).same_scalars(
                        old(self).states@[q],
                    ) && self.states@[q].frames@.len() == old(self).states@[q].frames@.len()
                        && self.states@[q].frames_wf(width, height),
                forall|q: int, j: int|
                    0 <= q < i && 0 <= j < old(self).states@[q].frames@.len() ==> {
                        let f = #[trigger] self.states@[q].frames@[j];
                        let g = old(self).states@[q].frames@[j];
                        forall|a: int, b: int, c: int|
                            0 <= a < width && 0 <= b < height && 0 <= c < 4
                                ==> #[trigger] f.pixel(a, b, c) == if x <= a < x + g.width && y
                                <= b < y + g.height {
                                g.pixel(a - x, b - y, c)
                            } else {
                                0u8
                            }
                    },
            decreases n - i,
        {
            let ghost pres = self.states@;
            let mut st = self.states.remove(i);
            proof {
                assert(st == old(self).states@[i as int]);
                assert(old(self).states@[i as int].frames_wf(
                    old(self).width,
                    old(self).height,
                ));
                assert(forall|j: int|
                    0 <= j < st.frames@.len() ==> (#[trigger] st.frames@[j]).wf());
            }
            st.expand(x, y, width, height);
            self.states.insert(i, st);
            proof {
                assert(self.states@ =~~= pres.update(i as int, st));
            }
            i = i + 1;
        }
    }
}

} // verus!
