//! The clipboard transcoder: one state's frames become
//! `data:image/png;base64,` payloads fit for a text-only channel, and
//! such payloads become frames again, resampled when the target
//! container has another size.

use vstd::prelude::*;
use crate::bitmap::Image;
use crate::container::png_rgba_of;
use crate::meta::push_bytes;
use crate::text::{find_byte, find_byte_in, copy_range};
use crate::types::{views, ClipboardState, DmiError, State};

verus! {

/// The standard-alphabet base64 text of a byte string.
pub uninterp spec fn b64_of(data: Seq<u8>) -> Seq<u8>;

/// What standard-alphabet base64 decoding yields, when the text is
/// well-formed.
pub uninterp spec fn b64_decode_of(text: Seq<u8>) -> Option<Seq<u8>>;

/// The plain PNG encoding of an RGBA8 bitmap, as the clipboard
/// payloads carry one.
pub uninterp spec fn png_image_of(w: int, h: int, px: Seq<u8>) -> Seq<u8>;

/// The dimensions and pixels `image::DynamicImage::resize` produces
/// when fitting a bitmap inside a target box with the nearest filter.
pub uninterp spec fn fit_w_of(sw: int, sh: int, tw: int, th: int) -> int;

pub uninterp spec fn fit_h_of(sw: int, sh: int, tw: int, th: int) -> int;

pub uninterp spec fn resample_fit_of(px: Seq<u8>, sw: int, sh: int, tw: int, th: int) -> Seq<
    u8,
>;

/// Relies on base64's STANDARD engine: its alphabet holds no comma,
/// and decoding inverts encoding.
#[verifier::external_body]
fn b64_encode(data: &Vec<u8>) -> (r: Vec<u8>)
    ensures
        r@ == b64_of(data@),
        forall|i: int| 0 <= i < r@.len() ==> r@[i] != 44u8,
        b64_decode_of(r@) == Some(data@),
{
    base64::Engine::encode(&base64::engine::general_purpose::STANDARD, data).into_bytes()
}

/// Relies on base64's STANDARD engine: one result per input text.
#[verifier::external_body]
fn b64_decode(text: &[u8]) -> (r: Result<Vec<u8>, DmiError>)
    ensures
        match r {
            Ok(d) => b64_decode_of(text@) == Some(d@),
            Err(e) => b64_decode_of(text@) is None && e == DmiError::DecodeError,
        },
{
    match base64::Engine::decode(&base64::engine::general_purpose::STANDARD, text) {
        Ok(d) => Ok(d),
        Err(_) => Err(DmiError::DecodeError),
    }
}

/// Relies on png::Encoder: 8-bit RGBA at maximum compression, no text
/// chunk; PNG storage of RGBA8 is lossless.
#[verifier::external_body]
fn encode_png_plain(img: &Image) -> (r: Result<Vec<u8>, DmiError>)
    requires
        img.wf(),
    ensures
        img.width > 0 && img.height > 0 ==> r is Ok,
        match r {
            Ok(b) => {
                &&& b@ == png_image_of(img.width as int, img.height as int, img.pixels@)
                &&& png_rgba_of(b@) == Some(
                    (img.width as int, img.height as int, img.pixels@),
                )
            },
            Err(e) => e == DmiError::PngEncoding && (img.width == 0 || img.height == 0),
        },
{
    let mut out: Vec<u8> = Vec::new();
    let mut encoder = png::Encoder::new(&mut out, img.width, img.height);
    encoder.set_compression(png::Compression::Best);
    encoder.set_color(png::ColorType::Rgba);
    encoder.set_depth(png::BitDepth::Eight);
    let mut writer = encoder.write_header().map_err(|_| DmiError::PngEncoding)?;
    writer.write_image_data(&img.pixels).map_err(|_| DmiError::PngEncoding)?;
    drop(writer);
    Ok(out)
}

/// Relies on `DynamicImage::resize`: fits the bitmap inside the target
/// box, preserving aspect ratio, with the nearest-neighbor filter.
#[verifier::external_body]
fn resize_fit_frame(img: &Image, w: u32, h: u32) -> (r: Image)
    requires
        img.wf(),
        img.width > 0,
        img.height > 0,
        w > 0,
        h > 0,
    ensures
        r.wf(),
        r.width == fit_w_of(img.width as int, img.height as int, w as int, h as int),
        r.height == fit_h_of(img.width as int, img.height as int, w as int, h as int),
        r.pixels@ == resample_fit_of(
            img.pixels@,
            img.width as int,
            img.height as int,
            w as int,
            h as int,
        ),
{
    let buf = image::RgbaImage::from_raw(img.width, img.height, img.pixels.clone()).unwrap();
    let out = image::DynamicImage::ImageRgba8(buf).resize(
        w,
        h,
        image::imageops::FilterType::Nearest,
    ).to_rgba8();
    Image { width: out.width(), height: out.height(), pixels: out.into_raw() }
}

/// `"data:image/png;base64,"`.
pub open spec fn data_uri_prefix() -> Seq<u8> {
    seq![
        100u8, 97u8, 116u8, 97u8, 58u8, 105u8, 109u8, 97u8, 103u8, 101u8, 47u8, 112u8, 110u8,
        103u8, 59u8, 98u8, 97u8, 115u8, 101u8, 54u8, 52u8, 44u8,
    ]
}

fn data_uri_prefix_vec() -> (r: Vec<u8>)
    ensures
        r@ == data_uri_prefix(),
{
    let mut v: Vec<u8> = Vec::new();
    v.push(100u8);
    v.push(97u8);
    v.push(116u8);
    v.push(97u8);
    v.push(58u8);
    v.push(105u8);
    v.push(109u8);
    v.push(97u8);
    v.push(103u8);
    v.push(101u8);
    v.push(47u8);
    v.push(112u8);
    v.push(110u8);
    v.push(103u8);
    v.push(59u8);
    v.push(98u8);
    v.push(97u8);
    v.push(115u8);
    v.push(101u8);
    v.push(54u8);
    v.push(52u8);
    v.push(44u8);
    proof {
        assert(v@ =~= data_uri_prefix());
    }
    v
}

/// The base64 segment of a payload: the text between the first comma
/// and the next, as `split(',').nth(1)` extracts it.
pub open spec fn payload_b64(p: Seq<u8>) -> Option<Seq<u8>> {
    let i = find_byte(p, 44u8);
    if i == -1 {
        Option::None
    } else {
        let rest = p.skip(i + 1);
        let j = find_byte(rest, 44u8);
        if j == -1 {
            Option::Some(rest)
        } else {
            Option::Some(rest.take(j))
        }
    }
}

/// What one payload decodes to against a `(w, h)` target: the decoded
/// bitmap itself when it already matches, its nearest-neighbor fit
/// otherwise.
pub open spec fn payload_frame(p: Seq<u8>, w: int, h: int) -> Result<
    (int, int, Seq<u8>),
    DmiError,
> {
    match payload_b64(p) {
        Option::None => Err(DmiError::MissingData),
        Option::Some(t) => match b64_decode_of(t) {
            Option::None => Err(DmiError::DecodeError),
            Option::Some(data) => match png_rgba_of(data) {
                Option::None => Err(DmiError::PngDecoding),
                Option::Some(dec) => {
                    if dec.0 == w && dec.1 == h {
                        Ok((w, h, dec.2))
                    } else if dec.0 > 0 && dec.1 > 0 && w > 0 && h > 0 {
                        Ok(
                            (
                                fit_w_of(dec.0, dec.1, w, h),
                                fit_h_of(dec.0, dec.1, w, h),
                                resample_fit_of(dec.2, dec.0, dec.1, w, h),
                            ),
                        )
                    } else {
                        Err(DmiError::ImageSizeMismatch)
                    }
                },
            },
        },
    }
}

/// `f` is exactly what decoding payload `p` against a `(w, h)` target
/// yields.
pub open spec fn frame_matches_payload(f: Image, p: Seq<u8>, w: int, h: int) -> bool {
    &&& payload_frame(p, w, h) is Ok
    &&& f.width == payload_frame(p, w, h)->Ok_0.0
    &&& f.height == payload_frame(p, w, h)->Ok_0.1
    &&& f.pixels@ == payload_frame(p, w, h)->Ok_0.2
    &&& f.wf()
}

/// Decode one payload against the target dimensions.
fn decode_payload(p: &[u8], w: u32, h: u32) -> (r: Result<Image, DmiError>)
    ensures
        match r {
            Ok(img) => {
                &&& payload_frame(p@, w as int, h as int) is Ok
                &&& {
                    let f = payload_frame(p@, w as int, h as int)->Ok_0;
                    img.width == f.0 && img.height == f.1 && img.pixels@ == f.2 && img.wf()
                }
            },
            Err(e) => payload_frame(p@, w as int, h as int) == Err::<
                (int, int, Seq<u8>),
                DmiError,
            >(e),
        },
{
    let i = match find_byte_in(p, 44u8) {
        Some(i) => i,
        None => {
            return Err(DmiError::MissingData);
        },
    };
    let plen = p.len();
    let rest: &[u8] = &p[i + 1..plen];
    proof {
        assert(rest@ =~= p@.skip(i as int + 1));
    }
    let b64: Vec<u8> = match find_byte_in(rest, 44u8) {
        Some(j) => copy_range(rest, 0, j),
        None => copy_range(rest, 0, rest.len()),
    };
    proof {
        assert(Option::Some(b64@) == payload_b64(p@)) by {
            assert(rest@.take(rest@.len() as int) =~= rest@);
        }
    }
    let data = match b64_decode(b64.as_slice()) {
        Ok(d) => d,
        Err(e) => {
            return Err(e);
        },
    };
    let img = match crate::container::decode_png_rgba(data.as_slice()) {
        Ok(img) => img,
        Err(e) => {
            return Err(e);
        },
    };
    if img.width == w && img.height == h {
        return Ok(img);
    }
    if img.width > 0 && img.height > 0 && w > 0 && h > 0 {
        let fitted = resize_fit_frame(&img, w, h);
        return Ok(fitted);
    }
    Err(DmiError::ImageSizeMismatch)
}

/// What a successful `into_clipboard` hands out.
pub open spec fn clip_post(s: State, c: ClipboardState) -> bool {
    &&& c.name@ == s.name@
    &&& c.dirs == s.dirs
    &&& views(c.delays@) == views(s.delays@)
    &&& c.loop_ == s.loop_
    &&& c.rewind == s.rewind
    &&& c.movement == s.movement
    &&& views(c.hotspots@) == views(s.hotspots@)
    &&& c.frames@.len() == s.frames@.len()
    &&& forall|i: int|
        0 <= i < s.frames@.len() ==> views(c.frames@)[i] == data_uri_prefix() + b64_of(
            png_image_of(
                (#[trigger] s.frames@[i]).width as int,
                s.frames@[i].height as int,
                s.frames@[i].pixels@,
            ),
        )
    &&& forall|i: int|
        0 <= i < s.frames@.len() ==> payload_frame(
            views(c.frames@)[i],
            (#[trigger] s.frames@[i]).width as int,
            s.frames@[i].height as int,
        ) == Ok::<(int, int, Seq<u8>), DmiError>(
            (
                s.frames@[i].width as int,
                s.frames@[i].height as int,
                s.frames@[i].pixels@,
            ),
        )
}

/// What a successful `from_clipboard` returns.
pub open spec fn unclip_post(c: ClipboardState, w: int, h: int, s: State) -> bool {
    &&& s.name@ == c.name@
    &&& s.dirs == c.dirs
    &&& views(s.delays@) == views(c.delays@)
    &&& s.loop_ == c.loop_
    &&& s.rewind == c.rewind
    &&& s.movement == c.movement
    &&& views(s.hotspots@) == views(c.hotspots@)
    &&& s.frames@.len() == c.frames@.len()
    &&& s.frame_count == c.frames@.len() as int / (c.dirs as int)
    &&& forall|i: int|
        0 <= i < c.frames@.len() ==> #[trigger] frame_matches_payload(
            s.frames@[i],
            views(c.frames@)[i],
            w,
            h,
        )
}

impl State {
    /// Encode every frame as a `data:image/png;base64,` payload;
    /// scalar fields are carried over verbatim.
    pub fn into_clipboard(self) -> (r: Result<ClipboardState, DmiError>)
        requires
            forall|i: int|
                0 <= i < self.frames@.len() ==> (#[trigger] self.frames@[i]).wf(),
        ensures
            match r {
                Ok(c) => clip_post(self, c),
                Err(e) => e == DmiError::PngEncoding && exists|i: int|
                    0 <= i < self.frames@.len() && ((#[trigger] self.frames@[i]).width == 0
                        || self.frames@[i].height == 0),
            },
            (forall|i: int|
                0 <= i < self.frames@.len() ==> (#[trigger] self.frames@[i]).width > 0
                    && self.frames@[i].height > 0) ==> r is Ok,
    {
        let mut payloads: Vec<Vec<u8>> = Vec::new();
        let n = self.frames.len();
        let mut i: usize = 0;
        while i < n
            invariant
                0 <= i <= n,
                n == self.frames@.len(),
                forall|q: int|
                    0 <= q < n ==> (#[trigger] self.frames@[q]).wf(),
                payloads@.len() == i,
                forall|q: int|
                    0 <= q < i ==> views(payloads@)[q] == data_uri_prefix() + b64_of(
                        png_image_of(
                            (#[trigger] self.frames@[q]).width as int,
                            self.frames@[q].height as int,
                            self.frames@[q].pixels@,
                        ),
                    ),
                forall|q: int|
                    0 <= q < i ==> payload_frame(
                        views(payloads@)[q],
                        (#[trigger] self.frames@[q]).width as int,
                        self.frames@[q].height as int,
                    ) == Ok::<(int, int, Seq<u8>), DmiError>(
                        (
                            self.frames@[q].width as int,
                            self.frames@[q].height as int,
                            self.frames@[q].pixels@,
                        ),
                    ),
            decreases n - i,
        {
            let png = match encode_png_plain(&self.frames[i]) {
                Ok(b) => b,
                Err(e) => {
                    return Err(e);
                },
            };
            let b64 = b64_encode(&png);
            let mut payload = data_uri_prefix_vec();
            push_bytes(&mut payload, b64.as_slice());
            proof {
                let f = self.frames@[i as int];
                assert(payload@ =~= data_uri_prefix() + b64_of(
                    png_image_of(f.width as int, f.height as int, f.pixels@),
                ));
                // the prefix's only comma is its last byte, so the
                // base64 segment is exactly the encoded text
                assert(payload@[21] == 44u8);
                assert forall|k: int| 0 <= k < 21 implies payload@[k] != 44u8 by {
                    assert(payload@[k] == data_uri_prefix()[k]);
                }
                crate::text::lemma_find_byte_at(payload@, 44u8, 21);
                let rest = payload@.skip(22);
                assert(rest =~= b64@);
                crate::text::lemma_find_byte_none(rest, 44u8);
                assert(payload_b64(payload@) == Option::Some(b64@));
            }
            let ghost prevp = payloads@;
            payloads.push(payload);
            proof {
                assert(views(payloads@) =~~= views(prevp).push(payload@));
            }
            i = i + 1;
        }
        Ok(
            ClipboardState {
                name: self.name,
                dirs: self.dirs,
                frames: payloads,
                delays: self.delays,
                loop_: self.loop_,
                rewind: self.rewind,
                movement: self.movement,
                hotspots: self.hotspots,
            },
        )
    }

    /// Decode a clipboard payload back into a state: payloads that
    /// already match the target dimensions come back pixel-exact,
    /// others are resampled to fit; the frame count is derived from
    /// the payload count and the direction count.
    #[verifier::rlimit(100)]
    pub fn from_clipboard(clip: ClipboardState, width: u32, height: u32) -> (r: Result<
        State,
        DmiError,
    >)
        requires
            clip.dirs > 0,
            clip.frames@.len() <= u32::MAX,
        ensures
            match r {
                Ok(s) => unclip_post(clip, width as int, height as int, s),
                Err(e) => exists|i: int|
                    0 <= i < clip.frames@.len() && #[trigger] payload_frame(
                        views(clip.frames@)[i],
                        width as int,
                        height as int,
                    ) == Err::<(int, int, Seq<u8>), DmiError>(e) && forall|z: int|
                        0 <= z < i ==> (#[trigger] payload_frame(
                            views(clip.frames@)[z],
                            width as int,
                            height as int,
                        )) is Ok,
            },
            (forall|i: int|
                0 <= i < clip.frames@.len() ==> (#[trigger] payload_frame(
                    views(clip.frames@)[i],
                    width as int,
                    height as int,
                )) is Ok) ==> r is Ok,
    {
        let mut frames: Vec<Image> = Vec::new();
        let n = clip.frames.len();
        let mut i: usize = 0;
        #[verifier::loop_isolation(false)]
        while i < n
            invariant
                0 <= i <= n,
                n == clip.frames@.len(),
                frames@.len() == i,
                forall|q: int|
                    0 <= q < i ==> #[trigger] frame_matches_payload(
                        frames@[q],
                        clip.frames@[q]@,
                        width as int,
                        height as int,
                    ),
            decreases n - i,
        {
            let img = match decode_payload(clip.frames[i].as_slice(), width, height) {
                Ok(img) => img,
                Err(e) => {
                    proof {
                        assert(views(clip.frames@)[i as int] == clip.frames@[i as int]@);
                        assert(payload_frame(
                            views(clip.frames@)[i as int],
                            width as int,
                            height as int,
                        ) == Err::<(int, int, Seq<u8>), DmiError>(e));
                        assert forall|z: int|
                            0 <= z < i implies (#[trigger] payload_frame(
                            views(clip.frames@)[z],
                            width as int,
                            height as int,
                        )) is Ok by {
                            assert(views(clip.frames@)[z] == clip.frames@[z]@);
                            assert(frame_matches_payload(frames@[z], clip.frames@[z]@,
                                width as int, height as int));
                        }
                    }
                    return Err(e);
                },
            };
            let ghost prevf = frames@;
            frames.push(img);
            proof {
                assert(frame_matches_payload(img, clip.frames@[i as int]@, width as int,
                    height as int));
                assert forall|q: int|
                    0 <= q < i + 1 implies #[trigger] frame_matches_payload(
                    frames@[q],
                    clip.frames@[q]@,
                    width as int,
                    height as int,
                ) by {
                    if q < i {
                        assert(frames@[q] == prevf[q]);
                        assert(frame_matches_payload(prevf[q], clip.frames@[q]@,
                            width as int, height as int));
                    } else {
                        assert(frames@[q] == img);
                    }
                }
            }
            i = i + 1;
        }
        let frame_count = (n as u32) / clip.dirs;
        proof {
            assert forall|q: int|
                0 <= q < n implies #[trigger] frame_matches_payload(
                frames@[q],
                views(clip.frames@)[q],
                width as int,
                height as int,
            ) by {
                assert(views(clip.frames@)[q] == clip.frames@[q]@);
                assert(frame_matches_payload(frames@[q], clip.frames@[q]@, width as int,
                    height as int));
            }
        }
        Ok(
            State {
                name: clip.name,
                dirs: clip.dirs,
                frames,
                frame_count,
                delays: clip.delays,
                loop_: clip.loop_,
                rewind: clip.rewind,
                movement: clip.movement,
                hotspots: clip.hotspots,
            },
        )
    }
}

/// The clipboard round trip: for a state whose frames already carry
/// the target dimensions, pasting what copying produced restores every
/// scalar field and every pixel.
pub proof fn lemma_clipboard_roundtrip(s: State, c: ClipboardState, w: int, h: int, s2: State)
    requires
        forall|i: int|
            0 <= i < s.frames@.len() ==> (#[trigger] s.frames@[i]).width == w
                && s.frames@[i].height == h,
        s.frames@.len() == (s.frame_count as int) * (s.dirs as int),
        s.dirs > 0,
        clip_post(s, c),
        unclip_post(c, w, h, s2),
    ensures
        s2.name@ == s.name@,
        s2.dirs == s.dirs,
        s2.frame_count == s.frame_count,
        views(s2.delays@) == views(s.delays@),
        s2.loop_ == s.loop_,
        s2.rewind == s.rewind,
        s2.movement == s.movement,
        views(s2.hotspots@) == views(s.hotspots@),
        s2.frames@.len() == s.frames@.len(),
        forall|i: int|
            0 <= i < s.frames@.len() ==> {
                let f = #[trigger] s2.frames@[i];
                let g = s.frames@[i];
                f.width == g.width && f.height == g.height && f.pixels@ == g.pixels@
            },
{
    assert forall|i: int| 0 <= i < s.frames@.len() implies {
        let f = #[trigger] s2.frames@[i];
        let g = s.frames@[i];
        f.width == g.width && f.height == g.height && f.pixels@ == g.pixels@
    } by {
        let g = s.frames@[i];
        assert(payload_frame(views(c.frames@)[i], g.width as int, g.height as int)
            == Ok::<(int, int, Seq<u8>), DmiError>(
            (g.width as int, g.height as int, g.pixels@),
        ));
        assert(g.width == w && g.height == h);
        assert(frame_matches_payload(s2.frames@[i], views(c.frames@)[i], w, h));
    }
    assert(s2.frame_count == (s.frames@.len() as int) / (s.dirs as int));
    assert((s.frame_count as int) * (s.dirs as int) / (s.dirs as int) == s.frame_count as int)
        by (nonlinear_arith)
        requires
            s.dirs > 0,
    {}
}

} // verus!
