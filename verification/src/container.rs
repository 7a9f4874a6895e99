//! The container codec: a DMI file is a PNG whose pixels are the
//! packed frame sheet and whose compressed text chunk holds the
//! metadata block. `open_bytes` slices the sheet into per-state
//! frames; `save_bytes` packs and re-encodes it.

use vstd::prelude::*;
use std::io::Cursor;
use crate::bitmap::{crop_h, crop_w, crop_x, crop_y, pix_idx, Image};
use crate::layout::{is_ceil_sqrt, is_row_count, optimal_size};
use crate::meta::{parse_meta, gen_meta, meta_of, MetaAcc, StateMeta, metas_of};
use crate::roundtrip::lemma_parse_generate;
use crate::types::{views, Dmi, DmiError, State};

verus! {

/// The text of the first compressed Latin-1 text chunk of a PNG,
/// UTF-8 encoded, when the file decodes and carries one.
pub uninterp spec fn ztxt_text_of(b: Seq<u8>) -> Option<Seq<u8>>;

/// Whether the bytes parse as a PNG stream at all.
pub uninterp spec fn png_parses(b: Seq<u8>) -> bool;

/// Whether a parsed PNG carries at least one compressed Latin-1 text
/// chunk.
pub uninterp spec fn has_ztxt_chunk(b: Seq<u8>) -> bool;

/// The RGBA8 pixels a PNG decodes to: `(width, height, bytes)`.
pub uninterp spec fn png_rgba_of(b: Seq<u8>) -> Option<(int, int, Seq<u8>)>;

/// The container PNG encoding of a sheet and its metadata text.
pub uninterp spec fn container_png_of(w: int, h: int, px: Seq<u8>, meta: Seq<u8>) -> Seq<u8>;

pub open spec fn ascii_seq(s: Seq<u8>) -> bool {
    forall|i: int| 0 <= i < s.len() ==> s[i] < 128
}

/// Relies on png::Decoder, run without its default memory budget so
/// that any text chunk the encoder wrote reads back: hands out the
/// first zTXt chunk's inflated text; a stream that is no PNG, or a
/// chunk that does not inflate, fails as `PngDecoding`, a parsed PNG
/// without the chunk as `MissingZTXTChunk`.
#[verifier::external_body]
fn read_ztxt(bytes: &[u8]) -> (r: Result<Vec<u8>, DmiError>)
    ensures
        match r {
            Ok(t) => png_parses(bytes@) && has_ztxt_chunk(bytes@) && ztxt_text_of(bytes@)
                == Some(t@),
            Err(e) => {
                &&& ztxt_text_of(bytes@) is None
                &&& (e == DmiError::MissingZTXTChunk || e == DmiError::PngDecoding)
                &&& (e == DmiError::MissingZTXTChunk <==> (png_parses(bytes@)
                    && !has_ztxt_chunk(bytes@)))
            },
        },
{
    let limits = png::Limits { bytes: usize::MAX };
    let decoder = png::Decoder::new_with_limits(Cursor::new(bytes), limits);
    let reader = decoder.read_info().map_err(|_| DmiError::PngDecoding)?;
    let chunk = match reader.info().compressed_latin1_text.first() {
        Some(c) => c,
        None => return Err(DmiError::MissingZTXTChunk),
    };
    let text = chunk.get_text().map_err(|_| DmiError::PngDecoding)?;
    Ok(text.into_bytes())
}

/// Relies on image::io::Reader, run with its decoding limits lifted
/// so that any sheet the encoder produced decodes back: decodes a PNG
/// and converts it to RGBA8, one result per input.
#[verifier::external_body]
pub(crate) fn decode_png_rgba(bytes: &[u8]) -> (r: Result<Image, DmiError>)
    ensures
        match r {
            Ok(img) => img.wf() && png_rgba_of(bytes@) == Some(
                (img.width as int, img.height as int, img.pixels@),
            ),
            Err(e) => png_rgba_of(bytes@) is None && e == DmiError::PngDecoding,
        },
{
    let mut reader = image::io::Reader::with_format(Cursor::new(bytes), image::ImageFormat::Png);
    reader.no_limits();
    let img = reader.decode().map_err(|_| DmiError::PngDecoding)?;
    let rgba = img.to_rgba8();
    Ok(Image { width: rgba.width(), height: rgba.height(), pixels: rgba.into_raw() })
}

/// Relies on png::Encoder: 8-bit RGBA at maximum compression with one
/// zTXt chunk under the `Description` keyword. Encoding to memory
/// succeeds for ASCII metadata; PNG storage of RGBA8 is lossless, and
/// ASCII text survives the Latin-1 chunk round trip, both read back by
/// this crate's limit-free decode wrappers.
#[verifier::external_body]
fn encode_container_png(width: u32, height: u32, pixels: &Vec<u8>, meta: &Vec<u8>) -> (r:
    Result<Vec<u8>, DmiError>)
    requires
        width > 0,
        height > 0,
        pixels@.len() == 4 * ((width as int) * (height as int)),
    ensures
        ascii_seq(meta@) ==> r is Ok,
        match r {
            Ok(b) => {
                &&& b@ == container_png_of(width as int, height as int, pixels@, meta@)
                &&& ascii_seq(meta@) ==> ztxt_text_of(b@) == Some(meta@)
                &&& png_rgba_of(b@) == Some((width as int, height as int, pixels@))
            },
            Err(e) => e == DmiError::PngEncoding,
        },
{
    let mut out: Vec<u8> = Vec::new();
    let mut encoder = png::Encoder::new(&mut out, width, height);
    encoder.set_compression(png::Compression::Best);
    encoder.set_color(png::ColorType::Rgba);
    encoder.set_depth(png::BitDepth::Eight);
    let text = String::from_utf8_lossy(meta).into_owned();
    encoder.add_ztxt_chunk("Description".to_string(), text).map_err(
        |_| DmiError::PngEncoding,
    )?;
    let mut writer = encoder.write_header().map_err(|_| DmiError::PngEncoding)?;
    writer.write_image_data(pixels).map_err(|_| DmiError::PngEncoding)?;
    drop(writer);
    Ok(out)
}

/// The delay-count reconciliation rule: pad a short list with its last
/// entry, truncate a long one, default to `1` when absent and more
/// than one frame is announced.
pub open spec fn reconcile_delays(delays: Seq<Seq<u8>>, fc: int) -> Seq<Seq<u8>> {
    if delays.len() > 0 {
        if delays.len() < fc {
            delays + Seq::new((fc - delays.len()) as nat, |k: int| delays.last())
        } else {
            delays.take(fc)
        }
    } else if fc > 1 {
        Seq::new(fc as nat, |k: int| seq![49u8])
    } else {
        delays
    }
}

/// Scalars carried over from the metadata record, delays reconciled.
pub open spec fn state_from_meta(s: State, m: StateMeta) -> bool {
    &&& s.name@ == m.name
    &&& s.dirs == m.dirs
    &&& s.frame_count == m.frame_count
    &&& views(s.delays@) == reconcile_delays(m.delays, m.frame_count as int)
    &&& s.loop_ == m.loop_
    &&& s.rewind == m.rewind
    &&& s.movement == m.movement
    &&& views(s.hotspots@) == m.hotspots
}

/// Flattened frames announced by the records before index `i`.
pub open spec fn flat_before(ms: Seq<StateMeta>, i: int) -> int
    decreases i,
{
    if i <= 0 {
        0
    } else {
        flat_before(ms, i - 1) + (ms[i - 1].frame_count as int) * (ms[i - 1].dirs as int)
    }
}

/// One byte of a packed sheet.
pub open spec fn sheet_pixel(px: Seq<u8>, sw: int, x: int, y: int, c: int) -> u8 {
    px[pix_idx(sw, x, y, c)]
}

/// Tile `t` of a `cols`-wide grid of `w x h` tiles lies inside a
/// `sw x sh` sheet.
pub open spec fn tile_fits(t: int, cols: int, w: int, h: int, sw: int, sh: int) -> bool {
    (t % cols + 1) * w <= sw && (h == 0 || (t / cols + 1) * h <= sh)
}

/// The frames of `st` are exactly the grid tiles starting at flat
/// index `t0`.
pub open spec fn frames_match_sheet(
    st: State,
    w: int,
    h: int,
    cols: int,
    px: Seq<u8>,
    sw: int,
    t0: int,
) -> bool {
    forall|j: int, a: int, b: int, c: int|
        0 <= j < st.frames@.len() && 0 <= a < w && 0 <= b < h && 0 <= c < 4
            ==> #[trigger] st.frames@[j].pixel(a, b, c) == sheet_pixel(
            px,
            sw,
            ((t0 + j) % cols) * w + a,
            ((t0 + j) / cols) * h + b,
            c,
        )
}

/// Every tile the metadata announces lies inside the decoded sheet.
pub open spec fn sizes_fit(acc: MetaAcc, iw: int, ih: int) -> bool {
    let w = acc.width as int;
    let h = acc.height as int;
    let total = flat_before(acc.states, acc.states.len() as int);
    &&& w > 0
    &&& total > 0 ==> iw / w > 0 && forall|t: int|
        0 <= t < total ==> #[trigger] tile_fits(t, iw / w, w, h, iw, ih)
}

/// What a successful `open_bytes` returns.
pub open spec fn open_post(name: Seq<u8>, bytes: Seq<u8>, d: Dmi) -> bool {
    &&& ztxt_text_of(bytes) is Some
    &&& parse_meta(ztxt_text_of(bytes)->Some_0, 32, 32) is Ok
    &&& png_rgba_of(bytes) is Some
    &&& {
        let acc = parse_meta(ztxt_text_of(bytes)->Some_0, 32, 32)->Ok_0;
        let dec = png_rgba_of(bytes)->Some_0;
        let cols = dec.0 / (acc.width as int);
        &&& d.name@ == name
        &&& d.width == acc.width
        &&& d.height == acc.height
        &&& d.width > 0
        &&& d.states@.len() == acc.states.len()
        &&& forall|i: int|
            0 <= i < d.states@.len() ==> state_from_meta(#[trigger] d.states@[i], acc.states[i])
        &&& forall|i: int|
            0 <= i < d.states@.len() ==> (#[trigger] d.states@[i]).frames@.len()
                == d.states@[i].flat_count()
        &&& d.frames_wf()
        &&& forall|i: int|
            0 <= i < d.states@.len() ==> frames_match_sheet(
                #[trigger] d.states@[i],
                d.width as int,
                d.height as int,
                cols,
                dec.2,
                dec.0,
                flat_before(acc.states, i),
            )
    }
}

/// Which error `open_bytes` returns, stage by stage.
pub open spec fn open_fail(bytes: Seq<u8>, e: DmiError) -> bool {
    match ztxt_text_of(bytes) {
        Option::None => (e == DmiError::MissingZTXTChunk || e == DmiError::PngDecoding) && (
        e == DmiError::MissingZTXTChunk <==> (png_parses(bytes) && !has_ztxt_chunk(bytes))),
        Option::Some(text) => match parse_meta(text, 32, 32) {
            Err(pe) => e == pe,
            Ok(acc) => match png_rgba_of(bytes) {
                Option::None => e == DmiError::PngDecoding,
                Option::Some(dec) => e == DmiError::ImageSizeMismatch && !sizes_fit(
                    acc,
                    dec.0,
                    dec.1,
                ),
            },
        },
    }
}

/// Apply the reconciliation rule to one state's delay list.
fn reconcile_state_delays(st: &mut State)
    ensures
        final(st).name@ == old(st).name@,
        final(st).dirs == old(st).dirs,
        final(st).frames@ == old(st).frames@,
        final(st).frame_count == old(st).frame_count,
        final(st).loop_ == old(st).loop_,
        final(st).rewind == old(st).rewind,
        final(st).movement == old(st).movement,
        final(st).hotspots@ == old(st).hotspots@,
        views(final(st).delays@) == reconcile_delays(
            views(old(st).delays@),
            old(st).frame_count as int,
        ),
{
    let fc = st.frame_count as usize;
    let n = st.delays.len();
    let ghost dv = views(st.delays@);
    if n > 0 {
        if n < fc {
            let last = st.delays[n - 1].clone();
            let ghost lastv = st.delays@[n - 1]@;
            proof {
                assert(last@ == lastv);
                assert(dv.last() == lastv);
            }
            let mut k: usize = n;
            while k < fc
                invariant
                    n <= k <= fc,
                    n >= 1,
                    fc <= u32::MAX,
                    last@ == lastv,
                    dv.len() == n,
                    dv.last() == lastv,
                    st.delays@.len() == k,
                    views(st.delays@) =~~= dv + Seq::new((k - n) as nat, |z: int| lastv),
                    st.name@ == old(st).name@,
                    st.dirs == old(st).dirs,
                    st.frames@ == old(st).frames@,
                    st.frame_count == old(st).frame_count,
                    st.loop_ == old(st).loop_,
                    st.rewind == old(st).rewind,
                    st.movement == old(st).movement,
                    st.hotspots@ == old(st).hotspots@,
                decreases fc - k,
            {
                let item = last.clone();
                proof {
                    assert(item@ == lastv);
                }
                let ghost prevdl = st.delays@;
                st.delays.push(item);
                proof {
                    assert(views(st.delays@) =~~= views(prevdl).push(lastv));
                    assert(dv + Seq::new((k + 1 - n) as nat, |z: int| lastv) =~~= (dv
                        + Seq::new((k - n) as nat, |z: int| lastv)).push(lastv));
                }
                k = k + 1;
            }
            proof {
                assert(views(st.delays@) =~~= reconcile_delays(dv, fc as int));
            }
        } else {
            st.delays.truncate(fc);
            proof {
                assert(views(st.delays@) =~~= dv.take(fc as int));
            }
        }
    } else if st.frame_count > 1 {
        let mut k: usize = 0;
        while k < fc
            invariant
                0 <= k <= fc,
                st.delays@.len() == k,
                views(st.delays@) =~~= Seq::new(k as nat, |z: int| seq![49u8]),
                st.name@ == old(st).name@,
                st.dirs == old(st).dirs,
                st.frames@ == old(st).frames@,
                st.frame_count == old(st).frame_count,
                st.loop_ == old(st).loop_,
                st.rewind == old(st).rewind,
                st.movement == old(st).movement,
                st.hotspots@ == old(st).hotspots@,
            decreases fc - k,
        {
            let mut one: Vec<u8> = Vec::new();
            one.push(49u8);
            proof {
                assert(one@ =~= seq![49u8]);
            }
            let ghost prevdl = st.delays@;
            st.delays.push(one);
            proof {
                assert(views(st.delays@) =~~= views(prevdl).push(seq![49u8]));
                assert(Seq::new((k + 1) as nat, |z: int| seq![49u8]) =~~= Seq::new(
                    k as nat,
                    |z: int| seq![49u8],
                ).push(seq![49u8]));
            }
            k = k + 1;
        }
        proof {
            assert(views(st.delays@) =~~= reconcile_delays(dv, fc as int));
        }
    } else {
        proof {
            assert(views(st.delays@) =~~= reconcile_delays(dv, fc as int));
        }
    }
}

/// Crop one state's frames off the sheet, frame-major and
/// direction-minor, checking each tile against the base dimensions.
fn slice_frames(st: &mut State, sheet: &Image, cols: u32, w: u32, h: u32, t0: u128) -> (r:
    Result<(), DmiError>)
    requires
        old(st).frames@.len() == 0,
        sheet.wf(),
        w > 0,
        cols == sheet.width as int / w as int,
        cols > 0,
        t0 + (old(st).frame_count as int) * (old(st).dirs as int) <= u128::MAX,
    ensures
        final(st).name@ == old(st).name@,
        final(st).dirs == old(st).dirs,
        final(st).frame_count == old(st).frame_count,
        final(st).delays@ == old(st).delays@,
        final(st).loop_ == old(st).loop_,
        final(st).rewind == old(st).rewind,
        final(st).movement == old(st).movement,
        final(st).hotspots@ == old(st).hotspots@,
        match r {
            Ok(_) => {
                &&& final(st).frames@.len() == final(st).flat_count()
                &&& final(st).frames_wf(w, h)
                &&& frames_match_sheet(
                    *final(st),
                    w as int,
                    h as int,
                    cols as int,
                    sheet.pixels@,
                    sheet.width as int,
                    t0 as int,
                )
                &&& forall|t: int|
                    t0 <= t < t0 + old(st).flat_count() ==> tile_fits(
                        t,
                        cols as int,
                        w as int,
                        h as int,
                        sheet.width as int,
                        sheet.height as int,
                    )
            },
            Err(e) => e == DmiError::ImageSizeMismatch && exists|t: int|
                t0 <= t < t0 + old(st).flat_count() && !tile_fits(
                    t,
                    cols as int,
                    w as int,
                    h as int,
                    sheet.width as int,
                    sheet.height as int,
                ),
        },
{
    proof {
        assert((st.frame_count as int) * (st.dirs as int) <= 0xffff_ffff_ffff_ffff) by (
        nonlinear_arith)
            requires
                st.frame_count <= 0xffff_ffffu32,
                st.dirs <= 0xffff_ffffu32,
        {}
    }
    let flat = (st.frame_count as u64) * (st.dirs as u64);
    let ghost sw = sheet.width as int;
    let ghost sh = sheet.height as int;
    proof {
        assert(flat == (st.frame_count as int) * (st.dirs as int)) by (nonlinear_arith)
            requires
                st.frame_count <= u32::MAX,
                st.dirs <= u32::MAX,
                flat == (st.frame_count as u64) * (st.dirs as u64),
        {}
        assert((cols as int) * (w as int) <= sw) by (nonlinear_arith)
            requires
                w > 0,
                cols == sw / (w as int),
                sw >= 0,
        {}
    }
    let mut j: u64 = 0;
    while j < flat
        invariant
            0 <= j <= flat,
            flat == (old(st).frame_count as int) * (old(st).dirs as int),
            t0 + flat <= u128::MAX,
            sheet.wf(),
            w > 0,
            cols > 0,
            cols == sw / (w as int),
            (cols as int) * (w as int) <= sw,
            sw == sheet.width as int,
            sh == sheet.height as int,
            st.name@ == old(st).name@,
            st.dirs == old(st).dirs,
            st.frame_count == old(st).frame_count,
            st.delays@ == old(st).delays@,
            st.loop_ == old(st).loop_,
            st.rewind == old(st).rewind,
            st.movement == old(st).movement,
            st.hotspots@ == old(st).hotspots@,
            st.frames@.len() == j,
            st.frames_wf(w, h),
            frames_match_sheet(*st, w as int, h as int, cols as int, sheet.pixels@, sw,
                t0 as int),
            forall|t: int|
                t0 <= t < t0 + j ==> tile_fits(t, cols as int, w as int, h as int, sw, sh),
        decreases flat - j,
    {
        let t: u128 = t0 + j as u128;
        let q: u128 = t / (cols as u128);
        let m: u128 = t % (cols as u128);
        proof {
            assert(0 <= m < cols as int);
            assert(m * (w as int) + w <= (cols as int) * (w as int)) by (nonlinear_arith)
                requires
                    0 <= m < cols as int,
                    w > 0,
            {}
        }
        let x64: u128 = m * (w as u128);
        proof {
            assert(x64 == (t as int % cols as int) * (w as int));
        }
        let x: u32 = x64 as u32;
        let mut y: u32 = 0;
        if h > 0 {
            if sheet.height < h {
                proof {
                    assert((t as int / cols as int + 1) * (h as int) > sh) by (
                    nonlinear_arith)
                        requires
                            t as int / cols as int >= 0,
                            h > 0,
                            sh < h as int,
                    {}
                    assert(!tile_fits(t as int, cols as int, w as int, h as int, sw, sh));
                }
                return Err(DmiError::ImageSizeMismatch);
            }
            let qmax: u128 = ((sheet.height - h) / h) as u128;
            if q > qmax {
                proof {
                    assert((t as int / cols as int + 1) * (h as int) > sh) by (
                    nonlinear_arith)
                        requires
                            q == t as int / cols as int,
                            q > (sh - h as int) / (h as int),
                            h > 0,
                            sh >= h as int,
                    {}
                    assert(!tile_fits(t as int, cols as int, w as int, h as int, sw, sh));
                }
                return Err(DmiError::ImageSizeMismatch);
            }
            proof {
                assert(q * (h as int) + h <= sh) by (nonlinear_arith)
                    requires
                        0 <= q <= (sh - h as int) / (h as int),
                        h > 0,
                        sh >= h as int,
                {}
            }
            let y64: u128 = q * (h as u128);
            proof {
                assert(y64 == (t as int / cols as int) * (h as int));
            }
            y = y64 as u32;
        }
        proof {
            if h > 0 {
                assert(y as int == (t as int / cols as int) * (h as int));
                assert(y as int + h <= sh);
            }
            assert(x as int + w <= sw);
        }
        let tile = sheet.extract(x, y, w, h);
        if tile.width != w || tile.height != h {
            proof {
                assert(!tile_fits(t as int, cols as int, w as int, h as int, sw, sh)) by {
                    if h == 0 {
                        assert(crop_h(sh, y as int, 0) == 0);
                        assert(crop_w(sw, x as int, w as int) == w as int);
                    }
                }
            }
            return Err(DmiError::ImageSizeMismatch);
        }
        proof {
            assert(crop_w(sw, x as int, w as int) == w as int);
            assert(crop_h(sh, y as int, h as int) == h as int);
            assert(crop_x(sw, x as int) == x as int);
            assert(crop_y(sh, y as int) == y as int || h == 0);
            assert(((t as int % cols as int) + 1) * (w as int) == (t as int % cols as int) * (
            w as int) + w) by (nonlinear_arith) {}
            if h > 0 {
                assert(((t as int / cols as int) + 1) * (h as int) == (t as int
                    / cols as int) * (h as int) + h) by (nonlinear_arith) {}
            }
            assert(tile_fits(t as int, cols as int, w as int, h as int, sw, sh));
        }
        let ghost prevst = *st;
        st.frames.push(tile);
        proof {
            assert(st.frames@ =~~= prevst.frames@.push(tile));
            assert forall|jj: int, a: int, b: int, c: int|
                0 <= jj < st.frames@.len() && 0 <= a < w && 0 <= b < h && 0 <= c < 4 implies
                #[trigger] st.frames@[jj].pixel(a, b, c) == sheet_pixel(
                sheet.pixels@,
                sw,
                ((t0 as int + jj) % (cols as int)) * (w as int) + a,
                ((t0 as int + jj) / (cols as int)) * (h as int) + b,
                c,
            ) by {
                if jj < st.frames@.len() - 1 {
                    assert(st.frames@[jj] == prevst.frames@[jj]);
                    assert(prevst.frames@[jj].pixel(a, b, c) == sheet_pixel(
                        sheet.pixels@,
                        sw,
                        ((t0 as int + jj) % (cols as int)) * (w as int) + a,
                        ((t0 as int + jj) / (cols as int)) * (h as int) + b,
                        c,
                    ));
                } else {
                    assert(st.frames@[jj] == tile);
                    assert(tile.pixel(a, b, c) == sheet.pixel(x as int + a, y as int + b, c));
                }
            }
        }
        j = j + 1;
    }
    Ok(())
}

impl Dmi {
    /// Decode a container from its file bytes: extract and parse the
    /// metadata, decode the sheet, reconcile each state's delays, and
    /// crop every announced frame; any tile that does not match the
    /// base dimensions aborts with `ImageSizeMismatch`.
    pub fn open_bytes(name: Vec<u8>, bytes: &[u8]) -> (r: Result<Dmi, DmiError>)
        ensures
            match r {
                Ok(d) => open_post(name@, bytes@, d),
                Err(e) => open_fail(bytes@, e),
            },
            (r is Ok) <==> (ztxt_text_of(bytes@) is Some && parse_meta(
                ztxt_text_of(bytes@)->Some_0,
                32,
                32,
            ) is Ok && png_rgba_of(bytes@) is Some && sizes_fit(
                parse_meta(ztxt_text_of(bytes@)->Some_0, 32, 32)->Ok_0,
                png_rgba_of(bytes@)->Some_0.0,
                png_rgba_of(bytes@)->Some_0.1,
            )),
    {
        let mut d = Dmi::new(name, 32, 32);
        let text = match read_ztxt(bytes) {
            Ok(t) => t,
            Err(e) => {
                return Err(e);
            },
        };
        match d.set_metadata(text.as_slice()) {
            Ok(_u) => {},
            Err(e) => {
                return Err(e);
            },
        }
        let ghost acc = parse_meta(text@, 32, 32)->Ok_0;
        let sheet = match decode_png_rgba(bytes) {
            Ok(s) => s,
            Err(e) => {
                return Err(e);
            },
        };
        if d.width == 0 {
            proof {
                assert(!sizes_fit(acc, sheet.width as int, sheet.height as int));
            }
            return Err(DmiError::ImageSizeMismatch);
        }
        let w = d.width;
        let h = d.height;
        let cols = sheet.width / w;
        let ghost colsg = cols as int;
        let ghost textg = text@;
        let mut src_states: Vec<State> = Vec::new();
        std::mem::swap(&mut d.states, &mut src_states);
        let n = src_states.len();
        let ghost srcg = src_states@;
        let mut t: u128 = 0;
        let mut i: usize = 0;
        while i < n
            invariant
                0 <= i <= n,
                n == srcg.len(),
                n == acc.states.len(),
                src_states@ == srcg.skip(i as int),
                d.states@.len() == i,
                d.name@ == name@,
                d.width == w,
                d.height == h,
                w == acc.width,
                h == acc.height,
                w > 0,
                sheet.wf(),
                cols == sheet.width as int / w as int,
                colsg == cols as int,
                t == flat_before(acc.states, i as int),
                ztxt_text_of(bytes@) == Some(textg),
                parse_meta(textg, 32, 32) == Ok::<MetaAcc, DmiError>(acc),
                png_rgba_of(bytes@) == Some(
                    (sheet.width as int, sheet.height as int, sheet.pixels@),
                ),
                forall|q: int|
                    0 <= q < srcg.len() ==> state_matches_parsed(#[trigger] srcg[q],
                        acc.states[q]),
                forall|q: int|
                    0 <= q < i ==> state_from_meta(#[trigger] d.states@[q], acc.states[q]),
                forall|q: int|
                    0 <= q < i ==> (#[trigger] d.states@[q]).frames@.len() == d.states@[
                        q
                    ].flat_count(),
                forall|q: int| 0 <= q < i ==> (#[trigger] d.states@[q]).frames_wf(w, h),
                forall|q: int|
                    0 <= q < i ==> frames_match_sheet(#[trigger] d.states@[q], w as int,
                        h as int, colsg, sheet.pixels@, sheet.width as int, flat_before(
                        acc.states, q)),
                forall|tt: int|
                    0 <= tt < t ==> tile_fits(tt, colsg, w as int, h as int,
                        sheet.width as int, sheet.height as int),
                cols > 0 || t == 0,
                t <= (i as int) * max_flat(),
            decreases n - i,
        {
            let mut st = src_states.remove(0);
            proof {
                assert(st == srcg[i as int]);
                assert(src_states@ =~~= srcg.skip(i as int + 1));
            }
            reconcile_state_delays(&mut st);
            proof {
                assert((st.frame_count as int) * (st.dirs as int) <= 0xffff_ffff_ffff_ffff)
                    by (nonlinear_arith)
                    requires
                        st.frame_count <= 0xffff_ffffu32,
                        st.dirs <= 0xffff_ffffu32,
                {}
            }
            let flat = (st.frame_count as u64) * (st.dirs as u64);
            proof {
                assert(flat == (st.frame_count as int) * (st.dirs as int)) by (
                nonlinear_arith)
                    requires
                        st.frame_count <= u32::MAX,
                        st.dirs <= u32::MAX,
                        flat == (st.frame_count as u64) * (st.dirs as u64),
                {}
                assert(flat_before(acc.states, i as int + 1) == t + flat);
            }
            if flat > 0 && cols == 0 {
                proof {
                    assert(!tile_fits(t as int, 0, w as int, h as int, sheet.width as int,
                        sheet.height as int) || colsg == 0);
                    assert(!sizes_fit(acc, sheet.width as int, sheet.height as int)) by {
                        lemma_flat_before_mono(acc.states, i as int + 1, acc.states.len() as int);
                        assert(flat_before(acc.states, acc.states.len() as int) > 0);
                    }
                }
                return Err(DmiError::ImageSizeMismatch);
            }
            if flat > 0 {
                proof {
                    assert(flat <= max_flat()) by (nonlinear_arith)
                        requires
                            flat == (st.frame_count as int) * (st.dirs as int),
                            st.frame_count <= 0xffff_ffffu64,
                            st.dirs <= 0xffff_ffffu64,
                    {}
                    assert(t + flat <= (i as int + 1) * max_flat()) by (nonlinear_arith)
                        requires
                            t <= (i as int) * max_flat(),
                            flat <= max_flat(),
                            i >= 0,
                    {}
                    assert((i as int + 1) * max_flat() <= u128::MAX) by (nonlinear_arith)
                        requires
                            0 <= i as int + 1 <= 0xffff_ffff_ffff_ffffu128,
                    {}
                }
                match slice_frames(&mut st, &sheet, cols, w, h, t) {
                    Ok(_u) => {},
                    Err(e) => {
                        proof {
                            lemma_flat_before_mono(acc.states, i as int + 1,
                                acc.states.len() as int);
                            let tbad = choose|tt: int|
                                t <= tt < t + flat && !tile_fits(tt, cols as int, w as int,
                                    h as int, sheet.width as int, sheet.height as int);
                            assert(flat_before(acc.states, acc.states.len() as int) > tbad);
                            assert(!sizes_fit(acc, sheet.width as int, sheet.height as int));
                        }
                        return Err(e);
                    },
                }
            }
            proof {
                assert(flat <= max_flat()) by (nonlinear_arith)
                    requires
                        flat == (st.frame_count as int) * (st.dirs as int),
                        st.frame_count <= 0xffff_ffffu64,
                        st.dirs <= 0xffff_ffffu64,
                {}
                assert(t + flat <= (i as int + 1) * max_flat()) by (nonlinear_arith)
                    requires
                        t <= (i as int) * max_flat(),
                        flat <= max_flat(),
                        i >= 0,
                {}
                assert((i as int + 1) * max_flat() <= u128::MAX) by (nonlinear_arith)
                    requires
                        0 <= i as int + 1 <= 0xffff_ffff_ffff_ffffu128,
                {}
            }
            t = t + flat as u128;
            d.states.push(st);
            i = i + 1;
        }
        proof {
            assert(srcg.skip(n as int).len() == 0);
            lemma_flat_before_mono(acc.states, 0, acc.states.len() as int);
        }
        Ok(d)
    }
}

/// The largest flattened frame count one state can announce.
pub open spec fn max_flat() -> int {
    0xffff_ffffint * 0xffff_ffffint
}

/// What `set_metadata` leaves in a freshly parsed state.
pub open spec fn state_matches_parsed(s: State, m: StateMeta) -> bool {
    &&& s.name@ == m.name
    &&& s.dirs == m.dirs
    &&& s.frame_count == m.frame_count
    &&& views(s.delays@) == m.delays
    &&& s.loop_ == m.loop_
    &&& s.rewind == m.rewind
    &&& s.movement == m.movement
    &&& views(s.hotspots@) == m.hotspots
    &&& s.frames@.len() == 0
}

/// Flat counts only grow with the index.
proof fn lemma_flat_before_mono(ms: Seq<StateMeta>, i: int, j: int)
    requires
        0 <= i <= j,
    ensures
        flat_before(ms, i) <= flat_before(ms, j),
        flat_before(ms, i) >= 0,
    decreases j - i,
{
    if i == j {
        lemma_flat_before_nonneg(ms, i);
    } else {
        lemma_flat_before_mono(ms, i, j - 1);
        assert((ms[j - 1].frame_count as int) * (ms[j - 1].dirs as int) >= 0) by (
        nonlinear_arith) {}
    }
}

proof fn lemma_flat_before_nonneg(ms: Seq<StateMeta>, i: int)
    ensures
        flat_before(ms, i) >= 0,
    decreases i,
{
    if i > 0 {
        lemma_flat_before_nonneg(ms, i - 1);
        assert((ms[i - 1].frame_count as int) * (ms[i - 1].dirs as int) >= 0) by (
        nonlinear_arith) {}
    }
}


/// Frames held by the states before index `i` (as stored, not as
/// announced).
pub open spec fn frames_before(ss: Seq<State>, i: int) -> int
    decreases i,
{
    if i <= 0 {
        0
    } else {
        frames_before(ss, i - 1) + ss[i - 1].frames@.len()
    }
}

/// The `t`-th frame of the flattened cross-state frame sequence.
pub open spec fn flat_frame(ss: Seq<State>, t: int) -> Image
    decreases ss.len(),
{
    if ss.len() == 0 {
        arbitrary()
    } else if t < ss[0].frames@.len() {
        ss[0].frames@[t]
    } else {
        flat_frame(ss.skip(1), t - ss[0].frames@.len())
    }
}

/// The unique ceiling square root.
pub open spec fn ceil_sqrt_of(n: int) -> int {
    choose|c: int| is_ceil_sqrt(n, c)
}

/// The unique covering row count.
pub open spec fn rows_of(n: int, c: int) -> int {
    choose|r: int| is_row_count(n, c, r)
}

pub proof fn lemma_ceil_sqrt_unique(n: int, c: int)
    requires
        is_ceil_sqrt(n, c),
    ensures
        ceil_sqrt_of(n) == c,
{
    let c2 = ceil_sqrt_of(n);
    assert(is_ceil_sqrt(n, c2));
    assert(c == c2) by (nonlinear_arith)
        requires
            c >= 0,
            c2 >= 0,
            c * c >= n,
            (c - 1) * (c - 1) < n,
            c2 * c2 >= n,
            (c2 - 1) * (c2 - 1) < n,
    {}
}

pub proof fn lemma_rows_unique(n: int, c: int, r: int)
    requires
        is_row_count(n, c, r),
        c > 0,
    ensures
        rows_of(n, c) == r,
{
    let r2 = rows_of(n, c);
    assert(is_row_count(n, c, r2));
    assert(r == r2) by (nonlinear_arith)
        requires
            c > 0,
            r >= 0,
            r2 >= 0,
            r * c >= n,
            (r - 1) * c < n,
            r2 * c >= n,
            (r2 - 1) * c < n,
    {}
}

/// The saved sheet's column count: zero frames keep a zero sentinel.
pub open spec fn sheet_cols(d: Dmi) -> int {
    let total = frames_before(d.states@, d.states@.len() as int);
    if total == 0 {
        0
    } else {
        ceil_sqrt_of(total)
    }
}

pub open spec fn sheet_w(d: Dmi) -> int {
    let total = frames_before(d.states@, d.states@.len() as int);
    if total == 0 {
        d.width as int
    } else {
        (d.width as int) * ceil_sqrt_of(total)
    }
}

pub open spec fn sheet_h(d: Dmi) -> int {
    let total = frames_before(d.states@, d.states@.len() as int);
    if total == 0 {
        d.height as int
    } else {
        (d.height as int) * rows_of(total, ceil_sqrt_of(total))
    }
}

/// The sheet geometry stays within every machine limit.
pub open spec fn save_size_ok(d: Dmi) -> bool {
    &&& frames_before(d.states@, d.states@.len() as int) <= u32::MAX
    &&& sheet_w(d) <= u32::MAX
    &&& sheet_h(d) <= u32::MAX
    &&& 4 * (sheet_w(d) * sheet_h(d)) <= usize::MAX
}

/// Tile `t` of a `c`-wide grid of `w x h` tiles covers the sheet
/// point `(px, py)`.
pub open spec fn in_tile(px: int, py: int, t: int, c: int, w: int, h: int) -> bool {
    (t % c) * w <= px < (t % c) * w + w && (t / c) * h <= py < (t / c) * h + h
}

/// No tile below `upto` covers the point.
pub open spec fn uncovered(px: int, py: int, upto: int, c: int, w: int, h: int) -> bool {
    forall|t: int| 0 <= t < upto ==> !#[trigger] in_tile(px, py, t, c, w, h)
}

/// What a successful `save_bytes` returns: a container PNG whose text
/// chunk is the generated metadata and whose sheet holds every frame
/// at its computed tile, the rest of the sheet left transparent.
pub open spec fn save_post(d: Dmi, b: Seq<u8>) -> bool {
    let total = frames_before(d.states@, d.states@.len() as int);
    let c = sheet_cols(d);
    &&& ascii_seq(gen_meta(d)) ==> ztxt_text_of(b) == Some(gen_meta(d))
    &&& png_rgba_of(b) is Some
    &&& {
        let dec = png_rgba_of(b)->Some_0;
        &&& dec.0 == sheet_w(d)
        &&& dec.1 == sheet_h(d)
        &&& dec.2.len() == 4 * (sheet_w(d) * sheet_h(d))
        &&& forall|t: int, a: int, bb: int, ch: int|
            0 <= t < total && 0 <= a < d.width && 0 <= bb < d.height && 0 <= ch < 4
                ==> #[trigger] sheet_pixel(
                dec.2,
                sheet_w(d),
                (t % c) * (d.width as int) + a,
                (t / c) * (d.height as int) + bb,
                ch,
            ) == flat_frame(d.states@, t).pixel(a, bb, ch)
        &&& forall|px: int, py: int, ch: int|
            0 <= px < sheet_w(d) && 0 <= py < sheet_h(d) && 0 <= ch < 4 && uncovered(
                px,
                py,
                total,
                c,
                d.width as int,
                d.height as int,
            ) ==> #[trigger] dec.2[pix_idx(sheet_w(d), px, py, ch)] == 0u8
    }
}

/// Two distinct tiles of the grid never overlap.
proof fn lemma_tiles_disjoint(
    t1: int,
    t2: int,
    c: int,
    w: int,
    h: int,
    a1: int,
    b1: int,
    a2: int,
    b2: int,
)
    requires
        c > 0,
        w > 0,
        h > 0,
        t1 != t2,
        t1 >= 0,
        t2 >= 0,
        0 <= a1 < w,
        0 <= b1 < h,
        0 <= a2 < w,
        0 <= b2 < h,
    ensures
        (t1 % c) * w + a1 != (t2 % c) * w + a2 || (t1 / c) * h + b1 != (t2 / c) * h + b2,
{
    if t1 / c == t2 / c {
        assert(t1 % c != t2 % c) by (nonlinear_arith)
            requires
                c > 0,
                t1 != t2,
                t1 >= 0,
                t2 >= 0,
                t1 / c == t2 / c,
        {}
        assert((t1 % c) * w + a1 != (t2 % c) * w + a2) by (nonlinear_arith)
            requires
                w > 0,
                t1 % c != t2 % c,
                0 <= a1 < w,
                0 <= a2 < w,
        {}
    } else {
        assert((t1 / c) * h + b1 != (t2 / c) * h + b2) by (nonlinear_arith)
            requires
                h > 0,
                t1 / c != t2 / c,
                0 <= b1 < h,
                0 <= b2 < h,
        {}
    }
}

proof fn lemma_frames_before_mono(ss: Seq<State>, i: int, j: int)
    requires
        0 <= i <= j,
    ensures
        frames_before(ss, i) <= frames_before(ss, j),
        frames_before(ss, i) >= 0,
    decreases j - i,
{
    if i == j {
        lemma_frames_before_nonneg(ss, i);
    } else {
        lemma_frames_before_mono(ss, i, j - 1);
    }
}

proof fn lemma_frames_before_nonneg(ss: Seq<State>, i: int)
    ensures
        frames_before(ss, i) >= 0,
    decreases i,
{
    if i > 0 {
        lemma_frames_before_nonneg(ss, i - 1);
    }
}

/// The flattened index `frames_before(ss, i) + j` addresses frame `j`
/// of state `i`.
proof fn lemma_flat_frame_index(ss: Seq<State>, i: int, j: int)
    requires
        0 <= i < ss.len(),
        0 <= j < ss[i].frames@.len(),
    ensures
        flat_frame(ss, frames_before(ss, i) + j) == ss[i].frames@[j],
    decreases i,
{
    lemma_frames_before_nonneg(ss, i);
    if i == 0 {
        assert(frames_before(ss, 0) == 0);
    } else {
        lemma_flat_frame_index(ss.skip(1), i - 1, j);
        assert(frames_before(ss.skip(1), i - 1) + ss[0].frames@.len() == frames_before(
            ss,
            i,
        )) by {
            lemma_frames_before_shift(ss, i);
        }
        lemma_frames_before_nonneg(ss.skip(1), i - 1);
        assert(ss.skip(1)[i - 1] == ss[i]);
    }
}

proof fn lemma_frames_before_shift(ss: Seq<State>, i: int)
    requires
        1 <= i <= ss.len(),
    ensures
        frames_before(ss, i) == ss[0].frames@.len() + frames_before(ss.skip(1), i - 1),
    decreases i,
{
    if i == 1 {
        assert(frames_before(ss, 1) == frames_before(ss, 0) + ss[0].frames@.len());
        assert(frames_before(ss.skip(1), 0) == 0);
    } else {
        lemma_frames_before_shift(ss, i - 1);
        assert(ss.skip(1)[i - 2] == ss[i - 1]);
        assert(frames_before(ss, i) == frames_before(ss, i - 1) + ss[i - 1].frames@.len());
        assert(frames_before(ss.skip(1), i - 1) == frames_before(ss.skip(1), i - 2) + ss.skip(
            1,
        )[i - 2].frames@.len());
    }
}

impl Dmi {
    /// Pack every frame onto a fresh transparent sheet in flattened
    /// order and encode the container PNG with the generated metadata
    /// block in its text chunk.
    pub fn save_bytes(&self) -> (r: Result<Vec<u8>, DmiError>)
        requires
            self.frames_wf(),
        ensures
            match r {
                Ok(b) => save_post(*self, b@),
                Err(e) => {
                    ||| (e == DmiError::TooLarge && !save_size_ok(*self))
                    ||| (e == DmiError::PngEncoding && (sheet_w(*self) == 0 || sheet_h(*self)
                        == 0 || !ascii_seq(gen_meta(*self))))
                },
            },
            save_size_ok(*self) && sheet_w(*self) > 0 && sheet_h(*self) > 0 && ascii_seq(
                gen_meta(*self),
            ) ==> r is Ok,
    {
        let ghost dd = *self;
        let n = self.states.len();
        let mut total: u128 = 0;
        let mut i: usize = 0;
        while i < n
            invariant
                0 <= i <= n,
                n == self.states@.len(),
                total == frames_before(self.states@, i as int),
                total <= (i as int) * 0xffff_ffff_ffff_ffffint,
            decreases n - i,
        {
            let k = self.states[i].frames.len();
            proof {
                assert(total + k <= (i as int + 1) * 0xffff_ffff_ffff_ffffint) by (
                nonlinear_arith)
                    requires
                        total <= (i as int) * 0xffff_ffff_ffff_ffffint,
                        k <= 0xffff_ffff_ffff_ffffu64,
                        i >= 0,
                {}
                assert((i as int + 1) * 0xffff_ffff_ffff_ffffint <= u128::MAX) by (
                nonlinear_arith)
                    requires
                        0 <= i as int + 1 <= 0xffff_ffff_ffff_ffffint,
                {}
            }
            total = total + k as u128;
            i = i + 1;
        }
        let ghost totalg = frames_before(self.states@, n as int);
        if total > u32::MAX as u128 {
            return Err(DmiError::TooLarge);
        }
        let (c, sw64, sh64) = optimal_size(total as usize, self.width, self.height);
        proof {
            if totalg > 0 {
                lemma_ceil_sqrt_unique(totalg, c as int);
                let rows = choose|rows: int|
                    (#[trigger] (rows * 1)) >= 0 && is_row_count(totalg, c as int, rows)
                        && sh64 == (self.height as int) * rows;
                lemma_rows_unique(totalg, c as int, rows);
                assert(sw64 == sheet_w(dd));
                assert(sh64 == sheet_h(dd));
            } else {
                assert(sw64 == sheet_w(dd));
                assert(sh64 == sheet_h(dd));
            }
        }
        if sw64 > u32::MAX as u64 || sh64 > u32::MAX as u64 {
            return Err(DmiError::TooLarge);
        }
        let sw = sw64 as u32;
        let sh = sh64 as u32;
        let mut sheet = match Image::blank(sw, sh) {
            Some(s) => s,
            None => {
                return Err(DmiError::TooLarge);
            },
        };
        let w = self.width;
        let h = self.height;
        let ghost cg = c as int;
        proof {
            assert forall|px: int, py: int, ch: int|
                0 <= px < sw && 0 <= py < sh && 0 <= ch < 4 implies #[trigger] sheet.pixel(
                px,
                py,
                ch,
            ) == 0u8 by {
                crate::bitmap::lemma_pix_idx_bounds(sw as int, sh as int, px, py, ch);
            }
        }
        let mut t: u64 = 0;
        let mut i: usize = 0;
        while i < n
            invariant
                0 <= i <= n,
                n == self.states@.len(),
                self.frames_wf(),
                w == self.width,
                h == self.height,
                t == frames_before(self.states@, i as int),
                totalg == frames_before(self.states@, n as int),
                t <= totalg,
                totalg <= u32::MAX,
                cg == c as int,
                totalg > 0 ==> is_ceil_sqrt(totalg, cg) && cg > 0,
                totalg > 0 ==> (w as int) * cg == sw as int,
                totalg > 0 ==> exists|rows: int|
                    is_row_count(totalg, cg, rows) && (h as int) * rows == sh as int,
                sheet.wf(),
                sheet.width == sw,
                sheet.height == sh,
                forall|tt: int, a: int, bb: int, ch: int|
                    0 <= tt < t && 0 <= a < w && 0 <= bb < h && 0 <= ch < 4
                        ==> #[trigger] sheet.pixel((tt % cg) * (w as int) + a, (tt / cg) * (
                    h as int) + bb, ch) == flat_frame(self.states@, tt).pixel(a, bb, ch),
                forall|px: int, py: int, ch: int|
                    0 <= px < sw && 0 <= py < sh && 0 <= ch < 4 && uncovered(px, py,
                        t as int, cg, w as int, h as int) ==> #[trigger] sheet.pixel(
                        px,
                        py,
                        ch,
                    ) == 0u8,
            decreases n - i,
        {
            let fc = self.states[i].frames.len();
            proof {
                lemma_frames_before_mono(self.states@, i as int + 1, n as int);
            }
            let mut j: usize = 0;
            while j < fc
                invariant
                    0 <= j <= fc,
                    0 <= i < n,
                    n == self.states@.len(),
                    fc == self.states@[i as int].frames@.len(),
                    self.frames_wf(),
                    w == self.width,
                    h == self.height,
                    t == frames_before(self.states@, i as int) + j,
                    t + (fc - j) <= totalg,
                    totalg == frames_before(self.states@, n as int),
                    totalg <= u32::MAX,
                    cg == c as int,
                    totalg > 0 ==> is_ceil_sqrt(totalg, cg) && cg > 0,
                    totalg > 0 ==> (w as int) * cg == sw as int,
                    totalg > 0 ==> exists|rows: int|
                        is_row_count(totalg, cg, rows) && (h as int) * rows == sh as int,
                    sheet.wf(),
                    sheet.width == sw,
                    sheet.height == sh,
                    forall|tt: int, a: int, bb: int, ch: int|
                        0 <= tt < t && 0 <= a < w && 0 <= bb < h && 0 <= ch < 4
                            ==> #[trigger] sheet.pixel((tt % cg) * (w as int) + a, (tt
                            / cg) * (h as int) + bb, ch) == flat_frame(self.states@,
                        tt).pixel(a, bb, ch),
                    forall|px: int, py: int, ch: int|
                        0 <= px < sw && 0 <= py < sh && 0 <= ch < 4 && uncovered(px, py,
                            t as int, cg, w as int, h as int) ==> #[trigger] sheet.pixel(
                            px,
                            py,
                            ch,
                        ) == 0u8,
                decreases fc - j,
            {
                proof {
                    assert(totalg > 0);
                    assert(0 <= (t as int) % cg < cg);
                    assert((t as int % cg) * (w as int) + w <= (cg as int) * (w as int)) by (
                    nonlinear_arith)
                        requires
                            0 <= t as int % cg < cg,
                            w >= 0,
                    {}
                    let rows = choose|rows: int|
                        is_row_count(totalg, cg, rows) && (h as int) * rows == sh as int;
                    assert(t as int / cg < rows) by (nonlinear_arith)
                        requires
                            cg > 0,
                            rows * cg >= totalg,
                            0 <= t < totalg,
                            rows >= 0,
                    {}
                    assert((t as int / cg) * (h as int) + h <= rows * (h as int)) by (
                    nonlinear_arith)
                        requires
                            t as int / cg < rows,
                            h >= 0,
                    {}
                    assert(rows * (h as int) == sh as int) by (nonlinear_arith)
                        requires
                            (h as int) * rows == sh as int,
                    {}
                    assert((t as int % cg) * (w as int) <= u64::MAX);
                    assert((t as int / cg) * (h as int) <= u64::MAX);
                }
                let x64: u64 = (t % (c as u64)) * (w as u64);
                let y64: u64 = (t / (c as u64)) * (h as u64);
                let x: u32 = x64 as u32;
                let y: u32 = y64 as u32;
                let ghost prevsheet = sheet;
                let frame = &self.states[i].frames[j];
                proof {
                    assert(frame.wf() && frame.width == w && frame.height == h);
                }
                sheet.paste(frame, x, y);
                proof {
                    lemma_flat_frame_index(self.states@, i as int, j as int);
                    assert forall|tt: int, a: int, bb: int, ch: int|
                        0 <= tt < t + 1 && 0 <= a < w && 0 <= bb < h && 0 <= ch < 4 implies
                        #[trigger] sheet.pixel((tt % cg) * (w as int) + a, (tt / cg) * (
                        h as int) + bb, ch) == flat_frame(self.states@, tt).pixel(a, bb, ch)
                        by {
                        let px = (tt % cg) * (w as int) + a;
                        let py = (tt / cg) * (h as int) + bb;
                        let rows = choose|rows: int|
                            is_row_count(totalg, cg, rows) && (h as int) * rows
                                == sh as int;
                        assert(0 <= tt % cg < cg && 0 <= tt / cg) by (nonlinear_arith)
                            requires
                                cg > 0,
                                0 <= tt,
                        {}
                        assert(tt / cg < rows) by (nonlinear_arith)
                            requires
                                cg > 0,
                                rows * cg >= totalg,
                                0 <= tt < totalg,
                                rows >= 0,
                        {}
                        assert((tt / cg) * (h as int) + h <= sh as int) by (nonlinear_arith)
                            requires
                                tt / cg < rows,
                                h >= 0,
                                (h as int) * rows == sh as int,
                        {}
                        assert(0 <= px < sw as int && 0 <= py < sh as int) by (
                        nonlinear_arith)
                            requires
                                0 <= tt % cg < cg,
                                0 <= a < w,
                                0 <= bb < h,
                                0 <= tt / cg,
                                px == (tt % cg) * (w as int) + a,
                                py == (tt / cg) * (h as int) + bb,
                                (cg as int) * (w as int) == sw as int,
                                (tt / cg) * (h as int) + h <= sh as int,
                                w > 0,
                                h > 0,
                        {}
                        if tt == t {
                            assert(x as int == (tt % cg) * (w as int));
                            assert(y as int == (tt / cg) * (h as int));
                            assert(sheet.pixel(px, py, ch) == frame.pixel(a, bb, ch));
                        } else {
                            lemma_tiles_disjoint(tt, t as int, cg, w as int, h as int, a, bb,
                                if x as int <= px < x + w {
                                    px - x
                                } else {
                                    0
                                },
                                if y as int <= py < y + h {
                                    py - y
                                } else {
                                    0
                                });
                            assert(!(x <= px < x + w && y <= py < y + h) ==> sheet.pixel(
                                px, py, ch) == prevsheet.pixel(px, py, ch));
                            if x <= px < x + w && y <= py < y + h {
                                assert((t as int % cg) * (w as int) + (px - x) == px);
                                assert((t as int / cg) * (h as int) + (py - y) == py);
                                assert(false);
                            }
                            assert(sheet.pixel(px, py, ch) == prevsheet.pixel(px, py, ch));
                        }
                    }
                    assert forall|px: int, py: int, ch: int|
                        0 <= px < sw && 0 <= py < sh && 0 <= ch < 4 && uncovered(px, py,
                            t as int + 1, cg, w as int, h as int) implies
                        #[trigger] sheet.pixel(px, py, ch) == 0u8 by {
                        assert(!in_tile(px, py, t as int, cg, w as int, h as int));
                        assert(uncovered(px, py, t as int, cg, w as int, h as int)) by {
                            assert forall|tt: int|
                                0 <= tt < t implies !#[trigger] in_tile(px, py, tt, cg,
                                w as int, h as int) by {}
                        }
                        if h == 0 {
                            let rows = choose|rows: int|
                                is_row_count(totalg, cg, rows) && (h as int) * rows
                                    == sh as int;
                            assert((h as int) * rows == 0) by (nonlinear_arith)
                                requires
                                    h == 0,
                            {}
                            assert(false);
                        }
                        if w == 0 {
                            assert((w as int) * cg == 0) by (nonlinear_arith)
                                requires
                                    w == 0,
                            {}
                            assert(false);
                        }
                        assert(!(x <= px < x + frame.width && y <= py < y + frame.height))
                            by {
                            assert(x as int == (t as int % cg) * (w as int));
                            assert(y as int == (t as int / cg) * (h as int));
                            assert(frame.width == w && frame.height == h);
                        }
                        assert(sheet.pixel(px, py, ch) == prevsheet.pixel(px, py, ch));
                        assert(prevsheet.pixel(px, py, ch) == 0u8);
                    }
                }
                t = t + 1;
                j = j + 1;
            }
            proof {
                assert(frames_before(self.states@, i as int + 1) == frames_before(
                    self.states@, i as int) + fc);
            }
            i = i + 1;
        }
        if sw == 0 || sh == 0 {
            return Err(DmiError::PngEncoding);
        }
        let meta = self.get_metadata();
        let bytes = match encode_container_png(sw, sh, &sheet.pixels, &meta) {
            Ok(b) => b,
            Err(e) => {
                return Err(e);
            },
        };
        proof {
            assert forall|tt: int, a: int, bb: int, ch: int|
                0 <= tt < totalg && 0 <= a < dd.width && 0 <= bb < dd.height && 0 <= ch < 4
                    implies #[trigger] sheet_pixel(
                sheet.pixels@,
                sheet_w(dd),
                (tt % sheet_cols(dd)) * (dd.width as int) + a,
                (tt / sheet_cols(dd)) * (dd.height as int) + bb,
                ch,
            ) == flat_frame(dd.states@, tt).pixel(a, bb, ch) by {
                assert(sheet_cols(dd) == cg);
                assert(sheet.pixel((tt % cg) * (w as int) + a, (tt / cg) * (h as int) + bb,
                    ch) == flat_frame(dd.states@, tt).pixel(a, bb, ch));
            }
            assert forall|px: int, py: int, ch: int|
                0 <= px < sheet_w(dd) && 0 <= py < sheet_h(dd) && 0 <= ch < 4 && uncovered(
                    px,
                    py,
                    totalg,
                    sheet_cols(dd),
                    dd.width as int,
                    dd.height as int,
                ) implies #[trigger] sheet.pixels@[pix_idx(sheet_w(dd), px, py, ch)]
                == 0u8 by {
                assert(sheet_cols(dd) == cg);
                assert(uncovered(px, py, totalg, cg, w as int, h as int));
                assert(sheet.pixel(px, py, ch) == 0u8);
            }
            assert(save_post(dd, bytes@));
        }
        Ok(bytes)
    }
}



/// A delay list that already fits its frame count is left alone by
/// reconciliation.
proof fn lemma_reconcile_fixed(x: Seq<Seq<u8>>, fc: int)
    requires
        x.len() == fc || (x.len() == 0 && fc <= 1),
    ensures
        reconcile_delays(x, fc) == x,
{
    if x.len() > 0 {
        assert(x.take(fc) =~~= x);
    }
}

/// Reconciliation always leaves a list of that very shape.
proof fn lemma_reconcile_shape(x: Seq<Seq<u8>>, fc: int)
    requires
        fc >= 0,
    ensures
        reconcile_delays(x, fc).len() == fc || (reconcile_delays(x, fc).len() == 0 && fc
            <= 1),
{
}

/// The flattened counts of the scalar records equal the stored frame
/// counts, state by state.
proof fn lemma_flat_before_metas(ss: Seq<State>, i: int)
    requires
        0 <= i <= ss.len(),
        forall|q: int|
            0 <= q < ss.len() ==> (#[trigger] ss[q]).frames@.len() == ss[q].flat_count(),
    ensures
        flat_before(metas_of(ss), i) == frames_before(ss, i),
    decreases i,
{
    if i > 0 {
        lemma_flat_before_metas(ss, i - 1);
        assert(metas_of(ss)[i - 1] == meta_of(ss[i - 1]));
    }
}

/// Opening what saving produced restores the container: dimensions,
/// state order, every scalar field (delays already reconciled stay as
/// they are), and every pixel; only the name follows the new file.
pub proof fn lemma_open_save_open(
    name1: Seq<u8>,
    bytes1: Seq<u8>,
    d1: Dmi,
    bytes2: Seq<u8>,
    name2: Seq<u8>,
    d2: Dmi,
)
    requires
        open_post(name1, bytes1, d1),
        save_post(d1, bytes2),
        open_post(name2, bytes2, d2),
        d1.meta_wf(),
        ascii_seq(gen_meta(d1)),
    ensures
        d2.name@ == name2,
        d2.width == d1.width,
        d2.height == d1.height,
        d2.states@.len() == d1.states@.len(),
        forall|i: int|
            0 <= i < d1.states@.len() ==> (#[trigger] d2.states@[i]).same_scalars(
                d1.states@[i],
            ) && d2.states@[i].frames@.len() == d1.states@[i].frames@.len(),
        forall|i: int, j: int, a: int, b: int, ch: int|
            0 <= i < d1.states@.len() && 0 <= j < d1.states@[i].frames@.len() && 0 <= a
                < d1.width && 0 <= b < d1.height && 0 <= ch < 4 ==> (
            #[trigger] d2.states@[i].frames@[j].pixel(a, b, ch)) == d1.states@[i].frames@[
                j
            ].pixel(a, b, ch),
{
    let w = d1.width as int;
    let h = d1.height as int;
    let ss1 = d1.states@;
    let total = frames_before(ss1, ss1.len() as int);
    let c = sheet_cols(d1);
    // the saved text chunk parses back to d1's scalar fields
    let text2 = ztxt_text_of(bytes2)->Some_0;
    assert(text2 == gen_meta(d1));
    lemma_parse_generate(d1, 32, 32);
    let acc2 = parse_meta(text2, 32, 32)->Ok_0;
    assert(acc2.width == d1.width && acc2.height == d1.height && acc2.states == metas_of(
        ss1,
    ));
    assert(d2.width == d1.width && d2.height == d1.height);
    assert(d2.states@.len() == ss1.len());
    // scalar fields carry over; reconciling reconciled delays changes
    // nothing
    assert forall|i: int|
        0 <= i < ss1.len() implies (#[trigger] d2.states@[i]).same_scalars(ss1[i])
        && d2.states@[i].frames@.len() == ss1[i].frames@.len() by {
        assert(state_from_meta(d2.states@[i], acc2.states[i]));
        assert(acc2.states[i] == meta_of(ss1[i]));
        let m1 = parse_meta(ztxt_text_of(bytes1)->Some_0, 32, 32)->Ok_0.states[i];
        assert(state_from_meta(ss1[i], m1));
        assert(views(ss1[i].delays@) == reconcile_delays(m1.delays, m1.frame_count as int));
        lemma_reconcile_shape(m1.delays, m1.frame_count as int);
        lemma_reconcile_fixed(views(ss1[i].delays@), ss1[i].frame_count as int);
        assert(views(d2.states@[i].delays@) == views(ss1[i].delays@));
        assert((#[trigger] ss1[i]).frames@.len() == ss1[i].flat_count());
        assert(d2.states@[i].frames@.len() == d2.states@[i].flat_count());
    }
    // the reopened sheet is the saved sheet, and its column count is
    // the packing's
    let dec2 = png_rgba_of(bytes2)->Some_0;
    assert(dec2.0 == sheet_w(d1) && dec2.1 == sheet_h(d1));
    assert forall|i: int, j: int, a: int, b: int, ch: int|
        0 <= i < ss1.len() && 0 <= j < ss1[i].frames@.len() && 0 <= a < w && 0 <= b < h && 0
            <= ch < 4 implies (#[trigger] d2.states@[i].frames@[j].pixel(a, b, ch))
        == ss1[i].frames@[j].pixel(a, b, ch) by {
        assert(forall|q: int|
            0 <= q < ss1.len() ==> (#[trigger] ss1[q]).frames@.len() == ss1[q].flat_count());
        lemma_flat_before_metas(ss1, i);
        lemma_flat_before_metas(ss1, ss1.len() as int);
        lemma_frames_before_mono(ss1, i, ss1.len() as int);
        lemma_frames_before_mono(ss1, i + 1, ss1.len() as int);
        assert(frames_before(ss1, i + 1) == frames_before(ss1, i) + ss1[i].frames@.len());
        let tt = frames_before(ss1, i) + j;
        assert(0 <= tt < total);
        assert(total > 0);
        let cols2 = dec2.0 / (acc2.width as int);
        assert(cols2 == c) by {
            assert(sheet_w(d1) == w * ceil_sqrt_of(total));
            assert(c == ceil_sqrt_of(total));
            assert(d1.width > 0);
            assert((w * c) / w == c) by (nonlinear_arith)
                requires
                    w > 0,
            {}
        }
        // the reopened frame reads the saved tile, which holds the
        // original frame
        assert(frames_match_sheet(d2.states@[i], w, h, cols2, dec2.2, dec2.0, flat_before(
            acc2.states,
            i,
        )));
        assert(flat_before(acc2.states, i) == frames_before(ss1, i));
        assert(d2.states@[i].frames@[j].pixel(a, b, ch) == sheet_pixel(
            dec2.2,
            dec2.0,
            (tt % cols2) * w + a,
            (tt / cols2) * h + b,
            ch,
        ));
        assert(sheet_pixel(dec2.2, sheet_w(d1), (tt % c) * w + a, (tt / c) * h + b, ch)
            == flat_frame(ss1, tt).pixel(a, b, ch));
        lemma_flat_frame_index(ss1, i, j);
    }
}


} // verus!
