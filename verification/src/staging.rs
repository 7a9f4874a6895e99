//! The staging store: a container expanded into one file per
//! flattened frame. Frames are stored as a self-describing byte
//! stream (decimal width, newline, decimal height, newline, raw RGBA
//! bytes); frame keys are allocated collision-free within the
//! directory.

use vstd::prelude::*;
use crate::bitmap::Image;
use crate::text::{
    dec_digits, find_byte, find_byte_in, is_uint_literal, lemma_dec_digits_value,
    lemma_find_byte, lemma_find_byte_at, parse_u32, u32_to_dec, uint_value,
};
use crate::meta::push_bytes;
use crate::types::{views, Dmi, DmiError, SerializedDmi, SerializedState, State};

verus! {

/// The staging encoding of one frame.
pub open spec fn frame_bytes(img: Image) -> Seq<u8> {
    dec_digits(img.width as int) + seq![10u8] + dec_digits(img.height as int) + seq![10u8]
        + img.pixels@
}

/// Encode one frame for its staging file.
pub fn image_to_bytes(img: &Image) -> (r: Vec<u8>)
    ensures
        r@ == frame_bytes(*img),
{
    let mut out = u32_to_dec(img.width);
    out.push(10u8);
    let hd = u32_to_dec(img.height);
    push_bytes(&mut out, hd.as_slice());
    out.push(10u8);
    push_bytes(&mut out, img.pixels.as_slice());
    proof {
        assert(out@ =~= frame_bytes(*img));
    }
    out
}

/// What decoding a staging file yields: the two decimal dimension
/// lines, then exactly `4 * w * h` pixel bytes; trailing bytes are
/// ignored, malformed structure is `MissingData`, malformed numbers
/// are `ParseInt`.
pub open spec fn parse_frame(b: Seq<u8>) -> Result<Image, DmiError> {
    let i = find_byte(b, 10u8);
    if i == -1 {
        Err(DmiError::MissingData)
    } else {
        let t1 = b.take(i);
        let rest = b.skip(i + 1);
        let j = find_byte(rest, 10u8);
        if j == -1 {
            Err(DmiError::MissingData)
        } else {
            let t2 = rest.take(j);
            let body = rest.skip(j + 1);
            if !(is_uint_literal(t1) && uint_value(t1) <= u32::MAX) {
                Err(DmiError::ParseInt)
            } else if !(is_uint_literal(t2) && uint_value(t2) <= u32::MAX) {
                Err(DmiError::ParseInt)
            } else {
                let w = uint_value(t1);
                let h = uint_value(t2);
                if body.len() < 4 * (w * h) {
                    Err(DmiError::MissingData)
                } else {
                    Ok(
                        Image {
                            width: w as u32,
                            height: h as u32,
                            pixels: arbitrary(),
                        },
                    )
                }
            }
        }
    }
}

/// The pixel bytes `parse_frame` reads on success.
pub open spec fn parse_frame_pixels(b: Seq<u8>) -> Seq<u8> {
    let i = find_byte(b, 10u8);
    let rest = b.skip(i + 1);
    let j = find_byte(rest, 10u8);
    let body = rest.skip(j + 1);
    let t1 = b.take(i);
    let t2 = rest.take(j);
    body.take(4 * (uint_value(t1) * uint_value(t2)))
}

/// Decode one staging file.
pub fn bytes_to_image(bytes: &[u8]) -> (r: Result<Image, DmiError>)
    ensures
        match r {
            Ok(img) => {
                &&& parse_frame(bytes@) is Ok
                &&& img.width == parse_frame(bytes@)->Ok_0.width
                &&& img.height == parse_frame(bytes@)->Ok_0.height
                &&& img.pixels@ == parse_frame_pixels(bytes@)
                &&& img.wf()
            },
            Err(e) => parse_frame(bytes@) == Err::<Image, DmiError>(e),
        },
{
    let i = match find_byte_in(bytes, 10u8) {
        Some(i) => i,
        None => {
            return Err(DmiError::MissingData);
        },
    };
    let blen = bytes.len();
    proof {
        assert(i < blen);
    }
    let t1: &[u8] = &bytes[0..i];
    let rest: &[u8] = &bytes[i + 1..blen];
    proof {
        assert(t1@ =~= bytes@.take(i as int));
        assert(rest@ =~= bytes@.skip(i as int + 1));
    }
    let j = match find_byte_in(rest, 10u8) {
        Some(j) => j,
        None => {
            return Err(DmiError::MissingData);
        },
    };
    let rlen = rest.len();
    proof {
        assert(j < rlen);
    }
    let t2: &[u8] = &rest[0..j];
    let body: &[u8] = &rest[j + 1..rlen];
    proof {
        assert(t2@ =~= rest@.take(j as int));
        assert(body@ =~= rest@.skip(j as int + 1));
    }
    let w = match parse_u32(t1) {
        Some(w) => w,
        None => {
            return Err(DmiError::ParseInt);
        },
    };
    let h = match parse_u32(t2) {
        Some(h) => h,
        None => {
            return Err(DmiError::ParseInt);
        },
    };
    let need64 = match (w as u64).checked_mul(h as u64) {
        Some(c) => match c.checked_mul(4) {
            Some(b) => b,
            None => {
                proof {
                    lemma_body_short(body@.len() as int, w as int, h as int);
                }
                return Err(DmiError::MissingData);
            },
        },
        None => {
            proof {
                assert((w as int) * (h as int) > u64::MAX) by (nonlinear_arith)
                    requires
                        (w as u64) * (h as u64) > u64::MAX,
                {}
                lemma_body_short(body@.len() as int, w as int, h as int);
            }
            return Err(DmiError::MissingData);
        },
    };
    if (body.len() as u64) < need64 {
        proof {
            assert(4 * ((w as int) * (h as int)) == need64);
        }
        return Err(DmiError::MissingData);
    }
    let need = need64 as usize;
    let px = crate::text::copy_range(body, 0, need);
    proof {
        assert(px@ =~= body@.take(4 * ((w as int) * (h as int))));
    }
    Ok(Image { width: w, height: h, pixels: px })
}

/// A body shorter than an overflowing requirement is always short.
proof fn lemma_body_short(blen: int, w: int, h: int)
    requires
        blen <= u64::MAX,
        w * h > u64::MAX / 4,
        w >= 0,
        h >= 0,
    ensures
        blen < 4 * (w * h),
{
    assert(4 * (w * h) > u64::MAX) by (nonlinear_arith)
        requires
            w * h > u64::MAX / 4,
    {}
}

/// Decoding an encoded frame restores it exactly.
pub proof fn lemma_frame_bytes_roundtrip(img: Image)
    requires
        img.wf(),
    ensures
        parse_frame(frame_bytes(img)) is Ok,
        parse_frame(frame_bytes(img))->Ok_0.width == img.width,
        parse_frame(frame_bytes(img))->Ok_0.height == img.height,
        parse_frame_pixels(frame_bytes(img)) == img.pixels@,
{
    let b = frame_bytes(img);
    let d1 = dec_digits(img.width as int);
    let d2 = dec_digits(img.height as int);
    lemma_dec_digits_value(img.width as int);
    lemma_dec_digits_value(img.height as int);
    assert(b[d1.len() as int] == 10u8);
    assert forall|k: int| 0 <= k < d1.len() implies b[k] != 10u8 by {
        assert(b[k] == d1[k]);
        assert(crate::text::is_digit(d1[k]));
    }
    lemma_find_byte_at(b, 10u8, d1.len() as int);
    assert(b.take(d1.len() as int) =~= d1);
    let rest = b.skip(d1.len() as int + 1);
    assert(rest =~= d2 + seq![10u8] + img.pixels@);
    assert(rest[d2.len() as int] == 10u8);
    assert forall|k: int| 0 <= k < d2.len() implies rest[k] != 10u8 by {
        assert(rest[k] == d2[k]);
        assert(crate::text::is_digit(d2[k]));
    }
    lemma_find_byte_at(rest, 10u8, d2.len() as int);
    assert(rest.take(d2.len() as int) =~= d2);
    assert(rest.skip(d2.len() as int + 1) =~= img.pixels@);
    assert(img.pixels@.len() == 4 * ((img.width as int) * (img.height as int)));
    assert(img.pixels@.take(4 * ((img.width as int) * (img.height as int))) =~= img.pixels@);
}

/// `".bytes"`, the staging file suffix.
pub open spec fn suffix_bytes() -> Seq<u8> {
    seq![46u8, 98u8, 121u8, 116u8, 101u8, 115u8]
}

/// `"<key>.<index>.bytes"`.
pub open spec fn file_name_spec(key: Seq<u8>, index: int) -> Seq<u8> {
    key + seq![46u8] + dec_digits(index) + suffix_bytes()
}

/// `"<name>.<i>"`, the i-th candidate frame key.
pub open spec fn cand_key(name: Seq<u8>, i: int) -> Seq<u8> {
    name + seq![46u8] + dec_digits(i)
}

/// Build the staging file name of one frame.
pub fn frame_file_name(key: &[u8], index: u32) -> (r: Vec<u8>)
    ensures
        r@ == file_name_spec(key@, index as int),
{
    let mut out: Vec<u8> = Vec::new();
    push_bytes(&mut out, key);
    out.push(46u8);
    let d = u32_to_dec(index);
    push_bytes(&mut out, d.as_slice());
    out.push(46u8);
    out.push(98u8);
    out.push(121u8);
    out.push(116u8);
    out.push(101u8);
    out.push(115u8);
    proof {
        assert(out@ =~= file_name_spec(key@, index as int));
    }
    out
}

/// Distinct candidate indices give distinct first-file names.
proof fn lemma_file_names_injective(name: Seq<u8>, i: int, j: int)
    requires
        i >= 0,
        j >= 0,
        i != j,
    ensures
        file_name_spec(cand_key(name, i), 0) != file_name_spec(cand_key(name, j), 0),
{
    crate::text::lemma_dec_digits_injective(i, j);
    let a = file_name_spec(cand_key(name, i), 0);
    let b = file_name_spec(cand_key(name, j), 0);
    if a == b {
        let p = name.len() + 1;
        lemma_dec_digits_value(i);
        lemma_dec_digits_value(j);
        let di = dec_digits(i);
        let dj = dec_digits(j);
        if di.len() == dj.len() {
            assert(di =~= dj) by {
                assert(forall|k: int|
                    0 <= k < di.len() ==> a[p + k] == di[k] && b[p + k] == dj[k]);
            }
        } else {
            assert(a.len() != b.len());
        }
        assert(false);
    }
}

/// A sequence of pairwise-distinct values each present in `used` is
/// no longer than `used`.
proof fn lemma_distinct_members_bound(vals: Seq<Seq<u8>>, used: Seq<Seq<u8>>)
    requires
        forall|x: int, y: int| 0 <= x < y < vals.len() ==> vals[x] != vals[y],
        forall|x: int| 0 <= x < vals.len() ==> used.contains(#[trigger] vals[x]),
    ensures
        vals.len() <= used.len(),
    decreases vals.len(),
{
    if vals.len() > 0 {
        let v0 = vals[0];
        let k = choose|k: int| 0 <= k < used.len() && used[k] == v0;
        let used2 = used.remove(k);
        assert forall|x: int| 0 <= x < vals.skip(1).len() implies used2.contains(
            #[trigger] vals.skip(1)[x],
        ) by {
            let v = vals.skip(1)[x];
            assert(v == vals[x + 1]);
            assert(v != v0);
            let m = choose|m: int| 0 <= m < used.len() && used[m] == v;
            if m < k {
                assert(used2[m] == v);
            } else {
                assert(m != k);
                assert(used2[m - 1] == v);
            }
            assert(used2.contains(v));
        }
        assert(forall|x: int, y: int|
            0 <= x < y < vals.skip(1).len() ==> vals.skip(1)[x] != vals.skip(1)[y]);
        lemma_distinct_members_bound(vals.skip(1), used2);
    }
}

/// Allocate the first frame key whose leading file name is unused:
/// candidates `<name>.1`, `<name>.2`, ... are scanned in order, as the
/// staging writer scans the directory.
pub fn alloc_frame_key(name: &[u8], used: &Vec<Vec<u8>>) -> (r: Vec<u8>)
    requires
        used@.len() < u32::MAX,
    ensures
        exists|i: int|
            1 <= i <= used@.len() + 1 && r@ == cand_key(name@, i) && !views(used@).contains(
                file_name_spec(#[trigger] cand_key(name@, i), 0),
            ) && forall|z: int|
                1 <= z < i ==> views(used@).contains(
                    file_name_spec(#[trigger] cand_key(name@, z), 0),
                ),
{
    let mut i: u64 = 1;
    loop
        invariant
            1 <= i,
            i <= used@.len() + 1,
            used@.len() < u32::MAX,
            forall|z: int|
                1 <= z < i ==> views(used@).contains(
                    file_name_spec(#[trigger] cand_key(name@, z), 0),
                ),
        decreases used@.len() + 2 - i,
    {
        let ghost iOld = i as int;
        let key = build_cand(name, i);
        let probe = frame_file_name(key.as_slice(), 0);
        let mut found = false;
        let mut k: usize = 0;
        while k < used.len()
            invariant
                0 <= k <= used@.len(),
                found <==> exists|m: int| 0 <= m < k && views(used@)[m] == probe@,
            decreases used@.len() - k,
        {
            if crate::text::bytes_eq(used[k].as_slice(), probe.as_slice()) {
                proof {
                    assert(views(used@)[k as int] == probe@);
                }
                found = true;
            }
            k = k + 1;
        }
        if !found {
            proof {
                assert(!views(used@).contains(probe@)) by {
                    if views(used@).contains(probe@) {
                        let m = choose|m: int|
                            0 <= m < views(used@).len() && views(used@)[m] == probe@;
                        assert(false);
                    }
                }
            }
            return key;
        }
        proof {
            assert(views(used@).contains(probe@)) by {
                let m = choose|m: int| 0 <= m < used@.len() && views(used@)[m] == probe@;
                assert(views(used@)[m] == probe@);
            }
            // the scanned candidates are distinct members of `used`,
            // so the scan cannot pass its end
            if iOld + 1 > used@.len() + 1 {
                let vals = Seq::new(iOld as nat, |z: int| file_name_spec(
                    cand_key(name@, z + 1),
                    0,
                ));
                assert forall|x: int, y: int| 0 <= x < y < vals.len() implies vals[x]
                    != vals[y] by {
                    lemma_file_names_injective(name@, x + 1, y + 1);
                }
                assert forall|x: int| 0 <= x < vals.len() implies views(used@).contains(
                    #[trigger] vals[x],
                ) by {
                    if x + 1 < iOld {
                        assert(views(used@).contains(
                            file_name_spec(cand_key(name@, x + 1), 0),
                        ));
                    } else {
                        assert(x + 1 == iOld);
                        assert(vals[x] == probe@);
                    }
                }
                lemma_distinct_members_bound(vals, views(used@));
                assert(false);
            }
        }
        i = i + 1;
    }
}

/// The `<name>.<index>` candidate the numeric-suffix scans try, both
/// for frame keys and for staging directories.
pub fn dir_candidate(name: &[u8], index: u32) -> (r: Vec<u8>)
    ensures
        r@ == cand_key(name@, index as int),
{
    build_cand(name, index as u64)
}

/// Build `<name>.<i>`.
fn build_cand(name: &[u8], i: u64) -> (r: Vec<u8>)
    requires
        i <= u32::MAX,
    ensures
        r@ == cand_key(name@, i as int),
{
    let mut out: Vec<u8> = Vec::new();
    push_bytes(&mut out, name);
    out.push(46u8);
    let d = u32_to_dec(i as u32);
    push_bytes(&mut out, d.as_slice());
    proof {
        assert(out@ =~= cand_key(name@, i as int));
    }
    out
}


/// Scalar fields carried into the staging record.
pub open spec fn ser_state_scalars(ser: SerializedState, s: State) -> bool {
    &&& ser.name@ == s.name@
    &&& ser.dirs == s.dirs
    &&& ser.frame_count == s.frame_count
    &&& views(ser.delays@) == views(s.delays@)
    &&& ser.loop_ == s.loop_
    &&& ser.rewind == s.rewind
    &&& ser.movement == s.movement
    &&& views(ser.hotspots@) == views(s.hotspots@)
}

/// The key is the first candidate whose leading file name is absent
/// from `used`.
pub open spec fn key_alloc_ok(name: Seq<u8>, used: Seq<Seq<u8>>, key: Seq<u8>) -> bool {
    exists|i: int|
        1 <= i <= used.len() + 1 && key == cand_key(name, i) && !used.contains(
            file_name_spec(#[trigger] cand_key(name, i), 0),
        ) && forall|z: int|
            1 <= z < i ==> used.contains(file_name_spec(#[trigger] cand_key(name, z), 0))
}

/// Flattened frames the staging records before index `i` announce.
pub open spec fn ser_flat_before(ss: Seq<SerializedState>, i: int) -> int
    decreases i,
{
    if i <= 0 {
        0
    } else {
        ser_flat_before(ss, i - 1) + (ss[i - 1].frame_count as int) * (ss[i - 1].dirs as int)
    }
}

/// Frames held by the states before index `i`.
pub open spec fn st_frames_before(ss: Seq<State>, i: int) -> int
    decreases i,
{
    if i <= 0 {
        0
    } else {
        st_frames_before(ss, i - 1) + ss[i - 1].frames@.len()
    }
}

/// An owned copy of a list of byte strings.
fn copy_vecs(v: &Vec<Vec<u8>>) -> (r: Vec<Vec<u8>>)
    ensures
        views(r@) == views(v@),
{
    let mut r: Vec<Vec<u8>> = Vec::new();
    let mut i: usize = 0;
    while i < v.len()
        invariant
            0 <= i <= v@.len(),
            r@.len() == i,
            forall|q: int| 0 <= q < i ==> (#[trigger] r@[q])@ == v@[q]@,
        decreases v@.len() - i,
    {
        let item = v[i].clone();
        proof {
            assert(item@ == v@[i as int]@);
        }
        r.push(item);
        i = i + 1;
    }
    proof {
        assert(views(r@) =~~= views(v@));
    }
    r
}

impl State {
    /// Serialize one state for the staging directory: allocate a frame
    /// key whose leading file name is free among `used`, and plan one
    /// file per flattened frame.
    pub fn to_serialized(&self, used: &Vec<Vec<u8>>) -> (r: (
        SerializedState,
        Vec<(Vec<u8>, Vec<u8>)>,
    ))
        requires
            self.frames@.len() == self.flat_count(),
            self.frames@.len() <= u32::MAX,
            used@.len() < u32::MAX,
        ensures
            ({
                let (ser, plan) = r;
                &&& ser_state_scalars(ser, *self)
                &&& key_alloc_ok(self.name@, views(used@), ser.frame_key@)
                &&& plan@.len() == self.frames@.len()
                &&& forall|k: int|
                    0 <= k < plan@.len() ==> (#[trigger] plan@[k]).0@ == file_name_spec(
                        ser.frame_key@,
                        k,
                    ) && plan@[k].1@ == frame_bytes(self.frames@[k])
            }),
    {
        let key = alloc_frame_key(self.name.as_slice(), used);
        let mut plan: Vec<(Vec<u8>, Vec<u8>)> = Vec::new();
        let n = self.frames.len();
        let mut k: usize = 0;
        while k < n
            invariant
                0 <= k <= n,
                n == self.frames@.len(),
                n <= u32::MAX,
                plan@.len() == k,
                forall|q: int|
                    0 <= q < k ==> (#[trigger] plan@[q]).0@ == file_name_spec(key@, q)
                        && plan@[q].1@ == frame_bytes(self.frames@[q]),
            decreases n - k,
        {
            let fname = frame_file_name(key.as_slice(), k as u32);
            let bytes = image_to_bytes(&self.frames[k]);
            plan.push((fname, bytes));
            k = k + 1;
        }
        let ser = SerializedState {
            name: self.name.clone(),
            dirs: self.dirs,
            frame_key: key,
            frame_count: self.frame_count,
            delays: copy_vecs(&self.delays),
            loop_: self.loop_,
            rewind: self.rewind,
            movement: self.movement,
            hotspots: copy_vecs(&self.hotspots),
        };
        proof {
            assert(ser.name@ == self.name@);
        }
        (ser, plan)
    }
}

/// Equal leading file names come from equal keys.
proof fn lemma_file_name_key_injective(a: Seq<u8>, b: Seq<u8>)
    requires
        file_name_spec(a, 0) == file_name_spec(b, 0),
    ensures
        a == b,
{
    let fa = file_name_spec(a, 0);
    let fb = file_name_spec(b, 0);
    assert(fa.len() == a.len() + 1 + dec_digits(0).len() + suffix_bytes().len());
    assert(fb.len() == b.len() + 1 + dec_digits(0).len() + suffix_bytes().len());
    assert(a.len() == b.len());
    assert(a =~= b) by {
        assert(forall|i: int| 0 <= i < a.len() ==> fa[i] == a[i] && fb[i] == b[i]);
    }
}

/// What `Dmi::to_serialized` hands out.
pub open spec fn stage_post(
    d: Dmi,
    temp: Seq<u8>,
    ser: SerializedDmi,
    plan: Seq<(Vec<u8>, Vec<u8>)>,
) -> bool {
    &&& ser.name@ == d.name@
    &&& ser.width == d.width
    &&& ser.height == d.height
    &&& ser.temp@ == temp
    &&& ser.states@.len() == d.states@.len()
    &&& forall|i: int|
        0 <= i < d.states@.len() ==> ser_state_scalars(
            #[trigger] ser.states@[i],
            d.states@[i],
        )
    &&& plan.len() == st_frames_before(d.states@, d.states@.len() as int)
    &&& forall|i: int, j: int|
        0 <= i < d.states@.len() && 0 <= j < d.states@[i].frames@.len() ==> {
            let p = #[trigger] plan[st_frames_before(d.states@, i) + j];
            &&& p.0@ == file_name_spec(ser.states@[i].frame_key@, j)
            &&& p.1@ == frame_bytes(d.states@[i].frames@[j])
        }
    &&& forall|i1: int, i2: int|
        0 <= i1 < i2 < d.states@.len() && d.states@[i1].frames@.len() > 0 ==> (
        #[trigger] ser.states@[i1].frame_key@) != (#[trigger] ser.states@[i2].frame_key@)
}

impl Dmi {
    /// Serialize the whole container for a staging directory resolved
    /// to `temp`: states keep their order, and each receives a frame
    /// key that collides with no file an earlier state planned.
    pub fn to_serialized(&self, temp: Vec<u8>) -> (r: (
        SerializedDmi,
        Vec<(Vec<u8>, Vec<u8>)>,
    ))
        requires
            forall|i: int|
                0 <= i < self.states@.len() ==> (#[trigger] self.states@[i]).frames@.len()
                    == self.states@[i].flat_count(),
            st_frames_before(self.states@, self.states@.len() as int) < u32::MAX,
        ensures
            stage_post(*self, temp@, r.0, r.1@),
    {
        let mut used: Vec<Vec<u8>> = Vec::new();
        let mut plan: Vec<(Vec<u8>, Vec<u8>)> = Vec::new();
        let mut out_states: Vec<SerializedState> = Vec::new();
        let n = self.states.len();
        let ghost ss = self.states@;
        let mut i: usize = 0;
        while i < n
            invariant
                0 <= i <= n,
                n == ss.len(),
                ss == self.states@,
                forall|q: int|
                    0 <= q < n ==> (#[trigger] ss[q]).frames@.len() == ss[q].flat_count(),
                st_frames_before(ss, n as int) < u32::MAX,
                out_states@.len() == i,
                plan@.len() == st_frames_before(ss, i as int),
                used@.len() == plan@.len(),
                forall|k: int|
                    0 <= k < plan@.len() ==> (#[trigger] views(used@)[k]) == plan@[k].0@,
                forall|q: int|
                    0 <= q < i ==> ser_state_scalars(#[trigger] out_states@[q], ss[q]),
                forall|q: int, j: int|
                    0 <= q < i && 0 <= j < ss[q].frames@.len() ==> {
                        let p = #[trigger] plan@[st_frames_before(ss, q) + j];
                        &&& p.0@ == file_name_spec(out_states@[q].frame_key@, j)
                        &&& p.1@ == frame_bytes(ss[q].frames@[j])
                    },
                forall|q1: int, q2: int|
                    0 <= q1 < q2 < i && ss[q1].frames@.len() > 0 ==> (
                    #[trigger] out_states@[q1].frame_key@) != (
                    #[trigger] out_states@[q2].frame_key@),
            decreases n - i,
        {
            proof {
                lemma_st_frames_before_mono(ss, i as int + 1, n as int);
                assert(st_frames_before(ss, i as int + 1) == st_frames_before(ss, i as int)
                    + ss[i as int].frames@.len());
                lemma_st_frames_before_nonneg(ss, i as int);
            }
            let (ser_st, st_plan) = self.states[i].to_serialized(&used);
            let ghost key = ser_st.frame_key@;
            let ghost plan0 = plan@;
            let ghost used0 = used@;
            let m = st_plan.len();
            let mut k: usize = 0;
            while k < m
                invariant
                    0 <= k <= m,
                    m == st_plan@.len(),
                    plan@.len() == plan0.len() + k,
                    used@.len() == plan@.len(),
                    forall|z: int| 0 <= z < plan0.len() ==> #[trigger] plan@[z] == plan0[z],
                    forall|z: int|
                        0 <= z < k ==> (#[trigger] plan@[plan0.len() + z]).0@ == st_plan@[
                            z
                        ].0@ && plan@[plan0.len() + z].1@ == st_plan@[z].1@,
                    forall|z: int|
                        0 <= z < plan@.len() ==> (#[trigger] views(used@)[z]) == plan@[z].0@,
                decreases m - k,
            {
                let item_name = st_plan[k].0.clone();
                let item_bytes = st_plan[k].1.clone();
                let fname = st_plan[k].0.clone();
                proof {
                    assert(item_name@ == st_plan@[k as int].0@);
                    assert(item_bytes@ == st_plan@[k as int].1@);
                    assert(fname@ == st_plan@[k as int].0@);
                }
                let ghost pplan = plan@;
                let ghost pused = used@;
                plan.push((item_name, item_bytes));
                used.push(fname);
                proof {
                    assert(plan@.len() == pplan.len() + 1);
                    assert(plan@[plan@.len() - 1].0@ == st_plan@[k as int].0@);
                    assert(plan@[plan@.len() - 1].1@ == st_plan@[k as int].1@);
                    assert(forall|z: int|
                        0 <= z < pplan.len() ==> #[trigger] plan@[z] == pplan[z]);
                    assert forall|z: int|
                        0 <= z < plan@.len() implies (#[trigger] views(used@)[z]) == plan@[
                        z
                    ].0@ by {
                        if z < pused.len() {
                            assert(views(used@)[z] == views(pused)[z]);
                        } else {
                            assert(views(used@)[z] == fname@);
                        }
                    }
                }
                k = k + 1;
            }
            let ghost out0 = out_states@;
            out_states.push(ser_st);
            proof {
                // the new state's facts and its key's freshness
                assert(out_states@.len() == out0.len() + 1);
                assert(forall|q: int|
                    0 <= q < out0.len() ==> #[trigger] out_states@[q] == out0[q]);
                assert(out_states@[i as int] == ser_st);
                assert forall|q: int, j: int|
                    0 <= q < i + 1 && 0 <= j < ss[q].frames@.len() implies {
                    let p = #[trigger] plan@[st_frames_before(ss, q) + j];
                    &&& p.0@ == file_name_spec(out_states@[q].frame_key@, j)
                    &&& p.1@ == frame_bytes(ss[q].frames@[j])
                } by {
                    assert(st_frames_before(ss, q + 1) == st_frames_before(ss, q)
                        + ss[q].frames@.len());
                    if q < i {
                        lemma_st_frames_before_mono(ss, q, i as int);
                        lemma_st_frames_before_mono(ss, q + 1, i as int);
                        assert(st_frames_before(ss, q) + j < plan0.len());
                        assert(plan@[st_frames_before(ss, q) + j] == plan0[st_frames_before(
                            ss,
                            q,
                        ) + j]);
                    } else {
                        lemma_st_frames_before_nonneg(ss, q);
                        assert(plan@[plan0.len() + j].0@ == st_plan@[j].0@);
                        assert(plan@[plan0.len() + j].1@ == st_plan@[j].1@);
                    }
                }
                assert forall|q1: int, q2: int|
                    0 <= q1 < q2 < i + 1 && ss[q1].frames@.len() > 0 implies (
                    #[trigger] out_states@[q1].frame_key@) != (
                    #[trigger] out_states@[q2].frame_key@) by {
                    if q2 < i {
                        assert(out_states@[q1].frame_key@ == out0[q1].frame_key@);
                        assert(out_states@[q2].frame_key@ == out0[q2].frame_key@);
                    } else {
                        let fk1 = out0[q1].frame_key@;
                        lemma_st_frames_before_mono(ss, q1, i as int);
                        lemma_st_frames_before_mono(ss, q1 + 1, i as int);
                        assert(st_frames_before(ss, q1 + 1) == st_frames_before(ss, q1)
                            + ss[q1].frames@.len());
                        assert(plan0[st_frames_before(ss, q1) + 0].0@ == file_name_spec(
                            fk1,
                            0,
                        ));
                        assert(views(used0)[st_frames_before(ss, q1)] == file_name_spec(
                            fk1,
                            0,
                        ));
                        assert(views(used0).contains(file_name_spec(fk1, 0)));
                        let nm = ss[i as int].name@;
                        let ii = choose|ii: int|
                            1 <= ii <= views(used0).len() + 1 && key == cand_key(nm, ii)
                                && !views(used0).contains(
                                file_name_spec(#[trigger] cand_key(nm, ii), 0),
                            ) && forall|z: int|
                                1 <= z < ii ==> views(used0).contains(
                                    file_name_spec(#[trigger] cand_key(nm, z), 0),
                                );
                        assert(!views(used0).contains(file_name_spec(key, 0)));
                        if fk1 == key {
                            assert(false);
                        }
                    }
                }
            }
            i = i + 1;
        }
        let ser = SerializedDmi {
            name: self.name.clone(),
            width: self.width,
            height: self.height,
            states: out_states,
            temp,
        };
        proof {
            assert(ser.name@ == self.name@);
        }
        (ser, plan)
    }
}

proof fn lemma_st_frames_before_mono(ss: Seq<State>, i: int, j: int)
    requires
        0 <= i <= j,
    ensures
        st_frames_before(ss, i) <= st_frames_before(ss, j),
        st_frames_before(ss, i) >= 0,
    decreases j - i,
{
    if i == j {
        lemma_st_frames_before_nonneg(ss, i);
    } else {
        lemma_st_frames_before_mono(ss, i, j - 1);
    }
}

proof fn lemma_st_frames_before_nonneg(ss: Seq<State>, i: int)
    ensures
        st_frames_before(ss, i) >= 0,
    decreases i,
{
    if i > 0 {
        lemma_st_frames_before_nonneg(ss, i - 1);
    }
}



/// Scalar fields read back from a staging record.
pub open spec fn state_from_ser(s: State, ser: SerializedState) -> bool {
    &&& s.name@ == ser.name@
    &&& s.dirs == ser.dirs
    &&& s.frame_count == ser.frame_count
    &&& views(s.delays@) == views(ser.delays@)
    &&& s.loop_ == ser.loop_
    &&& s.rewind == ser.rewind
    &&& s.movement == ser.movement
    &&& views(s.hotspots@) == views(ser.hotspots@)
    &&& s.frames@.len() == (ser.frame_count as int) * (ser.dirs as int)
}

/// What a successful `from_serialized` returns.
pub open spec fn unstage_post(ser: SerializedDmi, files: Seq<Seq<u8>>, d: Dmi) -> bool {
    &&& d.name@ == ser.name@
    &&& d.width == ser.width
    &&& d.height == ser.height
    &&& d.states@.len() == ser.states@.len()
    &&& forall|i: int|
        0 <= i < ser.states@.len() ==> state_from_ser(#[trigger] d.states@[i], ser.states@[i])
    &&& forall|i: int, j: int|
        0 <= i < ser.states@.len() && 0 <= j < (ser.states@[i].frame_count as int) * (
        ser.states@[i].dirs as int) ==> #[trigger] frame_matches_file(
            d.states@[i].frames@[j],
            files[ser_flat_before(ser.states@, i) + j],
        )
}

/// `f` is exactly what decoding the staging file `pb` yields.
pub open spec fn frame_matches_file(f: Image, pb: Seq<u8>) -> bool {
    &&& parse_frame(pb) is Ok
    &&& f.width == parse_frame(pb)->Ok_0.width
    &&& f.height == parse_frame(pb)->Ok_0.height
    &&& f.pixels@ == parse_frame_pixels(pb)
    &&& f.wf()
}

/// Every frame of `s` is the decoding of its staging file, starting
/// at flattened index `t0`.
pub open spec fn state_frames_from_files(s: State, files: Seq<Vec<u8>>, t0: int) -> bool {
    forall|j: int|
        0 <= j < s.frames@.len() ==> #[trigger] frame_matches_file(
            s.frames@[j],
            files[t0 + j]@,
        )
}

/// The largest flattened frame count one record can announce.
pub open spec fn ser_max_flat() -> int {
    0xffff_ffffint * 0xffff_ffffint
}

proof fn lemma_ser_flat_bound(ss: Seq<SerializedState>, i: int)
    requires
        i >= 0,
    ensures
        0 <= ser_flat_before(ss, i) <= i * ser_max_flat(),
    decreases i,
{
    if i > 0 {
        lemma_ser_flat_bound(ss, i - 1);
        assert(0 <= (ss[i - 1].frame_count as int) * (ss[i - 1].dirs as int)
            <= ser_max_flat()) by (nonlinear_arith)
            requires
                ss[i - 1].frame_count <= 0xffff_ffffu32,
                ss[i - 1].dirs <= 0xffff_ffffu32,
        {}
        assert((i - 1) * ser_max_flat() + ser_max_flat() == i * ser_max_flat()) by (
        nonlinear_arith) {}
    }
}

proof fn lemma_ser_flat_mono(ss: Seq<SerializedState>, i: int, j: int)
    requires
        0 <= i <= j,
    ensures
        ser_flat_before(ss, i) <= ser_flat_before(ss, j),
        ser_flat_before(ss, i) >= 0,
    decreases j - i,
{
    if i == j {
        lemma_ser_flat_bound(ss, i);
    } else {
        lemma_ser_flat_mono(ss, i, j - 1);
        assert((ss[j - 1].frame_count as int) * (ss[j - 1].dirs as int) >= 0) by (
        nonlinear_arith) {}
    }
}

impl Dmi {
    /// Reassemble a container from its staging record and the contents
    /// of its per-frame files, in ascending flattened order; scalar
    /// fields are copied verbatim, with no delay reconciliation.
    pub fn from_serialized(serialized: SerializedDmi, files: &Vec<Vec<u8>>) -> (r: Result<
        Dmi,
        DmiError,
    >)
        ensures
            match r {
                Ok(d) => unstage_post(serialized, views(files@), d),
                Err(e) => {
                    ||| (e == DmiError::MissingData && files@.len() != ser_flat_before(
                        serialized.states@,
                        serialized.states@.len() as int,
                    ))
                    ||| exists|k: int|
                        0 <= k < files@.len() && #[trigger] parse_frame(views(files@)[k])
                            == Err::<Image, DmiError>(e) && forall|z: int|
                            0 <= z < k ==> (#[trigger] parse_frame(views(files@)[z])) is Ok
                },
            },
            (files@.len() == ser_flat_before(
                serialized.states@,
                serialized.states@.len() as int,
            ) && forall|k: int|
                0 <= k < files@.len() ==> (#[trigger] parse_frame(views(files@)[k])) is Ok)
                ==> r is Ok,
    {
        let ghost serg = serialized;
        let ghost sst = serialized.states@;
        let mut src_states = serialized.states;
        let n = src_states.len();
        // count the announced frames
        let mut needed: u128 = 0;
        let mut i: usize = 0;
        while i < n
            invariant
                0 <= i <= n,
                n == sst.len(),
                src_states@ == sst,
                needed == ser_flat_before(sst, i as int),
                needed <= (i as int) * ser_max_flat(),
            decreases n - i,
        {
            proof {
                assert((src_states@[i as int].frame_count as int) * (src_states@[
                    i as int
                ].dirs as int) <= ser_max_flat() && (src_states@[i as int].frame_count as int)
                    * (src_states@[i as int].dirs as int) >= 0) by (nonlinear_arith)
                    requires
                        src_states@[i as int].frame_count <= 0xffff_ffffu32,
                        src_states@[i as int].dirs <= 0xffff_ffffu32,
                {}
                assert(needed + (sst[i as int].frame_count as int) * (sst[
                    i as int
                ].dirs as int) <= (i as int + 1) * ser_max_flat()) by (nonlinear_arith)
                    requires
                        needed <= (i as int) * ser_max_flat(),
                        (sst[i as int].frame_count as int) * (sst[i as int].dirs as int)
                            <= ser_max_flat(),
                        i >= 0,
                {}
                assert((i as int + 1) * ser_max_flat() <= u128::MAX) by (nonlinear_arith)
                    requires
                        0 <= i as int + 1 <= 0xffff_ffff_ffff_ffffint,
                {}
            }
            let fc = src_states[i].frame_count;
            let dirs = src_states[i].dirs;
            proof {
                assert((fc as u64) * (dirs as u64) == (fc as int) * (dirs as int)) by (
                nonlinear_arith)
                    requires
                        fc <= 0xffff_ffffu32,
                        dirs <= 0xffff_ffffu32,
                {}
            }
            let flat = (fc as u64) * (dirs as u64);
            needed = needed + flat as u128;
            i = i + 1;
        }
        let flen = files.len();
        if (flen as u128) != needed {
            return Err(DmiError::MissingData);
        }
        proof {
            assert(files@.len() <= usize::MAX);
        }
        // decode every frame file in flattened order
        let mut states: Vec<State> = Vec::new();
        let mut t: usize = 0;
        let mut i: usize = 0;
        #[verifier::loop_isolation(false)]
        while i < n
            invariant
                0 <= i <= n,
                n == sst.len(),
                src_states@ == sst.skip(i as int),
                t == ser_flat_before(sst, i as int),
                needed == ser_flat_before(sst, n as int),
                files@.len() == needed,
                files@.len() <= usize::MAX,
                states@.len() == i,
                forall|q: int|
                    0 <= q < i ==> state_from_ser(#[trigger] states@[q], sst[q]),
                forall|q: int|
                    0 <= q < i ==> state_frames_from_files(
                        #[trigger] states@[q],
                        files@,
                        ser_flat_before(sst, q),
                    ),
                forall|z: int| 0 <= z < t ==> (#[trigger] parse_frame(files@[z]@)) is Ok,
            decreases n - i,
        {
            let sstate = src_states.remove(0);
            proof {
                assert(sstate == sst[i as int]);
                assert(src_states@ =~~= sst.skip(i as int + 1));
                assert((sstate.frame_count as u64) * (sstate.dirs as u64) == (
                sstate.frame_count as int) * (sstate.dirs as int)) by (nonlinear_arith)
                    requires
                        sstate.frame_count <= 0xffff_ffffu32,
                        sstate.dirs <= 0xffff_ffffu32,
                {}
                assert(ser_flat_before(sst, i as int + 1) == ser_flat_before(sst, i as int)
                    + (sst[i as int].frame_count as int) * (sst[i as int].dirs as int));
                lemma_ser_flat_mono(sst, i as int + 1, n as int);
                assert((sstate.frame_count as int) * (sstate.dirs as int)
                    <= 0xffff_ffff_ffff_ffff) by (nonlinear_arith)
                    requires
                        sstate.frame_count <= 0xffff_ffffu32,
                        sstate.dirs <= 0xffff_ffffu32,
                {}
            }
            let flat = (sstate.frame_count as u64) * (sstate.dirs as u64);
            let mut frames: Vec<Image> = Vec::new();
            let mut j: u64 = 0;
            #[verifier::loop_isolation(false)]
            while j < flat
                invariant
                    0 <= j <= flat,
                    flat == (sst[i as int].frame_count as int) * (sst[i as int].dirs as int),
                    0 <= i < n,
                    n == sst.len(),
                    t == ser_flat_before(sst, i as int),
                    t + flat <= needed,
                    needed == ser_flat_before(sst, n as int),
                    files@.len() == needed,
                    files@.len() <= usize::MAX,
                    frames@.len() == j,
                    forall|z: int|
                        0 <= z < j ==> #[trigger] frame_matches_file(
                            frames@[z],
                            files@[t + z]@,
                        ),
                    forall|z: int|
                        0 <= z < t + j ==> (#[trigger] parse_frame(files@[z]@)) is Ok,
                decreases flat - j,
            {
                proof {
                    assert(t + flat <= files@.len());
                    assert(j < flat);
                }
                let idx = t + (j as usize);
                proof {
                    assert(views(files@)[idx as int] == files@[idx as int]@);
                }
                let img = match bytes_to_image(files[idx].as_slice()) {
                    Ok(img) => img,
                    Err(e) => {
                        proof {
                            assert(parse_frame(views(files@)[idx as int]) == Err::<
                                Image,
                                DmiError,
                            >(e));
                            assert forall|z: int|
                                0 <= z < idx implies (#[trigger] parse_frame(
                                views(files@)[z],
                            )) is Ok by {
                                assert(views(files@)[z] == files@[z]@);
                                assert(parse_frame(files@[z]@) is Ok);
                            }
                        }
                        return Err(e);
                    },
                };
                let ghost prevfr = frames@;
                frames.push(img);
                proof {
                    assert(frame_matches_file(img, files@[idx as int]@)) by {
                        assert(views(files@)[idx as int] == files@[idx as int]@);
                    }
                    assert forall|z: int|
                        0 <= z < j + 1 implies #[trigger] frame_matches_file(
                        frames@[z],
                        files@[t + z]@,
                    ) by {
                        if z < j {
                            assert(frames@[z] == prevfr[z]);
                            assert(frame_matches_file(prevfr[z], files@[t + z]@));
                        } else {
                            assert(frames@[z] == img);
                        }
                    }
                    assert forall|z: int|
                        0 <= z < t + j + 1 implies (#[trigger] parse_frame(
                        files@[z]@,
                    )) is Ok by {
                        if z == t + j {
                            assert(frame_matches_file(img, files@[idx as int]@));
                        }
                    }
                }
                j = j + 1;
            }
            let st = State {
                name: sstate.name,
                dirs: sstate.dirs,
                frames,
                frame_count: sstate.frame_count,
                delays: sstate.delays,
                loop_: sstate.loop_,
                rewind: sstate.rewind,
                movement: sstate.movement,
                hotspots: sstate.hotspots,
            };
            let ghost prevst = states@;
            states.push(st);
            proof {
                assert(states@[i as int] == st);
                assert(state_frames_from_files(st, files@, t as int)) by {
                    assert forall|jj: int|
                        0 <= jj < st.frames@.len() implies #[trigger] frame_matches_file(
                        st.frames@[jj],
                        files@[t + jj]@,
                    ) by {
                        assert(st.frames@[jj] == frames@[jj]);
                        assert(frame_matches_file(frames@[jj], files@[t + jj]@));
                    }
                }
                assert forall|q: int|
                    0 <= q < i + 1 implies state_frames_from_files(
                    #[trigger] states@[q],
                    files@,
                    ser_flat_before(sst, q),
                ) by {
                    if q < i {
                        assert(states@[q] == prevst[q]);
                        assert(state_frames_from_files(prevst[q], files@, ser_flat_before(
                            sst,
                            q,
                        )));
                    } else {
                        assert(states@[q] == st);
                    }
                }
                assert forall|q: int|
                    0 <= q < i + 1 implies state_from_ser(#[trigger] states@[q], sst[q]) by {
                    if q < i {
                        assert(states@[q] == prevst[q]);
                    } else {
                        assert(states@[q] == st);
                    }
                }
            }
            t = t + flat as usize;
            i = i + 1;
        }
        proof {
            assert(forall|k: int|
                0 <= k < files@.len() ==> #[trigger] views(files@)[k] == files@[k]@);
            assert forall|q: int, j: int|
                0 <= q < n && 0 <= j < (sst[q].frame_count as int) * (
                sst[q].dirs as int) implies #[trigger] frame_matches_file(
                states@[q].frames@[j],
                views(files@)[ser_flat_before(sst, q) + j],
            ) by {
                assert(state_from_ser(states@[q], sst[q]));
                assert(state_frames_from_files(states@[q], files@, ser_flat_before(sst, q)));
                assert(frame_matches_file(states@[q].frames@[j], files@[ser_flat_before(
                    sst,
                    q,
                ) + j]@));
                lemma_ser_flat_mono(sst, q, n as int);
                lemma_ser_flat_mono(sst, q + 1, n as int);
                assert(ser_flat_before(sst, q + 1) == ser_flat_before(sst, q) + (
                sst[q].frame_count as int) * (sst[q].dirs as int));
                lemma_ser_flat_bound(sst, q);
                assert(0 <= ser_flat_before(sst, q) + j < files@.len());
                assert(views(files@)[ser_flat_before(sst, q) + j] == files@[ser_flat_before(
                    sst,
                    q,
                ) + j]@);
            }
        }
        Ok(
            Dmi {
                name: serialized.name,
                width: serialized.width,
                height: serialized.height,
                states,
            },
        )
    }
}

/// The staging round trip: reconstructing a container from what
/// serializing it planned restores every field, pixel-exact, the
/// resolved directory aside.
pub proof fn lemma_staging_roundtrip(
    c: Dmi,
    temp: Seq<u8>,
    ser: SerializedDmi,
    plan: Seq<(Vec<u8>, Vec<u8>)>,
    files: Seq<Seq<u8>>,
    d2: Dmi,
)
    requires
        forall|i: int|
            0 <= i < c.states@.len() ==> (#[trigger] c.states@[i]).frames@.len() == c.states@[
                i
            ].flat_count(),
        forall|i: int, j: int|
            0 <= i < c.states@.len() && 0 <= j < c.states@[i].frames@.len() ==> (
            #[trigger] c.states@[i].frames@[j]).wf(),
        stage_post(c, temp, ser, plan),
        files.len() == plan.len(),
        forall|k: int| 0 <= k < plan.len() ==> #[trigger] files[k] == plan[k].1@,
        unstage_post(ser, files, d2),
    ensures
        d2.name@ == c.name@,
        d2.width == c.width,
        d2.height == c.height,
        d2.states@.len() == c.states@.len(),
        forall|i: int|
            0 <= i < c.states@.len() ==> (#[trigger] d2.states@[i]).same_scalars(
                c.states@[i],
            ) && d2.states@[i].frames@.len() == c.states@[i].frames@.len(),
        forall|i: int, j: int|
            0 <= i < c.states@.len() && 0 <= j < c.states@[i].frames@.len() ==> {
                let f = #[trigger] d2.states@[i].frames@[j];
                let g = c.states@[i].frames@[j];
                f.width == g.width && f.height == g.height && f.pixels@ == g.pixels@
            },
{
    assert forall|i: int|
        0 <= i <= c.states@.len() implies #[trigger] ser_flat_before(ser.states@, i)
        == st_frames_before(c.states@, i) by {
        lemma_flat_counts_agree(c, ser, i);
    }
    assert forall|i: int|
        0 <= i < c.states@.len() implies (#[trigger] d2.states@[i]).same_scalars(
        c.states@[i],
    ) && d2.states@[i].frames@.len() == c.states@[i].frames@.len() by {
        assert(ser_state_scalars(ser.states@[i], c.states@[i]));
        assert(state_from_ser(d2.states@[i], ser.states@[i]));
    }
    assert forall|i: int, j: int|
        0 <= i < c.states@.len() && 0 <= j < c.states@[i].frames@.len() implies {
        let f = #[trigger] d2.states@[i].frames@[j];
        let g = c.states@[i].frames@[j];
        f.width == g.width && f.height == g.height && f.pixels@ == g.pixels@
    } by {
        let g = c.states@[i].frames@[j];
        assert(ser_state_scalars(ser.states@[i], c.states@[i]));
        lemma_st_frames_before_mono(c.states@, i, c.states@.len() as int);
        lemma_st_frames_before_mono(c.states@, i + 1, c.states@.len() as int);
        assert(st_frames_before(c.states@, i + 1) == st_frames_before(c.states@, i)
            + c.states@[i].frames@.len());
        let k = st_frames_before(c.states@, i) + j;
        assert(0 <= k < plan.len());
        assert(plan[k].1@ == frame_bytes(g));
        assert(files[k] == plan[k].1@);
        assert(ser_flat_before(ser.states@, i) == st_frames_before(c.states@, i));
        lemma_frame_bytes_roundtrip(g);
        assert(state_from_ser(d2.states@[i], ser.states@[i]));
        assert(frame_matches_file(d2.states@[i].frames@[j], files[ser_flat_before(
            ser.states@,
            i,
        ) + j]));
    }
}

/// Serializing preserves each state's flattened frame count.
proof fn lemma_flat_counts_agree(c: Dmi, ser: SerializedDmi, i: int)
    requires
        0 <= i <= c.states@.len(),
        c.states@.len() == ser.states@.len(),
        forall|q: int|
            0 <= q < c.states@.len() ==> ser_state_scalars(
                #[trigger] ser.states@[q],
                c.states@[q],
            ),
        forall|q: int|
            0 <= q < c.states@.len() ==> (#[trigger] c.states@[q]).frames@.len() == c.states@[
                q
            ].flat_count(),
    ensures
        ser_flat_before(ser.states@, i) == st_frames_before(c.states@, i),
    decreases i,
{
    if i > 0 {
        lemma_flat_counts_agree(c, ser, i - 1);
        assert(ser_state_scalars(ser.states@[i - 1], c.states@[i - 1]));
        assert((ser.states@[i - 1].frame_count as int) * (ser.states@[i - 1].dirs as int)
            == c.states@[i - 1].frames@.len());
    }
}









} // verus!
