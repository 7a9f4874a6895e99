//! The metadata text codec: the spec-level grammar of the `key = value`
//! block (`parse_meta` / `gen_meta`) and the executable
//! `Dmi::set_metadata` / `Dmi::get_metadata` proved against it.

use vstd::prelude::*;
use crate::text::{
    all_digits, bytes_eq, copy_range, dec_digits, dec_value, find_byte, find_sep, find_byte_in, find_sep_in,
    is_float_literal, is_float_token, is_uint_literal, is_ws, lemma_dec_digits_value,
    lemma_find_byte, lemma_find_sep, nl, parse_u32, sep_at, trim_bytes, trim_spec, u32_to_dec,
    uint_value,
};
use crate::types::{views, token_wf, Dmi, DmiError, State};

verus! {

/// `"# BEGIN DMI"`
pub open spec fn lit_header() -> Seq<u8> {
    seq![35u8, 32u8, 66u8, 69u8, 71u8, 73u8, 78u8, 32u8, 68u8, 77u8, 73u8]
}

/// `"version = 4.0"`
pub open spec fn lit_version() -> Seq<u8> {
    seq![118u8, 101u8, 114u8, 115u8, 105u8, 111u8, 110u8, 32u8, 61u8, 32u8, 52u8, 46u8, 48u8]
}

/// `"# END DMI"`
pub open spec fn lit_footer() -> Seq<u8> {
    seq![35u8, 32u8, 69u8, 78u8, 68u8, 32u8, 68u8, 77u8, 73u8]
}

/// `"width"`
pub open spec fn key_width() -> Seq<u8> {
    seq![119u8, 105u8, 100u8, 116u8, 104u8]
}

/// `"height"`
pub open spec fn key_height() -> Seq<u8> {
    seq![104u8, 101u8, 105u8, 103u8, 104u8, 116u8]
}

/// `"state"`
pub open spec fn key_state() -> Seq<u8> {
    seq![115u8, 116u8, 97u8, 116u8, 101u8]
}

/// `"dirs"`
pub open spec fn key_dirs() -> Seq<u8> {
    seq![100u8, 105u8, 114u8, 115u8]
}

/// `"frames"`
pub open spec fn key_frames() -> Seq<u8> {
    seq![102u8, 114u8, 97u8, 109u8, 101u8, 115u8]
}

/// `"delay"`
pub open spec fn key_delay() -> Seq<u8> {
    seq![100u8, 101u8, 108u8, 97u8, 121u8]
}

/// `"loop"`
pub open spec fn key_loop() -> Seq<u8> {
    seq![108u8, 111u8, 111u8, 112u8]
}

/// `"rewind"`
pub open spec fn key_rewind() -> Seq<u8> {
    seq![114u8, 101u8, 119u8, 105u8, 110u8, 100u8]
}

/// `"movement"`
pub open spec fn key_movement() -> Seq<u8> {
    seq![109u8, 111u8, 118u8, 101u8, 109u8, 101u8, 110u8, 116u8]
}

/// `"hotspot"`
pub open spec fn key_hotspot() -> Seq<u8> {
    seq![104u8, 111u8, 116u8, 115u8, 112u8, 111u8, 116u8]
}

pub fn lit_header_vec() -> (r: Vec<u8>)
    ensures
        r@ == lit_header(),
{
    let mut v: Vec<u8> = Vec::new();
    v.push(35u8);
    v.push(32u8);
    v.push(66u8);
    v.push(69u8);
    v.push(71u8);
    v.push(73u8);
    v.push(78u8);
    v.push(32u8);
    v.push(68u8);
    v.push(77u8);
    v.push(73u8);
    proof {
        assert(v@ =~= lit_header());
    }
    v
}

pub fn lit_version_vec() -> (r: Vec<u8>)
    ensures
        r@ == lit_version(),
{
    let mut v: Vec<u8> = Vec::new();
    v.push(118u8);
    v.push(101u8);
    v.push(114u8);
    v.push(115u8);
    v.push(105u8);
    v.push(111u8);
    v.push(110u8);
    v.push(32u8);
    v.push(61u8);
    v.push(32u8);
    v.push(52u8);
    v.push(46u8);
    v.push(48u8);
    proof {
        assert(v@ =~= lit_version());
    }
    v
}

pub fn lit_footer_vec() -> (r: Vec<u8>)
    ensures
        r@ == lit_footer(),
{
    let mut v: Vec<u8> = Vec::new();
    v.push(35u8);
    v.push(32u8);
    v.push(69u8);
    v.push(78u8);
    v.push(68u8);
    v.push(32u8);
    v.push(68u8);
    v.push(77u8);
    v.push(73u8);
    proof {
        assert(v@ =~= lit_footer());
    }
    v
}

pub fn key_width_vec() -> (r: Vec<u8>)
    ensures
        r@ == key_width(),
{
    let mut v: Vec<u8> = Vec::new();
    v.push(119u8);
    v.push(105u8);
    v.push(100u8);
    v.push(116u8);
    v.push(104u8);
    proof {
        assert(v@ =~= key_width());
    }
    v
}

pub fn key_height_vec() -> (r: Vec<u8>)
    ensures
        r@ == key_height(),
{
    let mut v: Vec<u8> = Vec::new();
    v.push(104u8);
    v.push(101u8);
    v.push(105u8);
    v.push(103u8);
    v.push(104u8);
    v.push(116u8);
    proof {
        assert(v@ =~= key_height());
    }
    v
}

pub fn key_state_vec() -> (r: Vec<u8>)
    ensures
        r@ == key_state(),
{
    let mut v: Vec<u8> = Vec::new();
    v.push(115u8);
    v.push(116u8);
    v.push(97u8);
    v.push(116u8);
    v.push(101u8);
    proof {
        assert(v@ =~= key_state());
    }
    v
}

pub fn key_dirs_vec() -> (r: Vec<u8>)
    ensures
        r@ == key_dirs(),
{
    let mut v: Vec<u8> = Vec::new();
    v.push(100u8);
    v.push(105u8);
    v.push(114u8);
    v.push(115u8);
    proof {
        assert(v@ =~= key_dirs());
    }
    v
}

pub fn key_frames_vec() -> (r: Vec<u8>)
    ensures
        r@ == key_frames(),
{
    let mut v: Vec<u8> = Vec::new();
    v.push(102u8);
    v.push(114u8);
    v.push(97u8);
    v.push(109u8);
    v.push(101u8);
    v.push(115u8);
    proof {
        assert(v@ =~= key_frames());
    }
    v
}

pub fn key_delay_vec() -> (r: Vec<u8>)
    ensures
        r@ == key_delay(),
{
    let mut v: Vec<u8> = Vec::new();
    v.push(100u8);
    v.push(101u8);
    v.push(108u8);
    v.push(97u8);
    v.push(121u8);
    proof {
        assert(v@ =~= key_delay());
    }
    v
}

pub fn key_loop_vec() -> (r: Vec<u8>)
    ensures
        r@ == key_loop(),
{
    let mut v: Vec<u8> = Vec::new();
    v.push(108u8);
    v.push(111u8);
    v.push(111u8);
    v.push(112u8);
    proof {
        assert(v@ =~= key_loop());
    }
    v
}

pub fn key_rewind_vec() -> (r: Vec<u8>)
    ensures
        r@ == key_rewind(),
{
    let mut v: Vec<u8> = Vec::new();
    v.push(114u8);
    v.push(101u8);
    v.push(119u8);
    v.push(105u8);
    v.push(110u8);
    v.push(100u8);
    proof {
        assert(v@ =~= key_rewind());
    }
    v
}

pub fn key_movement_vec() -> (r: Vec<u8>)
    ensures
        r@ == key_movement(),
{
    let mut v: Vec<u8> = Vec::new();
    v.push(109u8);
    v.push(111u8);
    v.push(118u8);
    v.push(101u8);
    v.push(109u8);
    v.push(101u8);
    v.push(110u8);
    v.push(116u8);
    proof {
        assert(v@ =~= key_movement());
    }
    v
}

pub fn key_hotspot_vec() -> (r: Vec<u8>)
    ensures
        r@ == key_hotspot(),
{
    let mut v: Vec<u8> = Vec::new();
    v.push(104u8);
    v.push(111u8);
    v.push(116u8);
    v.push(115u8);
    v.push(112u8);
    v.push(111u8);
    v.push(116u8);
    proof {
        assert(v@ =~= key_hotspot());
    }
    v
}
/// Drop a final carriage return, as `str::lines` does.
pub open spec fn strip_cr(s: Seq<u8>) -> Seq<u8> {
    if s.len() > 0 && s[s.len() - 1] == 13u8 {
        s.drop_last()
    } else {
        s
    }
}

/// The lines of a block of text, split at `\n`, each stripped of a
/// final `\r`, the final line ending optional: `str::lines`.
pub open spec fn lines_of(s: Seq<u8>) -> Seq<Seq<u8>>
    decreases s.len(),
    via lines_of_decreases
{
    if s.len() == 0 {
        Seq::empty()
    } else {
        let i = find_byte(s, nl());
        if i == -1 {
            seq![strip_cr(s)]
        } else {
            seq![strip_cr(s.take(i))] + lines_of(s.skip(i + 1))
        }
    }
}

#[via_fn]
proof fn lines_of_decreases(s: Seq<u8>) {
    if s.len() > 0 {
        lemma_find_byte(s, nl());
    }
}

/// Strip every leading `"` as `str::trim_matches('"')` does.
pub open spec fn trim_quotes_start(s: Seq<u8>) -> Seq<u8>
    decreases s.len(),
{
    if s.len() > 0 && s[0] == 34u8 {
        trim_quotes_start(s.skip(1))
    } else {
        s
    }
}

pub open spec fn trim_quotes_end(s: Seq<u8>) -> Seq<u8>
    decreases s.len(),
{
    if s.len() > 0 && s[s.len() - 1] == 34u8 {
        trim_quotes_end(s.drop_last())
    } else {
        s
    }
}

/// `str::trim_matches('"')`: strip every boundary quote.
pub open spec fn trim_quotes(s: Seq<u8>) -> Seq<u8> {
    trim_quotes_end(trim_quotes_start(s))
}

/// The comma-separated pieces of a delay list, as `str::split(',')`
/// yields them; empty pieces included.
pub open spec fn split_commas(s: Seq<u8>) -> Seq<Seq<u8>>
    decreases s.len(),
    via split_commas_decreases
{
    let i = find_byte(s, 44u8);
    if i == -1 {
        seq![s]
    } else {
        seq![s.take(i)] + split_commas(s.skip(i + 1))
    }
}

#[via_fn]
proof fn split_commas_decreases(s: Seq<u8>) {
    lemma_find_byte(s, 44u8);
}

pub open spec fn all_float_tokens(ts: Seq<Seq<u8>>) -> bool {
    forall|i: int| 0 <= i < ts.len() ==> is_float_literal(#[trigger] ts[i])
}

/// The scalar fields of one state as the metadata block carries them.
pub struct StateMeta {
    pub name: Seq<u8>,
    pub dirs: u32,
    pub frame_count: u32,
    pub delays: Seq<Seq<u8>>,
    pub loop_: u32,
    pub rewind: bool,
    pub movement: bool,
    pub hotspots: Seq<Seq<u8>>,
}

/// What a parse has accumulated: the two dimensions and the states in
/// order of appearance.
pub struct MetaAcc {
    pub width: u32,
    pub height: u32,
    pub states: Seq<StateMeta>,
}

pub open spec fn state_meta_init(name: Seq<u8>) -> StateMeta {
    StateMeta {
        name,
        dirs: 1,
        frame_count: 0,
        delays: Seq::empty(),
        loop_: 0,
        rewind: false,
        movement: false,
        hotspots: Seq::empty(),
    }
}

/// The scalar projection of a `State`.
pub open spec fn meta_of(s: State) -> StateMeta {
    StateMeta {
        name: s.name@,
        dirs: s.dirs,
        frame_count: s.frame_count,
        delays: views(s.delays@),
        loop_: s.loop_,
        rewind: s.rewind,
        movement: s.movement,
        hotspots: views(s.hotspots@),
    }
}

pub open spec fn metas_of(ss: Seq<State>) -> Seq<StateMeta> {
    ss.map_values(|s: State| meta_of(s))
}

pub open spec fn upd_last(ss: Seq<StateMeta>, m: StateMeta) -> Seq<StateMeta> {
    ss.update(ss.len() - 1, m)
}

/// One `key = value` pair applied to the accumulator; exactly the
/// effect the original reader gives each recognized key, in the same
/// error order.
pub open spec fn apply_kv(acc: MetaAcc, key: Seq<u8>, value: Seq<u8>) -> Result<
    MetaAcc,
    DmiError,
> {
    if key == key_width() {
        if is_uint_literal(value) && uint_value(value) <= u32::MAX {
            Ok(MetaAcc { width: uint_value(value) as u32, height: acc.height, states: acc.states })
        } else {
            Err(DmiError::ParseInt)
        }
    } else if key == key_height() {
        if is_uint_literal(value) && uint_value(value) <= u32::MAX {
            Ok(MetaAcc { width: acc.width, height: uint_value(value) as u32, states: acc.states })
        } else {
            Err(DmiError::ParseInt)
        }
    } else if key == key_state() {
        Ok(
            MetaAcc {
                width: acc.width,
                height: acc.height,
                states: acc.states.push(state_meta_init(trim_quotes(value))),
            },
        )
    } else if key == key_dirs() {
        if acc.states.len() == 0 {
            Err(DmiError::OutOfOrderStateInfo)
        } else if is_uint_literal(value) && uint_value(value) <= u32::MAX {
            let m = acc.states.last();
            Ok(
                MetaAcc {
                    width: acc.width,
                    height: acc.height,
                    states: upd_last(acc.states, StateMeta { dirs: uint_value(value) as u32, ..m }),
                },
            )
        } else {
            Err(DmiError::ParseInt)
        }
    } else if key == key_frames() {
        if acc.states.len() == 0 {
            Err(DmiError::OutOfOrderStateInfo)
        } else if is_uint_literal(value) && uint_value(value) <= u32::MAX {
            let m = acc.states.last();
            Ok(
                MetaAcc {
                    width: acc.width,
                    height: acc.height,
                    states: upd_last(
                        acc.states,
                        StateMeta { frame_count: uint_value(value) as u32, ..m },
                    ),
                },
            )
        } else {
            Err(DmiError::ParseInt)
        }
    } else if key == key_delay() {
        if acc.states.len() == 0 {
            Err(DmiError::OutOfOrderStateInfo)
        } else if all_float_tokens(split_commas(value)) {
            let m = acc.states.last();
            Ok(
                MetaAcc {
                    width: acc.width,
                    height: acc.height,
                    states: upd_last(acc.states, StateMeta { delays: split_commas(value), ..m }),
                },
            )
        } else {
            Err(DmiError::ParseFloat)
        }
    } else if key == key_loop() {
        if acc.states.len() == 0 {
            Err(DmiError::OutOfOrderStateInfo)
        } else if is_uint_literal(value) && uint_value(value) <= u32::MAX {
            let m = acc.states.last();
            Ok(
                MetaAcc {
                    width: acc.width,
                    height: acc.height,
                    states: upd_last(
                        acc.states,
                        StateMeta { loop_: uint_value(value) as u32, ..m },
                    ),
                },
            )
        } else {
            Err(DmiError::ParseInt)
        }
    } else if key == key_rewind() {
        if acc.states.len() == 0 {
            Err(DmiError::OutOfOrderStateInfo)
        } else {
            let m = acc.states.last();
            Ok(
                MetaAcc {
                    width: acc.width,
                    height: acc.height,
                    states: upd_last(
                        acc.states,
                        StateMeta { rewind: value == seq![49u8], ..m },
                    ),
                },
            )
        }
    } else if key == key_movement() {
        if acc.states.len() == 0 {
            Err(DmiError::OutOfOrderStateInfo)
        } else {
            let m = acc.states.last();
            Ok(
                MetaAcc {
                    width: acc.width,
                    height: acc.height,
                    states: upd_last(
                        acc.states,
                        StateMeta { movement: value == seq![49u8], ..m },
                    ),
                },
            )
        }
    } else if key == key_hotspot() {
        if acc.states.len() == 0 {
            Err(DmiError::OutOfOrderStateInfo)
        } else {
            let m = acc.states.last();
            Ok(
                MetaAcc {
                    width: acc.width,
                    height: acc.height,
                    states: upd_last(
                        acc.states,
                        StateMeta { hotspots: m.hotspots.push(value), ..m },
                    ),
                },
            )
        }
    } else {
        Err(DmiError::UnknownMetadataKey)
    }
}

/// One line handled: trim, split at the first `" = "`, the value
/// running to the next `" = "` or the end.
pub open spec fn parse_line(acc: MetaAcc, line: Seq<u8>) -> Result<MetaAcc, DmiError> {
    let t = trim_spec(line);
    let i = find_sep(t);
    if i == -1 {
        Err(DmiError::MissingMetadataValue)
    } else {
        let key = t.take(i);
        let rest = t.skip(i + 3);
        let j = find_sep(rest);
        let value = if j == -1 {
            rest
        } else {
            rest.take(j)
        };
        apply_kv(acc, key, value)
    }
}

/// The body lines folded in order, stopping at the first line that is
/// exactly the footer; a missing footer ends the block as well.
pub open spec fn parse_lines(lines: Seq<Seq<u8>>, acc: MetaAcc) -> Result<MetaAcc, DmiError>
    decreases lines.len(),
{
    if lines.len() == 0 {
        Ok(acc)
    } else if lines[0] == lit_footer() {
        Ok(acc)
    } else {
        match parse_line(acc, lines[0]) {
            Err(e) => Err(e),
            Ok(a) => parse_lines(lines.skip(1), a),
        }
    }
}

/// The whole block: the header line must match exactly, the second
/// line must be exactly `version = 4.0`, and the body folds from the
/// caller's current dimensions.
pub open spec fn parse_meta(s: Seq<u8>, w0: u32, h0: u32) -> Result<MetaAcc, DmiError> {
    let lines = lines_of(s);
    if lines.len() == 0 {
        Err(DmiError::MissingMetadataHeader)
    } else if lines[0] != lit_header() {
        Err(DmiError::MissingMetadataHeader)
    } else if lines.len() == 1 {
        Err(DmiError::InvalidMetadataVersion)
    } else if lines[1] != lit_version() {
        Err(DmiError::InvalidMetadataVersion)
    } else {
        parse_lines(lines.skip(2), MetaAcc { width: w0, height: h0, states: Seq::empty() })
    }
}

/// One metadata line: optional leading tab, `key = value`, newline.
pub open spec fn meta_line(indent: bool, key: Seq<u8>, value: Seq<u8>) -> Seq<u8> {
    (if indent {
        seq![9u8]
    } else {
        Seq::<u8>::empty()
    }) + key + seq![32u8, 61u8, 32u8] + value + seq![10u8]
}

pub open spec fn join_commas(ts: Seq<Seq<u8>>) -> Seq<u8>
    decreases ts.len(),
{
    if ts.len() == 0 {
        Seq::empty()
    } else if ts.len() == 1 {
        ts[0]
    } else {
        ts[0] + seq![44u8] + join_commas(ts.skip(1))
    }
}

pub open spec fn gen_hotspots(hs: Seq<Seq<u8>>) -> Seq<u8>
    decreases hs.len(),
{
    if hs.len() == 0 {
        Seq::empty()
    } else {
        meta_line(true, key_hotspot(), hs[0]) + gen_hotspots(hs.skip(1))
    }
}

/// The block a single state contributes: `state`, `dirs` and `frames`
/// always; `delay`, `loop`, `rewind`, `movement` only when set; one
/// `hotspot` line per entry.
pub open spec fn gen_state(s: State) -> Seq<u8> {
    meta_line(false, key_state(), seq![34u8] + s.name@ + seq![34u8]) + meta_line(
        true,
        key_dirs(),
        dec_digits(s.dirs as int),
    ) + meta_line(true, key_frames(), dec_digits(s.frame_count as int)) + (if s.delays@.len()
        > 0 {
        meta_line(true, key_delay(), join_commas(views(s.delays@)))
    } else {
        Seq::<u8>::empty()
    }) + (if s.loop_ > 0 {
        meta_line(true, key_loop(), dec_digits(s.loop_ as int))
    } else {
        Seq::<u8>::empty()
    }) + (if s.rewind {
        meta_line(true, key_rewind(), seq![49u8])
    } else {
        Seq::<u8>::empty()
    }) + (if s.movement {
        meta_line(true, key_movement(), seq![49u8])
    } else {
        Seq::<u8>::empty()
    }) + gen_hotspots(views(s.hotspots@))
}

pub open spec fn gen_states(ss: Seq<State>) -> Seq<u8>
    decreases ss.len(),
{
    if ss.len() == 0 {
        Seq::empty()
    } else {
        gen_state(ss[0]) + gen_states(ss.skip(1))
    }
}

/// The exact text `get_metadata` produces.
pub open spec fn gen_meta(d: Dmi) -> Seq<u8> {
    lit_header() + seq![10u8] + lit_version() + seq![10u8] + meta_line(
        true,
        key_width(),
        dec_digits(d.width as int),
    ) + meta_line(true, key_height(), dec_digits(d.height as int)) + gen_states(d.states@)
        + lit_footer() + seq![10u8]
}


proof fn lemma_tq_start_skip(s: Seq<u8>, i: int)
    requires
        0 <= i <= s.len(),
        forall|j: int| 0 <= j < i ==> s[j] == 34u8,
        i < s.len() ==> s[i] != 34u8,
    ensures
        trim_quotes_start(s) == s.skip(i),
    decreases i,
{
    if i == 0 {
        assert(s.skip(0) =~= s);
    } else {
        lemma_tq_start_skip(s.skip(1), i - 1);
        assert(s.skip(1).skip(i - 1) =~= s.skip(i));
    }
}

proof fn lemma_tq_end_take(s: Seq<u8>, j: int)
    requires
        0 <= j <= s.len(),
        forall|k: int| j <= k < s.len() ==> s[k] == 34u8,
        j > 0 ==> s[j - 1] != 34u8,
    ensures
        trim_quotes_end(s) == s.take(j),
    decreases s.len() - j,
{
    if j == s.len() {
        assert(s.take(j) =~= s);
    } else {
        lemma_tq_end_take(s.drop_last(), j);
        assert(s.drop_last().take(j) =~= s.take(j));
    }
}

/// `str::trim_matches('"')`, copied out as an owned vector.
pub fn trim_quotes_bytes(s: &[u8]) -> (r: Vec<u8>)
    ensures
        r@ == trim_quotes(s@),
{
    let mut i: usize = 0;
    while i < s.len() && s[i] == 34u8
        invariant
            0 <= i <= s.len(),
            forall|j: int| 0 <= j < i ==> s@[j] == 34u8,
        decreases s.len() - i,
    {
        i = i + 1;
    }
    let mut j: usize = s.len();
    while j > i && s[j - 1] == 34u8
        invariant
            i <= j <= s.len(),
            forall|k: int| j <= k < s.len() ==> s@[k] == 34u8,
            forall|k: int| 0 <= k < i ==> s@[k] == 34u8,
            i < s.len() ==> s@[i as int] != 34u8,
        decreases j,
    {
        j = j - 1;
    }
    proof {
        lemma_tq_start_skip(s@, i as int);
        let t = s@.skip(i as int);
        if j == i {
            lemma_tq_end_take(t, 0);
        } else {
            lemma_tq_end_take(t, j - i);
        }
        assert(s@.subrange(i as int, j as int) =~= t.take(j - i));
    }
    copy_range(s, i, j)
}

/// Split a block into its lines, as `str::lines` does.
pub fn split_lines(s: &[u8]) -> (r: Vec<Vec<u8>>)
    ensures
        views(r@) == lines_of(s@),
{
    let mut r: Vec<Vec<u8>> = Vec::new();
    let mut pos: usize = 0;
    proof {
        assert(s@.skip(0) =~= s@);
        assert(views(r@) =~~= Seq::<Seq<u8>>::empty());
    }
    while pos < s.len()
        invariant
            0 <= pos <= s.len(),
            lines_of(s@) =~~= views(r@) + lines_of(s@.skip(pos as int)),
        decreases s.len() - pos,
    {
        let ghost rest = s@.skip(pos as int);
        let ghost r0 = r@;
        let sub: &[u8] = &s[pos..s.len()];
        proof {
            assert(sub@ =~= rest);
        }
        match find_byte_in(sub, 10u8) {
            Some(k) => {
                let end: usize = if k > 0 && s[pos + k - 1] == 13u8 {
                    pos + k - 1
                } else {
                    pos + k
                };
                proof {
                    lemma_find_byte(rest, 10u8);
                    assert(rest.take(k as int) =~= s@.subrange(pos as int, (pos + k) as int));
                    assert(strip_cr(rest.take(k as int)) =~= s@.subrange(
                        pos as int,
                        end as int,
                    ));
                    assert(rest.skip(k + 1) =~= s@.skip((pos + k + 1) as int));
                }
                let line = copy_range(s, pos, end);
                r.push(line);
                pos = pos + k + 1;
                proof {
                    assert(views(r@) =~~= views(r0).push(strip_cr(rest.take(k as int))));
                    assert(lines_of(s@) =~~= views(r@) + lines_of(s@.skip(pos as int)));
                }
            },
            None => {
                let end: usize = if s[s.len() - 1] == 13u8 {
                    s.len() - 1
                } else {
                    s.len()
                };
                proof {
                    assert(rest =~= s@.subrange(pos as int, s@.len() as int));
                    assert(strip_cr(rest) =~= s@.subrange(pos as int, end as int));
                }
                let line = copy_range(s, pos, end);
                r.push(line);
                pos = s.len();
                proof {
                    assert(views(r@) =~~= views(r0).push(strip_cr(rest)));
                    assert(lines_of(rest) =~~= seq![strip_cr(rest)]);
                    assert(s@.skip(pos as int) =~= Seq::<u8>::empty());
                    assert(lines_of(s@) =~~= views(r@) + lines_of(s@.skip(pos as int)));
                }
            },
        }
    }
    proof {
        assert(s@.skip(pos as int) =~= Seq::<u8>::empty());
        assert(views(r@) =~~= lines_of(s@));
    }
    r
}

/// Split a delay value at its commas, as `str::split(',')` does.
pub fn split_commas_bytes(s: &[u8]) -> (r: Vec<Vec<u8>>)
    ensures
        views(r@) == split_commas(s@),
{
    let mut r: Vec<Vec<u8>> = Vec::new();
    let mut pos: usize = 0;
    proof {
        assert(s@.skip(0) =~= s@);
        assert(views(r@) =~~= Seq::<Seq<u8>>::empty());
    }
    loop
        invariant_except_break
            0 <= pos <= s.len(),
            split_commas(s@) =~~= views(r@) + split_commas(s@.skip(pos as int)),
        ensures
            views(r@) =~~= split_commas(s@),
        decreases s.len() - pos,
    {
        let ghost rest = s@.skip(pos as int);
        let ghost r0 = r@;
        let sub: &[u8] = &s[pos..s.len()];
        proof {
            assert(sub@ =~= rest);
        }
        match find_byte_in(sub, 44u8) {
            Some(k) => {
                proof {
                    lemma_find_byte(rest, 44u8);
                    assert(rest.take(k as int) =~= s@.subrange(pos as int, (pos + k) as int));
                    assert(rest.skip(k + 1) =~= s@.skip((pos + k + 1) as int));
                }
                let piece = copy_range(s, pos, pos + k);
                r.push(piece);
                pos = pos + k + 1;
                proof {
                    assert(views(r@) =~~= views(r0).push(rest.take(k as int)));
                    assert(split_commas(s@) =~~= views(r@) + split_commas(
                        s@.skip(pos as int),
                    ));
                }
            },
            None => {
                proof {
                    assert(rest =~= s@.subrange(pos as int, s@.len() as int));
                }
                let piece = copy_range(s, pos, s.len());
                r.push(piece);
                proof {
                    assert(views(r@) =~~= views(r0).push(rest));
                    assert(split_commas(rest) =~~= seq![rest]);
                    assert(views(r@) =~~= split_commas(s@));
                }
                break;
            },
        }
    }
    r
}

/// Append `s` to `out`.
pub fn push_bytes(out: &mut Vec<u8>, s: &[u8])
    ensures
        final(out)@ == old(out)@ + s@,
{
    let mut i: usize = 0;
    while i < s.len()
        invariant
            0 <= i <= s.len(),
            out@ =~= old(out)@ + s@.subrange(0, i as int),
        decreases s.len() - i,
    {
        out.push(s[i]);
        i = i + 1;
    }
    proof {
        assert(out@ =~= old(out)@ + s@);
    }
}

/// Append one metadata line.
fn emit_line(out: &mut Vec<u8>, indent: bool, key: &[u8], value: &[u8])
    ensures
        final(out)@ == old(out)@ + meta_line(indent, key@, value@),
{
    if indent {
        out.push(9u8);
    }
    push_bytes(out, key);
    out.push(32u8);
    out.push(61u8);
    out.push(32u8);
    push_bytes(out, value);
    out.push(10u8);
    proof {
        assert(out@ =~= old(out)@ + meta_line(indent, key@, value@));
    }
}

proof fn lemma_join_commas_snoc(ts: Seq<Seq<u8>>, t: Seq<u8>)
    ensures
        join_commas(ts.push(t)) == if ts.len() == 0 {
            t
        } else {
            join_commas(ts) + seq![44u8] + t
        },
    decreases ts.len(),
{
    if ts.len() == 0 {
        assert(ts.push(t)[0] =~= t);
        assert(join_commas(ts.push(t)) == t);
    } else {
        lemma_join_commas_snoc(ts.skip(1), t);
        assert(ts.push(t).skip(1) =~~= ts.skip(1).push(t));
        if ts.len() == 1 {
            assert(join_commas(ts) =~= ts[0]);
            assert(join_commas(ts.push(t)) =~= ts[0] + seq![44u8] + t);
        } else {
            assert(join_commas(ts.push(t)) =~= ts[0] + seq![44u8] + join_commas(
                ts.skip(1).push(t),
            ));
            assert(join_commas(ts) + seq![44u8] + t =~= ts[0] + seq![44u8] + (join_commas(
                ts.skip(1),
            ) + seq![44u8] + t));
        }
    }
}

proof fn lemma_gen_hotspots_snoc(hs: Seq<Seq<u8>>, h: Seq<u8>)
    ensures
        gen_hotspots(hs.push(h)) == gen_hotspots(hs) + meta_line(true, key_hotspot(), h),
    decreases hs.len(),
{
    if hs.len() == 0 {
        assert(hs.push(h)[0] =~= h);
        assert(hs.push(h).skip(1) =~~= Seq::<Seq<u8>>::empty());
        assert(gen_hotspots(Seq::<Seq<u8>>::empty()) =~= Seq::<u8>::empty());
        assert(gen_hotspots(hs.push(h).skip(1)) =~= Seq::<u8>::empty());
        assert(gen_hotspots(hs.push(h)) =~= meta_line(true, key_hotspot(), h));
        assert(gen_hotspots(hs) + meta_line(true, key_hotspot(), h) =~= meta_line(
            true,
            key_hotspot(),
            h,
        ));
    } else {
        lemma_gen_hotspots_snoc(hs.skip(1), h);
        assert(hs.push(h).skip(1) =~~= hs.skip(1).push(h));
        assert(hs.push(h)[0] =~= hs[0]);
        assert(gen_hotspots(hs) + meta_line(true, key_hotspot(), h) =~= meta_line(
            true,
            key_hotspot(),
            hs[0],
        ) + (gen_hotspots(hs.skip(1)) + meta_line(true, key_hotspot(), h)));
    }
}

proof fn lemma_gen_states_snoc(ss: Seq<State>, s: State)
    ensures
        gen_states(ss.push(s)) == gen_states(ss) + gen_state(s),
    decreases ss.len(),
{
    if ss.len() == 0 {
        assert(ss.push(s).skip(1) =~~= Seq::<State>::empty());
        assert(gen_states(Seq::<State>::empty()) =~= Seq::<u8>::empty());
        assert(gen_states(ss.push(s).skip(1)) =~= Seq::<u8>::empty());
        assert(gen_states(ss.push(s)) =~= gen_state(s));
        assert(gen_states(ss) + gen_state(s) =~= gen_state(s));
    } else {
        lemma_gen_states_snoc(ss.skip(1), s);
        assert(ss.push(s).skip(1) =~~= ss.skip(1).push(s));
        assert(gen_states(ss) + gen_state(s) =~= gen_state(ss[0]) + (gen_states(ss.skip(1))
            + gen_state(s)));
    }
}

/// Append everything one state contributes to the metadata block.
#[verifier::rlimit(100)]
fn emit_state(out: &mut Vec<u8>, s: &State)
    ensures
        final(out)@ == old(out)@ + gen_state(*s),
{
    let sk = key_state_vec();
    let mut qname: Vec<u8> = Vec::new();
    qname.push(34u8);
    push_bytes(&mut qname, s.name.as_slice());
    qname.push(34u8);
    proof {
        assert(qname@ =~= seq![34u8] + s.name@ + seq![34u8]);
    }
    emit_line(out, false, sk.as_slice(), qname.as_slice());
    let dk = key_dirs_vec();
    let dv = u32_to_dec(s.dirs);
    emit_line(out, true, dk.as_slice(), dv.as_slice());
    let fk = key_frames_vec();
    let fv = u32_to_dec(s.frame_count);
    emit_line(out, true, fk.as_slice(), fv.as_slice());
    if s.delays.len() > 0 {
        let mut dl: Vec<u8> = Vec::new();
        let mut k: usize = 0;
        while k < s.delays.len()
            invariant
                0 < s.delays@.len(),
                0 <= k <= s.delays@.len(),
                dl@ =~= join_commas(views(s.delays@).take(k as int)),
            decreases s.delays@.len() - k,
        {
            if k > 0 {
                dl.push(44u8);
            }
            push_bytes(&mut dl, s.delays[k].as_slice());
            proof {
                lemma_join_commas_snoc(views(s.delays@).take(k as int), s.delays@[k as int]@);
                assert(views(s.delays@).take(k + 1) =~~= views(s.delays@).take(
                    k as int,
                ).push(s.delays@[k as int]@));
                assert(dl@ =~= join_commas(views(s.delays@).take(k + 1)));
            }
            k = k + 1;
        }
        proof {
            assert(views(s.delays@).take(s.delays@.len() as int) =~~= views(s.delays@));
        }
        let dek = key_delay_vec();
        emit_line(out, true, dek.as_slice(), dl.as_slice());
    }
    if s.loop_ > 0 {
        let lk = key_loop_vec();
        let lv = u32_to_dec(s.loop_);
        emit_line(out, true, lk.as_slice(), lv.as_slice());
    }
    if s.rewind {
        let rk = key_rewind_vec();
        let mut ov: Vec<u8> = Vec::new();
        ov.push(49u8);
        proof {
            assert(ov@ =~= seq![49u8]);
        }
        emit_line(out, true, rk.as_slice(), ov.as_slice());
    }
    if s.movement {
        let mk = key_movement_vec();
        let mut ov: Vec<u8> = Vec::new();
        ov.push(49u8);
        proof {
            assert(ov@ =~= seq![49u8]);
        }
        emit_line(out, true, mk.as_slice(), ov.as_slice());
    }
    let hk = key_hotspot_vec();
    let ghost before_hs = out@;
    let mut k: usize = 0;
    while k < s.hotspots.len()
        invariant
            0 <= k <= s.hotspots@.len(),
            out@ =~= before_hs + gen_hotspots(views(s.hotspots@).take(k as int)),
            hk@ == key_hotspot(),
        decreases s.hotspots@.len() - k,
    {
        emit_line(out, true, hk.as_slice(), s.hotspots[k].as_slice());
        proof {
            lemma_gen_hotspots_snoc(views(s.hotspots@).take(k as int), s.hotspots@[k as int]@);
            assert(views(s.hotspots@).take(k + 1) =~~= views(s.hotspots@).take(k as int).push(
                s.hotspots@[k as int]@,
            ));
            assert(out@ =~= before_hs + gen_hotspots(views(s.hotspots@).take(k + 1)));
        }
        k = k + 1;
    }
    proof {
        assert(views(s.hotspots@).take(s.hotspots@.len() as int) =~~= views(s.hotspots@));
        assert(out@ =~= old(out)@ + gen_state(*s));
    }
}

impl Dmi {
    /// Generate the metadata block: the exact syntactic inverse of
    /// `set_metadata`, producing `gen_meta(self)`.
    pub fn get_metadata(&self) -> (r: Vec<u8>)
        ensures
            r@ == gen_meta(*self),
    {
        let mut out: Vec<u8> = Vec::new();
        let hv = lit_header_vec();
        push_bytes(&mut out, hv.as_slice());
        out.push(10u8);
        let vv = lit_version_vec();
        push_bytes(&mut out, vv.as_slice());
        out.push(10u8);
        let wk = key_width_vec();
        let wd = u32_to_dec(self.width);
        emit_line(&mut out, true, wk.as_slice(), wd.as_slice());
        let hk = key_height_vec();
        let hd = u32_to_dec(self.height);
        emit_line(&mut out, true, hk.as_slice(), hd.as_slice());
        let ghost preamble = out@;
        let mut i: usize = 0;
        while i < self.states.len()
            invariant
                0 <= i <= self.states@.len(),
                out@ =~= preamble + gen_states(self.states@.take(i as int)),
                preamble =~= lit_header() + seq![10u8] + lit_version() + seq![10u8]
                    + meta_line(true, key_width(), dec_digits(self.width as int)) + meta_line(
                    true,
                    key_height(),
                    dec_digits(self.height as int),
                ),
            decreases self.states@.len() - i,
        {
            emit_state(&mut out, &self.states[i]);
            proof {
                lemma_gen_states_snoc(self.states@.take(i as int), self.states@[i as int]);
                assert(self.states@.take(i + 1) =~~= self.states@.take(i as int).push(
                    self.states@[i as int],
                ));
                assert(out@ =~= preamble + gen_states(self.states@.take(i + 1)));
            }
            i = i + 1;
        }
        let fv = lit_footer_vec();
        push_bytes(&mut out, fv.as_slice());
        out.push(10u8);
        proof {
            assert(self.states@.take(self.states@.len() as int) =~~= self.states@);
            assert(out@ =~= gen_meta(*self));
        }
        out
    }
}


/// Which recognized key a line carries, if any.
enum MetaKey {
    Width,
    Height,
    StateKey,
    Dirs,
    Frames,
    Delay,
    LoopKey,
    Rewind,
    Movement,
    Hotspot,
    Unknown,
}

fn classify_key(k: &[u8]) -> (r: MetaKey)
    ensures
        r is Width <==> k@ == key_width(),
        r is Height <==> k@ == key_height(),
        r is StateKey <==> k@ == key_state(),
        r is Dirs <==> k@ == key_dirs(),
        r is Frames <==> k@ == key_frames(),
        r is Delay <==> k@ == key_delay(),
        r is LoopKey <==> k@ == key_loop(),
        r is Rewind <==> k@ == key_rewind(),
        r is Movement <==> k@ == key_movement(),
        r is Hotspot <==> k@ == key_hotspot(),
{
    let wv = key_width_vec();
    if bytes_eq(k, wv.as_slice()) {
        return MetaKey::Width;
    }
    let hv = key_height_vec();
    if bytes_eq(k, hv.as_slice()) {
        return MetaKey::Height;
    }
    let sv = key_state_vec();
    if bytes_eq(k, sv.as_slice()) {
        return MetaKey::StateKey;
    }
    let dv = key_dirs_vec();
    if bytes_eq(k, dv.as_slice()) {
        return MetaKey::Dirs;
    }
    let fv = key_frames_vec();
    if bytes_eq(k, fv.as_slice()) {
        return MetaKey::Frames;
    }
    let dlv = key_delay_vec();
    if bytes_eq(k, dlv.as_slice()) {
        return MetaKey::Delay;
    }
    let lv = key_loop_vec();
    if bytes_eq(k, lv.as_slice()) {
        return MetaKey::LoopKey;
    }
    let rv = key_rewind_vec();
    if bytes_eq(k, rv.as_slice()) {
        return MetaKey::Rewind;
    }
    let mv = key_movement_vec();
    if bytes_eq(k, mv.as_slice()) {
        return MetaKey::Movement;
    }
    let hsv = key_hotspot_vec();
    if bytes_eq(k, hsv.as_slice()) {
        return MetaKey::Hotspot;
    }
    MetaKey::Unknown
}

/// The accumulator the states appended since `base` represent.
pub open spec fn acc_of(d: Dmi, base: int) -> MetaAcc {
    MetaAcc { width: d.width, height: d.height, states: metas_of(d.states@.skip(base)) }
}

/// Apply one body line to the container, realizing `parse_line` on
/// the accumulator of the states appended since `base`.
#[verifier::rlimit(100)]
fn apply_line(d: &mut Dmi, base: usize, line: &[u8]) -> (r: Result<(), DmiError>)
    requires
        base <= old(d).states@.len(),
    ensures
        final(d).name@ == old(d).name@,
        final(d).width == old(d).width || r is Ok,
        base <= final(d).states@.len(),
        final(d).states@.take(base as int) == old(d).states@.take(base as int),
        forall|q: int|
    base <= q < final(d).states@.len() ==> final(d).states@[q].frames@.len() == (
    if q < old(d).states@.len() {
        old(d).states@[q].frames@.len()
    } else {
        0
    }),
        match parse_line(acc_of(*old(d), base as int), line@) {
    Ok(a) => r is Ok && acc_of(*final(d), base as int) == a,
    Err(e) => r == Err::<(), DmiError>(e) && *final(d) == *old(d),
        },
{
    let ghost acc0 = acc_of(*old(d), base as int);
    let t = trim_bytes(line);
    let ghost tg = trim_spec(line@);
    let ts = t.as_slice();
    let sep = find_sep_in(ts);
    match sep {
        None => {
            return Err(DmiError::MissingMetadataValue);
        },
        Some(p) => {
            proof {
                lemma_find_sep(tg);
                assert(sep_at(ts@, p as int));
                assert(p + 3 <= ts@.len());
            }
            let key: &[u8] = &ts[0..p];
            let rest: &[u8] = &ts[p + 3..ts.len()];
            let ghost keyg = tg.take(p as int);
            let ghost restg = tg.skip(p + 3);
            proof {
                assert(key@ =~= keyg);
                assert(rest@ =~= restg);
            }
            let j = find_sep_in(rest);
            let value: &[u8] = match j {
                None => rest,
                Some(q) => &rest[0..q],
            };
            let ghost valueg = if find_sep(restg) == -1 {
                restg
            } else {
                restg.take(find_sep(restg))
            };
            proof {
                assert(value@ =~= valueg);
            }
            let kind = classify_key(key);
            match kind {
                MetaKey::Width => {
                    match parse_u32(value) {
                        None => {
                            return Err(DmiError::ParseInt);
                        },
                        Some(v) => {
                            d.width = v;
                        },
                    }
                },
                MetaKey::Height => {
                    match parse_u32(value) {
                        None => {
                            return Err(DmiError::ParseInt);
                        },
                        Some(v) => {
                            d.height = v;
                        },
                    }
                },
                MetaKey::StateKey => {
                    let name = trim_quotes_bytes(value);
                    let st = State::new(name);
                    let ghost stg = st;
                    let ghost pres = d.states@;
                    d.states.push(st);
                    proof {
                        assert(d.states@ =~~= pres.push(stg));
                        assert(d.states@.skip(base as int) =~~= pres.skip(
                            base as int,
                        ).push(stg));
                        assert(views(stg.delays@) =~~= Seq::<Seq<u8>>::empty());
                        assert(views(stg.hotspots@) =~~= Seq::<Seq<u8>>::empty());
                        assert(meta_of(stg) == state_meta_init(trim_quotes(valueg)));
                        assert(metas_of(d.states@.skip(base as int)) =~~=
                            acc0.states.push(state_meta_init(trim_quotes(valueg))));
                        assert(d.states@.take(base as int) =~~= pres.take(
                            base as int,
                        ));
                    }
                },
                MetaKey::Dirs => {
                    if d.states.len() == base {
                        return Err(DmiError::OutOfOrderStateInfo);
                    }
                    match parse_u32(value) {
                        None => {
                            proof {
                                assert(acc0.states.len() > 0);
                            }
                            return Err(DmiError::ParseInt);
                        },
                        Some(v) => {
                            let ghost pres = d.states@;
                            let mut st = d.states.pop().unwrap();
                            let ghost stg = st;
                            st.dirs = v;
                            let ghost st2 = st;
                            d.states.push(st);
                            proof {
                                assert(d.states@ =~~= pres.update(
                                    pres.len() - 1,
                                    st2,
                                ));
                                lemma_upd_last(pres, d.states@, stg,
                                    st2, base as int, acc0,
                                    StateMeta { dirs: v, ..meta_of(stg) });
                            }
                        },
                    }
                },
                MetaKey::Frames => {
                    if d.states.len() == base {
                        return Err(DmiError::OutOfOrderStateInfo);
                    }
                    match parse_u32(value) {
                        None => {
                            proof {
                                assert(acc0.states.len() > 0);
                            }
                            return Err(DmiError::ParseInt);
                        },
                        Some(v) => {
                            let ghost pres = d.states@;
                            let mut st = d.states.pop().unwrap();
                            let ghost stg = st;
                            st.frame_count = v;
                            let ghost st2 = st;
                            d.states.push(st);
                            proof {
                                assert(d.states@ =~~= pres.update(
                                    pres.len() - 1,
                                    st2,
                                ));
                                lemma_upd_last(pres, d.states@, stg,
                                    st2, base as int, acc0,
                                    StateMeta { frame_count: v, ..meta_of(stg) });
                            }
                        },
                    }
                },
                MetaKey::Delay => {
                    if d.states.len() == base {
                        return Err(DmiError::OutOfOrderStateInfo);
                    }
                    let tokens = split_commas_bytes(value);
                    let mut ok = true;
                    let mut q: usize = 0;
                    while q < tokens.len()
                        invariant
                            0 <= q <= tokens@.len(),
                            ok ==> forall|z: int|
                                0 <= z < q ==> is_float_literal(
                                    #[trigger] views(tokens@)[z],
                                ),
                            !ok ==> !all_float_tokens(views(tokens@)),
                        decreases tokens@.len() - q,
                    {
                        if !is_float_token(tokens[q].as_slice()) {
                            proof {
                                assert(!is_float_literal(views(tokens@)[q as int]));
                            }
                            ok = false;
                        }
                        q = q + 1;
                    }
                    if !ok {
                        proof {
                            assert(acc0.states.len() > 0);
                        }
                        return Err(DmiError::ParseFloat);
                    }
                    let ghost pres = d.states@;
                    let mut st = d.states.pop().unwrap();
                    let ghost stg = st;
                    st.delays = tokens;
                    let ghost st2 = st;
                    d.states.push(st);
                    proof {
                        assert(all_float_tokens(split_commas(valueg)));
                        lemma_upd_last(pres, d.states@, stg, st2,
                            base as int, acc0,
                            StateMeta { delays: split_commas(valueg), ..meta_of(stg) });
                    }
                },
                MetaKey::LoopKey => {
                    if d.states.len() == base {
                        return Err(DmiError::OutOfOrderStateInfo);
                    }
                    match parse_u32(value) {
                        None => {
                            proof {
                                assert(acc0.states.len() > 0);
                            }
                            return Err(DmiError::ParseInt);
                        },
                        Some(v) => {
                            let ghost pres = d.states@;
                            let mut st = d.states.pop().unwrap();
                            let ghost stg = st;
                            st.loop_ = v;
                            let ghost st2 = st;
                            d.states.push(st);
                            proof {
                                assert(d.states@ =~~= pres.update(
                                    pres.len() - 1,
                                    st2,
                                ));
                                lemma_upd_last(pres, d.states@, stg,
                                    st2, base as int, acc0,
                                    StateMeta { loop_: v, ..meta_of(stg) });
                            }
                        },
                    }
                },
                MetaKey::Rewind => {
                    if d.states.len() == base {
                        return Err(DmiError::OutOfOrderStateInfo);
                    }
                    let flag = value.len() == 1 && value[0] == 49u8;
                    proof {
                        assert(flag == (valueg == seq![49u8])) by {
                            if value@.len() == 1 && value@[0] == 49u8 {
                                assert(valueg =~= seq![49u8]);
                            }
                        }
                    }
                    let ghost pres = d.states@;
                    let mut st = d.states.pop().unwrap();
                    let ghost stg = st;
                    st.rewind = flag;
                    let ghost st2 = st;
                    d.states.push(st);
                    proof {
                        assert(d.states@ =~~= pres.update(pres.len() - 1, st2));
                        lemma_upd_last(pres, d.states@, stg, st2,
                            base as int, acc0,
                            StateMeta { rewind: (valueg == seq![49u8]), ..meta_of(stg) });
                    }
                },
                MetaKey::Movement => {
                    if d.states.len() == base {
                        return Err(DmiError::OutOfOrderStateInfo);
                    }
                    let flag = value.len() == 1 && value[0] == 49u8;
                    proof {
                        assert(flag == (valueg == seq![49u8])) by {
                            if value@.len() == 1 && value@[0] == 49u8 {
                                assert(valueg =~= seq![49u8]);
                            }
                        }
                    }
                    let ghost pres = d.states@;
                    let mut st = d.states.pop().unwrap();
                    let ghost stg = st;
                    st.movement = flag;
                    let ghost st2 = st;
                    d.states.push(st);
                    proof {
                        assert(d.states@ =~~= pres.update(pres.len() - 1, st2));
                        lemma_upd_last(pres, d.states@, stg, st2,
                            base as int, acc0,
                            StateMeta {
                                movement: (valueg == seq![49u8]),
                                ..meta_of(stg)
                            });
                    }
                },
                MetaKey::Hotspot => {
                    if d.states.len() == base {
                        return Err(DmiError::OutOfOrderStateInfo);
                    }
                    let hs = copy_range(value, 0, value.len());
                    proof {
                        assert(hs@ =~= valueg);
                    }
                    let ghost pres = d.states@;
                    let mut st = d.states.pop().unwrap();
                    let ghost stg = st;
                    st.hotspots.push(hs);
                    let ghost st2 = st;
                    d.states.push(st);
                    proof {
                        assert(d.states@ =~~= pres.update(pres.len() - 1, st2));
                        assert(views(st2.hotspots@) =~~= views(stg.hotspots@).push(
                            valueg,
                        ));
                        lemma_upd_last(pres, d.states@, stg, st2,
                            base as int, acc0,
                            StateMeta {
                                hotspots: meta_of(stg).hotspots.push(valueg),
                                ..meta_of(stg)
                            });
                    }
                },
                MetaKey::Unknown => {
                    return Err(DmiError::UnknownMetadataKey);
                },
            }
            proof {
                assert(parse_line(acc0, line@) == Ok::<MetaAcc, DmiError>(acc_of(
                    *d,
                    base as int,
                )));
                assert(d.states@.take(base as int) =~~= old(d).states@.take(
                    base as int,
                ));
            }
        },
    }
    proof {
        assert(d.states@.take(base as int) =~~= old(d).states@.take(base as int));
    }
    Ok(())
}

impl Dmi {
    /// Read a metadata block, as the original reader does: overwrite
    /// the dimensions, append one state per `state` key, and fail with
    /// the exact error `parse_meta` gives on the first bad line.
    pub fn set_metadata(&mut self, metadata: &[u8]) -> (r: Result<(), DmiError>)
        ensures
            final(self).name@ == old(self).name@,
            match parse_meta(metadata@, old(self).width, old(self).height) {
                Ok(acc) => {
                    &&& r is Ok
                    &&& final(self).width == acc.width
                    &&& final(self).height == acc.height
                    &&& final(self).states@.len() == old(self).states@.len()
                        + acc.states.len()
                    &&& final(self).states@.take(old(self).states@.len() as int) == old(self).states@
                    &&& metas_of(final(self).states@.skip(old(self).states@.len() as int))
                        == acc.states
                    &&& forall|i: int|
                        old(self).states@.len() <= i < final(self).states@.len() ==> final(self).states@[i].frames@.len() == 0
                },
                Err(e) => r == Err::<(), DmiError>(e),
            },
    {
        let ghost w0 = self.width;
        let ghost h0 = self.height;
        let base: usize = self.states.len();
        let lines = split_lines(metadata);
        let ghost lv = lines_of(metadata@);
        if lines.len() == 0 {
            return Err(DmiError::MissingMetadataHeader);
        }
        let hv = lit_header_vec();
        if !bytes_eq(lines[0].as_slice(), hv.as_slice()) {
            proof {
                assert(views(lines@)[0] == lv[0]);
            }
            return Err(DmiError::MissingMetadataHeader);
        }
        if lines.len() == 1 {
            return Err(DmiError::InvalidMetadataVersion);
        }
        let vv = lit_version_vec();
        if !bytes_eq(lines[1].as_slice(), vv.as_slice()) {
            proof {
                assert(views(lines@)[0] == lv[0]);
                assert(views(lines@)[1] == lv[1]);
            }
            return Err(DmiError::InvalidMetadataVersion);
        }
        proof {
            assert(views(lines@)[0] == lv[0]);
            assert(views(lines@)[1] == lv[1]);
            assert(metas_of(self.states@.skip(base as int)) =~~= Seq::<StateMeta>::empty());
            assert(self.states@.take(base as int) =~~= self.states@);
        }
        let fv = lit_footer_vec();
        let mut i: usize = 2;
        while i < lines.len()
            invariant
                2 <= i <= lines@.len(),
                lv == lines_of(metadata@),
                views(lines@) == lv,
                lv.len() >= 2,
                lv[0] == lit_header(),
                lv[1] == lit_version(),
                fv@ == lit_footer(),
                base <= self.states@.len(),
                self.name@ == old(self).name@,
                self.states@.take(base as int) == old(self).states@,
                base == old(self).states@.len(),
                forall|q: int|
                    base <= q < self.states@.len() ==> self.states@[q].frames@.len() == 0,
                parse_meta(metadata@, w0, h0) == parse_lines(
                    lv.skip(i as int),
                    acc_of(*self, base as int),
                ),
                w0 == old(self).width,
                h0 == old(self).height,
            decreases lines@.len() - i,
        {
            let ghost acc0 = acc_of(*self, base as int);
            let ghost rest0 = lv.skip(i as int);
            proof {
                assert(rest0[0] == lv[i as int]);
                assert(rest0.skip(1) =~~= lv.skip(i + 1));
            }
            let line = &lines[i];
            if bytes_eq(line.as_slice(), fv.as_slice()) {
                proof {
                    assert(parse_lines(rest0, acc0) == Ok::<MetaAcc, DmiError>(acc0));
                    assert(self.states@.skip(base as int).len() == self.states@.len() - base);
                }
                return Ok(());
            }
            let ghost preself = *self;
            match apply_line(self, base, line.as_slice()) {
                Err(e) => {
                    proof {
                        assert(parse_line(acc0, rest0[0]) == Err::<MetaAcc, DmiError>(e));
                        assert(parse_lines(rest0, acc0) == Err::<MetaAcc, DmiError>(e));
                    }
                    return Err(e);
                },
                Ok(_u) => {
                    proof {
                        assert(parse_line(acc0, rest0[0]) == Ok::<MetaAcc, DmiError>(acc_of(
                            *self,
                            base as int,
                        )));
                        assert(parse_lines(rest0, acc0) == parse_lines(
                            rest0.skip(1),
                            acc_of(*self, base as int),
                        ));
                        assert(self.states@.take(base as int) =~~= preself.states@.take(
                            base as int,
                        ));
                    }
                },
            }
            i = i + 1;
        }
        proof {
            assert(lv.skip(i as int) =~~= Seq::<Seq<u8>>::empty());
            assert(parse_lines(lv.skip(i as int), acc_of(*self, base as int))
                == Ok::<MetaAcc, DmiError>(acc_of(*self, base as int)));
            assert(self.states@.skip(base as int).len() == self.states@.len() - base);
        }
        Ok(())
    }
}

/// Popping the last state, changing one scalar field and pushing it
/// back realizes exactly `upd_last` on the accumulator.
proof fn lemma_upd_last(
    olds: Seq<State>,
    news: Seq<State>,
    stg: State,
    st2: State,
    base: int,
    acc0: MetaAcc,
    m2: StateMeta,
)
    requires
        0 <= base < olds.len(),
        news =~~= olds.update(olds.len() - 1, st2),
        stg == olds.last(),
        acc0.states == metas_of(olds.skip(base)),
        meta_of(st2) == m2,
    ensures
        metas_of(news.skip(base)) == upd_last(acc0.states, m2),
        news.take(base) == olds.take(base),
        news.len() == olds.len(),
{
    assert(news.skip(base) =~~= olds.skip(base).update(olds.len() - 1 - base, st2));
    assert(metas_of(olds.skip(base).update(olds.len() - 1 - base, st2)) =~~= upd_last(
        metas_of(olds.skip(base)),
        m2,
    ));
    assert(news.take(base) =~~= olds.take(base));
}


} // verus!
