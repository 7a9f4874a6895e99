//! The metadata grammar round trip: reading back a generated block
//! reproduces the container's dimensions and every per-state scalar
//! field (`lemma_parse_generate`).

use vstd::prelude::*;
use crate::meta::{
    acc_of, all_float_tokens, apply_kv, gen_hotspots, gen_meta, gen_state, gen_states,
    join_commas, key_delay, key_dirs, key_frames, key_height, key_hotspot, key_loop,
    key_movement, key_rewind, key_state, key_width, lines_of, lit_footer, lit_header,
    lit_version, meta_line, meta_of, metas_of, parse_line, parse_lines, parse_meta, split_commas,
    state_meta_init, strip_cr, trim_quotes, trim_quotes_end, trim_quotes_start, upd_last, MetaAcc,
    StateMeta,
};
use crate::text::{
    all_digits, dec_digits, find_byte, find_sep, is_digit, is_float_literal, is_infinity_word,
    is_inf_word, is_mantissa, is_nan_word, is_exp_part, is_sign, is_uint_literal, is_ws,
    lemma_dec_digits_value, lemma_find_byte_at, lemma_find_byte_none, lower, nl, sep_at,
    trim_spec, uint_value,
};
use crate::types::{token_wf, views, Dmi, DmiError, State};

verus! {

/// No line break and no carriage return anywhere.
pub open spec fn clean(t: Seq<u8>) -> bool {
    forall|i: int| 0 <= i < t.len() ==> t[i] != 10u8 && t[i] != 13u8
}

/// No `" = "` separator anywhere.
pub open spec fn sep_free(t: Seq<u8>) -> bool {
    forall|i: int| !sep_at(t, i)
}

/// A value that survives the line round trip: non-empty, clean, no
/// separator, no trailing whitespace.
pub open spec fn value_ok(v: Seq<u8>) -> bool {
    &&& v.len() > 0
    &&& clean(v)
    &&& sep_free(v)
    &&& !is_ws(v[v.len() - 1])
}

/// The flat bytes of a list of lines, each terminated by a newline.
pub open spec fn lines_bytes(ls: Seq<Seq<u8>>) -> Seq<u8>
    decreases ls.len(),
{
    if ls.len() == 0 {
        Seq::empty()
    } else {
        ls[0] + seq![10u8] + lines_bytes(ls.skip(1))
    }
}

/// Splitting one terminated clean line off the front.
proof fn lemma_lines_of_prepend(line: Seq<u8>, rest: Seq<u8>)
    requires
        clean(line),
    ensures
        lines_of(line + seq![10u8] + rest) == seq![line] + lines_of(rest),
{
    let cat = line + seq![10u8] + rest;
    assert(cat[line.len() as int] == 10u8);
    assert forall|j: int| 0 <= j < line.len() implies cat[j] != 10u8 by {
        assert(cat[j] == line[j]);
    }
    lemma_find_byte_at(cat, 10u8, line.len() as int);
    assert(cat.take(line.len() as int) =~= line);
    assert(strip_cr(line) =~= line);
    assert(cat.skip(line.len() as int + 1) =~= rest);
    assert(lines_of(cat) =~~= seq![line] + lines_of(rest));
}

/// A block built from clean lines splits back into exactly those lines.
proof fn lemma_lines_of_lines_bytes(ls: Seq<Seq<u8>>)
    requires
        forall|i: int| 0 <= i < ls.len() ==> clean(#[trigger] ls[i]),
    ensures
        lines_of(lines_bytes(ls)) == ls,
    decreases ls.len(),
{
    if ls.len() == 0 {
        assert(lines_of(lines_bytes(ls)) =~~= ls);
    } else {
        lemma_lines_of_lines_bytes(ls.skip(1));
        lemma_lines_of_prepend(ls[0], lines_bytes(ls.skip(1)));
        assert(lines_of(lines_bytes(ls)) =~~= ls);
    }
}

proof fn lemma_lines_bytes_concat(a: Seq<Seq<u8>>, b: Seq<Seq<u8>>)
    ensures
        lines_bytes(a + b) == lines_bytes(a) + lines_bytes(b),
    decreases a.len(),
{
    if a.len() == 0 {
        assert(a + b =~~= b);
        assert(lines_bytes(a) =~= Seq::<u8>::empty());
        assert(lines_bytes(a) + lines_bytes(b) =~= lines_bytes(b));
    } else {
        lemma_lines_bytes_concat(a.skip(1), b);
        assert((a + b).skip(1) =~~= a.skip(1) + b);
        assert((a + b)[0] =~= a[0]);
        assert(lines_bytes(a + b) =~= a[0] + seq![10u8] + (lines_bytes(a.skip(1))
            + lines_bytes(b)));
        assert(a[0] + seq![10u8] + (lines_bytes(a.skip(1)) + lines_bytes(b)) =~= (a[0]
            + seq![10u8] + lines_bytes(a.skip(1))) + lines_bytes(b));
    }
}

/// Folding a first group of lines that contains no footer and parses
/// cleanly, then the rest.
proof fn lemma_parse_lines_concat(l1: Seq<Seq<u8>>, l2: Seq<Seq<u8>>, acc: MetaAcc, a: MetaAcc)
    requires
        forall|i: int| 0 <= i < l1.len() ==> #[trigger] l1[i] != lit_footer(),
        parse_lines(l1, acc) == Ok::<MetaAcc, DmiError>(a),
    ensures
        parse_lines(l1 + l2, acc) == parse_lines(l2, a),
    decreases l1.len(),
{
    if l1.len() == 0 {
        assert(l1 + l2 =~~= l2);
    } else {
        assert(l1[0] != lit_footer());
        let step = parse_line(acc, l1[0]);
        match step {
            Err(e) => {
                assert(false);
            },
            Ok(a1) => {
                lemma_parse_lines_concat(l1.skip(1), l2, a1, a);
                assert((l1 + l2).skip(1) =~~= l1.skip(1) + l2);
                assert((l1 + l2)[0] =~= l1[0]);
            },
        }
    }
}

/// One generated line without its newline.
pub open spec fn line_body(indent: bool, key: Seq<u8>, value: Seq<u8>) -> Seq<u8> {
    (if indent {
        seq![9u8]
    } else {
        Seq::<u8>::empty()
    }) + key + seq![32u8, 61u8, 32u8] + value
}

/// A key literal as the grammar uses one: non-empty, no spaces, clean.
pub open spec fn key_ok(k: Seq<u8>) -> bool {
    &&& k.len() > 0
    &&& forall|i: int| 0 <= i < k.len() ==> k[i] != 32u8 && k[i] != 10u8 && k[i] != 13u8
        && !is_ws(k[i])
}

proof fn lemma_keys_ok()
    ensures
        key_ok(key_width()),
        key_ok(key_height()),
        key_ok(key_state()),
        key_ok(key_dirs()),
        key_ok(key_frames()),
        key_ok(key_delay()),
        key_ok(key_loop()),
        key_ok(key_rewind()),
        key_ok(key_movement()),
        key_ok(key_hotspot()),
{
}

/// Reading back one generated line applies exactly its key and value.
proof fn lemma_parse_gen_line(acc: MetaAcc, indent: bool, key: Seq<u8>, value: Seq<u8>)
    requires
        key_ok(key),
        value_ok(value),
    ensures
        parse_line(acc, line_body(indent, key, value)) == apply_kv(acc, key, value),
{
    let t0 = line_body(indent, key, value);
    let inner = key + seq![32u8, 61u8, 32u8] + value;
    let start: int = if indent {
        1
    } else {
        0
    };
    assert forall|j: int| 0 <= j < start implies is_ws(t0[j]) by {}
    assert(t0[start] == key[0]);
    crate::text::lemma_trim_start_skip(t0, start);
    assert(t0.skip(start) =~= inner);
    assert(inner[inner.len() - 1] == value[value.len() - 1]);
    crate::text::lemma_trim_end_take(inner, inner.len() as int);
    assert(trim_spec(t0) == inner);
    // the separator sits right after the key, and nowhere earlier
    assert(sep_at(inner, key.len() as int));
    assert forall|i: int| 0 <= i < key.len() implies !sep_at(inner, i) by {
        assert(inner[i] == key[i]);
    }
    crate::text::lemma_find_sep_at(inner, key.len() as int);
    assert(inner.take(key.len() as int) =~= key);
    assert(inner.skip(key.len() as int + 3) =~= value);
    // no separator inside the value
    crate::text::lemma_find_sep_none(value);
}


/// Decimal digit strings are fit to stand as values.
proof fn lemma_digits_value_ok(n: int)
    requires
        n >= 0,
    ensures
        value_ok(dec_digits(n)),
{
    lemma_dec_digits_value(n);
    let s = dec_digits(n);
    assert forall|i: int| 0 <= i < s.len() implies s[i] != 10u8 && s[i] != 13u8 && !is_ws(
        s[i],
    ) by {
        assert(is_digit(s[i]));
    }
    assert forall|i: int| !sep_at(s, i) by {
        if 0 <= i && i + 3 <= s.len() {
            assert(is_digit(s[i]));
        }
    }
}

/// A quoted name is a fit value, and stripping its quotes gives the
/// name back.
proof fn lemma_quoted_value_ok(name: Seq<u8>)
    requires
        token_wf(name),
        name.len() > 0 ==> name[0] != 34u8 && name[name.len() - 1] != 34u8,
    ensures
        value_ok(seq![34u8] + name + seq![34u8]),
        trim_quotes(seq![34u8] + name + seq![34u8]) == name,
{
    let q = seq![34u8] + name + seq![34u8];
    assert(q[0] == 34u8);
    assert(q[q.len() - 1] == 34u8);
    assert forall|i: int| 0 <= i < q.len() implies q[i] != 10u8 && q[i] != 13u8 by {
        if 1 <= i < q.len() - 1 {
            assert(q[i] == name[i - 1]);
        }
    }
    assert forall|i: int| !sep_at(q, i) by {
        if 0 <= i && i + 3 <= q.len() {
            if i == 0 {
                assert(q[0] == 34u8);
            } else if i + 3 == q.len() {
                assert(q[i + 2] == 34u8);
            } else {
                assert(q[i] == name[i - 1]);
                assert(q[i + 1] == name[i]);
                assert(q[i + 2] == name[i + 1]);
                assert(!sep_at(name, i - 1));
            }
        }
    }
    // stripping the quotes
    assert(q.skip(1) =~= name + seq![34u8]);
    assert(trim_quotes_start(q) == trim_quotes_start(name + seq![34u8]));
    if name.len() == 0 {
        assert(name + seq![34u8] =~= seq![34u8]);
        assert(seq![34u8].skip(1) =~= Seq::<u8>::empty());
        assert(trim_quotes_start(seq![34u8]) == trim_quotes_start(Seq::<u8>::empty()));
        assert(trim_quotes_start(Seq::<u8>::empty()) == Seq::<u8>::empty());
        assert(trim_quotes_end(Seq::<u8>::empty()) == Seq::<u8>::empty());
        assert(trim_quotes(q) =~= name);
    } else {
        let t = name + seq![34u8];
        assert(t[0] == name[0]);
        assert(name[0] != 34u8);
        assert(trim_quotes_start(t) == t);
        assert(t[t.len() - 1] == 34u8);
        assert(t.drop_last() =~= name);
        assert(trim_quotes_end(t) == trim_quotes_end(name));
        assert(name[name.len() - 1] != 34u8);
        assert(trim_quotes_end(name) == name);
        assert(trim_quotes(q) == name);
    }
}

/// Every byte of a float token is printable and is neither whitespace
/// nor a comma, and the token is non-empty.
proof fn lemma_float_token_bytes(t: Seq<u8>)
    requires
        is_float_literal(t),
    ensures
        t.len() > 0,
        forall|i: int| 0 <= i < t.len() ==> !is_ws(#[trigger] t[i]) && t[i] != 44u8,
{
    let u = if t.len() > 0 && is_sign(t[0]) {
        t.skip(1)
    } else {
        t
    };
    assert(u.len() > 0) by {
        if is_inf_word(u) || is_nan_word(u) || is_infinity_word(u) {
        } else {
            let e = crate::text::find_e(u);
            if e == -1 {
                assert(is_mantissa(u));
                let d = find_byte(u, 46u8);
                if d == -1 {
                    assert(u.len() >= 1);
                } else {
                    assert(u.len() >= 2);
                }
            } else {
                crate::text::lemma_find_e_props(u);
            }
        }
    }
    assert forall|i: int| 0 <= i < u.len() implies !is_ws(#[trigger] u[i]) && u[i]
        != 44u8 by {
        if is_inf_word(u) || is_nan_word(u) {
            assert(i == 0 || i == 1 || i == 2);
            assert(lower(u[i]) >= 97);
            assert(u[i] >= 65);
        } else if is_infinity_word(u) {
            assert(i == 0 || i == 1 || i == 2 || i == 3 || i == 4 || i == 5 || i == 6 || i
                == 7);
            assert(lower(u[i]) >= 97);
            assert(u[i] >= 65);
        } else {
            let e = crate::text::find_e(u);
            if e == -1 {
                lemma_mantissa_byte(u, i);
            } else {
                crate::text::lemma_find_e_props(u);
                if i < e {
                    lemma_mantissa_byte(u.take(e), i);
                    assert(u.take(e)[i] == u[i]);
                } else if i == e {
                    assert(u[e] == 101u8 || u[e] == 69u8);
                } else {
                    let v = u.skip(e + 1);
                    assert(is_exp_part(v));
                    assert(v[i - e - 1] == u[i]);
                    lemma_exp_byte(v, i - e - 1);
                }
            }
        }
    }
    assert forall|i: int| 0 <= i < t.len() implies !is_ws(#[trigger] t[i]) && t[i]
        != 44u8 by {
        if t.len() > 0 && is_sign(t[0]) {
            if i == 0 {
                assert(t[0] == 43u8 || t[0] == 45u8);
            } else {
                assert(u[i - 1] == t[i]);
            }
        } else {
            assert(u[i] == t[i]);
        }
    }
}

proof fn lemma_mantissa_byte(u: Seq<u8>, i: int)
    requires
        is_mantissa(u),
        0 <= i < u.len(),
    ensures
        !is_ws(u[i]),
        u[i] != 44u8,
{
    crate::text::lemma_find_byte(u, 46u8);
    let d = find_byte(u, 46u8);
    if d == -1 {
        assert(is_digit(u[i]));
    } else {
        if i < d {
            assert(u.take(d)[i] == u[i]);
            assert(is_digit(u[i]));
        } else if i == d {
            assert(u[i] == 46u8);
        } else {
            assert(u.skip(d + 1)[i - d - 1] == u[i]);
            assert(is_digit(u[i]));
        }
    }
}

proof fn lemma_exp_byte(v: Seq<u8>, i: int)
    requires
        is_exp_part(v),
        0 <= i < v.len(),
    ensures
        !is_ws(v[i]),
        v[i] != 44u8,
{
    if v.len() > 0 && is_sign(v[0]) {
        if i == 0 {
            assert(v[0] == 43u8 || v[0] == 45u8);
        } else {
            assert(v.skip(1)[i - 1] == v[i]);
            assert(is_digit(v[i]));
        }
    } else {
        assert(is_digit(v[i]));
    }
}

/// A joined delay list is a fit value, and splitting it restores the
/// token list.
proof fn lemma_join_split(ts: Seq<Seq<u8>>)
    requires
        ts.len() >= 1,
        all_float_tokens(ts),
    ensures
        join_commas(ts).len() > 0,
        forall|i: int| 0 <= i < join_commas(ts).len() ==> !is_ws(#[trigger] join_commas(ts)[i]),
        value_ok(join_commas(ts)),
        split_commas(join_commas(ts)) == ts,
    decreases ts.len(),
{
    let j = join_commas(ts);
    lemma_float_token_bytes(ts[0]);
    if ts.len() == 1 {
        assert(j == ts[0]);
        assert forall|i: int| !sep_at(j, i) by {
            if 0 <= i && i + 3 <= j.len() {
                assert(!is_ws(j[i]));
            }
        }
        assert forall|i: int| 0 <= i < j.len() implies j[i] != 10u8 && j[i] != 13u8 by {
            assert(!is_ws(j[i]));
        }
        crate::text::lemma_find_byte_none(j, 44u8);
        assert(split_commas(j) =~~= seq![j]);
        assert(seq![j] =~~= ts);
    } else {
        assert(all_float_tokens(ts.skip(1))) by {
            assert(forall|z: int| 0 <= z < ts.skip(1).len() ==> ts.skip(1)[z] == ts[z + 1]);
        }
        lemma_join_split(ts.skip(1));
        let t0 = ts[0];
        let rest = join_commas(ts.skip(1));
        assert(j == t0 + seq![44u8] + rest);
        assert(j[t0.len() as int] == 44u8);
        assert forall|z: int| 0 <= z < t0.len() implies j[z] != 44u8 by {
            assert(j[z] == t0[z]);
        }
        crate::text::lemma_find_byte_at(j, 44u8, t0.len() as int);
        assert(j.take(t0.len() as int) =~= t0);
        assert(j.skip(t0.len() as int + 1) =~= rest);
        assert(split_commas(j) =~~= seq![t0] + split_commas(rest));
        assert(seq![t0] + ts.skip(1) =~~= ts);
        // value_ok of the whole
        assert(j.len() > 0);
        assert forall|i: int| 0 <= i < j.len() implies !is_ws(#[trigger] j[i]) by {
            if i < t0.len() {
                assert(j[i] == t0[i]);
            } else if i == t0.len() {
                assert(j[i] == 44u8);
            } else {
                assert(j[i] == rest[i - t0.len() - 1]);
                assert(!is_ws(rest[i - t0.len() - 1]));
            }
        }
        assert forall|i: int| !sep_at(j, i) by {
            if 0 <= i && i + 3 <= j.len() {
                assert(!is_ws(j[i]));
            }
        }
        assert forall|i: int| 0 <= i < j.len() implies j[i] != 10u8 && j[i] != 13u8 by {
            assert(!is_ws(j[i]));
        }
    }
}

/// The key literals that share a length are pairwise distinct.
proof fn lemma_keys_distinct()
    ensures
        key_width() != key_state(),
        key_width() != key_delay(),
        key_state() != key_delay(),
        key_height() != key_frames(),
        key_height() != key_rewind(),
        key_frames() != key_rewind(),
        key_dirs() != key_loop(),
{
    assert(key_width()[0] != key_state()[0]);
    assert(key_width()[0] != key_delay()[0]);
    assert(key_state()[0] != key_delay()[0]);
    assert(key_height()[0] != key_frames()[0]);
    assert(key_height()[0] != key_rewind()[0]);
    assert(key_frames()[0] != key_rewind()[0]);
    assert(key_dirs()[0] != key_loop()[0]);
}



/// A quoted state name.
pub open spec fn quoted(name: Seq<u8>) -> Seq<u8> {
    seq![34u8] + name + seq![34u8]
}

/// The hotspot lines of a state.
pub open spec fn hotspot_lines(hs: Seq<Seq<u8>>) -> Seq<Seq<u8>> {
    hs.map_values(|h: Seq<u8>| line_body(true, key_hotspot(), h))
}

/// The line bodies one state contributes, in order.
pub open spec fn state_lines(s: State) -> Seq<Seq<u8>> {
    seq![
        line_body(false, key_state(), quoted(s.name@)),
        line_body(true, key_dirs(), dec_digits(s.dirs as int)),
        line_body(true, key_frames(), dec_digits(s.frame_count as int)),
    ] + (if s.delays@.len() > 0 {
        seq![line_body(true, key_delay(), join_commas(views(s.delays@)))]
    } else {
        Seq::<Seq<u8>>::empty()
    }) + (if s.loop_ > 0 {
        seq![line_body(true, key_loop(), dec_digits(s.loop_ as int))]
    } else {
        Seq::<Seq<u8>>::empty()
    }) + (if s.rewind {
        seq![line_body(true, key_rewind(), seq![49u8])]
    } else {
        Seq::<Seq<u8>>::empty()
    }) + (if s.movement {
        seq![line_body(true, key_movement(), seq![49u8])]
    } else {
        Seq::<Seq<u8>>::empty()
    }) + hotspot_lines(views(s.hotspots@))
}

pub open spec fn all_state_lines(ss: Seq<State>) -> Seq<Seq<u8>>
    decreases ss.len(),
{
    if ss.len() == 0 {
        Seq::empty()
    } else {
        state_lines(ss[0]) + all_state_lines(ss.skip(1))
    }
}

proof fn lemma_lines_bytes_single(x: Seq<u8>)
    ensures
        lines_bytes(seq![x]) == x + seq![10u8],
{
    assert(seq![x].skip(1) =~~= Seq::<Seq<u8>>::empty());
    assert(lines_bytes(seq![x].skip(1)) == lines_bytes(Seq::<Seq<u8>>::empty()));
    assert(lines_bytes(Seq::<Seq<u8>>::empty()) == Seq::<u8>::empty());
    assert(lines_bytes(seq![x]) =~= x + seq![10u8]);
}

proof fn lemma_line_body_clean(indent: bool, key: Seq<u8>, value: Seq<u8>)
    requires
        key_ok(key),
        clean(value),
    ensures
        clean(line_body(indent, key, value)),
        line_body(indent, key, value) != lit_footer(),
{
    let b = line_body(indent, key, value);
    let start: int = if indent {
        1
    } else {
        0
    };
    assert forall|i: int| 0 <= i < b.len() implies b[i] != 10u8 && b[i] != 13u8 by {
        if i < start {
            assert(b[i] == 9u8);
        } else if i < start + key.len() {
            assert(b[i] == key[i - start]);
        } else if i < start + key.len() + 3 {
            assert(b[i] == 32u8 || b[i] == 61u8);
        } else {
            assert(b[i] == value[i - start - key.len() - 3]);
        }
    }
    if indent {
        assert(b[0] == 9u8);
        assert(lit_footer()[0] == 35u8);
    } else {
        assert(b[0] == key[0]);
        assert(key[0] != 32u8 && key[0] != 10u8);
        // every key the grammar uses starts with a lowercase letter,
        // never `#`; the footer starts with `#`
        if b.len() == lit_footer().len() {
            if b[0] == 35u8 {
                assert(key[0] == 35u8);
            }
        }
    }
}

proof fn lemma_gen_hotspots_bytes(hs: Seq<Seq<u8>>)
    ensures
        gen_hotspots(hs) == lines_bytes(hotspot_lines(hs)),
    decreases hs.len(),
{
    if hs.len() == 0 {
        assert(hotspot_lines(hs) =~~= Seq::<Seq<u8>>::empty());
        assert(gen_hotspots(hs) =~= lines_bytes(hotspot_lines(hs)));
    } else {
        lemma_gen_hotspots_bytes(hs.skip(1));
        assert(hotspot_lines(hs).skip(1) =~~= hotspot_lines(hs.skip(1)));
        assert(hotspot_lines(hs)[0] == line_body(true, key_hotspot(), hs[0]));
        assert(meta_line(true, key_hotspot(), hs[0]) =~= line_body(true, key_hotspot(), hs[0])
            + seq![10u8]);
        assert(gen_hotspots(hs) =~= lines_bytes(hotspot_lines(hs)));
    }
}

/// The bytes of one state's block are exactly its lines, terminated;
/// and, for a well-formed state, every line is clean and none is the
/// footer.
proof fn lemma_state_lines_ok(s: State)
    requires
        s.meta_wf(),
    ensures
        gen_state(s) == lines_bytes(state_lines(s)),
        forall|i: int|
            0 <= i < state_lines(s).len() ==> clean(#[trigger] state_lines(s)[i])
                && state_lines(s)[i] != lit_footer(),
{
    let ls = state_lines(s);
    lemma_gen_hotspots_bytes(views(s.hotspots@));
    lemma_keys_ok();
    // cleanliness of each line
    lemma_quoted_value_ok(s.name@);
    lemma_digits_value_ok(s.dirs as int);
    lemma_digits_value_ok(s.frame_count as int);
    lemma_line_body_clean(false, key_state(), quoted(s.name@));
    lemma_line_body_clean(true, key_dirs(), dec_digits(s.dirs as int));
    lemma_line_body_clean(true, key_frames(), dec_digits(s.frame_count as int));
    if s.delays@.len() > 0 {
        assert(all_float_tokens(views(s.delays@))) by {
            assert(forall|i: int|
                0 <= i < s.delays@.len() ==> views(s.delays@)[i] == #[trigger] s.delays@[i]@);
        }
        lemma_join_split(views(s.delays@));
        lemma_line_body_clean(true, key_delay(), join_commas(views(s.delays@)));
    }
    if s.loop_ > 0 {
        lemma_digits_value_ok(s.loop_ as int);
        lemma_line_body_clean(true, key_loop(), dec_digits(s.loop_ as int));
    }
    lemma_line_body_clean(true, key_rewind(), seq![49u8]);
    lemma_line_body_clean(true, key_movement(), seq![49u8]);
    assert forall|i: int|
        0 <= i < views(s.hotspots@).len() implies clean(#[trigger] hotspot_lines(
        views(s.hotspots@),
    )[i]) && hotspot_lines(views(s.hotspots@))[i] != lit_footer() by {
        assert(views(s.hotspots@)[i] == s.hotspots@[i]@);
        assert(token_wf(s.hotspots@[i]@));
        lemma_line_body_clean(true, key_hotspot(), views(s.hotspots@)[i]);
    }
    assert forall|i: int|
        0 <= i < ls.len() implies clean(#[trigger] ls[i]) && ls[i] != lit_footer() by {}
    // the flat bytes
    let l1 = seq![
        line_body(false, key_state(), quoted(s.name@)),
        line_body(true, key_dirs(), dec_digits(s.dirs as int)),
        line_body(true, key_frames(), dec_digits(s.frame_count as int)),
    ];
    let l2 = if s.delays@.len() > 0 {
        seq![line_body(true, key_delay(), join_commas(views(s.delays@)))]
    } else {
        Seq::<Seq<u8>>::empty()
    };
    let l3 = if s.loop_ > 0 {
        seq![line_body(true, key_loop(), dec_digits(s.loop_ as int))]
    } else {
        Seq::<Seq<u8>>::empty()
    };
    let l4 = if s.rewind {
        seq![line_body(true, key_rewind(), seq![49u8])]
    } else {
        Seq::<Seq<u8>>::empty()
    };
    let l5 = if s.movement {
        seq![line_body(true, key_movement(), seq![49u8])]
    } else {
        Seq::<Seq<u8>>::empty()
    };
    let l6 = hotspot_lines(views(s.hotspots@));
    lemma_lines_bytes_concat(l1 + l2 + l3 + l4 + l5, l6);
    lemma_lines_bytes_concat(l1 + l2 + l3 + l4, l5);
    lemma_lines_bytes_concat(l1 + l2 + l3, l4);
    lemma_lines_bytes_concat(l1 + l2, l3);
    lemma_lines_bytes_concat(l1, l2);
    let la = line_body(false, key_state(), quoted(s.name@));
    let lb = line_body(true, key_dirs(), dec_digits(s.dirs as int));
    let lc = line_body(true, key_frames(), dec_digits(s.frame_count as int));
    assert(lines_bytes(l1) =~= la + seq![10u8] + (lb + seq![10u8]) + (lc + seq![10u8])) by {
        assert(l1 =~~= seq![la] + seq![lb] + seq![lc]);
        lemma_lines_bytes_concat(seq![la] + seq![lb], seq![lc]);
        lemma_lines_bytes_concat(seq![la], seq![lb]);
        lemma_lines_bytes_single(la);
        lemma_lines_bytes_single(lb);
        lemma_lines_bytes_single(lc);
    }
    if s.delays@.len() > 0 {
        lemma_lines_bytes_single(line_body(true, key_delay(), join_commas(views(s.delays@))));
    } else {
        assert(lines_bytes(l2) =~= Seq::<u8>::empty());
    }
    if s.loop_ > 0 {
        lemma_lines_bytes_single(line_body(true, key_loop(), dec_digits(s.loop_ as int)));
    } else {
        assert(lines_bytes(l3) =~= Seq::<u8>::empty());
    }
    if s.rewind {
        lemma_lines_bytes_single(line_body(true, key_rewind(), seq![49u8]));
    } else {
        assert(lines_bytes(l4) =~= Seq::<u8>::empty());
    }
    if s.movement {
        lemma_lines_bytes_single(line_body(true, key_movement(), seq![49u8]));
    } else {
        assert(lines_bytes(l5) =~= Seq::<u8>::empty());
    }
    assert(ls =~~= l1 + l2 + l3 + l4 + l5 + l6);
    assert(gen_state(s) =~= lines_bytes(ls));
}

/// One non-footer line folded off the front.
proof fn lemma_parse_step(l: Seq<u8>, rest: Seq<Seq<u8>>, acc: MetaAcc, a: MetaAcc)
    requires
        l != lit_footer(),
        parse_line(acc, l) == Ok::<MetaAcc, DmiError>(a),
    ensures
        parse_lines(seq![l] + rest, acc) == parse_lines(rest, a),
{
    let ls = seq![l] + rest;
    assert(ls[0] == l);
    assert(ls.skip(1) =~~= rest);
}

/// Replacing the freshly pushed last element.
proof fn lemma_upd_last_push(ss: Seq<StateMeta>, m: StateMeta, m2: StateMeta)
    ensures
        upd_last(ss.push(m), m2) == ss.push(m2),
{
    assert(upd_last(ss.push(m), m2) =~~= ss.push(m2));
}

/// Hotspot lines append their values, in order, to the last state.
proof fn lemma_parse_hotspot_lines(
    hs: Seq<Seq<u8>>,
    tail: Seq<Seq<u8>>,
    acc: MetaAcc,
)
    requires
        acc.states.len() > 0,
        forall|i: int|
            0 <= i < hs.len() ==> token_wf(#[trigger] hs[i]) && hs[i].len() > 0,
    ensures
        parse_lines(hotspot_lines(hs) + tail, acc) == parse_lines(
            tail,
            MetaAcc {
                width: acc.width,
                height: acc.height,
                states: upd_last(
                    acc.states,
                    StateMeta {
                        hotspots: acc.states.last().hotspots + hs,
                        ..acc.states.last()
                    },
                ),
            },
        ),
    decreases hs.len(),
{
    lemma_keys_ok();
    let m = acc.states.last();
    if hs.len() == 0 {
        assert(hotspot_lines(hs) + tail =~~= tail);
        assert(m.hotspots + hs =~~= m.hotspots);
        assert(StateMeta { hotspots: m.hotspots + hs, ..m } == m);
        assert(upd_last(acc.states, m) =~~= acc.states);
        assert(MetaAcc {
            width: acc.width,
            height: acc.height,
            states: upd_last(acc.states, StateMeta { hotspots: m.hotspots + hs, ..m }),
        } == acc);
    } else {
        let h0 = hs[0];
        let l0 = line_body(true, key_hotspot(), h0);
        assert(token_wf(h0) && h0.len() > 0);
        assert(value_ok(h0)) by {
            assert(forall|i: int| !sep_at(h0, i));
        }
        lemma_parse_gen_line(acc, true, key_hotspot(), h0);
        lemma_line_body_clean(true, key_hotspot(), h0);
        let acc1 = MetaAcc {
            width: acc.width,
            height: acc.height,
            states: upd_last(acc.states, StateMeta { hotspots: m.hotspots.push(h0), ..m }),
        };
        assert(apply_kv(acc, key_hotspot(), h0) == Ok::<MetaAcc, DmiError>(acc1));
        assert(hotspot_lines(hs) + tail =~~= seq![l0] + (hotspot_lines(hs.skip(1)) + tail))
            by {
            assert(forall|i: int|
                0 <= i < hs.skip(1).len() ==> #[trigger] hotspot_lines(hs.skip(1))[i]
                    == hotspot_lines(hs)[i + 1]);
        }
        lemma_parse_step(l0, hotspot_lines(hs.skip(1)) + tail, acc, acc1);
        assert(acc1.states.len() > 0);
        assert(forall|i: int|
            0 <= i < hs.skip(1).len() ==> token_wf(#[trigger] hs.skip(1)[i]) && hs.skip(
                1,
            )[i].len() > 0);
        lemma_parse_hotspot_lines(hs.skip(1), tail, acc1);
        let m1 = acc1.states.last();
        assert(m1 == StateMeta { hotspots: m.hotspots.push(h0), ..m });
        assert(upd_last(acc1.states, StateMeta { hotspots: m1.hotspots + hs.skip(1), ..m1 })
            =~~= upd_last(acc.states, StateMeta { hotspots: m.hotspots + hs, ..m })) by {
            assert(m1.hotspots + hs.skip(1) =~~= m.hotspots + hs);
        }
    }
}



/// Folding one state's lines pushes exactly that state's scalar record.
#[verifier::rlimit(100)]
proof fn lemma_parse_state_block(s: State, tail: Seq<Seq<u8>>, acc: MetaAcc)
    requires
        s.meta_wf(),
    ensures
        parse_lines(state_lines(s) + tail, acc) == parse_lines(
            tail,
            MetaAcc {
                width: acc.width,
                height: acc.height,
                states: acc.states.push(meta_of(s)),
            },
        ),
{
    lemma_keys_ok();
    lemma_keys_distinct();
    lemma_state_lines_ok(s);
    let la = line_body(false, key_state(), quoted(s.name@));
    let lb = line_body(true, key_dirs(), dec_digits(s.dirs as int));
    let lc = line_body(true, key_frames(), dec_digits(s.frame_count as int));
    let l2 = if s.delays@.len() > 0 {
        seq![line_body(true, key_delay(), join_commas(views(s.delays@)))]
    } else {
        Seq::<Seq<u8>>::empty()
    };
    let l3 = if s.loop_ > 0 {
        seq![line_body(true, key_loop(), dec_digits(s.loop_ as int))]
    } else {
        Seq::<Seq<u8>>::empty()
    };
    let l4 = if s.rewind {
        seq![line_body(true, key_rewind(), seq![49u8])]
    } else {
        Seq::<Seq<u8>>::empty()
    };
    let l5 = if s.movement {
        seq![line_body(true, key_movement(), seq![49u8])]
    } else {
        Seq::<Seq<u8>>::empty()
    };
    let l6 = hotspot_lines(views(s.hotspots@));
    let r6 = l6 + tail;
    let r5 = l5 + r6;
    let r4 = l4 + r5;
    let r3 = l3 + r4;
    let r2 = l2 + r3;
    let rc = seq![lc] + r2;
    let rb = seq![lb] + rc;
    assert(state_lines(s) + tail =~~= seq![la] + rb);
    // `state = "<name>"`
    lemma_quoted_value_ok(s.name@);
    lemma_parse_gen_line(acc, false, key_state(), quoted(s.name@));
    let m0 = state_meta_init(s.name@);
    let acc1 = MetaAcc { width: acc.width, height: acc.height, states: acc.states.push(m0) };
    assert(apply_kv(acc, key_state(), quoted(s.name@)) == Ok::<MetaAcc, DmiError>(acc1));
    lemma_parse_step(la, rb, acc, acc1);
    // `dirs = <n>`
    lemma_digits_value_ok(s.dirs as int);
    lemma_dec_digits_value(s.dirs as int);
    lemma_parse_gen_line(acc1, true, key_dirs(), dec_digits(s.dirs as int));
    let m1 = StateMeta { dirs: s.dirs, ..m0 };
    lemma_upd_last_push(acc.states, m0, m1);
    let acc2 = MetaAcc { width: acc.width, height: acc.height, states: acc.states.push(m1) };
    assert(apply_kv(acc1, key_dirs(), dec_digits(s.dirs as int)) == Ok::<MetaAcc, DmiError>(
        acc2,
    )) by {
        assert(acc1.states.last() == m0);
        assert(uint_value(dec_digits(s.dirs as int)) == s.dirs as int);
    }
    lemma_parse_step(lb, rc, acc1, acc2);
    // `frames = <n>`
    lemma_digits_value_ok(s.frame_count as int);
    lemma_dec_digits_value(s.frame_count as int);
    lemma_parse_gen_line(acc2, true, key_frames(), dec_digits(s.frame_count as int));
    let m2 = StateMeta { frame_count: s.frame_count, ..m1 };
    lemma_upd_last_push(acc.states, m1, m2);
    let acc3 = MetaAcc { width: acc.width, height: acc.height, states: acc.states.push(m2) };
    assert(apply_kv(acc2, key_frames(), dec_digits(s.frame_count as int))
        == Ok::<MetaAcc, DmiError>(acc3)) by {
        assert(acc2.states.last() == m1);
        assert(uint_value(dec_digits(s.frame_count as int)) == s.frame_count as int);
    }
    lemma_parse_step(lc, r2, acc2, acc3);
    // `delay = <t>,<t>,...`, only when any delays exist
    let m3 = StateMeta { delays: views(s.delays@), ..m2 };
    let acc4 = MetaAcc { width: acc.width, height: acc.height, states: acc.states.push(m3) };
    if s.delays@.len() > 0 {
        assert(all_float_tokens(views(s.delays@))) by {
            assert(forall|i: int|
                0 <= i < s.delays@.len() ==> views(s.delays@)[i] == #[trigger] s.delays@[i]@);
        }
        lemma_join_split(views(s.delays@));
        lemma_parse_gen_line(acc3, true, key_delay(), join_commas(views(s.delays@)));
        lemma_upd_last_push(acc.states, m2, m3);
        assert(apply_kv(acc3, key_delay(), join_commas(views(s.delays@)))
            == Ok::<MetaAcc, DmiError>(acc4)) by {
            assert(acc3.states.last() == m2);
            assert(split_commas(join_commas(views(s.delays@))) == views(s.delays@));
        }
        assert(r2 =~~= seq![line_body(true, key_delay(), join_commas(views(s.delays@)))]
            + r3);
        lemma_parse_step(line_body(true, key_delay(), join_commas(views(s.delays@))), r3,
            acc3, acc4);
    } else {
        assert(views(s.delays@) =~~= Seq::<Seq<u8>>::empty());
        assert(m3 == m2);
        assert(acc4 == acc3);
        assert(r2 =~~= r3);
    }
    // `loop = <n>`, only when non-zero
    let m4 = StateMeta { loop_: s.loop_, ..m3 };
    let acc5 = MetaAcc { width: acc.width, height: acc.height, states: acc.states.push(m4) };
    if s.loop_ > 0 {
        lemma_digits_value_ok(s.loop_ as int);
        lemma_dec_digits_value(s.loop_ as int);
        lemma_parse_gen_line(acc4, true, key_loop(), dec_digits(s.loop_ as int));
        lemma_upd_last_push(acc.states, m3, m4);
        assert(apply_kv(acc4, key_loop(), dec_digits(s.loop_ as int))
            == Ok::<MetaAcc, DmiError>(acc5)) by {
            assert(acc4.states.last() == m3);
            assert(uint_value(dec_digits(s.loop_ as int)) == s.loop_ as int);
        }
        assert(r3 =~~= seq![line_body(true, key_loop(), dec_digits(s.loop_ as int))] + r4);
        lemma_parse_step(line_body(true, key_loop(), dec_digits(s.loop_ as int)), r4, acc4,
            acc5);
    } else {
        assert(m4 == m3);
        assert(acc5 == acc4);
        assert(r3 =~~= r4);
    }
    // `rewind = 1`, only when set
    let one = seq![49u8];
    assert(value_ok(one)) by {
        assert(one[0] == 49u8);
        assert forall|i: int| !sep_at(one, i) by {}
    }
    let m5 = StateMeta { rewind: s.rewind, ..m4 };
    let acc6 = MetaAcc { width: acc.width, height: acc.height, states: acc.states.push(m5) };
    if s.rewind {
        lemma_parse_gen_line(acc5, true, key_rewind(), one);
        lemma_upd_last_push(acc.states, m4, m5);
        assert(apply_kv(acc5, key_rewind(), one) == Ok::<MetaAcc, DmiError>(acc6)) by {
            assert(acc5.states.last() == m4);
            assert(one == seq![49u8]);
        }
        assert(r4 =~~= seq![line_body(true, key_rewind(), one)] + r5);
        lemma_parse_step(line_body(true, key_rewind(), one), r5, acc5, acc6);
    } else {
        assert(m5 == m4);
        assert(acc6 == acc5);
        assert(r4 =~~= r5);
    }
    // `movement = 1`, only when set
    let m6 = StateMeta { movement: s.movement, ..m5 };
    let acc7 = MetaAcc { width: acc.width, height: acc.height, states: acc.states.push(m6) };
    if s.movement {
        lemma_parse_gen_line(acc6, true, key_movement(), one);
        lemma_upd_last_push(acc.states, m5, m6);
        assert(apply_kv(acc6, key_movement(), one) == Ok::<MetaAcc, DmiError>(acc7)) by {
            assert(acc6.states.last() == m5);
        }
        assert(r5 =~~= seq![line_body(true, key_movement(), one)] + r6);
        lemma_parse_step(line_body(true, key_movement(), one), r6, acc6, acc7);
    } else {
        assert(m6 == m5);
        assert(acc7 == acc6);
        assert(r5 =~~= r6);
    }
    // one `hotspot = <h>` line per entry
    assert(forall|i: int|
        0 <= i < views(s.hotspots@).len() ==> token_wf(#[trigger] views(s.hotspots@)[i])
            && views(s.hotspots@)[i].len() > 0) by {
        assert(forall|i: int|
            0 <= i < s.hotspots@.len() ==> views(s.hotspots@)[i] == #[trigger] s.hotspots@[
                i
            ]@);
    }
    assert(acc7.states.len() > 0);
    lemma_parse_hotspot_lines(views(s.hotspots@), tail, acc7);
    let m7 = StateMeta { hotspots: m6.hotspots + views(s.hotspots@), ..m6 };
    assert(acc7.states.last() == m6);
    lemma_upd_last_push(acc.states, m6, m7);
    assert(m7.hotspots =~~= views(s.hotspots@));
    assert(m7 == meta_of(s)) by {
        assert(StateMeta {
            hotspots: views(s.hotspots@),
            ..m6
        } == meta_of(s));
        assert(m7.hotspots == views(s.hotspots@));
    }
    assert(parse_lines(state_lines(s) + tail, acc) == parse_lines(
        tail,
        MetaAcc { width: acc.width, height: acc.height, states: acc.states.push(meta_of(s)) },
    ));
}

/// The whole state list folded in order.
proof fn lemma_parse_states(ss: Seq<State>, tail: Seq<Seq<u8>>, acc: MetaAcc)
    requires
        forall|i: int| 0 <= i < ss.len() ==> (#[trigger] ss[i]).meta_wf(),
    ensures
        parse_lines(all_state_lines(ss) + tail, acc) == parse_lines(
            tail,
            MetaAcc {
                width: acc.width,
                height: acc.height,
                states: acc.states + metas_of(ss),
            },
        ),
    decreases ss.len(),
{
    if ss.len() == 0 {
        assert(all_state_lines(ss) + tail =~~= tail);
        assert(acc.states + metas_of(ss) =~~= acc.states);
        assert(MetaAcc {
            width: acc.width,
            height: acc.height,
            states: acc.states + metas_of(ss),
        } == acc);
    } else {
        assert(all_state_lines(ss) + tail =~~= state_lines(ss[0]) + (all_state_lines(
            ss.skip(1),
        ) + tail));
        lemma_parse_state_block(ss[0], all_state_lines(ss.skip(1)) + tail, acc);
        let acc1 = MetaAcc {
            width: acc.width,
            height: acc.height,
            states: acc.states.push(meta_of(ss[0])),
        };
        assert(forall|i: int| 0 <= i < ss.skip(1).len() ==> (#[trigger] ss.skip(1)[i]).meta_wf());
        lemma_parse_states(ss.skip(1), tail, acc1);
        assert(acc1.states + metas_of(ss.skip(1)) =~~= acc.states + metas_of(ss)) by {
            assert(forall|i: int|
                0 <= i < ss.skip(1).len() ==> metas_of(ss.skip(1))[i] == #[trigger] metas_of(
                    ss,
                )[i + 1]);
        }
    }
}

/// Every line a well-formed state list generates is clean and is not
/// the footer.
proof fn lemma_all_state_lines_ok(ss: Seq<State>)
    requires
        forall|i: int| 0 <= i < ss.len() ==> (#[trigger] ss[i]).meta_wf(),
    ensures
        gen_states(ss) == lines_bytes(all_state_lines(ss)),
        forall|i: int|
            0 <= i < all_state_lines(ss).len() ==> clean(#[trigger] all_state_lines(ss)[i])
                && all_state_lines(ss)[i] != lit_footer(),
    decreases ss.len(),
{
    if ss.len() == 0 {
        assert(gen_states(ss) =~= lines_bytes(all_state_lines(ss)));
    } else {
        lemma_state_lines_ok(ss[0]);
        assert(forall|i: int| 0 <= i < ss.skip(1).len() ==> (#[trigger] ss.skip(1)[i]).meta_wf());
        lemma_all_state_lines_ok(ss.skip(1));
        lemma_lines_bytes_concat(state_lines(ss[0]), all_state_lines(ss.skip(1)));
        assert(gen_states(ss) =~= lines_bytes(all_state_lines(ss)));
        assert forall|i: int|
            0 <= i < all_state_lines(ss).len() implies clean(
            #[trigger] all_state_lines(ss)[i],
        ) && all_state_lines(ss)[i] != lit_footer() by {
            let k = state_lines(ss[0]).len() as int;
            if i < k {
                assert(all_state_lines(ss)[i] == state_lines(ss[0])[i]);
            } else {
                assert(all_state_lines(ss)[i] == all_state_lines(ss.skip(1))[i - k]);
            }
        }
    }
}

/// The metadata grammar round trip: parsing a generated block yields
/// exactly the container's `width`, `height` and per-state scalar
/// fields, whatever dimensions the reader started from.
pub proof fn lemma_parse_generate(d: Dmi, w0: u32, h0: u32)
    requires
        d.meta_wf(),
    ensures
        parse_meta(gen_meta(d), w0, h0) == Ok::<MetaAcc, DmiError>(
            MetaAcc { width: d.width, height: d.height, states: metas_of(d.states@) },
        ),
{
    lemma_keys_ok();
    lemma_keys_distinct();
    let lw = line_body(true, key_width(), dec_digits(d.width as int));
    let lh = line_body(true, key_height(), dec_digits(d.height as int));
    let all = seq![lit_header(), lit_version(), lw, lh] + all_state_lines(d.states@) + seq![
        lit_footer(),
    ];
    lemma_digits_value_ok(d.width as int);
    lemma_digits_value_ok(d.height as int);
    lemma_line_body_clean(true, key_width(), dec_digits(d.width as int));
    lemma_line_body_clean(true, key_height(), dec_digits(d.height as int));
    lemma_all_state_lines_ok(d.states@);
    // the generated bytes are exactly these lines
    assert(gen_meta(d) == lines_bytes(all)) by {
        lemma_lines_bytes_concat(
            seq![lit_header(), lit_version(), lw, lh] + all_state_lines(d.states@),
            seq![lit_footer()],
        );
        lemma_lines_bytes_concat(
            seq![lit_header(), lit_version(), lw, lh],
            all_state_lines(d.states@),
        );
        assert(seq![lit_header(), lit_version(), lw, lh] =~~= seq![lit_header()] + seq![
            lit_version(),
        ] + seq![lw] + seq![lh]);
        lemma_lines_bytes_concat(seq![lit_header()] + seq![lit_version()] + seq![lw], seq![lh]);
        lemma_lines_bytes_concat(seq![lit_header()] + seq![lit_version()], seq![lw]);
        lemma_lines_bytes_concat(seq![lit_header()], seq![lit_version()]);
        lemma_lines_bytes_single(lit_header());
        lemma_lines_bytes_single(lit_version());
        lemma_lines_bytes_single(lw);
        lemma_lines_bytes_single(lh);
        lemma_lines_bytes_single(lit_footer());
        assert(gen_meta(d) =~= lines_bytes(all));
    }
    // they split back into exactly these lines
    assert forall|i: int| 0 <= i < all.len() implies clean(#[trigger] all[i]) by {
        if i == 0 || i == 1 {
        } else if i == 2 || i == 3 {
        } else if i < all.len() - 1 {
            assert(all[i] == all_state_lines(d.states@)[i - 4]);
        }
    }
    lemma_lines_of_lines_bytes(all);
    assert(lines_of(gen_meta(d)) == all);
    assert(all[0] == lit_header());
    assert(all[1] == lit_version());
    assert(all.len() >= 2);
    // fold the body
    let acc0 = MetaAcc { width: w0, height: h0, states: Seq::empty() };
    assert(all.skip(2) =~~= seq![lw] + (seq![lh] + (all_state_lines(d.states@) + seq![
        lit_footer(),
    ])));
    lemma_parse_gen_line(acc0, true, key_width(), dec_digits(d.width as int));
    lemma_dec_digits_value(d.width as int);
    let acc1 = MetaAcc { width: d.width, height: h0, states: Seq::empty() };
    assert(apply_kv(acc0, key_width(), dec_digits(d.width as int)) == Ok::<
        MetaAcc,
        DmiError,
    >(acc1)) by {
        assert(uint_value(dec_digits(d.width as int)) == d.width as int);
    }
    lemma_parse_step(lw, seq![lh] + (all_state_lines(d.states@) + seq![lit_footer()]), acc0,
        acc1);
    lemma_parse_gen_line(acc1, true, key_height(), dec_digits(d.height as int));
    lemma_dec_digits_value(d.height as int);
    let acc2 = MetaAcc { width: d.width, height: d.height, states: Seq::empty() };
    assert(apply_kv(acc1, key_height(), dec_digits(d.height as int)) == Ok::<
        MetaAcc,
        DmiError,
    >(acc2)) by {
        assert(uint_value(dec_digits(d.height as int)) == d.height as int);
    }
    lemma_parse_step(lh, all_state_lines(d.states@) + seq![lit_footer()], acc1, acc2);
    lemma_parse_states(d.states@, seq![lit_footer()], acc2);
    let acc3 = MetaAcc {
        width: d.width,
        height: d.height,
        states: acc2.states + metas_of(d.states@),
    };
    assert(acc3.states =~~= metas_of(d.states@));
    assert(parse_lines(seq![lit_footer()], acc3) == Ok::<MetaAcc, DmiError>(acc3)) by {
        assert(seq![lit_footer()][0] == lit_footer());
    }
    assert(parse_meta(gen_meta(d), w0, h0) == Ok::<MetaAcc, DmiError>(
        MetaAcc { width: d.width, height: d.height, states: metas_of(d.states@) },
    ));
}


} // verus!
