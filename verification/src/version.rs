//! Release-version comparison: dotted version strings compared
//! numerically, part by part, unparsable parts counting as zero.

use vstd::prelude::*;
use crate::text::{find_byte, is_uint_literal, parse_u32, uint_value, copy_range, find_byte_in};

verus! {

/// The dot-separated pieces of a version string.
pub open spec fn split_dots(s: Seq<u8>) -> Seq<Seq<u8>>
    decreases s.len(),
    via split_dots_decreases
{
    let i = find_byte(s, 46u8);
    if i == -1 {
        seq![s]
    } else {
        seq![s.take(i)] + split_dots(s.skip(i + 1))
    }
}

#[via_fn]
proof fn split_dots_decreases(s: Seq<u8>) {
    crate::text::lemma_find_byte(s, 46u8);
}

/// The numeric value of one part: its `u8` parse, or zero.
pub open spec fn part_value(t: Seq<u8>) -> int {
    if is_uint_literal(t) && uint_value(t) <= u8::MAX {
        uint_value(t)
    } else {
        0
    }
}

pub open spec fn part_values(ts: Seq<Seq<u8>>) -> Seq<int> {
    ts.map_values(|t: Seq<u8>| part_value(t))
}

/// Lexicographic order on integer sequences, as `Vec::cmp` orders
/// them: -1 below, 0 equal, 1 above.
pub open spec fn lex_cmp(a: Seq<int>, b: Seq<int>) -> int
    decreases a.len(),
{
    if a.len() == 0 && b.len() == 0 {
        0
    } else if a.len() == 0 {
        -1
    } else if b.len() == 0 {
        1
    } else if a[0] < b[0] {
        -1
    } else if a[0] > b[0] {
        1
    } else {
        lex_cmp(a.skip(1), b.skip(1))
    }
}

fn parse_part(t: &[u8]) -> (r: u8)
    ensures
        r == part_value(t@),
{
    match parse_u32(t) {
        Some(v) => {
            if v <= u8::MAX as u32 {
                v as u8
            } else {
                0
            }
        },
        None => 0,
    }
}

fn split_dots_bytes(s: &[u8]) -> (r: Vec<Vec<u8>>)
    ensures
        crate::types::views(r@) == split_dots(s@),
{
    let mut r: Vec<Vec<u8>> = Vec::new();
    let mut pos: usize = 0;
    proof {
        assert(s@.skip(0) =~= s@);
        assert(crate::types::views(r@) =~~= Seq::<Seq<u8>>::empty());
    }
    loop
        invariant_except_break
            0 <= pos <= s@.len(),
            split_dots(s@) =~~= crate::types::views(r@) + split_dots(s@.skip(pos as int)),
        ensures
            crate::types::views(r@) =~~= split_dots(s@),
        decreases s@.len() - pos,
    {
        let ghost rest = s@.skip(pos as int);
        let ghost r0 = r@;
        let sub: &[u8] = &s[pos..s.len()];
        proof {
            assert(sub@ =~= rest);
        }
        match find_byte_in(sub, 46u8) {
            Some(k) => {
                proof {
                    crate::text::lemma_find_byte(rest, 46u8);
                    assert(rest.take(k as int) =~= s@.subrange(pos as int, (pos + k) as int));
                    assert(rest.skip(k + 1) =~= s@.skip((pos + k + 1) as int));
                }
                let piece = copy_range(s, pos, pos + k);
                r.push(piece);
                pos = pos + k + 1;
                proof {
                    assert(crate::types::views(r@) =~~= crate::types::views(r0).push(
                        rest.take(k as int),
                    ));
                    assert(split_dots(s@) =~~= crate::types::views(r@) + split_dots(
                        s@.skip(pos as int),
                    ));
                }
            },
            None => {
                proof {
                    assert(rest =~= s@.subrange(pos as int, s@.len() as int));
                }
                let piece = copy_range(s, pos, s.len());
                r.push(piece);
                proof {
                    assert(crate::types::views(r@) =~~= crate::types::views(r0).push(rest));
                    assert(split_dots(rest) =~~= seq![rest]);
                    assert(crate::types::views(r@) =~~= split_dots(s@));
                }
                break;
            },
        }
    }
    r
}

/// Compare two dotted version strings: negative, zero or positive as
/// the first is below, equal to or above the second.
pub fn compare_versions(v1: &[u8], v2: &[u8]) -> (r: i8)
    ensures
        r == lex_cmp(part_values(split_dots(v1@)), part_values(split_dots(v2@))),
{
    let p1 = split_dots_bytes(v1);
    let p2 = split_dots_bytes(v2);
    let ghost a = part_values(split_dots(v1@));
    let ghost b = part_values(split_dots(v2@));
    let n1 = p1.len();
    let n2 = p2.len();
    let mut k: usize = 0;
    proof {
        assert(a.skip(0) =~~= a);
        assert(b.skip(0) =~~= b);
    }
    loop
        invariant_except_break
            0 <= k,
            k <= n1,
            k <= n2,
            n1 == a.len(),
            n2 == b.len(),
            a == part_values(crate::types::views(p1@)),
            b == part_values(crate::types::views(p2@)),
            crate::types::views(p1@) == split_dots(v1@),
            crate::types::views(p2@) == split_dots(v2@),
            lex_cmp(a, b) == lex_cmp(a.skip(k as int), b.skip(k as int)),
        ensures
            true,
        decreases n1 - k,
    {
        if k == n1 && k == n2 {
            proof {
                assert(a.skip(k as int).len() == 0 && b.skip(k as int).len() == 0);
            }
            return 0;
        }
        if k == n1 {
            proof {
                assert(a.skip(k as int).len() == 0 && b.skip(k as int).len() > 0);
            }
            return -1;
        }
        if k == n2 {
            proof {
                assert(b.skip(k as int).len() == 0 && a.skip(k as int).len() > 0);
            }
            return 1;
        }
        let x = parse_part(p1[k].as_slice());
        let y = parse_part(p2[k].as_slice());
        proof {
            assert(a.skip(k as int)[0] == a[k as int]);
            assert(b.skip(k as int)[0] == b[k as int]);
            assert(a[k as int] == part_value(crate::types::views(p1@)[k as int]));
            assert(b[k as int] == part_value(crate::types::views(p2@)[k as int]));
        }
        if x < y {
            return -1;
        }
        if x > y {
            return 1;
        }
        proof {
            assert(a.skip(k as int).skip(1) =~~= a.skip(k as int + 1));
            assert(b.skip(k as int).skip(1) =~~= b.skip(k as int + 1));
        }
        k = k + 1;
    }
}

/// Decide whether the running release is current: `latest` is the
/// published version when the check could fetch one; an unavailable
/// answer counts as up to date, as the caller treats it.
pub fn check_update(current: &[u8], latest: Option<&Vec<u8>>) -> (r: bool)
    ensures
        r == match latest {
            Some(l) => lex_cmp(
                part_values(split_dots(current@)),
                part_values(split_dots(l@)),
            ) >= 0,
            None => true,
        },
{
    match latest {
        Some(l) => compare_versions(current, l.as_slice()) >= 0,
        None => true,
    }
}

} // verus!
