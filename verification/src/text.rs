//! Byte-level text helpers shared by the metadata codec and the staging
//! store: decimal numbers, whitespace trimming, searching, and the grammar
//! of floating-point delay tokens.

use vstd::prelude::*;

verus! {

/// Newline byte.
pub open spec fn nl() -> u8 {
    10u8
}

pub open spec fn is_digit(b: u8) -> bool {
    48 <= b <= 57
}

pub open spec fn all_digits(s: Seq<u8>) -> bool {
    forall|i: int| 0 <= i < s.len() ==> is_digit(s[i])
}

/// Value of a string of decimal digits, most significant first.
pub open spec fn dec_value(s: Seq<u8>) -> int
    decreases s.len(),
{
    if s.len() == 0 {
        0
    } else {
        dec_value(s.drop_last()) * 10 + (s.last() - 48)
    }
}

/// The token shapes that `u32::from_str` accepts: an optional `+` sign
/// followed by one or more digits.
pub open spec fn is_uint_literal(s: Seq<u8>) -> bool {
    if s.len() > 0 && s[0] == '+' as u8 {
        s.len() >= 2 && all_digits(s.skip(1))
    } else {
        s.len() >= 1 && all_digits(s)
    }
}

pub open spec fn uint_value(s: Seq<u8>) -> int {
    if s.len() > 0 && s[0] == '+' as u8 {
        dec_value(s.skip(1))
    } else {
        dec_value(s)
    }
}

/// The canonical decimal digits of a non-negative integer.
pub open spec fn dec_digits(n: int) -> Seq<u8>
    decreases n,
{
    if n < 10 {
        seq![(n + 48) as u8]
    } else {
        dec_digits(n / 10).push((n % 10 + 48) as u8)
    }
}

pub proof fn lemma_dec_value_nonneg(s: Seq<u8>)
    requires
        all_digits(s),
    ensures
        dec_value(s) >= 0,
    decreases s.len(),
{
    if s.len() > 0 {
        assert(all_digits(s.drop_last()));
        lemma_dec_value_nonneg(s.drop_last());
    }
}

/// Any prefix of a digit string has a value no larger than the whole.
pub proof fn lemma_dec_value_prefix(s: Seq<u8>, i: int)
    requires
        all_digits(s),
        0 <= i <= s.len(),
    ensures
        dec_value(s) >= dec_value(s.take(i)),
    decreases s.len(),
{
    if i < s.len() {
        assert(all_digits(s.drop_last()));
        lemma_dec_value_prefix(s.drop_last(), i);
        lemma_dec_value_nonneg(s.drop_last());
        assert(s.take(i) =~= s.drop_last().take(i));
    } else {
        assert(s.take(i) =~= s);
    }
}

/// `dec_digits` produces a digit string whose value is the number itself.
pub proof fn lemma_dec_digits_value(n: int)
    requires
        n >= 0,
    ensures
        all_digits(dec_digits(n)),
        dec_digits(n).len() >= 1,
        dec_value(dec_digits(n)) == n,
        is_uint_literal(dec_digits(n)),
        uint_value(dec_digits(n)) == n,
    decreases n,
{
    if n < 10 {
        let s = dec_digits(n);
        assert(s =~= seq![(n + 48) as u8]);
        assert(s.drop_last() =~= Seq::<u8>::empty());
        assert((n + 48) as u8 == n + 48);
        assert(dec_value(s) == dec_value(s.drop_last()) * 10 + (s.last() - 48));
        assert(dec_value(s.drop_last()) == 0);
        assert(dec_value(s) == n);
        assert(is_digit(s[0]));
        assert(s[0] != '+' as u8);
    } else {
        lemma_dec_digits_value(n / 10);
        let s = dec_digits(n);
        assert(s.drop_last() =~= dec_digits(n / 10));
        assert(s.last() == (n % 10 + 48) as u8);
        assert((n % 10 + 48) as u8 == n % 10 + 48);
        assert(dec_value(s) == (n / 10) * 10 + n % 10);
        assert((n / 10) * 10 + n % 10 == n) by (nonlinear_arith);
        assert forall|i: int| 0 <= i < s.len() implies is_digit(s[i]) by {
            if i < s.len() - 1 {
                assert(s[i] == dec_digits(n / 10)[i]);
            }
        }
        assert(s[0] == dec_digits(n / 10)[0]);
        assert(s[0] != '+' as u8);
    }
}

/// Distinct numbers have distinct digit strings.
pub proof fn lemma_dec_digits_injective(a: int, b: int)
    requires
        a >= 0,
        b >= 0,
        a != b,
    ensures
        dec_digits(a) != dec_digits(b),
{
    lemma_dec_digits_value(a);
    lemma_dec_digits_value(b);
}

/// Parse an unsigned 32-bit integer exactly as `u32::from_str` does:
/// `None` exactly when the token is malformed or the value overflows.
pub fn parse_u32(s: &[u8]) -> (r: Option<u32>)
    ensures
        r is Some <==> (is_uint_literal(s@) && uint_value(s@) <= u32::MAX),
        r is Some ==> r->Some_0 == uint_value(s@),
{
    let start: usize = if s.len() > 0 && s[0] == '+' as u8 {
        1
    } else {
        0
    };
    if s.len() == start {
        return None;
    }
    let ghost digits = s@.skip(start as int);
    let mut acc: u32 = 0;
    let mut i: usize = start;
    while i < s.len()
        invariant
            start <= i <= s.len(),
            s.len() > start,
            digits == s@.skip(start as int),
            start == 0 || (start == 1 && s@[0] == '+' as u8),
            start == 0 ==> s@[0] != '+' as u8,
            all_digits(digits.take(i - start)),
            acc == dec_value(digits.take(i - start)),
        decreases s.len() - i,
    {
        let b = s[i];
        if b < 48 || b > 57 {
            assert(!is_digit(digits[i - start]));
            return None;
        }
        let d = (b - 48) as u32;
        let ghost pre = digits.take(i - start);
        let ghost cur = digits.take(i + 1 - start);
        assert(cur.drop_last() =~= pre);
        assert(cur.last() == b);
        let acc10 = match acc.checked_mul(10) {
            Some(v) => v,
            None => {
                proof {
                    lemma_dec_value_nonneg(pre);
                    assert(dec_value(cur) > u32::MAX);
                    if all_digits(digits) {
                        lemma_dec_value_prefix(digits, i + 1 - start);
                        assert(digits.take(digits.len() as int) =~= digits);
                        assert(uint_value(s@) == dec_value(digits)) by {
                            if start == 0 {
                                assert(s@.skip(0) =~= s@);
                            }
                        }
                    }
                }
                return None;
            },
        };
        let acc2 = match acc10.checked_add(d) {
            Some(v) => v,
            None => {
                proof {
                    assert(dec_value(cur) > u32::MAX);
                    if all_digits(digits) {
                        lemma_dec_value_prefix(digits, i + 1 - start);
                        assert(digits.take(digits.len() as int) =~= digits);
                        assert(uint_value(s@) == dec_value(digits)) by {
                            if start == 0 {
                                assert(s@.skip(0) =~= s@);
                            }
                        }
                    }
                }
                return None;
            },
        };
        acc = acc2;
        i = i + 1;
    }
    proof {
        assert(digits.take(digits.len() as int) =~= digits);
        if start == 0 {
            assert(s@.skip(0) =~= s@);
        }
        assert(is_uint_literal(s@));
        assert(uint_value(s@) == dec_value(digits));
    }
    Some(acc)
}

/// Render a `u32` in decimal, as `format!("{}")` would.
pub fn u32_to_dec(n: u32) -> (r: Vec<u8>)
    ensures
        r@ == dec_digits(n as int),
{
    let mut buf: Vec<u8> = Vec::new();
    let mut m: u32 = n;
    loop
        invariant_except_break
            m > 0 ==> dec_digits(n as int) =~= dec_digits(m as int) + buf@,
            m == 0 ==> dec_digits(n as int) =~= seq![48u8] + buf@ || (n == 0 && buf@.len()
                == 0),
            n > 0 ==> m > 0 || buf@.len() > 0,
        ensures
            dec_digits(n as int) =~= buf@,
        decreases m,
    {
        let d = (m % 10) as u8 + 48;
        let m2 = m / 10;
        proof {
            if m >= 10 {
                assert(dec_digits(m as int) =~= dec_digits(m as int / 10).push(d));
                assert(dec_digits(m as int / 10) + (seq![d] + buf@) =~= dec_digits(m as int)
                    + buf@);
            } else {
                assert(dec_digits(m as int) =~= seq![d]);
            }
        }
        buf.insert(0, d);
        m = m2;
        if m == 0 {
            proof {
                if n == 0 {
                    assert(buf@ =~= seq![48u8]);
                    assert(dec_digits(0) =~= seq![48u8]);
                }
            }
            break;
        }
    }
    buf
}

/// Index of the first occurrence of `b`, or `-1`.
pub open spec fn find_byte(s: Seq<u8>, b: u8) -> int
    decreases s.len(),
{
    if s.len() == 0 {
        -1
    } else if s[0] == b {
        0
    } else {
        let r = find_byte(s.skip(1), b);
        if r == -1 {
            -1
        } else {
            r + 1
        }
    }
}

pub proof fn lemma_find_byte(s: Seq<u8>, b: u8)
    ensures
        find_byte(s, b) == -1 ==> forall|i: int| 0 <= i < s.len() ==> s[i] != b,
        find_byte(s, b) != -1 ==> {
            let r = find_byte(s, b);
            0 <= r < s.len() && s[r] == b && forall|i: int| 0 <= i < r ==> s[i] != b
        },
    decreases s.len(),
{
    if s.len() > 0 && s[0] != b {
        lemma_find_byte(s.skip(1), b);
        assert forall|i: int| 1 <= i < s.len() implies s[i] == s.skip(1)[i - 1] by {}
    }
}

/// The converse direction: a witness pins `find_byte` down.
pub proof fn lemma_find_byte_at(s: Seq<u8>, b: u8, i: int)
    requires
        0 <= i < s.len(),
        s[i] == b,
        forall|j: int| 0 <= j < i ==> s[j] != b,
    ensures
        find_byte(s, b) == i,
    decreases s.len(),
{
    if i > 0 {
        lemma_find_byte_at(s.skip(1), b, i - 1);
    }
}

pub proof fn lemma_find_byte_none(s: Seq<u8>, b: u8)
    requires
        forall|j: int| 0 <= j < s.len() ==> s[j] != b,
    ensures
        find_byte(s, b) == -1,
    decreases s.len(),
{
    if s.len() > 0 {
        lemma_find_byte_none(s.skip(1), b);
    }
}

/// Executable scan matching `find_byte`; `None` stands for `-1`.
pub fn find_byte_in(s: &[u8], b: u8) -> (r: Option<usize>)
    ensures
        match r {
            Some(i) => i < s@.len() && s@[i as int] == b && find_byte(s@, b) == i,
            None => find_byte(s@, b) == -1,
        },
{
    let mut i: usize = 0;
    while i < s.len()
        invariant
            0 <= i <= s.len(),
            forall|j: int| 0 <= j < i ==> s@[j] != b,
        decreases s.len() - i,
    {
        if s[i] == b {
            proof {
                lemma_find_byte_at(s@, b, i as int);
            }
            return Some(i);
        }
        i = i + 1;
    }
    proof {
        lemma_find_byte_none(s@, b);
    }
    None
}

/// ASCII whitespace, as `char::is_whitespace` classifies bytes below 0x80.
pub open spec fn is_ws(b: u8) -> bool {
    b == 9 || b == 10 || b == 11 || b == 12 || b == 13 || b == 32
}

pub open spec fn trim_start_spec(s: Seq<u8>) -> Seq<u8>
    decreases s.len(),
{
    if s.len() > 0 && is_ws(s[0]) {
        trim_start_spec(s.skip(1))
    } else {
        s
    }
}

pub open spec fn trim_end_spec(s: Seq<u8>) -> Seq<u8>
    decreases s.len(),
{
    if s.len() > 0 && is_ws(s.last()) {
        trim_end_spec(s.drop_last())
    } else {
        s
    }
}

/// What `str::trim` leaves of an ASCII line.
pub open spec fn trim_spec(s: Seq<u8>) -> Seq<u8> {
    trim_end_spec(trim_start_spec(s))
}

pub proof fn lemma_trim_start_skip(s: Seq<u8>, i: int)
    requires
        0 <= i <= s.len(),
        forall|j: int| 0 <= j < i ==> is_ws(s[j]),
        i < s.len() ==> !is_ws(s[i]),
    ensures
        trim_start_spec(s) == s.skip(i),
    decreases i,
{
    if i == 0 {
        if s.len() > 0 {
            assert(!is_ws(s[0]));
        }
        assert(s.skip(0) =~= s);
    } else {
        lemma_trim_start_skip(s.skip(1), i - 1);
        assert(s.skip(1).skip(i - 1) =~= s.skip(i));
    }
}

pub proof fn lemma_trim_end_take(s: Seq<u8>, j: int)
    requires
        0 <= j <= s.len(),
        forall|k: int| j <= k < s.len() ==> is_ws(s[k]),
        j > 0 ==> !is_ws(s[j - 1]),
    ensures
        trim_end_spec(s) == s.take(j),
    decreases s.len() - j,
{
    if j == s.len() {
        if s.len() > 0 {
            assert(!is_ws(s.last()));
        }
        assert(s.take(j) =~= s);
    } else {
        lemma_trim_end_take(s.drop_last(), j);
        assert(s.drop_last().take(j) =~= s.take(j));
    }
}

fn ws_byte(b: u8) -> (r: bool)
    ensures
        r == is_ws(b),
{
    b == 9 || b == 10 || b == 11 || b == 12 || b == 13 || b == 32
}

/// `str::trim` on an ASCII-whitespace basis, copied out as an owned vector.
pub fn trim_bytes(s: &[u8]) -> (r: Vec<u8>)
    ensures
        r@ == trim_spec(s@),
{
    let mut i: usize = 0;
    while i < s.len() && ws_byte(s[i])
        invariant
            0 <= i <= s.len(),
            forall|j: int| 0 <= j < i ==> is_ws(s@[j]),
        decreases s.len() - i,
    {
        i = i + 1;
    }
    let mut j: usize = s.len();
    while j > i && ws_byte(s[j - 1])
        invariant
            i <= j <= s.len(),
            forall|k: int| j <= k < s.len() ==> is_ws(s@[k]),
            forall|k: int| 0 <= k < i ==> is_ws(s@[k]),
            i < s.len() ==> !is_ws(s@[i as int]),
        decreases j,
    {
        j = j - 1;
    }
    proof {
        lemma_trim_start_skip(s@, i as int);
        let t = s@.skip(i as int);
        if j == i {
            lemma_trim_end_take(t, 0);
        } else {
            lemma_trim_end_take(t, j - i);
        }
    }
    let mut r: Vec<u8> = Vec::new();
    let mut k: usize = i;
    while k < j
        invariant
            i <= k <= j <= s.len(),
            r@ =~= s@.subrange(i as int, k as int),
        decreases j - k,
    {
        r.push(s[k]);
        k = k + 1;
    }
    proof {
        assert(r@ =~= s@.skip(i as int).take(j - i));
    }
    r
}

/// Index of the first occurrence of the three-byte separator `" = "`,
/// or `-1`; this is how metadata lines split into key and value.
pub open spec fn find_sep(s: Seq<u8>) -> int
    decreases s.len(),
{
    if s.len() < 3 {
        -1
    } else if s[0] == 32 && s[1] == 61 && s[2] == 32 {
        0
    } else {
        let r = find_sep(s.skip(1));
        if r == -1 {
            -1
        } else {
            r + 1
        }
    }
}

pub open spec fn sep_at(s: Seq<u8>, i: int) -> bool {
    0 <= i && i + 3 <= s.len() && s[i] == 32 && s[i + 1] == 61 && s[i + 2] == 32
}

pub proof fn lemma_find_sep(s: Seq<u8>)
    ensures
        find_sep(s) == -1 ==> forall|i: int| !sep_at(s, i),
        find_sep(s) != -1 ==> {
            let r = find_sep(s);
            sep_at(s, r) && forall|i: int| 0 <= i < r ==> !sep_at(s, i)
        },
    decreases s.len(),
{
    if s.len() >= 3 && !(s[0] == 32 && s[1] == 61 && s[2] == 32) {
        lemma_find_sep(s.skip(1));
        assert forall|i: int| 1 <= i && i + 3 <= s.len() implies (sep_at(s, i) <==> sep_at(
            s.skip(1),
            i - 1,
        )) by {}
    } else if s.len() < 3 {
        assert forall|i: int| !sep_at(s, i) by {}
    }
}

pub proof fn lemma_find_sep_at(s: Seq<u8>, i: int)
    requires
        sep_at(s, i),
        forall|j: int| 0 <= j < i ==> !sep_at(s, j),
    ensures
        find_sep(s) == i,
    decreases s.len(),
{
    if i > 0 {
        assert(!sep_at(s, 0));
        assert(sep_at(s.skip(1), i - 1));
        assert forall|j: int| 0 <= j < i - 1 implies !sep_at(s.skip(1), j) by {
            assert(!sep_at(s, j + 1));
        }
        lemma_find_sep_at(s.skip(1), i - 1);
    }
}

pub proof fn lemma_find_sep_none(s: Seq<u8>)
    requires
        forall|j: int| !sep_at(s, j),
    ensures
        find_sep(s) == -1,
    decreases s.len(),
{
    if s.len() >= 3 {
        assert(!sep_at(s, 0));
        assert forall|j: int| !sep_at(s.skip(1), j) by {
            if 0 <= j {
                assert(!sep_at(s, j + 1));
            }
        }
        lemma_find_sep_none(s.skip(1));
    }
}

/// Executable scan matching `find_sep`.
pub fn find_sep_in(s: &[u8]) -> (r: Option<usize>)
    ensures
        match r {
            Some(i) => sep_at(s@, i as int) && find_sep(s@) == i,
            None => find_sep(s@) == -1,
        },
{
    if s.len() < 3 {
        proof {
            lemma_find_sep_none(s@);
        }
        return None;
    }
    let bound = s.len() - 3;
    let mut i: usize = 0;
    while i <= bound
        invariant
            0 <= i <= bound + 1,
            bound == s@.len() - 3,
            forall|j: int| 0 <= j < i ==> !sep_at(s@, j),
        decreases bound + 1 - i,
    {
        if s[i] == 32 && s[i + 1] == 61 && s[i + 2] == 32 {
            proof {
                lemma_find_sep_at(s@, i as int);
            }
            return Some(i);
        }
        i = i + 1;
    }
    proof {
        assert forall|j: int| !sep_at(s@, j) by {}
        lemma_find_sep_none(s@);
    }
    None
}

/// Byte-wise equality of two slices.
pub fn bytes_eq(a: &[u8], b: &[u8]) -> (r: bool)
    ensures
        r == (a@ == b@),
{
    if a.len() != b.len() {
        return false;
    }
    let mut i: usize = 0;
    while i < a.len()
        invariant
            0 <= i <= a.len(),
            a.len() == b.len(),
            forall|j: int| 0 <= j < i ==> a@[j] == b@[j],
        decreases a.len() - i,
    {
        if a[i] != b[i] {
            return false;
        }
        i = i + 1;
    }
    proof {
        assert(a@ =~= b@);
    }
    true
}

/// An owned copy of `s[from..to]`.
pub fn copy_range(s: &[u8], from: usize, to: usize) -> (r: Vec<u8>)
    requires
        from <= to <= s.len(),
    ensures
        r@ == s@.subrange(from as int, to as int),
{
    let mut r: Vec<u8> = Vec::new();
    let mut i: usize = from;
    while i < to
        invariant
            from <= i <= to <= s.len(),
            r@ =~= s@.subrange(from as int, i as int),
        decreases to - i,
    {
        r.push(s[i]);
        i = i + 1;
    }
    r
}

pub open spec fn is_sign(b: u8) -> bool {
    b == '+' as u8 || b == '-' as u8
}

pub open spec fn lower(b: u8) -> u8 {
    if 'A' as u8 <= b <= 'Z' as u8 {
        (b + 32) as u8
    } else {
        b
    }
}

pub open spec fn is_inf_word(t: Seq<u8>) -> bool {
    t.len() == 3 && lower(t[0]) == 'i' as u8 && lower(t[1]) == 'n' as u8 && lower(t[2])
        == 'f' as u8
}

pub open spec fn is_infinity_word(t: Seq<u8>) -> bool {
    t.len() == 8 && lower(t[0]) == 'i' as u8 && lower(t[1]) == 'n' as u8 && lower(t[2])
        == 'f' as u8 && lower(t[3]) == 'i' as u8 && lower(t[4]) == 'n' as u8 && lower(t[5])
        == 'i' as u8 && lower(t[6]) == 't' as u8 && lower(t[7]) == 'y' as u8
}

pub open spec fn is_nan_word(t: Seq<u8>) -> bool {
    t.len() == 3 && lower(t[0]) == 'n' as u8 && lower(t[1]) == 'a' as u8 && lower(t[2])
        == 'n' as u8
}

/// `Digit+ | Digit+ '.' Digit* | Digit* '.' Digit+`
pub open spec fn is_mantissa(t: Seq<u8>) -> bool {
    let i = find_byte(t, '.' as u8);
    if i == -1 {
        t.len() >= 1 && all_digits(t)
    } else {
        t.len() >= 2 && all_digits(t.take(i)) && all_digits(t.skip(i + 1))
    }
}

/// `Sign? Digit+`, the exponent that may follow a mantissa.
pub open spec fn is_exp_part(t: Seq<u8>) -> bool {
    let u = if t.len() > 0 && is_sign(t[0]) {
        t.skip(1)
    } else {
        t
    };
    u.len() >= 1 && all_digits(u)
}

/// The token grammar that `f32::from_str` accepts; delay lists hold
/// exactly such tokens.
pub open spec fn is_float_literal(s: Seq<u8>) -> bool {
    let t = if s.len() > 0 && is_sign(s[0]) {
        s.skip(1)
    } else {
        s
    };
    ||| is_inf_word(t)
    ||| is_infinity_word(t)
    ||| is_nan_word(t)
    ||| {
        let e = find_e(t);
        if e == -1 {
            is_mantissa(t)
        } else {
            is_mantissa(t.take(e)) && is_exp_part(t.skip(e + 1))
        }
    }
}

/// Index of the first `e` or `E`, or `-1`.
pub open spec fn find_e(s: Seq<u8>) -> int
    decreases s.len(),
{
    if s.len() == 0 {
        -1
    } else if s[0] == 'e' as u8 || s[0] == 'E' as u8 {
        0
    } else {
        let r = find_e(s.skip(1));
        if r == -1 {
            -1
        } else {
            r + 1
        }
    }
}

/// What a found or missing `e`/`E` position means.
pub proof fn lemma_find_e_props(s: Seq<u8>)
    ensures
        find_e(s) == -1 ==> forall|i: int|
            0 <= i < s.len() ==> s[i] != 'e' as u8 && s[i] != 'E' as u8,
        find_e(s) != -1 ==> {
            let r = find_e(s);
            0 <= r < s.len() && (s[r] == 'e' as u8 || s[r] == 'E' as u8) && forall|i: int|
                0 <= i < r ==> s[i] != 'e' as u8 && s[i] != 'E' as u8
        },
    decreases s.len(),
{
    if s.len() > 0 && s[0] != 'e' as u8 && s[0] != 'E' as u8 {
        lemma_find_e_props(s.skip(1));
        assert forall|i: int| 1 <= i < s.len() implies s[i] == s.skip(1)[i - 1] by {}
    }
}

proof fn lemma_find_e_at(s: Seq<u8>, i: int)
    requires
        0 <= i < s.len(),
        s[i] == 'e' as u8 || s[i] == 'E' as u8,
        forall|j: int| 0 <= j < i ==> s[j] != 'e' as u8 && s[j] != 'E' as u8,
    ensures
        find_e(s) == i,
    decreases s.len(),
{
    if i > 0 {
        lemma_find_e_at(s.skip(1), i - 1);
    }
}

proof fn lemma_find_e_none(s: Seq<u8>)
    requires
        forall|j: int| 0 <= j < s.len() ==> s[j] != 'e' as u8 && s[j] != 'E' as u8,
    ensures
        find_e(s) == -1,
    decreases s.len(),
{
    if s.len() > 0 {
        lemma_find_e_none(s.skip(1));
    }
}

fn find_e_in(s: &[u8]) -> (r: Option<usize>)
    ensures
        match r {
            Some(i) => i < s@.len() && find_e(s@) == i,
            None => find_e(s@) == -1,
        },
{
    let mut i: usize = 0;
    while i < s.len()
        invariant
            0 <= i <= s.len(),
            forall|j: int| 0 <= j < i ==> s@[j] != 'e' as u8 && s@[j] != 'E' as u8,
        decreases s.len() - i,
    {
        if s[i] == 'e' as u8 || s[i] == 'E' as u8 {
            proof {
                lemma_find_e_at(s@, i as int);
            }
            return Some(i);
        }
        i = i + 1;
    }
    proof {
        lemma_find_e_none(s@);
    }
    None
}

fn all_digits_in(s: &[u8], from: usize, to: usize) -> (r: bool)
    requires
        from <= to <= s.len(),
    ensures
        r == all_digits(s@.subrange(from as int, to as int)),
{
    let ghost part = s@.subrange(from as int, to as int);
    let mut i: usize = from;
    while i < to
        invariant
            from <= i <= to <= s.len(),
            part == s@.subrange(from as int, to as int),
            forall|j: int| 0 <= j < i - from ==> is_digit(part[j]),
        decreases to - i,
    {
        let b = s[i];
        if b < 48 || b > 57 {
            assert(!is_digit(part[i - from]));
            return false;
        }
        i = i + 1;
    }
    true
}

fn lower_byte(b: u8) -> (r: u8)
    ensures
        r == lower(b),
{
    if b >= 'A' as u8 && b <= 'Z' as u8 {
        b + 32
    } else {
        b
    }
}

fn is_keyword_token(t: &[u8]) -> (r: bool)
    ensures
        r == (is_inf_word(t@) || is_infinity_word(t@) || is_nan_word(t@)),
{
    if t.len() == 3 {
        let a = lower_byte(t[0]);
        let b = lower_byte(t[1]);
        let c = lower_byte(t[2]);
        (a == 'i' as u8 && b == 'n' as u8 && c == 'f' as u8) || (a == 'n' as u8 && b
            == 'a' as u8 && c == 'n' as u8)
    } else if t.len() == 8 {
        lower_byte(t[0]) == 'i' as u8 && lower_byte(t[1]) == 'n' as u8 && lower_byte(t[2])
            == 'f' as u8 && lower_byte(t[3]) == 'i' as u8 && lower_byte(t[4]) == 'n' as u8
            && lower_byte(t[5]) == 'i' as u8 && lower_byte(t[6]) == 't' as u8 && lower_byte(
            t[7],
        ) == 'y' as u8
    } else {
        false
    }
}

fn is_mantissa_in(s: &[u8], from: usize, to: usize) -> (r: bool)
    requires
        from <= to <= s.len(),
    ensures
        r == is_mantissa(s@.subrange(from as int, to as int)),
{
    let ghost t = s@.subrange(from as int, to as int);
    let mut dot: Option<usize> = None;
    let mut i: usize = from;
    while i < to
        invariant
            from <= i <= to <= s.len(),
            t == s@.subrange(from as int, to as int),
            match dot {
                Some(d) => from <= d < i && t[d - from] == '.' as u8 && forall|j: int|
                    0 <= j < d - from ==> t[j] != '.' as u8,
                None => forall|j: int| 0 <= j < i - from ==> t[j] != '.' as u8,
            },
        decreases to - i,
    {
        if s[i] == '.' as u8 && dot.is_none() {
            dot = Some(i);
        }
        i = i + 1;
    }
    match dot {
        None => {
            proof {
                lemma_find_byte_none(t, '.' as u8);
            }
            to - from >= 1 && all_digits_in(s, from, to)
        },
        Some(d) => {
            proof {
                lemma_find_byte_at(t, '.' as u8, d - from);
            }
            let head = all_digits_in(s, from, d);
            let tail = all_digits_in(s, d + 1, to);
            proof {
                assert(s@.subrange(from as int, d as int) =~= t.take(d - from));
                assert(s@.subrange(d + 1, to as int) =~= t.skip(d - from + 1));
            }
            to - from >= 2 && head && tail
        },
    }
}

fn is_exp_part_in(s: &[u8], from: usize, to: usize) -> (r: bool)
    requires
        from <= to <= s.len(),
    ensures
        r == is_exp_part(s@.subrange(from as int, to as int)),
{
    let ghost t = s@.subrange(from as int, to as int);
    let start: usize = if to > from && (s[from] == '+' as u8 || s[from] == '-' as u8) {
        from + 1
    } else {
        from
    };
    proof {
        if start > from {
            assert(s@.subrange(start as int, to as int) =~= t.skip(1));
        } else {
            assert(s@.subrange(start as int, to as int) =~= t);
        }
    }
    to - start >= 1 && all_digits_in(s, start, to)
}

/// Recognize exactly the tokens `f32::from_str` accepts.
pub fn is_float_token(s: &[u8]) -> (r: bool)
    ensures
        r == is_float_literal(s@),
{
    let start: usize = if s.len() > 0 && (s[0] == '+' as u8 || s[0] == '-' as u8) {
        1
    } else {
        0
    };
    let ghost t = s@.subrange(start as int, s@.len() as int);
    proof {
        if start == 1 {
            assert(t =~= s@.skip(1));
        } else {
            assert(t =~= s@);
        }
    }
    let sub: &[u8] = &s[start..s.len()];
    proof {
        assert(sub@ =~= t);
    }
    if is_keyword_token(sub) {
        return true;
    }
    let r = match find_e_in(sub) {
        None => is_mantissa_in(sub, 0, sub.len()),
        Some(e) => {
            let m = is_mantissa_in(sub, 0, e);
            let x = is_exp_part_in(sub, e + 1, sub.len());
            proof {
                assert(sub@.subrange(0, e as int) =~= t.take(e as int));
                assert(sub@.subrange(e + 1, sub@.len() as int) =~= t.skip(e + 1));
            }
            m && x
        },
    };
    proof {
        assert(sub@.subrange(0, sub@.len() as int) =~= t);
    }
    r
}

} // verus!
