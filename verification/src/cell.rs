//! Type inference for a single cell: integer, float, boolean, date or string.
use vstd::prelude::*;
use vstd::string::StrSliceExecFns;
use crate::InferredType;
use crate::number::{
    all_digit_chars, char_digits, digit_run, digits_value, finite_float_text, is_digit_char,
    is_digit_seq, is_finite_float_text, lemma_digits_append, lemma_digits_bounds,
    lemma_pow10_positive, pow10,
};
use crate::text::{chars_of, trim_bounds, trim_chars, trimmed};

verus! {

/// `i64::MAX` and the magnitude of `i64::MIN`.
pub open spec fn i64_max() -> int {
    0x7fff_ffff_ffff_ffff
}

/// `s` without a leading `-`.
pub open spec fn unsigned_text(s: Seq<char>) -> Seq<char> {
    if s.len() > 0 && s[0] == '-' {
        s.drop_first()
    } else {
        s
    }
}

/// An integer cell: an optional `-`, then digits with no leading zero
/// (so that IDs and zip codes like `007` stay strings), in the range of `i64`.
pub open spec fn is_integer_text(s: Seq<char>) -> bool {
    let d = unsigned_text(s);
    let limit = if s.len() > 0 && s[0] == '-' { i64_max() + 1 } else { i64_max() };
    &&& d.len() > 0
    &&& all_digit_chars(d)
    &&& (d[0] == '0' ==> d.len() == 1)
    &&& digits_value(char_digits(d)) <= limit
}

/// A float cell: it holds `.`, `e` or `E`, and parses as a finite `f64`.
pub open spec fn is_float_text(s: Seq<char>) -> bool {
    &&& (s.contains('.') || s.contains('e') || s.contains('E'))
    &&& is_finite_float_text(s)
}

/// ASCII lower case of one character.
pub open spec fn ascii_lower(c: char) -> char {
    if 'A' <= c && c <= 'Z' {
        ((c as u32) + 32) as char
    } else {
        c
    }
}

/// A boolean cell: `true`, `false`, `yes` or `no`, in any ASCII case.
pub open spec fn is_boolean_text(s: Seq<char>) -> bool {
    let l = s.map_values(|c: char| ascii_lower(c));
    ||| l == seq!['t', 'r', 'u', 'e']
    ||| l == seq!['f', 'a', 'l', 's', 'e']
    ||| l == seq!['y', 'e', 's']
    ||| l == seq!['n', 'o']
}

/// An ASCII digit, as a byte.
pub open spec fn is_ascii_digit_byte(b: u8) -> bool {
    48 <= b <= 57
}

/// The bytes in `[from, to)` are ASCII digits.
pub open spec fn digit_bytes(b: Seq<u8>, from: int, to: int) -> bool {
    forall|i: int| from <= i < to ==> is_ascii_digit_byte(#[trigger] b[i])
}

/// A date cell, checked on its UTF-8 bytes: `YYYY-MM-DD`, optionally
/// followed by `THH:MM:SS` or ` HH:MM:SS` (structure only, no calendar).
pub open spec fn is_date_like_bytes(b: Seq<u8>) -> bool {
    &&& b.len() >= 10
    &&& digit_bytes(b, 0, 4)
    &&& b[4] == 45
    &&& digit_bytes(b, 5, 7)
    &&& b[7] == 45
    &&& digit_bytes(b, 8, 10)
    &&& b.len() > 10 ==> {
        &&& b.len() >= 19
        &&& (b[10] == 84 || b[10] == 32)
        &&& digit_bytes(b, 11, 13)
        &&& b[13] == 58
        &&& digit_bytes(b, 14, 16)
        &&& b[16] == 58
        &&& digit_bytes(b, 17, 19)
    }
}

/// The byte at `i` is an ASCII digit, `0` to `9`.
pub open spec fn digit_byte_at(b: Seq<u8>, i: int) -> bool {
    0x30 <= b[i] && b[i] <= 0x39
}

/// `b` starts with `YYYY-MM-DD`.
pub open spec fn starts_with_day(b: Seq<u8>) -> bool {
    &&& b.len() >= 10
    &&& digit_byte_at(b, 0) && digit_byte_at(b, 1) && digit_byte_at(b, 2) && digit_byte_at(b, 3)
    &&& b[4] == 0x2d
    &&& digit_byte_at(b, 5) && digit_byte_at(b, 6)
    &&& b[7] == 0x2d
    &&& digit_byte_at(b, 8) && digit_byte_at(b, 9)
}

/// `b` starts with `YYYY-MM-DDTHH:MM:SS` or `YYYY-MM-DD HH:MM:SS`.
pub open spec fn starts_with_time_of_day(b: Seq<u8>) -> bool {
    &&& starts_with_day(b)
    &&& b.len() >= 19
    &&& (b[10] == 0x54 || b[10] == 0x20)
    &&& digit_byte_at(b, 11) && digit_byte_at(b, 12)
    &&& b[13] == 0x3a
    &&& digit_byte_at(b, 14) && digit_byte_at(b, 15)
    &&& b[16] == 0x3a
    &&& digit_byte_at(b, 17) && digit_byte_at(b, 18)
}

/// What a date cell is, on its bytes: exactly `YYYY-MM-DD`, or anything
/// that starts with `YYYY-MM-DDTHH:MM:SS` (or with a space for the `T`),
/// whatever follows, such as `Z`, an offset or fractional seconds.
pub proof fn lemma_date_like_shape(b: Seq<u8>)
    ensures
        is_date_like_bytes(b) == ((b.len() == 10 && starts_with_day(b)) || starts_with_time_of_day(b)),
{
    if is_date_like_bytes(b) {
        assert(digit_bytes(b, 0, 4) && digit_bytes(b, 5, 7) && digit_bytes(b, 8, 10));
        assert(is_ascii_digit_byte(b[0]) && is_ascii_digit_byte(b[1]) && is_ascii_digit_byte(b[2])
            && is_ascii_digit_byte(b[3]) && is_ascii_digit_byte(b[5]) && is_ascii_digit_byte(b[6])
            && is_ascii_digit_byte(b[8]) && is_ascii_digit_byte(b[9]));
        if b.len() > 10 {
            assert(is_ascii_digit_byte(b[11]) && is_ascii_digit_byte(b[12]) && is_ascii_digit_byte(b[14])
                && is_ascii_digit_byte(b[15]) && is_ascii_digit_byte(b[17]) && is_ascii_digit_byte(
                b[18],
            ));
        }
    }
}

/// The type of one cell, decided on the cell with surrounding white space
/// removed, in priority order integer, float, boolean, date, string; an empty
/// (or all white space) cell is `Unknown`.
pub open spec fn cell_type(raw: Seq<char>) -> InferredType {
    let s = trimmed(raw);
    if s.len() == 0 {
        InferredType::Unknown
    } else if is_integer_text(s) {
        InferredType::Integer
    } else if is_float_text(s) {
        InferredType::Float
    } else if is_boolean_text(s) {
        InferredType::Boolean
    } else if is_date_like_bytes(vstd::utf8::encode_utf8(s)) {
        InferredType::Date
    } else {
        InferredType::String
    }
}

proof fn lemma_digits_prefix_le(a: Seq<u8>, b: Seq<u8>)
    requires
        is_digit_seq(b),
    ensures
        digits_value(a + b) >= digits_value(a) * pow10(b.len()),
        digits_value(a) >= 0 ==> digits_value(a + b) >= digits_value(a),
{
    lemma_digits_append(a, b);
    lemma_digits_bounds(b);
    lemma_pow10_positive(b.len());
    if digits_value(a) >= 0 {
        assert(digits_value(a) * pow10(b.len()) >= digits_value(a)) by (nonlinear_arith)
            requires
                digits_value(a) >= 0,
                pow10(b.len()) >= 1,
        ;
    }
}

proof fn lemma_char_digits_is_digit_seq(s: Seq<char>)
    requires
        all_digit_chars(s),
    ensures
        is_digit_seq(char_digits(s)),
{
    assert forall|i: int| 0 <= i < char_digits(s).len() implies #[trigger] char_digits(s)[i] <= 9 by {
        assert(is_digit_char(s[i]));
    }
}

/// Integers only — rejects leading zeros (IDs, zip codes, etc.).
pub fn is_integer(s: &[char]) -> (r: bool)
    ensures
        r == is_integer_text(s@),
{
    let n = s.len();
    let negative = n > 0 && s[0] == '-';
    let st: usize = if negative {
        1
    } else {
        0
    };
    let ghost d = unsigned_text(s@);
    assert(d =~= s@.subrange(st as int, n as int));
    if st == n {
        return false;
    }
    if !digit_run(s, st, n) {
        return false;
    }
    if s[st] == '0' && n - st > 1 {
        return false;
    }
    let limit: u128 = if negative {
        0x8000_0000_0000_0000
    } else {
        0x7fff_ffff_ffff_ffff
    };
    let ghost ds = char_digits(d);
    proof {
        lemma_char_digits_is_digit_seq(d);
    }
    let mut v: u128 = 0;
    let mut i = st;
    assert(ds.take(0) =~= Seq::<u8>::empty());
    while i < n
        invariant
            st <= i <= n == s@.len(),
            d == s@.subrange(st as int, n as int),
            d == unsigned_text(s@),
            ds == char_digits(d),
            limit == (if s@.len() > 0 && s@[0] == '-' { i64_max() + 1 } else { i64_max() }),
            all_digit_chars(d),
            is_digit_seq(ds),
            v <= limit <= 0x8000_0000_0000_0000,
            v == digits_value(ds.take(i - st)),
        decreases n - i,
    {
        let ghost k = i - st;
        assert(is_digit_char(d[k]));
        assert(d[k] == s@[i as int]);
        let dig = ((s[i] as u32) - 48) as u128;
        proof {
            assert(ds.take(k + 1).drop_last() =~= ds.take(k));
            assert(ds[k] == dig);
            assert(ds.take(k + 1).last() == ds[k]);
        }
        v = v * 10 + dig;
        i = i + 1;
        assert(v == digits_value(ds.take(i - st)));
        if v > limit {
            proof {
                assert(ds =~= ds.take(i - st) + ds.skip(i - st));
                assert(is_digit_seq(ds.skip(i - st))) by {
                    assert forall|j: int| 0 <= j < ds.skip(i - st).len() implies #[trigger] ds.skip(
                        i - st,
                    )[j] <= 9 by {
                        assert(ds.skip(i - st)[j] == ds[j + (i - st)]);
                    }
                }
                lemma_digits_prefix_le(ds.take(i - st), ds.skip(i - st));
            }
            return false;
        }
    }
    assert(ds.take(n - st) =~= ds);
    true
}

/// Whether `s` holds `c`.
fn contains_char(s: &[char], c: char) -> (r: bool)
    ensures
        r == s@.contains(c),
{
    let mut i: usize = 0;
    while i < s.len()
        invariant
            i <= s@.len(),
            forall|j: int| 0 <= j < i ==> s@[j] != c,
        decreases s@.len() - i,
    {
        if s[i] == c {
            return true;
        }
        i = i + 1;
    }
    false
}

/// Floats must contain `.` or `e`/`E` and parse as finite f64.
pub fn is_float(s: &[char]) -> (r: bool)
    ensures
        r == is_float_text(s@),
{
    if !contains_char(s, '.') && !contains_char(s, 'e') && !contains_char(s, 'E') {
        return false;
    }
    finite_float_text(s)
}

fn lower(c: char) -> (r: char)
    ensures
        r == ascii_lower(c),
{
    if 'A' <= c && c <= 'Z' {
        ((c as u8) + 32) as char
    } else {
        c
    }
}

/// Whether the lower-cased `s` equals `w`.
fn lower_equals(s: &[char], w: &[char]) -> (r: bool)
    ensures
        r == (s@.map_values(|c: char| ascii_lower(c)) == w@),
{
    let ghost l = s@.map_values(|c: char| ascii_lower(c));
    if s.len() != w.len() {
        return false;
    }
    let mut i: usize = 0;
    while i < s.len()
        invariant
            i <= s@.len() == w@.len(),
            l == s@.map_values(|c: char| ascii_lower(c)),
            forall|j: int| 0 <= j < i ==> l[j] == w@[j],
        decreases s@.len() - i,
    {
        if lower(s[i]) != w[i] {
            return false;
        }
        i = i + 1;
    }
    assert(l =~= w@);
    true
}

/// Case-insensitive: true, false, yes, no.
pub fn is_boolean(s: &[char]) -> (r: bool)
    ensures
        r == is_boolean_text(s@),
{
    let t = ['t', 'r', 'u', 'e'];
    let f = ['f', 'a', 'l', 's', 'e'];
    let y = ['y', 'e', 's'];
    let no = ['n', 'o'];
    assert(t@ =~= seq!['t', 'r', 'u', 'e']);
    assert(f@ =~= seq!['f', 'a', 'l', 's', 'e']);
    assert(y@ =~= seq!['y', 'e', 's']);
    assert(no@ =~= seq!['n', 'o']);
    lower_equals(s, t.as_slice()) || lower_equals(s, f.as_slice()) || lower_equals(s, y.as_slice())
        || lower_equals(s, no.as_slice())
}

fn digits_in(b: &[u8], from: usize, to: usize) -> (r: bool)
    requires
        from <= to <= b@.len(),
    ensures
        r == digit_bytes(b@, from as int, to as int),
{
    let mut i = from;
    while i < to
        invariant
            from <= i <= to <= b@.len(),
            forall|j: int| from <= j < i ==> is_ascii_digit_byte(#[trigger] b@[j]),
        decreases to - i,
    {
        if !(48 <= b[i] && b[i] <= 57) {
            return false;
        }
        i = i + 1;
    }
    true
}

/// ISO-8601: YYYY-MM-DD or YYYY-MM-DDTHH:MM:SS. Structural check only.
pub fn is_date_like(b: &[u8]) -> (r: bool)
    ensures
        r == is_date_like_bytes(b@),
{
    let n = b.len();
    if n < 10 {
        return false;
    }
    if !digits_in(b, 0, 4) || b[4] != 45 || !digits_in(b, 5, 7) || b[7] != 45 || !digits_in(
        b,
        8,
        10,
    ) {
        return false;
    }
    if n > 10 {
        if n < 19 {
            return false;
        }
        if b[10] != 84 && b[10] != 32 {
            return false;
        }
        if !digits_in(b, 11, 13) || b[13] != 58 || !digits_in(b, 14, 16) || b[16] != 58
            || !digits_in(b, 17, 19) {
            return false;
        }
    }
    true
}

/// Infer the type of a single cell. No regex, no allocation of the value.
pub fn infer_cell_type(raw: &str) -> (r: InferredType)
    ensures
        r == cell_type(raw@),
{
    let chars = chars_of(raw);
    let (lo, hi) = trim_bounds(chars.as_slice());
    if lo == hi {
        return InferredType::Unknown;
    }
    let s = trim_chars(chars.as_slice());
    if is_integer(s.as_slice()) {
        return InferredType::Integer;
    }
    if is_float(s.as_slice()) {
        return InferredType::Float;
    }
    if is_boolean(s.as_slice()) {
        return InferredType::Boolean;
    }
    let t = raw.substring_char(lo, hi);
    if is_date_like(t.as_bytes()) {
        return InferredType::Date;
    }
    InferredType::String
}

} // verus!
