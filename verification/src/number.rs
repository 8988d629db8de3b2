//! Exact decimal numbers.
//!
//! A number is held as its significant decimal digits with the exponent of
//! ten they are scaled by. This is enough to decide everything the schema
//! inference asks of a numeric cell without leaving the integers: whether a
//! decimal text denotes a finite `f64` (its exact value is below the point
//! where rounding reaches infinity), and which of two numbers is smaller.
use vstd::prelude::*;

verus! {

/// `10^e`.
pub open spec fn pow10(e: nat) -> int
    decreases e,
{
    if e == 0 {
        1
    } else {
        10 * pow10((e - 1) as nat)
    }
}

/// `2^e`.
pub open spec fn pow2(e: nat) -> int
    decreases e,
{
    if e == 0 {
        1
    } else {
        2 * pow2((e - 1) as nat)
    }
}

/// Every entry of `s` is a decimal digit value.
pub open spec fn is_digit_seq(s: Seq<u8>) -> bool {
    forall|i: int| 0 <= i < s.len() ==> #[trigger] s[i] <= 9
}

/// The value of the big-endian decimal digits `s`.
pub open spec fn digits_value(s: Seq<u8>) -> int
    decreases s.len(),
{
    if s.len() == 0 {
        0
    } else {
        digits_value(s.drop_last()) * 10 + s.last()
    }
}

/// `m * 10^e1 < n * 10^e2`, for naturals `m`, `n` and integer exponents.
pub open spec fn scaled_less(m: int, e1: int, n: int, e2: int) -> bool {
    if e1 >= e2 {
        m * pow10((e1 - e2) as nat) < n
    } else {
        m < n * pow10((e2 - e1) as nat)
    }
}

/// `a` and `b` read as fractions `0.a` and `0.b`: is the first smaller?
pub open spec fn padded_less(a: Seq<u8>, b: Seq<u8>) -> bool {
    let l = if a.len() >= b.len() { a.len() } else { b.len() };
    digits_value(a) * pow10((l - a.len()) as nat) < digits_value(b) * pow10((l - b.len()) as nat)
}

/// `a` and `b` read as fractions `0.a` and `0.b`: are they equal?
pub open spec fn padded_equal(a: Seq<u8>, b: Seq<u8>) -> bool {
    let l = if a.len() >= b.len() { a.len() } else { b.len() };
    digits_value(a) * pow10((l - a.len()) as nat) == digits_value(b) * pow10((l - b.len()) as nat)
}

/// Powers of ten are positive.
pub proof fn lemma_pow10_positive(e: nat)
    ensures
        pow10(e) >= 1,
    decreases e,
{
    if e > 0 {
        lemma_pow10_positive((e - 1) as nat);
    }
}

/// `10^a * 10^b == 10^(a + b)`.
pub proof fn lemma_pow10_adds(a: nat, b: nat)
    ensures
        pow10(a + b) == pow10(a) * pow10(b),
    decreases b,
{
    if b > 0 {
        lemma_pow10_adds(a, (b - 1) as nat);
        assert(pow10(a + b) == 10 * pow10((a + b - 1) as nat));
        assert(pow10(a) * pow10(b) == pow10(a) * (10 * pow10((b - 1) as nat)));
        assert(pow10(a) * (10 * pow10((b - 1) as nat)) == 10 * (pow10(a) * pow10(
            (b - 1) as nat,
        ))) by (nonlinear_arith);
    }
}

/// Powers of ten grow with the exponent.
pub proof fn lemma_pow10_increases(a: nat, b: nat)
    requires
        a <= b,
    ensures
        pow10(a) <= pow10(b),
{
    lemma_pow10_adds(a, (b - a) as nat);
    lemma_pow10_positive(a);
    lemma_pow10_positive((b - a) as nat);
    assert(pow10(a) * pow10((b - a) as nat) >= pow10(a) * 1) by (nonlinear_arith)
        requires
            pow10(a) >= 1,
            pow10((b - a) as nat) >= 1,
    ;
    assert(a + (b - a) as nat == b);
}

/// Appending digits: `value(a ++ b) == value(a) * 10^|b| + value(b)`.
pub proof fn lemma_digits_append(a: Seq<u8>, b: Seq<u8>)
    ensures
        digits_value(a + b) == digits_value(a) * pow10(b.len()) + digits_value(b),
    decreases b.len(),
{
    if b.len() == 0 {
        assert(a + b =~= a);
    } else {
        let b0 = b.drop_last();
        lemma_digits_append(a, b0);
        assert((a + b).drop_last() =~= a + b0);
        assert((a + b).last() == b.last());
        assert(digits_value(a) * pow10(b.len()) == (digits_value(a) * pow10(b0.len())) * 10)
            by (nonlinear_arith)
            requires
                pow10(b.len()) == 10 * pow10(b0.len()),
        ;
    }
}

/// Digit sequences are bounded by the power of ten of their length,
/// and from below when they start with a non-zero digit.
pub proof fn lemma_digits_bounds(s: Seq<u8>)
    requires
        is_digit_seq(s),
    ensures
        0 <= digits_value(s) < pow10(s.len()),
        s.len() > 0 && s[0] > 0 ==> digits_value(s) >= pow10((s.len() - 1) as nat),
    decreases s.len(),
{
    if s.len() > 0 {
        let s0 = s.drop_last();
        lemma_digits_bounds(s0);
        assert(s.last() <= 9);
        if s0.len() > 0 {
            assert(s0[0] == s[0]);
            if s[0] > 0 {
                assert(pow10((s.len() - 1) as nat) == 10 * pow10((s0.len() - 1) as nat));
            }
        }
    }
}

/// Appending zero digits scales the value by a power of ten.
pub proof fn lemma_digits_zeros(a: Seq<u8>, k: nat)
    ensures
        digits_value(a + Seq::new(k, |i: int| 0u8)) == digits_value(a) * pow10(k),
{
    let z = Seq::new(k, |i: int| 0u8);
    lemma_zeros_value(k);
    lemma_digits_append(a, z);
}

proof fn lemma_zeros_value(k: nat)
    ensures
        digits_value(Seq::new(k, |i: int| 0u8)) == 0,
    decreases k,
{
    if k > 0 {
        lemma_zeros_value((k - 1) as nat);
        assert(Seq::new(k, |i: int| 0u8).drop_last() =~= Seq::new((k - 1) as nat, |i: int| 0u8));
    }
}

/// Equal-length digit sequences that agree up to `k` and differ there are
/// ordered by that digit.
pub proof fn lemma_digits_first_difference(a: Seq<u8>, b: Seq<u8>, k: int)
    requires
        is_digit_seq(a),
        is_digit_seq(b),
        a.len() == b.len(),
        0 <= k < a.len(),
        a.take(k) == b.take(k),
        a[k] < b[k],
    ensures
        digits_value(a) < digits_value(b),
{
    let n = a.len();
    let r = (n - k - 1) as nat;
    let ta = a.take(k);
    let ra = a.skip(k + 1);
    let rb = b.skip(k + 1);
    assert(a =~= ta + seq![a[k]] + ra);
    assert(b =~= ta + seq![b[k]] + rb);
    lemma_digits_append(ta + seq![a[k]], ra);
    lemma_digits_append(ta + seq![b[k]], rb);
    lemma_digits_append(ta, seq![a[k]]);
    lemma_digits_append(ta, seq![b[k]]);
    assert(seq![a[k]].drop_last() =~= Seq::<u8>::empty());
    assert(seq![b[k]].drop_last() =~= Seq::<u8>::empty());
    assert(is_digit_seq(ra)) by {
        assert forall|i: int| 0 <= i < ra.len() implies #[trigger] ra[i] <= 9 by {
            assert(ra[i] == a[i + k + 1]);
        }
    }
    lemma_digits_bounds(ra);
    lemma_digits_bounds(rb);
    assert(is_digit_seq(rb)) by {
        assert forall|i: int| 0 <= i < rb.len() implies #[trigger] rb[i] <= 9 by {
            assert(rb[i] == b[i + k + 1]);
        }
    }
    let p = pow10(r);
    let x = digits_value(ta);
    assert(ra.len() == r && rb.len() == r);
    assert(pow10(0) == 1);
    assert(pow10(1) == 10);
    assert(digits_value(seq![a[k]]) == digits_value(seq![a[k]].drop_last()) * 10 + a[k]);
    assert(digits_value(seq![b[k]]) == digits_value(seq![b[k]].drop_last()) * 10 + b[k]);
    assert(digits_value(Seq::<u8>::empty()) == 0);
    assert(digits_value(ta + seq![a[k]]) == x * 10 + a[k]);
    assert(digits_value(ta + seq![b[k]]) == x * 10 + b[k]);
    assert(digits_value(a) == (x * 10 + a[k]) * p + digits_value(ra));
    assert(digits_value(b) == (x * 10 + b[k]) * p + digits_value(rb));
    assert((x * 10 + a[k]) * p + p <= (x * 10 + b[k]) * p) by (nonlinear_arith)
        requires
            a[k] < b[k],
            p >= 1,
    ;
}


/// A digit sequence padded with zeros up to length `l`.
pub open spec fn padded(a: Seq<u8>, l: nat) -> Seq<u8> {
    a + Seq::new((l - a.len()) as nat, |i: int| 0u8)
}

/// The `k`-th digit of `a` read as a fraction: zero past its end.
pub open spec fn digit_at(a: Seq<u8>, k: int) -> u8 {
    if k < a.len() {
        a[k]
    } else {
        0
    }
}

/// The comparison of two fractions `0.a` and `0.b` is decided by their
/// first differing digit.
pub proof fn lemma_padded_first_difference(a: Seq<u8>, b: Seq<u8>, k: int)
    requires
        is_digit_seq(a),
        is_digit_seq(b),
        0 <= k,
        k < a.len() || k < b.len(),
        forall|j: int| 0 <= j < k ==> digit_at(a, j) == digit_at(b, j),
        digit_at(a, k) < digit_at(b, k),
    ensures
        padded_less(a, b),
{
    let l = if a.len() >= b.len() { a.len() } else { b.len() };
    let pa = padded(a, l);
    let pb = padded(b, l);
    lemma_digits_zeros(a, (l - a.len()) as nat);
    lemma_digits_zeros(b, (l - b.len()) as nat);
    assert forall|j: int| 0 <= j < l implies pa[j] == digit_at(a, j) && pb[j] == digit_at(b, j) by {}
    assert(is_digit_seq(pa));
    assert(is_digit_seq(pb));
    assert(pa.take(k) =~= pb.take(k));
    lemma_digits_first_difference(pa, pb, k);
}

/// Fractions with the same digits at every position are equal.
pub proof fn lemma_padded_same(a: Seq<u8>, b: Seq<u8>)
    requires
        forall|j: int|
            0 <= j < (if a.len() >= b.len() { a.len() } else { b.len() }) ==> digit_at(a, j)
                == digit_at(b, j),
    ensures
        padded_equal(a, b),
        !padded_less(a, b),
        !padded_less(b, a),
{
    let l = if a.len() >= b.len() { a.len() } else { b.len() };
    lemma_digits_zeros(a, (l - a.len()) as nat);
    lemma_digits_zeros(b, (l - b.len()) as nat);
    assert(padded(a, l).len() == l && padded(b, l).len() == l);
    assert forall|j: int| 0 <= j < l implies padded(a, l)[j] == padded(b, l)[j] by {
        assert(padded(a, l)[j] == digit_at(a, j));
        assert(padded(b, l)[j] == digit_at(b, j));
    }
    assert(padded(a, l) =~= padded(b, l));
}

/// Comparing `a * 10^e1` with `b * 10^e2` (both without leading zeros):
/// first by the position of the leading digit, then digit by digit.
pub proof fn lemma_scaled_less_by_position(a: Seq<u8>, e1: int, b: Seq<u8>, e2: int)
    requires
        is_digit_seq(a),
        is_digit_seq(b),
        a.len() > 0,
        a[0] > 0,
        b.len() > 0,
        b[0] > 0,
    ensures
        scaled_less(digits_value(a), e1, digits_value(b), e2) == (a.len() + e1 < b.len() + e2 || (
        a.len() + e1 == b.len() + e2 && padded_less(a, b))),
{
    let n1 = a.len() as int;
    let n2 = b.len() as int;
    let m = digits_value(a);
    let n = digits_value(b);
    lemma_digits_bounds(a);
    lemma_digits_bounds(b);
    let c = if e1 <= e2 { e1 } else { e2 };
    let d1 = (e1 - c) as nat;
    let d2 = (e2 - c) as nat;
    let x = m * pow10(d1);
    let y = n * pow10(d2);
    // The comparison in the spec is the comparison of x and y.
    lemma_pow10_positive(d1);
    lemma_pow10_positive(d2);
    if e1 >= e2 {
        assert(d2 == 0 && pow10(d2) == 1);
        assert(y == n) by (nonlinear_arith)
            requires
                y == n * pow10(d2),
                pow10(d2) == 1,
        ;
    } else {
        assert(d1 == 0 && pow10(d1) == 1);
        assert(x == m) by (nonlinear_arith)
            requires
                x == m * pow10(d1),
                pow10(d1) == 1,
        ;
    }
    assert(scaled_less(m, e1, n, e2) == (x < y));
    // Bounds of x and y by the positions of their leading digits.
    let lo1 = (n1 - 1) as nat;
    let lo2 = (n2 - 1) as nat;
    lemma_pow10_adds(lo1, d1);
    lemma_pow10_adds(n1 as nat, d1);
    lemma_pow10_adds(lo2, d2);
    lemma_pow10_adds(n2 as nat, d2);
    assert(pow10(lo1) * pow10(d1) <= x < pow10(n1 as nat) * pow10(d1)) by (nonlinear_arith)
        requires
            pow10(lo1) <= m < pow10(n1 as nat),
            pow10(d1) >= 1,
            x == m * pow10(d1),
    ;
    assert(pow10(lo2) * pow10(d2) <= y < pow10(n2 as nat) * pow10(d2)) by (nonlinear_arith)
        requires
            pow10(lo2) <= n < pow10(n2 as nat),
            pow10(d2) >= 1,
            y == n * pow10(d2),
    ;
    let p1 = n1 + e1 - c;
    let p2 = n2 + e2 - c;
    assert(pow10((p1 - 1) as nat) <= x < pow10(p1 as nat));
    assert(pow10((p2 - 1) as nat) <= y < pow10(p2 as nat));
    if n1 + e1 < n2 + e2 {
        lemma_pow10_increases(p1 as nat, (p2 - 1) as nat);
    } else if n1 + e1 > n2 + e2 {
        lemma_pow10_increases(p2 as nat, (p1 - 1) as nat);
    } else {
        if e1 >= e2 {
            assert(a.len() <= b.len());
            assert(d1 == (n2 - n1) as nat);
        } else {
            assert(b.len() <= a.len());
            assert(d2 == (n1 - n2) as nat);
        }
        assert(pow10(0) == 1);
    }
}


/// A leading-digit-free form: empty, or starting with a non-zero digit.
pub open spec fn no_leading_zero(s: Seq<u8>) -> bool {
    s.len() == 0 || s[0] > 0
}

proof fn lemma_digits_single(d: u8)
    ensures
        digits_value(seq![d]) == d,
{
    assert(seq![d].drop_last() =~= Seq::<u8>::empty());
    assert(digits_value(Seq::<u8>::empty()) == 0);
    assert(seq![d].last() == d);
}

/// The decimal digits of `x`, most significant first (`[0]` for zero).
pub fn u64_digits(x: u64) -> (out: Vec<u8>)
    ensures
        digits_value(out@) == x,
        is_digit_seq(out@),
        out@.len() > 0,
        x > 0 ==> out@[0] > 0,
        x == 0 ==> out@.len() == 1,
{
    let mut out: Vec<u8> = Vec::new();
    let mut rem = x;
    assert(pow10(0) == 1);
    loop
        invariant_except_break
            rem > 0 || (x == 0 && out@.len() == 0),
            x == 0 ==> out@.len() == 0,
        invariant
            digits_value(out@) + pow10(out@.len()) * rem == x,
            is_digit_seq(out@),
        ensures
            digits_value(out@) == x,
            is_digit_seq(out@),
            out@.len() > 0,
            x > 0 ==> out@[0] > 0,
            x == 0 ==> out@.len() == 1,
        decreases rem,
    {
        let d = (rem % 10) as u8;
        let next = rem / 10;
        let ghost old_out = out@;
        out.insert(0, d);
        proof {
            assert(out@ =~= seq![d] + old_out);
            lemma_digits_append(seq![d], old_out);
            lemma_digits_single(d);
            let k = old_out.len();
            assert(pow10(k + 1) == 10 * pow10(k));
            assert(digits_value(out@) + pow10(out@.len()) * next == digits_value(old_out) + pow10(k)
                * rem) by (nonlinear_arith)
                requires
                    digits_value(out@) == d * pow10(k) + digits_value(old_out),
                    pow10(out@.len()) == 10 * pow10(k),
                    rem == 10 * next + d,
            ;
            assert forall|i: int| 0 <= i < out@.len() implies #[trigger] out@[i] <= 9 by {
                if i > 0 {
                    assert(out@[i] == old_out[i - 1]);
                }
            }
        }
        rem = next;
        if rem == 0 {
            proof {
                assert(pow10(out@.len()) * 0 == 0);
                assert(out@[0] == d);
            }
            break;
        }
    }
    out
}

/// The decimal digits of `n`, most significant first, without leading
/// zeros (none at all for zero).
pub open spec fn nat_digits(n: nat) -> Seq<u8>
    decreases n,
{
    if n == 0 {
        Seq::empty()
    } else {
        nat_digits(n / 10).push((n % 10) as u8)
    }
}

/// The characters of the digit values `d`.
pub open spec fn digit_chars(d: Seq<u8>) -> Seq<char> {
    d.map_values(|x: u8| ((x as u32) + 48) as char)
}

/// `n` written in decimal, as `Display` writes an unsigned integer.
pub open spec fn decimal_text(n: nat) -> Seq<char> {
    if n == 0 {
        seq!['0']
    } else {
        digit_chars(nat_digits(n))
    }
}

/// Digits without a leading zero are the canonical digits of their value.
pub proof fn lemma_canonical_digits(s: Seq<u8>)
    requires
        is_digit_seq(s),
        no_leading_zero(s),
    ensures
        s == nat_digits(digits_value(s) as nat),
        s.len() > 0 ==> digits_value(s) > 0,
    decreases s.len(),
{
    if s.len() > 0 {
        let s0 = s.drop_last();
        if s0.len() > 0 {
            assert(s0[0] == s[0]);
        }
        lemma_canonical_digits(s0);
        lemma_digits_bounds(s0);
        let n = digits_value(s);
        assert(s.last() <= 9);
        assert(n / 10 == digits_value(s0));
        assert(n % 10 == s.last());
        if s0.len() == 0 {
            assert(s.last() == s[0]);
        }
        assert(n > 0);
        assert(s =~= nat_digits(digits_value(s0) as nat).push(s.last()));
    }
}

/// The digits `u64_digits` gives are those of `decimal_text`.
pub proof fn lemma_u64_digits_text(x: u64, d: Seq<u8>)
    requires
        digits_value(d) == x,
        is_digit_seq(d),
        d.len() > 0,
        x > 0 ==> d[0] > 0,
        x == 0 ==> d.len() == 1,
    ensures
        digit_chars(d) == decimal_text(x as nat),
{
    if x == 0 {
        assert(d[0] == 0) by {
            assert(d.drop_last().len() == 0);
        }
        assert(digit_chars(d) =~= seq!['0']);
    } else {
        lemma_canonical_digits(d);
    }
}

/// Append `n`, written in decimal, to `out`.
pub fn push_decimal(out: &mut String, n: u64)
    ensures
        final(out)@ == old(out)@ + decimal_text(n as nat),
{
    let d = u64_digits(n);
    let ghost start = out@;
    let mut i: usize = 0;
    while i < d.len()
        invariant
            i <= d@.len(),
            is_digit_seq(d@),
            out@ == start + digit_chars(d@.take(i as int)),
        decreases d@.len() - i,
    {
        let c = ((d[i] + 48) as char);
        assert(d@[i as int] <= 9);
        crate::text::push_char(out, c);
        proof {
            assert(digit_chars(d@.take(i + 1)) =~= digit_chars(d@.take(i as int)).push(c));
        }
        i = i + 1;
    }
    proof {
        assert(d@.take(d@.len() as int) =~= d@);
        lemma_u64_digits_text(n, d@);
    }
}

/// `i` written in decimal, as `Display` writes a signed integer.
pub open spec fn int_text(i: int) -> Seq<char> {
    if i < 0 {
        seq!['-'] + decimal_text((-i) as nat)
    } else {
        decimal_text(i as nat)
    }
}

/// The decimal view of the integer `i`.
pub open spec fn int_number(i: int) -> (bool, Seq<u8>, int) {
    (i < 0, nat_digits((if i < 0 { -i } else { i }) as nat), 0)
}

/// Append `i`, written in decimal, to `out`.
pub fn push_int(out: &mut String, i: i64)
    ensures
        final(out)@ == old(out)@ + int_text(i as int),
{
    let mag: u64 = if i < 0 {
        (0i128 - i as i128) as u64
    } else {
        i as u64
    };
    let ghost start = out@;
    if i < 0 {
        crate::text::push_char(out, '-');
    }
    push_decimal(out, mag);
    proof {
        if i < 0 {
            assert(out@ =~= start + (seq!['-'] + decimal_text(mag as nat)));
        }
    }
}

/// Twice the number written by the digits `d`.
pub fn double_digits(d: &Vec<u8>) -> (out: Vec<u8>)
    requires
        is_digit_seq(d@),
        d@.len() > 0,
        d@[0] > 0,
    ensures
        digits_value(out@) == 2 * digits_value(d@),
        is_digit_seq(out@),
        out@.len() > 0,
        out@[0] > 0,
{
    let n = d.len();
    let mut out: Vec<u8> = Vec::new();
    let mut j: usize = 0;
    while j < n
        invariant
            j <= n == d@.len(),
            out@.len() == j,
            forall|i: int| 0 <= i < j ==> #[trigger] out@[i] == 0,
        decreases n - j,
    {
        out.push(0);
        j = j + 1;
    }
    let mut carry: u8 = 0;
    let mut i: usize = n;
    assert(out@.skip(n as int) =~= Seq::<u8>::empty());
    assert(d@.skip(n as int) =~= Seq::<u8>::empty());
    assert(pow10(0) == 1);
    while i > 0
        invariant
            i <= n == d@.len(),
            out@.len() == n,
            is_digit_seq(d@),
            carry <= 1,
            forall|k: int| 0 <= k < n ==> #[trigger] out@[k] <= 9,
            digits_value(out@.skip(i as int)) + carry * pow10((n - i) as nat) == 2 * digits_value(
                d@.skip(i as int),
            ),
        decreases i,
    {
        let x = 2 * d[i - 1] + carry;
        let ghost old_out = out@;
        let ghost tail = old_out.skip(i as int);
        out.set(i - 1, x % 10);
        proof {
            let k = (n - i) as nat;
            assert(out@.skip(i as int) =~= tail);
            assert(out@.skip(i - 1) =~= seq![x % 10] + tail);
            assert(d@.skip(i - 1) =~= seq![d@[i - 1]] + d@.skip(i as int));
            lemma_digits_append(seq![x % 10], tail);
            lemma_digits_append(seq![d@[i - 1]], d@.skip(i as int));
            lemma_digits_single(x % 10);
            lemma_digits_single(d@[i - 1]);
            assert(tail.len() == k);
            assert(pow10(k + 1) == 10 * pow10(k));
            assert(digits_value(out@.skip(i - 1)) + (x / 10) * pow10(k + 1) == 2 * digits_value(
                d@.skip(i - 1),
            )) by (nonlinear_arith)
                requires
                    digits_value(out@.skip(i - 1)) == (x % 10) * pow10(k) + digits_value(tail),
                    digits_value(d@.skip(i - 1)) == d@[i - 1] * pow10(k) + digits_value(
                        d@.skip(i as int),
                    ),
                    digits_value(tail) + carry * pow10(k) == 2 * digits_value(d@.skip(i as int)),
                    x == 2 * d@[i - 1] + carry,
                    pow10(k + 1) == 10 * pow10(k),
            ;
        }
        carry = x / 10;
        i = i - 1;
    }
    assert(out@.skip(0) =~= out@);
    assert(d@.skip(0) =~= d@);
    if carry > 0 {
        let ghost old_out = out@;
        out.insert(0, carry);
        proof {
            assert(out@ =~= seq![carry] + old_out);
            lemma_digits_append(seq![carry], old_out);
            lemma_digits_single(carry);
            assert forall|k: int| 0 <= k < out@.len() implies #[trigger] out@[k] <= 9 by {
                if k > 0 {
                    assert(out@[k] == old_out[k - 1]);
                }
            }
        }
    } else {
        proof {
            lemma_digits_bounds(out@);
            lemma_digits_bounds(d@);
            if out@[0] == 0 {
                // a leading zero would make the doubled value smaller than the input
                let rest = out@.drop_first();
                assert(out@ =~= seq![0u8] + rest);
                lemma_digits_append(seq![0u8], rest);
                lemma_digits_single(0u8);
                assert(is_digit_seq(rest)) by {
                    assert forall|k: int| 0 <= k < rest.len() implies #[trigger] rest[k] <= 9 by {
                        assert(rest[k] == out@[k + 1]);
                    }
                }
                lemma_digits_bounds(rest);
                assert(false);
            }
        }
    }
    out
}


/// Magnitude bounds decide a comparison: if `m * 10^e1` lies below
/// `10^(b1 + e1)` and `n * 10^e2` at or above `10^(a2 + e2)`, the first is smaller.
pub proof fn lemma_scaled_less_by_bounds(
    m: int,
    a1: nat,
    b1: nat,
    e1: int,
    n: int,
    a2: nat,
    b2: nat,
    e2: int,
)
    requires
        pow10(a1) <= m < pow10(b1),
        pow10(a2) <= n < pow10(b2),
    ensures
        b1 + e1 <= a2 + e2 ==> scaled_less(m, e1, n, e2),
        b2 + e2 <= a1 + e1 ==> !scaled_less(m, e1, n, e2),
{
    let c = if e1 <= e2 { e1 } else { e2 };
    let d1 = (e1 - c) as nat;
    let d2 = (e2 - c) as nat;
    let x = m * pow10(d1);
    let y = n * pow10(d2);
    lemma_pow10_positive(d1);
    lemma_pow10_positive(d2);
    if e1 >= e2 {
        assert(y == n) by (nonlinear_arith)
            requires
                y == n * pow10(d2),
                pow10(d2) == 1,
        ;
    } else {
        assert(x == m) by (nonlinear_arith)
            requires
                x == m * pow10(d1),
                pow10(d1) == 1,
        ;
    }
    assert(scaled_less(m, e1, n, e2) == (x < y));
    lemma_pow10_adds(a1, d1);
    lemma_pow10_adds(b1, d1);
    lemma_pow10_adds(a2, d2);
    lemma_pow10_adds(b2, d2);
    assert(pow10(a1) * pow10(d1) <= x < pow10(b1) * pow10(d1)) by (nonlinear_arith)
        requires
            pow10(a1) <= m < pow10(b1),
            pow10(d1) >= 1,
            x == m * pow10(d1),
    ;
    assert(pow10(a2) * pow10(d2) <= y < pow10(b2) * pow10(d2)) by (nonlinear_arith)
        requires
            pow10(a2) <= n < pow10(b2),
            pow10(d2) >= 1,
            y == n * pow10(d2),
    ;
    if b1 + e1 <= a2 + e2 {
        lemma_pow10_increases(b1 + d1, a2 + d2);
    }
    if b2 + e2 <= a1 + e1 {
        lemma_pow10_increases(b2 + d2, a1 + d1);
    }
}

/// `2^a * 2^b == 2^(a + b)`.
pub proof fn lemma_pow2_adds(a: nat, b: nat)
    ensures
        pow2(a + b) == pow2(a) * pow2(b),
    decreases b,
{
    if b > 0 {
        lemma_pow2_adds(a, (b - 1) as nat);
        assert(pow2(a) * (2 * pow2((b - 1) as nat)) == 2 * (pow2(a) * pow2((b - 1) as nat)))
            by (nonlinear_arith);
    }
}

/// Powers of two are positive.
pub proof fn lemma_pow2_positive(e: nat)
    ensures
        pow2(e) >= 1,
    decreases e,
{
    if e > 0 {
        lemma_pow2_positive((e - 1) as nat);
    }
}

proof fn lemma_small_powers()
    ensures
        pow2(10) == 1024,
        pow10(3) == 1000,
        pow10(4) == 10000,
{
    reveal_with_fuel(pow2, 11);
    reveal_with_fuel(pow10, 5);
}

/// `10^(3k) <= 2^(10k) <= 10^(4k)`.
proof fn lemma_pow2_vs_pow10(k: nat)
    ensures
        pow10(3 * k) <= pow2(10 * k) <= pow10(4 * k),
    decreases k,
{
    if k == 0 {
    } else {
        let j = (k - 1) as nat;
        lemma_pow2_vs_pow10(j);
        lemma_small_powers();
        lemma_pow2_adds(10 * j, 10);
        lemma_pow10_adds(3 * j, 3);
        lemma_pow10_adds(4 * j, 4);
        assert(10 * j + 10 == 10 * k);
        assert(3 * j + 3 == 3 * k);
        assert(4 * j + 4 == 4 * k);
        lemma_pow10_positive(3 * j);
        assert(pow10(3 * j) * 1000 <= pow2(10 * j) * 1024 <= pow10(4 * j) * 10000) by (nonlinear_arith)
            requires
                pow10(3 * j) <= pow2(10 * j) <= pow10(4 * j),
                pow10(3 * j) >= 0,
        ;
    }
}

/// The smallest magnitude that rounds to infinity as an `f64`: halfway
/// between `f64::MAX = (2^53 - 1) * 2^971` and `2^1024`, so `(2^54 - 1) * 2^970`.
/// A decimal number parses to a finite `f64` exactly when its magnitude is below it.
pub open spec fn f64_overflow_threshold() -> int {
    (pow2(54) - 1) * pow2(970)
}

/// `10^300 <= threshold < 10^412`.
pub proof fn lemma_threshold_bounds()
    ensures
        pow10(300) <= f64_overflow_threshold() < pow10(412),
{
    lemma_pow2_adds(30, 24);
    lemma_pow2_adds(30, 970);
    lemma_pow2_adds(54, 970);
    lemma_pow2_adds(1024, 6);
    lemma_pow2_positive(24);
    lemma_pow2_positive(30);
    lemma_pow2_positive(970);
    lemma_pow2_positive(6);
    lemma_pow2_vs_pow10(100);
    lemma_pow2_vs_pow10(103);
    assert(pow2(54) - 1 >= pow2(30)) by (nonlinear_arith)
        requires
            pow2(54) == pow2(30) * pow2(24),
            pow2(24) >= 2,
            pow2(30) >= 1,
    ;
    assert(pow2(24) >= 2) by {
        reveal_with_fuel(pow2, 2);
        lemma_pow2_adds(1, 23);
        lemma_pow2_positive(23);
    }
    assert(f64_overflow_threshold() >= pow2(30) * pow2(970)) by (nonlinear_arith)
        requires
            pow2(54) - 1 >= pow2(30),
            pow2(970) >= 1,
    ;
    assert(f64_overflow_threshold() < pow2(54) * pow2(970)) by (nonlinear_arith)
        requires
            pow2(970) >= 1,
    ;
    assert(pow2(1024) <= pow2(1030)) by (nonlinear_arith)
        requires
            pow2(1030) == pow2(1024) * pow2(6),
            pow2(6) >= 1,
            pow2(1024) >= 0,
    ;
    lemma_pow2_positive(1024);
}

/// The decimal digits of `f64_overflow_threshold()`.
pub fn overflow_threshold_digits() -> (out: Vec<u8>)
    ensures
        digits_value(out@) == f64_overflow_threshold(),
        is_digit_seq(out@),
        out@.len() > 0,
        out@[0] > 0,
{
    // 2^54 - 1
    let mut d = u64_digits(18014398509481983u64);
    proof {
        lemma_small_powers();
        lemma_pow2_adds(10, 10);
        lemma_pow2_adds(20, 20);
        lemma_pow2_adds(40, 10);
        reveal_with_fuel(pow2, 5);
        assert(pow2(4) == 16);
        assert(pow2(20) == 1048576) by (nonlinear_arith)
            requires
                pow2(20) == pow2(10) * pow2(10),
                pow2(10) == 1024,
        ;
        assert(pow2(40) == 1099511627776) by (nonlinear_arith)
            requires
                pow2(40) == pow2(20) * pow2(20),
                pow2(20) == 1048576,
        ;
        assert(pow2(50) == 1125899906842624) by (nonlinear_arith)
            requires
                pow2(50) == pow2(40) * pow2(10),
                pow2(40) == 1099511627776,
                pow2(10) == 1024,
        ;
        lemma_pow2_adds(50, 4);
        assert(pow2(54) == 18014398509481984) by (nonlinear_arith)
            requires
                pow2(54) == pow2(50) * pow2(4),
                pow2(50) == 1125899906842624,
                pow2(4) == 16,
        ;
        assert(pow2(0) == 1);
    }
    let mut i: usize = 0;
    while i < 970
        invariant
            i <= 970,
            digits_value(d@) == (pow2(54) - 1) * pow2(i as nat),
            is_digit_seq(d@),
            d@.len() > 0,
            d@[0] > 0,
        decreases 970 - i,
    {
        d = double_digits(&d);
        proof {
            assert(pow2((i + 1) as nat) == 2 * pow2(i as nat));
            assert(2 * ((pow2(54) - 1) * pow2(i as nat)) == (pow2(54) - 1) * (2 * pow2(i as nat)))
                by (nonlinear_arith);
        }
        i = i + 1;
    }
    d
}

/// How the fractions `0.a` and `0.b` compare: `-1`, `0` or `1`.
pub fn compare_fractions(a: &[u8], b: &[u8]) -> (r: i8)
    requires
        is_digit_seq(a@),
        is_digit_seq(b@),
    ensures
        (r < 0) == padded_less(a@, b@),
        (r > 0) == padded_less(b@, a@),
        (r == 0) == padded_equal(a@, b@),
        -1 <= r <= 1,
{
    let l = if a.len() >= b.len() {
        a.len()
    } else {
        b.len()
    };
    let mut k: usize = 0;
    while k < l
        invariant
            k <= l,
            l == (if a@.len() >= b@.len() { a@.len() } else { b@.len() }),
            forall|j: int| 0 <= j < k ==> digit_at(a@, j) == digit_at(b@, j),
            is_digit_seq(a@),
            is_digit_seq(b@),
        decreases l - k,
    {
        let x = if k < a.len() {
            a[k]
        } else {
            0
        };
        let y = if k < b.len() {
            b[k]
        } else {
            0
        };
        if x < y {
            proof {
                lemma_padded_first_difference(a@, b@, k as int);
                lemma_padded_trichotomy(a@, b@);
            }
            return -1;
        }
        if x > y {
            proof {
                assert forall|j: int| 0 <= j < k implies digit_at(b@, j) == digit_at(a@, j) by {}
                lemma_padded_first_difference(b@, a@, k as int);
                lemma_padded_trichotomy(a@, b@);
            }
            return 1;
        }
        k = k + 1;
    }
    proof {
        lemma_padded_same(a@, b@);
        assert forall|j: int|
            0 <= j < (if b@.len() >= a@.len() { b@.len() } else { a@.len() }) implies digit_at(b@, j)
            == digit_at(a@, j) by {}
        lemma_padded_same(b@, a@);
    }
    0
}

/// At most one of `a < b`, `a == b`, `b < a` holds for fractions.
pub proof fn lemma_padded_trichotomy(a: Seq<u8>, b: Seq<u8>)
    ensures
        padded_less(a, b) ==> !padded_less(b, a) && !padded_equal(a, b),
        padded_less(b, a) ==> !padded_equal(a, b),
        padded_equal(a, b) <==> padded_equal(b, a),
{
}


// ---------------------------------------------------------------------------
// Decimal numbers
// ---------------------------------------------------------------------------

/// Exponents of ten beyond this magnitude are held at it. Any number whose
/// exponent reaches it is far outside the range of `f64` either way.
pub open spec fn exponent_cap() -> int {
    0x400000000000000000
}

/// An exponent held within `exponent_cap()` either way.
pub open spec fn clamp_exponent(e: int) -> int {
    if e > exponent_cap() {
        exponent_cap()
    } else if e < -exponent_cap() {
        -exponent_cap()
    } else {
        e
    }
}

/// `digits` without its leading zeros.
pub open spec fn strip_leading_zeros(d: Seq<u8>) -> Seq<u8>
    decreases d.len(),
{
    if d.len() > 0 && d[0] == 0 {
        strip_leading_zeros(d.drop_first())
    } else {
        d
    }
}

/// `m * 10^e` against `n * 10^f`, each with a sign; zero carries no sign.
pub open spec fn signed_less(
    a_negative: bool,
    m: int,
    e: int,
    b_negative: bool,
    n: int,
    f: int,
) -> bool {
    let an = a_negative && m != 0;
    let bn = b_negative && n != 0;
    if an && !bn {
        true
    } else if !an && bn {
        false
    } else if an {
        scaled_less(n, f, m, e)
    } else {
        scaled_less(m, e, n, f)
    }
}

/// A decimal number `(-1)^negative * digits * 10^exponent`, with its
/// significant digits held without leading zeros (none at all for zero).
/// The sign is kept for zero too, as `-0.0` keeps it.
#[derive(Debug)]
pub struct Decimal {
    negative: bool,
    digits: Vec<u8>,
    exponent: i128,
}

impl View for Decimal {
    type V = (bool, Seq<u8>, int);

    closed spec fn view(&self) -> (bool, Seq<u8>, int) {
        (self.negative, self.digits@, self.exponent as int)
    }
}

/// The exact value of a decimal view, as sign, integer mantissa and exponent.
pub open spec fn decimal_mantissa(v: (bool, Seq<u8>, int)) -> int {
    digits_value(v.1)
}

/// The strict order of decimal values.
pub open spec fn decimal_less(a: (bool, Seq<u8>, int), b: (bool, Seq<u8>, int)) -> bool {
    signed_less(a.0, decimal_mantissa(a), a.2, b.0, decimal_mantissa(b), b.2)
}

/// The value rounds to a finite `f64`.
pub open spec fn decimal_finite(a: (bool, Seq<u8>, int)) -> bool {
    scaled_less(decimal_mantissa(a), a.2, f64_overflow_threshold(), 0)
}

impl Decimal {
    #[verifier::type_invariant]
    closed spec fn wf(&self) -> bool {
        &&& is_digit_seq(self.digits@)
        &&& no_leading_zero(self.digits@)
        &&& -0x1000000000000000000000 < self.exponent < 0x1000000000000000000000
    }

    /// The sign flag.
    pub fn is_negative(&self) -> (b: bool)
        ensures
            b == self@.0,
    {
        self.negative
    }

    /// The significant digits, most significant first.
    pub fn digits(&self) -> (d: &Vec<u8>)
        ensures
            d@ == self@.1,
    {
        &self.digits
    }

    /// The exponent of ten the digits are scaled by.
    pub fn exponent(&self) -> (e: i128)
        ensures
            e == self@.2,
    {
        self.exponent
    }

    /// The same number, with the sign dropped if it is zero (as an integer
    /// zero carries none).
    pub fn unsigned_zero(self) -> (r: Decimal)
        ensures
            r@ == (self@.0 && self@.1.len() > 0, self@.1, self@.2),
    {
        proof {
            use_type_invariant(&self);
        }
        let negative = self.negative && self.digits.len() > 0;
        Decimal { negative, digits: self.digits, exponent: self.exponent }
    }

    /// The integer `i`, exactly.
    pub fn from_i64(i: i64) -> (d: Decimal)
        ensures
            d@ == int_number(i as int),
    {
        let mag: u64 = if i < 0 {
            (0i128 - i as i128) as u64
        } else {
            i as u64
        };
        let digits = if mag == 0 {
            Vec::new()
        } else {
            u64_digits(mag)
        };
        proof {
            if mag == 0 {
                assert(digits@ =~= nat_digits(0));
            } else {
                lemma_canonical_digits(digits@);
            }
        }
        Decimal { negative: i < 0, digits, exponent: 0 }
    }

    /// A copy of this number.
    pub fn copy(&self) -> (c: Decimal)
        ensures
            c@ == self@,
    {
        proof {
            use_type_invariant(self);
        }
        let mut digits: Vec<u8> = Vec::new();
        let mut i: usize = 0;
        while i < self.digits.len()
            invariant
                i <= self.digits@.len(),
                digits@ == self.digits@.take(i as int),
            decreases self.digits@.len() - i,
        {
            digits.push(self.digits[i]);
            i = i + 1;
            assert(digits@ =~= self.digits@.take(i as int));
        }
        assert(self.digits@.take(self.digits@.len() as int) =~= self.digits@);
        Decimal { negative: self.negative, digits, exponent: self.exponent }
    }

    /// `|self| < |other|`.
    fn magnitude_less(&self, other: &Decimal) -> (r: bool)
        ensures
            r == scaled_less(decimal_mantissa(self@), self@.2, decimal_mantissa(other@), other@.2),
    {
        proof {
            use_type_invariant(self);
            use_type_invariant(other);
            lemma_digits_bounds(self.digits@);
            lemma_digits_bounds(other.digits@);
            lemma_pow10_positive((self@.2 - other@.2) as nat);
            lemma_pow10_positive((other@.2 - self@.2) as nat);
        }
        let n1 = self.digits.len();
        let n2 = other.digits.len();
        if n2 == 0 {
            proof {
                assert(decimal_mantissa(other@) == 0);
                assert(decimal_mantissa(self@) * pow10((self@.2 - other@.2) as nat) >= 0)
                    by (nonlinear_arith)
                    requires
                        decimal_mantissa(self@) >= 0,
                        pow10((self@.2 - other@.2) as nat) >= 1,
                ;
            }
            return false;
        }
        if n1 == 0 {
            proof {
                assert(decimal_mantissa(self@) == 0);
                assert(decimal_mantissa(other@) >= 1);
                assert(0 * pow10((self@.2 - other@.2) as nat) == 0);
                assert(decimal_mantissa(other@) * pow10((other@.2 - self@.2) as nat) >= 1)
                    by (nonlinear_arith)
                    requires
                        decimal_mantissa(other@) >= 1,
                        pow10((other@.2 - self@.2) as nat) >= 1,
                ;
            }
            return true;
        }
        let p1 = n1 as i128 + self.exponent;
        let p2 = n2 as i128 + other.exponent;
        proof {
            lemma_scaled_less_by_position(self.digits@, self@.2, other.digits@, other@.2);
        }
        if p1 < p2 {
            true
        } else if p1 > p2 {
            false
        } else {
            compare_fractions(self.digits.as_slice(), other.digits.as_slice()) < 0
        }
    }

    /// `self < other` as numbers.
    pub fn less(&self, other: &Decimal) -> (r: bool)
        ensures
            r == decimal_less(self@, other@),
    {
        proof {
            use_type_invariant(self);
            use_type_invariant(other);
            lemma_digits_bounds(self.digits@);
            lemma_digits_bounds(other.digits@);
        }
        let an = self.negative && self.digits.len() > 0;
        let bn = other.negative && other.digits.len() > 0;
        if an && !bn {
            true
        } else if !an && bn {
            false
        } else if an {
            other.magnitude_less(self)
        } else {
            self.magnitude_less(other)
        }
    }

    /// Whether the value rounds to a finite `f64`.
    pub fn is_finite(&self) -> (r: bool)
        ensures
            r == decimal_finite(self@),
    {
        proof {
            use_type_invariant(self);
            lemma_digits_bounds(self.digits@);
            lemma_threshold_bounds();
            lemma_pow10_positive(300);
            lemma_pow10_positive((self@.2) as nat);
            lemma_pow10_positive((-self@.2) as nat);
        }
        let n = self.digits.len();
        if n == 0 {
            proof {
                assert(decimal_mantissa(self@) == 0);
                assert(f64_overflow_threshold() * pow10((-self@.2) as nat) >= 1) by (nonlinear_arith)
                    requires
                        f64_overflow_threshold() >= 1,
                        pow10((-self@.2) as nat) >= 1,
                ;
                assert(0 * pow10((self@.2) as nat) == 0);
            }
            return true;
        }
        let p = n as i128 + self.exponent;
        proof {
            lemma_scaled_less_by_bounds(
                decimal_mantissa(self@),
                (n - 1) as nat,
                n as nat,
                self@.2,
                f64_overflow_threshold(),
                300,
                412,
                0,
            );
        }
        if p <= 300 {
            return true;
        }
        if p > 412 {
            return false;
        }
        let t = overflow_threshold_digits();
        proof {
            lemma_scaled_less_by_position(self.digits@, self@.2, t@, 0);
            lemma_digits_bounds(t@);
        }
        let tn = t.len() as i128;
        if p < tn {
            true
        } else if p > tn {
            false
        } else {
            compare_fractions(self.digits.as_slice(), t.as_slice()) < 0
        }
    }
}


// ---------------------------------------------------------------------------
// Decimal text, in the grammar that `f64::from_str` accepts for numbers:
//   Number ::= Sign? ( Digit+ | Digit+ '.' Digit* | Digit* '.' Digit+ ) Exp?
//   Exp    ::= ('e' | 'E') Sign? Digit+
// ---------------------------------------------------------------------------

/// An ASCII decimal digit.
pub open spec fn is_digit_char(c: char) -> bool {
    '0' <= c && c <= '9'
}

/// Every character is an ASCII decimal digit.
pub open spec fn all_digit_chars(s: Seq<char>) -> bool {
    forall|i: int| 0 <= i < s.len() ==> is_digit_char(#[trigger] s[i])
}

/// The digit values of the digit characters `s`.
pub open spec fn char_digits(s: Seq<char>) -> Seq<u8> {
    Seq::new(s.len(), |i: int| ((s[i] as u32) - 48) as u8)
}

/// Length of a leading `+` or `-`.
pub open spec fn sign_len(s: Seq<char>) -> int {
    if s.len() > 0 && (s[0] == '+' || s[0] == '-') {
        1
    } else {
        0
    }
}

/// The mark of an exponent, `e` or `E`.
pub open spec fn is_exp_mark(c: char) -> bool {
    c == 'e' || c == 'E'
}

/// Index of the first `e` or `E` (the length when there is none).
pub open spec fn first_exp_mark(s: Seq<char>) -> int
    decreases s.len(),
{
    if s.len() == 0 {
        0
    } else if is_exp_mark(s[0]) {
        0
    } else {
        1 + first_exp_mark(s.drop_first())
    }
}

/// Index of the first `.` (the length when there is none).
pub open spec fn first_dot(s: Seq<char>) -> int
    decreases s.len(),
{
    if s.len() == 0 {
        0
    } else if s[0] == '.' {
        0
    } else {
        1 + first_dot(s.drop_first())
    }
}

/// The text after the sign.
pub open spec fn float_body(s: Seq<char>) -> Seq<char> {
    s.skip(sign_len(s))
}

/// Digits and point, before the exponent.
pub open spec fn float_mantissa(s: Seq<char>) -> Seq<char> {
    float_body(s).take(first_exp_mark(float_body(s)))
}

/// The digits before the point.
pub open spec fn float_int_part(s: Seq<char>) -> Seq<char> {
    float_mantissa(s).take(first_dot(float_mantissa(s)))
}

/// The digits after the point.
pub open spec fn float_frac_part(s: Seq<char>) -> Seq<char> {
    let m = float_mantissa(s);
    if first_dot(m) < m.len() {
        m.skip(first_dot(m) + 1)
    } else {
        Seq::empty()
    }
}

/// Whether an exponent is written.
pub open spec fn float_has_exponent(s: Seq<char>) -> bool {
    first_exp_mark(float_body(s)) < float_body(s).len()
}

/// The exponent text after `e`, sign included.
pub open spec fn float_exp_text(s: Seq<char>) -> Seq<char> {
    float_body(s).skip(first_exp_mark(float_body(s)) + 1)
}

/// The digits of the written exponent.
pub open spec fn float_exp_digits(s: Seq<char>) -> Seq<char> {
    float_exp_text(s).skip(sign_len(float_exp_text(s)))
}

/// `s` is a number in the grammar of `f64::from_str`.
pub open spec fn float_syntax(s: Seq<char>) -> bool {
    &&& all_digit_chars(float_int_part(s))
    &&& all_digit_chars(float_frac_part(s))
    &&& float_int_part(s).len() + float_frac_part(s).len() > 0
    &&& float_has_exponent(s) ==> float_exp_digits(s).len() > 0 && all_digit_chars(
        float_exp_digits(s),
    )
}

/// Whether the number is written with a `-`.
pub open spec fn float_negative(s: Seq<char>) -> bool {
    s.len() > 0 && s[0] == '-'
}

/// The written exponent.
pub open spec fn float_exponent(s: Seq<char>) -> int {
    if float_has_exponent(s) {
        let v = digits_value(char_digits(float_exp_digits(s)));
        if float_exp_text(s)[0] == '-' {
            -v
        } else {
            v
        }
    } else {
        0
    }
}

/// All mantissa digits, integer and fraction parts together.
pub open spec fn float_mantissa_digits(s: Seq<char>) -> Seq<u8> {
    char_digits(float_int_part(s) + float_frac_part(s))
}

/// The exact value is `mantissa * 10^scale`.
pub open spec fn float_scale(s: Seq<char>) -> int {
    float_exponent(s) - float_frac_part(s).len()
}

/// The number `s` denotes, as a decimal view, with its written exponent held
/// within `exponent_cap()`.
pub open spec fn float_decimal(s: Seq<char>) -> (bool, Seq<u8>, int) {
    (
        float_negative(s),
        strip_leading_zeros(float_mantissa_digits(s)),
        clamp_exponent(float_exponent(s)) - float_frac_part(s).len(),
    )
}

/// `s` parses as an `f64` that is finite: it is a number in the grammar, and
/// its exact value lies below the magnitude that rounds to infinity.
pub open spec fn is_finite_float_text(s: Seq<char>) -> bool {
    &&& float_syntax(s)
    &&& scaled_less(digits_value(float_mantissa_digits(s)), float_scale(s), f64_overflow_threshold(), 0)
}

proof fn lemma_first_bounds(s: Seq<char>)
    ensures
        0 <= first_exp_mark(s) <= s.len(),
        0 <= first_dot(s) <= s.len(),
    decreases s.len(),
{
    if s.len() > 0 {
        lemma_first_bounds(s.drop_first());
    }
}

/// The parts of a number text are no longer than the text.
pub proof fn lemma_float_part_lengths(s: Seq<char>)
    ensures
        float_int_part(s).len() + float_frac_part(s).len() <= s.len(),
{
    lemma_first_bounds(float_body(s));
    lemma_first_bounds(float_mantissa(s));
}

proof fn lemma_first_exp_mark(s: Seq<char>, k: int)
    requires
        0 <= k <= s.len(),
        forall|i: int| 0 <= i < k ==> !is_exp_mark(#[trigger] s[i]),
        k == s.len() || is_exp_mark(s[k]),
    ensures
        first_exp_mark(s) == k,
    decreases k,
{
    if k > 0 {
        lemma_first_exp_mark(s.drop_first(), k - 1);
    }
}

proof fn lemma_first_dot(s: Seq<char>, k: int)
    requires
        0 <= k <= s.len(),
        forall|i: int| 0 <= i < k ==> #[trigger] s[i] != '.',
        k == s.len() || s[k] == '.',
    ensures
        first_dot(s) == k,
    decreases k,
{
    if k > 0 {
        lemma_first_dot(s.drop_first(), k - 1);
    }
}

proof fn lemma_strip_leading_zeros(d: Seq<u8>, k: int)
    requires
        0 <= k <= d.len(),
        forall|i: int| 0 <= i < k ==> #[trigger] d[i] == 0,
        k == d.len() || d[k] != 0,
    ensures
        strip_leading_zeros(d) == d.skip(k),
        digits_value(d.skip(k)) == digits_value(d),
    decreases k,
{
    if k == 0 {
        assert(d.skip(0) =~= d);
    } else {
        lemma_strip_leading_zeros(d.drop_first(), k - 1);
        assert(d.drop_first().skip(k - 1) =~= d.skip(k));
        assert(d =~= seq![d[0]] + d.drop_first());
        lemma_digits_append(seq![d[0]], d.drop_first());
        lemma_digits_single(d[0]);
        assert(0 * pow10(d.drop_first().len()) == 0);
    }
}

/// Whether the characters in `[from, to)` are all digits.
pub fn digit_run(s: &[char], from: usize, to: usize) -> (r: bool)
    requires
        from <= to <= s@.len(),
    ensures
        r == all_digit_chars(s@.subrange(from as int, to as int)),
{
    let mut i = from;
    while i < to
        invariant
            from <= i <= to <= s@.len(),
            forall|j: int| from <= j < i ==> is_digit_char(#[trigger] s@[j]),
        decreases to - i,
    {
        if !('0' <= s[i] && s[i] <= '9') {
            proof {
                assert(!is_digit_char(s@.subrange(from as int, to as int)[i - from]));
            }
            return false;
        }
        i = i + 1;
    }
    proof {
        assert forall|j: int| 0 <= j < to - from implies is_digit_char(
            #[trigger] s@.subrange(from as int, to as int)[j],
        ) by {
            assert(s@.subrange(from as int, to as int)[j] == s@[j + from]);
        }
    }
    true
}

/// Character `k` of the integer digits `[start, d)` followed by the fraction
/// digits `[frac_from, e)`.
fn mantissa_char(s: &[char], start: usize, d: usize, frac_from: usize, e: usize, k: usize) -> (c:
    char)
    requires
        start <= d <= e <= s@.len(),
        d <= frac_from <= e,
        k < (d - start) + (e - frac_from),
    ensures
        c == (s@.subrange(start as int, d as int) + s@.subrange(frac_from as int, e as int))[k as int],
{
    if k < d - start {
        s[start + k]
    } else {
        s[frac_from + (k - (d - start))]
    }
}

/// The value of the exponent digits `[ds, len)`, held just above the cap
/// once it passes it.
fn exponent_digits_value(s: &[char], ds: usize) -> (r: u128)
    requires
        ds <= s@.len(),
        all_digit_chars(s@.subrange(ds as int, s@.len() as int)),
    ensures
        (r > exponent_cap()) == (digits_value(char_digits(s@.subrange(ds as int, s@.len() as int)))
            > exponent_cap()),
        r <= exponent_cap() ==> r == digits_value(
            char_digits(s@.subrange(ds as int, s@.len() as int)),
        ),
{
    let n = s.len();
    let cap: u128 = 0x400000000000000000;
    let mut exp_value: u128 = 0;
    let ghost ed = char_digits(s@.subrange(ds as int, n as int));
    let mut i = ds;
    assert(ed.take(0) =~= Seq::<u8>::empty());
    while i < n
        invariant
            ds <= i <= n == s@.len(),
            ed == char_digits(s@.subrange(ds as int, n as int)),
            all_digit_chars(s@.subrange(ds as int, n as int)),
            cap == exponent_cap(),
            exp_value <= cap * 10 + 9,
            (exp_value > cap) == (digits_value(ed.take(i - ds)) > cap),
            exp_value <= cap ==> exp_value == digits_value(ed.take(i - ds)),
        decreases n - i,
    {
        let ghost k = i - ds;
        assert(is_digit_char(s@.subrange(ds as int, n as int)[k]));
        assert(s@.subrange(ds as int, n as int)[k] == s@[i as int]);
        let dig = ((s[i] as u32) - 48) as u128;
        proof {
            assert(ed.take(k + 1).drop_last() =~= ed.take(k));
            assert(ed[k] == dig);
        }
        if exp_value <= cap {
            exp_value = exp_value * 10 + dig;
        }
        i = i + 1;
    }
    assert(ed.take(n - ds) =~= ed);
    exp_value
}

/// The integer digits `[start, d)` followed by the fraction digits
/// `[frac_from, e)`, as digit values without leading zeros.
fn significant_digits(s: &[char], start: usize, d: usize, frac_from: usize, e: usize) -> (r: Vec<
    u8,
>)
    requires
        start <= d <= e <= s@.len(),
        d <= frac_from <= e,
        all_digit_chars(s@.subrange(start as int, d as int)),
        all_digit_chars(s@.subrange(frac_from as int, e as int)),
    ensures
        r@ == strip_leading_zeros(
            char_digits(s@.subrange(start as int, d as int) + s@.subrange(frac_from as int, e as int)),
        ),
        is_digit_seq(r@),
        no_leading_zero(r@),
{
    let ghost ip = s@.subrange(start as int, d as int);
    let ghost fp = s@.subrange(frac_from as int, e as int);
    let ghost all = char_digits(ip + fp);
    let total = (d - start) + (e - frac_from);
    let mut z: usize = 0;
    while z < total && mantissa_char(s, start, d, frac_from, e, z) == '0'
        invariant
            z <= total == all.len(),
            all == char_digits(ip + fp),
            ip == s@.subrange(start as int, d as int),
            fp == s@.subrange(frac_from as int, e as int),
            start <= d <= e <= s@.len(),
            d <= frac_from <= e,
            total == (d - start) + (e - frac_from),
            forall|i: int| 0 <= i < z ==> #[trigger] all[i] == 0,
        decreases total - z,
    {
        z = z + 1;
    }
    let mut digits: Vec<u8> = Vec::new();
    let mut k = z;
    while k < total
        invariant
            z <= k <= total == all.len(),
            all == char_digits(ip + fp),
            ip == s@.subrange(start as int, d as int),
            fp == s@.subrange(frac_from as int, e as int),
            all_digit_chars(ip),
            all_digit_chars(fp),
            start <= d <= e <= s@.len(),
            d <= frac_from <= e,
            total == (d - start) + (e - frac_from),
            digits@ == all.subrange(z as int, k as int),
        decreases total - k,
    {
        let c = mantissa_char(s, start, d, frac_from, e, k);
        proof {
            if k < d - start {
                assert(is_digit_char(ip[k as int]));
            } else {
                assert(is_digit_char(fp[k - (d - start)]));
            }
        }
        digits.push(((c as u32) - 48) as u8);
        k = k + 1;
        assert(digits@ =~= all.subrange(z as int, k as int));
    }
    proof {
        lemma_strip_leading_zeros(all, z as int);
        assert(all.subrange(z as int, total as int) =~= all.skip(z as int));
        assert forall|i: int| 0 <= i < digits@.len() implies #[trigger] digits@[i] <= 9 by {
            assert(digits@[i] == all[i + z]);
            let j = i + z;
            if j < d - start {
                assert((ip + fp)[j] == ip[j]);
                assert(is_digit_char(ip[j]));
            } else {
                assert((ip + fp)[j] == fp[j - (d - start)]);
                assert(is_digit_char(fp[j - (d - start)]));
            }
        }
        if z < total {
            assert(all[z as int] != 0);
        }
    }
    digits
}

/// Where the parts of a number text lie: `(start, d, frac_from, e)` with the
/// sign before `start`, integer digits in `[start, d)`, fraction digits in
/// `[frac_from, e)`, and the exponent (if any) after `e`.
fn float_layout(s: &[char]) -> (r: (usize, usize, usize, usize))
    ensures
        r.0 == sign_len(s@),
        r.0 <= r.1 <= r.2 <= r.3 <= s@.len(),
        float_int_part(s@) == s@.subrange(r.0 as int, r.1 as int),
        float_frac_part(s@) == s@.subrange(r.2 as int, r.3 as int),
        float_has_exponent(s@) == (r.3 < s@.len()),
        r.3 < s@.len() ==> float_exp_text(s@) == s@.subrange(r.3 + 1, s@.len() as int),
{
    let n = s.len();
    let start: usize = if n > 0 && (s[0] == '+' || s[0] == '-') {
        1
    } else {
        0
    };
    let ghost u = float_body(s@);
    assert(u =~= s@.subrange(start as int, n as int));
    let mut e = start;
    while e < n && !(s[e] == 'e' || s[e] == 'E')
        invariant
            start <= e <= n == s@.len(),
            forall|i: int| start <= i < e ==> !is_exp_mark(#[trigger] s@[i]),
        decreases n - e,
    {
        e = e + 1;
    }
    proof {
        assert forall|i: int| 0 <= i < e - start implies !is_exp_mark(#[trigger] u[i]) by {
            assert(u[i] == s@[i + start]);
        }
        lemma_first_exp_mark(u, e - start);
    }
    let ghost m = float_mantissa(s@);
    assert(m =~= s@.subrange(start as int, e as int));
    let mut d = start;
    while d < e && s[d] != '.'
        invariant
            start <= d <= e <= n == s@.len(),
            forall|i: int| start <= i < d ==> #[trigger] s@[i] != '.',
        decreases e - d,
    {
        d = d + 1;
    }
    proof {
        assert forall|i: int| 0 <= i < d - start implies #[trigger] m[i] != '.' by {
            assert(m[i] == s@[i + start]);
        }
        lemma_first_dot(m, d - start);
    }
    let frac_from = if d < e {
        d + 1
    } else {
        e
    };
    assert(float_int_part(s@) =~= s@.subrange(start as int, d as int));
    assert(float_frac_part(s@) =~= s@.subrange(frac_from as int, e as int));
    if e < n {
        assert(float_exp_text(s@) =~= s@.subrange(e + 1, n as int));
    }
    (start, d, frac_from, e)
}

/// The number `s` denotes, if `s` is a number in the grammar of `f64::from_str`.
pub fn parse_float_text(s: &[char]) -> (r: Option<Decimal>)
    ensures
        r is Some == float_syntax(s@),
        r matches Some(d) ==> d@ == float_decimal(s@),
{
    let n = s.len();
    let (start, d, frac_from, e) = float_layout(s);
    let negative = n > 0 && s[0] == '-';
    if !digit_run(s, start, d) || !digit_run(s, frac_from, e) {
        return None;
    }
    if d - start + (e - frac_from) == 0 {
        return None;
    }
    // the exponent: its sign and value, held at the cap
    let mut exp_value: u128 = 0;
    let mut exp_negative = false;
    if e < n {
        let es = e + 1;
        let ds = if es < n && (s[es] == '+' || s[es] == '-') {
            es + 1
        } else {
            es
        };
        exp_negative = es < n && s[es] == '-';
        proof {
            assert(float_exp_digits(s@) =~= s@.subrange(ds as int, n as int));
        }
        if ds == n || !digit_run(s, ds, n) {
            return None;
        }
        exp_value = exponent_digits_value(s, ds);
    }
    let clamped: i128 = if exp_value > 0x400000000000000000u128 {
        0x400000000000000000i128
    } else {
        exp_value as i128
    };
    let signed_exp: i128 = if exp_negative {
        -clamped
    } else {
        clamped
    };
    proof {
        assert(signed_exp == clamp_exponent(float_exponent(s@)));
    }
    let frac_len = (e - frac_from) as i128;
    let digits = significant_digits(s, start, d, frac_from, e);
    Some(Decimal { negative, digits, exponent: signed_exp - frac_len })
}


/// Holding the exponent at the cap does not change whether a value is below
/// the overflow threshold.
proof fn lemma_clamped_exponent_finite(d: Seq<u8>, x: int, f: int)
    requires
        is_digit_seq(d),
        0 <= f < 0x10000000000000000,
        strip_leading_zeros(d).len() < 0x10000000000000000,
    ensures
        scaled_less(digits_value(d), x - f, f64_overflow_threshold(), 0) == scaled_less(
            digits_value(strip_leading_zeros(d)),
            clamp_exponent(x) - f,
            f64_overflow_threshold(),
            0,
        ),
{
    let sd = strip_leading_zeros(d);
    let k = d.len() - sd.len();
    lemma_strip_prefix(d);
    lemma_threshold_bounds();
    lemma_pow10_positive(300);
    let t = f64_overflow_threshold();
    if clamp_exponent(x) != x {
        if sd.len() == 0 {
            lemma_pow10_positive((-(x - f)) as nat);
            lemma_pow10_positive((-(clamp_exponent(x) - f)) as nat);
            assert(0 * pow10((x - f) as nat) == 0);
            assert(0 * pow10((clamp_exponent(x) - f) as nat) == 0);
            assert(t * pow10((-(x - f)) as nat) >= 1) by (nonlinear_arith)
                requires
                    t >= 1,
                    pow10((-(x - f)) as nat) >= 1,
            ;
            assert(t * pow10((-(clamp_exponent(x) - f)) as nat) >= 1) by (nonlinear_arith)
                requires
                    t >= 1,
                    pow10((-(clamp_exponent(x) - f)) as nat) >= 1,
            ;
        } else {
            let n = sd.len();
            assert(is_digit_seq(sd)) by {
                assert forall|i: int| 0 <= i < sd.len() implies #[trigger] sd[i] <= 9 by {
                    assert(sd[i] == d[i + k]);
                }
            }
            lemma_digits_bounds(sd);
            let m = digits_value(sd);
            lemma_scaled_less_by_bounds(m, (n - 1) as nat, n, x - f, t, 300, 412, 0);
            lemma_scaled_less_by_bounds(
                m,
                (n - 1) as nat,
                n,
                clamp_exponent(x) - f,
                t,
                300,
                412,
                0,
            );
        }
    }
}

proof fn lemma_strip_prefix(d: Seq<u8>)
    ensures
        strip_leading_zeros(d) == d.skip(d.len() - strip_leading_zeros(d).len()),
        digits_value(strip_leading_zeros(d)) == digits_value(d),
        strip_leading_zeros(d).len() <= d.len(),
        no_leading_zero(strip_leading_zeros(d)),
    decreases d.len(),
{
    if d.len() > 0 && d[0] == 0 {
        lemma_strip_prefix(d.drop_first());
        let r = strip_leading_zeros(d.drop_first());
        assert(d.drop_first().skip(d.drop_first().len() - r.len()) =~= d.skip(d.len() - r.len()));
        assert(d =~= seq![d[0]] + d.drop_first());
        lemma_digits_append(seq![d[0]], d.drop_first());
        lemma_digits_single(d[0]);
        assert(0 * pow10(d.drop_first().len()) == 0);
    } else {
        assert(d.skip(0) =~= d);
    }
}

/// Whether `s` parses as a finite `f64` (the test `is_float` applies).
pub fn finite_float_text(s: &[char]) -> (r: bool)
    ensures
        r == is_finite_float_text(s@),
{
    match parse_float_text(s) {
        None => false,
        Some(d) => {
            proof {
                let all = float_mantissa_digits(s@);
                assert(is_digit_seq(all)) by {
                    let ip = float_int_part(s@);
                    let fp = float_frac_part(s@);
                    assert forall|i: int| 0 <= i < all.len() implies #[trigger] all[i] <= 9 by {
                        if i < ip.len() {
                            assert((ip + fp)[i] == ip[i]);
                            assert(is_digit_char(ip[i]));
                        } else {
                            assert((ip + fp)[i] == fp[i - ip.len()]);
                            assert(is_digit_char(fp[i - ip.len()]));
                        }
                    }
                }
                lemma_strip_prefix(all);
                assert(s@.len() == s.len());
                lemma_float_part_lengths(s@);
                lemma_clamped_exponent_finite(
                    all,
                    float_exponent(s@),
                    float_frac_part(s@).len() as int,
                );
            }
            d.is_finite()
        },
    }
}

/// A number text that parses as a finite `f64` denotes a finite decimal.
pub proof fn lemma_float_text_finite(s: Seq<char>)
    requires
        is_finite_float_text(s),
        s.len() < 0x10000000000000000,
    ensures
        decimal_finite(float_decimal(s)),
{
    let all = float_mantissa_digits(s);
    let ip = float_int_part(s);
    let fp = float_frac_part(s);
    assert(is_digit_seq(all)) by {
        assert forall|i: int| 0 <= i < all.len() implies #[trigger] all[i] <= 9 by {
            if i < ip.len() {
                assert((ip + fp)[i] == ip[i]);
                assert(is_digit_char(ip[i]));
            } else {
                assert((ip + fp)[i] == fp[i - ip.len()]);
                assert(is_digit_char(fp[i - ip.len()]));
            }
        }
    }
    lemma_strip_prefix(all);
    lemma_float_part_lengths(s);
    lemma_clamped_exponent_finite(all, float_exponent(s), fp.len() as int);
}

/// The canonical digits of `n` are digits, have no leading zero, and are
/// worth `n`.
pub proof fn lemma_nat_digits_value(n: nat)
    ensures
        digits_value(nat_digits(n)) == n,
        is_digit_seq(nat_digits(n)),
        no_leading_zero(nat_digits(n)),
    decreases n,
{
    if n > 0 {
        lemma_nat_digits_value(n / 10);
        let d = nat_digits(n / 10);
        assert(nat_digits(n).drop_last() =~= d);
        if d.len() > 0 {
            assert(nat_digits(n)[0] == d[0]);
        } else {
            assert(n / 10 == 0) by {
                if n / 10 > 0 {
                    lemma_nat_digits_nonempty((n / 10) as nat);
                }
            }
        }
    }
}

proof fn lemma_nat_digits_nonempty(n: nat)
    requires
        n > 0,
    ensures
        nat_digits(n).len() > 0,
{
}

/// An `i64` is a finite number.
pub proof fn lemma_int_number_finite(i: int)
    requires
        -0x8000_0000_0000_0000 <= i <= 0x7fff_ffff_ffff_ffff,
    ensures
        decimal_finite(int_number(i)),
{
    let m: nat = (if i < 0 { -i } else { i }) as nat;
    lemma_nat_digits_value(m);
    assert(pow10(19) == 10000000000000000000) by {
        reveal_with_fuel(pow10, 20);
    }
    lemma_pow10_increases(19, 300);
    lemma_threshold_bounds();
    assert(pow10(0) == 1);
}

/// Digits are worth at least zero.
pub proof fn lemma_digits_value_nonneg(s: Seq<u8>)
    ensures
        digits_value(s) >= 0,
    decreases s.len(),
{
    if s.len() > 0 {
        lemma_digits_value_nonneg(s.drop_last());
    }
}

/// The value of a decimal view in units of `10^k`, signed (a zero has no
/// sign), for `k` at most its exponent.
pub open spec fn scaled_value(v: (bool, Seq<u8>, int), k: int) -> int {
    let m = digits_value(v.1) * pow10((v.2 - k) as nat);
    if v.0 && digits_value(v.1) != 0 {
        -m
    } else {
        m
    }
}

/// `m * 10^e1 < n * 10^e2` compares the two in units of `10^k` for any `k`
/// at most both exponents.
proof fn lemma_scaled_less_common(m: int, e1: int, n: int, e2: int, k: int)
    requires
        m >= 0,
        n >= 0,
        k <= e1,
        k <= e2,
    ensures
        scaled_less(m, e1, n, e2) == (m * pow10((e1 - k) as nat) < n * pow10((e2 - k) as nat)),
{
    if e1 >= e2 {
        let d = (e1 - e2) as nat;
        let p = (e2 - k) as nat;
        lemma_pow10_adds(d, p);
        lemma_pow10_positive(p);
        assert(d + p == (e1 - k) as nat);
        assert((m * pow10(d) < n) == (m * pow10(d) * pow10(p) < n * pow10(p))) by (nonlinear_arith)
            requires
                pow10(p) > 0,
        ;
        assert(m * pow10(d) * pow10(p) == m * (pow10(d) * pow10(p))) by (nonlinear_arith);
    } else {
        let d = (e2 - e1) as nat;
        let p = (e1 - k) as nat;
        lemma_pow10_adds(d, p);
        lemma_pow10_positive(p);
        assert(d + p == (e2 - k) as nat);
        assert((m < n * pow10(d)) == (m * pow10(p) < n * pow10(d) * pow10(p))) by (nonlinear_arith)
            requires
                pow10(p) > 0,
        ;
        assert(n * pow10(d) * pow10(p) == n * (pow10(d) * pow10(p))) by (nonlinear_arith);
    }
}

/// The order of decimal views is the order of their values in units of
/// `10^k`, for any `k` at most both exponents.
pub proof fn lemma_decimal_less_values(a: (bool, Seq<u8>, int), b: (bool, Seq<u8>, int), k: int)
    requires
        k <= a.2,
        k <= b.2,
    ensures
        decimal_less(a, b) == (scaled_value(a, k) < scaled_value(b, k)),
{
    lemma_digits_value_nonneg(a.1);
    lemma_digits_value_nonneg(b.1);
    let m = digits_value(a.1);
    let n = digits_value(b.1);
    let pa = pow10((a.2 - k) as nat);
    let pb = pow10((b.2 - k) as nat);
    lemma_pow10_positive((a.2 - k) as nat);
    lemma_pow10_positive((b.2 - k) as nat);
    assert(m * pa >= 0 && (m != 0 ==> m * pa > 0)) by (nonlinear_arith)
        requires
            m >= 0,
            pa > 0,
    ;
    assert(n * pb >= 0 && (n != 0 ==> n * pb > 0)) by (nonlinear_arith)
        requires
            n >= 0,
            pb > 0,
    ;
    lemma_scaled_less_common(m, a.2, n, b.2, k);
    lemma_scaled_less_common(n, b.2, m, a.2, k);
}

/// The order of decimals is transitive.
pub proof fn lemma_decimal_less_transitive(
    a: (bool, Seq<u8>, int),
    b: (bool, Seq<u8>, int),
    c: (bool, Seq<u8>, int),
)
    requires
        decimal_less(a, b),
        decimal_less(b, c),
    ensures
        decimal_less(a, c),
{
    let k0 = if a.2 <= b.2 { a.2 } else { b.2 };
    let k = if k0 <= c.2 { k0 } else { c.2 };
    lemma_decimal_less_values(a, b, k);
    lemma_decimal_less_values(b, c, k);
    lemma_decimal_less_values(a, c, k);
}

/// Of two decimals, one is below the other, or neither is: they have the
/// same value.
pub proof fn lemma_decimal_less_total(a: (bool, Seq<u8>, int), b: (bool, Seq<u8>, int))
    ensures
        decimal_less(a, b) || decimal_less(b, a) || ({
            let k = if a.2 <= b.2 { a.2 } else { b.2 };
            scaled_value(a, k) == scaled_value(b, k)
        }),
{
    let k = if a.2 <= b.2 { a.2 } else { b.2 };
    lemma_decimal_less_values(a, b, k);
    lemma_decimal_less_values(b, a, k);
}

} // verus!
