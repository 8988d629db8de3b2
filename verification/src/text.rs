//! Character-level helpers shared by the parsers: decoding a `str` into its
//! characters, Unicode white space, and trimming.
use vstd::prelude::*;

verus! {

broadcast use vstd::string::group_string_axioms;

/// The characters of `s`, in order.
pub fn chars_of(s: &str) -> (out: Vec<char>)
    ensures
        out@ == s@,
{
    let mut out: Vec<char> = Vec::new();
    let mut it = s.chars();
    assert(vstd::std_specs::iter::IteratorSpec::remaining(&it) == s@);
    loop
        invariant
            out@ + vstd::std_specs::iter::IteratorSpec::remaining(&it) == s@,
            vstd::std_specs::iter::IteratorSpec::decrease(&it) is Some,
            vstd::std_specs::iter::IteratorSpec::obeys_prophetic_iter_laws(&it),
        ensures
            out@ == s@,
        decreases vstd::std_specs::iter::IteratorSpec::decrease(&it)->0,
    {
        match it.next() {
            Some(c) => {
                out.push(c);
            },
            None => {
                assert(out@ + vstd::std_specs::iter::IteratorSpec::remaining(&it) =~= out@);
                break;
            },
        }
    }
    out
}

} // verus!

verus! {

/// Unicode `White_Space` (the property behind `char::is_whitespace` and `str::trim`).
pub open spec fn is_white_space(c: char) -> bool {
    ||| ('\u{9}' <= c && c <= '\u{d}')
    ||| c == ' '
    ||| c == '\u{85}'
    ||| c == '\u{a0}'
    ||| c == '\u{1680}'
    ||| ('\u{2000}' <= c && c <= '\u{200a}')
    ||| c == '\u{2028}'
    ||| c == '\u{2029}'
    ||| c == '\u{202f}'
    ||| c == '\u{205f}'
    ||| c == '\u{3000}'
}

/// Whether `c` is white space in the sense of Unicode `White_Space`.
pub fn white_space(c: char) -> (b: bool)
    ensures
        b == is_white_space(c),
{
    ('\u{9}' <= c && c <= '\u{d}') || c == ' ' || c == '\u{85}' || c == '\u{a0}' || c == '\u{1680}'
        || ('\u{2000}' <= c && c <= '\u{200a}') || c == '\u{2028}' || c == '\u{2029}' || c
        == '\u{202f}' || c == '\u{205f}' || c == '\u{3000}'
}

/// Number of white-space characters at the front of `s`.
pub open spec fn leading_space(s: Seq<char>) -> nat
    decreases s.len(),
{
    if s.len() > 0 && is_white_space(s[0]) {
        1 + leading_space(s.drop_first())
    } else {
        0
    }
}

/// Number of white-space characters at the back of `s`.
pub open spec fn trailing_space(s: Seq<char>) -> nat
    decreases s.len(),
{
    if s.len() > 0 && is_white_space(s.last()) {
        1 + trailing_space(s.drop_last())
    } else {
        0
    }
}

/// `s` without leading and trailing white space, as `str::trim` gives it.
pub open spec fn trimmed(s: Seq<char>) -> Seq<char> {
    let rest = s.skip(leading_space(s) as int);
    rest.take(rest.len() - trailing_space(rest))
}

proof fn lemma_leading_space_le(s: Seq<char>)
    ensures
        leading_space(s) <= s.len(),
    decreases s.len(),
{
    if s.len() > 0 && is_white_space(s[0]) {
        lemma_leading_space_le(s.drop_first());
    }
}

proof fn lemma_trailing_space_le(s: Seq<char>)
    ensures
        trailing_space(s) <= s.len(),
    decreases s.len(),
{
    if s.len() > 0 && is_white_space(s.last()) {
        lemma_trailing_space_le(s.drop_last());
    }
}

/// Trimming never lengthens a text.
pub proof fn lemma_trimmed_len(s: Seq<char>)
    ensures
        trimmed(s).len() <= s.len(),
{
    lemma_leading_space_le(s);
    let rest = s.skip(leading_space(s) as int);
    lemma_trailing_space_le(rest);
}

/// Whether every character of `s` is white space (so that `trimmed(s)` is empty).
pub open spec fn all_space(s: Seq<char>) -> bool {
    forall|i: int| 0 <= i < s.len() ==> is_white_space(#[trigger] s[i])
}

/// `k` white-space characters, then none: the leading space is `k`.
pub proof fn lemma_leading_space(s: Seq<char>, k: int)
    requires
        0 <= k <= s.len(),
        forall|i: int| 0 <= i < k ==> is_white_space(#[trigger] s[i]),
        k == s.len() || !is_white_space(s[k]),
    ensures
        leading_space(s) == k,
    decreases k,
{
    if k > 0 {
        lemma_leading_space(s.drop_first(), k - 1);
    }
}

/// `k` white-space characters at the end, before none: the trailing space is `k`.
pub proof fn lemma_trailing_space(s: Seq<char>, k: int)
    requires
        0 <= k <= s.len(),
        forall|i: int| s.len() - k <= i < s.len() ==> is_white_space(#[trigger] s[i]),
        k == s.len() || !is_white_space(s[s.len() - k - 1]),
    ensures
        trailing_space(s) == k,
    decreases k,
{
    if k > 0 {
        lemma_trailing_space(s.drop_last(), k - 1);
    }
}

/// Bounds `(lo, hi)` of `s` with its surrounding white space removed.
pub fn trim_bounds(s: &[char]) -> (r: (usize, usize))
    ensures
        r.0 <= r.1 <= s@.len(),
        r.0 == leading_space(s@),
        s@.subrange(r.0 as int, r.1 as int) == trimmed(s@),
        (r.0 == r.1) == all_space(s@),
{
    let n = s.len();
    let mut lo: usize = 0;
    while lo < n && white_space(s[lo])
        invariant
            lo <= n == s@.len(),
            forall|i: int| 0 <= i < lo ==> is_white_space(#[trigger] s@[i]),
        decreases n - lo,
    {
        lo = lo + 1;
    }
    proof {
        lemma_leading_space(s@, lo as int);
    }
    let mut hi: usize = n;
    while hi > lo && white_space(s[hi - 1])
        invariant
            lo <= hi <= n == s@.len(),
            forall|i: int| hi <= i < n ==> is_white_space(#[trigger] s@[i]),
        decreases hi,
    {
        hi = hi - 1;
    }
    proof {
        let rest = s@.skip(lo as int);
        assert forall|i: int| rest.len() - (n - hi) <= i < rest.len() implies is_white_space(
            #[trigger] rest[i],
        ) by {
            assert(rest[i] == s@[i + lo]);
        }
        if lo < hi {
            assert(rest[rest.len() - (n - hi) - 1] == s@[hi - 1]);
        }
        lemma_trailing_space(rest, (n - hi) as int);
        assert(rest.take(rest.len() - (n - hi)) =~= s@.subrange(lo as int, hi as int));
        if lo == hi && lo < n {
            assert(!is_white_space(s@[lo as int]));
        }
        if lo < hi {
            assert(!is_white_space(s@[lo as int]));
        }
    }
    (lo, hi)
}

/// `s` with its surrounding white space removed.
pub fn trim_chars(s: &[char]) -> (t: Vec<char>)
    ensures
        t@ == trimmed(s@),
{
    let (lo, hi) = trim_bounds(s);
    let mut t: Vec<char> = Vec::new();
    let mut i = lo;
    while i < hi
        invariant
            lo <= i <= hi <= s@.len(),
            t@ == s@.subrange(lo as int, i as int),
        decreases hi - i,
    {
        t.push(s[i]);
        i = i + 1;
        assert(t@ =~= s@.subrange(lo as int, i as int));
    }
    t
}

} // verus!

verus! {

/// `pat` occurs in `s`.
pub open spec fn contains_text(s: Seq<char>, pat: Seq<char>) -> bool {
    exists|i: int| 0 <= i && i + pat.len() <= s.len() && #[trigger] s.subrange(i, i + pat.len()) == pat
}

/// Append `c` to `s` (`String::push`).
#[verifier::external_body]
pub(crate) fn push_char(s: &mut String, c: char)
    ensures
        final(s)@ == old(s)@.push(c),
{
    s.push(c);
}

/// Whether `pat` occurs in `s`.
pub fn find_text(s: &[char], pat: &[char]) -> (r: bool)
    ensures
        r == contains_text(s@, pat@),
{
    let n = s.len();
    let m = pat.len();
    if m > n {
        proof {
            assert forall|i: int| 0 <= i && i + pat@.len() <= s@.len() implies #[trigger] s@.subrange(
                i,
                i + pat@.len(),
            ) != pat@ by {}
        }
        return false;
    }
    let mut i: usize = 0;
    while i <= n - m
        invariant
            m <= n,
            n == s@.len(),
            m == pat@.len(),
            forall|k: int| 0 <= k < i ==> #[trigger] s@.subrange(k, k + m) != pat@,
        decreases n - i,
    {
        let mut j: usize = 0;
        while j < m && s[i + j] == pat[j]
            invariant
                j <= m,
                i + m <= n,
                n == s@.len(),
                m == pat@.len(),
                forall|k: int| 0 <= k < j ==> s@[i + k] == pat@[k],
            decreases m - j,
        {
            j = j + 1;
        }
        if j == m {
            proof {
                assert(s@.subrange(i as int, i + m) =~= pat@);
            }
            return true;
        }
        proof {
            assert(s@.subrange(i as int, i + m)[j as int] != pat@[j as int]);
        }
        i = i + 1;
    }
    proof {
        assert forall|k: int| 0 <= k && k + pat@.len() <= s@.len() implies #[trigger] s@.subrange(
            k,
            k + pat@.len(),
        ) != pat@ by {
            assert(k < i);
        }
    }
    false
}


// ---------------------------------------------------------------------------
// Lines, as `str::lines` splits a text
// ---------------------------------------------------------------------------

/// Index of the first `\n` in `s` (its length when there is none).
pub open spec fn first_newline(s: Seq<char>) -> int
    decreases s.len(),
{
    if s.len() == 0 {
        0
    } else if s[0] == '\n' {
        0
    } else {
        1 + first_newline(s.drop_first())
    }
}

/// A line without the `\r` of a `\r\n` ending.
pub open spec fn strip_cr(l: Seq<char>) -> Seq<char> {
    if l.len() > 0 && l.last() == '\r' {
        l.drop_last()
    } else {
        l
    }
}

/// The lines of `s`, as `str::lines` gives them: split at `\n`, a `\r`
/// before the `\n` dropped, and no empty line after a final `\n`.
pub open spec fn text_lines(s: Seq<char>) -> Seq<Seq<char>>
    decreases s.len(),
{
    if s.len() == 0 {
        Seq::empty()
    } else {
        let k = first_newline(s);
        if k >= s.len() || k < 0 {
            seq![s]
        } else {
            seq![strip_cr(s.take(k))] + text_lines(s.skip(k + 1))
        }
    }
}

/// The first `\n` lies within the text, and none comes before it.
pub proof fn lemma_first_newline_bounds(s: Seq<char>)
    ensures
        0 <= first_newline(s) <= s.len(),
        first_newline(s) < s.len() ==> s[first_newline(s)] == '\n',
        forall|i: int| 0 <= i < first_newline(s) ==> #[trigger] s[i] != '\n',
    decreases s.len(),
{
    if s.len() > 0 && s[0] != '\n' {
        lemma_first_newline_bounds(s.drop_first());
        assert forall|i: int| 0 <= i < first_newline(s) implies #[trigger] s[i] != '\n' by {
            if i > 0 {
                assert(s[i] == s.drop_first()[i - 1]);
            }
        }
    }
}

/// No `\n` before `k`, and one at `k` (or the end): the first is at `k`.
pub proof fn lemma_first_newline_at(s: Seq<char>, k: int)
    requires
        0 <= k <= s.len(),
        forall|i: int| 0 <= i < k ==> #[trigger] s[i] != '\n',
        k == s.len() || s[k] == '\n',
    ensures
        first_newline(s) == k,
    decreases k,
{
    if k > 0 {
        lemma_first_newline_at(s.drop_first(), k - 1);
    }
}

/// Lines of a text that ends with `\n` followed by more text.
pub proof fn lemma_text_lines_append(p: Seq<char>, q: Seq<char>)
    requires
        p.len() > 0,
        p.last() == '\n',
    ensures
        text_lines(p + q) == text_lines(p) + text_lines(q),
    decreases p.len(),
{
    lemma_first_newline_bounds(p);
    lemma_first_newline_bounds(p + q);
    let k = first_newline(p);
    assert(k < p.len()) by {
        if k == p.len() {
            assert(p[p.len() - 1] != '\n');
        }
    }
    assert forall|i: int| 0 <= i < k implies #[trigger] (p + q)[i] != '\n' by {
        assert((p + q)[i] == p[i]);
    }
    lemma_first_newline_at(p + q, k);
    assert((p + q).take(k) =~= p.take(k));
    if k == p.len() - 1 {
        assert((p + q).skip(k + 1) =~= q);
        assert(p.skip(k + 1) =~= Seq::<char>::empty());
        assert(text_lines(p.skip(k + 1)) =~= Seq::<Seq<char>>::empty());
        assert(text_lines(p) =~= seq![strip_cr(p.take(k))]);
    } else {
        let p1 = p.skip(k + 1);
        assert((p + q).skip(k + 1) =~= p1 + q);
        assert(p1.last() == '\n');
        lemma_text_lines_append(p1, q);
        assert(text_lines(p + q) =~= seq![strip_cr(p.take(k))] + (text_lines(p1) + text_lines(q)));
    }
}

/// A single line without `\n`.
pub proof fn lemma_text_lines_single(l: Seq<char>)
    requires
        l.len() > 0,
        forall|i: int| 0 <= i < l.len() ==> #[trigger] l[i] != '\n',
    ensures
        text_lines(l) == seq![l],
{
    lemma_first_newline_at(l, l.len() as int);
}

/// A single line ended by `\n`.
pub proof fn lemma_text_lines_terminated(l: Seq<char>)
    requires
        forall|i: int| 0 <= i < l.len() ==> #[trigger] l[i] != '\n',
    ensures
        text_lines(l.push('\n')) == seq![strip_cr(l)],
{
    let s = l.push('\n');
    assert forall|i: int| 0 <= i < l.len() implies #[trigger] s[i] != '\n' by {
        assert(s[i] == l[i]);
    }
    lemma_first_newline_at(s, l.len() as int);
    assert(s.take(l.len() as int) =~= l);
    assert(s.skip(l.len() as int + 1) =~= Seq::<char>::empty());
    assert(text_lines(Seq::<char>::empty()) =~= Seq::<Seq<char>>::empty());
    assert(text_lines(s) =~= seq![strip_cr(l)]);
}

/// Append the characters `[from, to)` of `s` to `out`.
pub fn push_range(out: &mut String, s: &[char], from: usize, to: usize)
    requires
        from <= to <= s@.len(),
    ensures
        final(out)@ == old(out)@ + s@.subrange(from as int, to as int),
{
    let ghost start = out@;
    let mut i = from;
    while i < to
        invariant
            from <= i <= to <= s@.len(),
            out@ == start + s@.subrange(from as int, i as int),
        decreases to - i,
    {
        push_char(out, s[i]);
        i = i + 1;
        assert(out@ =~= start + s@.subrange(from as int, i as int));
    }
}

/// The characters `[from, to)` of `s`.
pub fn copy_range(s: &[char], from: usize, to: usize) -> (out: Vec<char>)
    requires
        from <= to <= s@.len(),
    ensures
        out@ == s@.subrange(from as int, to as int),
{
    let mut out: Vec<char> = Vec::new();
    let mut i = from;
    while i < to
        invariant
            from <= i <= to <= s@.len(),
            out@ == s@.subrange(from as int, i as int),
        decreases to - i,
    {
        out.push(s[i]);
        i = i + 1;
        assert(out@ =~= s@.subrange(from as int, i as int));
    }
    out
}

/// The UTF-8 encoding of a concatenation is the concatenation of the
/// encodings.
pub proof fn lemma_bytes_concat(a: Seq<char>, b: Seq<char>)
    ensures
        vstd::utf8::encode_utf8(a + b) == vstd::utf8::encode_utf8(a) + vstd::utf8::encode_utf8(b),
    decreases a.len(),
{
    if a.len() == 0 {
        assert(a + b =~= b);
        assert(vstd::utf8::encode_utf8(a) =~= Seq::<u8>::empty());
        assert(vstd::utf8::encode_utf8(a) + vstd::utf8::encode_utf8(b) =~= vstd::utf8::encode_utf8(b));
    } else {
        assert((a + b).drop_first() =~= a.drop_first() + b);
        assert((a + b)[0] == a[0]);
        lemma_bytes_concat(a.drop_first(), b);
        assert(vstd::utf8::encode_utf8(a + b) =~= vstd::utf8::encode_scalar(a[0] as u32) + (
        vstd::utf8::encode_utf8(a.drop_first()) + vstd::utf8::encode_utf8(b)));
    }
}

/// Each character takes at least one byte.
pub proof fn lemma_bytes_at_least(a: Seq<char>)
    ensures
        vstd::utf8::encode_utf8(a).len() >= a.len(),
    decreases a.len(),
{
    if a.len() > 0 {
        lemma_bytes_at_least(a.drop_first());
    }
}

/// A part of a text takes no more bytes than the text.
pub proof fn lemma_bytes_subrange(s: Seq<char>, i: int, j: int)
    requires
        0 <= i <= j <= s.len(),
    ensures
        vstd::utf8::encode_utf8(s.subrange(i, j)).len() <= vstd::utf8::encode_utf8(s).len(),
        vstd::utf8::encode_utf8(s.take(j)).len() == vstd::utf8::encode_utf8(s.take(i)).len()
            + vstd::utf8::encode_utf8(s.subrange(i, j)).len(),
{
    assert(s =~= s.take(i) + s.subrange(i, j) + s.skip(j));
    lemma_bytes_concat(s.take(i) + s.subrange(i, j), s.skip(j));
    lemma_bytes_concat(s.take(i), s.subrange(i, j));
    assert(s.take(j) =~= s.take(i) + s.subrange(i, j));
}

/// The span `(a, b, n)` holds line `l` of `s`: the line is `s[a, b)`, and
/// the text after it starts at `n`.
pub open spec fn span_is(s: Seq<char>, sp: (usize, usize, usize), l: Seq<char>) -> bool {
    &&& sp.0 <= sp.1 <= sp.2 <= s.len()
    &&& s.subrange(sp.0 as int, sp.1 as int) == l
}

/// Span `k` starts where the one before it left off (the first at 0).
pub open spec fn spans_chained(r: Seq<(usize, usize, usize)>, k: int) -> bool {
    r[k].0 == (if k == 0 {
        0
    } else {
        r[k - 1].2 as int
    })
}

/// Lines up to a `\n` at `i`: the last one runs from `start` to `i`, less a
/// `\r` before the `\n`.
proof fn lemma_lines_step(s: Seq<char>, start: int, i: int, end: int)
    requires
        0 <= start <= i < s.len(),
        s[i] == '\n',
        start == 0 || s[start - 1] == '\n',
        forall|k: int| start <= k < i ==> #[trigger] s[k] != '\n',
        end == (if i > start && s[i - 1] == '\r' {
            i - 1
        } else {
            i
        }),
    ensures
        text_lines(s.take(i + 1)) == text_lines(s.take(start)).push(s.subrange(start, end)),
{
    let prefix = s.take(start);
    let seg = s.subrange(start, i);
    assert forall|k: int| 0 <= k < seg.len() implies #[trigger] seg[k] != '\n' by {
        assert(seg[k] == s[start + k]);
    }
    lemma_text_lines_terminated(seg);
    assert(s.take(i + 1) =~= prefix + seg.push('\n'));
    if start > 0 {
        assert(prefix.last() == '\n');
        lemma_text_lines_append(prefix, seg.push('\n'));
    } else {
        assert(prefix + seg.push('\n') =~= seg.push('\n'));
        assert(text_lines(prefix) =~= Seq::<Seq<char>>::empty());
    }
    assert(strip_cr(seg) =~= s.subrange(start, end));
    assert(text_lines(s.take(i + 1)) =~= text_lines(prefix).push(strip_cr(seg)));
}

/// The lines of a text whose last line, from `start`, has no `\n`.
proof fn lemma_lines_last(s: Seq<char>, start: int)
    requires
        0 <= start < s.len(),
        start == 0 || s[start - 1] == '\n',
        forall|k: int| start <= k < s.len() ==> #[trigger] s[k] != '\n',
    ensures
        text_lines(s) == text_lines(s.take(start)).push(s.subrange(start, s.len() as int)),
{
    let prefix = s.take(start);
    let rest = s.skip(start);
    assert forall|k: int| 0 <= k < rest.len() implies #[trigger] rest[k] != '\n' by {
        assert(rest[k] == s[start + k]);
    }
    lemma_text_lines_single(rest);
    assert(s =~= prefix + rest);
    if start > 0 {
        assert(prefix.last() == '\n');
        lemma_text_lines_append(prefix, rest);
    } else {
        assert(prefix + rest =~= rest);
        assert(text_lines(prefix) =~= Seq::<Seq<char>>::empty());
    }
    assert(rest =~= s.subrange(start, s.len() as int));
    assert(text_lines(s) =~= text_lines(prefix).push(rest));
}

/// The lines of `s` (see `text_lines`) by their character ranges `(a, b, n)`:
/// the line is `s[a, b)`, and the text after it starts at `n`, past the
/// `\n` that ends it, if any.
#[verifier::rlimit(40)]
pub fn line_spans(s: &[char]) -> (r: Vec<(usize, usize, usize)>)
    ensures
        r@.len() == text_lines(s@).len(),
        forall|k: int| 0 <= k < r@.len() ==> span_is(s@, #[trigger] r@[k], text_lines(s@)[k]),
        forall|k: int| 0 <= k < r@.len() ==> #[trigger] spans_chained(r@, k),
        forall|k: int| 0 <= k < r@.len() - 1 ==> (#[trigger] r@[k]).1 < r@[k].2,
        r@.len() > 0 ==> r@.last().2 == s@.len(),
{
    let n = s.len();
    let mut r: Vec<(usize, usize, usize)> = Vec::new();
    let mut start: usize = 0;
    let mut i: usize = 0;
    let ghost mut lines: Seq<Seq<char>> = Seq::empty();
    assert(s@.take(0) =~= Seq::<char>::empty());
    assert(text_lines(Seq::<char>::empty()) =~= Seq::<Seq<char>>::empty());
    while i < n
        invariant
            start <= i <= n == s@.len(),
            start == 0 || s@[start - 1] == '\n',
            forall|k: int| start <= k < i ==> #[trigger] s@[k] != '\n',
            lines == text_lines(s@.take(start as int)),
            r@.len() == lines.len(),
            start == (if r@.len() == 0 {
                0
            } else {
                r@.last().2 as int
            }),
            forall|k: int| 0 <= k < r@.len() ==> span_is(s@, #[trigger] r@[k], lines[k]),
            forall|k: int| 0 <= k < r@.len() ==> #[trigger] spans_chained(r@, k),
            forall|k: int| 0 <= k < r@.len() ==> (#[trigger] r@[k]).1 < r@[k].2,
        decreases n - i,
    {
        if s[i] == '\n' {
            let end = if i > start && s[i - 1] == '\r' {
                i - 1
            } else {
                i
            };
            proof {
                lemma_lines_step(s@, start as int, i as int, end as int);
                lines = lines.push(s@.subrange(start as int, end as int));
            }
            let ghost old_r = r@;
            r.push((start, end, i + 1));
            proof {
                assert forall|k: int| 0 <= k < r@.len() implies #[trigger] spans_chained(r@, k) by {
                    if k < old_r.len() {
                        assert(spans_chained(old_r, k));
                    }
                }
            }
            start = i + 1;
        }
        i = i + 1;
    }
    if start < n {
        proof {
            lemma_lines_last(s@, start as int);
            lines = lines.push(s@.subrange(start as int, n as int));
        }
        let ghost old_r = r@;
        r.push((start, n, n));
        proof {
            assert forall|k: int| 0 <= k < r@.len() implies #[trigger] spans_chained(r@, k) by {
                if k < old_r.len() {
                    assert(spans_chained(old_r, k));
                }
            }
        }
    } else {
        assert(s@.take(start as int) =~= s@);
    }
    r
}

} // verus!
