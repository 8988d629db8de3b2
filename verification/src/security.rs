//! Input validation and output sanitization.
//!
//! Layers applied before any parsing:
//!   1. byte cap on the caller's side
//!   2. byte cap + empty/NUL check          <- validate_input
//!   3. row / col / cell caps                <- enforced in parsers
//!   4. purity guarantee                     <- PurityGuarantee::affirm
//!   5. output sanitization                  <- sanitize_output
use vstd::prelude::*;
use crate::number::{decimal_finite, decimal_less, Decimal};
use crate::stats::option_view;
use crate::text::{all_space, chars_of, trim_bounds};
use crate::{ColumnMeta, InferredType, Ratio, SchemaError, SchemaOutput};

verus! {

/// 10 MB hard cap.
pub const RUST_BYTE_CAP: usize = 10485760;

/// Index of the first zero byte of `b` (its length when there is none).
pub open spec fn first_zero_byte(b: Seq<u8>) -> int
    decreases b.len(),
{
    if b.len() == 0 {
        0
    } else if b[0] == 0 {
        0
    } else {
        1 + first_zero_byte(b.drop_first())
    }
}

/// What `validate_input` answers for a text: too large, empty (white space
/// only), or holding a NUL byte, checked in that order.
pub open spec fn input_check(s: Seq<char>) -> Result<(), SchemaError> {
    let b = vstd::utf8::encode_utf8(s);
    if b.len() > RUST_BYTE_CAP {
        Err(SchemaError::InputTooLarge { limit_bytes: RUST_BYTE_CAP, actual_bytes: b.len() as usize })
    } else if all_space(s) {
        Err(SchemaError::EmptyInput)
    } else if first_zero_byte(b) < b.len() {
        Err(SchemaError::EncodingError { byte_offset: Some(first_zero_byte(b) as usize) })
    } else {
        Ok(())
    }
}

proof fn lemma_first_zero_byte(b: Seq<u8>, k: int)
    requires
        0 <= k <= b.len(),
        forall|i: int| 0 <= i < k ==> #[trigger] b[i] != 0,
        k == b.len() || b[k] == 0,
    ensures
        first_zero_byte(b) == k,
    decreases k,
{
    if k > 0 {
        lemma_first_zero_byte(b.drop_first(), k - 1);
    }
}

/// The cap is on bytes: a text is too large exactly when its UTF-8
/// encoding is longer than `RUST_BYTE_CAP` bytes, and the error then gives
/// the cap and that byte length.
pub proof fn lemma_byte_cap(s: Seq<char>)
    ensures
        (input_check(s) matches Err(SchemaError::InputTooLarge { .. })) == (vstd::utf8::encode_utf8(s).len()
            > RUST_BYTE_CAP),
        vstd::utf8::encode_utf8(s).len() > RUST_BYTE_CAP ==> input_check(s) == Err::<(), SchemaError>(
            SchemaError::InputTooLarge {
                limit_bytes: RUST_BYTE_CAP,
                actual_bytes: vstd::utf8::encode_utf8(s).len() as usize,
            },
        ),
{
}

/// A NUL byte is found exactly when the bytes hold one, and the error gives
/// the offset of the first: a zero byte there, none before it.
pub proof fn lemma_nul_offset(b: Seq<u8>)
    ensures
        0 <= first_zero_byte(b) <= b.len(),
        (first_zero_byte(b) < b.len()) == (exists|i: int| 0 <= i < b.len() && b[i] == 0),
        first_zero_byte(b) < b.len() ==> b[first_zero_byte(b)] == 0,
        forall|i: int| 0 <= i < first_zero_byte(b) ==> b[i] != 0,
    decreases b.len(),
{
    if b.len() > 0 && b[0] != 0 {
        let t = b.drop_first();
        lemma_nul_offset(t);
        assert forall|i: int| 0 <= i < first_zero_byte(b) implies b[i] != 0 by {
            if i > 0 {
                assert(b[i] == t[i - 1]);
            }
        }
        if exists|i: int| 0 <= i < b.len() && b[i] == 0 {
            let i = choose|i: int| 0 <= i < b.len() && b[i] == 0;
            assert(t[i - 1] == 0);
        }
        if first_zero_byte(t) < t.len() {
            assert(b[first_zero_byte(b)] == t[first_zero_byte(t)]);
        }
    } else if b.len() > 0 {
        assert(b[0] == 0);
    }
}

/// Reject oversized, empty, or NUL-containing input before parsing.
pub fn validate_input(input: &str) -> (r: Result<(), SchemaError>)
    ensures
        r == input_check(input@),
        (r matches Err(SchemaError::InputTooLarge { .. })) == (vstd::utf8::encode_utf8(input@).len()
            > RUST_BYTE_CAP),
        r matches Err(SchemaError::InputTooLarge { limit_bytes, actual_bytes }) ==> limit_bytes
            == RUST_BYTE_CAP && actual_bytes == vstd::utf8::encode_utf8(input@).len(),
{
    proof {
        lemma_byte_cap(input@);
    }
    let bytes = input.as_bytes();
    if bytes.len() > RUST_BYTE_CAP {
        return Err(SchemaError::InputTooLarge { limit_bytes: RUST_BYTE_CAP, actual_bytes: bytes.len() });
    }
    let chars = chars_of(input);
    let (lo, hi) = trim_bounds(chars.as_slice());
    if lo == hi {
        return Err(SchemaError::EmptyInput);
    }
    let mut i: usize = 0;
    while i < bytes.len()
        invariant
            i <= bytes@.len(),
            bytes@ == vstd::utf8::encode_utf8(input@),
            bytes@.len() <= RUST_BYTE_CAP,
            !all_space(input@),
            forall|j: int| 0 <= j < i ==> #[trigger] bytes@[j] != 0,
        decreases bytes@.len() - i,
    {
        if bytes[i] == 0 {
            proof {
                lemma_first_zero_byte(bytes@, i as int);
            }
            return Err(SchemaError::EncodingError { byte_offset: Some(i) });
        }
        i = i + 1;
    }
    proof {
        lemma_first_zero_byte(bytes@, i as int);
    }
    Ok(())
}

/// A format name the parsers produce.
pub open spec fn known_format(f: Seq<char>) -> bool {
    f == seq!['c', 's', 'v'] || f == seq!['j', 's', 'o', 'n'] || f == seq!['n', 'd', 'j', 's', 'o', 'n']
}

/// The null ratio is a proper fraction in `[0, 1]`.
pub open spec fn ratio_in_unit(r: Ratio) -> bool {
    r.denominator > 0 && r.numerator <= r.denominator
}

/// A column that may leave the library: short name, sound null ratio and
/// count, bounds only on a numeric column, finite and ordered bounds.
pub open spec fn column_sound(col: ColumnMeta, row_count: u64) -> bool {
    let numeric = col.inferred_type == InferredType::Integer || col.inferred_type
        == InferredType::Float;
    &&& col.name@.len() <= 256
    &&& ratio_in_unit(col.null_ratio)
    &&& col.null_count <= row_count
    &&& !numeric ==> col.numeric_min is None && col.numeric_max is None
    &&& option_view(col.numeric_min) matches Some(v) ==> decimal_finite(v)
    &&& option_view(col.numeric_max) matches Some(v) ==> decimal_finite(v)
    &&& match (option_view(col.numeric_min), option_view(col.numeric_max)) {
        (Some(a), Some(b)) => !decimal_less(b, a),
        _ => true,
    }
}

/// Index of the first unsound column (the count when all are sound).
pub open spec fn first_unsound(cols: Seq<ColumnMeta>, row_count: u64) -> int
    decreases cols.len(),
{
    if cols.len() == 0 {
        0
    } else if !column_sound(cols[0], row_count) {
        0
    } else {
        1 + first_unsound(cols.drop_first(), row_count)
    }
}

/// What `sanitize_output` answers: the format must be known, then the first
/// unsound column is reported by its index.
pub open spec fn output_check(out: SchemaOutput) -> Result<(), SchemaError> {
    let k = first_unsound(out.columns@, out.row_count);
    if !known_format(out.detected_format@) {
        Err(SchemaError::UnrecognizedFormat)
    } else if k < out.columns@.len() {
        Err(SchemaError::CsvParseFailed { row: 0, column: Some(out.columns@[k].index) })
    } else {
        Ok(())
    }
}

/// The first unsound column is at `k` when all before it are sound and it is not.
pub proof fn lemma_first_unsound(cols: Seq<ColumnMeta>, row_count: u64, k: int)
    requires
        0 <= k <= cols.len(),
        forall|i: int| 0 <= i < k ==> column_sound(#[trigger] cols[i], row_count),
        k == cols.len() || !column_sound(cols[k], row_count),
    ensures
        first_unsound(cols, row_count) == k,
    decreases k,
{
    if k > 0 {
        lemma_first_unsound(cols.drop_first(), row_count, k - 1);
    }
}

/// Whether `s` reads exactly `w`.
pub fn text_is(s: &str, w: &str) -> (r: bool)
    ensures
        r == (s@ == w@),
{
    let a = chars_of(s);
    let b = chars_of(w);
    if a.len() != b.len() {
        return false;
    }
    let mut i: usize = 0;
    while i < a.len()
        invariant
            i <= a@.len() == b@.len(),
            a@ == s@,
            b@ == w@,
            forall|j: int| 0 <= j < i ==> a@[j] == b@[j],
        decreases a@.len() - i,
    {
        if a[i] != b[i] {
            return false;
        }
        i = i + 1;
    }
    assert(a@ =~= b@);
    true
}

fn column_is_sound(col: &ColumnMeta, row_count: u64) -> (r: bool)
    ensures
        r == column_sound(*col, row_count),
{
    let chars = chars_of(col.name.as_str());
    if chars.len() > 256 {
        return false;
    }
    if !(col.null_ratio.denominator > 0 && col.null_ratio.numerator <= col.null_ratio.denominator) {
        return false;
    }
    if col.null_count > row_count {
        return false;
    }
    let numeric = match col.inferred_type {
        InferredType::Integer | InferredType::Float => true,
        _ => false,
    };
    if !numeric && (col.numeric_min.is_some() || col.numeric_max.is_some()) {
        return false;
    }
    if let Some(v) = &col.numeric_min {
        if !v.is_finite() {
            return false;
        }
    }
    if let Some(v) = &col.numeric_max {
        if !v.is_finite() {
            return false;
        }
    }
    if let Some(a) = &col.numeric_min {
        if let Some(b) = &col.numeric_max {
            if b.less(a) {
                return false;
            }
        }
    }
    true
}

/// Verify parser output invariants before the result leaves the library.
pub fn sanitize_output(output: SchemaOutput) -> (r: Result<SchemaOutput, SchemaError>)
    ensures
        r is Ok == (output_check(output) is Ok),
        r matches Ok(o) ==> o == output,
        r matches Err(e) ==> output_check(output) == Err::<(), SchemaError>(e),
{
    let f = output.detected_format.as_str();
    let csv = "csv";
    let json = "json";
    let ndjson = "ndjson";
    proof {
        reveal_strlit("csv");
        reveal_strlit("json");
        reveal_strlit("ndjson");
        assert(csv@ =~= seq!['c', 's', 'v']);
        assert(json@ =~= seq!['j', 's', 'o', 'n']);
        assert(ndjson@ =~= seq!['n', 'd', 'j', 's', 'o', 'n']);
    }
    if !(text_is(f, csv) || text_is(f, json) || text_is(f, ndjson)) {
        return Err(SchemaError::UnrecognizedFormat);
    }
    let mut i: usize = 0;
    while i < output.columns.len()
        invariant
            i <= output.columns@.len(),
            known_format(output.detected_format@),
            forall|j: int| 0 <= j < i ==> column_sound(#[trigger] output.columns@[j], output.row_count),
        decreases output.columns@.len() - i,
    {
        if !column_is_sound(&output.columns[i], output.row_count) {
            proof {
                lemma_first_unsound(output.columns@, output.row_count, i as int);
            }
            return Err(SchemaError::CsvParseFailed { row: 0, column: Some(output.columns[i].index) });
        }
        i = i + 1;
    }
    proof {
        lemma_first_unsound(output.columns@, output.row_count, i as int);
    }
    Ok(output)
}

/// Zero-cost marker that schema inference has no side effects.
/// Enforced structurally: the library is safe code with no I/O.
pub struct PurityGuarantee;

impl PurityGuarantee {
    /// No-op call that makes the purity contract visible in the call stack.
    pub fn affirm() {
    }
}

} // verus!
