//! JSON and NDJSON parser — an array of objects `[{...}]`, or one object per
//! line `{...}\n{...}`. The `serde_json` crate reads the text; the rows it
//! gives are walked here, one level at a time.
use vstd::prelude::*;
use vstd::string::{StrSliceExecFns, StringExecFns};
use serde_json::Value;
use crate::cell::{cell_type, infer_cell_type};
use crate::number::{
    decimal_finite, decimal_less, float_decimal, float_syntax, int_number, int_text,
    lemma_int_number_finite, parse_float_text, push_int, Decimal,
};
use crate::hll::{empty_registers, sketch_insert, sketch_insert_all};
use crate::number::decimal_text;
use crate::security::{column_sound, known_format, lemma_first_unsound, output_check};
use crate::stats::{
    bounds_sound, column_name, column_name_of, finish_all, finished_as, initial_stats,
    cell_number, greatest_of, least_of, lemma_observe_cell_extremes, lemma_observe_cell_sound,
    lemma_with_number_extremes, lemma_with_number_sound, option_view, push_number, with_null,
    NumberView, with_number, with_typed_text, with_value, with_vote, ColumnAccumulator,
    ColumnStats,
};
use crate::text::{
    chars_of, copy_range, lemma_bytes_at_least, lemma_bytes_subrange, line_spans, push_char,
    push_range, span_is, spans_chained, text_lines, trim_bounds, trimmed, all_space,
};
use crate::{InferredType, SchemaError, SchemaOutput, MAX_CELL_BYTES, MAX_COLS, MAX_JSON_DEPTH, MAX_ROWS};

verus! {

// ---------------------------------------------------------------------------
// The values `serde_json` reads
// ---------------------------------------------------------------------------

#[verifier::external_type_specification]
#[verifier::external_body]
pub struct ExJsonValue(serde_json::Value);

/// A JSON value as plain data.
pub enum JsonTree {
    Null,
    Bool(bool),
    /// A number: its `as_i64` (where it fits an `i64`) and the `Display`
    /// text of its `as_f64`.
    Number(Option<i64>, Option<Seq<char>>),
    Str(Seq<char>),
    Array(Seq<JsonTree>),
    /// An object's entries, in the order its map walks them.
    Object(Seq<(Seq<char>, JsonTree)>),
}

/// The tree a `serde_json::Value` holds.
pub uninterp spec fn json_tree(v: serde_json::Value) -> JsonTree;

/// What `serde_json::from_str::<Value>` makes of a text: the tree, or the
/// line and column at which it found the text malformed.
pub uninterp spec fn json_text_value(text: Seq<char>) -> Result<JsonTree, (usize, usize)>;

/// The offset in `b` just past the `need`-th newline byte from `i` on; the
/// length of `b` when there are fewer; `i` when `need` is not positive.
pub open spec fn after_newlines(b: Seq<u8>, i: int, need: int) -> int
    decreases b.len() - i,
{
    if need <= 0 {
        i
    } else if i >= b.len() {
        b.len() as int
    } else if b[i] == 10 {
        after_newlines(b, i + 1, need - 1)
    } else {
        after_newlines(b, i + 1, need)
    }
}

/// The offset in `b` at which its one-based line `line` starts (0 for a
/// line before the first).
pub open spec fn line_start(b: Seq<u8>, line: int) -> int {
    after_newlines(b, 0, line - 1)
}

/// `serde_json::from_str::<Value>` on `text`: the value, or the error's
/// `line()` and `column()`. They give the position at which the reader
/// stopped, an offset into the text's bytes: the start of that line plus
/// the column, at most the length of the text in bytes.
#[verifier::external_body]
fn json_from_str(text: &str) -> (r: Result<Value, (usize, usize)>)
    ensures
        match r {
            Ok(v) => json_text_value(text@) == Ok::<JsonTree, (usize, usize)>(json_tree(v)),
            Err((l, c)) => json_text_value(text@) == Err::<JsonTree, (usize, usize)>((l, c))
                && line_start(vstd::utf8::encode_utf8(text@), l as int) + c <= vstd::utf8::encode_utf8(
                text@,
            ).len(),
        },
{
    match serde_json::from_str::<Value>(text) {
        Ok(v) => Ok(v),
        Err(e) => Err((e.line(), e.column())),
    }
}

/// `after_newlines` lies between `i` and the end of `b`.
proof fn lemma_after_newlines_bounds(b: Seq<u8>, i: int, need: int)
    requires
        0 <= i <= b.len(),
    ensures
        i <= after_newlines(b, i, need) <= b.len(),
    decreases b.len() - i,
{
    if need > 0 && i < b.len() {
        lemma_after_newlines_bounds(b, i + 1, if b[i] == 10 { need - 1 } else { need });
    }
}

/// The offset at which line `line` of `b` starts (see `line_start`).
fn line_start_of(b: &[u8], line: usize) -> (r: usize)
    ensures
        r == line_start(b@, line as int),
{
    let mut need: usize = if line > 0 {
        line - 1
    } else {
        0
    };
    let mut i: usize = 0;
    while need > 0 && i < b.len()
        invariant
            i <= b@.len(),
            need as int <= (if line > 0 { line - 1 } else { 0int }),
            after_newlines(b@, i as int, need as int) == line_start(b@, line as int),
        decreases b@.len() - i,
    {
        if b[i] == 10 {
            need = need - 1;
        }
        i = i + 1;
    }
    if need > 0 {
        b.len()
    } else {
        i
    }
}

/// One level of a JSON value, its children by reference.
enum JsonNode<'a> {
    Null,
    Bool(bool),
    Number(Option<i64>, Option<String>),
    Str(&'a str),
    Array(&'a Vec<Value>),
    Object(Vec<(&'a String, &'a Value)>),
}

spec fn text_view(t: Option<String>) -> Option<Seq<char>> {
    match t {
        Some(s) => Some(s@),
        None => None,
    }
}

/// `n` is the top level of the tree `t`.
spec fn node_is(n: JsonNode, t: JsonTree) -> bool {
    match n {
        JsonNode::Null => t is Null,
        JsonNode::Bool(b) => t == JsonTree::Bool(b),
        JsonNode::Number(i, f) => t == JsonTree::Number(i, text_view(f)),
        JsonNode::Str(s) => t == JsonTree::Str(s@),
        JsonNode::Array(a) => match t {
            JsonTree::Array(items) => a@.len() == items.len() && forall|k: int|
                0 <= k < items.len() ==> json_tree(#[trigger] a@[k]) == items[k],
            _ => false,
        },
        JsonNode::Object(es) => match t {
            JsonTree::Object(entries) => es@.len() == entries.len() && forall|k: int|
                0 <= k < entries.len() ==> (#[trigger] es@[k]).0@ == entries[k].0 && json_tree(
                    *es@[k].1,
                ) == entries[k].1,
            _ => false,
        },
    }
}

/// The top level of a `serde_json::Value`: its variant; a number by
/// `Number::as_i64` and the `Display` text of `Number::as_f64`; an array's
/// items; an object's entries in the order `Map::iter` walks them, the
/// order in which they were inserted.
#[verifier::external_body]
fn json_node(v: &Value) -> (r: JsonNode<'_>)
    ensures
        node_is(r, json_tree(*v)),
{
    match v {
        Value::Null => JsonNode::Null,
        Value::Bool(b) => JsonNode::Bool(*b),
        Value::Number(n) => JsonNode::Number(
            n.as_i64(),
            match n.as_f64() {
                Some(f) => Some(f.to_string()),
                None => None,
            },
        ),
        Value::String(s) => JsonNode::Str(s.as_str()),
        Value::Array(a) => JsonNode::Array(a),
        Value::Object(m) => JsonNode::Object(m.iter().collect()),
    }
}

/// The items of an array value, taken out of it (`Value::Array`'s vector);
/// none for any other value.
#[verifier::external_body]
fn json_into_array(v: Value) -> (r: Option<Vec<Value>>)
    ensures
        match json_tree(v) {
            JsonTree::Array(items) => r matches Some(a) && a@.len() == items.len() && forall|k: int|
                0 <= k < items.len() ==> json_tree(#[trigger] a@[k]) == items[k],
            _ => r is None,
        },
{
    match v {
        Value::Array(a) => Some(a),
        _ => None,
    }
}

// ---------------------------------------------------------------------------
// Nesting depth
// ---------------------------------------------------------------------------

/// No value inside `t`, which sits at depth `current`, lies deeper than
/// `MAX_JSON_DEPTH`.
pub open spec fn depth_ok(t: JsonTree, current: int) -> bool
    decreases t,
{
    &&& current <= MAX_JSON_DEPTH
    &&& match t {
        JsonTree::Array(items) => forall|k: int|
            0 <= k < items.len() ==> depth_ok(#[trigger] items[k], current + 1),
        JsonTree::Object(entries) => forall|k: int|
            0 <= k < entries.len() ==> depth_ok(#[trigger] entries[k].1, current + 1),
        _ => true,
    }
}

/// Reject a value nested deeper than `MAX_JSON_DEPTH`, naming its row.
fn check_depth(value: &Value, current: usize, row: usize) -> (r: Result<(), SchemaError>)
    ensures
        r == (if depth_ok(json_tree(*value), current as int) {
            Ok::<(), SchemaError>(())
        } else {
            Err(SchemaError::NestingTooDeep { limit: MAX_JSON_DEPTH, detected_at_row: row })
        }),
    decreases MAX_JSON_DEPTH + 1 - current,
{
    if current > MAX_JSON_DEPTH {
        return Err(SchemaError::NestingTooDeep { limit: MAX_JSON_DEPTH, detected_at_row: row });
    }
    let ghost t = json_tree(*value);
    match json_node(value) {
        JsonNode::Array(items) => {
            let mut k: usize = 0;
            while k < items.len()
                invariant
                    current <= MAX_JSON_DEPTH,
                    t == json_tree(*value),
                    node_is(JsonNode::Array(items), t),
                    k <= items@.len(),
                    forall|j: int|
                        0 <= j < k ==> depth_ok(json_tree(#[trigger] items@[j]), current + 1),
                decreases items@.len() - k,
            {
                match check_depth(&items[k], current + 1, row) {
                    Err(e) => {
                        proof {
                            assert(!depth_ok(json_tree(items@[k as int]), current + 1));
                        }
                        return Err(e);
                    },
                    Ok(()) => {},
                }
                k = k + 1;
            }
            proof {
                if let JsonTree::Array(ts) = t {
                    assert forall|j: int| 0 <= j < ts.len() implies depth_ok(
                        #[trigger] ts[j],
                        current + 1,
                    ) by {
                        assert(json_tree(items@[j]) == ts[j]);
                    }
                }
            }
        },
        JsonNode::Object(entries) => {
            let mut k: usize = 0;
            while k < entries.len()
                invariant
                    current <= MAX_JSON_DEPTH,
                    t == json_tree(*value),
                    node_is(JsonNode::Object(entries), t),
                    k <= entries@.len(),
                    forall|j: int|
                        0 <= j < k ==> depth_ok(json_tree(*(#[trigger] entries@[j]).1), current + 1),
                decreases entries@.len() - k,
            {
                match check_depth(entries[k].1, current + 1, row) {
                    Err(e) => {
                        proof {
                            assert(!depth_ok(json_tree(*entries@[k as int].1), current + 1));
                        }
                        return Err(e);
                    },
                    Ok(()) => {},
                }
                k = k + 1;
            }
            proof {
                if let JsonTree::Object(es) = t {
                    assert forall|j: int| 0 <= j < es.len() implies depth_ok(
                        #[trigger] es[j].1,
                        current + 1,
                    ) by {
                        assert(json_tree(*entries@[j].1) == es[j].1);
                    }
                }
            }
        },
        _ => {},
    }
    Ok(())
}

// ---------------------------------------------------------------------------
// Observing values
// ---------------------------------------------------------------------------

/// Observing one JSON value: `null` is a null; a boolean votes for
/// `Boolean`; an integer that fits an `i64` votes for `Integer` and widens the
/// bounds; another number, by the text of its `f64`, votes for `Float` and
/// widens the bounds when it is finite (else it is a null); a string is typed like a CSV cell, except that
/// an empty one, one over `MAX_CELL_BYTES` bytes and a blank one are nulls;
/// an array or object votes for `String`. Numbers, booleans and typed strings
/// go into the cardinality sketch by their text.
pub open spec fn observe_json(st: ColumnStats, t: JsonTree) -> ColumnStats {
    match t {
        JsonTree::Null => with_null(st),
        JsonTree::Bool(b) => with_vote(
            with_value(st, vstd::utf8::encode_utf8(if b { "true"@ } else { "false"@ })),
            InferredType::Boolean,
        ),
        JsonTree::Number(Some(i), _) => with_number(
            with_vote(with_value(st, vstd::utf8::encode_utf8(int_text(i as int))), InferredType::Integer),
            int_number(i as int),
        ),
        JsonTree::Number(None, Some(f)) => if float_syntax(f) && decimal_finite(float_decimal(f)) {
            with_number(
                with_vote(with_value(st, vstd::utf8::encode_utf8(f)), InferredType::Float),
                float_decimal(f),
            )
        } else {
            with_null(st)
        },
        JsonTree::Number(None, None) => with_null(st),
        JsonTree::Str(s) => {
            let bytes = vstd::utf8::encode_utf8(s);
            if s.len() == 0 || bytes.len() > MAX_CELL_BYTES {
                with_null(st)
            } else {
                let typed = with_typed_text(with_value(st, bytes), s);
                if cell_type(s) == InferredType::Unknown {
                    with_null(typed)
                } else {
                    typed
                }
            }
        },
        JsonTree::Array(_) => with_vote(st, InferredType::String),
        JsonTree::Object(_) => with_vote(st, InferredType::String),
    }
}

impl ColumnAccumulator {
    /// Observe one JSON value (see `observe_json`).
    pub fn observe_value(&mut self, value: &Value)
        requires
            old(self).wf(),
        ensures
            final(self).wf(),
            final(self).stats() == observe_json(old(self).stats(), json_tree(*value)),
            final(self).name == old(self).name,
            final(self).index == old(self).index,
    {
        match json_node(value) {
            JsonNode::Null => self.add_null(),
            JsonNode::Bool(b) => {
                self.add_vote(InferredType::Boolean);
                if b {
                    self.hll.insert("true");
                } else {
                    self.hll.insert("false");
                }
            },
            JsonNode::Number(Some(i), _) => {
                self.add_vote(InferredType::Integer);
                self.update_bounds(Decimal::from_i64(i));
                let mut text = String::new();
                push_int(&mut text, i);
                self.hll.insert(text.as_str());
            },
            JsonNode::Number(None, Some(f)) => {
                let chars = chars_of(f.as_str());
                match parse_float_text(chars.as_slice()) {
                    Some(d) => {
                        if d.is_finite() {
                            self.add_vote(InferredType::Float);
                            self.update_bounds(d);
                            self.hll.insert(f.as_str());
                        } else {
                            self.add_null();
                        }
                    },
                    None => self.add_null(),
                }
            },
            JsonNode::Number(None, None) => self.add_null(),
            JsonNode::Str(s) => {
                if s.is_empty() || s.as_bytes().len() > MAX_CELL_BYTES {
                    self.add_null();
                    return;
                }
                self.hll.insert(s);
                let t = self.observe_typed(s);
                if t == InferredType::Unknown {
                    self.add_null();
                }
            },
            JsonNode::Array(_) => self.add_vote(InferredType::String),
            JsonNode::Object(_) => self.add_vote(InferredType::String),
        }
    }
}

// ---------------------------------------------------------------------------
// Rows
// ---------------------------------------------------------------------------

/// The trees of some values.
pub open spec fn trees(vs: Seq<Value>) -> Seq<JsonTree> {
    vs.map_values(|v: Value| json_tree(v))
}

/// `prefix` before the rows `rest` gives, or `rest`'s error.
pub open spec fn rows_after(
    prefix: Seq<JsonTree>,
    rest: Result<Seq<JsonTree>, SchemaError>,
) -> Result<Seq<JsonTree>, SchemaError> {
    match rest {
        Ok(r) => Ok(prefix + r),
        Err(e) => Err(e),
    }
}

/// The rows of NDJSON lines: a blank line is skipped; any other line,
/// trimmed, must be one JSON value, or the error gives `offset` plus the
/// column of the failure (a line holds no newline, so it is all one line
/// to the reader). `offset` counts the bytes of the lines before, each with
/// one more for its end.
pub open spec fn ndjson_rows(lines: Seq<Seq<char>>, offset: int) -> Result<Seq<JsonTree>, SchemaError>
    decreases lines.len(),
{
    if lines.len() == 0 {
        Ok(Seq::empty())
    } else {
        let l = lines[0];
        let next = offset + vstd::utf8::encode_utf8(l).len() + 1;
        if trimmed(l).len() == 0 {
            ndjson_rows(lines.drop_first(), next)
        } else {
            match json_text_value(trimmed(l)) {
                Err((_, c)) => Err(SchemaError::JsonParseFailed { byte_offset: Some((offset + c) as usize) }),
                Ok(v) => rows_after(seq![v], ndjson_rows(lines.drop_first(), next)),
            }
        }
    }
}

/// Parse each non-blank line of an NDJSON text.
fn ndjson_values(input: &str) -> (r: Result<Vec<Value>, SchemaError>)
    ensures
        match ndjson_rows(text_lines(input@), 0) {
            Ok(ts) => r matches Ok(vs) && trees(vs@) == ts,
            Err(e) => r == Err::<Vec<Value>, SchemaError>(e),
        },
{
    let s = chars_of(input);
    let total = input.as_bytes().len();
    let spans = line_spans(s.as_slice());
    let ghost lines = text_lines(input@);
    let mut rows: Vec<Value> = Vec::new();
    let mut offset: usize = 0;
    let mut k: usize = 0;
    proof {
        assert(lines.skip(0) =~= lines);
        assert(trees(rows@) + Seq::<JsonTree>::empty() =~= trees(rows@));
        if spans@.len() > 0 {
            assert(spans_chained(spans@, 0));
            assert(s@.take(0) =~= Seq::<char>::empty());
        }
    }
    while k < spans.len()
        invariant
            s@ == input@,
            lines == text_lines(s@),
            spans@.len() == lines.len(),
            forall|j: int| 0 <= j < spans@.len() ==> span_is(s@, #[trigger] spans@[j], lines[j]),
            forall|j: int| 0 <= j < spans@.len() ==> #[trigger] spans_chained(spans@, j),
            forall|j: int| 0 <= j < spans@.len() - 1 ==> (#[trigger] spans@[j]).1 < spans@[j].2,
            total == vstd::utf8::encode_utf8(s@).len(),
            k <= spans@.len(),
            k < spans@.len() ==> offset <= vstd::utf8::encode_utf8(
                s@.take(spans@[k as int].0 as int),
            ).len(),
            ndjson_rows(lines, 0) == rows_after(trees(rows@), ndjson_rows(lines.skip(k as int), offset as int)),
        decreases spans@.len() - k,
    {
        let (a, b, n) = spans[k];
        proof {
            assert(span_is(s@, spans@[k as int], lines[k as int]));
            lemma_bytes_subrange(s@, a as int, b as int);
            lemma_bytes_subrange(s@, 0, b as int);
            assert(s@.subrange(0, b as int) =~= s@.take(b as int));
        }
        let line = copy_range(s.as_slice(), a, b);
        let (lo, hi) = trim_bounds(line.as_slice());
        let mut line_text = String::new();
        push_range(&mut line_text, line.as_slice(), 0, line.len());
        assert(line_text@ =~= line@);
        let line_bytes = line_text.as_str().as_bytes().len();
        let ghost rest = lines.skip(k as int);
        proof {
            assert(rest[0] == lines[k as int]);
            assert(rest.drop_first() =~= lines.skip(k + 1));
        }
        if lo < hi {
            let mut text = String::new();
            push_range(&mut text, line.as_slice(), lo, hi);
            assert(text@ =~= line@.subrange(lo as int, hi as int));
            match json_from_str(text.as_str()) {
                Err((l, c)) => {
                    proof {
                        lemma_bytes_subrange(line@, lo as int, hi as int);
                        lemma_after_newlines_bounds(vstd::utf8::encode_utf8(text@), 0, l - 1);
                    }
                    return Err(SchemaError::JsonParseFailed { byte_offset: Some(offset + c) });
                },
                Ok(v) => {
                    let ghost done = trees(rows@);
                    rows.push(v);
                    proof {
                        assert(trees(rows@) =~= done.push(json_tree(v)));
                        match ndjson_rows(lines.skip(k + 1), (offset + line_bytes + 1) as int) {
                            Ok(x) => {
                                assert(done + (seq![json_tree(v)] + x) =~= done.push(json_tree(v)) + x);
                            },
                            Err(_) => {},
                        }
                    }
                },
            }
        }
        if k + 1 < spans.len() {
            proof {
                assert(spans_chained(spans@, k + 1));
                lemma_bytes_subrange(s@, b as int, n as int);
                lemma_bytes_at_least(s@.subrange(b as int, n as int));
                lemma_bytes_subrange(s@, 0, n as int);
                assert(s@.subrange(0, n as int) =~= s@.take(n as int));
            }
            offset = offset + line_bytes + 1;
        } else {
            proof {
                assert(lines.skip(k + 1) =~= Seq::<Seq<char>>::empty());
            }
        }
        k = k + 1;
    }
    proof {
        assert(lines.skip(k as int) =~= Seq::<Seq<char>>::empty());
        assert(trees(rows@) + Seq::<JsonTree>::empty() =~= trees(rows@));
    }
    Ok(rows)
}

/// The two JSON layouts: an array of objects, or one object per line.
#[derive(Debug, Clone, Copy, PartialEq, Eq, Structural)]
pub enum JsonFormat {
    ObjectArray,
    Ndjson,
}

/// The layout a text announces by its first non-blank character.
pub open spec fn format_of(input: Seq<char>) -> Option<JsonFormat> {
    let t = trimmed(input);
    if t.len() > 0 && t[0] == '[' {
        Some(JsonFormat::ObjectArray)
    } else if t.len() > 0 && t[0] == '{' {
        Some(JsonFormat::Ndjson)
    } else {
        None
    }
}

/// Detect the layout: `[` starts an array of objects, `{` NDJSON.
pub fn detect_json_format(input: &str) -> (r: Option<JsonFormat>)
    ensures
        r == format_of(input@),
{
    let s = chars_of(input);
    let (lo, hi) = trim_bounds(s.as_slice());
    proof {
        if lo < hi {
            assert(trimmed(input@)[0] == s@[lo as int]);
        }
    }
    if lo < hi && s[lo] == '[' {
        Some(JsonFormat::ObjectArray)
    } else if lo < hi && s[lo] == '{' {
        Some(JsonFormat::Ndjson)
    } else {
        None
    }
}

/// The rows of a JSON text in the given layout: the items of the top-level
/// array (at least one an object, unless there are none), or the values of
/// the NDJSON lines (at least one). A malformed array gives the byte offset
/// in the text at which the reader stopped.
pub open spec fn json_rows(input: Seq<char>, f: JsonFormat) -> Result<Seq<JsonTree>, SchemaError> {
    match f {
        JsonFormat::ObjectArray => match json_text_value(input) {
            Err((l, c)) => Err(
                SchemaError::JsonParseFailed {
                    byte_offset: Some((line_start(vstd::utf8::encode_utf8(input), l as int) + c) as usize),
                },
            ),
            Ok(JsonTree::Array(items)) => if items.len() > 0 && !(exists|k: int|
                0 <= k < items.len() && #[trigger] items[k] is Object) {
                Err(SchemaError::UnrecognizedFormat)
            } else {
                Ok(items)
            },
            Ok(_) => Err(SchemaError::UnrecognizedFormat),
        },
        JsonFormat::Ndjson => match ndjson_rows(text_lines(input), 0) {
            Err(e) => Err(e),
            Ok(rows) => if rows.len() == 0 {
                Err(SchemaError::EmptyInput)
            } else {
                Ok(rows)
            },
        },
    }
}

/// Whether some item is an object.
fn any_object(items: &Vec<Value>) -> (r: bool)
    ensures
        r == exists|k: int| 0 <= k < items@.len() && #[trigger] json_tree(items@[k]) is Object,
{
    let mut k: usize = 0;
    while k < items.len()
        invariant
            k <= items@.len(),
            forall|j: int| 0 <= j < k ==> !(#[trigger] json_tree(items@[j]) is Object),
        decreases items@.len() - k,
    {
        match json_node(&items[k]) {
            JsonNode::Object(_) => return true,
            _ => {},
        }
        k = k + 1;
    }
    false
}

/// The rows of a JSON text in the given layout (see `json_rows`).
fn parse_rows(input: &str, format: JsonFormat) -> (r: Result<Vec<Value>, SchemaError>)
    ensures
        match json_rows(input@, format) {
            Ok(ts) => r matches Ok(vs) && trees(vs@) == ts,
            Err(e) => r == Err::<Vec<Value>, SchemaError>(e),
        },
{
    match format {
        JsonFormat::ObjectArray => {
            let value = match json_from_str(input) {
                Ok(v) => v,
                Err((l, c)) => {
                    let bytes = input.as_bytes();
                    let total = bytes.len();
                    assert(bytes@ == vstd::utf8::encode_utf8(input@) && total == bytes@.len());
                    let start = line_start_of(bytes, l);
                    return Err(SchemaError::JsonParseFailed { byte_offset: Some(start + c) });
                },
            };
            let ghost t = json_tree(value);
            match json_into_array(value) {
                None => Err(SchemaError::UnrecognizedFormat),
                Some(rows) => {
                    proof {
                        if let JsonTree::Array(items) = t {
                            assert(trees(rows@) =~= items);
                        }
                    }
                    if rows.len() > 0 && !any_object(&rows) {
                        proof {
                            if let JsonTree::Array(items) = t {
                                assert forall|k: int| 0 <= k < items.len() implies !(
                                #[trigger] items[k] is Object) by {
                                    assert(json_tree(rows@[k]) == items[k]);
                                }
                            }
                        }
                        return Err(SchemaError::UnrecognizedFormat);
                    }
                    proof {
                        if let JsonTree::Array(items) = t {
                            if rows@.len() > 0 {
                                let k = choose|k: int|
                                    0 <= k < rows@.len() && #[trigger] json_tree(rows@[k]) is Object;
                                assert(items[k] is Object);
                            }
                        }
                    }
                    Ok(rows)
                },
            }
        },
        JsonFormat::Ndjson => {
            let rows = ndjson_values(input)?;
            if rows.len() == 0 {
                return Err(SchemaError::EmptyInput);
            }
            Ok(rows)
        },
    }
}

// ---------------------------------------------------------------------------
// Columns
// ---------------------------------------------------------------------------

/// Index of the first `x` in `names`, or -1 when there is none.
pub open spec fn first_index(names: Seq<Seq<char>>, x: Seq<char>) -> int
    decreases names.len(),
{
    if names.len() == 0 {
        -1
    } else {
        let r = first_index(names.drop_last(), x);
        if r >= 0 {
            r
        } else if names.last() == x {
            names.len() - 1
        } else {
            -1
        }
    }
}

/// No name is in `names` twice.
pub open spec fn distinct_names(names: Seq<Seq<char>>) -> bool {
    forall|i: int, j: int| 0 <= i < j < names.len() ==> names[i] != names[j]
}

/// One key meets the column names found so far. The key is cut to its
/// column name (its first 256 characters); a name already there changes
/// nothing. Any other is added at the end, its position being its index,
/// unless `MAX_COLS` names are there already, which is an error.
pub open spec fn discover_key(names: Seq<Seq<char>>, key: Seq<char>) -> Result<Seq<Seq<char>>, SchemaError> {
    let name = column_name(key);
    if first_index(names, name) >= 0 {
        Ok(names)
    } else if names.len() >= MAX_COLS {
        Err(SchemaError::TooManyColumns { limit: MAX_COLS, actual: (names.len() + 1) as usize })
    } else {
        Ok(names.push(name))
    }
}

/// The keys of one object, in order, meet the names.
pub open spec fn discover_entries(names: Seq<Seq<char>>, es: Seq<(Seq<char>, JsonTree)>) -> Result<
    Seq<Seq<char>>,
    SchemaError,
>
    decreases es.len(),
{
    if es.len() == 0 {
        Ok(names)
    } else {
        match discover_entries(names, es.drop_last()) {
            Err(e) => Err(e),
            Ok(n1) => discover_key(n1, es.last().0),
        }
    }
}

/// The column names of the objects among `rows`, in order of first
/// appearance; a column's index is its position.
pub open spec fn discover_rows(rows: Seq<JsonTree>) -> Result<Seq<Seq<char>>, SchemaError>
    decreases rows.len(),
{
    if rows.len() == 0 {
        Ok(Seq::empty())
    } else {
        match discover_rows(rows.drop_last()) {
            Err(e) => Err(e),
            Ok(names) => match rows.last() {
                JsonTree::Object(es) => discover_entries(names, es),
                _ => Ok(names),
            },
        }
    }
}

/// The texts of some strings.
pub open spec fn string_views(v: Seq<String>) -> Seq<Seq<char>> {
    v.map_values(|s: String| s@)
}

/// The first position of `x` among `names`.
fn find_name(names: &Vec<String>, x: &String) -> (r: Option<usize>)
    ensures
        match r {
            Some(p) => p == first_index(string_views(names@), x@),
            None => first_index(string_views(names@), x@) == -1,
        },
{
    let mut j: usize = 0;
    while j < names.len()
        invariant
            j <= names@.len(),
            first_index(string_views(names@.take(j as int)), x@) == -1,
        decreases names@.len() - j,
    {
        proof {
            assert(string_views(names@.take(j + 1)).drop_last() =~= string_views(names@.take(j as int)));
        }
        if names[j] == *x {
            proof {
                lemma_first_index_prefix(string_views(names@), x@, j + 1);
                assert(string_views(names@.take(j + 1)) =~= string_views(names@).take(j + 1));
            }
            return Some(j);
        }
        j = j + 1;
    }
    proof {
        assert(names@.take(j as int) =~= names@);
    }
    None
}

/// A first occurrence within a prefix is the first occurrence.
proof fn lemma_first_index_prefix(names: Seq<Seq<char>>, x: Seq<char>, k: int)
    requires
        0 <= k <= names.len(),
        first_index(names.take(k), x) >= 0,
    ensures
        first_index(names, x) == first_index(names.take(k), x),
    decreases names.len() - k,
{
    if k < names.len() {
        assert(names.take(k + 1).drop_last() =~= names.take(k));
        lemma_first_index_prefix(names, x, k + 1);
    } else {
        assert(names.take(k) =~= names);
    }
}

/// `first_index` is a position holding `x`, or -1 when no position does.
proof fn lemma_first_index_bounds(names: Seq<Seq<char>>, x: Seq<char>)
    ensures
        -1 <= first_index(names, x) < names.len(),
        first_index(names, x) >= 0 ==> names[first_index(names, x)] == x,
        first_index(names, x) < 0 ==> forall|j: int| 0 <= j < names.len() ==> names[j] != x,
    decreases names.len(),
{
    if names.len() > 0 {
        lemma_first_index_bounds(names.drop_last(), x);
        assert forall|j: int| 0 <= j < names.len() - 1 implies names[j] == names.drop_last()[j] by {}
    }
}

/// An error on a prefix of an object's keys is the error of the object.
proof fn lemma_entries_err(names: Seq<Seq<char>>, es: Seq<(Seq<char>, JsonTree)>, m: int)
    requires
        0 <= m <= es.len(),
        discover_entries(names, es.take(m)) is Err,
    ensures
        discover_entries(names, es) == discover_entries(names, es.take(m)),
    decreases es.len() - m,
{
    if m < es.len() {
        assert(es.take(m + 1).drop_last() =~= es.take(m));
        lemma_entries_err(names, es, m + 1);
    } else {
        assert(es.take(m) =~= es);
    }
}

/// An error on a prefix of the rows is the error of the rows.
proof fn lemma_rows_err(rows: Seq<JsonTree>, m: int)
    requires
        0 <= m <= rows.len(),
        discover_rows(rows.take(m)) is Err,
    ensures
        discover_rows(rows) == discover_rows(rows.take(m)),
    decreases rows.len() - m,
{
    if m < rows.len() {
        assert(rows.take(m + 1).drop_last() =~= rows.take(m));
        lemma_rows_err(rows, m + 1);
    } else {
        assert(rows.take(m) =~= rows);
    }
}

/// The column names of the objects among `rows` (see `discover_rows`).
fn discover_columns(rows: &Vec<Value>) -> (r: Result<Vec<String>, SchemaError>)
    ensures
        match discover_rows(trees(rows@)) {
            Ok(names) => r matches Ok(found) && string_views(found@) == names,
            Err(e) => r == Err::<Vec<String>, SchemaError>(e),
        },
{
    let ghost ts = trees(rows@);
    let mut names: Vec<String> = Vec::new();
    let mut i: usize = 0;
    assert(string_views(names@) =~= Seq::<Seq<char>>::empty());
    while i < rows.len()
        invariant
            ts == trees(rows@),
            i <= rows@.len(),
            discover_rows(ts.take(i as int)) == Ok::<Seq<Seq<char>>, SchemaError>(string_views(names@)),
            names@.len() <= MAX_COLS,
        decreases rows@.len() - i,
    {
        proof {
            assert(ts.take(i + 1).drop_last() =~= ts.take(i as int));
            assert(ts.take(i + 1).last() == json_tree(rows@[i as int]));
        }
        match json_node(&rows[i]) {
            JsonNode::Object(entries) => {
                let ghost es = match json_tree(rows@[i as int]) {
                    JsonTree::Object(es) => es,
                    _ => Seq::empty(),
                };
                let ghost n0 = string_views(names@);
                assert(json_tree(rows@[i as int]) == JsonTree::Object(es));
                let mut j: usize = 0;
                assert(es.take(0) =~= Seq::<(Seq<char>, JsonTree)>::empty());
                while j < entries.len()
                    invariant
                        node_is(JsonNode::Object(entries), JsonTree::Object(es)),
                        ts == trees(rows@),
                        i < rows@.len(),
                        json_tree(rows@[i as int]) == JsonTree::Object(es),
                        discover_rows(ts.take(i as int)) == Ok::<Seq<Seq<char>>, SchemaError>(n0),
                        j <= entries@.len(),
                        discover_entries(n0, es.take(j as int)) == Ok::<Seq<Seq<char>>, SchemaError>(
                            string_views(names@),
                        ),
                        names@.len() <= MAX_COLS,
                    decreases entries@.len() - j,
                {
                    let key = entries[j].0;
                    proof {
                        assert(es.take(j + 1).drop_last() =~= es.take(j as int));
                        assert(es.take(j + 1).last().0 == key@);
                    }
                    let name = column_name_of(key);
                    match find_name(&names, &name) {
                        Some(_) => {},
                        None => {
                            let idx = names.len();
                            if idx >= MAX_COLS {
                                proof {
                                    assert(discover_entries(n0, es.take(j + 1)) is Err);
                                    lemma_entries_err(n0, es, j + 1);
                                    assert(ts.take(i + 1).drop_last() =~= ts.take(i as int));
                                    assert(ts.take(i + 1).last() == JsonTree::Object(es));
                                    assert(discover_rows(ts.take(i + 1)) is Err);
                                    lemma_rows_err(ts, i + 1);
                                }
                                return Err(SchemaError::TooManyColumns { limit: MAX_COLS, actual: idx + 1 });
                            }
                            let ghost before = names@;
                            names.push(name);
                            proof {
                                assert(string_views(names@) =~= string_views(before).push(name@));
                            }
                        },
                    }
                    j = j + 1;
                }
                proof {
                    assert(es.take(entries@.len() as int) =~= es);
                }
            },
            _ => {},
        }
        i = i + 1;
    }
    proof {
        assert(ts.take(rows@.len() as int) =~= ts);
    }
    Ok(names)
}
// ---------------------------------------------------------------------------
// Observing rows
// ---------------------------------------------------------------------------

/// The columns that one object's entries reach: each key, cut to its
/// column name, reaches the first column of that name, if there is one.
pub open spec fn entries_seen(names: Seq<Seq<char>>, es: Seq<(Seq<char>, JsonTree)>) -> Seq<bool>
    decreases es.len(),
{
    if es.len() == 0 {
        Seq::new(names.len(), |q: int| false)
    } else {
        let prev = entries_seen(names, es.drop_last());
        let p = first_index(names, column_name(es.last().0));
        if p < 0 {
            prev
        } else {
            prev.update(p, true)
        }
    }
}

/// The column that the last of `es` gives its value to: the one its key
/// reaches, unless an earlier key of the same object reached it already
/// (each column takes at most one value from an object); -1 for none.
pub open spec fn entry_column(names: Seq<Seq<char>>, es: Seq<(Seq<char>, JsonTree)>) -> int {
    let p = first_index(names, column_name(es.last().0));
    if p < 0 || entries_seen(names, es.drop_last())[p] {
        -1
    } else {
        p
    }
}

/// One object's entries observed, in order (see `entry_column`).
pub open spec fn observe_entries(
    sts: Seq<ColumnStats>,
    names: Seq<Seq<char>>,
    es: Seq<(Seq<char>, JsonTree)>,
) -> Seq<ColumnStats>
    decreases es.len(),
{
    if es.len() == 0 {
        sts
    } else {
        let prev = observe_entries(sts, names, es.drop_last());
        let p = entry_column(names, es);
        if p < 0 {
            prev
        } else {
            prev.update(p, observe_json(prev[p], es.last().1))
        }
    }
}

/// One row observed: an object's entries, then a null for every column
/// they did not reach; any other value is a null in every column.
pub open spec fn observe_row(sts: Seq<ColumnStats>, names: Seq<Seq<char>>, row: JsonTree) -> Seq<
    ColumnStats,
> {
    match row {
        JsonTree::Object(es) => {
            let r = observe_entries(sts, names, es);
            let seen = entries_seen(names, es);
            Seq::new(
                sts.len(),
                |q: int|
                    if seen[q] {
                        r[q]
                    } else {
                        with_null(r[q])
                    },
            )
        },
        _ => Seq::new(sts.len(), |q: int| with_null(sts[q])),
    }
}

/// The columns named `names` over `rows`.
pub open spec fn observe_rows(names: Seq<Seq<char>>, rows: Seq<JsonTree>) -> Seq<ColumnStats>
    decreases rows.len(),
{
    if rows.len() == 0 {
        Seq::new(names.len(), |q: int| initial_stats())
    } else {
        observe_row(observe_rows(names, rows.drop_last()), names, rows.last())
    }
}

/// `entries_seen` has a mark for each column.
proof fn lemma_entries_seen_len(names: Seq<Seq<char>>, es: Seq<(Seq<char>, JsonTree)>)
    ensures
        entries_seen(names, es).len() == names.len(),
    decreases es.len(),
{
    if es.len() > 0 {
        lemma_entries_seen_len(names, es.drop_last());
        lemma_first_index_bounds(names, column_name(es.last().0));
    }
}

/// `entry_column` is a column, or -1.
proof fn lemma_entry_column_bounds(names: Seq<Seq<char>>, es: Seq<(Seq<char>, JsonTree)>)
    requires
        es.len() > 0,
    ensures
        -1 <= entry_column(names, es) < names.len(),
        entry_column(names, es) >= 0 ==> entry_column(names, es) == first_index(
            names,
            column_name(es.last().0),
        ),
{
    lemma_first_index_bounds(names, column_name(es.last().0));
    lemma_entries_seen_len(names, es.drop_last());
}
/// The names of the accumulators, in order.
pub open spec fn acc_names(accs: Seq<ColumnAccumulator>) -> Seq<Seq<char>> {
    accs.map_values(|a: ColumnAccumulator| a.name@)
}

/// The indices of the accumulators, in order.
pub open spec fn acc_indices(accs: Seq<ColumnAccumulator>) -> Seq<nat> {
    accs.map_values(|a: ColumnAccumulator| a.index as nat)
}

/// What each accumulator has seen, in order.
pub open spec fn acc_stats(accs: Seq<ColumnAccumulator>) -> Seq<ColumnStats> {
    accs.map_values(|a: ColumnAccumulator| a.stats())
}

/// Every accumulator is well formed.
pub open spec fn accs_wf(accs: Seq<ColumnAccumulator>) -> bool {
    forall|q: int| 0 <= q < accs.len() ==> (#[trigger] accs[q]).wf()
}

/// The first accumulator named `name`.
fn find_column(accs: &Vec<ColumnAccumulator>, name: &String) -> (r: Option<usize>)
    ensures
        match r {
            Some(p) => p == first_index(acc_names(accs@), name@),
            None => first_index(acc_names(accs@), name@) == -1,
        },
{
    let ghost names = acc_names(accs@);
    let mut j: usize = 0;
    while j < accs.len()
        invariant
            names == acc_names(accs@),
            j <= accs@.len(),
            first_index(names.take(j as int), name@) == -1,
        decreases accs@.len() - j,
    {
        proof {
            assert(names.take(j + 1).drop_last() =~= names.take(j as int));
            assert(names.take(j + 1).last() == accs@[j as int].name@);
        }
        if accs[j].name == *name {
            proof {
                lemma_first_index_prefix(names, name@, j + 1);
            }
            return Some(j);
        }
        j = j + 1;
    }
    proof {
        assert(names.take(j as int) =~= names);
    }
    None
}

/// A null in every column.
fn null_everywhere(accs: &mut Vec<ColumnAccumulator>)
    ensures
        final(accs)@.len() == old(accs)@.len(),
        acc_names(final(accs)@) == acc_names(old(accs)@),
        acc_indices(final(accs)@) == acc_indices(old(accs)@),
        accs_wf(old(accs)@) ==> accs_wf(final(accs)@),
        acc_stats(final(accs)@) == Seq::new(
            old(accs)@.len(),
            |q: int| with_null(acc_stats(old(accs)@)[q]),
        ),
{
    let ghost start = accs@;
    let mut q: usize = 0;
    while q < accs.len()
        invariant
            accs@.len() == start.len(),
            q <= accs@.len(),
            forall|r: int|
                0 <= r < accs@.len() ==> (#[trigger] accs@[r]).name == start[r].name && accs@[r].index
                    == start[r].index && accs@[r].hll == start[r].hll,
            forall|r: int|
                0 <= r < accs@.len() ==> (#[trigger] accs@[r]).stats() == (if r < q {
                    with_null(start[r].stats())
                } else {
                    start[r].stats()
                }),
        decreases accs@.len() - q,
    {
        accs[q].add_null();
        q = q + 1;
    }
    proof {
        assert(acc_names(accs@) =~= acc_names(start));
        assert(acc_indices(accs@) =~= acc_indices(start));
        assert(acc_stats(accs@) =~= Seq::new(start.len(), |q: int| with_null(acc_stats(start)[q])));
    }
}

/// Observe one row (see `observe_row`).
fn observe_json_row(accs: &mut Vec<ColumnAccumulator>, row: &Value)
    requires
        accs_wf(old(accs)@),
    ensures
        accs_wf(final(accs)@),
        final(accs)@.len() == old(accs)@.len(),
        acc_names(final(accs)@) == acc_names(old(accs)@),
        acc_indices(final(accs)@) == acc_indices(old(accs)@),
        acc_stats(final(accs)@) == observe_row(
            acc_stats(old(accs)@),
            acc_names(old(accs)@),
            json_tree(*row),
        ),
{
    let ghost start = accs@;
    let ghost names = acc_names(start);
    let n = accs.len();
    match json_node(row) {
        JsonNode::Object(entries) => {
            let ghost es = match json_tree(*row) {
                JsonTree::Object(es) => es,
                _ => Seq::empty(),
            };
            let mut seen: Vec<bool> = Vec::new();
            let mut q: usize = 0;
            while q < n
                invariant
                    q <= n,
                    seen@ == Seq::new(q as nat, |r: int| false),
                decreases n - q,
            {
                seen.push(false);
                q = q + 1;
                assert(seen@ =~= Seq::new(q as nat, |r: int| false));
            }
            let mut j: usize = 0;
            assert(es.take(0) =~= Seq::<(Seq<char>, JsonTree)>::empty());
            assert(acc_stats(start) == observe_entries(acc_stats(start), names, es.take(0)));
            while j < entries.len()
                invariant
                    node_is(JsonNode::Object(entries), JsonTree::Object(es)),
                    n == start.len() == accs@.len(),
                    names == acc_names(start),
                    seen@.len() == n,
                    j <= entries@.len(),
                    accs_wf(accs@),
                    acc_names(accs@) == names,
                    acc_indices(accs@) == acc_indices(start),
                    acc_stats(accs@) == observe_entries(acc_stats(start), names, es.take(j as int)),
                    seen@ == entries_seen(names, es.take(j as int)),
                decreases entries@.len() - j,
            {
                let (key, value) = entries[j];
                let ghost cur = es.take(j + 1);
                proof {
                    assert(cur.drop_last() =~= es.take(j as int));
                    assert(cur.last() == es[j as int]);
                    assert(es[j as int].0 == key@);
                    assert(es[j as int].1 == json_tree(*value));
                    lemma_entry_column_bounds(names, cur);
                    lemma_first_index_bounds(names, column_name(key@));
                }
                let name = column_name_of(key);
                match find_column(&*accs, &name) {
                    None => {},
                    Some(p) => {
                        if !seen[p] {
                            let ghost before = accs@;
                            assert(before[p as int].wf());
                            accs[p].observe_value(value);
                            seen.set(p, true);
                            proof {
                                assert forall|r: int| 0 <= r < accs@.len() implies (
                                #[trigger] accs@[r]).wf() by {
                                    if r != p {
                                        assert(accs@[r] == before[r]);
                                    }
                                }
                                assert(acc_names(accs@) =~= acc_names(before));
                                assert(acc_indices(accs@) =~= acc_indices(before));
                                assert(acc_stats(accs@) =~= acc_stats(before).update(
                                    p as int,
                                    observe_json(acc_stats(before)[p as int], json_tree(*value)),
                                ));
                            }
                        }
                    },
                }
                j = j + 1;
            }
            proof {
                assert(es.take(entries@.len() as int) =~= es);
            }
            let ghost mid = accs@;
            let ghost marks = seen@;
            let mut q: usize = 0;
            while q < n
                invariant
                    n == mid.len() == accs@.len() == marks.len(),
                    q <= n,
                    marks == seen@,
                    forall|r: int|
                        0 <= r < accs@.len() ==> (#[trigger] accs@[r]).name == mid[r].name
                            && accs@[r].index == mid[r].index && accs@[r].hll == mid[r].hll,
                    forall|r: int|
                        0 <= r < accs@.len() ==> (#[trigger] accs@[r]).stats() == (if r < q
                            && !marks[r] {
                            with_null(mid[r].stats())
                        } else {
                            mid[r].stats()
                        }),
                decreases n - q,
            {
                if !seen[q] {
                    accs[q].add_null();
                }
                q = q + 1;
            }
            proof {
                assert forall|r: int| 0 <= r < accs@.len() implies (#[trigger] accs@[r]).wf() by {
                    assert(mid[r].wf());
                }
                assert(acc_names(accs@) =~= acc_names(mid));
                assert(acc_indices(accs@) =~= acc_indices(mid));
                assert(acc_stats(accs@) =~= observe_row(acc_stats(start), names, json_tree(*row)));
            }
        },
        _ => {
            null_everywhere(accs);
            proof {
                assert(acc_stats(accs@) =~= observe_row(acc_stats(start), names, json_tree(*row)));
            }
        },
    }
}


// ---------------------------------------------------------------------------
// The schema of a JSON text
// ---------------------------------------------------------------------------

/// Index of the first row nested deeper than `MAX_JSON_DEPTH`, or the number
/// of rows when none is.
pub open spec fn first_too_deep(rows: Seq<JsonTree>) -> nat
    decreases rows.len(),
{
    if rows.len() == 0 {
        0
    } else {
        let k = first_too_deep(rows.drop_last());
        if k < rows.len() - 1 {
            k
        } else if depth_ok(rows.last(), 0) {
            rows.len()
        } else {
            (rows.len() - 1) as nat
        }
    }
}

/// The format's name in a schema.
pub open spec fn format_name(f: JsonFormat) -> Seq<char> {
    match f {
        JsonFormat::ObjectArray => seq!['j', 's', 'o', 'n'],
        JsonFormat::Ndjson => seq!['n', 'd', 'j', 's', 'o', 'n'],
    }
}

/// What the rows of a JSON text in layout `f` give: an error, or the
/// layout, the column names in order of index, the rows taken (at most
/// `MAX_ROWS`) and whether rows were left over.
pub open spec fn rows_outcome(f: JsonFormat, all: Seq<JsonTree>) -> Result<
    (JsonFormat, Seq<Seq<char>>, Seq<JsonTree>, bool),
    SchemaError,
> {
    if all.len() == 0 {
        Err(SchemaError::EmptyInput)
    } else {
        let truncated = all.len() > MAX_ROWS;
        let rows = if truncated {
            all.take(MAX_ROWS as int)
        } else {
            all
        };
        let d = first_too_deep(rows);
        if d < rows.len() {
            Err(SchemaError::NestingTooDeep { limit: MAX_JSON_DEPTH, detected_at_row: d as usize })
        } else {
            match discover_rows(rows) {
                Err(e) => Err(e),
                Ok(names) => if names.len() == 0 {
                    Err(SchemaError::EmptyInput)
                } else {
                    Ok((f, names, rows, truncated))
                },
            }
        }
    }
}

/// What a JSON text gives: an error, or its layout, its column names in
/// order of index, the rows taken (at most `MAX_ROWS`) and whether rows were
/// left over.
pub open spec fn json_outcome(input: Seq<char>) -> Result<
    (JsonFormat, Seq<Seq<char>>, Seq<JsonTree>, bool),
    SchemaError,
> {
    if all_space(input) {
        Err(SchemaError::EmptyInput)
    } else {
        match format_of(input) {
            None => Err(SchemaError::UnrecognizedFormat),
            Some(f) => match json_rows(input, f) {
                Err(e) => Err(e),
                Ok(all) => rows_outcome(f, all),
            },
        }
    }
}

/// `out` is the schema of JSON rows in layout `f` with the columns named
/// `cols`, each with its position as its index.
pub open spec fn json_schema_is(
    out: SchemaOutput,
    f: JsonFormat,
    cols: Seq<Seq<char>>,
    rows: Seq<JsonTree>,
    truncated: bool,
) -> bool {
    let stats = observe_rows(cols, rows);
    &&& out.row_count == rows.len()
    &&& out.truncated == truncated
    &&& out.detected_format@ == format_name(f)
    &&& out.schemasniff_version@ == crate::schemasniff_version()
    &&& out.chunk_count == 1
    &&& out.columns@.len() == cols.len()
    &&& forall|j: int|
        0 <= j < cols.len() ==> finished_as(
            #[trigger] out.columns@[j],
            cols[j],
            j as usize,
            stats[j],
            rows.len(),
        )
}

/// Parse a JSON or NDJSON string into a `SchemaOutput`.
pub fn parse_json(input: &str) -> (r: Result<SchemaOutput, SchemaError>)
    ensures
        match json_outcome(input@) {
            Err(e) => r == Err::<SchemaOutput, SchemaError>(e),
            Ok((f, cols, rows, t)) => r matches Ok(out) && json_schema_is(out, f, cols, rows, t),
        },
{
    let chars = chars_of(input);
    let (lo, hi) = trim_bounds(chars.as_slice());
    if lo == hi {
        return Err(SchemaError::EmptyInput);
    }
    let format = match detect_json_format(input) {
        Some(f) => f,
        None => return Err(SchemaError::UnrecognizedFormat),
    };
    let rows = parse_rows(input, format)?;
    schema_of_rows(format, rows)
}

/// The schema of JSON rows in layout `format` (see `rows_outcome`).
pub fn schema_of_rows(format: JsonFormat, values: Vec<Value>) -> (r: Result<SchemaOutput, SchemaError>)
    ensures
        match rows_outcome(format, trees(values@)) {
            Err(e) => r == Err::<SchemaOutput, SchemaError>(e),
            Ok((f, cols, taken, t)) => r matches Ok(out) && json_schema_is(out, f, cols, taken, t),
        },
{
    let ghost all = trees(values@);
    let mut rows = values;
    if rows.len() == 0 {
        return Err(SchemaError::EmptyInput);
    }
    let truncated = rows.len() > MAX_ROWS;
    if truncated {
        rows.truncate(MAX_ROWS);
    }
    let ghost taken = trees(rows@);
    proof {
        if truncated {
            assert(taken =~= all.take(MAX_ROWS as int));
        } else {
            assert(taken =~= all);
        }
    }
    let mut i: usize = 0;
    while i < rows.len()
        invariant
            all == trees(values@),
            all.len() > 0,
            truncated == (all.len() > MAX_ROWS),
            taken == (if truncated {
                all.take(MAX_ROWS as int)
            } else {
                all
            }),
            taken == trees(rows@),
            i <= rows@.len(),
            first_too_deep(taken.take(i as int)) == i,
        decreases rows@.len() - i,
    {
        proof {
            assert(taken.take(i + 1).drop_last() =~= taken.take(i as int));
            assert(taken.take(i + 1).last() == json_tree(rows@[i as int]));
        }
        match check_depth(&rows[i], 0, i) {
            Err(e) => {
                proof {
                    lemma_first_too_deep_prefix(taken, i + 1);
                }
                return Err(e);
            },
            Ok(()) => {},
        }
        i = i + 1;
    }
    proof {
        assert(taken.take(rows@.len() as int) =~= taken);
    }
    let found = discover_columns(&rows)?;
    let ghost cols = string_views(found@);
    if found.len() == 0 {
        return Err(SchemaError::EmptyInput);
    }
    let mut accs: Vec<ColumnAccumulator> = Vec::new();
    let mut j: usize = 0;
    let ghost no_rows: Seq<JsonTree> = Seq::empty();
    while j < found.len()
        invariant
            cols == string_views(found@),
            j <= found@.len(),
            accs@.len() == j,
            accs_wf(accs@),
            forall|q: int|
                0 <= q < j ==> (#[trigger] accs@[q]).name@ == cols[q] && accs@[q].index == q
                    && accs@[q].stats() == initial_stats(),
        decreases found@.len() - j,
    {
        let acc = ColumnAccumulator::new(found[j].clone(), j);
        accs.push(acc);
        j = j + 1;
    }
    let ghost positions = Seq::new(cols.len(), |q: int| q as nat);
    proof {
        assert(acc_names(accs@) =~= cols);
        assert(acc_indices(accs@) =~= positions);
        assert(taken.take(0) =~= no_rows);
        assert(acc_stats(accs@) =~= observe_rows(cols, taken.take(0)));
    }
    let mut i: usize = 0;
    while i < rows.len()
        invariant
            taken == trees(rows@),
            i <= rows@.len(),
            accs_wf(accs@),
            acc_names(accs@) == cols,
            acc_indices(accs@) == positions,
            positions.len() == cols.len(),
            forall|q: int| 0 <= q < positions.len() ==> #[trigger] positions[q] == q,
            acc_stats(accs@) == observe_rows(cols, taken.take(i as int)),
        decreases rows@.len() - i,
    {
        proof {
            assert(taken.take(i + 1).drop_last() =~= taken.take(i as int));
            assert(taken.take(i + 1).last() == json_tree(rows@[i as int]));
        }
        observe_json_row(&mut accs, &rows[i]);
        i = i + 1;
    }
    proof {
        assert(taken.take(rows@.len() as int) =~= taken);
    }
    let ghost finals = accs@;
    let row_count = rows.len() as u64;
    let columns = finish_all(accs, row_count);
    proof {
        assert forall|q: int| 0 <= q < cols.len() implies finished_as(
            #[trigger] columns@[q],
            cols[q],
            q as usize,
            observe_rows(cols, taken)[q],
            taken.len(),
        ) by {
            assert(acc_names(finals)[q] == finals[q].name@);
            assert(acc_indices(finals)[q] == finals[q].index);
            assert(positions[q] == q);
            assert(acc_stats(finals)[q] == finals[q].stats());
        }
    }
    let f = match format {
        JsonFormat::ObjectArray => "json",
        JsonFormat::Ndjson => "ndjson",
    };
    proof {
        reveal_strlit("json");
        reveal_strlit("ndjson");
        assert(f@ =~= format_name(format));
    }
    Ok(
        SchemaOutput {
            row_count,
            truncated,
            detected_format: String::from_str(f),
            schemasniff_version: crate::version_string(),
            chunk_count: 1,
            columns,
        },
    )
}

/// A failure within a prefix is the first failure.
proof fn lemma_first_too_deep_prefix(rows: Seq<JsonTree>, m: int)
    requires
        0 <= m <= rows.len(),
        first_too_deep(rows.take(m)) < m,
    ensures
        first_too_deep(rows) == first_too_deep(rows.take(m)),
    decreases rows.len() - m,
{
    if m < rows.len() {
        assert(rows.take(m + 1).drop_last() =~= rows.take(m));
        lemma_first_too_deep_prefix(rows, m + 1);
    } else {
        assert(rows.take(m) =~= rows);
    }
}

// ---------------------------------------------------------------------------
// What every JSON schema satisfies
// ---------------------------------------------------------------------------

/// Observing a JSON value keeps a column's bounds sound.
pub proof fn lemma_observe_json_sound(st: ColumnStats, t: JsonTree)
    requires
        bounds_sound(st),
    ensures
        bounds_sound(observe_json(st, t)),
{
    match t {
        JsonTree::Number(Some(i), _) => {
            lemma_int_number_finite(i as int);
            let voted = with_vote(
                with_value(st, vstd::utf8::encode_utf8(int_text(i as int))),
                InferredType::Integer,
            );
            lemma_with_number_sound(voted, int_number(i as int));
        },
        JsonTree::Number(None, Some(f)) => {
            if float_syntax(f) && decimal_finite(float_decimal(f)) {
                let voted = with_vote(with_value(st, vstd::utf8::encode_utf8(f)), InferredType::Float);
                lemma_with_number_sound(voted, float_decimal(f));
            }
        },
        JsonTree::Str(s) => {
            lemma_observe_cell_sound(st, s);
        },
        _ => {},
    }
}

/// Every column has sound bounds.
pub open spec fn all_sound(sts: Seq<ColumnStats>) -> bool {
    forall|q: int| 0 <= q < sts.len() ==> bounds_sound(#[trigger] sts[q])
}

proof fn lemma_observe_entries_sound(
    sts: Seq<ColumnStats>,
    names: Seq<Seq<char>>,
    es: Seq<(Seq<char>, JsonTree)>,
)
    requires
        all_sound(sts),
        names.len() == sts.len(),
    ensures
        all_sound(observe_entries(sts, names, es)),
        observe_entries(sts, names, es).len() == sts.len(),
    decreases es.len(),
{
    if es.len() > 0 {
        lemma_observe_entries_sound(sts, names, es.drop_last());
        let prev = observe_entries(sts, names, es.drop_last());
        let p = entry_column(names, es);
        lemma_entry_column_bounds(names, es);
        if p >= 0 {
            lemma_observe_json_sound(prev[p], es.last().1);
        }
    }
}

proof fn lemma_observe_rows_sound(names: Seq<Seq<char>>, rows: Seq<JsonTree>)
    ensures
        all_sound(observe_rows(names, rows)),
        observe_rows(names, rows).len() == names.len(),
    decreases rows.len(),
{
    if rows.len() > 0 {
        lemma_observe_rows_sound(names, rows.drop_last());
        let sts = observe_rows(names, rows.drop_last());
        if let JsonTree::Object(es) = rows.last() {
            lemma_observe_entries_sound(sts, names, es);
        }
    }
}

/// Every name has at most 256 characters.
pub open spec fn names_short(names: Seq<Seq<char>>) -> bool {
    forall|j: int| 0 <= j < names.len() ==> (#[trigger] names[j]).len() <= 256
}

proof fn lemma_discover_entries_bounds(names: Seq<Seq<char>>, es: Seq<(Seq<char>, JsonTree)>)
    requires
        names_short(names),
        distinct_names(names),
        names.len() <= MAX_COLS,
    ensures
        discover_entries(names, es) matches Ok(n2) ==> names_short(n2) && distinct_names(n2)
            && n2.len() <= MAX_COLS,
    decreases es.len(),
{
    if es.len() > 0 {
        lemma_discover_entries_bounds(names, es.drop_last());
        if let Ok(n1) = discover_entries(names, es.drop_last()) {
            let name = column_name(es.last().0);
            lemma_first_index_bounds(n1, name);
            if first_index(n1, name) < 0 && n1.len() < MAX_COLS {
                let n2 = n1.push(name);
                assert forall|i: int, j: int| 0 <= i < j < n2.len() implies n2[i] != n2[j] by {
                    if j == n1.len() {
                        assert(n2[i] == n1[i]);
                    } else {
                        assert(n2[i] == n1[i] && n2[j] == n1[j]);
                    }
                }
            }
        }
    }
}

/// The names found are distinct, at most `MAX_COLS` of them, each of at most
/// 256 characters.
proof fn lemma_discover_rows_bounds(rows: Seq<JsonTree>)
    ensures
        discover_rows(rows) matches Ok(names) ==> names_short(names) && distinct_names(names)
            && names.len() <= MAX_COLS,
    decreases rows.len(),
{
    if rows.len() > 0 {
        lemma_discover_rows_bounds(rows.drop_last());
        if let Ok(names) = discover_rows(rows.drop_last()) {
            if let JsonTree::Object(es) = rows.last() {
                lemma_discover_entries_bounds(names, es);
            }
        }
    }
}

/// Every schema a JSON parse gives has at least one row and at most
/// `MAX_ROWS` (exactly that many when truncated), a known format, at most
/// `MAX_COLS` columns with distinct names of at most 256 characters, each
/// column's index its position, and bounds only on numeric columns, finite
/// and in order.
pub proof fn lemma_json_schema_bounds(input: Seq<char>, out: SchemaOutput)
    requires
        json_outcome(input) matches Ok((f, cols, rows, t)) && json_schema_is(out, f, cols, rows, t),
    ensures
        known_format(out.detected_format@),
        0 < out.row_count <= MAX_ROWS,
        out.truncated ==> out.row_count == MAX_ROWS,
        out.columns@.len() <= MAX_COLS,
        forall|i: int, j: int|
            0 <= i < j < out.columns@.len() ==> (#[trigger] out.columns@[i]).name@ != (
            #[trigger] out.columns@[j]).name@,
        forall|j: int|
            0 <= j < out.columns@.len() ==> {
                let c = #[trigger] out.columns@[j];
                let numeric = c.inferred_type == InferredType::Integer || c.inferred_type
                    == InferredType::Float;
                &&& c.index == j
                &&& c.name@.len() <= 256
                &&& (!numeric ==> c.numeric_min is None && c.numeric_max is None)
                &&& (option_view(c.numeric_min) matches Some(v) ==> decimal_finite(v))
                &&& (option_view(c.numeric_max) matches Some(v) ==> decimal_finite(v))
                &&& match (option_view(c.numeric_min), option_view(c.numeric_max)) {
                    (Some(a), Some(b)) => !decimal_less(b, a),
                    _ => true,
                }
            },
{
    if let Ok((f, cols, rows, tr)) = json_outcome(input) {
        lemma_discover_rows_bounds(rows);
        lemma_observe_rows_sound(cols, rows);
        let sts = observe_rows(cols, rows);
        assert forall|i: int, j: int| 0 <= i < j < out.columns@.len() implies (
        #[trigger] out.columns@[i]).name@ != (#[trigger] out.columns@[j]).name@ by {
            assert(finished_as(out.columns@[i], cols[i], i as usize, sts[i], rows.len()));
            assert(finished_as(out.columns@[j], cols[j], j as usize, sts[j], rows.len()));
        }
        assert forall|j: int| 0 <= j < out.columns@.len() implies {
            let c = #[trigger] out.columns@[j];
            let numeric = c.inferred_type == InferredType::Integer || c.inferred_type
                == InferredType::Float;
            &&& c.index == j
            &&& c.name@.len() <= 256
            &&& (!numeric ==> c.numeric_min is None && c.numeric_max is None)
            &&& (option_view(c.numeric_min) matches Some(v) ==> decimal_finite(v))
            &&& (option_view(c.numeric_max) matches Some(v) ==> decimal_finite(v))
            &&& match (option_view(c.numeric_min), option_view(c.numeric_max)) {
                (Some(a), Some(b)) => !decimal_less(b, a),
                _ => true,
            }
        } by {
            assert(finished_as(out.columns@[j], cols[j], j as usize, sts[j], rows.len()));
            assert(bounds_sound(sts[j]));
            assert(cols[j].len() <= 256);
        }
    }
}

/// The number a JSON value brings to the bounds: an integer; another
/// number that is finite; a string that is an integer or float cell.
pub open spec fn value_number(t: JsonTree) -> Option<NumberView> {
    match t {
        JsonTree::Number(Some(i), _) => Some(int_number(i as int)),
        JsonTree::Number(None, Some(f)) => if float_syntax(f) && decimal_finite(float_decimal(f)) {
            Some(float_decimal(f))
        } else {
            None
        },
        JsonTree::Str(s) => cell_number(s),
        _ => None,
    }
}

/// Observing a JSON value keeps the bounds the least and the greatest of
/// the numbers seen, its own number included.
pub proof fn lemma_observe_json_extremes(st: ColumnStats, ns: Seq<NumberView>, t: JsonTree)
    requires
        least_of(st.min, ns),
        greatest_of(st.max, ns),
    ensures
        least_of(observe_json(st, t).min, push_number(ns, value_number(t))),
        greatest_of(observe_json(st, t).max, push_number(ns, value_number(t))),
{
    match t {
        JsonTree::Number(Some(i), _) => {
            let voted = with_vote(
                with_value(st, vstd::utf8::encode_utf8(int_text(i as int))),
                InferredType::Integer,
            );
            lemma_with_number_extremes(voted, ns, int_number(i as int));
        },
        JsonTree::Number(None, Some(f)) => {
            if float_syntax(f) && decimal_finite(float_decimal(f)) {
                let voted = with_vote(with_value(st, vstd::utf8::encode_utf8(f)), InferredType::Float);
                lemma_with_number_extremes(voted, ns, float_decimal(f));
            }
        },
        JsonTree::Str(s) => {
            lemma_observe_cell_extremes(st, ns, s);
        },
        _ => {},
    }
}

/// The numbers each column takes from one object's entries, in order (see
/// `entry_column`).
pub open spec fn entries_numbers(
    nss: Seq<Seq<NumberView>>,
    names: Seq<Seq<char>>,
    es: Seq<(Seq<char>, JsonTree)>,
) -> Seq<Seq<NumberView>>
    decreases es.len(),
{
    if es.len() == 0 {
        nss
    } else {
        let prev = entries_numbers(nss, names, es.drop_last());
        let p = entry_column(names, es);
        if p < 0 {
            prev
        } else {
            prev.update(p, push_number(prev[p], value_number(es.last().1)))
        }
    }
}

/// The numbers each column named `names` takes from `rows`.
pub open spec fn json_column_numbers(names: Seq<Seq<char>>, rows: Seq<JsonTree>) -> Seq<Seq<NumberView>>
    decreases rows.len(),
{
    if rows.len() == 0 {
        Seq::new(names.len(), |q: int| Seq::empty())
    } else {
        let prev = json_column_numbers(names, rows.drop_last());
        match rows.last() {
            JsonTree::Object(es) => entries_numbers(prev, names, es),
            _ => prev,
        }
    }
}

/// Each column's bounds are the least and the greatest of its numbers.
pub open spec fn all_extremes(sts: Seq<ColumnStats>, nss: Seq<Seq<NumberView>>) -> bool {
    &&& sts.len() == nss.len()
    &&& forall|q: int|
        0 <= q < sts.len() ==> least_of((#[trigger] sts[q]).min, nss[q]) && greatest_of(
            sts[q].max,
            nss[q],
        )
}

proof fn lemma_observe_entries_extremes(
    sts: Seq<ColumnStats>,
    nss: Seq<Seq<NumberView>>,
    names: Seq<Seq<char>>,
    es: Seq<(Seq<char>, JsonTree)>,
)
    requires
        all_extremes(sts, nss),
        names.len() == sts.len(),
    ensures
        all_extremes(observe_entries(sts, names, es), entries_numbers(nss, names, es)),
    decreases es.len(),
{
    if es.len() > 0 {
        lemma_observe_entries_extremes(sts, nss, names, es.drop_last());
        lemma_observe_entries_len(sts, names, es.drop_last());
        let prev = observe_entries(sts, names, es.drop_last());
        let pn = entries_numbers(nss, names, es.drop_last());
        let p = entry_column(names, es);
        lemma_entry_column_bounds(names, es);
        if p >= 0 {
            assert(least_of(prev[p].min, pn[p]) && greatest_of(prev[p].max, pn[p]));
            lemma_observe_json_extremes(prev[p], pn[p], es.last().1);
        }
    }
}

proof fn lemma_observe_entries_len(sts: Seq<ColumnStats>, names: Seq<Seq<char>>, es: Seq<(Seq<char>, JsonTree)>)
    requires
        names.len() == sts.len(),
    ensures
        observe_entries(sts, names, es).len() == sts.len(),
    decreases es.len(),
{
    if es.len() > 0 {
        lemma_observe_entries_len(sts, names, es.drop_last());
        lemma_entry_column_bounds(names, es);
    }
}

/// The bounds of every JSON column are the least and the greatest of the
/// numbers its values hold, and there are none when they hold none.
pub proof fn lemma_json_column_extremes(names: Seq<Seq<char>>, rows: Seq<JsonTree>)
    ensures
        all_extremes(observe_rows(names, rows), json_column_numbers(names, rows)),
    decreases rows.len(),
{
    if rows.len() == 0 {
        assert(all_extremes(observe_rows(names, rows), json_column_numbers(names, rows)));
    } else {
        lemma_json_column_extremes(names, rows.drop_last());
        lemma_observe_rows_sound(names, rows.drop_last());
        let sts = observe_rows(names, rows.drop_last());
        let nss = json_column_numbers(names, rows.drop_last());
        if let JsonTree::Object(es) = rows.last() {
            lemma_observe_entries_extremes(sts, nss, names, es);
            lemma_observe_entries_len(sts, names, es);
            lemma_entries_seen_len(names, es);
        }
    }
}

/// Observing an object's entries adds at most one null to a column the
/// entries reach, and none to any other.
proof fn lemma_observe_entries_nulls(sts: Seq<ColumnStats>, names: Seq<Seq<char>>, es: Seq<(Seq<char>, JsonTree)>)
    requires
        names.len() == sts.len(),
    ensures
        ({
            let r = observe_entries(sts, names, es);
            let seen = entries_seen(names, es);
            &&& r.len() == sts.len()
            &&& seen.len() == sts.len()
            &&& forall|q: int|
                0 <= q < sts.len() ==> (#[trigger] r[q]).nulls <= sts[q].nulls + (if seen[q] {
                    1int
                } else {
                    0int
                })
        }),
    decreases es.len(),
{
    lemma_observe_entries_len(sts, names, es);
    lemma_entries_seen_len(names, es);
    if es.len() > 0 {
        let e0 = es.drop_last();
        lemma_observe_entries_nulls(sts, names, e0);
        lemma_entry_column_bounds(names, es);
        lemma_first_index_bounds(names, column_name(es.last().0));
        let prev = observe_entries(sts, names, e0);
        let p = entry_column(names, es);
        if p >= 0 {
            assert(observe_json(prev[p], es.last().1).nulls <= prev[p].nulls + 1);
        }
    }
}

/// Each row adds at most one null to each column.
proof fn lemma_observe_rows_nulls(names: Seq<Seq<char>>, rows: Seq<JsonTree>)
    ensures
        ({
            let sts = observe_rows(names, rows);
            &&& sts.len() == names.len()
            &&& forall|q: int| 0 <= q < names.len() ==> (#[trigger] sts[q]).nulls <= rows.len()
        }),
    decreases rows.len(),
{
    lemma_observe_rows_sound(names, rows);
    if rows.len() > 0 {
        lemma_observe_rows_nulls(names, rows.drop_last());
        let sts = observe_rows(names, rows.drop_last());
        if let JsonTree::Object(es) = rows.last() {
            lemma_observe_entries_nulls(sts, names, es);
        }
    }
}

/// Every schema a JSON parse gives passes the output checks: a known
/// format, and columns of at most `MAX_COLS`, each with a short name, a
/// null ratio in [0, 1] and at most as many nulls as rows, and finite,
/// ordered bounds only where the type is numeric.
pub proof fn lemma_json_schema_sound(input: Seq<char>, out: SchemaOutput)
    requires
        json_outcome(input) matches Ok((f, cols, rows, t)) && json_schema_is(out, f, cols, rows, t),
    ensures
        output_check(out) is Ok,
{
    lemma_json_schema_bounds(input, out);
    if let Ok((f, cols, rows, tr)) = json_outcome(input) {
        lemma_observe_rows_nulls(cols, rows);
        let sts = observe_rows(cols, rows);
        let cs = out.columns@;
        assert forall|j: int| 0 <= j < cs.len() implies column_sound(#[trigger] cs[j], out.row_count) by {
            assert(finished_as(cs[j], cols[j], j as usize, sts[j], rows.len()));
            assert(sts[j].nulls <= rows.len());
        }
        lemma_first_unsound(cs, out.row_count, cs.len() as int);
    }
}

/// The text a JSON value is known by in its column's cardinality sketch: a
/// boolean by `true` or `false`; an integer by its decimal digits, after a
/// `-` when negative; another finite number by the text of its `f64`; a
/// string of 1 to `MAX_CELL_BYTES` bytes by itself. A null, a number that is
/// not finite, an array and an object go into no sketch.
pub open spec fn sketch_text(t: JsonTree) -> Option<Seq<char>> {
    match t {
        JsonTree::Bool(b) => Some(if b { "true"@ } else { "false"@ }),
        JsonTree::Number(Some(i), _) => Some(
            if i < 0 {
                seq!['-'] + decimal_text((-i) as nat)
            } else {
                decimal_text(i as nat)
            },
        ),
        JsonTree::Number(None, Some(f)) => if float_syntax(f) && decimal_finite(float_decimal(f)) {
            Some(f)
        } else {
            None
        },
        JsonTree::Str(s) => if s.len() > 0 && vstd::utf8::encode_utf8(s).len() <= MAX_CELL_BYTES {
            Some(s)
        } else {
            None
        },
        _ => None,
    }
}

/// `ts` with the bytes of the text `o` after it, if there is one.
pub open spec fn push_text(ts: Seq<Seq<u8>>, o: Option<Seq<char>>) -> Seq<Seq<u8>> {
    match o {
        Some(x) => ts.push(vstd::utf8::encode_utf8(x)),
        None => ts,
    }
}

/// Observing a JSON value puts its text into the column's sketch (see
/// `sketch_text`) and changes the sketch in no other way.
pub proof fn lemma_observe_json_sketch(st: ColumnStats, t: JsonTree)
    ensures
        observe_json(st, t).registers == (match sketch_text(t) {
            Some(x) => sketch_insert(st.registers, vstd::utf8::encode_utf8(x)),
            None => st.registers,
        }),
{
    match t {
        JsonTree::Number(Some(i), _) => {
            assert(sketch_text(t) == Some(int_text(i as int)));
        },
        JsonTree::Str(s) => {
            if s.len() > 0 && vstd::utf8::encode_utf8(s).len() <= MAX_CELL_BYTES {
                let typed = with_typed_text(with_value(st, vstd::utf8::encode_utf8(s)), s);
                assert(typed.registers == sketch_insert(st.registers, vstd::utf8::encode_utf8(s)));
                assert(with_null(typed).registers == typed.registers);
            }
        },
        _ => {},
    }
}

/// The texts each column takes into its sketch from one object's entries,
/// in order (see `entry_column`).
pub open spec fn entries_texts(
    tss: Seq<Seq<Seq<u8>>>,
    names: Seq<Seq<char>>,
    es: Seq<(Seq<char>, JsonTree)>,
) -> Seq<Seq<Seq<u8>>>
    decreases es.len(),
{
    if es.len() == 0 {
        tss
    } else {
        let prev = entries_texts(tss, names, es.drop_last());
        let p = entry_column(names, es);
        if p < 0 {
            prev
        } else {
            prev.update(p, push_text(prev[p], sketch_text(es.last().1)))
        }
    }
}

/// The texts each column named `names` takes from `rows`, in order.
pub open spec fn json_column_texts(names: Seq<Seq<char>>, rows: Seq<JsonTree>) -> Seq<Seq<Seq<u8>>>
    decreases rows.len(),
{
    if rows.len() == 0 {
        Seq::new(names.len(), |q: int| Seq::empty())
    } else {
        let prev = json_column_texts(names, rows.drop_last());
        match rows.last() {
            JsonTree::Object(es) => entries_texts(prev, names, es),
            _ => prev,
        }
    }
}

/// Each column's sketch is the sketch of its texts.
pub open spec fn all_sketched(sts: Seq<ColumnStats>, tss: Seq<Seq<Seq<u8>>>) -> bool {
    &&& sts.len() == tss.len()
    &&& forall|q: int|
        0 <= q < sts.len() ==> (#[trigger] sts[q]).registers == sketch_insert_all(empty_registers(), tss[q])
}

proof fn lemma_push_text_sketch(ts: Seq<Seq<u8>>, o: Option<Seq<char>>)
    ensures
        sketch_insert_all(empty_registers(), push_text(ts, o)) == (match o {
            Some(x) => sketch_insert(sketch_insert_all(empty_registers(), ts), vstd::utf8::encode_utf8(x)),
            None => sketch_insert_all(empty_registers(), ts),
        }),
{
    if let Some(x) = o {
        assert(ts.push(vstd::utf8::encode_utf8(x)).drop_last() =~= ts);
    }
}

proof fn lemma_observe_entries_sketch(
    sts: Seq<ColumnStats>,
    tss: Seq<Seq<Seq<u8>>>,
    names: Seq<Seq<char>>,
    es: Seq<(Seq<char>, JsonTree)>,
)
    requires
        all_sketched(sts, tss),
        names.len() == sts.len(),
    ensures
        all_sketched(observe_entries(sts, names, es), entries_texts(tss, names, es)),
    decreases es.len(),
{
    if es.len() > 0 {
        lemma_observe_entries_sketch(sts, tss, names, es.drop_last());
        lemma_observe_entries_len(sts, names, es.drop_last());
        let prev = observe_entries(sts, names, es.drop_last());
        let pt = entries_texts(tss, names, es.drop_last());
        let p = entry_column(names, es);
        lemma_entry_column_bounds(names, es);
        if p >= 0 {
            lemma_observe_json_sketch(prev[p], es.last().1);
            lemma_push_text_sketch(pt[p], sketch_text(es.last().1));
        }
    }
}

/// The sketch of every JSON column is the sketch of the texts of the values
/// it took, in order (see `sketch_text`): every value that is not a null
/// goes into it, and nothing else. By `lemma_sketch_set`, it then depends
/// only on the set of those texts.
pub proof fn lemma_json_column_sketch(names: Seq<Seq<char>>, rows: Seq<JsonTree>)
    ensures
        all_sketched(observe_rows(names, rows), json_column_texts(names, rows)),
    decreases rows.len(),
{
    if rows.len() == 0 {
        assert(all_sketched(observe_rows(names, rows), json_column_texts(names, rows)));
    } else {
        lemma_json_column_sketch(names, rows.drop_last());
        lemma_observe_rows_sound(names, rows.drop_last());
        let sts = observe_rows(names, rows.drop_last());
        let tss = json_column_texts(names, rows.drop_last());
        if let JsonTree::Object(es) = rows.last() {
            lemma_observe_entries_sketch(sts, tss, names, es);
            lemma_observe_entries_len(sts, names, es);
            lemma_entries_seen_len(names, es);
        }
    }
}

} // verus!
