//! Per-column statistics gathered while streaming cells: type votes, null
//! count, exact numeric bounds and the cardinality sketch.
use vstd::prelude::*;
use vstd::string::{StrSliceExecFns, StringExecFns};
use crate::cell::{cell_type, i64_max, infer_cell_type, is_integer_text, unsigned_text};
use crate::hll::{empty_registers, register_count, sketch_insert, Hll};
use crate::number::{
    all_digit_chars, decimal_less, digits_value, first_dot, first_exp_mark, float_body,
    float_decimal, float_frac_part, float_has_exponent, float_int_part, float_mantissa,
    float_mantissa_digits, float_scale, float_syntax, is_exp_mark, is_finite_float_text,
    lemma_float_text_finite, lemma_pow10_increases, lemma_threshold_bounds, parse_float_text,
    pow10, sign_len, decimal_finite, lemma_decimal_less_transitive, Decimal,
};
use crate::text::{chars_of, lemma_bytes_at_least, lemma_trimmed_len, trim_chars, trimmed};
use crate::{ColumnMeta, InferredType, Ratio, MAX_CELL_BYTES};

verus! {

/// A decimal view: sign, significant digits, exponent of ten.
pub type NumberView = (bool, Seq<u8>, int);

/// What a column has seen so far.
pub struct ColumnStats {
    pub integer: nat,
    pub float: nat,
    pub boolean: nat,
    pub date: nat,
    pub string: nat,
    pub nulls: nat,
    pub min: Option<NumberView>,
    pub max: Option<NumberView>,
    pub registers: Seq<u8>,
}

/// A column that has seen nothing.
pub open spec fn initial_stats() -> ColumnStats {
    ColumnStats {
        integer: 0,
        float: 0,
        boolean: 0,
        date: 0,
        string: 0,
        nulls: 0,
        min: None,
        max: None,
        registers: empty_registers(),
    }
}

/// The smaller of the bound so far and `v`.
pub open spec fn bound_min(b: Option<NumberView>, v: NumberView) -> Option<NumberView> {
    match b {
        None => Some(v),
        Some(m) => if decimal_less(v, m) {
            Some(v)
        } else {
            Some(m)
        },
    }
}

/// The larger of the bound so far and `v`.
pub open spec fn bound_max(b: Option<NumberView>, v: NumberView) -> Option<NumberView> {
    match b {
        None => Some(v),
        Some(m) => if decimal_less(m, v) {
            Some(v)
        } else {
            Some(m)
        },
    }
}

/// Both bounds widened to take in `v`.
pub open spec fn with_number(st: ColumnStats, v: NumberView) -> ColumnStats {
    ColumnStats { min: bound_min(st.min, v), max: bound_max(st.max, v), ..st }
}

/// The number an integer cell denotes (an integer zero has no sign).
pub open spec fn integer_number(s: Seq<char>) -> NumberView {
    let d = float_decimal(s);
    (d.0 && d.1.len() > 0, d.1, d.2)
}

/// A count one higher, held at `u64::MAX`, the most a counter can hold.
pub open spec fn bump(n: nat) -> nat {
    if n < u64::MAX {
        n + 1
    } else {
        n
    }
}

/// A vote for type `t` (and no other change).
pub open spec fn with_vote(st: ColumnStats, t: InferredType) -> ColumnStats {
    match t {
        InferredType::Integer => ColumnStats { integer: bump(st.integer), ..st },
        InferredType::Float => ColumnStats { float: bump(st.float), ..st },
        InferredType::Boolean => ColumnStats { boolean: bump(st.boolean), ..st },
        InferredType::Date => ColumnStats { date: bump(st.date), ..st },
        InferredType::String => ColumnStats { string: bump(st.string), ..st },
        InferredType::Unknown => st,
    }
}

/// One more null.
pub open spec fn with_null(st: ColumnStats) -> ColumnStats {
    ColumnStats { nulls: bump(st.nulls), ..st }
}

/// The value observed, by its bytes, in the cardinality sketch.
pub open spec fn with_value(st: ColumnStats, bytes: Seq<u8>) -> ColumnStats {
    ColumnStats { registers: sketch_insert(st.registers, bytes), ..st }
}

/// What a typed text value adds: a vote for its type, and for an integer or
/// float its number to the bounds.
pub open spec fn with_typed_text(st: ColumnStats, raw: Seq<char>) -> ColumnStats {
    let t = cell_type(raw);
    let voted = with_vote(st, t);
    if t == InferredType::Integer {
        with_number(voted, integer_number(trimmed(raw)))
    } else if t == InferredType::Float {
        with_number(voted, float_decimal(trimmed(raw)))
    } else {
        voted
    }
}

/// Observing one CSV cell: an empty cell, or one over `MAX_CELL_BYTES`
/// bytes, is a null; any other is hashed into the sketch and typed.
pub open spec fn observe_cell(st: ColumnStats, raw: Seq<char>) -> ColumnStats {
    let bytes = vstd::utf8::encode_utf8(raw);
    if bytes.len() > MAX_CELL_BYTES || raw.len() == 0 {
        with_null(st)
    } else {
        with_typed_text(with_value(st, bytes), raw)
    }
}

/// The larger of two integers.
pub open spec fn max2(a: int, b: int) -> int {
    if a >= b {
        a
    } else {
        b
    }
}

/// Majority vote with priority on ties: Integer > Float > Boolean > Date >
/// String; fewer than two typed (non-null) values give `Unknown`.
pub open spec fn dominant_type(st: ColumnStats) -> InferredType {
    let m = max2(max2(max2(max2(st.integer as int, st.float as int), st.boolean as int), st.date as int), st.string as int);
    if st.integer + st.float + st.boolean + st.date + st.string < 2 {
        InferredType::Unknown
    } else if st.integer == m {
        InferredType::Integer
    } else if st.float == m {
        InferredType::Float
    } else if st.boolean == m {
        InferredType::Boolean
    } else if st.date == m {
        InferredType::Date
    } else {
        InferredType::String
    }
}

/// The votes a column holds for type `t` (`Unknown` takes no votes).
pub open spec fn votes_for(st: ColumnStats, t: InferredType) -> nat {
    match t {
        InferredType::Integer => st.integer,
        InferredType::Float => st.float,
        InferredType::Boolean => st.boolean,
        InferredType::Date => st.date,
        InferredType::String => st.string,
        InferredType::Unknown => 0,
    }
}

/// The place of a type in the order that breaks ties: Integer first, then
/// Float, Boolean, Date, String.
pub open spec fn tie_rank(t: InferredType) -> int {
    match t {
        InferredType::Integer => 0,
        InferredType::Float => 1,
        InferredType::Boolean => 2,
        InferredType::Date => 3,
        InferredType::String => 4,
        InferredType::Unknown => 5,
    }
}

/// The vote: with fewer than two typed values the type is `Unknown`; with
/// two or more it is a typed one holding the most votes, no type holding
/// more, and every type before it in the tie order holding fewer.
pub proof fn lemma_dominant_is_majority(st: ColumnStats)
    ensures
        (dominant_type(st) == InferredType::Unknown) == (st.integer + st.float + st.boolean + st.date
            + st.string < 2),
        forall|t: InferredType| #[trigger]
            votes_for(st, t) <= votes_for(st, dominant_type(st)) || dominant_type(st)
                == InferredType::Unknown,
        forall|t: InferredType|
            #![trigger votes_for(st, t), tie_rank(t)]
            tie_rank(t) < tie_rank(dominant_type(st)) && dominant_type(st) != InferredType::Unknown
                ==> votes_for(st, t) < votes_for(st, dominant_type(st)),
{
}

/// `null_count / total_rows`, or `0 / 1` when there are no rows.
pub open spec fn null_ratio_of(nulls: nat, total_rows: nat) -> Ratio {
    if total_rows == 0 {
        Ratio { numerator: 0, denominator: 1 }
    } else {
        Ratio { numerator: nulls as u64, denominator: total_rows as u64 }
    }
}

/// An optional decimal, by its view.
pub open spec fn option_view(o: Option<Decimal>) -> Option<NumberView> {
    match o {
        None => None,
        Some(d) => Some(d@),
    }
}

/// `meta` is the finished column `name` at `index` with statistics `st`
/// over `total_rows` rows: bounds only for a numeric type.
pub open spec fn finished_as(
    meta: ColumnMeta,
    name: Seq<char>,
    index: usize,
    st: ColumnStats,
    total_rows: nat,
) -> bool {
    let t = dominant_type(st);
    let numeric = t == InferredType::Integer || t == InferredType::Float;
    &&& meta.name@ == name
    &&& meta.index == index
    &&& meta.inferred_type == t
    &&& meta.nullable == (st.nulls > 0)
    &&& meta.null_count == st.nulls
    &&& meta.null_ratio == null_ratio_of(st.nulls, total_rows)
    &&& option_view(meta.numeric_min) == (if numeric { st.min } else { None })
    &&& option_view(meta.numeric_max) == (if numeric { st.max } else { None })
    &&& meta.cardinality@ == st.registers
}

/// Type votes of one column.
pub struct TypeVotes {
    pub integer: u64,
    pub float: u64,
    pub boolean: u64,
    pub date: u64,
    pub string: u64,
}

/// Per-column accumulator.
pub struct ColumnAccumulator {
    pub name: String,
    pub index: usize,
    pub votes: TypeVotes,
    pub null_count: u64,
    pub numeric_min: Option<Decimal>,
    pub numeric_max: Option<Decimal>,
    pub hll: Hll,
}

impl ColumnAccumulator {
    /// What this accumulator has seen.
    pub open spec fn stats(&self) -> ColumnStats {
        ColumnStats {
            integer: self.votes.integer as nat,
            float: self.votes.float as nat,
            boolean: self.votes.boolean as nat,
            date: self.votes.date as nat,
            string: self.votes.string as nat,
            nulls: self.null_count as nat,
            min: option_view(self.numeric_min),
            max: option_view(self.numeric_max),
            registers: self.hll@,
        }
    }

    /// The sketch has one register per index.
    pub open spec fn wf(&self) -> bool {
        self.hll.wf()
    }

    /// An accumulator that has seen nothing.
    pub fn new(name: String, index: usize) -> (acc: ColumnAccumulator)
        ensures
            acc.wf(),
            acc.name == name,
            acc.index == index,
            acc.stats() == initial_stats(),
    {
        ColumnAccumulator {
            name,
            index,
            votes: TypeVotes { integer: 0, float: 0, boolean: 0, date: 0, string: 0 },
            null_count: 0,
            numeric_min: None,
            numeric_max: None,
            hll: Hll::new(),
        }
    }

    /// Count a null.
    pub fn add_null(&mut self)
        ensures
            final(self).stats() == with_null(old(self).stats()),
            final(self).name == old(self).name,
            final(self).index == old(self).index,
            final(self).hll == old(self).hll,
            final(self).votes == old(self).votes,
    {
        self.null_count = self.null_count.saturating_add(1);
    }

    /// Count a vote for `t`.
    pub fn add_vote(&mut self, t: InferredType)
        ensures
            final(self).stats() == with_vote(old(self).stats(), t),
            final(self).name == old(self).name,
            final(self).index == old(self).index,
            final(self).hll == old(self).hll,
    {
        match t {
            InferredType::Integer => self.votes.integer = self.votes.integer.saturating_add(1),
            InferredType::Float => self.votes.float = self.votes.float.saturating_add(1),
            InferredType::Boolean => self.votes.boolean = self.votes.boolean.saturating_add(1),
            InferredType::Date => self.votes.date = self.votes.date.saturating_add(1),
            InferredType::String => self.votes.string = self.votes.string.saturating_add(1),
            InferredType::Unknown => {},
        }
    }

    /// Widen the numeric bounds to take in `v`.
    pub fn update_bounds(&mut self, v: Decimal)
        ensures
            final(self).stats() == with_number(old(self).stats(), v@),
            final(self).name == old(self).name,
            final(self).index == old(self).index,
            final(self).hll == old(self).hll,
            final(self).votes == old(self).votes,
            final(self).null_count == old(self).null_count,
    {
        let new_min = match &self.numeric_min {
            None => v.copy(),
            Some(m) => if v.less(m) {
                v.copy()
            } else {
                m.copy()
            },
        };
        let new_max = match &self.numeric_max {
            None => v,
            Some(m) => if m.less(&v) {
                v
            } else {
                m.copy()
            },
        };
        self.numeric_min = Some(new_min);
        self.numeric_max = Some(new_max);
    }

    /// Observe one CSV cell. Oversized cells are counted as null.
    pub fn observe(&mut self, raw: &str)
        requires
            old(self).wf(),
        ensures
            final(self).wf(),
            final(self).stats() == observe_cell(old(self).stats(), raw@),
            final(self).name == old(self).name,
            final(self).index == old(self).index,
    {
        let bytes = raw.as_bytes();
        if bytes.len() > MAX_CELL_BYTES || raw.is_empty() {
            self.add_null();
            return ;
        }
        self.hll.insert_bytes(bytes);
        let _ = self.observe_typed(raw);
    }

    /// Vote for the type of a non-null text value, and take its number into
    /// the bounds when it is an integer or a float.
    pub fn observe_typed(&mut self, raw: &str) -> (t: InferredType)
        ensures
            t == cell_type(raw@),
            final(self).stats() == with_typed_text(old(self).stats(), raw@),
            final(self).name == old(self).name,
            final(self).index == old(self).index,
            final(self).hll == old(self).hll,
    {
        let t = infer_cell_type(raw);
        self.add_vote(t);
        match t {
            InferredType::Integer => {
                let chars = chars_of(raw);
                let s = trim_chars(chars.as_slice());
                proof {
                    lemma_integer_text_syntax(s@);
                }
                match parse_float_text(s.as_slice()) {
                    Some(d) => self.update_bounds(d.unsigned_zero()),
                    None => {},
                }
            },
            InferredType::Float => {
                let chars = chars_of(raw);
                let s = trim_chars(chars.as_slice());
                match parse_float_text(s.as_slice()) {
                    Some(d) => self.update_bounds(d),
                    None => {},
                }
            },
            _ => {},
        }
        t
    }

    /// The finished column over `total_rows` rows.
    pub fn finish(self, total_rows: u64) -> (meta: ColumnMeta)
        ensures
            finished_as(meta, self.name@, self.index, self.stats(), total_rows as nat),
    {
        let inferred_type = self.votes.dominant();
        let null_ratio = if total_rows == 0 {
            Ratio { numerator: 0, denominator: 1 }
        } else {
            Ratio { numerator: self.null_count, denominator: total_rows }
        };
        let numeric = match inferred_type {
            InferredType::Integer | InferredType::Float => true,
            _ => false,
        };
        let (numeric_min, numeric_max) = if numeric {
            (self.numeric_min, self.numeric_max)
        } else {
            (None, None)
        };
        ColumnMeta {
            name: self.name,
            index: self.index,
            inferred_type,
            nullable: self.null_count > 0,
            null_count: self.null_count,
            null_ratio,
            numeric_min,
            numeric_max,
            cardinality: self.hll,
        }
    }
}

impl TypeVotes {
    /// Majority vote with priority: Integer > Float > Boolean > Date > String;
    /// fewer than two votes is `Unknown`.
    pub fn dominant(&self) -> (t: InferredType)
        ensures
            t == dominant_type(
                ColumnStats {
                    integer: self.integer as nat,
                    float: self.float as nat,
                    boolean: self.boolean as nat,
                    date: self.date as nat,
                    string: self.string as nat,
                    ..initial_stats()
                },
            ),
    {
        let total = self.integer as u128 + self.float as u128 + self.boolean as u128
            + self.date as u128 + self.string as u128;
        if total < 2 {
            return InferredType::Unknown;
        }
        let mut max = self.integer;
        if self.float > max {
            max = self.float;
        }
        if self.boolean > max {
            max = self.boolean;
        }
        if self.date > max {
            max = self.date;
        }
        if self.string > max {
            max = self.string;
        }
        if self.integer == max {
            InferredType::Integer
        } else if self.float == max {
            InferredType::Float
        } else if self.boolean == max {
            InferredType::Boolean
        } else if self.date == max {
            InferredType::Date
        } else {
            InferredType::String
        }
    }
}

/// An integer cell is also a number in the grammar of `f64::from_str`.
pub proof fn lemma_integer_text_syntax(s: Seq<char>)
    requires
        is_integer_text(s),
    ensures
        float_syntax(s),
        float_int_part(s) == unsigned_text(s),
        float_frac_part(s).len() == 0,
        !float_has_exponent(s),
{
    let u = float_body(s);
    assert(u =~= unsigned_text(s));
    let d = unsigned_text(s);
    assert forall|i: int| 0 <= i < u.len() implies !is_exp_mark(#[trigger] u[i]) && u[i] != '.' by {
        assert(crate::number::is_digit_char(d[i]));
    }
    lemma_first_none(u);
    assert(float_mantissa(s) =~= u);
    assert(float_int_part(s) =~= u);
}

/// A column's bounds are finite and in order (the lower not above the
/// upper), and one is there exactly when the other is.
pub open spec fn bounds_sound(st: ColumnStats) -> bool {
    &&& (st.min is Some) == (st.max is Some)
    &&& (st.min matches Some(a) ==> decimal_finite(a))
    &&& (st.max matches Some(b) ==> decimal_finite(b))
    &&& match (st.min, st.max) {
        (Some(a), Some(b)) => !decimal_less(b, a),
        _ => true,
    }
}

/// No number is below itself.
pub proof fn lemma_decimal_less_irreflexive(a: NumberView)
    ensures
        !decimal_less(a, a),
{
    assert(pow10(0) == 1);
}

/// Taking a finite number into sound bounds keeps them sound.
pub proof fn lemma_with_number_sound(st: ColumnStats, v: NumberView)
    requires
        bounds_sound(st),
        decimal_finite(v),
    ensures
        bounds_sound(with_number(st, v)),
{
    lemma_decimal_less_irreflexive(v);
}

/// Observing a cell keeps a column's bounds sound, and adds at most one null.
pub proof fn lemma_observe_cell_sound(st: ColumnStats, raw: Seq<char>)
    requires
        bounds_sound(st),
    ensures
        bounds_sound(observe_cell(st, raw)),
        observe_cell(st, raw).nulls <= st.nulls + 1,
{
    let bytes = vstd::utf8::encode_utf8(raw);
    if !(bytes.len() > MAX_CELL_BYTES || raw.len() == 0) {
        let s = trimmed(raw);
        lemma_trimmed_len(raw);
        lemma_bytes_at_least(raw);
        let t = cell_type(raw);
        let voted = with_vote(with_value(st, bytes), t);
        if t == InferredType::Integer {
            lemma_integer_text_finite(s);
            lemma_float_text_finite(s);
            lemma_with_number_sound(voted, integer_number(s));
        } else if t == InferredType::Float {
            lemma_float_text_finite(s);
            lemma_with_number_sound(voted, float_decimal(s));
        }
    }
}

/// `m` is the least of `ns`: one of them, none below it; none at all when
/// `ns` is empty.
pub open spec fn least_of(m: Option<NumberView>, ns: Seq<NumberView>) -> bool {
    match m {
        None => ns.len() == 0,
        Some(a) => ns.contains(a) && forall|k: int| 0 <= k < ns.len() ==> !decimal_less(#[trigger] ns[k], a),
    }
}

/// `m` is the greatest of `ns`: one of them, none above it; none at all when
/// `ns` is empty.
pub open spec fn greatest_of(m: Option<NumberView>, ns: Seq<NumberView>) -> bool {
    match m {
        None => ns.len() == 0,
        Some(a) => ns.contains(a) && forall|k: int| 0 <= k < ns.len() ==> !decimal_less(a, #[trigger] ns[k]),
    }
}

/// `ns` with the number `o` after it, if there is one.
pub open spec fn push_number(ns: Seq<NumberView>, o: Option<NumberView>) -> Seq<NumberView> {
    match o {
        Some(v) => ns.push(v),
        None => ns,
    }
}

/// Taking a number into the bounds keeps them the least and the greatest
/// of the numbers seen.
pub proof fn lemma_with_number_extremes(st: ColumnStats, ns: Seq<NumberView>, v: NumberView)
    requires
        least_of(st.min, ns),
        greatest_of(st.max, ns),
    ensures
        least_of(with_number(st, v).min, ns.push(v)),
        greatest_of(with_number(st, v).max, ns.push(v)),
{
    let ns2 = ns.push(v);
    lemma_decimal_less_irreflexive(v);
    assert(ns2[ns.len() as int] == v);
    match st.min {
        None => {},
        Some(m) => {
            assert(ns.contains(m));
            let i = choose|i: int| 0 <= i < ns.len() && ns[i] == m;
            assert(ns2[i] == m);
            assert forall|k: int| 0 <= k < ns2.len() implies !decimal_less(
                #[trigger] ns2[k],
                with_number(st, v).min->Some_0,
            ) by {
                if k < ns.len() {
                    assert(ns2[k] == ns[k]);
                    if decimal_less(v, m) && decimal_less(ns[k], v) {
                        lemma_decimal_less_transitive(ns[k], v, m);
                    }
                }
            }
        },
    }
    match st.max {
        None => {},
        Some(m) => {
            assert(ns.contains(m));
            let i = choose|i: int| 0 <= i < ns.len() && ns[i] == m;
            assert(ns2[i] == m);
            assert forall|k: int| 0 <= k < ns2.len() implies !decimal_less(
                with_number(st, v).max->Some_0,
                #[trigger] ns2[k],
            ) by {
                if k < ns.len() {
                    assert(ns2[k] == ns[k]);
                    if decimal_less(m, v) && decimal_less(v, ns[k]) {
                        lemma_decimal_less_transitive(m, v, ns[k]);
                    }
                }
            }
        },
    }
}

/// The number a CSV cell brings to the bounds: that of an integer or float
/// cell that is not a null.
pub open spec fn cell_number(raw: Seq<char>) -> Option<NumberView> {
    let bytes = vstd::utf8::encode_utf8(raw);
    let t = cell_type(raw);
    if bytes.len() > MAX_CELL_BYTES || raw.len() == 0 {
        None
    } else if t == InferredType::Integer {
        Some(integer_number(trimmed(raw)))
    } else if t == InferredType::Float {
        Some(float_decimal(trimmed(raw)))
    } else {
        None
    }
}

/// Observing a cell keeps the bounds the least and the greatest of the
/// numbers seen, its own number included.
pub proof fn lemma_observe_cell_extremes(st: ColumnStats, ns: Seq<NumberView>, raw: Seq<char>)
    requires
        least_of(st.min, ns),
        greatest_of(st.max, ns),
    ensures
        least_of(observe_cell(st, raw).min, push_number(ns, cell_number(raw))),
        greatest_of(observe_cell(st, raw).max, push_number(ns, cell_number(raw))),
{
    let bytes = vstd::utf8::encode_utf8(raw);
    if !(bytes.len() > MAX_CELL_BYTES || raw.len() == 0) {
        let t = cell_type(raw);
        let voted = with_vote(with_value(st, bytes), t);
        if t == InferredType::Integer {
            lemma_with_number_extremes(voted, ns, integer_number(trimmed(raw)));
        } else if t == InferredType::Float {
            lemma_with_number_extremes(voted, ns, float_decimal(trimmed(raw)));
        }
    }
}

/// An integer cell parses as a finite `f64`.
pub proof fn lemma_integer_text_finite(s: Seq<char>)
    requires
        is_integer_text(s),
    ensures
        is_finite_float_text(s),
        float_decimal(s).2 == 0,
{
    lemma_integer_text_syntax(s);
    let ip = float_int_part(s);
    let fp = float_frac_part(s);
    assert(ip + fp =~= ip);
    let v = digits_value(float_mantissa_digits(s));
    assert(v <= i64_max() + 1);
    assert(pow10(19) == 10000000000000000000) by {
        reveal_with_fuel(pow10, 20);
    }
    lemma_pow10_increases(19, 300);
    lemma_threshold_bounds();
    assert(float_scale(s) == 0);
    assert(pow10(0) == 1);
    assert(v * pow10(0) == v);
}

proof fn lemma_first_none(u: Seq<char>)
    requires
        forall|i: int| 0 <= i < u.len() ==> !is_exp_mark(#[trigger] u[i]) && u[i] != '.',
    ensures
        first_exp_mark(u) == u.len(),
        first_dot(u) == u.len(),
    decreases u.len(),
{
    if u.len() > 0 {
        assert forall|i: int| 0 <= i < u.drop_first().len() implies !is_exp_mark(
            #[trigger] u.drop_first()[i],
        ) && u.drop_first()[i] != '.' by {
            assert(u.drop_first()[i] == u[i + 1]);
        }
        lemma_first_none(u.drop_first());
    }
}

/// A column name: its first 256 characters.
pub open spec fn column_name(h: Seq<char>) -> Seq<char> {
    if h.len() > 256 {
        h.take(256)
    } else {
        h
    }
}

/// A column name from a header field.
pub fn column_name_of(h: &String) -> (r: String)
    ensures
        r@ == column_name(h@),
{
    let s = h.as_str();
    let n = s.unicode_len();
    let take = if n > 256 {
        256
    } else {
        n
    };
    let part = s.substring_char(0, take);
    proof {
        if n <= 256 {
            assert(s@.subrange(0, n as int) =~= s@);
        }
    }
    String::from_str(part)
}

/// Finish every accumulator over `total_rows` rows, in order.
pub fn finish_all(accs: Vec<ColumnAccumulator>, total_rows: u64) -> (cols: Vec<ColumnMeta>)
    ensures
        cols@.len() == accs@.len(),
        forall|j: int|
            0 <= j < accs@.len() ==> finished_as(
                #[trigger] cols@[j],
                accs@[j].name@,
                accs@[j].index,
                accs@[j].stats(),
                total_rows as nat,
            ),
{
    let ghost all = accs@;
    let mut rest = accs;
    let mut cols: Vec<ColumnMeta> = Vec::new();
    while rest.len() > 0
        invariant
            cols@.len() + rest@.len() == all.len(),
            rest@ == all.skip(cols@.len() as int),
            forall|j: int|
                0 <= j < cols@.len() ==> finished_as(
                    #[trigger] cols@[j],
                    all[j].name@,
                    all[j].index,
                    all[j].stats(),
                    total_rows as nat,
                ),
        decreases rest@.len(),
    {
        let ghost k = cols@.len() as int;
        let a = rest.remove(0);
        proof {
            assert(a == all[k]);
            assert(rest@ =~= all.skip(k + 1));
        }
        cols.push(a.finish(total_rows));
    }
    proof {
        assert(all.skip(cols@.len() as int).len() == 0);
    }
    cols
}

} // verus!
