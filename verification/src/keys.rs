//! The typed point/tag/field model and the timestamp precision unit.

use vstd::prelude::*;

verus! {

/// A typed field or tag value.
///
/// Floating-point numbers are carried as their decimal text (see
/// [`float_text_wf`]): the encoder emits that text verbatim, so the caller
/// controls the exact notation and the verified core stays free of
/// machine floats.
#[derive(Clone, Debug, PartialEq)]
pub enum Value {
    /// A text value; quoted and escaped when emitted as a field value.
    Text(String),
    /// A 64-bit signed integer; emitted with a trailing `i` as a field value.
    Integer(i64),
    /// The decimal text of a floating-point number, emitted verbatim.
    Float(String),
    /// A boolean, emitted as `true` or `false`.
    Boolean(bool),
}

/// A character that may appear in the decimal text of a float: a digit,
/// a sign, the decimal point, or an exponent marker. The suffix letter
/// `i` is deliberately not among them, so a float field can never be
/// mistaken for an integer field on the wire.
pub open spec fn float_char(c: char) -> bool {
    ('0' <= c && c <= '9') || c == '.' || c == '-' || c == '+' || c == 'e' || c == 'E'
}

/// Well-formed decimal text for a float value: nonempty and made only of
/// [`float_char`] characters.
pub open spec fn float_text_wf(s: Seq<char>) -> bool {
    s.len() > 0 && (forall|i: int| 0 <= i < s.len() ==> float_char(s[i]))
}

/// A value is well formed when any float text it carries is.
pub open spec fn value_wf(v: Value) -> bool {
    match v {
        Value::Float(t) => float_text_wf(t@),
        _ => true,
    }
}

/// The unit of a timestamp, both when writing points and when requesting
/// epoch-formatted query results.
#[derive(Clone, Copy, Debug, PartialEq, Eq, Structural)]
pub enum Precision {
    /// Nanoseconds, wire token `ns`.
    Nanoseconds,
    /// Microseconds, wire token `us`.
    Microseconds,
    /// Milliseconds, wire token `ms`.
    Milliseconds,
    /// Seconds, wire token `s`.
    Seconds,
    /// Minutes, wire token `m`.
    Minutes,
    /// Hours, wire token `h`.
    Hours,
}

impl Precision {
    /// The wire token of this unit, as a sequence of characters.
    pub open spec fn spec_token(self) -> Seq<char> {
        match self {
            Precision::Nanoseconds => "ns"@,
            Precision::Microseconds => "us"@,
            Precision::Milliseconds => "ms"@,
            Precision::Seconds => "s"@,
            Precision::Minutes => "m"@,
            Precision::Hours => "h"@,
        }
    }

    /// The token sent as the `precision`/`epoch` request parameter.
    pub fn to_str(&self) -> (r: &'static str)
        ensures
            r@ == self.spec_token(),
    {
        match self {
            Precision::Nanoseconds => "ns",
            Precision::Microseconds => "us",
            Precision::Milliseconds => "ms",
            Precision::Seconds => "s",
            Precision::Minutes => "m",
            Precision::Hours => "h",
        }
    }
}

/// One measurement observation: a measurement name, ordered tag pairs,
/// ordered field pairs, and an optional timestamp whose unit is chosen by
/// the [`Precision`] sent with the write request, not stored here.
///
/// The database rejects a point without fields; the encoder does not
/// enforce that, it is the sender's precondition.
#[derive(Clone, Debug, PartialEq)]
pub struct Point {
    /// The measurement name; must be nonempty.
    pub measurement: String,
    /// Tag pairs in insertion order. Tag values are emitted as text
    /// whatever their variant.
    pub tags: Vec<(String, Value)>,
    /// Field pairs in insertion order.
    pub fields: Vec<(String, Value)>,
    /// Optional timestamp, a bare signed integer on the wire.
    pub timestamp: Option<i64>,
}

impl Point {
    /// A point is well formed when its measurement name is nonempty and
    /// every tag and field value is.
    pub open spec fn wf(self) -> bool {
        &&& self.measurement@.len() > 0
        &&& forall|i: int| 0 <= i < self.tags@.len() ==> value_wf(#[trigger] self.tags@[i].1)
        &&& forall|i: int| 0 <= i < self.fields@.len() ==> value_wf(#[trigger] self.fields@[i].1)
    }

    /// A new point for the given measurement, with no tags, no fields and
    /// no timestamp.
    pub fn new(measurement: &str) -> (r: Point)
        ensures
            r.measurement@ == measurement@,
            r.tags@ == Seq::<(String, Value)>::empty(),
            r.fields@ == Seq::<(String, Value)>::empty(),
            r.timestamp is None,
    {
        Point {
            measurement: measurement.to_owned(),
            tags: Vec::new(),
            fields: Vec::new(),
            timestamp: None,
        }
    }

    /// Append one tag pair; insertion order is preserved on the wire.
    pub fn add_tag(&mut self, tag: &str, value: Value)
        ensures
            final(self).measurement == old(self).measurement,
            final(self).fields == old(self).fields,
            final(self).timestamp == old(self).timestamp,
            final(self).tags@.len() == old(self).tags@.len() + 1,
            final(self).tags@.subrange(0, old(self).tags@.len() as int) == old(self).tags@,
            final(self).tags@[old(self).tags@.len() as int].0@ == tag@,
            final(self).tags@[old(self).tags@.len() as int].1 == value,
    {
        self.tags.push((tag.to_owned(), value));
    }

    /// Append one field pair; insertion order is preserved on the wire.
    pub fn add_field(&mut self, field: &str, value: Value)
        ensures
            final(self).measurement == old(self).measurement,
            final(self).tags == old(self).tags,
            final(self).timestamp == old(self).timestamp,
            final(self).fields@.len() == old(self).fields@.len() + 1,
            final(self).fields@.subrange(0, old(self).fields@.len() as int) == old(self).fields@,
            final(self).fields@[old(self).fields@.len() as int].0@ == field@,
            final(self).fields@[old(self).fields@.len() as int].1 == value,
    {
        self.fields.push((field.to_owned(), value));
    }

    /// Set the timestamp, replacing any earlier one.
    pub fn add_timestamp(&mut self, timestamp: i64)
        ensures
            final(self).measurement == old(self).measurement,
            final(self).tags == old(self).tags,
            final(self).fields == old(self).fields,
            final(self).timestamp == Some(timestamp),
    {
        self.timestamp = Some(timestamp);
    }
}

/// An ordered collection of points, encoded one per line.
#[derive(Clone, Debug, PartialEq)]
pub struct Points {
    /// The points, in the order they will be emitted.
    pub point: Vec<Point>,
}

impl Points {
    /// Every point is well formed.
    pub open spec fn wf(self) -> bool {
        forall|i: int| 0 <= i < self.point@.len() ==> (#[trigger] self.point@[i]).wf()
    }

    /// A collection holding one point.
    pub fn new(point: Point) -> (r: Points)
        ensures
            r.point@ == seq![point],
    {
        Points { point: vec![point] }
    }

    /// Append one point at the end.
    pub fn push(&mut self, point: Point)
        ensures
            final(self).point@ == old(self).point@.push(point),
    {
        self.point.push(point);
    }

    /// A collection holding the given points in the given order.
    pub fn create_new(points: Vec<Point>) -> (r: Points)
        ensures
            r.point@ == points@,
    {
        Points { point: points }
    }
}

/// One JSON scalar inside a result row. Numbers with a fractional part
/// are carried as their decimal text, like [`Value::Float`].
#[derive(Clone, Debug, PartialEq)]
pub enum Scalar {
    /// A JSON string.
    Text(String),
    /// A JSON integer.
    Integer(i64),
    /// The decimal text of a JSON number with a fractional part.
    Float(String),
    /// A JSON boolean.
    Boolean(bool),
    /// JSON null.
    Null,
}

/// A named set of rows sharing one column schema, as a query returns
/// it.
#[derive(Clone, Debug, PartialEq)]
pub struct Series {
    /// The measurement the series belongs to.
    pub name: String,
    /// The tag pairs the series is grouped by, if any.
    pub tags: Option<Vec<(String, String)>>,
    /// The column names, in order.
    pub columns: Vec<String>,
    /// The rows; each row has exactly one cell per column.
    pub values: Option<Vec<Vec<Scalar>>>,
}

impl Series {
    /// Columns and rows agree: when rows are present, every row has
    /// exactly one cell per column.
    pub open spec fn wf(self) -> bool {
        match self.values {
            Some(rows) => forall|i: int|
                0 <= i < rows@.len() ==> (#[trigger] rows@[i])@.len() == self.columns@.len(),
            None => true,
        }
    }

    /// Check the column/row agreement of this series.
    pub fn check(&self) -> (b: bool)
        ensures
            b == self.wf(),
    {
        match &self.values {
            Some(rows) => {
                let mut i: usize = 0;
                while i < rows.len()
                    invariant
                        i <= rows@.len(),
                        self.values matches Some(r) && r@ == rows@,
                        forall|k: int|
                            0 <= k < i ==> (#[trigger] rows@[k])@.len() == self.columns@.len(),
                    decreases rows@.len() - i,
                {
                    if rows[i].len() != self.columns.len() {
                        return false;
                    }
                    i += 1;
                }
                true
            },
            None => true,
        }
    }
}

/// One statement's result: its series, or the error the database
/// reported for it.
#[derive(Clone, Debug, PartialEq)]
pub struct Node {
    /// The series the statement produced, if it succeeded.
    pub series: Option<Vec<Series>>,
    /// The error the database reported for this statement, if any.
    pub error: Option<String>,
}

impl Node {
    /// Every series present is well formed.
    pub open spec fn wf(self) -> bool {
        match self.series {
            Some(ss) => forall|i: int| 0 <= i < ss@.len() ==> (#[trigger] ss@[i]).wf(),
            None => true,
        }
    }

    /// Check every series of this node.
    pub fn check(&self) -> (b: bool)
        ensures
            b == self.wf(),
    {
        match &self.series {
            Some(ss) => {
                let mut i: usize = 0;
                while i < ss.len()
                    invariant
                        i <= ss@.len(),
                        self.series matches Some(s) && s@ == ss@,
                        forall|k: int| 0 <= k < i ==> (#[trigger] ss@[k]).wf(),
                    decreases ss@.len() - i,
                {
                    if !ss[i].check() {
                        return false;
                    }
                    i += 1;
                }
                true
            },
            None => true,
        }
    }
}

/// One query response document: the results of its statements, or a
/// top-level error.
#[derive(Clone, Debug, PartialEq)]
pub struct Query {
    /// One node per statement, if the query ran.
    pub results: Option<Vec<Node>>,
    /// The top-level error, if the query was rejected.
    pub error: Option<String>,
}

impl Query {
    /// Every node present is well formed.
    pub open spec fn wf(self) -> bool {
        match self.results {
            Some(ns) => forall|i: int| 0 <= i < ns@.len() ==> (#[trigger] ns@[i]).wf(),
            None => true,
        }
    }

    /// Check every node of this document.
    pub fn check(&self) -> (b: bool)
        ensures
            b == self.wf(),
    {
        match &self.results {
            Some(ns) => {
                let mut i: usize = 0;
                while i < ns.len()
                    invariant
                        i <= ns@.len(),
                        self.results matches Some(n) && n@ == ns@,
                        forall|k: int| 0 <= k < i ==> (#[trigger] ns@[k]).wf(),
                    decreases ns@.len() - i,
                {
                    if !ns[i].check() {
                        return false;
                    }
                    i += 1;
                }
                true
            },
            None => true,
        }
    }
}

} // verus!
