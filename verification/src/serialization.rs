//! The line-protocol encoder and the text helpers around it.
//!
//! Every emission context has its own escaping discipline, stated once at
//! the spec level ([`escaped_char`]) and proved of the executable code.

use vstd::prelude::*;

use crate::keys::Point;
use crate::keys::Points;
use crate::keys::Value;

verus! {

/// The escaping discipline of one emission context.
#[derive(Clone, Copy, Debug, PartialEq, Eq, Structural)]
pub enum EscapeKind {
    /// Measurement names: commas and spaces get a preceding backslash.
    Measurement,
    /// Tag keys, tag values and field keys: commas, equals signs and
    /// spaces get a preceding backslash.
    KeyOrTag,
    /// Text field values (inside double quotes): double quotes and
    /// backslashes get a preceding backslash.
    TextField,
    /// Identifiers quoted into administrative statements: double quotes
    /// and backslashes get a preceding backslash, a newline becomes the
    /// two characters backslash and `n`.
    Identifier,
    /// String literals quoted into administrative statements: single
    /// quotes and backslashes get a preceding backslash.
    Literal,
}

/// How one character is emitted under the given discipline.
pub open spec fn escaped_char(k: EscapeKind, c: char) -> Seq<char> {
    match k {
        EscapeKind::Measurement => if c == ',' || c == ' ' {
            seq!['\\', c]
        } else {
            seq![c]
        },
        EscapeKind::KeyOrTag => if c == ',' || c == '=' || c == ' ' {
            seq!['\\', c]
        } else {
            seq![c]
        },
        EscapeKind::TextField => if c == '"' || c == '\\' {
            seq!['\\', c]
        } else {
            seq![c]
        },
        EscapeKind::Identifier => if c == '"' || c == '\\' {
            seq!['\\', c]
        } else if c == '\n' {
            seq!['\\', 'n']
        } else {
            seq![c]
        },
        EscapeKind::Literal => if c == '\'' || c == '\\' {
            seq!['\\', c]
        } else {
            seq![c]
        },
    }
}

/// A whole sequence, escaped character by character.
pub open spec fn escaped(k: EscapeKind, s: Seq<char>) -> Seq<char>
    decreases s.len(),
{
    if s.len() == 0 {
        Seq::empty()
    } else {
        escaped_char(k, s[0]) + escaped(k, s.skip(1))
    }
}

/// Escaping distributes over appending one character at the end.
pub proof fn lemma_escaped_push(k: EscapeKind, s: Seq<char>, c: char)
    ensures
        escaped(k, s.push(c)) == escaped(k, s) + escaped_char(k, c),
    decreases s.len(),
{
    assert(s.push(c)[0] == if s.len() == 0 { c } else { s[0] });
    if s.len() == 0 {
        assert(s.push(c).skip(1) =~= Seq::<char>::empty());
        assert(escaped(k, s.push(c)) == escaped_char(k, c) + escaped(k, s.push(c).skip(1)));
        assert(escaped(k, s.push(c)) =~= escaped(k, s) + escaped_char(k, c));
    } else {
        assert(s.push(c).skip(1) =~= s.skip(1).push(c));
        lemma_escaped_push(k, s.skip(1), c);
        assert(escaped(k, s.push(c)) == escaped_char(k, s[0]) + escaped(k, s.skip(1).push(c)));
        assert(escaped(k, s.push(c)) =~= escaped(k, s) + escaped_char(k, c));
    }
}

/// The step a loop over the source makes: one more character escaped.
proof fn lemma_escaped_take_step(k: EscapeKind, s: Seq<char>, i: int)
    requires
        0 <= i < s.len(),
    ensures
        escaped(k, s.take(i + 1)) == escaped(k, s.take(i)) + escaped_char(k, s[i]),
{
    assert(s.take(i + 1) =~= s.take(i).push(s[i]));
    lemma_escaped_push(k, s.take(i), s[i]);
}

/// Relies on str::chars (collected into a vector): the characters of the
/// string, in order.
#[verifier::external_body]
fn str_chars(s: &str) -> (r: Vec<char>)
    ensures
        r@ == s@,
{
    s.chars().collect()
}

/// Relies on String's FromIterator over characters: the string holding
/// exactly the given characters, in order.
#[verifier::external_body]
fn chars_string(v: &Vec<char>) -> (r: String)
    ensures
        r@ == v@,
{
    v.iter().collect()
}

/// Append the source, escaped under `k`, to the accumulator.
fn push_escaped(out: &mut Vec<char>, s: &Vec<char>, k: EscapeKind)
    ensures
        final(out)@ == old(out)@ + escaped(k, s@),
{
    let mut i: usize = 0;
    while i < s.len()
        invariant
            i <= s@.len(),
            out@ == old(out)@ + escaped(k, s@.take(i as int)),
        decreases s@.len() - i,
    {
        let c = s[i];
        proof {
            lemma_escaped_take_step(k, s@, i as int);
        }
        match k {
            EscapeKind::Measurement => {
                if c == ',' || c == ' ' {
                    out.push('\\');
                    out.push(c);
                } else {
                    out.push(c);
                }
            },
            EscapeKind::KeyOrTag => {
                if c == ',' || c == '=' || c == ' ' {
                    out.push('\\');
                    out.push(c);
                } else {
                    out.push(c);
                }
            },
            EscapeKind::TextField => {
                if c == '"' || c == '\\' {
                    out.push('\\');
                    out.push(c);
                } else {
                    out.push(c);
                }
            },
            EscapeKind::Identifier => {
                if c == '"' || c == '\\' {
                    out.push('\\');
                    out.push(c);
                } else if c == '\n' {
                    out.push('\\');
                    out.push('n');
                } else {
                    out.push(c);
                }
            },
            EscapeKind::Literal => {
                if c == '\'' || c == '\\' {
                    out.push('\\');
                    out.push(c);
                } else {
                    out.push(c);
                }
            },
        }
        assert(out@ =~= old(out)@ + escaped(k, s@.take(i as int)) + escaped_char(k, s@[i as int]));
        i += 1;
    }
    assert(s@.take(s@.len() as int) =~= s@);
}

/// Escape a tag key, tag value or field key: commas, equals signs and
/// spaces get a preceding backslash.
pub fn escape_keys_and_tags(value: &str) -> (r: String)
    ensures
        r@ == escaped(EscapeKind::KeyOrTag, value@),
{
    let chars = str_chars(value);
    let mut out: Vec<char> = Vec::new();
    push_escaped(&mut out, &chars, EscapeKind::KeyOrTag);
    chars_string(&out)
}

/// Escape a measurement name: commas and spaces get a preceding
/// backslash.
pub fn escape_measurement(value: &str) -> (r: String)
    ensures
        r@ == escaped(EscapeKind::Measurement, value@),
{
    let chars = str_chars(value);
    let mut out: Vec<char> = Vec::new();
    push_escaped(&mut out, &chars, EscapeKind::Measurement);
    chars_string(&out)
}

/// Wrap an identifier in double quotes for use inside an administrative
/// statement, escaping embedded quotes, backslashes and newlines.
pub fn quote_ident(value: &str) -> (r: String)
    ensures
        r@ == seq!['"'] + escaped(EscapeKind::Identifier, value@) + seq!['"'],
{
    let chars = str_chars(value);
    let mut out: Vec<char> = Vec::new();
    out.push('"');
    push_escaped(&mut out, &chars, EscapeKind::Identifier);
    out.push('"');
    assert(out@ =~= seq!['"'] + escaped(EscapeKind::Identifier, value@) + seq!['"']);
    chars_string(&out)
}

/// Wrap a literal value in single quotes for use inside an
/// administrative statement, escaping embedded single quotes and
/// backslashes.
pub fn quote_literal(value: &str) -> (r: String)
    ensures
        r@ == seq!['\''] + escaped(EscapeKind::Literal, value@) + seq!['\''],
{
    let chars = str_chars(value);
    let mut out: Vec<char> = Vec::new();
    out.push('\'');
    push_escaped(&mut out, &chars, EscapeKind::Literal);
    out.push('\'');
    assert(out@ =~= seq!['\''] + escaped(EscapeKind::Literal, value@) + seq!['\'']);
    chars_string(&out)
}

// ---------- stripping the database's diagnostic boilerplate ----------

/// The boilerplate the database wraps around a diagnostic message: the
/// opening of a one-field JSON error document.
pub open spec fn error_prefix() -> Seq<char> {
    seq!['{', '"', 'e', 'r', 'r', 'o', 'r', '"', ':', '"']
}

/// The closing of the error document.
pub open spec fn error_suffix() -> Seq<char> {
    seq!['"', '}']
}

/// The human-relevant part of a raw diagnostic string: a trailing
/// newline, the [`error_prefix`] and the [`error_suffix`] are trimmed
/// when present; anything else is kept as it is.
pub open spec fn spec_conversion(s: Seq<char>) -> Seq<char> {
    let t = if s.len() > 0 && s[s.len() - 1] == '\n' {
        s.take(s.len() - 1)
    } else {
        s
    };
    let u = if t.len() >= 10 && t.take(10) == error_prefix() {
        t.skip(10)
    } else {
        t
    };
    if u.len() >= 2 && u.skip(u.len() - 2) == error_suffix() {
        u.take(u.len() - 2)
    } else {
        u
    }
}

/// Strip the boilerplate the database emits around a diagnostic
/// message, yielding just the human-relevant text.
pub fn conversion(value: &str) -> (r: String)
    ensures
        r@ == spec_conversion(value@),
{
    let chars = str_chars(value);
    let mut lo: usize = 0;
    let mut hi: usize = chars.len();
    if hi > 0 && chars[hi - 1] == '\n' {
        hi = hi - 1;
    }
    assert(chars@.take(hi as int) =~= if chars@.len() > 0 && chars@[chars@.len() - 1] == '\n' {
        chars@.take(chars@.len() - 1)
    } else {
        chars@
    });
    let ghost t = chars@.take(hi as int);
    if hi >= 10 && chars[0] == '{' && chars[1] == '"' && chars[2] == 'e' && chars[3] == 'r'
        && chars[4] == 'r' && chars[5] == 'o' && chars[6] == 'r' && chars[7] == '"' && chars[8]
        == ':' && chars[9] == '"' {
        lo = 10;
        assert(t.take(10) =~= error_prefix());
    } else {
        assert(hi >= 10 ==> t.take(10) != error_prefix());
    }
    let ghost u = if t.len() >= 10 && t.take(10) == error_prefix() {
        t.skip(10)
    } else {
        t
    };
    assert(u =~= chars@.subrange(lo as int, hi as int));
    if hi - lo >= 2 && chars[hi - 2] == '"' && chars[hi - 1] == '}' {
        hi = hi - 2;
        assert(u.skip(u.len() - 2) =~= error_suffix());
        assert(u.take(u.len() - 2) =~= chars@.subrange(lo as int, hi as int));
    } else {
        assert(u.len() >= 2 ==> u.skip(u.len() - 2) != error_suffix()) by {
            if u.len() >= 2 && u.skip(u.len() - 2) == error_suffix() {
                assert(u.skip(u.len() - 2)[0] == '"');
                assert(u.skip(u.len() - 2)[1] == '}');
            }
        }
    }
    let mut out: Vec<char> = Vec::new();
    let mut i: usize = lo;
    while i < hi
        invariant
            lo <= i <= hi <= chars@.len(),
            out@ == chars@.subrange(lo as int, i as int),
        decreases hi - i,
    {
        out.push(chars[i]);
        assert(out@ =~= chars@.subrange(lo as int, i + 1 as int));
        i += 1;
    }
    assert(out@ =~= spec_conversion(chars@));
    chars_string(&out)
}

// ---------- decimal text of integers ----------

/// The character of one decimal digit.
pub open spec fn digit_char(d: nat) -> char {
    if d == 0 {
        '0'
    } else if d == 1 {
        '1'
    } else if d == 2 {
        '2'
    } else if d == 3 {
        '3'
    } else if d == 4 {
        '4'
    } else if d == 5 {
        '5'
    } else if d == 6 {
        '6'
    } else if d == 7 {
        '7'
    } else if d == 8 {
        '8'
    } else {
        '9'
    }
}

/// The decimal digits of a natural number, most significant first, no
/// leading zeros (a single `0` for zero).
pub open spec fn dec_digits(n: nat) -> Seq<char>
    decreases n,
{
    if n < 10 {
        seq![digit_char(n)]
    } else {
        dec_digits(n / 10) + seq![digit_char(n % 10)]
    }
}

/// The decimal text of a signed integer: a leading minus sign for
/// negative values, then the digits of the magnitude.
pub open spec fn dec_int(i: int) -> Seq<char> {
    if i < 0 {
        seq!['-'] + dec_digits((-i) as nat)
    } else {
        dec_digits(i as nat)
    }
}

fn digit_to_char(d: u64) -> (c: char)
    requires
        d < 10,
    ensures
        c == digit_char(d as nat),
{
    match d {
        0 => '0',
        1 => '1',
        2 => '2',
        3 => '3',
        4 => '4',
        5 => '5',
        6 => '6',
        7 => '7',
        8 => '8',
        _ => '9',
    }
}

/// Append the decimal digits of `n` to the accumulator.
fn push_u64_dec(out: &mut Vec<char>, n: u64)
    ensures
        final(out)@ == old(out)@ + dec_digits(n as nat),
    decreases n,
{
    if n < 10 {
        out.push(digit_to_char(n));
        assert(out@ =~= old(out)@ + dec_digits(n as nat));
    } else {
        push_u64_dec(out, n / 10);
        out.push(digit_to_char(n % 10));
        assert(out@ =~= old(out)@ + dec_digits(n as nat));
    }
}

/// Append the decimal text of `i` to the accumulator.
fn push_i64_dec(out: &mut Vec<char>, i: i64)
    ensures
        final(out)@ == old(out)@ + dec_int(i as int),
{
    if i >= 0 {
        push_u64_dec(out, i as u64);
    } else {
        out.push('-');
        let mag: u64 = ((-(i + 1)) as u64) + 1;
        assert(mag as nat == (-(i as int)) as nat);
        push_u64_dec(out, mag);
        assert(out@ =~= old(out)@ + dec_int(i as int));
    }
}

// ---------- the text of values, points and point collections ----------

/// The text of a value in tag position: always plain text, whatever the
/// variant, with key-and-tag escaping applied to text values.
pub open spec fn tag_value_text(v: Value) -> Seq<char> {
    match v {
        Value::Text(s) => escaped(EscapeKind::KeyOrTag, s@),
        Value::Integer(i) => dec_int(i as int),
        Value::Float(t) => t@,
        Value::Boolean(b) => if b {
            seq!['t', 'r', 'u', 'e']
        } else {
            seq!['f', 'a', 'l', 's', 'e']
        },
    }
}

/// The text of a value in field position: text is quoted and escaped,
/// integers carry the `i` suffix, floats are their decimal text,
/// booleans are the bare words.
pub open spec fn field_value_text(v: Value) -> Seq<char> {
    match v {
        Value::Text(s) => seq!['"'] + escaped(EscapeKind::TextField, s@) + seq!['"'],
        Value::Integer(i) => dec_int(i as int) + seq!['i'],
        Value::Float(t) => t@,
        Value::Boolean(b) => if b {
            seq!['t', 'r', 'u', 'e']
        } else {
            seq!['f', 'a', 'l', 's', 'e']
        },
    }
}

/// One tag pair as emitted: a leading comma, the escaped key, `=`, the
/// tag text of the value.
pub open spec fn tag_text(t: (String, Value)) -> Seq<char> {
    seq![','] + escaped(EscapeKind::KeyOrTag, t.0@) + seq!['='] + tag_value_text(t.1)
}

/// The whole tag block, in insertion order.
pub open spec fn tags_text(tags: Seq<(String, Value)>) -> Seq<char>
    decreases tags.len(),
{
    if tags.len() == 0 {
        Seq::empty()
    } else {
        tag_text(tags[0]) + tags_text(tags.skip(1))
    }
}

/// One field pair as emitted (without its leading separator).
pub open spec fn field_text(f: (String, Value)) -> Seq<char> {
    escaped(EscapeKind::KeyOrTag, f.0@) + seq!['='] + field_value_text(f.1)
}

/// The second and later fields, each preceded by a comma.
pub open spec fn fields_rest_text(fields: Seq<(String, Value)>) -> Seq<char>
    decreases fields.len(),
{
    if fields.len() == 0 {
        Seq::empty()
    } else {
        seq![','] + field_text(fields[0]) + fields_rest_text(fields.skip(1))
    }
}

/// The whole field block: a space, the first field, then the rest
/// comma-separated. Empty when there are no fields.
pub open spec fn fields_text(fields: Seq<(String, Value)>) -> Seq<char> {
    if fields.len() == 0 {
        Seq::empty()
    } else {
        seq![' '] + field_text(fields[0]) + fields_rest_text(fields.skip(1))
    }
}

/// The timestamp block: a space and the bare decimal integer, or
/// nothing.
pub open spec fn timestamp_text(ts: Option<i64>) -> Seq<char> {
    match ts {
        Some(t) => seq![' '] + dec_int(t as int),
        None => Seq::empty(),
    }
}

/// The full line of one point: escaped measurement, tag block, field
/// block, optional timestamp. The tag block always precedes the field
/// block, whatever order the caller filled them in.
pub open spec fn point_text(p: Point) -> Seq<char> {
    escaped(EscapeKind::Measurement, p.measurement@) + tags_text(p.tags@) + fields_text(p.fields@)
        + timestamp_text(p.timestamp)
}

/// All points, one line each, joined by `\n`, with no trailing
/// terminator.
pub open spec fn points_text(ps: Seq<Point>) -> Seq<char>
    decreases ps.len(),
{
    if ps.len() == 0 {
        Seq::empty()
    } else if ps.len() == 1 {
        point_text(ps[0])
    } else {
        point_text(ps[0]) + seq!['\n'] + points_text(ps.skip(1))
    }
}

/// The tag block grows by one tag at the end.
proof fn lemma_tags_text_push(tags: Seq<(String, Value)>, t: (String, Value))
    ensures
        tags_text(tags.push(t)) == tags_text(tags) + tag_text(t),
    decreases tags.len(),
{
    assert(tags.push(t)[0] == if tags.len() == 0 { t } else { tags[0] });
    if tags.len() == 0 {
        assert(tags.push(t).skip(1) =~= Seq::<(String, Value)>::empty());
        assert(tags_text(tags.push(t)) == tag_text(t) + tags_text(tags.push(t).skip(1)));
        assert(tags_text(tags.push(t)) =~= tags_text(tags) + tag_text(t));
    } else {
        assert(tags.push(t).skip(1) =~= tags.skip(1).push(t));
        lemma_tags_text_push(tags.skip(1), t);
        assert(tags_text(tags.push(t)) =~= tags_text(tags) + tag_text(t));
    }
}

/// The comma-separated rest of the field block grows by one field.
proof fn lemma_fields_rest_push(fields: Seq<(String, Value)>, f: (String, Value))
    ensures
        fields_rest_text(fields.push(f)) == fields_rest_text(fields) + seq![','] + field_text(f),
    decreases fields.len(),
{
    assert(fields.push(f)[0] == if fields.len() == 0 { f } else { fields[0] });
    if fields.len() == 0 {
        assert(fields.push(f).skip(1) =~= Seq::<(String, Value)>::empty());
        assert(fields_rest_text(fields.push(f)) == seq![','] + field_text(f) + fields_rest_text(
            fields.push(f).skip(1),
        ));
        assert(fields_rest_text(fields.push(f)) =~= fields_rest_text(fields) + seq![','] + field_text(f));
    } else {
        assert(fields.push(f).skip(1) =~= fields.skip(1).push(f));
        lemma_fields_rest_push(fields.skip(1), f);
        assert(fields_rest_text(fields.push(f)) =~= fields_rest_text(fields) + seq![','] + field_text(f));
    }
}

/// The whole field block grows by one field: the first brings the
/// leading space, later ones a comma.
proof fn lemma_fields_text_push(fields: Seq<(String, Value)>, f: (String, Value))
    ensures
        fields_text(fields.push(f)) == if fields.len() == 0 {
            seq![' '] + field_text(f)
        } else {
            fields_text(fields) + seq![','] + field_text(f)
        },
{
    if fields.len() == 0 {
        assert(fields.push(f).skip(1) =~= Seq::<(String, Value)>::empty());
        assert(fields_text(fields.push(f)) =~= seq![' '] + field_text(f));
    } else {
        assert(fields.push(f).skip(1) =~= fields.skip(1).push(f));
        lemma_fields_rest_push(fields.skip(1), f);
        assert(fields_text(fields.push(f)) =~= fields_text(fields) + seq![','] + field_text(f));
    }
}

/// The payload grows by one point: the first stands alone, later ones
/// bring a newline.
proof fn lemma_points_text_push(ps: Seq<Point>, p: Point)
    ensures
        points_text(ps.push(p)) == if ps.len() == 0 {
            point_text(p)
        } else {
            points_text(ps) + seq!['\n'] + point_text(p)
        },
    decreases ps.len(),
{
    if ps.len() == 0 {
        assert(ps.push(p) =~= seq![p]);
        assert(points_text(ps.push(p)) =~= point_text(p));
    } else if ps.len() == 1 {
        assert(ps.push(p)[0] == ps[0]);
        assert(ps.push(p).skip(1) =~= seq![p]);
        assert(points_text(seq![p]) == point_text(p));
        assert(points_text(ps.push(p)) == point_text(ps[0]) + seq!['\n'] + points_text(seq![p]));
        assert(points_text(ps.push(p)) =~= points_text(ps) + seq!['\n'] + point_text(p));
    } else {
        assert(ps.push(p).skip(1) =~= ps.skip(1).push(p));
        lemma_points_text_push(ps.skip(1), p);
        assert(points_text(ps.push(p)) =~= points_text(ps) + seq!['\n'] + point_text(p));
    }
}

/// Append the given characters unchanged.
fn push_plain(out: &mut Vec<char>, s: &Vec<char>)
    ensures
        final(out)@ == old(out)@ + s@,
{
    let mut i: usize = 0;
    while i < s.len()
        invariant
            i <= s@.len(),
            out@ == old(out)@ + s@.take(i as int),
        decreases s@.len() - i,
    {
        out.push(s[i]);
        assert(s@.take(i + 1 as int) =~= s@.take(i as int).push(s@[i as int]));
        assert(out@ =~= old(out)@ + s@.take(i + 1 as int));
        i += 1;
    }
    assert(s@.take(s@.len() as int) =~= s@);
}

/// Append `true` or `false`.
fn push_bool(out: &mut Vec<char>, b: bool)
    ensures
        final(out)@ == old(out)@ + (if b {
            seq!['t', 'r', 'u', 'e']
        } else {
            seq!['f', 'a', 'l', 's', 'e']
        }),
{
    if b {
        out.push('t');
        out.push('r');
        out.push('u');
        out.push('e');
        assert(out@ =~= old(out)@ + seq!['t', 'r', 'u', 'e']);
    } else {
        out.push('f');
        out.push('a');
        out.push('l');
        out.push('s');
        out.push('e');
        assert(out@ =~= old(out)@ + seq!['f', 'a', 'l', 's', 'e']);
    }
}

/// Append the tag text of a value.
fn push_tag_value(out: &mut Vec<char>, v: &Value)
    ensures
        final(out)@ == old(out)@ + tag_value_text(*v),
{
    match v {
        Value::Text(s) => {
            let chars = str_chars(s.as_str());
            push_escaped(out, &chars, EscapeKind::KeyOrTag);
        },
        Value::Integer(i) => {
            push_i64_dec(out, *i);
        },
        Value::Float(t) => {
            let chars = str_chars(t.as_str());
            push_plain(out, &chars);
        },
        Value::Boolean(b) => {
            push_bool(out, *b);
        },
    }
}

/// Append the field text of a value.
fn push_field_value(out: &mut Vec<char>, v: &Value)
    ensures
        final(out)@ == old(out)@ + field_value_text(*v),
{
    match v {
        Value::Text(s) => {
            let chars = str_chars(s.as_str());
            out.push('"');
            push_escaped(out, &chars, EscapeKind::TextField);
            out.push('"');
            assert(out@ =~= old(out)@ + field_value_text(*v));
        },
        Value::Integer(i) => {
            push_i64_dec(out, *i);
            out.push('i');
            assert(out@ =~= old(out)@ + field_value_text(*v));
        },
        Value::Float(t) => {
            let chars = str_chars(t.as_str());
            push_plain(out, &chars);
        },
        Value::Boolean(b) => {
            push_bool(out, *b);
        },
    }
}

/// Append the full line of one point.
fn push_point(out: &mut Vec<char>, p: &Point)
    ensures
        final(out)@ == old(out)@ + point_text(*p),
{
    let meas = str_chars(p.measurement.as_str());
    push_escaped(out, &meas, EscapeKind::Measurement);
    let ghost base_tags = out@;
    let mut i: usize = 0;
    while i < p.tags.len()
        invariant
            i <= p.tags@.len(),
            out@ == base_tags + tags_text(p.tags@.take(i as int)),
        decreases p.tags@.len() - i,
    {
        let pair = &p.tags[i];
        out.push(',');
        let key = str_chars(pair.0.as_str());
        push_escaped(out, &key, EscapeKind::KeyOrTag);
        out.push('=');
        push_tag_value(out, &pair.1);
        proof {
            assert(p.tags@.take(i + 1 as int) =~= p.tags@.take(i as int).push(p.tags@[i as int]));
            lemma_tags_text_push(p.tags@.take(i as int), p.tags@[i as int]);
            assert(out@ =~= base_tags + tags_text(p.tags@.take(i + 1 as int)));
        }
        i += 1;
    }
    assert(p.tags@.take(p.tags@.len() as int) =~= p.tags@);
    let ghost base_fields = out@;
    let mut j: usize = 0;
    while j < p.fields.len()
        invariant
            j <= p.fields@.len(),
            out@ == base_fields + fields_text(p.fields@.take(j as int)),
        decreases p.fields@.len() - j,
    {
        let pair = &p.fields[j];
        if j == 0 {
            out.push(' ');
        } else {
            out.push(',');
        }
        let key = str_chars(pair.0.as_str());
        push_escaped(out, &key, EscapeKind::KeyOrTag);
        out.push('=');
        push_field_value(out, &pair.1);
        proof {
            assert(p.fields@.take(j + 1 as int) =~= p.fields@.take(j as int).push(
                p.fields@[j as int],
            ));
            lemma_fields_text_push(p.fields@.take(j as int), p.fields@[j as int]);
            assert(out@ =~= base_fields + fields_text(p.fields@.take(j + 1 as int)));
        }
        j += 1;
    }
    assert(p.fields@.take(p.fields@.len() as int) =~= p.fields@);
    match &p.timestamp {
        Some(t) => {
            out.push(' ');
            push_i64_dec(out, *t);
        },
        None => {},
    }
    assert(out@ =~= old(out)@ + point_text(*p));
}

/// Encode a collection of points into the line-protocol payload: one
/// line per point, in order, joined by `\n`, with no trailing
/// terminator.
pub fn line_serialization(points: &Points) -> (r: String)
    ensures
        r@ == points_text(points.point@),
{
    let mut out: Vec<char> = Vec::new();
    let mut i: usize = 0;
    while i < points.point.len()
        invariant
            i <= points.point@.len(),
            out@ == points_text(points.point@.take(i as int)),
        decreases points.point@.len() - i,
    {
        if i > 0 {
            out.push('\n');
        }
        push_point(&mut out, &points.point[i]);
        proof {
            assert(points.point@.take(i + 1 as int) =~= points.point@.take(i as int).push(
                points.point@[i as int],
            ));
            lemma_points_text_push(points.point@.take(i as int), points.point@[i as int]);
            assert(out@ =~= points_text(points.point@.take(i + 1 as int)));
        }
        i += 1;
    }
    assert(points.point@.take(points.point@.len() as int) =~= points.point@);
    chars_string(&out)
}

// ---------- laws of the encoder ----------

/// Law: with at least one tag and one field, the emitted line is the
/// escaped measurement, then the tag block, then the field block, then
/// the timestamp block, in that order; the tag block starts with a
/// comma and the field block with a space, so the tag block strictly
/// precedes the field block whatever order the caller filled them in.
pub proof fn lemma_line_structure(p: Point)
    requires
        p.tags@.len() > 0,
        p.fields@.len() > 0,
    ensures
        point_text(p) == escaped(EscapeKind::Measurement, p.measurement@) + tags_text(p.tags@)
            + fields_text(p.fields@) + timestamp_text(p.timestamp),
        tags_text(p.tags@).len() > 0 && tags_text(p.tags@)[0] == ',',
        fields_text(p.fields@).len() > 0 && fields_text(p.fields@)[0] == ' ',
{
    assert(tags_text(p.tags@) == tag_text(p.tags@[0]) + tags_text(p.tags@.skip(1)));
    assert(tag_text(p.tags@[0])[0] == ',');
    assert(fields_text(p.fields@)[0] == ' ');
}

/// Strip one layer of text-field escaping: a backslash followed by any
/// character stands for that character alone.
pub open spec fn unescape_text(s: Seq<char>) -> Seq<char>
    decreases s.len(),
{
    if s.len() == 0 {
        Seq::empty()
    } else if s[0] == '\\' && s.len() >= 2 {
        seq![s[1]] + unescape_text(s.skip(2))
    } else {
        seq![s[0]] + unescape_text(s.skip(1))
    }
}

/// Law: a text field value re-parses to the original string. The
/// encoded form is the escaped text between two double quotes, and
/// stripping one layer of escaping recovers the text exactly, for
/// every string, in particular for those holding double quotes or
/// backslashes.
pub proof fn lemma_text_escape_round_trip(s: Seq<char>)
    ensures
        unescape_text(escaped(EscapeKind::TextField, s)) == s,
    decreases s.len(),
{
    let e = escaped(EscapeKind::TextField, s);
    if s.len() == 0 {
        assert(unescape_text(e) =~= s);
    } else {
        let c = s[0];
        lemma_text_escape_round_trip(s.skip(1));
        if c == '"' || c == '\\' {
            assert(e == seq!['\\', c] + escaped(EscapeKind::TextField, s.skip(1)));
            assert(e[0] == '\\' && e.len() >= 2 && e[1] == c);
            assert(e.skip(2) =~= escaped(EscapeKind::TextField, s.skip(1)));
            assert(unescape_text(e) == seq![c] + unescape_text(e.skip(2)));
            assert(unescape_text(e) =~= s);
        } else {
            assert(e == seq![c] + escaped(EscapeKind::TextField, s.skip(1)));
            assert(e[0] == c && c != '\\');
            assert(e.skip(1) =~= escaped(EscapeKind::TextField, s.skip(1)));
            assert(unescape_text(e) == seq![c] + unescape_text(e.skip(1)));
            assert(unescape_text(e) =~= s);
        }
    }
}

/// Law: a text field value is the escaped text wrapped in double
/// quotes, and what stands between the quotes unescapes to the
/// original string.
pub proof fn lemma_text_field_round_trip(s: String)
    ensures
        field_value_text(Value::Text(s)) == seq!['"'] + escaped(EscapeKind::TextField, s@)
            + seq!['"'],
        unescape_text(
            field_value_text(Value::Text(s)).subrange(
                1,
                field_value_text(Value::Text(s)).len() - 1,
            ),
        ) == s@,
{
    lemma_text_escape_round_trip(s@);
    assert(field_value_text(Value::Text(s)).subrange(
        1,
        field_value_text(Value::Text(s)).len() - 1,
    ) =~= escaped(EscapeKind::TextField, s@));
}

/// A character on which the line protocol splits keys, tag values and
/// blocks: a comma, an equals sign or a space.
pub open spec fn kt_delim(c: char) -> bool {
    c == ',' || c == '=' || c == ' '
}

/// Strip one layer of key-and-tag escaping: a backslash followed by a
/// delimiter stands for that delimiter; every other character,
/// backslashes included, stands for itself.
pub open spec fn unescape_keys_and_tags(s: Seq<char>) -> Seq<char>
    decreases s.len(),
{
    if s.len() == 0 {
        Seq::empty()
    } else if s[0] == '\\' && s.len() >= 2 && kt_delim(s[1]) {
        seq![s[1]] + unescape_keys_and_tags(s.skip(2))
    } else {
        seq![s[0]] + unescape_keys_and_tags(s.skip(1))
    }
}

/// The first character of an escaped key or tag is never a bare
/// delimiter: a delimiter is emitted behind a backslash.
proof fn lemma_escaped_kt_head(s: Seq<char>)
    requires
        s.len() > 0,
    ensures
        !kt_delim(escaped(EscapeKind::KeyOrTag, s)[0]),
{
    if kt_delim(s[0]) {
        assert(escaped(EscapeKind::KeyOrTag, s)[0] == '\\');
    } else {
        assert(escaped(EscapeKind::KeyOrTag, s)[0] == s[0]);
    }
}

/// Law: a key, tag key or tag value re-parses to the original token
/// when one layer of key-and-tag escaping is stripped.
pub proof fn lemma_key_tag_escape_round_trip(s: Seq<char>)
    ensures
        unescape_keys_and_tags(escaped(EscapeKind::KeyOrTag, s)) == s,
    decreases s.len(),
{
    let e = escaped(EscapeKind::KeyOrTag, s);
    if s.len() == 0 {
        assert(unescape_keys_and_tags(e) =~= s);
    } else {
        let c = s[0];
        let rest = escaped(EscapeKind::KeyOrTag, s.skip(1));
        lemma_key_tag_escape_round_trip(s.skip(1));
        if kt_delim(c) {
            assert(e == seq!['\\', c] + rest);
            assert(e[0] == '\\' && e.len() >= 2 && e[1] == c && kt_delim(e[1]));
            assert(e.skip(2) =~= rest);
            assert(unescape_keys_and_tags(e) == seq![c] + unescape_keys_and_tags(e.skip(2)));
            assert(unescape_keys_and_tags(e) =~= s);
        } else {
            assert(e == seq![c] + rest);
            assert(e[0] == c);
            if e.len() >= 2 && c == '\\' {
                assert(e[1] == rest[0]);
                assert(s.skip(1).len() > 0);
                lemma_escaped_kt_head(s.skip(1));
                assert(!kt_delim(e[1]));
            }
            assert(!(e[0] == '\\' && e.len() >= 2 && kt_delim(e[1])));
            assert(e.skip(1) =~= rest);
            assert(unescape_keys_and_tags(e) == seq![c] + unescape_keys_and_tags(e.skip(1)));
            assert(unescape_keys_and_tags(e) =~= s);
        }
    }
}

/// Law: in the escaped form of a backslash-free token, every delimiter
/// is immediately preceded by a backslash, and every backslash is
/// immediately followed by a delimiter. Splitting the emitted line on
/// delimiters that no backslash precedes therefore never splits inside
/// such a token. (A token that itself ends in a backslash defeats this
/// reading, which is a known ambiguity of the wire format; such tokens
/// are left out here.)
pub proof fn lemma_escaped_delimiters_marked(s: Seq<char>)
    requires
        forall|i: int| 0 <= i < s.len() ==> s[i] != '\\',
    ensures
        forall|j: int|
            0 <= j < escaped(EscapeKind::KeyOrTag, s).len() && kt_delim(
                #[trigger] escaped(EscapeKind::KeyOrTag, s)[j],
            ) ==> j > 0 && escaped(EscapeKind::KeyOrTag, s)[j - 1] == '\\',
        forall|j: int|
            0 <= j < escaped(EscapeKind::KeyOrTag, s).len() && #[trigger] escaped(
                EscapeKind::KeyOrTag,
                s,
            )[j] == '\\' ==> j + 1 < escaped(EscapeKind::KeyOrTag, s).len() && kt_delim(
                escaped(EscapeKind::KeyOrTag, s)[j + 1],
            ),
{
    lemma_escaped_marked(EscapeKind::KeyOrTag, s);
}

/// No backslash occurs in the sequence.
pub open spec fn backslash_free(s: Seq<char>) -> bool {
    forall|i: int| 0 <= i < s.len() ==> s[i] != '\\'
}

/// The delimiters a discipline marks with a backslash.
pub open spec fn marked_delim(k: EscapeKind, c: char) -> bool {
    match k {
        EscapeKind::Measurement => c == ',' || c == ' ',
        EscapeKind::KeyOrTag => kt_delim(c),
        _ => false,
    }
}

proof fn lemma_escaped_head(k: EscapeKind, s: Seq<char>)
    requires
        k == EscapeKind::Measurement || k == EscapeKind::KeyOrTag,
        s.len() > 0,
    ensures
        !marked_delim(k, escaped(k, s)[0]),
{
    if marked_delim(k, s[0]) {
        assert(escaped(k, s)[0] == '\\');
    } else {
        assert(escaped(k, s)[0] == s[0]);
    }
}

/// In the escaped form of a backslash-free token, every marked
/// delimiter follows a backslash, and every backslash is followed by a
/// marked delimiter.
proof fn lemma_escaped_marked(k: EscapeKind, s: Seq<char>)
    requires
        k == EscapeKind::Measurement || k == EscapeKind::KeyOrTag,
        backslash_free(s),
    ensures
        forall|j: int|
            0 <= j < escaped(k, s).len() && marked_delim(k, #[trigger] escaped(k, s)[j]) ==> j > 0
                && escaped(k, s)[j - 1] == '\\',
        forall|j: int|
            0 <= j < escaped(k, s).len() && #[trigger] escaped(k, s)[j] == '\\' ==> j + 1
                < escaped(k, s).len() && marked_delim(k, escaped(k, s)[j + 1]),
    decreases s.len(),
{
    let e = escaped(k, s);
    if s.len() > 0 {
        let c = s[0];
        let head = escaped_char(k, c);
        let rest = escaped(k, s.skip(1));
        assert(e == head + rest);
        assert(backslash_free(s.skip(1)));
        lemma_escaped_marked(k, s.skip(1));
        if s.skip(1).len() > 0 {
            lemma_escaped_head(k, s.skip(1));
        }
        assert(marked_delim(k, c) ==> head == seq!['\\', c]);
        assert forall|j: int| 0 <= j < e.len() && marked_delim(k, e[j]) implies j > 0 && e[j - 1]
            == '\\' by {
            if j < head.len() {
                assert(j == 1 && e[0] == '\\');
            } else {
                assert(e[j] == rest[j - head.len()]);
                assert(j - head.len() > 0);
                assert(e[j - 1] == rest[j - head.len() - 1]);
            }
        }
        assert forall|j: int| 0 <= j < e.len() && #[trigger] e[j] == '\\' implies j + 1 < e.len()
            && marked_delim(k, e[j + 1]) by {
            if j < head.len() {
                assert(c != '\\');
                assert(marked_delim(k, c) && j == 0);
                assert(e[1] == c);
            } else {
                assert(e[j] == rest[j - head.len()]);
                assert(e[j + 1] == rest[j - head.len() + 1]);
            }
        }
    }
}

// ---------- the field block stands at the first unescaped space ----------

/// Every space in the sequence is escaped: none can be read as a
/// block separator.
pub open spec fn no_bare_space(s: Seq<char>) -> bool {
    forall|j: int| 0 <= j < s.len() && (#[trigger] s[j]) == ' ' ==> j > 0 && s[j - 1] == '\\'
}

/// The sequence does not end with a backslash, so a separator emitted
/// right after it keeps its force.
pub open spec fn no_trailing_backslash(s: Seq<char>) -> bool {
    s.len() > 0 ==> s[s.len() - 1] != '\\'
}

proof fn lemma_clean_concat(a: Seq<char>, b: Seq<char>)
    requires
        no_bare_space(a),
        no_bare_space(b),
        no_trailing_backslash(a),
        no_trailing_backslash(b),
    ensures
        no_bare_space(a + b),
        no_trailing_backslash(a + b),
{
    assert forall|j: int| 0 <= j < (a + b).len() && (#[trigger] (a + b)[j]) == ' ' implies j > 0
        && (a + b)[j - 1] == '\\' by {
        if j < a.len() {
            assert((a + b)[j] == a[j]);
            assert((a + b)[j - 1] == a[j - 1]);
        } else {
            assert((a + b)[j] == b[j - a.len()]);
            assert(j - a.len() > 0);
            assert((a + b)[j - 1] == b[j - a.len() - 1]);
        }
    }
    if b.len() > 0 {
        assert((a + b)[(a + b).len() - 1] == b[b.len() - 1]);
    } else if a.len() > 0 {
        assert((a + b)[(a + b).len() - 1] == a[a.len() - 1]);
    }
}

/// No space and no backslash at all: the decimal digits.
proof fn lemma_dec_digits_plain(n: nat)
    ensures
        forall|j: int|
            0 <= j < dec_digits(n).len() ==> (#[trigger] dec_digits(n)[j]) != ' ' && dec_digits(
                n,
            )[j] != '\\',
    decreases n,
{
    if n >= 10 {
        lemma_dec_digits_plain(n / 10);
        assert forall|j: int| 0 <= j < dec_digits(n).len() implies (#[trigger] dec_digits(n)[j])
            != ' ' && dec_digits(n)[j] != '\\' by {
            if j < dec_digits(n / 10).len() {
                assert(dec_digits(n)[j] == dec_digits(n / 10)[j]);
            }
        }
    }
}

proof fn lemma_dec_int_plain(i: int)
    ensures
        no_bare_space(dec_int(i)),
        no_trailing_backslash(dec_int(i)),
        forall|j: int| 0 <= j < dec_int(i).len() ==> (#[trigger] dec_int(i)[j]) != ' ',
{
    if i < 0 {
        lemma_dec_digits_plain((-i) as nat);
        assert forall|j: int| 0 <= j < dec_int(i).len() implies (#[trigger] dec_int(i)[j]) != ' '
            && dec_int(i)[j] != '\\' by {
            if j > 0 {
                assert(dec_int(i)[j] == dec_digits((-i) as nat)[j - 1]);
            }
        }
    } else {
        lemma_dec_digits_plain(i as nat);
    }
}

/// The strings the value carries hold no backslash; a float carries
/// well-formed decimal text, which cannot hold one.
pub open spec fn value_backslash_free(v: Value) -> bool {
    match v {
        Value::Text(s) => backslash_free(s@),
        Value::Float(t) => crate::keys::float_text_wf(t@),
        _ => true,
    }
}

proof fn lemma_tag_value_clean(v: Value)
    requires
        value_backslash_free(v),
    ensures
        no_bare_space(tag_value_text(v)),
        no_trailing_backslash(tag_value_text(v)),
{
    match v {
        Value::Text(s) => {
            lemma_escaped_marked(EscapeKind::KeyOrTag, s@);
            let e = escaped(EscapeKind::KeyOrTag, s@);
            assert forall|j: int| 0 <= j < e.len() && (#[trigger] e[j]) == ' ' implies j > 0
                && e[j - 1] == '\\' by {
                assert(marked_delim(EscapeKind::KeyOrTag, e[j]));
            }
        },
        Value::Integer(i) => {
            lemma_dec_int_plain(i as int);
        },
        Value::Float(t) => {
            assert(crate::keys::float_char(t@[t@.len() - 1]));
        },
        Value::Boolean(_) => {},
    }
}

/// An escaped token of a backslash-free source is clean: its spaces
/// are escaped and it does not end in a backslash.
proof fn lemma_escaped_clean(k: EscapeKind, s: Seq<char>)
    requires
        k == EscapeKind::Measurement || k == EscapeKind::KeyOrTag,
        backslash_free(s),
    ensures
        no_bare_space(escaped(k, s)),
        no_trailing_backslash(escaped(k, s)),
{
    lemma_escaped_marked(k, s);
    let e = escaped(k, s);
    assert forall|j: int| 0 <= j < e.len() && (#[trigger] e[j]) == ' ' implies j > 0 && e[j - 1]
        == '\\' by {
        assert(marked_delim(k, e[j]));
    }
}

proof fn lemma_tags_block_clean(tags: Seq<(String, Value)>)
    requires
        forall|i: int|
            0 <= i < tags.len() ==> backslash_free((#[trigger] tags[i]).0@)
                && value_backslash_free(tags[i].1),
    ensures
        no_bare_space(tags_text(tags)),
        no_trailing_backslash(tags_text(tags)),
    decreases tags.len(),
{
    if tags.len() > 0 {
        lemma_tags_block_clean(tags.skip(1));
        lemma_escaped_clean(EscapeKind::KeyOrTag, tags[0].0@);
        lemma_tag_value_clean(tags[0].1);
        lemma_clean_concat(seq![','], escaped(EscapeKind::KeyOrTag, tags[0].0@));
        lemma_clean_concat(seq![','] + escaped(EscapeKind::KeyOrTag, tags[0].0@), seq!['=']);
        lemma_clean_concat(
            seq![','] + escaped(EscapeKind::KeyOrTag, tags[0].0@) + seq!['='],
            tag_value_text(tags[0].1),
        );
        lemma_clean_concat(tag_text(tags[0]), tags_text(tags.skip(1)));
    }
}

/// Where the tag block of a line begins: right after the escaped
/// measurement.
pub open spec fn measurement_len(p: Point) -> int {
    escaped(EscapeKind::Measurement, p.measurement@).len() as int
}

/// Law: the tag block begins at the first unescaped comma of the
/// line. For a point with at least one tag and a backslash-free
/// measurement, the character at [`measurement_len`] is a comma that
/// no backslash precedes, and every comma and space in front of it
/// has one: a tokenizer that splits at the first unescaped comma
/// finds exactly the measurement.
pub proof fn lemma_tag_block_at_first_bare_comma(p: Point)
    requires
        p.tags@.len() > 0,
        backslash_free(p.measurement@),
    ensures
        0 <= measurement_len(p) < point_text(p).len(),
        point_text(p)[measurement_len(p)] == ',',
        measurement_len(p) == 0 || point_text(p)[measurement_len(p) - 1] != '\\',
        forall|j: int|
            0 <= j < measurement_len(p) && ((#[trigger] point_text(p)[j]) == ',' || point_text(
                p,
            )[j] == ' ') ==> j > 0 && point_text(p)[j - 1] == '\\',
{
    let a = escaped(EscapeKind::Measurement, p.measurement@);
    let t = tags_text(p.tags@);
    let e = point_text(p);
    let ml = measurement_len(p);
    lemma_escaped_marked(EscapeKind::Measurement, p.measurement@);
    assert(t == tag_text(p.tags@[0]) + tags_text(p.tags@.skip(1)));
    assert(t[0] == ',');
    assert(e == a + t + fields_text(p.fields@) + timestamp_text(p.timestamp));
    assert(e[ml] == t[0]);
    if ml > 0 {
        assert(e[ml - 1] == a[a.len() - 1]);
        assert(a[a.len() - 1] != '\\');
    }
    assert forall|j: int| 0 <= j < ml && ((#[trigger] e[j]) == ',' || e[j] == ' ') implies j > 0
        && e[j - 1] == '\\' by {
        assert(e[j] == a[j]);
        assert(marked_delim(EscapeKind::Measurement, a[j]));
        assert(e[j - 1] == a[j - 1]);
    }
}

/// Where the field block of a line begins: right after the escaped
/// measurement and the tag block.
pub open spec fn line_head_len(p: Point) -> int {
    escaped(EscapeKind::Measurement, p.measurement@).len() + tags_text(p.tags@).len() as int
}

/// Law: the field block begins at the first unescaped space of the
/// line. For a point whose measurement, tag keys and tag values hold
/// no backslash, the character at [`line_head_len`] is a space that no
/// backslash precedes, and every space in front of it has one: a
/// tokenizer that splits at the first unescaped space finds exactly
/// the measurement-and-tags head and the field block. (A token ending
/// in a backslash defeats this reading, a known ambiguity of the wire
/// format; the backslash-free premise leaves such tokens out.)
pub proof fn lemma_field_block_at_first_bare_space(p: Point)
    requires
        p.fields@.len() > 0,
        backslash_free(p.measurement@),
        forall|i: int|
            0 <= i < p.tags@.len() ==> backslash_free((#[trigger] p.tags@[i]).0@)
                && value_backslash_free(p.tags@[i].1),
    ensures
        0 <= line_head_len(p) < point_text(p).len(),
        point_text(p)[line_head_len(p)] == ' ',
        line_head_len(p) == 0 || point_text(p)[line_head_len(p) - 1] != '\\',
        forall|j: int|
            0 <= j < line_head_len(p) && (#[trigger] point_text(p)[j]) == ' ' ==> j > 0
                && point_text(p)[j - 1] == '\\',
{
    let a = escaped(EscapeKind::Measurement, p.measurement@);
    let t = tags_text(p.tags@);
    let h = a + t;
    let f = fields_text(p.fields@);
    let e = point_text(p);
    let hl = line_head_len(p);
    lemma_escaped_clean(EscapeKind::Measurement, p.measurement@);
    lemma_tags_block_clean(p.tags@);
    lemma_clean_concat(a, t);
    assert(f[0] == ' ');
    assert(e == h + f + timestamp_text(p.timestamp));
    assert(e[hl] == f[0]);
    if hl > 0 {
        assert(e[hl - 1] == h[h.len() - 1]);
    }
    assert forall|j: int| 0 <= j < hl && (#[trigger] e[j]) == ' ' implies j > 0 && e[j - 1]
        == '\\' by {
        assert(e[j] == h[j]);
        assert(e[j - 1] == h[j - 1]);
    }
}

// ---------- laws of the payload's line structure ----------

/// No newline occurs in the sequence.
pub open spec fn newline_free(s: Seq<char>) -> bool {
    forall|i: int| 0 <= i < s.len() ==> s[i] != '\n'
}

/// The value's emitted text holds no newline: any text or float
/// payload is newline-free.
pub open spec fn value_newline_free(v: Value) -> bool {
    match v {
        Value::Text(s) => newline_free(s@),
        Value::Float(t) => newline_free(t@),
        _ => true,
    }
}

/// None of the point's strings holds a newline, so its emitted line is
/// newline-free and the payload's lines are exactly the points'.
pub open spec fn point_newline_free(p: Point) -> bool {
    &&& newline_free(p.measurement@)
    &&& forall|i: int|
        0 <= i < p.tags@.len() ==> newline_free((#[trigger] p.tags@[i]).0@) && value_newline_free(
            p.tags@[i].1,
        )
    &&& forall|i: int|
        0 <= i < p.fields@.len() ==> newline_free((#[trigger] p.fields@[i]).0@)
            && value_newline_free(p.fields@[i].1)
}

proof fn lemma_escaped_newline_free(k: EscapeKind, s: Seq<char>)
    requires
        newline_free(s),
    ensures
        newline_free(escaped(k, s)),
    decreases s.len(),
{
    if s.len() > 0 {
        assert(newline_free(s.skip(1)));
        lemma_escaped_newline_free(k, s.skip(1));
        assert forall|i: int| 0 <= i < escaped(k, s).len() implies escaped(k, s)[i] != '\n' by {
            let head = escaped_char(k, s[0]);
            if i >= head.len() {
                assert(escaped(k, s)[i] == escaped(k, s.skip(1))[i - head.len()]);
            }
        }
    }
}

proof fn lemma_dec_digits_newline_free(n: nat)
    ensures
        newline_free(dec_digits(n)),
    decreases n,
{
    if n >= 10 {
        lemma_dec_digits_newline_free(n / 10);
        assert forall|i: int| 0 <= i < dec_digits(n).len() implies dec_digits(n)[i] != '\n' by {
            if i < dec_digits(n / 10).len() {
                assert(dec_digits(n)[i] == dec_digits(n / 10)[i]);
            }
        }
    }
}

proof fn lemma_dec_int_newline_free(i: int)
    ensures
        newline_free(dec_int(i)),
{
    if i < 0 {
        lemma_dec_digits_newline_free((-i) as nat);
    } else {
        lemma_dec_digits_newline_free(i as nat);
    }
}

proof fn lemma_concat_newline_free(a: Seq<char>, b: Seq<char>)
    requires
        newline_free(a),
        newline_free(b),
    ensures
        newline_free(a + b),
{
    assert forall|i: int| 0 <= i < (a + b).len() implies (a + b)[i] != '\n' by {
        if i < a.len() {
            assert((a + b)[i] == a[i]);
        } else {
            assert((a + b)[i] == b[i - a.len()]);
        }
    }
}

proof fn lemma_tag_value_newline_free(v: Value)
    requires
        value_newline_free(v),
    ensures
        newline_free(tag_value_text(v)),
{
    match v {
        Value::Text(s) => lemma_escaped_newline_free(EscapeKind::KeyOrTag, s@),
        Value::Integer(i) => lemma_dec_int_newline_free(i as int),
        Value::Float(_) => {},
        Value::Boolean(_) => {},
    }
}

proof fn lemma_field_value_newline_free(v: Value)
    requires
        value_newline_free(v),
    ensures
        newline_free(field_value_text(v)),
{
    match v {
        Value::Text(s) => {
            lemma_escaped_newline_free(EscapeKind::TextField, s@);
            lemma_concat_newline_free(seq!['"'], escaped(EscapeKind::TextField, s@));
            lemma_concat_newline_free(seq!['"'] + escaped(EscapeKind::TextField, s@), seq!['"']);
        },
        Value::Integer(i) => {
            lemma_dec_int_newline_free(i as int);
            lemma_concat_newline_free(dec_int(i as int), seq!['i']);
        },
        Value::Float(_) => {},
        Value::Boolean(_) => {},
    }
}

proof fn lemma_tags_text_newline_free(tags: Seq<(String, Value)>)
    requires
        forall|i: int|
            0 <= i < tags.len() ==> newline_free((#[trigger] tags[i]).0@) && value_newline_free(
                tags[i].1,
            ),
    ensures
        newline_free(tags_text(tags)),
    decreases tags.len(),
{
    if tags.len() > 0 {
        lemma_tags_text_newline_free(tags.skip(1));
        lemma_escaped_newline_free(EscapeKind::KeyOrTag, tags[0].0@);
        lemma_tag_value_newline_free(tags[0].1);
        lemma_concat_newline_free(seq![','], escaped(EscapeKind::KeyOrTag, tags[0].0@));
        lemma_concat_newline_free(
            seq![','] + escaped(EscapeKind::KeyOrTag, tags[0].0@),
            seq!['='],
        );
        lemma_concat_newline_free(
            seq![','] + escaped(EscapeKind::KeyOrTag, tags[0].0@) + seq!['='],
            tag_value_text(tags[0].1),
        );
        lemma_concat_newline_free(tag_text(tags[0]), tags_text(tags.skip(1)));
    }
}

proof fn lemma_field_text_newline_free(f: (String, Value))
    requires
        newline_free(f.0@),
        value_newline_free(f.1),
    ensures
        newline_free(field_text(f)),
{
    lemma_escaped_newline_free(EscapeKind::KeyOrTag, f.0@);
    lemma_field_value_newline_free(f.1);
    lemma_concat_newline_free(escaped(EscapeKind::KeyOrTag, f.0@), seq!['=']);
    lemma_concat_newline_free(
        escaped(EscapeKind::KeyOrTag, f.0@) + seq!['='],
        field_value_text(f.1),
    );
}

proof fn lemma_fields_rest_newline_free(fields: Seq<(String, Value)>)
    requires
        forall|i: int|
            0 <= i < fields.len() ==> newline_free((#[trigger] fields[i]).0@)
                && value_newline_free(fields[i].1),
    ensures
        newline_free(fields_rest_text(fields)),
    decreases fields.len(),
{
    if fields.len() > 0 {
        lemma_fields_rest_newline_free(fields.skip(1));
        lemma_field_text_newline_free(fields[0]);
        lemma_concat_newline_free(seq![','], field_text(fields[0]));
        lemma_concat_newline_free(
            seq![','] + field_text(fields[0]),
            fields_rest_text(fields.skip(1)),
        );
    }
}

proof fn lemma_fields_text_newline_free(fields: Seq<(String, Value)>)
    requires
        forall|i: int|
            0 <= i < fields.len() ==> newline_free((#[trigger] fields[i]).0@)
                && value_newline_free(fields[i].1),
    ensures
        newline_free(fields_text(fields)),
{
    if fields.len() > 0 {
        lemma_fields_rest_newline_free(fields.skip(1));
        lemma_field_text_newline_free(fields[0]);
        lemma_concat_newline_free(seq![' '], field_text(fields[0]));
        lemma_concat_newline_free(
            seq![' '] + field_text(fields[0]),
            fields_rest_text(fields.skip(1)),
        );
    }
}

/// A point whose strings hold no newline emits a newline-free line.
pub proof fn lemma_point_text_newline_free(p: Point)
    requires
        point_newline_free(p),
    ensures
        newline_free(point_text(p)),
{
    lemma_escaped_newline_free(EscapeKind::Measurement, p.measurement@);
    lemma_tags_text_newline_free(p.tags@);
    lemma_fields_text_newline_free(p.fields@);
    lemma_concat_newline_free(
        escaped(EscapeKind::Measurement, p.measurement@),
        tags_text(p.tags@),
    );
    lemma_concat_newline_free(
        escaped(EscapeKind::Measurement, p.measurement@) + tags_text(p.tags@),
        fields_text(p.fields@),
    );
    match p.timestamp {
        Some(t) => {
            lemma_dec_int_newline_free(t as int);
            lemma_concat_newline_free(seq![' '], dec_int(t as int));
        },
        None => {},
    }
    lemma_concat_newline_free(
        escaped(EscapeKind::Measurement, p.measurement@) + tags_text(p.tags@) + fields_text(
            p.fields@,
        ),
        timestamp_text(p.timestamp),
    );
}

/// The position of the first newline, if any.
pub open spec fn first_newline(s: Seq<char>) -> Option<int>
    decreases s.len(),
{
    if s.len() == 0 {
        None
    } else if s[0] == '\n' {
        Some(0)
    } else {
        match first_newline(s.skip(1)) {
            Some(j) => Some(j + 1),
            None => None,
        }
    }
}

proof fn lemma_newline_free_no_first(s: Seq<char>)
    requires
        newline_free(s),
    ensures
        first_newline(s) is None,
    decreases s.len(),
{
    if s.len() > 0 {
        assert(newline_free(s.skip(1)));
        lemma_newline_free_no_first(s.skip(1));
    }
}

proof fn lemma_first_newline_after(a: Seq<char>, b: Seq<char>)
    requires
        newline_free(a),
    ensures
        first_newline(a + seq!['\n'] + b) == Some(a.len() as int),
    decreases a.len(),
{
    let e = a + seq!['\n'] + b;
    if a.len() == 0 {
        assert(e[0] == '\n');
    } else {
        assert(e[0] == a[0] && a[0] != '\n');
        assert(newline_free(a.skip(1)));
        lemma_first_newline_after(a.skip(1), b);
        assert(e.skip(1) =~= a.skip(1) + seq!['\n'] + b);
    }
}

/// Law: the payload decomposes into the points' lines, in order. For
/// points whose strings hold no newline, a single point's payload has
/// no newline at all, and with two or more points the first newline of
/// the payload stands exactly after the first point's line: what comes
/// before it is that line, and what comes after it is the payload of
/// the remaining points. Splitting on newlines therefore recovers
/// every point's line, in the original order.
pub proof fn lemma_payload_line_split(ps: Seq<Point>)
    requires
        ps.len() > 0,
        forall|i: int| 0 <= i < ps.len() ==> point_newline_free(#[trigger] ps[i]),
    ensures
        ps.len() == 1 ==> points_text(ps) == point_text(ps[0]) && first_newline(points_text(ps))
            is None,
        ps.len() > 1 ==> first_newline(points_text(ps)) == Some(point_text(ps[0]).len() as int)
            && points_text(ps).take(point_text(ps[0]).len() as int) == point_text(ps[0])
            && points_text(ps).skip(point_text(ps[0]).len() + 1 as int) == points_text(ps.skip(1)),
{
    lemma_point_text_newline_free(ps[0]);
    if ps.len() == 1 {
        lemma_newline_free_no_first(point_text(ps[0]));
    } else {
        let a = point_text(ps[0]);
        let b = points_text(ps.skip(1));
        assert(points_text(ps) == a + seq!['\n'] + b);
        lemma_first_newline_after(a, b);
        assert((a + seq!['\n'] + b).take(a.len() as int) =~= a);
        assert((a + seq!['\n'] + b).skip(a.len() + 1 as int) =~= b);
    }
}

// ---------- laws of the integer and float field texts ----------

/// The numeric value of one digit character; ten marks a character
/// that is no digit.
pub open spec fn digit_val(c: char) -> nat {
    if c == '0' {
        0
    } else if c == '1' {
        1
    } else if c == '2' {
        2
    } else if c == '3' {
        3
    } else if c == '4' {
        4
    } else if c == '5' {
        5
    } else if c == '6' {
        6
    } else if c == '7' {
        7
    } else if c == '8' {
        8
    } else if c == '9' {
        9
    } else {
        10
    }
}

/// The natural number a digit string denotes, most significant digit
/// first.
pub open spec fn digits_val(s: Seq<char>) -> nat
    decreases s.len(),
{
    if s.len() == 0 {
        0
    } else {
        digits_val(s.take(s.len() - 1)) * 10 + digit_val(s[s.len() - 1])
    }
}

/// The integer a decimal string denotes: a leading minus sign negates
/// the value of the remaining digits.
pub open spec fn int_text_val(s: Seq<char>) -> int {
    if s.len() > 0 && s[0] == '-' {
        -(digits_val(s.skip(1)) as int)
    } else {
        digits_val(s) as int
    }
}

/// The first character of a digit string is a digit, never a sign.
proof fn lemma_dec_digits_head(n: nat)
    ensures
        dec_digits(n).len() > 0,
        digit_val(dec_digits(n)[0]) < 10,
    decreases n,
{
    if n < 10 {
        assert(digit_val(dec_digits(n)[0]) < 10);
    } else {
        lemma_dec_digits_head(n / 10);
        assert(dec_digits(n)[0] == dec_digits(n / 10)[0]);
    }
}

/// Formatting then parsing a natural number gives it back.
pub proof fn lemma_dec_digits_val(n: nat)
    ensures
        digits_val(dec_digits(n)) == n,
    decreases n,
{
    if n < 10 {
        assert(dec_digits(n) == seq![digit_char(n)]);
        assert(dec_digits(n).take(dec_digits(n).len() - 1) =~= Seq::<char>::empty());
        assert(digits_val(Seq::<char>::empty()) == 0);
        assert(digits_val(dec_digits(n)) == digits_val(Seq::<char>::empty()) * 10 + digit_val(
            dec_digits(n)[dec_digits(n).len() - 1],
        ));
        assert(dec_digits(n)[dec_digits(n).len() - 1] == digit_char(n));
        assert(digits_val(dec_digits(n)) == digit_val(digit_char(n)));
        assert(digit_val(digit_char(n)) == n);
    } else {
        lemma_dec_digits_val(n / 10);
        let d = dec_digits(n / 10);
        assert(dec_digits(n) == d + seq![digit_char(n % 10)]);
        assert(dec_digits(n).take(dec_digits(n).len() - 1) =~= d);
        assert(dec_digits(n)[dec_digits(n).len() - 1] == digit_char(n % 10));
        assert(digit_val(digit_char(n % 10)) == n % 10);
        assert(digits_val(dec_digits(n)) == (n / 10) * 10 + n % 10);
        assert((n / 10) * 10 + n % 10 == n) by {
            vstd::arithmetic::div_mod::lemma_fundamental_div_mod(n as int, 10);
        }
    }
}

/// Formatting then parsing a signed integer gives it back.
pub proof fn lemma_dec_int_val(i: int)
    ensures
        int_text_val(dec_int(i)) == i,
{
    if i < 0 {
        assert(dec_int(i)[0] == '-');
        assert(dec_int(i).skip(1) =~= dec_digits((-i) as nat));
        lemma_dec_digits_val((-i) as nat);
    } else {
        lemma_dec_digits_head(i as nat);
        assert(dec_int(i)[0] != '-');
        lemma_dec_digits_val(i as nat);
    }
}

/// Law: an integer field value ends in the literal `i` suffix, and
/// what stands before the suffix parses back to the same integer.
pub proof fn lemma_integer_field_round_trip(i: i64)
    ensures
        field_value_text(Value::Integer(i)).len() > 0,
        field_value_text(Value::Integer(i)).last() == 'i',
        int_text_val(field_value_text(Value::Integer(i)).drop_last()) == i as int,
{
    lemma_dec_int_val(i as int);
    if i < 0 {
        lemma_dec_digits_head((-(i as int)) as nat);
    } else {
        lemma_dec_digits_head(i as nat);
    }
    assert(field_value_text(Value::Integer(i)).drop_last() =~= dec_int(i as int));
}

/// Law: a float field value never carries the `i` suffix: its last
/// character is a digit, a sign, a point or an exponent marker, and
/// `i` is none of these.
pub proof fn lemma_float_field_no_integer_suffix(t: String)
    requires
        crate::keys::float_text_wf(t@),
    ensures
        field_value_text(Value::Float(t)).len() > 0,
        field_value_text(Value::Float(t)).last() != 'i',
{
    assert(crate::keys::float_char(t@[t@.len() - 1]));
}

} // verus!
