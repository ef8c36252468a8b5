//! SQL text with parameters: values as literals, and literals in the place of
//! placeholders.

use vstd::prelude::*;

use crate::calendar::day_text;
use crate::calendar::iso_date;
use crate::calendar::iso_timestamp;
use crate::calendar::timestamp_text;
use crate::decimals::decimal_notation;
use crate::decimals::decimal_to_string;
use crate::errors::QuackError;
use crate::errors::QuackErrorView;
use crate::rows::key_index;
use crate::rows::row_entries;
use crate::rows::row_get;
use crate::rows::Row;
use crate::text::chars_of;
use crate::text::is_white_space;
use crate::text::joined;
use crate::text::matches_at;
use crate::text::occurs_at;
use crate::text::signed_decimal;
use crate::text::signed_decimal_text;
use crate::text::text_between;
use crate::text::white_space;
use crate::types::views;
use crate::value::lemma_nested_view;
use crate::value::StructValue;
use crate::value::FieldView;
use crate::value::IntervalValue;
use crate::value::Value;
use crate::value::ValueView;

verus! {

/// A value that takes the place of a placeholder.
pub type SqlParameter = Value;

/// The values for the placeholders of a statement.
#[derive(Debug)]
pub enum SqlParameters {
    /// One for each `?`, in order.
    Positional(Vec<SqlParameter>),
    /// One for each name behind a colon.
    Named(Row),
}

/// The value of `SqlParameters`.
pub enum SqlParametersView {
    Positional(Seq<ValueView>),
    Named(Seq<(Seq<char>, ValueView)>),
}

impl View for SqlParameters {
    type V = SqlParametersView;

    open spec fn view(&self) -> SqlParametersView {
        match self {
            SqlParameters::Positional(values) => SqlParametersView::Positional(views(values@)),
            SqlParameters::Named(values) => SqlParametersView::Named(row_entries(*values)),
        }
    }
}

// ---------------------------------------------------------------------------
// Literals
// ---------------------------------------------------------------------------
/// Text with every single quote twice.
pub open spec fn doubled_quotes(text: Seq<char>) -> Seq<char>
    decreases text.len(),
{
    if text.len() == 0 {
        seq![]
    } else if text.last() == '\'' {
        doubled_quotes(text.drop_last()) + seq!['\'', '\'']
    } else {
        doubled_quotes(text.drop_last()).push(text.last())
    }
}

/// A text literal.
pub open spec fn quoted(text: Seq<char>) -> Seq<char> {
    seq!['\''] + doubled_quotes(text) + seq!['\'']
}

/// The character of a hexadecimal digit.
pub open spec fn hex_digit(d: u8) -> char {
    if d < 10 {
        (48 + d) as u8 as char
    } else {
        (55 + d) as u8 as char
    }
}

/// Bytes, each as an escape.
pub open spec fn escaped_bytes(bytes: Seq<u8>) -> Seq<char>
    decreases bytes.len(),
{
    if bytes.len() == 0 {
        seq![]
    } else {
        escaped_bytes(bytes.drop_last()) + seq![
            '\\',
            'x',
            hex_digit(bytes.last() / 16),
            hex_digit(bytes.last() % 16),
        ]
    }
}

/// The literal of an interval.
pub open spec fn interval_literal(span: IntervalValue) -> Seq<char> {
    "INTERVAL '"@ + signed_decimal(span.months as int) + " months "@ + signed_decimal(
        span.days as int,
    ) + " days "@ + signed_decimal(span.micros as int) + " microseconds'"@
}

/// The error for a date or timestamp outside of the years 1 to 9999.
pub open spec fn no_notation() -> QuackErrorView {
    QuackErrorView::UnsupportedType("no SQL literal outside of the years 1 to 9999"@)
}

/// The literal of a value.
pub open spec fn literal(v: ValueView) -> Result<Seq<char>, QuackErrorView>
    decreases v, 0nat,
{
    match v {
        ValueView::Null => Ok("NULL"@),
        ValueView::Bool(b) => Ok(
            if b {
                "TRUE"@
            } else {
                "FALSE"@
            },
        ),
        ValueView::Int(n) => Ok(signed_decimal(n as int)),
        ValueView::HugeInt(n) => Ok(signed_decimal(n as int)),
        ValueView::Decimal(d) => Ok(decimal_notation(d.value as int, d.scale as nat)),
        ValueView::Date(d) => match day_text(d.days as int) {
            Some(day) => Ok("DATE '"@ + day + "'"@),
            None => Err(no_notation()),
        },
        ValueView::Timestamp(t) => match timestamp_text(t) {
            Some(text) => Ok(
                if t.with_time_zone {
                    "TIMESTAMPTZ '"@ + text + "+00'"@
                } else {
                    "TIMESTAMP '"@ + text + "'"@
                },
            ),
            None => Err(no_notation()),
        },
        ValueView::Interval(span) => Ok(interval_literal(span)),
        ValueView::String(text) => Ok(quoted(text)),
        ValueView::Bytes(bytes) => Ok("'"@ + escaped_bytes(bytes) + "'::BLOB"@),
        ValueView::List(items) => match listed(items, items.len()) {
            Ok(text) => Ok("["@ + text + "]"@),
            Err(error) => Err(error),
        },
        ValueView::Struct(fields) => match fields_listed(fields, fields.len()) {
            Ok(text) => Ok("{"@ + text + "}"@),
            Err(error) => Err(error),
        },
    }
}

/// The literals of the first values, with commas between them.
pub open spec fn listed(items: Seq<ValueView>, count: nat) -> Result<Seq<char>, QuackErrorView>
    decreases items, count,
{
    if count == 0 || count > items.len() {
        Ok(seq![])
    } else {
        match listed(items, (count - 1) as nat) {
            Err(error) => Err(error),
            Ok(before) => match literal(items[count - 1]) {
                Err(error) => Err(error),
                Ok(text) => Ok(separated(before, count, text)),
            },
        }
    }
}

/// The first fields, each with its name and literal, with commas between them.
pub open spec fn fields_listed(fields: Seq<FieldView>, count: nat) -> Result<
    Seq<char>,
    QuackErrorView,
>
    decreases fields, count,
{
    if count == 0 || count > fields.len() {
        Ok(seq![])
    } else {
        match fields_listed(fields, (count - 1) as nat) {
            Err(error) => Err(error),
            Ok(before) => match literal(fields[count - 1].value) {
                Err(error) => Err(error),
                Ok(text) => Ok(
                    separated(before, count, quoted(fields[count - 1].name) + ": "@ + text),
                ),
            },
        }
    }
}

/// Text and one more item, with a comma before it unless it is the first.
pub open spec fn separated(before: Seq<char>, count: nat, item: Seq<char>) -> Seq<char> {
    if count == 1 {
        item
    } else {
        before + ", "@ + item
    }
}

fn push_doubled(out: &mut String, text: &str)
    ensures
        final(out)@ == old(out)@ + doubled_quotes(text@),
{
    let chars = chars_of(text);
    let count: usize = chars.len();
    assert(out@ =~= old(out)@ + doubled_quotes(chars@.take(0)));
    for i in 0..count
        invariant
            count == chars@.len(),
            out@ == old(out)@ + doubled_quotes(chars@.take(i as int)),
    {
        assert(chars@.take(i + 1).drop_last() =~= chars@.take(i as int));
        if chars[i] == '\'' {
            out.push('\'');
        }
        out.push(chars[i]);
        assert(out@ =~= old(out)@ + doubled_quotes(chars@.take(i + 1)));
    }
    assert(chars@.take(count as int) =~= chars@);
}

fn push_quoted(out: &mut String, text: &str)
    ensures
        final(out)@ == old(out)@ + quoted(text@),
{
    out.push('\'');
    push_doubled(out, text);
    out.push('\'');
    assert(out@ =~= old(out)@ + quoted(text@));
}

fn hex_char(d: u8) -> (c: char)
    requires
        d < 16,
    ensures
        c == hex_digit(d),
{
    if d < 10 {
        (48 + d) as char
    } else {
        (55 + d) as char
    }
}

fn push_escaped(out: &mut String, bytes: &Vec<u8>)
    ensures
        final(out)@ == old(out)@ + escaped_bytes(bytes@),
{
    let count: usize = bytes.len();
    assert(out@ =~= old(out)@ + escaped_bytes(bytes@.take(0)));
    for i in 0..count
        invariant
            count == bytes@.len(),
            out@ == old(out)@ + escaped_bytes(bytes@.take(i as int)),
    {
        assert(bytes@.take(i + 1).drop_last() =~= bytes@.take(i as int));
        let byte: u8 = bytes[i];
        out.push('\\');
        out.push('x');
        out.push(hex_char(byte / 16));
        out.push(hex_char(byte % 16));
        assert(out@ =~= old(out)@ + escaped_bytes(bytes@.take(i + 1)));
    }
    assert(bytes@.take(count as int) =~= bytes@);
}

fn interval_text(span: IntervalValue) -> (text: String)
    ensures
        text@ == interval_literal(span),
{
    let mut text = "INTERVAL '".to_owned();
    text.append(signed_decimal_text(span.months as i128).as_str());
    text.append(" months ");
    text.append(signed_decimal_text(span.days as i128).as_str());
    text.append(" days ");
    text.append(signed_decimal_text(span.micros as i128).as_str());
    text.append(" microseconds'");
    text
}

fn not_in_calendar() -> (error: QuackError)
    ensures
        error@ == no_notation(),
{
    QuackError::unsupported("no SQL literal outside of the years 1 to 9999")
}

/// The outcome of writing text, as plain values.
pub open spec fn text_view(text: Result<String, QuackError>) -> Result<Seq<char>, QuackErrorView> {
    match text {
        Ok(text) => Ok(text@),
        Err(error) => Err(error@),
    }
}

/// The literal of a value.
pub fn sql_literal(value: &SqlParameter) -> (text: Result<String, QuackError>)
    ensures
        text_view(text) == literal(value@),
    decreases value, 1nat,
{
    proof {
        lemma_nested_view(*value);
    }
    match value {
        Value::Null => Ok("NULL".to_owned()),
        Value::Bool(b) => Ok(
            if *b {
                "TRUE".to_owned()
            } else {
                "FALSE".to_owned()
            },
        ),
        Value::Int(n) => Ok(signed_decimal_text(*n as i128)),
        Value::HugeInt(n) => Ok(signed_decimal_text(*n)),
        Value::Decimal(d) => Ok(decimal_to_string(d)),
        Value::Date(d) => match iso_date(*d) {
            Some(day) => Ok(joined(joined("DATE '", day.as_str()).as_str(), "'")),
            None => Err(not_in_calendar()),
        },
        Value::Timestamp(t) => match iso_timestamp(*t) {
            Some(text) => Ok(
                if t.with_time_zone {
                    joined(joined("TIMESTAMPTZ '", text.as_str()).as_str(), "+00'")
                } else {
                    joined(joined("TIMESTAMP '", text.as_str()).as_str(), "'")
                },
            ),
            None => Err(not_in_calendar()),
        },
        Value::Interval(span) => Ok(interval_text(*span)),
        Value::String(text) => {
            let mut out = String::new();
            push_quoted(&mut out, text.as_str());
            assert(out@ =~= quoted(text@));
            Ok(out)
        },
        Value::Bytes(bytes) => {
            let mut out = "'".to_owned();
            push_escaped(&mut out, bytes);
            out.append("'::BLOB");
            Ok(out)
        },
        Value::List(items) => list_literal(items),
        Value::Struct(fields) => struct_literal(fields),
    }
}

fn list_literal(items: &Vec<Value>) -> (text: Result<String, QuackError>)
    ensures
        text_view(text) == literal(ValueView::List(views(items@))),
    decreases items, 0nat,
{
    let ghost vs = views(items@);
    let mut inside = String::new();
    let count: usize = items.len();
    let mut i: usize = 0;
    while i < count
        invariant
            i <= count,
            count == items@.len(),
            vs == views(items@),
            listed(vs, i as nat) == Ok::<Seq<char>, QuackErrorView>(inside@),
        decreases count - i,
    {
        assert(decreases_to!(items@ => items@[i as int]));
        assert(vs[i as int] == items@[i as int]@);
        match sql_literal(&items[i]) {
            Err(error) => {
                proof {
                    assert(listed(vs, (i + 1) as nat) == Err::<Seq<char>, QuackErrorView>(error@));
                    lemma_listed_error(vs, (i + 1) as nat, vs.len());
                }
                return Err(error);
            },
            Ok(text) => {
                if i > 0 {
                    inside.append(", ");
                    inside.append(text.as_str());
                } else {
                    inside = text;
                }
                assert(listed(vs, (i + 1) as nat) == Ok::<Seq<char>, QuackErrorView>(inside@));
            },
        }
        i += 1;
    }
    let mut out = "[".to_owned();
    out.append(inside.as_str());
    out.append("]");
    Ok(out)
}

proof fn lemma_listed_error(items: Seq<ValueView>, from: nat, to: nat)
    requires
        from <= to <= items.len(),
        listed(items, from) is Err,
    ensures
        listed(items, to) == listed(items, from),
    decreases to,
{
    if from < to {
        lemma_listed_error(items, from, (to - 1) as nat);
    }
}

fn struct_literal(fields: &StructValue) -> (text: Result<String, QuackError>)
    ensures
        text_view(text) == literal(ValueView::Struct(fields@)),
    decreases fields, 0nat,
{
    let ghost vs = fields@;
    let mut inside = String::new();
    let count: usize = fields.len();
    let mut i: usize = 0;
    while i < count
        invariant
            i <= count,
            count == fields@.len(),
            vs == fields@,
            fields_listed(vs, i as nat) == Ok::<Seq<char>, QuackErrorView>(inside@),
        decreases count - i,
    {
        let field = fields.field(i);
        assert(decreases_to!(*field => field.value));
        match sql_literal(&field.value) {
            Err(error) => {
                proof {
                    assert(fields_listed(vs, (i + 1) as nat) == Err::<Seq<char>, QuackErrorView>(
                        error@,
                    ));
                    lemma_fields_listed_error(vs, (i + 1) as nat, vs.len());
                }
                return Err(error);
            },
            Ok(text) => {
                let ghost before = inside@;
                if i > 0 {
                    inside.append(", ");
                }
                push_quoted(&mut inside, field.name.as_str());
                inside.append(": ");
                inside.append(text.as_str());
                assert(inside@ =~= separated(
                    before,
                    (i + 1) as nat,
                    quoted(vs[i as int].name) + ": "@ + text@,
                ));
            },
        }
        i += 1;
    }
    let mut out = "{".to_owned();
    out.append(inside.as_str());
    out.append("}");
    Ok(out)
}

proof fn lemma_fields_listed_error(fields: Seq<FieldView>, from: nat, to: nat)
    requires
        from <= to <= fields.len(),
        fields_listed(fields, from) is Err,
    ensures
        fields_listed(fields, to) == fields_listed(fields, from),
    decreases to,
{
    if from < to {
        lemma_fields_listed_error(fields, from, (to - 1) as nat);
    }
}

// ---------------------------------------------------------------------------
// Placeholders
// ---------------------------------------------------------------------------
/// Whether two characters stand at a position.
pub open spec fn pair_at(s: Seq<char>, i: int, first: char, second: char) -> bool {
    0 <= i && i + 1 < s.len() && s[i] == first && s[i + 1] == second
}

/// Where quoted text ends that is open at a position: behind the first quote
/// that is not doubled.
pub open spec fn quote_end(s: Seq<char>, i: int, quote: char) -> int
    decreases s.len() - i,
{
    if i >= s.len() {
        s.len() as int
    } else if s[i] != quote {
        quote_end(s, i + 1, quote)
    } else if pair_at(s, i, quote, quote) {
        quote_end(s, i + 2, quote)
    } else {
        i + 1
    }
}

/// Where the line ends that holds a position.
pub open spec fn line_end(s: Seq<char>, i: int) -> int
    decreases s.len() - i,
{
    if i >= s.len() {
        s.len() as int
    } else if s[i] == '\n' || s[i] == '\r' {
        i
    } else {
        line_end(s, i + 1)
    }
}

/// Where a comment ends that is open at a position, so many deep.
pub open spec fn comment_end(s: Seq<char>, i: int, depth: nat) -> int
    decreases s.len() - i,
{
    if i >= s.len() {
        s.len() as int
    } else if pair_at(s, i, '*', '/') {
        if depth <= 1 {
            i + 2
        } else {
            comment_end(s, i + 2, (depth - 1) as nat)
        }
    } else if pair_at(s, i, '/', '*') {
        comment_end(s, i + 2, depth + 1)
    } else {
        comment_end(s, i + 1, depth)
    }
}

/// Where quoted text with escapes ends that is open at a position: behind the
/// first quote that is neither doubled nor behind a backslash.
pub open spec fn escaped_quote_end(s: Seq<char>, i: int) -> int
    decreases s.len() - i,
{
    if i + 1 >= s.len() {
        s.len() as int
    } else if s[i] == '\\' || pair_at(s, i, '\'', '\'') {
        escaped_quote_end(s, i + 2)
    } else if s[i] == '\'' {
        i + 1
    } else {
        escaped_quote_end(s, i + 1)
    }
}

/// Where the mark ends that opens dollar-quoted text at a position: two dollar
/// signs and a tag between them, which may be empty; the position itself if
/// there is no such mark.
pub open spec fn dollar_mark_end(s: Seq<char>, i: int) -> int {
    let end = run_end(s, i + 1, CharClass::Tag);
    if s[i] == '$' && end < s.len() && s[end] == '$' && (end == i + 1 || is_word_start(s[i + 1])) {
        end + 1
    } else {
        i
    }
}

/// Where dollar-quoted text ends that is open at a position: behind the next
/// mark like the one that opened it.
pub open spec fn dollar_quote_end(s: Seq<char>, i: int, mark: Seq<char>) -> int
    decreases s.len() - i,
{
    if i >= s.len() {
        s.len() as int
    } else if occurs_at(s, mark, i) {
        i + mark.len()
    } else {
        dollar_quote_end(s, i + 1, mark)
    }
}

/// Where the quoted text, quoted name or comment ends that begins at a
/// position; the position itself if none begins there. Text is quoted by single
/// quotes, with escapes if an `E` stands before them, or by dollar marks.
pub open spec fn passage_end(s: Seq<char>, i: int) -> int {
    if s[i] == '\'' || s[i] == '"' {
        quote_end(s, i + 1, s[i])
    } else if pair_at(s, i, 'E', '\'') || pair_at(s, i, 'e', '\'') {
        escaped_quote_end(s, i + 2)
    } else if dollar_mark_end(s, i) > i {
        dollar_quote_end(
            s,
            dollar_mark_end(s, i),
            s.subrange(i, dollar_mark_end(s, i)),
        )
    } else if pair_at(s, i, '-', '-') {
        line_end(s, i + 2)
    } else if pair_at(s, i, '/', '*') {
        comment_end(s, i + 2, 1)
    } else {
        i
    }
}

/// Whether a name can begin with a character.
pub open spec fn is_name_start(c: char) -> bool {
    'a' <= c <= 'z' || 'A' <= c <= 'Z' || c == '_'
}

/// Whether a name can go on with a character.
pub open spec fn is_name_char(c: char) -> bool {
    is_name_start(c) || '0' <= c <= '9'
}

/// Whether a word of a statement can begin with a character.
pub open spec fn is_word_start(c: char) -> bool {
    is_name_start(c) || c as u32 >= 0x80 && !is_white_space(c)
}

/// Which characters a run is made of.
#[derive(Clone, Copy, Debug, PartialEq, Eq, Structural)]
pub enum CharClass {
    /// Those of the name of a placeholder.
    Name,
    /// Those of the tag of a dollar mark.
    Tag,
    /// Those of a word, dollar signs among them.
    Word,
}

impl CharClass {
    /// Whether a run goes on with a character.
    pub open spec fn includes(self, c: char) -> bool {
        match self {
            CharClass::Name => is_name_char(c),
            CharClass::Tag => is_word_start(c) || is_name_char(c),
            CharClass::Word => is_word_start(c) || is_name_char(c) || c == '$',
        }
    }
}

/// Where a run of characters ends that holds a position.
pub open spec fn run_end(s: Seq<char>, i: int, class: CharClass) -> int
    decreases s.len() - i,
{
    if i >= s.len() {
        s.len() as int
    } else if class.includes(s[i]) {
        run_end(s, i + 1, class)
    } else {
        i
    }
}

/// A piece of a statement.
#[derive(Debug)]
pub enum Piece {
    /// Text that stays.
    Text(String),
    /// A placeholder and its name; `?` has none.
    Slot(String),
}

/// The value of a `Piece`.
pub enum PieceView {
    Text(Seq<char>),
    Slot(Seq<char>),
}

impl View for Piece {
    type V = PieceView;

    open spec fn view(&self) -> PieceView {
        match self {
            Piece::Text(text) => PieceView::Text(text@),
            Piece::Slot(name) => PieceView::Slot(name@),
        }
    }
}

/// The piece that begins at a position, and where it ends. Placeholders are
/// either `?` or names behind a colon; two colons are a cast.
pub open spec fn piece_at(s: Seq<char>, i: int, named: bool) -> (PieceView, int) {
    let end = passage_end(s, i);
    if end > i {
        (PieceView::Text(s.subrange(i, end)), end)
    } else if !named && s[i] == '?' {
        (PieceView::Slot(seq![]), i + 1)
    } else if named && pair_at(s, i, ':', ':') {
        (PieceView::Text(s.subrange(i, i + 2)), i + 2)
    } else if named && s[i] == ':' && i + 1 < s.len() && is_name_start(s[i + 1]) {
        let end = run_end(s, i + 1, CharClass::Name);
        (PieceView::Slot(s.subrange(i + 1, end)), end)
    } else if is_word_start(s[i]) {
        let end = run_end(s, i, CharClass::Word);
        (PieceView::Text(s.subrange(i, end)), end)
    } else {
        (PieceView::Text(s.subrange(i, i + 1)), i + 1)
    }
}

proof fn lemma_quote_end(s: Seq<char>, i: int, quote: char)
    requires
        0 <= i <= s.len(),
    ensures
        i <= quote_end(s, i, quote) <= s.len(),
    decreases s.len() - i,
{
    if i < s.len() {
        if s[i] != quote {
            lemma_quote_end(s, i + 1, quote);
        } else if pair_at(s, i, quote, quote) {
            lemma_quote_end(s, i + 2, quote);
        }
    }
}

proof fn lemma_line_end(s: Seq<char>, i: int)
    requires
        0 <= i <= s.len(),
    ensures
        i <= line_end(s, i) <= s.len(),
    decreases s.len() - i,
{
    if i < s.len() && s[i] != '\n' && s[i] != '\r' {
        lemma_line_end(s, i + 1);
    }
}

proof fn lemma_comment_end(s: Seq<char>, i: int, depth: nat)
    requires
        0 <= i <= s.len(),
    ensures
        i <= comment_end(s, i, depth) <= s.len(),
    decreases s.len() - i,
{
    if i < s.len() {
        if pair_at(s, i, '*', '/') {
            if depth > 1 {
                lemma_comment_end(s, i + 2, (depth - 1) as nat);
            }
        } else if pair_at(s, i, '/', '*') {
            lemma_comment_end(s, i + 2, depth + 1);
        } else {
            lemma_comment_end(s, i + 1, depth);
        }
    }
}

proof fn lemma_escaped_quote_end(s: Seq<char>, i: int)
    requires
        0 <= i <= s.len(),
    ensures
        i <= escaped_quote_end(s, i) <= s.len(),
    decreases s.len() - i,
{
    if i + 1 < s.len() {
        lemma_escaped_quote_end(s, i + 1);
        lemma_escaped_quote_end(s, i + 2);
    }
}

proof fn lemma_dollar_quote_end(s: Seq<char>, i: int, mark: Seq<char>)
    requires
        0 <= i <= s.len(),
    ensures
        i <= dollar_quote_end(s, i, mark) <= s.len(),
    decreases s.len() - i,
{
    if i < s.len() && !occurs_at(s, mark, i) {
        lemma_dollar_quote_end(s, i + 1, mark);
    }
}

pub(crate) proof fn lemma_run_end(s: Seq<char>, i: int, class: CharClass)
    requires
        0 <= i <= s.len(),
    ensures
        i <= run_end(s, i, class) <= s.len(),
        i < s.len() && class.includes(s[i]) ==> i < run_end(s, i, class),
    decreases s.len() - i,
{
    if i < s.len() && class.includes(s[i]) {
        lemma_run_end(s, i + 1, class);
    }
}

pub(crate) proof fn lemma_passage_end(s: Seq<char>, i: int)
    requires
        0 <= i < s.len(),
    ensures
        i <= passage_end(s, i) <= s.len(),
{
    lemma_quote_end(s, i + 1, s[i]);
    lemma_run_end(s, i + 1, CharClass::Tag);
    let end = dollar_mark_end(s, i);
    lemma_dollar_quote_end(s, end, s.subrange(i, end));
    if i + 1 < s.len() {
        lemma_escaped_quote_end(s, i + 2);
        lemma_line_end(s, i + 2);
        lemma_comment_end(s, i + 2, 1);
    }
}

/// A piece is not empty, and ends within the statement.
proof fn lemma_piece_at(s: Seq<char>, i: int, named: bool)
    requires
        0 <= i < s.len(),
    ensures
        i < piece_at(s, i, named).1 <= s.len(),
{
    lemma_passage_end(s, i);
    lemma_run_end(s, i, CharClass::Word);
    lemma_run_end(s, i + 1, CharClass::Name);
}

/// The pieces of a statement from a position on.
pub open spec fn pieces(s: Seq<char>, i: int, named: bool) -> Seq<PieceView>
    decreases s.len() - i,
    when 0 <= i
    via pieces_end
{
    if i >= s.len() {
        seq![]
    } else {
        seq![piece_at(s, i, named).0] + pieces(s, piece_at(s, i, named).1, named)
    }
}

#[via_fn]
proof fn pieces_end(s: Seq<char>, i: int, named: bool) {
    if i < s.len() {
        lemma_piece_at(s, i, named);
    }
}

fn quote_end_from(chars: &Vec<char>, from: usize, quote: char) -> (end: usize)
    requires
        from <= chars@.len(),
    ensures
        end == quote_end(chars@, from as int, quote),
        from <= end <= chars@.len(),
{
    let count: usize = chars.len();
    let mut i: usize = from;
    while i < count
        invariant
            from <= i <= count,
            count == chars@.len(),
            quote_end(chars@, from as int, quote) == quote_end(chars@, i as int, quote),
        decreases count - i,
    {
        if chars[i] != quote {
            i += 1;
        } else if i + 1 < count && chars[i + 1] == quote {
            i += 2;
        } else {
            return i + 1;
        }
    }
    i
}

fn line_end_from(chars: &Vec<char>, from: usize) -> (end: usize)
    requires
        from <= chars@.len(),
    ensures
        end == line_end(chars@, from as int),
        from <= end <= chars@.len(),
{
    let count: usize = chars.len();
    let mut i: usize = from;
    while i < count && chars[i] != '\n' && chars[i] != '\r'
        invariant
            from <= i <= count,
            count == chars@.len(),
            line_end(chars@, from as int) == line_end(chars@, i as int),
        decreases count - i,
    {
        i += 1;
    }
    i
}

fn comment_end_from(chars: &Vec<char>, from: usize) -> (end: usize)
    requires
        from <= chars@.len(),
    ensures
        end == comment_end(chars@, from as int, 1),
        from <= end <= chars@.len(),
{
    let count: usize = chars.len();
    let mut depth: usize = 1;
    let mut i: usize = from;
    while i < count
        invariant
            from <= i <= count,
            count == chars@.len(),
            1 <= depth <= i - from + 1,
            comment_end(chars@, from as int, 1) == comment_end(chars@, i as int, depth as nat),
        decreases count - i,
    {
        if i + 1 < count && chars[i] == '*' && chars[i + 1] == '/' {
            if depth <= 1 {
                return i + 2;
            }
            depth -= 1;
            i += 2;
        } else if i + 1 < count && chars[i] == '/' && chars[i + 1] == '*' {
            depth += 1;
            i += 2;
        } else {
            i += 1;
        }
    }
    i
}

fn escaped_quote_end_from(chars: &Vec<char>, from: usize) -> (end: usize)
    requires
        from <= chars@.len(),
    ensures
        end == escaped_quote_end(chars@, from as int),
        from <= end <= chars@.len(),
{
    let count: usize = chars.len();
    let mut i: usize = from;
    while count - i > 1
        invariant
            from <= i <= count,
            count == chars@.len(),
            escaped_quote_end(chars@, from as int) == escaped_quote_end(chars@, i as int),
        decreases count - i,
    {
        let c: char = chars[i];
        if c == '\\' || (c == '\'' && chars[i + 1] == '\'') {
            i += 2;
        } else if c == '\'' {
            return i + 1;
        } else {
            i += 1;
        }
    }
    count
}

pub(crate) fn starts_word(c: char) -> (b: bool)
    ensures
        b == is_word_start(c),
{
    starts_name(c) || (c as u32 >= 0x80 && !white_space(c))
}

fn is_included(class: CharClass, c: char) -> (b: bool)
    ensures
        b == class.includes(c),
{
    let named = starts_name(c) || ('0' <= c && c <= '9');
    match class {
        CharClass::Name => named,
        CharClass::Tag => named || starts_word(c),
        CharClass::Word => named || starts_word(c) || c == '$',
    }
}

pub(crate) fn run_end_from(chars: &Vec<char>, from: usize, class: CharClass) -> (end: usize)
    requires
        from <= chars@.len(),
    ensures
        end == run_end(chars@, from as int, class),
        from <= end <= chars@.len(),
{
    let count: usize = chars.len();
    let mut i: usize = from;
    while i < count && is_included(class, chars[i])
        invariant
            from <= i <= count,
            count == chars@.len(),
            run_end(chars@, from as int, class) == run_end(chars@, i as int, class),
        decreases count - i,
    {
        i += 1;
    }
    i
}

fn dollar_mark_end_from(chars: &Vec<char>, i: usize) -> (end: usize)
    requires
        i < chars@.len(),
    ensures
        end == dollar_mark_end(chars@, i as int),
        i <= end <= chars@.len(),
{
    let count: usize = chars.len();
    if chars[i] != '$' {
        return i;
    }
    let end: usize = run_end_from(chars, i + 1, CharClass::Tag);
    if end < count && chars[end] == '$' && (end == i + 1 || starts_word(chars[i + 1])) {
        end + 1
    } else {
        i
    }
}

fn dollar_quote_end_from(chars: &Vec<char>, from: usize, mark: &Vec<char>) -> (end: usize)
    requires
        from <= chars@.len(),
    ensures
        end == dollar_quote_end(chars@, from as int, mark@),
        from <= end <= chars@.len(),
{
    let count: usize = chars.len();
    let mut i: usize = from;
    while i < count
        invariant
            from <= i <= count,
            count == chars@.len(),
            dollar_quote_end(chars@, from as int, mark@) == dollar_quote_end(
                chars@,
                i as int,
                mark@,
            ),
        decreases count - i,
    {
        if matches_at(chars, mark, i) {
            return i + mark.len();
        }
        i += 1;
    }
    i
}

pub(crate) fn passage_end_from(chars: &Vec<char>, i: usize) -> (end: usize)
    requires
        i < chars@.len(),
    ensures
        end == passage_end(chars@, i as int),
        i <= end <= chars@.len(),
{
    let count: usize = chars.len();
    let c: char = chars[i];
    if c == '\'' || c == '"' {
        return quote_end_from(chars, i + 1, c);
    }
    let opened: usize = dollar_mark_end_from(chars, i);
    if opened > i {
        let mark = chars_of(text_between(chars, i, opened).as_str());
        return dollar_quote_end_from(chars, opened, &mark);
    }
    if i + 1 < count {
        let next: char = chars[i + 1];
        if (c == 'E' || c == 'e') && next == '\'' {
            return escaped_quote_end_from(chars, i + 2);
        }
        if c == '-' && next == '-' {
            return line_end_from(chars, i + 2);
        }
        if c == '/' && next == '*' {
            return comment_end_from(chars, i + 2);
        }
    }
    i
}

pub(crate) fn starts_name(c: char) -> (b: bool)
    ensures
        b == is_name_start(c),
{
    ('a' <= c && c <= 'z') || ('A' <= c && c <= 'Z') || c == '_'
}

fn next_piece(chars: &Vec<char>, i: usize, named: bool) -> (piece: (Piece, usize))
    requires
        i < chars@.len(),
    ensures
        (piece.0@, piece.1 as int) == piece_at(chars@, i as int, named),
        i < piece.1 <= chars@.len(),
{
    proof {
        lemma_piece_at(chars@, i as int, named);
    }
    let count: usize = chars.len();
    let end: usize = passage_end_from(chars, i);
    let c: char = chars[i];
    if end > i {
        (Piece::Text(text_between(chars, i, end)), end)
    } else if !named && c == '?' {
        let name = String::new();
        assert(name@ =~= seq![]);
        (Piece::Slot(name), i + 1)
    } else if named && c == ':' && i + 1 < count && chars[i + 1] == ':' {
        (Piece::Text(text_between(chars, i, i + 2)), i + 2)
    } else if named && c == ':' && i + 1 < count && starts_name(chars[i + 1]) {
        let end: usize = run_end_from(chars, i + 1, CharClass::Name);
        (Piece::Slot(text_between(chars, i + 1, end)), end)
    } else if starts_word(c) {
        let end: usize = run_end_from(chars, i, CharClass::Word);
        (Piece::Text(text_between(chars, i, end)), end)
    } else {
        (Piece::Text(text_between(chars, i, i + 1)), i + 1)
    }
}

/// The pieces of a statement.
pub fn split_statement(sql: &str, named: bool) -> (parts: Vec<Piece>)
    ensures
        views(parts@) == pieces(sql@, 0, named),
{
    let chars = chars_of(sql);
    let count: usize = chars.len();
    let mut parts: Vec<Piece> = Vec::new();
    let mut i: usize = 0;
    assert(views(parts@) + pieces(chars@, 0, named) =~= pieces(chars@, 0, named));
    while i < count
        invariant
            i <= count,
            count == chars@.len(),
            views(parts@) + pieces(chars@, i as int, named) == pieces(chars@, 0, named),
        decreases count - i,
    {
        let ghost before = views(parts@);
        let (piece, end) = next_piece(&chars, i, named);
        parts.push(piece);
        proof {
            assert(views(parts@) =~= before.push(piece@));
            assert(views(parts@) + pieces(chars@, end as int, named) =~= before + (seq![piece@]
                + pieces(chars@, end as int, named)));
        }
        i = end;
    }
    assert(views(parts@) + pieces(chars@, i as int, named) =~= views(parts@));
    parts
}

/// The placeholders among some pieces.
pub open spec fn slot_count(parts: Seq<PieceView>) -> nat
    decreases parts.len(),
{
    if parts.len() == 0 {
        0
    } else {
        slot_count(parts.drop_last()) + (if parts.last() is Slot {
            1nat
        } else {
            0nat
        })
    }
}

/// What takes the place of a placeholder with a name and so many placeholders
/// before it.
pub open spec fn argument(
    parameters: SqlParametersView,
    name: Seq<char>,
    before: nat,
) -> Result<Seq<char>, QuackErrorView> {
    match parameters {
        SqlParametersView::Positional(values) => if before < values.len() {
            literal(values[before as int])
        } else {
            Err(QuackErrorView::Protocol("not enough SQL parameters"@))
        },
        SqlParametersView::Named(entries) => match key_index(entries, name) {
            Some(i) => literal(entries[i].1),
            None => Err(QuackErrorView::Protocol("missing SQL parameter "@ + name)),
        },
    }
}

/// Pieces with literals in the place of the placeholders; the first
/// placeholder without one decides the error.
pub open spec fn filled(parts: Seq<PieceView>, parameters: SqlParametersView) -> Result<
    Seq<char>,
    QuackErrorView,
>
    decreases parts.len(),
{
    if parts.len() == 0 {
        Ok(seq![])
    } else {
        match filled(parts.drop_last(), parameters) {
            Err(error) => Err(error),
            Ok(before) => match parts.last() {
                PieceView::Text(text) => Ok(before + text),
                PieceView::Slot(name) => match argument(
                    parameters,
                    name,
                    slot_count(parts.drop_last()),
                ) {
                    Err(error) => Err(error),
                    Ok(text) => Ok(before + text),
                },
            },
        }
    }
}

/// A statement with literals in the place of its placeholders.
pub open spec fn formatted(sql: Seq<char>, parameters: Option<SqlParametersView>) -> Result<
    Seq<char>,
    QuackErrorView,
> {
    match parameters {
        None => Ok(sql),
        Some(SqlParametersView::Named(entries)) => filled(
            pieces(sql, 0, true),
            SqlParametersView::Named(entries),
        ),
        Some(SqlParametersView::Positional(values)) => match filled(
            pieces(sql, 0, false),
            SqlParametersView::Positional(values),
        ) {
            Err(error) => Err(error),
            Ok(text) => if slot_count(pieces(sql, 0, false)) < values.len() {
                Err(QuackErrorView::Protocol("too many SQL parameters"@))
            } else {
                Ok(text)
            },
        },
    }
}

fn argument_text(parameters: &SqlParameters, name: &str, before: usize) -> (text: Result<
    String,
    QuackError,
>)
    ensures
        text_view(text) == argument(parameters@, name@, before as nat),
{
    match parameters {
        SqlParameters::Positional(values) => if before < values.len() {
            sql_literal(&values[before])
        } else {
            Err(QuackError::protocol("not enough SQL parameters"))
        },
        SqlParameters::Named(values) => match row_get(values, name) {
            Some(value) => sql_literal(value),
            None => Err(QuackError::Protocol(joined("missing SQL parameter ", name))),
        },
    }
}

proof fn lemma_filled_error(parts: Seq<PieceView>, parameters: SqlParametersView, count: int)
    requires
        0 <= count <= parts.len(),
        filled(parts.take(count), parameters) is Err,
    ensures
        filled(parts, parameters) == filled(parts.take(count), parameters),
    decreases parts.len(),
{
    if count < parts.len() {
        assert(parts.drop_last().take(count) =~= parts.take(count));
        lemma_filled_error(parts.drop_last(), parameters, count);
    } else {
        assert(parts.take(count) =~= parts);
    }
}

fn fill(parts: &Vec<Piece>, parameters: &SqlParameters) -> (text: Result<(String, usize), QuackError>)
    ensures
        match text {
            Ok((text, slots)) => filled(views(parts@), parameters@) == Ok::<
                Seq<char>,
                QuackErrorView,
            >(text@) && slots == slot_count(views(parts@)),
            Err(error) => filled(views(parts@), parameters@) == Err::<Seq<char>, QuackErrorView>(
                error@,
            ),
        },
{
    let ghost all = views(parts@);
    let count: usize = parts.len();
    let mut text = String::new();
    let mut slots: usize = 0;
    assert(text@ =~= seq![]);
    for i in 0..count
        invariant
            count == parts@.len(),
            all == views(parts@),
            filled(all.take(i as int), parameters@) == Ok::<Seq<char>, QuackErrorView>(text@),
            slots == slot_count(all.take(i as int)),
            slots <= i,
    {
        proof {
            assert(all.take(i + 1).drop_last() =~= all.take(i as int));
            assert(all.take(i + 1).last() == parts@[i as int]@);
        }
        match &parts[i] {
            Piece::Text(part) => {
                text.append(part.as_str());
            },
            Piece::Slot(name) => {
                match argument_text(parameters, name.as_str(), slots) {
                    Ok(part) => {
                        text.append(part.as_str());
                        slots += 1;
                    },
                    Err(error) => {
                        proof {
                            lemma_filled_error(all, parameters@, i + 1);
                        }
                        return Err(error);
                    },
                }
            },
        }
    }
    assert(all.take(count as int) =~= all);
    Ok((text, slots))
}

/// A statement with literals in the place of its placeholders.
///
/// Placeholders stand outside of quoted text, quoted names and comments. Each
/// `?` takes the next positional value; a name behind a colon takes the value
/// of that name.
pub fn format_sql(sql: &str, parameters: Option<&SqlParameters>) -> (text: Result<
    String,
    QuackError,
>)
    ensures
        text_view(text) == formatted(
            sql@,
            match parameters {
                Some(parameters) => Some(parameters@),
                None => None,
            },
        ),
{
    let parameters = match parameters {
        None => {
            return Ok(sql.to_owned());
        },
        Some(parameters) => parameters,
    };
    let (named, supplied): (bool, usize) = match parameters {
        SqlParameters::Named(_) => (true, 0),
        SqlParameters::Positional(values) => (false, values.len()),
    };
    let parts = split_statement(sql, named);
    match fill(&parts, parameters) {
        Err(error) => Err(error),
        Ok((text, slots)) => if !named && slots < supplied {
            Err(QuackError::protocol("too many SQL parameters"))
        } else {
            Ok(text)
        },
    }
}

// ---------------------------------------------------------------------------
// Laws
// ---------------------------------------------------------------------------
/// The text that a piece stands for in the statement.
pub open spec fn source_text(piece: PieceView, named: bool) -> Seq<char> {
    match piece {
        PieceView::Text(text) => text,
        PieceView::Slot(name) => if named {
            seq![':'] + name
        } else {
            seq!['?']
        },
    }
}

/// The text that pieces stand for in the statement.
pub open spec fn source_texts(parts: Seq<PieceView>, named: bool) -> Seq<char>
    decreases parts.len(),
{
    if parts.len() == 0 {
        seq![]
    } else {
        source_texts(parts.drop_last(), named) + source_text(parts.last(), named)
    }
}

proof fn lemma_source_of_first(piece: PieceView, parts: Seq<PieceView>, named: bool)
    ensures
        source_texts(seq![piece] + parts, named) == source_text(piece, named) + source_texts(
            parts,
            named,
        ),
    decreases parts.len(),
{
    let all = seq![piece] + parts;
    if parts.len() == 0 {
        assert(all.drop_last() =~= seq![]);
        assert(source_texts(all.drop_last(), named) =~= seq![]);
        assert(source_texts(all, named) =~= source_text(piece, named) + source_texts(parts, named));
    } else {
        assert(all.drop_last() =~= seq![piece] + parts.drop_last());
        lemma_source_of_first(piece, parts.drop_last(), named);
        assert(source_texts(all, named) =~= source_text(piece, named) + source_texts(parts, named));
    }
}

proof fn lemma_pieces_make_up_the_rest(sql: Seq<char>, i: int, named: bool)
    requires
        0 <= i <= sql.len(),
    ensures
        source_texts(pieces(sql, i, named), named) == sql.skip(i),
    decreases sql.len() - i,
{
    if i < sql.len() {
        lemma_piece_at(sql, i, named);
        let (piece, end) = piece_at(sql, i, named);
        lemma_pieces_make_up_the_rest(sql, end, named);
        lemma_source_of_first(piece, pieces(sql, end, named), named);
        assert(source_text(piece, named) =~= sql.subrange(i, end));
        assert(sql.subrange(i, end) + sql.skip(end) =~= sql.skip(i));
    } else {
        assert(sql.skip(i) =~= seq![]);
    }
}

/// The pieces of a statement make up its text: nothing is lost or moved.
pub proof fn law_pieces_make_up_the_statement(sql: Seq<char>, named: bool)
    ensures
        source_texts(pieces(sql, 0, named), named) == sql,
{
    lemma_pieces_make_up_the_rest(sql, 0, named);
    assert(sql.skip(0) =~= sql);
}

proof fn lemma_filled_without_slots(
    parts: Seq<PieceView>,
    parameters: SqlParametersView,
    named: bool,
)
    requires
        slot_count(parts) == 0,
    ensures
        filled(parts, parameters) == Ok::<Seq<char>, QuackErrorView>(source_texts(parts, named)),
    decreases parts.len(),
{
    if parts.len() > 0 {
        lemma_filled_without_slots(parts.drop_last(), parameters, named);
    }
}

/// A statement without placeholders stays as it is, whatever named values
/// there are.
pub proof fn law_statement_without_names_stays(
    sql: Seq<char>,
    entries: Seq<(Seq<char>, ValueView)>,
)
    requires
        slot_count(pieces(sql, 0, true)) == 0,
    ensures
        formatted(sql, Some(SqlParametersView::Named(entries))) == Ok::<Seq<char>, QuackErrorView>(
            sql,
        ),
{
    law_pieces_make_up_the_statement(sql, true);
    lemma_filled_without_slots(pieces(sql, 0, true), SqlParametersView::Named(entries), true);
}

/// A statement without placeholders stays as it is if there are no values, and
/// is refused if there are.
pub proof fn law_statement_without_marks_stays(sql: Seq<char>, values: Seq<ValueView>)
    requires
        slot_count(pieces(sql, 0, false)) == 0,
    ensures
        values.len() == 0 ==> formatted(sql, Some(SqlParametersView::Positional(values))) == Ok::<
            Seq<char>,
            QuackErrorView,
        >(sql),
        values.len() > 0 ==> formatted(sql, Some(SqlParametersView::Positional(values))) is Err,
{
    law_pieces_make_up_the_statement(sql, false);
    lemma_filled_without_slots(
        pieces(sql, 0, false),
        SqlParametersView::Positional(values),
        false,
    );
}

proof fn lemma_filled_needs_values(parts: Seq<PieceView>, values: Seq<ValueView>)
    requires
        filled(parts, SqlParametersView::Positional(values)) is Ok,
    ensures
        slot_count(parts) <= values.len(),
    decreases parts.len(),
{
    if parts.len() > 0 {
        lemma_filled_needs_values(parts.drop_last(), values);
    }
}

/// Positional values are taken only if there is one for each placeholder, no
/// more and no fewer.
pub proof fn law_each_mark_takes_one_value(sql: Seq<char>, values: Seq<ValueView>)
    requires
        formatted(sql, Some(SqlParametersView::Positional(values))) is Ok,
    ensures
        slot_count(pieces(sql, 0, false)) == values.len(),
{
    lemma_filled_needs_values(pieces(sql, 0, false), values);
}

proof fn lemma_doubled_quotes_end(text: Seq<char>, n: int, after: Seq<char>)
    requires
        0 <= n <= text.len(),
        after.len() > 0 ==> after[0] != '\'',
    ensures
        ({
            let s = quoted(text) + after;
            let at = 1 + doubled_quotes(text.take(n)).len();
            &&& at <= quoted(text).len() - 1
            &&& quote_end(s, at as int, '\'') == quoted(text).len()
        }),
    decreases text.len() - n,
{
    let s = quoted(text) + after;
    let body = doubled_quotes(text);
    if n == text.len() {
        assert(text.take(n) =~= text);
        let at = 1 + body.len() as int;
        assert(s[at] == '\'');
        assert(!pair_at(s, at, '\'', '\''));
    } else {
        lemma_doubled_quotes_end(text, n + 1, after);
        let before = doubled_quotes(text.take(n));
        assert(text.take(n + 1).drop_last() =~= text.take(n));
        lemma_doubled_prefix(text, n + 1);
        let longer = doubled_quotes(text.take(n + 1));
        let at = 1 + before.len() as int;
        assert(s[at] == body[at - 1]);
        assert(body[at - 1] == longer[at - 1]);
        if text[n] == '\'' {
            assert(s[at + 1] == body[at]);
            assert(body[at] == longer[at]);
            assert(pair_at(s, at, '\'', '\''));
        }
    }
}

proof fn lemma_doubled_prefix(text: Seq<char>, n: int)
    requires
        0 <= n <= text.len(),
    ensures
        doubled_quotes(text.take(n)).len() <= doubled_quotes(text).len(),
        doubled_quotes(text).take(doubled_quotes(text.take(n)).len() as int) == doubled_quotes(
            text.take(n),
        ),
        forall|k: int|
            0 <= k < doubled_quotes(text.take(n)).len() ==> doubled_quotes(text)[k]
                == #[trigger] doubled_quotes(text.take(n))[k],
    decreases text.len(),
{
    if n < text.len() {
        assert(text.drop_last().take(n) =~= text.take(n));
        lemma_doubled_prefix(text.drop_last(), n);
        let shorter = doubled_quotes(text.drop_last());
        let part = doubled_quotes(text.take(n));
        assert forall|k: int| 0 <= k < part.len() implies doubled_quotes(text)[k]
            == #[trigger] part[k] by {
            assert(shorter[k] == part[k]);
        }
        assert(doubled_quotes(text).take(part.len() as int) =~= part);
    } else {
        assert(text.take(n) =~= text);
        assert(doubled_quotes(text).take(doubled_quotes(text).len() as int) =~= doubled_quotes(
            text,
        ));
    }
}

/// Whatever a text holds, its literal is one passage of quoted text: it ends
/// where the literal ends, and nothing in it is a placeholder.
pub proof fn law_text_literal_is_one_passage(text: Seq<char>, after: Seq<char>, named: bool)
    requires
        after.len() > 0 ==> after[0] != '\'',
    ensures
        literal(ValueView::String(text)) == Ok::<Seq<char>, QuackErrorView>(quoted(text)),
        passage_end(quoted(text) + after, 0) == quoted(text).len(),
        pieces(quoted(text), 0, named) == seq![PieceView::Text(quoted(text))],
{
    let s = quoted(text) + after;
    assert(text.take(0) =~= seq![]);
    lemma_doubled_quotes_end(text, 0, after);
    lemma_doubled_quotes_end(text, 0, seq![]);
    let alone = quoted(text);
    assert(alone + Seq::<char>::empty() =~= alone);
    assert(s[0] == '\'');
    assert(alone.subrange(0, alone.len() as int) =~= alone);
    assert(pieces(alone, alone.len() as int, named) =~= seq![]);
    assert(pieces(alone, 0, named) =~= seq![PieceView::Text(alone)]) by {
        assert(passage_end(alone, 0) == alone.len());
    }
}

proof fn lemma_undoubled(text: Seq<char>, other: Seq<char>)
    requires
        doubled_quotes(text) == doubled_quotes(other),
    ensures
        text == other,
    decreases text.len(),
{
    if text.len() == 0 {
        assert(doubled_quotes(other).len() == 0);
        assert(other.len() == 0) by {
            if other.len() > 0 {
                assert(doubled_quotes(other).len() > 0);
            }
        }
        assert(text =~= other);
    } else {
        assert(doubled_quotes(text).len() > 0);
        assert(other.len() > 0);
        assert(doubled_quotes(text).last() == text.last());
        assert(doubled_quotes(other).last() == other.last());
        let d = doubled_quotes(text);
        if text.last() == '\'' {
            assert(d.take(d.len() - 2) =~= doubled_quotes(text.drop_last()));
            assert(d.take(d.len() - 2) =~= doubled_quotes(other.drop_last()));
        } else {
            assert(d.drop_last() =~= doubled_quotes(text.drop_last()));
            assert(d.drop_last() =~= doubled_quotes(other.drop_last()));
        }
        lemma_undoubled(text.drop_last(), other.drop_last());
        assert(text =~= text.drop_last().push(text.last()));
        assert(other =~= other.drop_last().push(other.last()));
    }
}

/// Different texts have different literals.
pub proof fn law_text_literals_are_told_apart(text: Seq<char>, other: Seq<char>)
    requires
        quoted(text) == quoted(other),
    ensures
        text == other,
{
    let q = quoted(text);
    assert(q.subrange(1, q.len() - 1) =~= doubled_quotes(text));
    assert(q.subrange(1, q.len() - 1) =~= doubled_quotes(other));
    lemma_undoubled(text, other);
}

/// The mark that opens and closes dollar-quoted text with a tag.
pub open spec fn dollar_mark(tag: Seq<char>) -> Seq<char> {
    seq!['$'] + tag + seq!['$']
}

/// Whether a tag is one that a dollar mark can have.
pub open spec fn is_tag(tag: Seq<char>) -> bool {
    &&& tag.len() > 0 ==> is_word_start(tag[0])
    &&& forall|k: int| 0 <= k < tag.len() ==> CharClass::Tag.includes(#[trigger] tag[k])
}

pub(crate) proof fn lemma_tag_run(s: Seq<char>, i: int, end: int)
    requires
        0 <= i <= end < s.len(),
        s[end] == '$',
        forall|k: int| i <= k < end ==> CharClass::Tag.includes(#[trigger] s[k]),
    ensures
        run_end(s, i, CharClass::Tag) == end,
    decreases end - i,
{
    if i < end {
        lemma_tag_run(s, i + 1, end);
    }
}

pub(crate) proof fn lemma_first_mark(s: Seq<char>, i: int, end: int, mark: Seq<char>)
    requires
        0 <= i <= end < s.len(),
        occurs_at(s, mark, end),
        forall|k: int| i <= k < end ==> !#[trigger] occurs_at(s, mark, k),
    ensures
        dollar_quote_end(s, i, mark) == end + mark.len(),
    decreases end - i,
{
    if i < end {
        lemma_first_mark(s, i + 1, end, mark);
    }
}

/// Dollar-quoted text is one passage, whatever quotes, semicolons and
/// placeholders it holds, as long as its mark does not come before its end.
#[verifier::rlimit(40)]
pub proof fn law_dollar_quoted_text_is_one_passage(
    tag: Seq<char>,
    text: Seq<char>,
    after: Seq<char>,
)
    requires
        is_tag(tag),
        forall|k: int|
            0 <= k < text.len() ==> !#[trigger] occurs_at(
                text + dollar_mark(tag),
                dollar_mark(tag),
                k,
            ),
    ensures
        passage_end(dollar_mark(tag) + text + dollar_mark(tag) + after, 0) == dollar_mark(tag).len()
            + text.len() + dollar_mark(tag).len(),
{
    let mark = dollar_mark(tag);
    let s = mark + text + mark + after;
    let open = tag.len() + 1;
    assert forall|k: int| 1 <= k < open implies CharClass::Tag.includes(#[trigger] s[k]) by {
        assert(s[k] == tag[k - 1]);
    }
    assert(s[0] == '$' && s[open as int] == '$');
    lemma_tag_run(s, 1, open as int);
    if tag.len() > 0 {
        assert(s[1] == tag[0]);
    }
    assert(dollar_mark_end(s, 0) == mark.len());
    assert(s.subrange(0, mark.len() as int) =~= mark);
    let from = mark.len() as int;
    let end = from + text.len();
    assert(s.subrange(end, end + mark.len()) =~= mark);
    assert forall|k: int| from <= k < end implies !#[trigger] occurs_at(s, mark, k) by {
        if occurs_at(s, mark, k) {
            assert((text + mark).subrange(k - from, k - from + mark.len()) =~= s.subrange(
                k,
                k + mark.len(),
            ));
            assert(occurs_at(text + mark, mark, k - from));
        }
    }
    lemma_first_mark(s, from, end, mark);
}

} // verus!
