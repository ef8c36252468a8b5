//! What the SQL literal of a value says: reading it by the rules of SQL gives
//! the value back.

use vstd::prelude::*;

use crate::calendar::day_text;
use crate::calendar::timestamp_text;
use crate::decimals::decimal_notation;
use crate::errors::QuackErrorView;
use crate::sql::doubled_quotes;
use crate::sql::escaped_bytes;
use crate::sql::fields_listed;
use crate::sql::hex_digit;
use crate::sql::listed;
use crate::sql::literal;
use crate::sql::no_notation;
use crate::sql::quoted;
use crate::text::law_decimal_notation;
use crate::text::signed_decimal;
use crate::text::writes_number;
use crate::value::DateValue;
use crate::value::DecimalValue;
use crate::value::FieldView;
use crate::value::IntervalValue;
use crate::value::TimestampValue;
use crate::value::ValueView;

verus! {

/// Whether text is an integer in decimal digits, behind a minus sign if it is
/// negative.
pub open spec fn writes_integer(text: Seq<char>, n: int) -> bool {
    if n < 0 {
        text.len() > 0 && text[0] == '-' && writes_number(text.skip(1), (-n) as nat)
    } else {
        writes_number(text, n as nat)
    }
}

proof fn lemma_signed_decimal(n: int)
    ensures
        writes_integer(signed_decimal(n), n),
{
    if n < 0 {
        let text = signed_decimal(n);
        assert(text.skip(1) =~= crate::text::decimal((-n) as nat));
        law_decimal_notation((-n) as nat);
    } else {
        law_decimal_notation(n as nat);
    }
}

/// A missing value, a truth value and an integer are written out: the literal of
/// an integer is that integer in decimal digits, whatever its size.
pub proof fn law_plain_literals(b: bool, n: i64, m: i128)
    ensures
        literal(ValueView::Null) == Ok::<Seq<char>, QuackErrorView>("NULL"@),
        literal(ValueView::Bool(b)) == Ok::<Seq<char>, QuackErrorView>(
            if b {
                "TRUE"@
            } else {
                "FALSE"@
            },
        ),
        literal(ValueView::Int(n)) matches Ok(text) && writes_integer(text, n as int),
        literal(ValueView::HugeInt(m)) matches Ok(text) && writes_integer(text, m as int),
{
    lemma_signed_decimal(n as int);
    lemma_signed_decimal(m as int);
}

/// What stands between the quotes of a text literal, by the rule that two quotes
/// are one; nothing if a quote stands alone.
pub open spec fn unquoted(body: Seq<char>) -> Option<Seq<char>>
    decreases body.len(),
{
    if body.len() == 0 {
        Some(seq![])
    } else if body[0] != '\'' {
        match unquoted(body.skip(1)) {
            Some(rest) => Some(seq![body[0]] + rest),
            None => None,
        }
    } else if body.len() >= 2 && body[1] == '\'' {
        match unquoted(body.skip(2)) {
            Some(rest) => Some(seq!['\''] + rest),
            None => None,
        }
    } else {
        None
    }
}

proof fn lemma_doubled_first(c: char, rest: Seq<char>)
    ensures
        doubled_quotes(seq![c] + rest) == (if c == '\'' {
            seq!['\'', '\'']
        } else {
            seq![c]
        }) + doubled_quotes(rest),
    decreases rest.len(),
{
    let all = seq![c] + rest;
    let head = if c == '\'' {
        seq!['\'', '\'']
    } else {
        seq![c]
    };
    if rest.len() == 0 {
        assert(all.drop_last() =~= seq![]);
        assert(doubled_quotes(all.drop_last()) =~= seq![]);
        assert(doubled_quotes(all) =~= head + doubled_quotes(rest));
    } else {
        assert(all.drop_last() =~= seq![c] + rest.drop_last());
        assert(all.last() == rest.last());
        lemma_doubled_first(c, rest.drop_last());
        assert(doubled_quotes(all) =~= head + doubled_quotes(rest));
    }
}

proof fn lemma_unquoted(text: Seq<char>)
    ensures
        unquoted(doubled_quotes(text)) == Some(text),
    decreases text.len(),
{
    let body = doubled_quotes(text);
    if text.len() > 0 {
        let rest = text.skip(1);
        assert(text =~= seq![text[0]] + rest);
        lemma_doubled_first(text[0], rest);
        lemma_unquoted(rest);
        if text[0] == '\'' {
            assert(body.skip(2) =~= doubled_quotes(rest));
        } else {
            assert(body.skip(1) =~= doubled_quotes(rest));
        }
    } else {
        assert(text =~= seq![]);
    }
}

/// A text literal stands between single quotes, and reading it by the rule that
/// two quotes are one gives the text back, whatever it holds.
pub proof fn law_text_literal_is_read_back(text: Seq<char>)
    ensures
        literal(ValueView::String(text)) matches Ok(written) && {
            &&& written.len() >= 2
            &&& written[0] == '\''
            &&& written.last() == '\''
            &&& unquoted(written.subrange(1, written.len() - 1)) == Some(text)
        },
{
    let written = quoted(text);
    assert(written.subrange(1, written.len() - 1) =~= doubled_quotes(text));
    lemma_unquoted(text);
}

/// The value of a hexadecimal digit.
pub open spec fn hex_value(c: char) -> int {
    if '0' <= c <= '9' {
        c as int - '0' as int
    } else if 'A' <= c <= 'F' {
        c as int - 'A' as int + 10
    } else {
        -1
    }
}

proof fn lemma_hex(d: u8)
    requires
        d < 16,
    ensures
        hex_value(hex_digit(d)) == d,
{
}

proof fn lemma_escapes(bytes: Seq<u8>, k: int)
    requires
        0 <= k < bytes.len(),
    ensures
        escaped_bytes(bytes).len() == 4 * bytes.len(),
        ({
            let text = escaped_bytes(bytes);
            &&& text[4 * k] == '\\'
            &&& text[4 * k + 1] == 'x'
            &&& 0 <= hex_value(text[4 * k + 2]) < 16
            &&& 0 <= hex_value(text[4 * k + 3]) < 16
            &&& hex_value(text[4 * k + 2]) * 16 + hex_value(text[4 * k + 3]) == bytes[k]
        }),
    decreases bytes.len(),
{
    let before = bytes.drop_last();
    let text = escaped_bytes(bytes);
    assert(escaped_bytes(before).len() == 4 * before.len()) by {
        if before.len() > 0 {
            lemma_escapes(before, 0);
        }
    }
    if k < before.len() {
        lemma_escapes(before, k);
        let early = escaped_bytes(before);
        assert(text[4 * k] == early[4 * k]);
        assert(text[4 * k + 1] == early[4 * k + 1]);
        assert(text[4 * k + 2] == early[4 * k + 2]);
        assert(text[4 * k + 3] == early[4 * k + 3]);
    } else {
        lemma_hex(bytes.last() / 16);
        lemma_hex(bytes.last() % 16);
    }
}

/// A literal of bytes has an escape of two hexadecimal digits for each byte, in
/// order.
pub proof fn law_bytes_literal_holds_each_byte(bytes: Seq<u8>, k: int)
    ensures
        literal(ValueView::Bytes(bytes)) matches Ok(written) && {
            &&& written.len() == 4 * bytes.len() + "''::BLOB"@.len()
            &&& written[0] == '\''
            &&& written.skip(1 + 4 * bytes.len() as int) == "'::BLOB"@
            &&& 0 <= k < bytes.len() ==> {
                let at = 1 + 4 * k;
                &&& written[at] == '\\'
                &&& written[at + 1] == 'x'
                &&& 0 <= hex_value(written[at + 2]) < 16
                &&& 0 <= hex_value(written[at + 3]) < 16
                &&& hex_value(written[at + 2]) * 16 + hex_value(written[at + 3]) == bytes[k]
            }
        },
{
    reveal_strlit("'");
    reveal_strlit("'::BLOB");
    reveal_strlit("''::BLOB");
    let inside = escaped_bytes(bytes);
    let written = "'"@ + inside + "'::BLOB"@;
    assert(inside.len() == 4 * bytes.len()) by {
        if bytes.len() > 0 {
            lemma_escapes(bytes, 0);
        }
    }
    assert(written.skip(1 + 4 * bytes.len() as int) =~= "'::BLOB"@);
    if 0 <= k < bytes.len() {
        lemma_escapes(bytes, k);
        assert(written[1 + 4 * k] == inside[4 * k]);
        assert(written[2 + 4 * k] == inside[4 * k + 1]);
        assert(written[3 + 4 * k] == inside[4 * k + 2]);
        assert(written[4 + 4 * k] == inside[4 * k + 3]);
    }
}

/// The literal of an interval writes out its months, days and microseconds, each
/// with its own sign.
pub proof fn law_interval_literal_writes_each_part(span: IntervalValue)
    ensures
        exists|months: Seq<char>, days: Seq<char>, micros: Seq<char>|
            {
                &&& #[trigger] writes_integer(months, span.months as int)
                &&& #[trigger] writes_integer(days, span.days as int)
                &&& #[trigger] writes_integer(micros, span.micros as int)
                &&& literal(ValueView::Interval(span)) == Ok::<Seq<char>, QuackErrorView>(
                    "INTERVAL '"@ + months + " months "@ + days + " days "@ + micros
                        + " microseconds'"@,
                )
            },
{
    lemma_signed_decimal(span.months as int);
    lemma_signed_decimal(span.days as int);
    lemma_signed_decimal(span.micros as int);
}

/// Dates, timestamps and decimals are written in their own notation; a date or
/// timestamp that has none has no literal.
pub proof fn law_notations_are_taken_over(d: DecimalValue, date: DateValue, t: TimestampValue)
    ensures
        literal(ValueView::Decimal(d)) == Ok::<Seq<char>, QuackErrorView>(
            decimal_notation(d.value as int, d.scale as nat),
        ),
        match day_text(date.days as int) {
            Some(day) => literal(ValueView::Date(date)) == Ok::<Seq<char>, QuackErrorView>(
                "DATE '"@ + day + "'"@,
            ),
            None => literal(ValueView::Date(date)) == Err::<Seq<char>, _>(no_notation()),
        },
        match timestamp_text(t) {
            Some(text) => literal(ValueView::Timestamp(t)) == Ok::<Seq<char>, QuackErrorView>(
                if t.with_time_zone {
                    "TIMESTAMPTZ '"@ + text + "+00'"@
                } else {
                    "TIMESTAMP '"@ + text + "'"@
                },
            ),
            None => literal(ValueView::Timestamp(t)) == Err::<Seq<char>, _>(no_notation()),
        },
{
}

/// Texts with commas between them.
pub open spec fn comma_joined(texts: Seq<Seq<char>>) -> Seq<char>
    decreases texts.len(),
{
    if texts.len() == 0 {
        seq![]
    } else if texts.len() == 1 {
        texts[0]
    } else {
        comma_joined(texts.drop_last()) + seq![',', ' '] + texts.last()
    }
}

proof fn lemma_listed(items: Seq<ValueView>, texts: Seq<Seq<char>>, count: nat)
    requires
        count <= items.len(),
        texts.len() == items.len(),
        forall|k: int|
            0 <= k < items.len() ==> literal(#[trigger] items[k]) == Ok::<
                Seq<char>,
                QuackErrorView,
            >(texts[k]),
    ensures
        listed(items, count) == Ok::<Seq<char>, QuackErrorView>(
            comma_joined(texts.take(count as int)),
        ),
    decreases count,
{
    reveal_strlit(", ");
    let taken = texts.take(count as int);
    if count > 0 {
        lemma_listed(items, texts, (count - 1) as nat);
        assert(taken.drop_last() =~= texts.take(count - 1));
        assert(literal(items[count - 1]) == Ok::<Seq<char>, QuackErrorView>(texts[count - 1]));
        assert(", "@ =~= seq![',', ' ']);
    }
}

/// The literal of a list holds the literals of its items, all of them and in
/// order, with commas between them.
pub proof fn law_list_literal_holds_each_item(items: Seq<ValueView>, texts: Seq<Seq<char>>)
    requires
        texts.len() == items.len(),
        forall|k: int|
            0 <= k < items.len() ==> literal(#[trigger] items[k]) == Ok::<
                Seq<char>,
                QuackErrorView,
            >(texts[k]),
    ensures
        literal(ValueView::List(items)) == Ok::<Seq<char>, QuackErrorView>(
            "["@ + comma_joined(texts) + "]"@,
        ),
{
    lemma_listed(items, texts, items.len());
    assert(texts.take(items.len() as int) =~= texts);
}

proof fn lemma_fields_listed(fields: Seq<FieldView>, texts: Seq<Seq<char>>, count: nat)
    requires
        count <= fields.len(),
        texts.len() == fields.len(),
        forall|k: int| 0 <= k < fields.len() ==> writes_field(fields[k], #[trigger] texts[k]),
    ensures
        fields_listed(fields, count) == Ok::<Seq<char>, QuackErrorView>(
            comma_joined(texts.take(count as int)),
        ),
    decreases count,
{
    reveal_strlit(", ");
    let taken = texts.take(count as int);
    if count > 0 {
        lemma_fields_listed(fields, texts, (count - 1) as nat);
        assert(taken.drop_last() =~= texts.take(count - 1));
        assert(writes_field(fields[count - 1], texts[count - 1]));
        assert(", "@ =~= seq![',', ' ']);
    }
}

/// Whether text is a field of a struct literal: its name as a text literal, and
/// the literal of its value.
pub open spec fn writes_field(field: FieldView, text: Seq<char>) -> bool {
    match (literal(ValueView::String(field.name)), literal(field.value)) {
        (Ok(name), Ok(value)) => text == name + ": "@ + value,
        _ => false,
    }
}

/// The literal of a struct holds its fields, all of them and in order, each with
/// its name and the literal of its value.
pub proof fn law_struct_literal_holds_each_field(fields: Seq<FieldView>, texts: Seq<Seq<char>>)
    requires
        texts.len() == fields.len(),
        forall|k: int| 0 <= k < fields.len() ==> writes_field(fields[k], #[trigger] texts[k]),
    ensures
        literal(ValueView::Struct(fields)) == Ok::<Seq<char>, QuackErrorView>(
            "{"@ + comma_joined(texts) + "}"@,
        ),
{
    lemma_fields_listed(fields, texts, fields.len());
    assert(texts.take(fields.len() as int) =~= texts);
}

proof fn lemma_listed_fails(items: Seq<ValueView>, k: int, count: nat)
    requires
        0 <= k < count <= items.len(),
        literal(items[k]) is Err,
    ensures
        listed(items, count) is Err,
    decreases count,
{
    if k < count - 1 {
        lemma_listed_fails(items, k, (count - 1) as nat);
    }
}

proof fn lemma_fields_fail(fields: Seq<FieldView>, k: int, count: nat)
    requires
        0 <= k < count <= fields.len(),
        literal(fields[k].value) is Err,
    ensures
        fields_listed(fields, count) is Err,
    decreases count,
{
    if k < count - 1 {
        lemma_fields_fail(fields, k, (count - 1) as nat);
    }
}

/// A list or struct with a value that has no literal has none.
pub proof fn law_nested_value_without_literal(
    items: Seq<ValueView>,
    fields: Seq<FieldView>,
    k: int,
)
    ensures
        0 <= k < items.len() && literal(items[k]) is Err ==> literal(ValueView::List(items)) is Err,
        0 <= k < fields.len() && literal(fields[k].value) is Err ==> literal(
            ValueView::Struct(fields),
        ) is Err,
{
    if 0 <= k < items.len() && literal(items[k]) is Err {
        lemma_listed_fails(items, k, items.len());
    }
    if 0 <= k < fields.len() && literal(fields[k].value) is Err {
        lemma_fields_fail(fields, k, fields.len());
    }
}

} // verus!
