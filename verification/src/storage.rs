//! How the values of a logical type are stored in a column.

use vstd::arithmetic::div_mod::lemma_fundamental_div_mod_converse;
use vstd::prelude::*;

use crate::binary::fixed;
use crate::binary::lemma_fixed;
use crate::binary::lemma_read_bytes;
use crate::binary::pow256;
use crate::binary::read_bytes;
use crate::binary::signed_number;
use crate::binary::signed_value;
use crate::binary::split_signed_huge_int;
use crate::binary::unsigned_number;
use crate::binary::unsigned_value;
use crate::binary::BinaryReader;
use crate::binary::ReadResult;
use crate::errors::QuackError;
use crate::errors::QuackErrorView;
use crate::typecodec::MAX_DECIMAL_WIDTH;
use crate::types::LogicalType;
use crate::types::LogicalTypeId;
use crate::types::LogicalTypeView;
use crate::value::DateValue;
use crate::value::DecimalValue;
use crate::value::IntervalValue;
use crate::value::timestamp_value;
use crate::value::TimestampUnit;
use crate::value::TimestampValue;
use crate::value::Value;
use crate::value::ValueView;

verus! {

/// A way of storing values.
#[derive(Clone, Copy, Debug, PartialEq, Eq, Structural)]
pub enum Storage {
    /// Integers of a fixed number of bytes.
    Number { width: usize, signed: bool },
    /// Text.
    Text,
    /// Bytes.
    Bytes,
    /// Lists of any length.
    List,
    /// Lists of one fixed length.
    Array,
    /// One column for each field.
    Struct,
    /// None that is known here.
    Unknown,
}

/// The bytes that a decimal of some width takes.
pub open spec fn decimal_bytes(width: u8) -> usize {
    if width <= 4 {
        2
    } else if width <= 9 {
        4
    } else if width <= 18 {
        8
    } else {
        16
    }
}

/// How the values of a type are stored.
pub open spec fn storage(t: LogicalTypeView) -> Storage {
    match t.id {
        LogicalTypeId::Boolean => Storage::Number { width: 1, signed: false },
        LogicalTypeId::TinyInt => Storage::Number { width: 1, signed: true },
        LogicalTypeId::SmallInt => Storage::Number { width: 2, signed: true },
        LogicalTypeId::Integer => Storage::Number { width: 4, signed: true },
        LogicalTypeId::BigInt => Storage::Number { width: 8, signed: true },
        LogicalTypeId::HugeInt => Storage::Number { width: 16, signed: true },
        LogicalTypeId::UTinyInt => Storage::Number { width: 1, signed: false },
        LogicalTypeId::USmallInt => Storage::Number { width: 2, signed: false },
        LogicalTypeId::UInteger => Storage::Number { width: 4, signed: false },
        LogicalTypeId::UBigInt => Storage::Number { width: 8, signed: false },
        LogicalTypeId::Date => Storage::Number { width: 4, signed: true },
        LogicalTypeId::Interval => Storage::Number { width: 16, signed: true },
        LogicalTypeId::TimestampSec => Storage::Number { width: 8, signed: true },
        LogicalTypeId::TimestampMs => Storage::Number { width: 8, signed: true },
        LogicalTypeId::Timestamp => Storage::Number { width: 8, signed: true },
        LogicalTypeId::TimestampNs => Storage::Number { width: 8, signed: true },
        LogicalTypeId::TimestampTz => Storage::Number { width: 8, signed: true },
        LogicalTypeId::Decimal => Storage::Number { width: decimal_bytes(t.width), signed: true },
        LogicalTypeId::Varchar => Storage::Text,
        LogicalTypeId::Blob => Storage::Bytes,
        LogicalTypeId::List => Storage::List,
        LogicalTypeId::Array => Storage::Array,
        LogicalTypeId::Struct => Storage::Struct,
        _ => Storage::Unknown,
    }
}

/// How the values of a type are stored.
pub fn storage_of(t: &LogicalType) -> (s: Storage)
    ensures
        s == storage(t@),
{
    match t.id {
        LogicalTypeId::Boolean => Storage::Number { width: 1, signed: false },
        LogicalTypeId::TinyInt => Storage::Number { width: 1, signed: true },
        LogicalTypeId::SmallInt => Storage::Number { width: 2, signed: true },
        LogicalTypeId::Integer => Storage::Number { width: 4, signed: true },
        LogicalTypeId::BigInt => Storage::Number { width: 8, signed: true },
        LogicalTypeId::HugeInt => Storage::Number { width: 16, signed: true },
        LogicalTypeId::UTinyInt => Storage::Number { width: 1, signed: false },
        LogicalTypeId::USmallInt => Storage::Number { width: 2, signed: false },
        LogicalTypeId::UInteger => Storage::Number { width: 4, signed: false },
        LogicalTypeId::UBigInt => Storage::Number { width: 8, signed: false },
        LogicalTypeId::Date => Storage::Number { width: 4, signed: true },
        LogicalTypeId::Interval => Storage::Number { width: 16, signed: true },
        LogicalTypeId::TimestampSec => Storage::Number { width: 8, signed: true },
        LogicalTypeId::TimestampMs => Storage::Number { width: 8, signed: true },
        LogicalTypeId::Timestamp => Storage::Number { width: 8, signed: true },
        LogicalTypeId::TimestampNs => Storage::Number { width: 8, signed: true },
        LogicalTypeId::TimestampTz => Storage::Number { width: 8, signed: true },
        LogicalTypeId::Decimal => {
            let width: usize = if t.width <= 4 {
                2
            } else if t.width <= 9 {
                4
            } else if t.width <= 18 {
                8
            } else {
                16
            };
            Storage::Number { width, signed: true }
        },
        LogicalTypeId::Varchar => Storage::Text,
        LogicalTypeId::Blob => Storage::Bytes,
        LogicalTypeId::List => Storage::List,
        LogicalTypeId::Array => Storage::Array,
        LogicalTypeId::Struct => Storage::Struct,
        _ => Storage::Unknown,
    }
}

/// A power of ten.
pub open spec fn pow10(n: nat) -> nat
    decreases n,
{
    if n == 0 {
        1
    } else {
        10 * pow10((n - 1) as nat)
    }
}

/// The powers of ten that decimals go by.
pub proof fn lemma_pow10_values()
    ensures
        pow10(4) == 10_000,
        pow10(9) == 1_000_000_000,
        pow10(18) == 1_000_000_000_000_000_000,
        pow10(38) == 100_000_000_000_000_000_000_000_000_000_000_000_000,
{
    reveal_with_fuel(pow10, 20);
    assert(pow10(38) == 100_000_000_000_000_000_000 * pow10(18)) by {
        reveal_with_fuel(pow10, 21);
    }
}

/// A greater power of ten is no smaller.
pub proof fn lemma_pow10_increases(a: nat, b: nat)
    requires
        a <= b,
    ensures
        1 <= pow10(a) <= pow10(b),
    decreases b,
{
    if a < b {
        lemma_pow10_increases(a, (b - 1) as nat);
    } else if b > 0 {
        lemma_pow10_increases((a - 1) as nat, (b - 1) as nat);
    }
}

/// The powers of 256 that storage goes by.
pub proof fn lemma_pow256_values()
    ensures
        pow256(1) == 0x100,
        pow256(2) == 0x1_0000,
        pow256(4) == 0x1_0000_0000,
        pow256(8) == 0x1_0000_0000_0000_0000,
        pow256(16) == 0x1_0000_0000_0000_0000_0000_0000_0000_0000,
{
    reveal_with_fuel(pow256, 9);
    assert(pow256(16) == 0x1_0000_0000_0000_0000 * pow256(8)) by {
        reveal_with_fuel(pow256, 9);
    }
}

/// Whether so many bytes hold a number.
pub open spec fn fits(n: int, width: nat, signed: bool) -> bool {
    if signed {
        -pow256(width) <= 2 * n < pow256(width)
    } else {
        0 <= n < pow256(width)
    }
}

/// Whether a number stands for a value of a type.
pub open spec fn number_in_order(t: LogicalTypeView, n: int) -> bool {
    &&& storage(t) matches Storage::Number { width, signed } && fits(n, width as nat, signed)
    &&& t.id == LogicalTypeId::Boolean ==> n == 0 || n == 1
    &&& t.id == LogicalTypeId::Decimal ==> -pow10(t.width as nat) < n < pow10(t.width as nat)
}

/// A number of 32 bits that stands for another one, without its sign.
pub open spec fn unsigned_word(n: int) -> int {
    if n < 0 {
        n + 0x1_0000_0000
    } else {
        n
    }
}

/// The number that a number of 32 bits without a sign stands for.
pub open spec fn signed_word(n: int) -> int {
    if n >= 0x8000_0000 {
        n - 0x1_0000_0000
    } else {
        n
    }
}

/// An interval as one number: from its lowest bits up, the months, the days and
/// the microseconds.
pub open spec fn interval_number(span: IntervalValue) -> int {
    unsigned_word(span.months as int) + 0x1_0000_0000 * unsigned_word(span.days as int)
        + 0x1_0000_0000_0000_0000 * span.micros
}

/// The interval that a number stands for.
pub open spec fn interval_of(n: int) -> IntervalValue {
    IntervalValue {
        months: signed_word(n % 0x1_0000_0000) as i32,
        days: signed_word(n / 0x1_0000_0000 % 0x1_0000_0000) as i32,
        micros: (n / 0x1_0000_0000_0000_0000) as i64,
    }
}

fn number_from_interval(span: IntervalValue) -> (n: i128)
    ensures
        n == interval_number(span),
{
    let months: i128 = if span.months < 0 {
        span.months as i128 + 0x1_0000_0000
    } else {
        span.months as i128
    };
    let days: i128 = if span.days < 0 {
        span.days as i128 + 0x1_0000_0000
    } else {
        span.days as i128
    };
    months + 0x1_0000_0000 * days + 0x1_0000_0000_0000_0000 * span.micros as i128
}

fn word_number(n: u64) -> (word: i32)
    requires
        n < 0x1_0000_0000,
    ensures
        word == signed_word(n as int),
{
    if n >= 0x8000_0000 {
        (n as i64 - 0x1_0000_0000) as i32
    } else {
        n as i32
    }
}

proof fn lemma_words(upper: int, lower: int)
    requires
        0 <= lower < 0x1_0000_0000_0000_0000,
    ensures
        ({
            let n = upper * 0x1_0000_0000_0000_0000 + lower;
            &&& n / 0x1_0000_0000_0000_0000 == upper
            &&& n % 0x1_0000_0000 == lower % 0x1_0000_0000
            &&& n / 0x1_0000_0000 % 0x1_0000_0000 == lower / 0x1_0000_0000
        }),
{
    let n = upper * 0x1_0000_0000_0000_0000 + lower;
    let high = lower / 0x1_0000_0000;
    let low = lower % 0x1_0000_0000;
    lemma_fundamental_div_mod_converse(n, 0x1_0000_0000_0000_0000, upper, lower);
    lemma_fundamental_div_mod_converse(n, 0x1_0000_0000, upper * 0x1_0000_0000 + high, low);
    lemma_fundamental_div_mod_converse(
        upper * 0x1_0000_0000 + high,
        0x1_0000_0000,
        upper,
        high,
    );
}

fn interval_from_number(n: i128) -> (span: IntervalValue)
    ensures
        span == interval_of(n as int),
{
    let parts = split_signed_huge_int(n);
    let low: u64 = parts.lower;
    proof {
        lemma_words(parts.upper as int, low as int);
    }
    IntervalValue {
        months: word_number(low % 0x1_0000_0000),
        days: word_number(low / 0x1_0000_0000),
        micros: parts.upper,
    }
}

/// The number that a value is stored as.
pub open spec fn number_of(v: ValueView) -> int {
    match v {
        ValueView::Bool(b) => if b {
            1
        } else {
            0
        },
        ValueView::Int(n) => n as int,
        ValueView::HugeInt(n) => n as int,
        ValueView::Decimal(d) => d.value as int,
        ValueView::Date(d) => d.days as int,
        ValueView::Timestamp(t) => t.value as int,
        ValueView::Interval(span) => interval_number(span),
        _ => 0,
    }
}

/// What the timestamps of a type count.
pub open spec fn timestamp_unit(id: LogicalTypeId) -> TimestampUnit {
    match id {
        LogicalTypeId::TimestampSec => TimestampUnit::Seconds,
        LogicalTypeId::TimestampMs => TimestampUnit::Millis,
        LogicalTypeId::TimestampNs => TimestampUnit::Nanos,
        _ => TimestampUnit::Micros,
    }
}

/// The value of a type that a number stands for.
pub open spec fn value_of(t: LogicalTypeView, n: int) -> ValueView {
    match t.id {
        LogicalTypeId::Boolean => ValueView::Bool(n != 0),
        LogicalTypeId::Decimal => ValueView::Decimal(
            DecimalValue { value: n as i128, width: t.width, scale: t.scale },
        ),
        LogicalTypeId::HugeInt => ValueView::HugeInt(n as i128),
        LogicalTypeId::Date => ValueView::Date(DateValue { days: n as i32 }),
        LogicalTypeId::Interval => ValueView::Interval(interval_of(n)),
        LogicalTypeId::TimestampSec
        | LogicalTypeId::TimestampMs
        | LogicalTypeId::Timestamp
        | LogicalTypeId::TimestampNs
        | LogicalTypeId::TimestampTz => ValueView::Timestamp(
            TimestampValue {
                value: n as i64,
                unit: timestamp_unit(t.id),
                with_time_zone: t.id == LogicalTypeId::TimestampTz,
            },
        ),
        _ => if i64::MIN <= n <= i64::MAX {
            ValueView::Int(n as i64)
        } else {
            ValueView::HugeInt(n as i128)
        },
    }
}

/// A number in order fits into 128 bits, and its value gives it back.
pub proof fn lemma_number_of_value(t: LogicalTypeView, n: int)
    requires
        number_in_order(t, n),
    ensures
        i128::MIN <= n <= i128::MAX,
        number_of(value_of(t, n)) == n,
        !(value_of(t, n) is Null),
{
    lemma_pow256_values();
}

/// The number that a value is stored as.
pub fn stored_number(v: &Value) -> (n: i128)
    ensures
        n == number_of(v@),
{
    match v {
        Value::Bool(b) => if *b {
            1
        } else {
            0
        },
        Value::Int(n) => *n as i128,
        Value::HugeInt(n) => *n,
        Value::Decimal(d) => d.value,
        Value::Date(d) => d.days as i128,
        Value::Timestamp(t) => t.value as i128,
        Value::Interval(span) => number_from_interval(*span),
        _ => 0,
    }
}

/// The value of a type that a number stands for.
pub fn value_from_number(t: &LogicalType, n: i128) -> (v: Value)
    ensures
        v@ == value_of(t@, n as int),
{
    match t.id {
        LogicalTypeId::Boolean => Value::Bool(n != 0),
        LogicalTypeId::Decimal => Value::Decimal(
            DecimalValue { value: n, width: t.width, scale: t.scale },
        ),
        LogicalTypeId::HugeInt => Value::HugeInt(n),
        LogicalTypeId::Date => Value::Date(DateValue { days: n as i32 }),
        LogicalTypeId::Interval => Value::Interval(interval_from_number(n)),
        LogicalTypeId::TimestampSec => timestamp_value(n as i64, TimestampUnit::Seconds, false),
        LogicalTypeId::TimestampMs => timestamp_value(n as i64, TimestampUnit::Millis, false),
        LogicalTypeId::Timestamp => timestamp_value(n as i64, TimestampUnit::Micros, false),
        LogicalTypeId::TimestampNs => timestamp_value(n as i64, TimestampUnit::Nanos, false),
        LogicalTypeId::TimestampTz => timestamp_value(n as i64, TimestampUnit::Micros, true),
        _ => if i64::MIN as i128 <= n && n <= i64::MAX as i128 {
            Value::Int(n as i64)
        } else {
            Value::HugeInt(n)
        },
    }
}

/// A number of a fixed number of bytes.
pub open spec fn read_number(b: Seq<u8>, width: nat, signed: bool) -> ReadResult<int> {
    match read_bytes(b, width) {
        Err(error) => Err(error),
        Ok((bytes, rest)) => Ok(
            (
                if signed {
                    signed_value(bytes)
                } else {
                    unsigned_value(bytes) as int
                },
                rest,
            ),
        ),
    }
}

/// A number is read back if so many bytes hold it.
pub proof fn lemma_read_number(n: int, width: nat, signed: bool, rest: Seq<u8>)
    requires
        width > 0,
        fits(n, width, signed),
    ensures
        read_number(fixed(n, width) + rest, width, signed) == Ok::<(int, Seq<u8>), QuackErrorView>(
            (n, rest),
        ),
{
    lemma_fixed(n, width);
    lemma_read_bytes(fixed(n, width), rest);
}

/// Reads a number of a fixed number of bytes.
pub(crate) fn decode_number(reader: &mut BinaryReader, width: usize, signed: bool) -> (n: Result<
    i128,
    QuackError,
>)
    requires
        width <= 16,
        !signed ==> width <= 8,
    ensures
        match n {
            Ok(n) => read_number(old(reader)@, width as nat, signed) == Ok::<
                (int, Seq<u8>),
                QuackErrorView,
            >((n as int, final(reader)@)),
            Err(error) => read_number(old(reader)@, width as nat, signed) == Err::<
                (int, Seq<u8>),
                QuackErrorView,
            >(error@),
        },
{
    match reader.read_raw(width as u64) {
        Err(error) => Err(error),
        Ok(bytes) => Ok(
            if signed {
                signed_number(bytes.as_slice())
            } else {
                unsigned_number(bytes.as_slice()) as i128
            },
        ),
    }
}

/// A power of ten that a decimal may be compared with.
pub(crate) fn power_of_ten(n: u8) -> (p: i128)
    requires
        n <= MAX_DECIMAL_WIDTH,
    ensures
        p == pow10(n as nat),
{
    let mut p: i128 = 1;
    let mut i: u8 = 0;
    while i < n
        invariant
            i <= n <= MAX_DECIMAL_WIDTH,
            p == pow10(i as nat),
        decreases n - i,
    {
        proof {
            lemma_pow10_increases((i + 1) as nat, 38);
            lemma_pow10_values();
        }
        p = p * 10;
        i += 1;
    }
    p
}

/// Whether a number stands for a value of a type that is stored as numbers.
pub(crate) fn is_number_in_order(t: &LogicalType, n: i128) -> (b: bool)
    requires
        t@.id == LogicalTypeId::Decimal ==> t@.width <= MAX_DECIMAL_WIDTH,
    ensures
        b == number_in_order(t@, n as int),
{
    proof {
        lemma_pow256_values();
        lemma_pow10_values();
    }
    match t.id {
        LogicalTypeId::Boolean => n == 0 || n == 1,
        LogicalTypeId::TinyInt => -0x80 <= n && n <= 0x7f,
        LogicalTypeId::SmallInt => -0x8000 <= n && n <= 0x7fff,
        LogicalTypeId::Integer => -0x8000_0000 <= n && n <= 0x7fff_ffff,
        LogicalTypeId::BigInt => -0x8000_0000_0000_0000 <= n && n <= 0x7fff_ffff_ffff_ffff,
        LogicalTypeId::HugeInt | LogicalTypeId::Interval => true,
        LogicalTypeId::UTinyInt => 0 <= n && n <= 0xff,
        LogicalTypeId::USmallInt => 0 <= n && n <= 0xffff,
        LogicalTypeId::UInteger => 0 <= n && n <= 0xffff_ffff,
        LogicalTypeId::UBigInt => 0 <= n && n <= 0xffff_ffff_ffff_ffff,
        LogicalTypeId::Date => -0x8000_0000 <= n && n <= 0x7fff_ffff,
        LogicalTypeId::TimestampSec
        | LogicalTypeId::TimestampMs
        | LogicalTypeId::Timestamp
        | LogicalTypeId::TimestampNs
        | LogicalTypeId::TimestampTz => -0x8000_0000_0000_0000 <= n && n
            <= 0x7fff_ffff_ffff_ffff,
        LogicalTypeId::Decimal => {
            let limit: i128 = power_of_ten(t.width);
            proof {
                let width = t@.width as nat;
                if width <= 4 {
                    lemma_pow10_increases(width, 4);
                } else if width <= 9 {
                    lemma_pow10_increases(width, 9);
                } else if width <= 18 {
                    lemma_pow10_increases(width, 18);
                } else {
                    lemma_pow10_increases(width, 38);
                }
            }
            -limit < n && n < limit
        },
        _ => false,
    }
}

/// An interval is stored as a number of 128 bits, and that number gives its
/// months, days and microseconds back.
pub proof fn law_interval_is_kept_in_its_number(span: IntervalValue)
    ensures
        i128::MIN <= interval_number(span) <= i128::MAX,
        interval_of(interval_number(span)) == span,
        interval_number(span) % 0x1_0000_0000 == if span.months < 0 {
            span.months + 0x1_0000_0000
        } else {
            span.months as int
        },
        interval_number(span) / 0x1_0000_0000_0000_0000 == span.micros,
{
    let lower = unsigned_word(span.months as int) + 0x1_0000_0000 * unsigned_word(
        span.days as int,
    );
    lemma_words(span.micros as int, lower);
}

} // verus!
