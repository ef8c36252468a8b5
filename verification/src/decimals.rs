//! Fixed-point numbers as text.

use vstd::prelude::*;

use crate::storage::pow10;
use crate::text::all_digits;
use crate::text::chars_of;
use crate::text::decimal;
use crate::text::decimal_text;
use crate::text::digits_value;
use crate::text::is_digit;
use crate::text::law_decimal_notation;
use crate::text::lemma_decimal_value;
use crate::text::lemma_digits_value_monotonic;
use crate::text::position;
use crate::text::text_between;
use crate::value::DecimalValue;

verus! {

/// A run of zeros.
pub open spec fn zeros(n: nat) -> Seq<char> {
    Seq::new(n, |i: int| '0')
}

/// The part of a notation before its point.
pub open spec fn whole_part(body: Seq<char>) -> Seq<char> {
    match body.index_of_first('.') {
        Some(at) => body.take(at),
        None => body,
    }
}

/// The part of a notation after its point.
pub open spec fn fraction_part(body: Seq<char>) -> Seq<char> {
    match body.index_of_first('.') {
        Some(at) => body.skip(at + 1),
        None => seq![],
    }
}

/// The digits of a notation without a sign, filled up to a number of digits
/// after the point.
pub open spec fn scaled_digits(body: Seq<char>, scale: nat) -> Option<Seq<char>> {
    let whole = whole_part(body);
    let fraction = fraction_part(body);
    if all_digits(whole) && all_digits(fraction) && whole.len() + fraction.len() > 0
        && fraction.len() <= scale {
        Some(whole + fraction + zeros((scale - fraction.len()) as nat))
    } else {
        None
    }
}

/// The number of units that a notation stands for, in units of the last of so
/// many digits after the point.
pub open spec fn decimal_number(text: Seq<char>, scale: nat) -> Option<int> {
    if text.len() > 0 && text[0] == '-' {
        match scaled_digits(text.skip(1), scale) {
            Some(digits) => Some(-(digits_value(digits) as int)),
            None => None,
        }
    } else {
        match scaled_digits(text, scale) {
            Some(digits) => Some(digits_value(digits) as int),
            None => None,
        }
    }
}

fn only_digits(chars: &Vec<char>, from: usize, to: usize) -> (b: bool)
    requires
        from <= to <= chars@.len(),
    ensures
        b == all_digits(chars@.subrange(from as int, to as int)),
{
    let ghost part = chars@.subrange(from as int, to as int);
    for i in from..to
        invariant
            from <= to <= chars@.len(),
            part == chars@.subrange(from as int, to as int),
            forall|k: int| 0 <= k < i - from ==> is_digit(#[trigger] part[k]),
    {
        let c: char = chars[i];
        if c < '0' || c > '9' {
            assert(!is_digit(part[i - from]));
            return false;
        }
    }
    true
}

fn magnitude(digits: &Vec<char>) -> (n: Option<u128>)
    requires
        all_digits(digits@),
    ensures
        match n {
            Some(n) => n == digits_value(digits@),
            None => digits_value(digits@) > u128::MAX,
        },
{
    let mut n: u128 = 0;
    let count: usize = digits.len();
    for i in 0..count
        invariant
            count == digits@.len(),
            all_digits(digits@),
            n == digits_value(digits@.take(i as int)),
    {
        assert(digits@.take(i + 1).drop_last() =~= digits@.take(i as int));
        assert(is_digit(digits@[i as int]));
        let c: char = digits[i];
        let digit: u128 = (c as u32 - 48) as u128;
        let more: Option<u128> = match n.checked_mul(10) {
            Some(tens) => tens.checked_add(digit),
            None => None,
        };
        match more {
            Some(more) => {
                n = more;
            },
            None => {
                proof {
                    lemma_digits_value_monotonic(digits@, i + 1);
                }
                return None;
            },
        }
    }
    assert(digits@.take(count as int) =~= digits@);
    Some(n)
}

fn scaled(body: &Vec<char>, scale: u8) -> (digits: Option<Vec<char>>)
    ensures
        match digits {
            Some(digits) => scaled_digits(body@, scale as nat) == Some(digits@),
            None => scaled_digits(body@, scale as nat) is None,
        },
        digits matches Some(digits) ==> all_digits(digits@),
{
    let end: usize = body.len();
    let (to, from): (usize, usize) = match position(body, '.') {
        Some(at) => (at, at + 1),
        None => (end, end),
    };
    proof {
        assert(whole_part(body@) =~= body@.subrange(0, to as int));
        assert(fraction_part(body@) =~= body@.subrange(from as int, body@.len() as int));
    }
    let length: usize = end - from;
    if !only_digits(body, 0, to) || !only_digits(body, from, end) || (to == 0 && length == 0)
        || length > scale as usize {
        return None;
    }
    let ghost whole = whole_part(body@);
    let ghost fraction = fraction_part(body@);
    let mut digits: Vec<char> = Vec::new();
    for i in 0..to
        invariant
            to <= body@.len(),
            whole == body@.subrange(0, to as int),
            digits@ == whole.take(i as int),
    {
        digits.push(body[i]);
        assert(whole.take(i + 1) =~= whole.take(i as int).push(whole[i as int]));
    }
    assert(whole.take(to as int) =~= whole);
    assert(whole + fraction.take(0) =~= whole);
    for i in from..end
        invariant
            from <= end,
            end == body@.len(),
            fraction == body@.subrange(from as int, end as int),
            digits@ == whole + fraction.take(i - from),
    {
        digits.push(body[i]);
        assert(fraction.take(i + 1 - from) =~= fraction.take(i - from).push(fraction[i - from]));
        assert(digits@ =~= whole + fraction.take(i + 1 - from));
    }
    assert(fraction.take(end - from) =~= fraction);
    let gap: usize = scale as usize - length;
    let ghost both = digits@;
    assert(both + zeros(0) =~= both);
    for i in 0..gap
        invariant
            digits@ == both + zeros(i as nat),
    {
        digits.push('0');
        assert(digits@ =~= both + zeros((i + 1) as nat));
    }
    proof {
        let all = digits@;
        assert forall|k: int| 0 <= k < all.len() implies is_digit(#[trigger] all[k]) by {
            if k < whole.len() {
                assert(all[k] == whole[k]);
            } else if k < both.len() {
                assert(all[k] == fraction[k - whole.len()]);
            } else {
                assert(all[k] == '0');
            }
        }
    }
    Some(digits)
}

/// The number of units that a notation stands for, if it is one and 128 bits
/// hold the number.
pub fn decimal_from_text(text: &str, scale: u8) -> (n: Option<i128>)
    ensures
        match n {
            Some(n) => decimal_number(text@, scale as nat) == Some(n as int),
            None => match decimal_number(text@, scale as nat) {
                Some(n) => n < -i128::MAX || n > i128::MAX,
                None => true,
            },
        },
{
    let chars = chars_of(text);
    let negative = chars.len() > 0 && chars[0] == '-';
    let body = if negative {
        let mut body: Vec<char> = Vec::new();
        let end: usize = chars.len();
        for i in 1..end
            invariant
                1 <= end == chars@.len(),
                body@ == chars@.subrange(1, i as int),
        {
            body.push(chars[i]);
            assert(chars@.subrange(1, i + 1) =~= chars@.subrange(1, i as int).push(
                chars@[i as int],
            ));
        }
        assert(chars@.subrange(1, end as int) =~= chars@.skip(1));
        body
    } else {
        chars
    };
    let digits = match scaled(&body, scale) {
        Some(digits) => digits,
        None => {
            return None;
        },
    };
    match magnitude(&digits) {
        Some(n) => if n <= i128::MAX as u128 {
            if negative {
                Some(-(n as i128))
            } else {
                Some(n as i128)
            }
        } else {
            None
        },
        None => None,
    }
}

/// The digits of a magnitude, filled up so that at least one stands before the
/// point.
pub open spec fn padded(digits: Seq<char>, scale: nat) -> Seq<char> {
    if digits.len() <= scale {
        zeros((scale + 1 - digits.len()) as nat) + digits
    } else {
        digits
    }
}

/// A magnitude with so many digits after the point, and at least one before it.
pub open spec fn pointed(digits: Seq<char>, scale: nat) -> Seq<char> {
    let all = padded(digits, scale);
    if scale == 0 {
        all
    } else {
        all.take(all.len() - scale) + seq!['.'] + all.skip(all.len() - scale)
    }
}

/// The notation of a fixed-point number.
pub open spec fn decimal_notation(value: int, scale: nat) -> Seq<char> {
    if value < 0 {
        seq!['-'] + pointed(decimal((-value) as nat), scale)
    } else {
        pointed(decimal(value as nat), scale)
    }
}

fn padded_digits(digits: &Vec<char>, scale: usize) -> (all: Vec<char>)
    requires
        scale < usize::MAX,
    ensures
        all@ == padded(digits@, scale as nat),
{
    let mut all: Vec<char> = Vec::new();
    let count: usize = digits.len();
    let gap: usize = if count <= scale {
        scale + 1 - count
    } else {
        0
    };
    for i in 0..gap
        invariant
            all@ == zeros(i as nat),
    {
        all.push('0');
        assert(all@ =~= zeros((i + 1) as nat));
    }
    let ghost before = all@;
    assert(before + digits@.take(0) =~= before);
    for i in 0..count
        invariant
            count == digits@.len(),
            all@ == before + digits@.take(i as int),
    {
        all.push(digits[i]);
        assert(digits@.take(i + 1) =~= digits@.take(i as int).push(digits@[i as int]));
        assert(all@ =~= before + digits@.take(i + 1));
    }
    assert(digits@.take(count as int) =~= digits@);
    assert(count > scale ==> before + digits@ =~= digits@);
    all
}

fn push_pointed(text: &mut String, all: &Vec<char>, scale: usize)
    requires
        scale < all@.len(),
    ensures
        final(text)@ == old(text)@ + (if scale == 0 {
            all@
        } else {
            all@.take(all@.len() - scale) + seq!['.'] + all@.skip(all@.len() - scale)
        }),
{
    let at: usize = all.len() - scale;
    text.append(text_between(all, 0, at).as_str());
    assert(all@.subrange(0, at as int) =~= all@.take(at as int));
    if scale == 0 {
        assert(all@.take(at as int) =~= all@);
    } else {
        text.push('.');
        text.append(text_between(all, at, all.len()).as_str());
        assert(all@.subrange(at as int, all@.len() as int) =~= all@.skip(at as int));
        assert(text@ =~= old(text)@ + (all@.take(at as int) + seq!['.'] + all@.skip(at as int)));
    }
}

/// The notation of a fixed-point number, with all digits after its point.
pub fn decimal_to_string(d: &DecimalValue) -> (text: String)
    ensures
        text@ == decimal_notation(d.value as int, d.scale as nat),
{
    let size: u128 = if d.value < 0 {
        (-(d.value + 1)) as u128 + 1
    } else {
        d.value as u128
    };
    let digits = chars_of(decimal_text(size).as_str());
    let scale: usize = d.scale as usize;
    proof {
        lemma_decimal_value(size as nat);
    }
    let all = padded_digits(&digits, scale);
    let mut text = String::new();
    if d.value < 0 {
        text.push('-');
        assert(text@ =~= seq!['-']);
    }
    push_pointed(&mut text, &all, scale);
    assert(Seq::<char>::empty() + pointed(digits@, scale as nat) =~= pointed(
        digits@,
        scale as nat,
    ));
    text
}

proof fn lemma_leading_zeros(n: nat, digits: Seq<char>)
    ensures
        digits_value(zeros(n) + digits) == digits_value(digits),
    decreases digits.len(), n,
{
    let all = zeros(n) + digits;
    if digits.len() > 0 {
        assert(all.drop_last() =~= zeros(n) + digits.drop_last());
        lemma_leading_zeros(n, digits.drop_last());
    } else if n > 0 {
        assert(all.drop_last() =~= zeros((n - 1) as nat) + digits);
        lemma_leading_zeros((n - 1) as nat, digits);
    }
}

proof fn lemma_pointed(digits: Seq<char>, scale: nat)
    requires
        all_digits(digits),
        digits.len() > 0,
    ensures
        scaled_digits(pointed(digits, scale), scale) == Some(padded(digits, scale)),
        pointed(digits, scale).len() > 0,
        pointed(digits, scale)[0] != '-',
{
    let all = padded(digits, scale);
    let body = pointed(digits, scale);
    assert forall|k: int| 0 <= k < all.len() implies is_digit(#[trigger] all[k]) by {
        if digits.len() <= scale {
            let gap = zeros((scale + 1 - digits.len()) as nat);
            if k < gap.len() {
                assert(all[k] == '0');
            } else {
                assert(all[k] == digits[k - gap.len()]);
            }
        }
    }
    body.index_of_first_ensures('.');
    if scale == 0 {
        assert(!body.contains('.')) by {
            if body.contains('.') {
                let k = choose|k: int| 0 <= k < body.len() && body[k] == '.';
                assert(is_digit(all[k]));
            }
        }
        assert(whole_part(body) + fraction_part(body) + zeros(0) =~= all);
    } else {
        let at = all.len() - scale;
        assert(body[at] == '.');
        assert(body.contains('.'));
        let found = body.index_of_first('.')->Some_0;
        assert(found == at) by {
            if found < at {
                assert(body[found] == all[found]);
            }
        }
        assert(whole_part(body) =~= all.take(at));
        assert(fraction_part(body) =~= all.skip(at));
        assert(all_digits(whole_part(body)));
        assert(all_digits(fraction_part(body)));
        assert(whole_part(body) + fraction_part(body) + zeros(0) =~= all);
    }
    assert(is_digit(all[0]));
}

/// The notation of a fixed-point number stands for that number.
pub proof fn law_decimal_notation_is_read_back(value: int, scale: nat)
    ensures
        decimal_number(decimal_notation(value, scale), scale) == Some(value),
{
    let size = if value < 0 {
        (-value) as nat
    } else {
        value as nat
    };
    let digits = decimal(size);
    lemma_decimal_value(size);
    lemma_pointed(digits, scale);
    if digits.len() <= scale {
        lemma_leading_zeros((scale + 1 - digits.len()) as nat, digits);
    }
    let text = decimal_notation(value, scale);
    if value < 0 {
        assert(text.skip(1) =~= pointed(digits, scale));
    }
}

/// Whether text is a fixed-point number: a minus sign if it is negative, digits
/// before the point without zeros that say nothing, and so many digits after it;
/// all digits together count the units.
pub open spec fn writes_fixed_point(text: Seq<char>, value: int, scale: nat) -> bool {
    exists|whole: Seq<char>, fraction: Seq<char>|
        {
            &&& #[trigger] all_digits(whole)
            &&& #[trigger] all_digits(fraction)
            &&& whole.len() > 0
            &&& whole[0] == '0' ==> whole.len() == 1
            &&& fraction.len() == scale
            &&& digits_value(whole + fraction) == if value < 0 {
                -value
            } else {
                value
            }
            &&& text == (if value < 0 {
                seq!['-']
            } else {
                seq![]
            }) + whole + (if scale > 0 {
                seq!['.'] + fraction
            } else {
                seq![]
            })
        }
}

/// The notation of a fixed-point number has all its digits: as many after the
/// point as the scale says, and the others before it.
pub proof fn law_decimal_notation_has_all_digits(value: int, scale: nat)
    ensures
        writes_fixed_point(decimal_notation(value, scale), value, scale),
{
    let size = if value < 0 {
        (-value) as nat
    } else {
        value as nat
    };
    let digits = decimal(size);
    law_decimal_notation(size);
    lemma_decimal_value(size);
    let all = padded(digits, scale);
    let at = all.len() - scale;
    let whole = all.take(at);
    let fraction = all.skip(at);
    let gap = zeros((scale + 1 - digits.len()) as nat);
    if digits.len() <= scale {
        lemma_leading_zeros((scale + 1 - digits.len()) as nat, digits);
    }
    assert forall|k: int| 0 <= k < all.len() implies is_digit(#[trigger] all[k]) by {
        if digits.len() <= scale {
            if k < gap.len() {
                assert(all[k] == '0');
            } else {
                assert(all[k] == digits[k - gap.len()]);
            }
        }
    }
    assert(all_digits(whole)) by {
        assert forall|k: int| 0 <= k < whole.len() implies is_digit(#[trigger] whole[k]) by {
            assert(whole[k] == all[k]);
        }
    }
    assert(all_digits(fraction)) by {
        assert forall|k: int| 0 <= k < fraction.len() implies is_digit(#[trigger] fraction[k]) by {
            assert(fraction[k] == all[at + k]);
        }
    }
    assert(whole + fraction =~= all);
    assert(whole[0] == '0' ==> whole.len() == 1) by {
        if digits.len() > scale {
            assert(whole[0] == digits[0]);
        }
    }
    let sign = if value < 0 {
        seq!['-']
    } else {
        seq![]
    };
    let tail = if scale > 0 {
        seq!['.'] + fraction
    } else {
        seq![]
    };
    assert(decimal_notation(value, scale) =~= sign + whole + tail);
}

/// Digits with a point or without one, behind a minus sign or not, stand for as
/// many units as they say; the digits that are not written count as zeros.
pub proof fn law_decimal_text_is_its_digits(
    whole: Seq<char>,
    fraction: Seq<char>,
    scale: nat,
)
    requires
        all_digits(whole),
        all_digits(fraction),
        whole.len() + fraction.len() > 0,
        fraction.len() <= scale,
    ensures
        ({
            let units = digits_value(whole + fraction) * pow10((scale - fraction.len()) as nat);
            let text = whole + seq!['.'] + fraction;
            &&& decimal_number(text, scale) == Some(units as int)
            &&& decimal_number(seq!['-'] + text, scale) == Some(-(units as int))
            &&& fraction.len() == 0 ==> decimal_number(whole, scale) == Some(units as int)
                && decimal_number(seq!['-'] + whole, scale) == Some(-(units as int))
        }),
{
    let gap = (scale - fraction.len()) as nat;
    let text = whole + seq!['.'] + fraction;
    text.index_of_first_ensures('.');
    assert(text[whole.len() as int] == '.');
    let at = text.index_of_first('.')->Some_0;
    if at < whole.len() {
        assert(is_digit(whole[at]));
        assert(text[at] == whole[at]);
    }
    assert(whole_part(text) =~= whole);
    assert(fraction_part(text) =~= fraction);
    lemma_trailing_zeros(whole + fraction, gap);
    assert(text[0] != '-') by {
        if whole.len() > 0 {
            assert(is_digit(whole[0]));
            assert(text[0] == whole[0]);
        }
    }
    assert((seq!['-'] + text).skip(1) =~= text);
    if fraction.len() == 0 {
        whole.index_of_first_ensures('.');
        assert(!whole.contains('.')) by {
            if whole.contains('.') {
                let k = choose|k: int| 0 <= k < whole.len() && whole[k] == '.';
                assert(is_digit(whole[k]));
            }
        }
        assert(fraction =~= seq![]);
        assert(whole + fraction =~= whole);
        assert(whole_part(whole) == whole);
        assert(fraction_part(whole) =~= seq![]);
        assert(is_digit(whole[0]));
        assert((seq!['-'] + whole).skip(1) =~= whole);
    }
}

proof fn lemma_trailing_zeros(digits: Seq<char>, n: nat)
    ensures
        digits_value(digits + zeros(n)) == digits_value(digits) * pow10(n),
    decreases n,
{
    let all = digits + zeros(n);
    let v = digits_value(digits) as int;
    if n == 0 {
        assert(all =~= digits);
        assert(v * 1 == v);
        assert(pow10(n) == 1);
    } else {
        let p = pow10((n - 1) as nat) as int;
        lemma_trailing_zeros(digits, (n - 1) as nat);
        assert(all.drop_last() =~= digits + zeros((n - 1) as nat));
        assert(all.last() == '0');
        assert((v * p) * 10 == v * (10 * p)) by (nonlinear_arith);
        assert(digits_value(all) == (v * p) * 10);
        assert(pow10(n) == 10 * p);
    }
}

/// Whether text is made of digits before and after a point, or of digits alone.
pub open spec fn is_digits_with_point(
    text: Seq<char>,
    whole: Seq<char>,
    fraction: Seq<char>,
) -> bool {
    &&& all_digits(whole)
    &&& all_digits(fraction)
    &&& whole.len() + fraction.len() > 0
    &&& text == whole + seq!['.'] + fraction || text == whole && fraction.len() == 0
}

proof fn lemma_digits_of(body: Seq<char>, scale: nat)
    requires
        scaled_digits(body, scale) is Some,
    ensures
        is_digits_with_point(body, whole_part(body), fraction_part(body)),
        fraction_part(body).len() <= scale,
{
    body.index_of_first_ensures('.');
    if let Some(at) = body.index_of_first('.') {
        assert(body =~= whole_part(body) + seq!['.'] + fraction_part(body));
    }
}

/// A notation without the minus sign before it.
pub open spec fn without_sign(text: Seq<char>) -> Seq<char> {
    if text.len() > 0 && text[0] == '-' {
        text.skip(1)
    } else {
        text
    }
}

/// No other text is a decimal: it is digits, with or without a point, and at
/// most so many behind it; a minus sign may stand before them.
pub proof fn law_only_digits_are_decimals(text: Seq<char>, scale: nat)
    requires
        decimal_number(text, scale) is Some,
    ensures
        exists|whole: Seq<char>, fraction: Seq<char>| #[trigger]
            is_digits_with_point(without_sign(text), whole, fraction) && fraction.len() <= scale,
{
    let body = without_sign(text);
    lemma_digits_of(body, scale);
    assert(is_digits_with_point(body, whole_part(body), fraction_part(body)));
}

} // verus!
