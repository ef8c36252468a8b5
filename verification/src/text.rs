//! Text as sequences of characters: decimal numbers, ASCII case, searching,
//! trimming.

use vstd::prelude::*;

verus! {

/// `String::push` appends one character at the end.
pub assume_specification[ std::string::String::push ](s: &mut std::string::String, c: char)
    ensures
        final(s)@ == old(s)@.push(c),
;

/// The characters of a string slice, in order.
pub fn chars_of(s: &str) -> (chars: Vec<char>)
    ensures
        chars@ == s@,
{
    let mut chars: Vec<char> = Vec::new();
    for c in it: s.chars()
        invariant
            it.seq() == s@,
            chars@ == s@.take(it.index() as int),
    {
        chars.push(c);
    }
    assert(s@.take(s@.len() as int) =~= s@);
    chars
}

/// The string made of the characters `from..to`.
pub(crate) fn text_between(chars: &Vec<char>, from: usize, to: usize) -> (s: String)
    requires
        from <= to <= chars@.len(),
    ensures
        s@ == chars@.subrange(from as int, to as int),
{
    let mut s = String::new();
    let mut i: usize = from;
    while i < to
        invariant
            from <= i <= to <= chars@.len(),
            s@ == chars@.subrange(from as int, i as int),
        decreases to - i,
    {
        s.push(chars[i]);
        i += 1;
    }
    s
}

/// Two pieces of text, one after the other.
pub fn joined(first: &str, second: &str) -> (s: String)
    ensures
        s@ == first@ + second@,
{
    let mut s = first.to_owned();
    s.append(second);
    s
}

/// The character of a decimal digit.
pub open spec fn digit_char(d: nat) -> char {
    ('0' as nat + d) as char
}

/// The shortest decimal notation of a natural number.
pub open spec fn decimal(n: nat) -> Seq<char>
    decreases n,
{
    if n < 10 {
        seq![digit_char(n)]
    } else {
        decimal(n / 10).push(digit_char(n % 10))
    }
}

/// The decimal notation of an integer, with a sign when it is negative.
pub open spec fn signed_decimal(n: int) -> Seq<char> {
    if n < 0 {
        seq!['-'] + decimal((-n) as nat)
    } else {
        decimal(n as nat)
    }
}

fn push_decimal(s: &mut String, n: u128)
    ensures
        final(s)@ == old(s)@ + decimal(n as nat),
    decreases n,
{
    if n >= 10 {
        push_decimal(s, n / 10);
    }
    let d: u8 = (n % 10) as u8;
    s.push((48 + d) as char);
}

/// The decimal notation of `n`.
pub fn decimal_text(n: u128) -> (s: String)
    ensures
        s@ == decimal(n as nat),
{
    let mut s = String::new();
    push_decimal(&mut s, n);
    s
}

/// The decimal notation of `n`, with a sign when it is negative.
pub fn signed_decimal_text(n: i128) -> (s: String)
    ensures
        s@ == signed_decimal(n as int),
{
    let mut s = String::new();
    if n < 0 {
        s.push('-');
        let magnitude: u128 = (-(n + 1)) as u128 + 1;
        push_decimal(&mut s, magnitude);
    } else {
        push_decimal(&mut s, n as u128);
    }
    s
}

pub open spec fn is_digit(c: char) -> bool {
    '0' <= c <= '9'
}

/// Whether every character is an ASCII digit.
pub open spec fn all_digits(s: Seq<char>) -> bool {
    forall|i: int| 0 <= i < s.len() ==> is_digit(#[trigger] s[i])
}

/// The number that a run of ASCII digits denotes.
pub open spec fn digits_value(s: Seq<char>) -> nat
    decreases s.len(),
{
    if s.len() == 0 {
        0
    } else {
        digits_value(s.drop_last()) * 10 + (s.last() as nat - '0' as nat) as nat
    }
}

/// A longer run of digits denotes a number at least as large.
pub proof fn lemma_digits_value_monotonic(s: Seq<char>, n: int)
    requires
        0 <= n <= s.len(),
        all_digits(s),
    ensures
        digits_value(s.take(n)) <= digits_value(s),
    decreases s.len(),
{
    if n == s.len() {
        assert(s.take(n) =~= s);
    } else {
        assert(s.drop_last().take(n) =~= s.take(n));
        assert forall|i: int| 0 <= i < s.drop_last().len() implies is_digit(
            #[trigger] s.drop_last()[i],
        ) by {
            assert(is_digit(s[i]));
        }
        lemma_digits_value_monotonic(s.drop_last(), n);
    }
}

/// Decimal notation is a nonempty run of digits that denotes the number.
pub proof fn lemma_decimal_value(n: nat)
    ensures
        decimal(n).len() > 0,
        all_digits(decimal(n)),
        digits_value(decimal(n)) == n,
    decreases n,
{
    if n >= 10 {
        lemma_decimal_value(n / 10);
        let s = decimal(n);
        assert(s.drop_last() =~= decimal(n / 10));
        assert forall|i: int| 0 <= i < s.len() implies is_digit(#[trigger] s[i]) by {
            if i < s.len() - 1 {
                assert(is_digit(decimal(n / 10)[i]));
            }
        }
    } else {
        let s = decimal(n);
        assert(s.drop_last() =~= Seq::empty());
        reveal_with_fuel(digits_value, 2);
    }
}

/// ASCII letters in lower case, everything else unchanged.
pub open spec fn lower_char(c: char) -> char {
    if 'A' <= c <= 'Z' {
        (c as u8 + 32) as u8 as char
    } else {
        c
    }
}

pub open spec fn lower(s: Seq<char>) -> Seq<char> {
    s.map_values(|c: char| lower_char(c))
}

/// The characters of `s` with ASCII letters in lower case.
pub fn lower_chars(s: &str) -> (chars: Vec<char>)
    ensures
        chars@ == lower(s@),
{
    let source = chars_of(s);
    let mut chars: Vec<char> = Vec::new();
    let mut i: usize = 0;
    while i < source.len()
        invariant
            i <= source@.len(),
            source@ == s@,
            chars@ == lower(s@).take(i as int),
        decreases source@.len() - i,
    {
        let c = source[i];
        if 'A' <= c && c <= 'Z' {
            chars.push(((c as u8) + 32) as char);
        } else {
            chars.push(c);
        }
        i += 1;
        assert(chars@ =~= lower(s@).take(i as int));
    }
    assert(lower(s@).take(s@.len() as int) =~= lower(s@));
    chars
}

/// Whether `needle` stands in `hay` at position `i`.
pub open spec fn occurs_at(hay: Seq<char>, needle: Seq<char>, i: int) -> bool {
    0 <= i && i + needle.len() <= hay.len() && hay.subrange(i, i + needle.len()) == needle
}

/// Whether `needle` stands anywhere in `hay`.
pub open spec fn contains_text(hay: Seq<char>, needle: Seq<char>) -> bool {
    exists|i: int| #[trigger] occurs_at(hay, needle, i)
}

/// Whether `s` begins with `prefix`.
pub open spec fn begins_with(s: Seq<char>, prefix: Seq<char>) -> bool {
    occurs_at(s, prefix, 0)
}

/// Whether `needle` stands in `hay` at a position.
pub(crate) fn matches_at(hay: &Vec<char>, needle: &Vec<char>, at: usize) -> (found: bool)
    requires
        at <= hay@.len(),
    ensures
        found == occurs_at(hay@, needle@, at as int),
{
    if needle.len() > hay.len() - at {
        return false;
    }
    let mut i: usize = 0;
    while i < needle.len()
        invariant
            i <= needle@.len(),
            at + needle@.len() <= hay.len(),
            forall|j: int| 0 <= j < i ==> #[trigger] needle@[j] == hay@[at + j],
        decreases needle@.len() - i,
    {
        if hay[at + i] != needle[i] {
            assert(hay@.subrange(at as int, at + needle@.len())[i as int] != needle@[i as int]);
            return false;
        }
        i += 1;
    }
    assert(hay@.subrange(at as int, at + needle@.len()) =~= needle@);
    true
}

/// Whether `needle` stands anywhere in `hay`.
pub fn has_text(hay: &Vec<char>, needle: &str) -> (found: bool)
    ensures
        found == contains_text(hay@, needle@),
{
    let pattern = chars_of(needle);
    let mut i: usize = 0;
    while i < hay.len()
        invariant
            i <= hay@.len(),
            pattern@ == needle@,
            forall|j: int| 0 <= j < i ==> !#[trigger] occurs_at(hay@, needle@, j),
        decreases hay@.len() - i,
    {
        if matches_at(hay, &pattern, i) {
            assert(occurs_at(hay@, needle@, i as int));
            return true;
        }
        i += 1;
    }
    matches_at(hay, &pattern, i)
}

/// Whether `chars` begins with `prefix`.
pub fn has_prefix(chars: &Vec<char>, prefix: &str) -> (found: bool)
    ensures
        found == begins_with(chars@, prefix@),
{
    let prefix = chars_of(prefix);
    matches_at(chars, &prefix, 0)
}

/// Whether `c` occurs in `s`.
pub fn has_char(s: &Vec<char>, c: char) -> (found: bool)
    ensures
        found == s@.contains(c),
{
    let mut i: usize = 0;
    while i < s.len()
        invariant
            i <= s@.len(),
            forall|j: int| 0 <= j < i ==> s@[j] != c,
        decreases s@.len() - i,
    {
        if s[i] == c {
            return true;
        }
        i += 1;
    }
    false
}

/// The characters with the Unicode property `White_Space`.
pub open spec fn is_white_space(c: char) -> bool {
    let u = c as u32;
    ||| 0x9 <= u <= 0xD
    ||| u == 0x20
    ||| u == 0x85
    ||| u == 0xA0
    ||| u == 0x1680
    ||| 0x2000 <= u <= 0x200A
    ||| u == 0x2028
    ||| u == 0x2029
    ||| u == 0x202F
    ||| u == 0x205F
    ||| u == 0x3000
}

pub(crate) fn white_space(c: char) -> (b: bool)
    ensures
        b == is_white_space(c),
{
    let u: u32 = c as u32;
    (0x9 <= u && u <= 0xD) || u == 0x20 || u == 0x85 || u == 0xA0 || u == 0x1680 || (0x2000 <= u
        && u <= 0x200A) || u == 0x2028 || u == 0x2029 || u == 0x202F || u == 0x205F || u == 0x3000
}

/// `s` without white space at its beginning.
pub open spec fn trim_start(s: Seq<char>) -> Seq<char>
    decreases s.len(),
{
    if s.len() > 0 && is_white_space(s.first()) {
        trim_start(s.drop_first())
    } else {
        s
    }
}

/// `s` without white space at its end.
pub open spec fn trim_end(s: Seq<char>) -> Seq<char>
    decreases s.len(),
{
    if s.len() > 0 && is_white_space(s.last()) {
        trim_end(s.drop_last())
    } else {
        s
    }
}

/// `s` without white space at either end.
pub open spec fn trimmed(s: Seq<char>) -> Seq<char> {
    trim_end(trim_start(s))
}

/// `s` without white space at either end.
pub fn trim(s: &str) -> (chars: Vec<char>)
    ensures
        chars@ == trimmed(s@),
{
    let source = chars_of(s);
    let mut from: usize = 0;
    assert(source@.skip(0) =~= source@);
    while from < source.len() && white_space(source[from])
        invariant
            from <= source@.len(),
            trim_start(source@.skip(from as int)) == trim_start(source@),
        decreases source@.len() - from,
    {
        assert(source@.skip(from as int).drop_first() =~= source@.skip(from + 1));
        from += 1;
    }
    let ghost rest = source@.skip(from as int);
    let mut to: usize = source.len();
    assert(source@.subrange(from as int, to as int) =~= rest);
    while to > from && white_space(source[to - 1])
        invariant
            from <= to <= source@.len(),
            trim_end(source@.subrange(from as int, to as int)) == trim_end(rest),
        decreases to - from,
    {
        assert(source@.subrange(from as int, to as int).drop_last() =~= source@.subrange(
            from as int,
            to - 1,
        ));
        to -= 1;
    }
    let mut chars: Vec<char> = Vec::new();
    let mut i: usize = from;
    while i < to
        invariant
            from <= i <= to <= source@.len(),
            chars@ == source@.subrange(from as int, i as int),
        decreases to - i,
    {
        chars.push(source[i]);
        i += 1;
        assert(chars@ =~= source@.subrange(from as int, i as int));
    }
    chars
}

/// `s` without the slashes at its end.
pub open spec fn trim_end_slashes(s: Seq<char>) -> Seq<char>
    decreases s.len(),
{
    if s.len() > 0 && s.last() == '/' {
        trim_end_slashes(s.drop_last())
    } else {
        s
    }
}

/// `s` without the slashes at its end.
pub fn without_end_slashes(s: &str) -> (r: String)
    ensures
        r@ == trim_end_slashes(s@),
{
    let source = chars_of(s);
    let mut to: usize = source.len();
    assert(source@.take(to as int) =~= s@);
    while to > 0 && source[to - 1] == '/'
        invariant
            to <= source@.len(),
            trim_end_slashes(source@.take(to as int)) == trim_end_slashes(s@),
        decreases to,
    {
        assert(source@.take(to as int).drop_last() =~= source@.take(to - 1));
        to -= 1;
    }
    assert(source@.subrange(0, to as int) =~= source@.take(to as int));
    text_between(&source, 0, to)
}

/// The position of the first `c`, if there is one.
pub fn position(s: &Vec<char>, c: char) -> (at: Option<usize>)
    ensures
        match at {
            Some(at) => s@.index_of_first(c) == Some(at as int) && at < s@.len(),
            None => s@.index_of_first(c) is None,
        },
{
    proof {
        s@.index_of_first_ensures(c);
    }
    let mut i: usize = 0;
    while i < s.len()
        invariant
            i <= s@.len(),
            forall|j: int| 0 <= j < i ==> s@[j] != c,
            match s@.index_of_first(c) {
                Some(index) => {
                    &&& 0 <= index < s@.len()
                    &&& s@[index] == c
                    &&& forall|j: int| 0 <= j < index < s@.len() ==> s@[j] != c
                },
                None => !s@.contains(c),
            },
        decreases s@.len() - i,
    {
        if s[i] == c {
            return Some(i);
        }
        i += 1;
    }
    None
}

/// Whether a phrase stands somewhere in a text, in capital or small letters.
pub open spec fn speaks_of(text: Seq<char>, phrase: Seq<char>) -> bool {
    exists|at: int| #[trigger] reads_like(text, phrase, at)
}

/// Whether a phrase in small letters stands at a place, in capital or small
/// letters.
pub open spec fn reads_like(text: Seq<char>, phrase: Seq<char>, at: int) -> bool {
    &&& 0 <= at && at + phrase.len() <= text.len()
    &&& forall|k: int|
        0 <= k < phrase.len() ==> {
            let c = text[at + k];
            c == #[trigger] phrase[k] || 'A' <= c <= 'Z' && c as int + 32 == phrase[k] as int
        }
}

/// Looking for a phrase in text with small letters finds it in any case.
pub proof fn lemma_speaks_of(text: Seq<char>, phrase: Seq<char>)
    requires
        forall|k: int| 0 <= k < phrase.len() ==> !('A' <= #[trigger] phrase[k] <= 'Z'),
    ensures
        contains_text(lower(text), phrase) <==> speaks_of(text, phrase),
{
    let small = lower(text);
    if contains_text(small, phrase) {
        let at = choose|at: int| occurs_at(small, phrase, at);
        assert forall|k: int| 0 <= k < phrase.len() implies {
            let c = text[at + k];
            c == #[trigger] phrase[k] || 'A' <= c <= 'Z' && c as int + 32 == phrase[k] as int
        } by {
            assert(small.subrange(at, at + phrase.len())[k] == phrase[k]);
        }
        assert(reads_like(text, phrase, at));
    }
    if speaks_of(text, phrase) {
        let at = choose|at: int| reads_like(text, phrase, at);
        let part = small.subrange(at, at + phrase.len());
        assert forall|k: int| 0 <= k < phrase.len() implies #[trigger] part[k] == phrase[k] by {
            let c = text[at + k];
            let wanted = phrase[k];
            assert(part[k] == lower_char(c));
            assert(c == wanted || 'A' <= c <= 'Z' && c as int + 32 == wanted as int);
            assert(!('A' <= wanted <= 'Z'));
            if 'A' <= c <= 'Z' {
                assert(c as int + 32 == wanted as int);
                assert((c as u8 + 32) as u8 as char == wanted);
            }
        }
        assert(part =~= phrase);
        assert(occurs_at(small, phrase, at));
    }
}

/// Whether text is all white space.
pub open spec fn is_blank(text: Seq<char>) -> bool {
    forall|k: int| 0 <= k < text.len() ==> is_white_space(#[trigger] text[k])
}

proof fn lemma_trim_start(blank: Seq<char>, s: Seq<char>)
    requires
        is_blank(blank),
        s.len() > 0,
        !is_white_space(s[0]),
    ensures
        trim_start(blank + s) == s,
    decreases blank.len(),
{
    let all = blank + s;
    if blank.len() > 0 {
        assert(all.first() == blank[0]);
        assert(all.drop_first() =~= blank.drop_first() + s);
        lemma_trim_start(blank.drop_first(), s);
    } else {
        assert(all =~= s);
    }
}

proof fn lemma_trim_end(s: Seq<char>, blank: Seq<char>)
    requires
        is_blank(blank),
        s.len() > 0,
        !is_white_space(s.last()),
    ensures
        trim_end(s + blank) == s,
    decreases blank.len(),
{
    let all = s + blank;
    if blank.len() > 0 {
        assert(all.last() == blank.last());
        assert(all.drop_last() =~= s + blank.drop_last());
        lemma_trim_end(s, blank.drop_last());
    } else {
        assert(all =~= s);
    }
}

/// Trimming takes away the white space around a text and nothing else.
pub proof fn law_trimming_leaves_the_text(before: Seq<char>, s: Seq<char>, after: Seq<char>)
    requires
        is_blank(before),
        is_blank(after),
        s.len() > 0 ==> !is_white_space(s[0]) && !is_white_space(s.last()),
    ensures
        trimmed(before + s + after) == s,
{
    if s.len() > 0 {
        let rest = s + after;
        assert(before + s + after =~= before + rest);
        lemma_trim_start(before, rest);
        lemma_trim_end(s, after);
    } else {
        let all = before + s + after;
        assert forall|k: int| 0 <= k < all.len() implies is_white_space(#[trigger] all[k]) by {
            if k < before.len() {
                assert(is_white_space(before[k]));
            } else {
                assert(is_white_space(after[k - before.len()]));
            }
        }
        lemma_blank_is_trimmed(all);
        assert(trim_end(seq![]) =~= s);
    }
}

proof fn lemma_blank_is_trimmed(blank: Seq<char>)
    requires
        is_blank(blank),
    ensures
        trim_start(blank) == Seq::<char>::empty(),
    decreases blank.len(),
{
    if blank.len() > 0 {
        lemma_blank_is_trimmed(blank.drop_first());
    } else {
        assert(blank =~= Seq::<char>::empty());
    }
}

/// Whether text is a natural number in decimal digits, without zeros before it.
pub open spec fn writes_number(text: Seq<char>, n: nat) -> bool {
    &&& text.len() > 0
    &&& forall|k: int| 0 <= k < text.len() ==> '0' <= #[trigger] text[k] <= '9'
    &&& text[0] == '0' ==> text.len() == 1
    &&& digits_value(text) == n
}

/// Decimal notation writes its number, without zeros before it.
pub proof fn law_decimal_notation(n: nat)
    ensures
        writes_number(decimal(n), n),
    decreases n,
{
    lemma_decimal_value(n);
    let text = decimal(n);
    assert forall|k: int| 0 <= k < text.len() implies '0' <= #[trigger] text[k] <= '9' by {
        assert(is_digit(text[k]));
    }
    if n >= 10 {
        law_decimal_notation(n / 10);
        assert(text[0] == decimal(n / 10)[0]);
        assert(digits_value(decimal(n / 10)) == n / 10);
        if text[0] == '0' {
            assert(decimal(n / 10).len() == 1);
            assert(decimal(n / 10) =~= seq!['0']);
            assert(decimal(n / 10).drop_last() =~= seq![]);
            reveal_with_fuel(digits_value, 2);
        }
    }
}

/// Each digit more makes a number ten times as large, and adds its own value.
pub proof fn law_digits_count_in_tens(digits: Seq<char>, c: char)
    requires
        '0' <= c <= '9',
    ensures
        digits_value(seq![]) == 0,
        digits_value(digits.push(c)) == 10 * digits_value(digits) + (c as int - '0' as int),
{
    assert(digits.push(c).drop_last() =~= digits);
}

/// Only slashes are taken off an end, and all that stand there.
pub proof fn law_end_slashes_are_taken_off(s: Seq<char>)
    ensures
        ({
            let kept = trim_end_slashes(s);
            &&& kept.len() <= s.len()
            &&& kept == s.take(kept.len() as int)
            &&& kept.len() > 0 ==> kept.last() != '/'
            &&& forall|k: int| kept.len() <= k < s.len() ==> #[trigger] s[k] == '/'
        }),
    decreases s.len(),
{
    if s.len() > 0 && s.last() == '/' {
        let less = s.drop_last();
        law_end_slashes_are_taken_off(less);
        let kept = trim_end_slashes(less);
        assert(less.take(kept.len() as int) =~= s.take(kept.len() as int));
        assert forall|k: int| kept.len() <= k < s.len() implies #[trigger] s[k] == '/' by {
            if k < less.len() {
                assert(less[k] == s[k]);
            }
        }
    } else {
        assert(s.take(s.len() as int) =~= s);
    }
}

/// White space is what Unicode counts as such: the ASCII controls from the
/// tabulator to the carriage return, the space, and the spaces and separators
/// beyond ASCII.
pub proof fn law_white_space_is_that_of_unicode(c: char)
    ensures
        is_white_space(c) <==> '\t' <= c <= '\r' || c == ' ' || c == '\u{85}' || c == '\u{a0}' || c
            == '\u{1680}' || '\u{2000}' <= c <= '\u{200a}' || c == '\u{2028}' || c == '\u{2029}' || c
            == '\u{202f}' || c == '\u{205f}' || c == '\u{3000}',
{
}

/// Only the capital letters of ASCII change in lower case, each to its small
/// letter; a text keeps its length and all else.
pub proof fn law_lower_case_is_that_of_ascii(s: Seq<char>, k: int)
    requires
        0 <= k < s.len(),
    ensures
        lower(s).len() == s.len(),
        'A' <= s[k] <= 'Z' ==> lower(s)[k] as int == s[k] as int + ('a' as int - 'A' as int),
        !('A' <= s[k] <= 'Z') ==> lower(s)[k] == s[k],
{
}

} // verus!
