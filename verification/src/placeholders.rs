//! What becomes of the placeholders of a statement, for statements put together
//! from plain text, quoted text, comments and placeholders.

use vstd::prelude::*;

use crate::errors::QuackErrorView;
use crate::rows::key_index;
use crate::sql::argument;
use crate::sql::comment_end;
use crate::sql::dollar_mark;
use crate::sql::dollar_mark_end;
use crate::sql::dollar_quote_end;
use crate::sql::escaped_quote_end;
use crate::sql::filled;
use crate::sql::formatted;
use crate::sql::is_tag;
use crate::sql::lemma_first_mark;
use crate::sql::lemma_tag_run;
use crate::sql::line_end;
use crate::sql::literal;
use crate::sql::pair_at;
use crate::sql::passage_end;
use crate::sql::piece_at;
use crate::sql::pieces;
use crate::sql::quote_end;
use crate::sql::run_end;
use crate::sql::slot_count;
use crate::sql::CharClass;
use crate::sql::PieceView;
use crate::sql::SqlParametersView;
use crate::text::is_white_space;
use crate::text::occurs_at;
use crate::value::ValueView;

verus! {

/// A part of a statement.
pub enum Segment {
    /// Text without quotes, comments and placeholders.
    Plain(Seq<char>),
    /// A placeholder: `?`, or a name behind a colon.
    Mark(Seq<char>),
    /// Two colons, which are no placeholder.
    Cast,
    /// Text between quotes, which are doubled inside of it.
    Quoted(char, Seq<char>),
    /// Text between single quotes behind an `E`, with escapes.
    Escaped(char, Seq<char>),
    /// Text between dollar marks with a tag.
    Dollar(Seq<char>, Seq<char>),
    /// A comment up to the end of its line.
    Line(Seq<char>),
    /// A comment between its marks.
    Comment(Seq<char>),
}

/// Whether the quotes inside of quoted text are all doubled.
pub open spec fn is_doubled(inside: Seq<char>, quote: char) -> bool
    decreases inside.len(),
{
    if inside.len() == 0 {
        true
    } else if inside[0] != quote {
        is_doubled(inside.skip(1), quote)
    } else {
        inside.len() >= 2 && inside[1] == quote && is_doubled(inside.skip(2), quote)
    }
}

/// Whether the quotes inside of text with escapes are all doubled or behind a
/// backslash, and no backslash is last.
pub open spec fn is_escaped(inside: Seq<char>) -> bool
    decreases inside.len(),
{
    if inside.len() == 0 {
        true
    } else if inside[0] == '\\' {
        inside.len() >= 2 && is_escaped(inside.skip(2))
    } else if inside[0] == '\'' {
        inside.len() >= 2 && inside[1] == '\'' && is_escaped(inside.skip(2))
    } else {
        is_escaped(inside.skip(1))
    }
}

/// Whether text ends so many comments, one inside of the other, and the last of
/// them at its own end. A comment inside of it begins and ends as any other.
pub open spec fn closes(text: Seq<char>, depth: nat) -> bool
    decreases text.len(),
{
    if text.len() < 2 {
        false
    } else if text[0] == '*' && text[1] == '/' {
        if depth <= 1 {
            text.len() == 2
        } else {
            closes(text.skip(2), (depth - 1) as nat)
        }
    } else if text[0] == '/' && text[1] == '*' {
        closes(text.skip(2), depth + 1)
    } else {
        closes(text.skip(1), depth)
    }
}

/// Whether a character can stand in plain text: it begins no quoted text, no
/// comment and no placeholder.
pub open spec fn is_plain_char(c: char, named: bool) -> bool {
    c != '\'' && c != '"' && c != '$' && c != '-' && c != '/' && c != if named {
        ':'
    } else {
        '?'
    }
}

/// Whether a character can stand in the name of a placeholder.
pub open spec fn in_name(c: char) -> bool {
    'a' <= c <= 'z' || 'A' <= c <= 'Z' || c == '_' || '0' <= c <= '9'
}

/// Whether a segment is one of its kind.
pub open spec fn is_segment(segment: Segment, named: bool) -> bool {
    match segment {
        Segment::Plain(text) => {
            &&& text.len() > 0
            &&& forall|k: int| 0 <= k < text.len() ==> is_plain_char(#[trigger] text[k], named)
        },
        Segment::Mark(name) => if named {
            &&& name.len() > 0
            &&& !('0' <= name[0] <= '9')
            &&& forall|k: int| 0 <= k < name.len() ==> in_name(#[trigger] name[k])
        } else {
            name.len() == 0
        },
        Segment::Cast => named,
        Segment::Quoted(quote, inside) => (quote == '\'' || quote == '"') && is_doubled(
            inside,
            quote,
        ),
        Segment::Escaped(e, inside) => (e == 'E' || e == 'e') && is_escaped(inside),
        Segment::Dollar(tag, inside) => is_tag(tag) && forall|k: int|
            0 <= k < inside.len() ==> !#[trigger] occurs_at(
                inside + dollar_mark(tag),
                dollar_mark(tag),
                k,
            ),
        Segment::Line(inside) => forall|k: int|
            0 <= k < inside.len() ==> #[trigger] inside[k] != '\n' && inside[k] != '\r',
        Segment::Comment(inside) => closes(inside + seq!['*', '/'], 1),
    }
}

/// The text of a segment.
pub open spec fn segment_text(segment: Segment, named: bool) -> Seq<char> {
    match segment {
        Segment::Plain(text) => text,
        Segment::Mark(name) => if named {
            seq![':'] + name
        } else {
            seq!['?']
        },
        Segment::Cast => seq![':', ':'],
        Segment::Quoted(quote, inside) => seq![quote] + inside + seq![quote],
        Segment::Escaped(e, inside) => seq![e, '\''] + inside + seq!['\''],
        Segment::Dollar(tag, inside) => dollar_mark(tag) + inside + dollar_mark(tag),
        Segment::Line(inside) => seq!['-', '-'] + inside + seq!['\n'],
        Segment::Comment(inside) => seq!['/', '*'] + inside + seq!['*', '/'],
    }
}

/// Whether a word could go on behind a character.
pub open spec fn in_word(c: char) -> bool {
    in_name(c) || c == '$' || c as u32 >= 0x80 && !is_white_space(c)
}

/// Whether one segment can stand behind another and both keep their meaning.
pub open spec fn goes_after(segment: Segment, next: Segment, named: bool) -> bool {
    let first = segment_text(next, named)[0];
    match segment {
        Segment::Plain(text) => {
            &&& !(next is Plain)
            &&& next is Escaped || next is Dollar ==> !in_word(text.last())
            &&& first == '\'' ==> text.last() != 'E' && text.last() != 'e'
        },
        Segment::Mark(_) => named ==> !in_name(first),
        Segment::Quoted(quote, _) => first != quote,
        Segment::Escaped(_, _) => first != '\'',
        _ => true,
    }
}

/// Whether segments make up a statement.
pub open spec fn is_statement(segments: Seq<Segment>, named: bool) -> bool {
    &&& forall|i: int| 0 <= i < segments.len() ==> is_segment(#[trigger] segments[i], named)
    &&& forall|i: int, j: int|
        0 <= i && j == i + 1 && j < segments.len() ==> goes_after(
            #[trigger] segments[i],
            #[trigger] segments[j],
            named,
        )
}

/// The text of a statement.
pub open spec fn statement_text(segments: Seq<Segment>, named: bool) -> Seq<char>
    decreases segments.len(),
{
    if segments.len() == 0 {
        seq![]
    } else {
        statement_text(segments.drop_last(), named) + segment_text(segments.last(), named)
    }
}

/// The placeholders of a statement.
pub open spec fn mark_names(segments: Seq<Segment>) -> Seq<Seq<char>>
    decreases segments.len(),
{
    if segments.len() == 0 {
        seq![]
    } else {
        match segments.last() {
            Segment::Mark(name) => mark_names(segments.drop_last()).push(name),
            _ => mark_names(segments.drop_last()),
        }
    }
}

/// The text of a statement with texts in the place of its placeholders: the
/// first text for the first placeholder, and so on.
pub open spec fn replaced(segments: Seq<Segment>, texts: Seq<Seq<char>>, named: bool) -> Seq<char>
    decreases segments.len(),
{
    if segments.len() == 0 {
        seq![]
    } else {
        let before = segments.drop_last();
        replaced(before, texts, named) + match segments.last() {
            Segment::Mark(_) => texts[mark_names(before).len() as int],
            other => segment_text(other, named),
        }
    }
}

proof fn lemma_quoted_end(s: Seq<char>, at: int, end: int, quote: char)
    requires
        0 <= at <= end < s.len(),
        is_doubled(s.subrange(at, end), quote),
        s[end] == quote,
        end + 1 < s.len() ==> s[end + 1] != quote,
    ensures
        quote_end(s, at, quote) == end + 1,
    decreases end - at,
{
    let inside = s.subrange(at, end);
    if at < end {
        assert(inside[0] == s[at]);
        if s[at] != quote {
            assert(inside.skip(1) =~= s.subrange(at + 1, end));
            lemma_quoted_end(s, at + 1, end, quote);
        } else {
            assert(inside[1] == s[at + 1]);
            assert(inside.skip(2) =~= s.subrange(at + 2, end));
            lemma_quoted_end(s, at + 2, end, quote);
        }
    }
}

proof fn lemma_escaped_end(s: Seq<char>, at: int, end: int)
    requires
        0 <= at <= end < s.len(),
        is_escaped(s.subrange(at, end)),
        s[end] == '\'',
        end + 1 < s.len() ==> s[end + 1] != '\'',
    ensures
        escaped_quote_end(s, at) == end + 1,
    decreases end - at,
{
    let inside = s.subrange(at, end);
    if at < end {
        assert(inside[0] == s[at]);
        if s[at] == '\\' {
            assert(inside.skip(2) =~= s.subrange(at + 2, end));
            lemma_escaped_end(s, at + 2, end);
        } else if s[at] == '\'' {
            assert(inside[1] == s[at + 1]);
            assert(inside.skip(2) =~= s.subrange(at + 2, end));
            lemma_escaped_end(s, at + 2, end);
        } else {
            assert(inside.skip(1) =~= s.subrange(at + 1, end));
            lemma_escaped_end(s, at + 1, end);
        }
    }
}

proof fn lemma_line(s: Seq<char>, at: int, end: int)
    requires
        0 <= at <= end < s.len(),
        forall|k: int| at <= k < end ==> #[trigger] s[k] != '\n' && s[k] != '\r',
        s[end] == '\n',
    ensures
        line_end(s, at) == end,
    decreases end - at,
{
    if at < end {
        lemma_line(s, at + 1, end);
    }
}

proof fn lemma_comment(s: Seq<char>, at: int, end: int, depth: nat)
    requires
        0 <= at <= end <= s.len(),
        closes(s.subrange(at, end), depth),
    ensures
        comment_end(s, at, depth) == end,
    decreases end - at,
{
    let text = s.subrange(at, end);
    assert(text[0] == s[at] && text[1] == s[at + 1]);
    if text[0] == '*' && text[1] == '/' {
        if depth > 1 {
            assert(text.skip(2) =~= s.subrange(at + 2, end));
            lemma_comment(s, at + 2, end, (depth - 1) as nat);
        }
    } else if text[0] == '/' && text[1] == '*' {
        assert(text.skip(2) =~= s.subrange(at + 2, end));
        lemma_comment(s, at + 2, end, depth + 1);
    } else {
        assert(text.skip(1) =~= s.subrange(at + 1, end));
        lemma_comment(s, at + 1, end, depth);
    }
}

proof fn lemma_name_run(s: Seq<char>, at: int, end: int)
    requires
        0 <= at <= end <= s.len(),
        forall|k: int| at <= k < end ==> in_name(#[trigger] s[k]),
        end < s.len() ==> !in_name(s[end]),
    ensures
        run_end(s, at, CharClass::Name) == end,
    decreases end - at,
{
    if at < end {
        lemma_name_run(s, at + 1, end);
    }
}

proof fn lemma_word_stops(s: Seq<char>, at: int, end: int)
    requires
        0 <= at < end <= s.len(),
        end < s.len() ==> !in_word(s[end - 1]) || !in_word(s[end]),
    ensures
        run_end(s, at, CharClass::Word) <= end,
        in_word(s[at]) ==> at < run_end(s, at, CharClass::Word),
    decreases end - at,
{
    if in_word(s[at]) {
        if at + 1 < end {
            lemma_word_stops(s, at + 1, end);
        } else {
            assert(run_end(s, end, CharClass::Word) == end);
        }
    }
}

/// The text of pieces that all stay as they are; nothing if one is a slot.
spec fn kept(parts: Seq<PieceView>) -> Option<Seq<char>>
    decreases parts.len(),
{
    if parts.len() == 0 {
        Some(seq![])
    } else {
        match (kept(parts.drop_last()), parts.last()) {
            (Some(before), PieceView::Text(last)) => Some(before + last),
            _ => None,
        }
    }
}

/// Whether pieces all stay as they are, with a text.
spec fn stay(parts: Seq<PieceView>, text: Seq<char>) -> bool {
    kept(parts) == Some(text)
}

proof fn lemma_stay_first(first: Seq<char>, parts: Seq<PieceView>, text: Seq<char>)
    requires
        stay(parts, text),
    ensures
        stay(seq![PieceView::Text(first)] + parts, first + text),
    decreases parts.len(),
{
    let all = seq![PieceView::Text(first)] + parts;
    if parts.len() == 0 {
        assert(all.drop_last() =~= seq![]);
        assert(kept(all.drop_last()) == Some(Seq::<char>::empty()));
        assert(first + text =~= Seq::<char>::empty() + first);
        assert(all.last() == PieceView::Text(first));
    } else {
        let before = kept(parts.drop_last())->Some_0;
        let last = parts.last()->Text_0;
        assert(kept(parts) == Some(before + last));
        lemma_stay_first(first, parts.drop_last(), before);
        assert(all.drop_last() =~= seq![PieceView::Text(first)] + parts.drop_last());
        assert(all.last() == parts.last());
        assert(first + text =~= (first + before) + last);
    }
}

proof fn lemma_one_stays(text: Seq<char>)
    ensures
        stay(seq![PieceView::Text(text)], text),
{
    lemma_stay_first(text, seq![], seq![]);
    assert(seq![PieceView::Text(text)] + seq![] =~= seq![PieceView::Text(text)]);
    assert(text + seq![] =~= text);
}

/// Plain text stays as it is.
proof fn lemma_plain(s: Seq<char>, at: int, end: int, named: bool) -> (parts: Seq<PieceView>)
    requires
        0 <= at <= end <= s.len(),
        forall|k: int| at <= k < end ==> is_plain_char(#[trigger] s[k], named),
        at < end < s.len() ==> !in_word(s[end - 1]) || !in_word(s[end]),
        at < end < s.len() && s[end] == '\'' ==> s[end - 1] != 'E' && s[end - 1] != 'e',
    ensures
        stay(parts, s.subrange(at, end)),
        pieces(s, at, named) == parts + pieces(s, end, named),
    decreases end - at,
{
    if at == end {
        assert(seq![] + pieces(s, end, named) =~= pieces(s, end, named));
        assert(s.subrange(at, end) =~= seq![]);
        Seq::empty()
    } else {
        if at + 1 < end {
            assert(is_plain_char(s[at + 1], named));
        }
        assert(passage_end(s, at) == at);
        lemma_word_stops(s, at, end);
        let (piece, next) = piece_at(s, at, named);
        assert(at < next <= end);
        assert(piece == PieceView::Text(s.subrange(at, next)));
        let rest = lemma_plain(s, next, end, named);
        lemma_stay_first(s.subrange(at, next), rest, s.subrange(next, end));
        assert(s.subrange(at, next) + s.subrange(next, end) =~= s.subrange(at, end));
        assert(seq![piece] + (rest + pieces(s, end, named)) =~= (seq![piece] + rest) + pieces(
            s,
            end,
            named,
        ));
        seq![piece] + rest
    }
}

/// A passage of quoted text or a comment stays as it is.
proof fn lemma_passage(s: Seq<char>, at: int, end: int, named: bool) -> (parts: Seq<PieceView>)
    requires
        0 <= at < end <= s.len(),
        passage_end(s, at) == end,
    ensures
        stay(parts, s.subrange(at, end)),
        pieces(s, at, named) == parts + pieces(s, end, named),
{
    lemma_one_stays(s.subrange(at, end));
    seq![PieceView::Text(s.subrange(at, end))]
}

proof fn lemma_dollar(s: Seq<char>, at: int, tag: Seq<char>, inside: Seq<char>)
    requires
        0 <= at,
        is_segment(Segment::Dollar(tag, inside), true),
        at + inside.len() + 2 * dollar_mark(tag).len() <= s.len(),
        s.subrange(at, at + inside.len() + 2 * dollar_mark(tag).len()) == segment_text(
            Segment::Dollar(tag, inside),
            true,
        ),
    ensures
        passage_end(s, at) == at + inside.len() + 2 * dollar_mark(tag).len(),
{
    let mark = dollar_mark(tag);
    let text = mark + inside + mark;
    let whole = s.subrange(at, at + text.len());
    let open = at + tag.len() + 1;
    assert forall|k: int| at < k < open implies CharClass::Tag.includes(#[trigger] s[k]) by {
        assert(s[k] == whole[k - at]);
        assert(text[k - at] == tag[k - at - 1]);
    }
    assert(s[at] == whole[0] && text[0] == '$');
    assert(s[open] == whole[open - at] && text[open - at] == '$');
    lemma_tag_run(s, at + 1, open);
    if tag.len() > 0 {
        assert(s[at + 1] == whole[1] && text[1] == tag[0]);
    }
    let from = at + mark.len();
    assert(dollar_mark_end(s, at) == from);
    assert(s.subrange(at, from) =~= mark) by {
        assert forall|k: int| 0 <= k < mark.len() implies s[at + k] == #[trigger] mark[k] by {
            assert(s[at + k] == whole[k]);
        }
    }
    let end = from + inside.len();
    assert(s.subrange(end, end + mark.len()) =~= mark) by {
        assert forall|k: int| 0 <= k < mark.len() implies s[end + k] == #[trigger] mark[k] by {
            assert(s[end + k] == whole[end - at + k]);
        }
    }
    let tail = inside + mark;
    assert forall|k: int| from <= k < end implies !#[trigger] occurs_at(s, mark, k) by {
        if occurs_at(s, mark, k) {
            let j = k - from;
            let found = s.subrange(k, k + mark.len());
            let there = tail.subrange(j, j + mark.len());
            assert forall|i: int| 0 <= i < mark.len() implies #[trigger] there[i] == found[i] by {
                assert(found[i] == whole[k - at + i]);
                assert(text[k - at + i] == tail[j + i]);
            }
            assert(there =~= found);
            assert(occurs_at(tail, mark, j));
        }
    }
    lemma_first_mark(s, from, end, mark);
    assert(dollar_quote_end(s, from, mark) == end + mark.len());
}

/// Whether the text of a segment stands at a place.
pub open spec fn stands_at(s: Seq<char>, at: int, text: Seq<char>) -> bool {
    &&& 0 <= at
    &&& at + text.len() <= s.len()
    &&& forall|k: int| at <= k < at + text.len() ==> #[trigger] s[k] == text[k - at]
}

proof fn lemma_mark(s: Seq<char>, at: int, name: Seq<char>, named: bool)
    requires
        is_segment(Segment::Mark(name), named),
        stands_at(s, at, segment_text(Segment::Mark(name), named)),
        ({
            let end = at + segment_text(Segment::Mark(name), named).len();
            end < s.len() && named ==> !in_name(s[end])
        }),
    ensures
        pieces(s, at, named) == seq![PieceView::Slot(name)] + pieces(
            s,
            at + segment_text(Segment::Mark(name), named).len(),
            named,
        ),
{
    let text = segment_text(Segment::Mark(name), named);
    let end = at + text.len();
    assert(s[at] == text[0]);
    assert(passage_end(s, at) == at);
    if named {
        assert(s[at + 1] == text[1]);
        assert(text[1] == name[0]);
        assert(in_name(name[0]));
        assert(!pair_at(s, at, ':', ':'));
        assert forall|k: int| at + 1 <= k < end implies in_name(#[trigger] s[k]) by {
            assert(text[k - at] == name[k - at - 1]);
        }
        lemma_name_run(s, at + 1, end);
        assert(s.subrange(at + 1, end) =~= name);
        assert(piece_at(s, at, named) == (PieceView::Slot(name), end));
    } else {
        assert(name =~= seq![]);
        assert(piece_at(s, at, named) == (PieceView::Slot(name), end));
    }
}

proof fn lemma_quoted(s: Seq<char>, at: int, quote: char, inside: Seq<char>)
    requires
        is_segment(Segment::Quoted(quote, inside), false),
        stands_at(s, at, segment_text(Segment::Quoted(quote, inside), false)),
        at + inside.len() + 2 < s.len() ==> s[at + inside.len() + 2] != quote,
    ensures
        passage_end(s, at) == at + inside.len() + 2,
{
    let text = segment_text(Segment::Quoted(quote, inside), false);
    let end = at + text.len();
    assert(s[at] == text[0]);
    assert(s.subrange(at + 1, end - 1) =~= inside) by {
        assert forall|k: int| 0 <= k < inside.len() implies s[at + 1 + k] == #[trigger] inside[k] by {
            assert(s[at + 1 + k] == text[1 + k]);
        }
    }
    assert(s[end - 1] == text[end - 1 - at]);
    lemma_quoted_end(s, at + 1, end - 1, quote);
}

proof fn lemma_escaped(s: Seq<char>, at: int, e: char, inside: Seq<char>)
    requires
        is_segment(Segment::Escaped(e, inside), false),
        stands_at(s, at, segment_text(Segment::Escaped(e, inside), false)),
        at + inside.len() + 3 < s.len() ==> s[at + inside.len() + 3] != '\'',
    ensures
        passage_end(s, at) == at + inside.len() + 3,
{
    let text = segment_text(Segment::Escaped(e, inside), false);
    let end = at + text.len();
    assert(s[at] == text[0] && s[at + 1] == text[1]);
    assert(s.subrange(at + 2, end - 1) =~= inside) by {
        assert forall|k: int| 0 <= k < inside.len() implies s[at + 2 + k] == #[trigger] inside[k] by {
            assert(s[at + 2 + k] == text[2 + k]);
        }
    }
    assert(s[end - 1] == text[end - 1 - at]);
    lemma_escaped_end(s, at + 2, end - 1);
}

proof fn lemma_line_comment(s: Seq<char>, at: int, inside: Seq<char>, named: bool) -> (parts: Seq<
    PieceView,
>)
    requires
        is_segment(Segment::Line(inside), named),
        stands_at(s, at, segment_text(Segment::Line(inside), named)),
    ensures
        stay(parts, segment_text(Segment::Line(inside), named)),
        pieces(s, at, named) == parts + pieces(s, at + inside.len() + 3, named),
{
    let text = segment_text(Segment::Line(inside), named);
    let end = at + text.len();
    assert(s[at] == text[0] && s[at + 1] == text[1]);
    assert(s[end - 1] == text[end - 1 - at]);
    assert forall|k: int| at + 2 <= k < end - 1 implies #[trigger] s[k] != '\n' && s[k] != '\r' by {
        assert(text[k - at] == inside[k - at - 2]);
    }
    lemma_line(s, at + 2, end - 1);
    let comment = s.subrange(at, end - 1);
    let newline = s.subrange(end - 1, end);
    assert(passage_end(s, at) == end - 1);
    assert(pieces(s, at, named) == seq![PieceView::Text(comment)] + pieces(s, end - 1, named));
    lemma_newline(s, end - 1, named);
    lemma_one_stays(newline);
    let last = seq![PieceView::Text(newline)];
    lemma_stay_first(comment, last, newline);
    assert(comment + newline =~= text);
    let parts = seq![PieceView::Text(comment)] + last;
    assert(pieces(s, at, named) =~= parts + pieces(s, end, named));
    parts
}

proof fn lemma_block_comment(s: Seq<char>, at: int, inside: Seq<char>)
    requires
        is_segment(Segment::Comment(inside), false),
        stands_at(s, at, segment_text(Segment::Comment(inside), false)),
    ensures
        passage_end(s, at) == at + inside.len() + 4,
{
    let text = segment_text(Segment::Comment(inside), false);
    let end = at + text.len();
    assert(s[at] == text[0] && s[at + 1] == text[1]);
    let rest = inside + seq!['*', '/'];
    assert(s.subrange(at + 2, end) =~= rest) by {
        assert forall|k: int| 0 <= k < rest.len() implies s[at + 2 + k] == #[trigger] rest[k] by {
            assert(s[at + 2 + k] == text[2 + k]);
        }
    }
    lemma_comment(s, at + 2, end, 1);
}

/// Quoted text or a comment is one passage; the end of its line is no part of a
/// comment.
pub(crate) proof fn lemma_passage_of(s: Seq<char>, at: int, segment: Segment)
    requires
        is_segment(segment, false),
        segment is Quoted || segment is Escaped || segment is Dollar || segment is Line
            || segment is Comment,
        stands_at(s, at, segment_text(segment, false)),
        ({
            let end = at + segment_text(segment, false).len();
            end < s.len() ==> s[end] != '\'' && s[end] != '"'
        }),
    ensures
        ({
            let end = at + segment_text(segment, false).len();
            &&& passage_end(s, at) == if segment is Line {
                end - 1
            } else {
                end
            }
            &&& segment is Line ==> s[end - 1] == '\n'
            &&& segment is Line || segment is Comment <==> s[at] == '-' || s[at] == '/'
        }),
{
    let text = segment_text(segment, false);
    let end = at + text.len();
    assert(s.subrange(at, end) =~= text);
    assert(s[at] == text[0]);
    match segment {
        Segment::Quoted(quote, inside) => {
            lemma_quoted(s, at, quote, inside);
        },
        Segment::Escaped(e, inside) => {
            lemma_escaped(s, at, e, inside);
        },
        Segment::Dollar(tag, inside) => {
            lemma_dollar(s, at, tag, inside);
        },
        Segment::Line(inside) => {
            assert(s[at + 1] == text[1]);
            assert(s[end - 1] == text[end - 1 - at]);
            assert forall|k: int| at + 2 <= k < end - 1 implies #[trigger] s[k] != '\n' && s[k]
                != '\r' by {
                assert(text[k - at] == inside[k - at - 2]);
            }
            lemma_line(s, at + 2, end - 1);
        },
        Segment::Comment(inside) => {
            lemma_block_comment(s, at, inside);
        },
        _ => {},
    }
}

proof fn lemma_plain_segment(s: Seq<char>, at: int, text: Seq<char>, named: bool) -> (parts: Seq<
    PieceView,
>)
    requires
        is_segment(Segment::Plain(text), named),
        stands_at(s, at, text),
        at + text.len() < s.len() ==> !in_word(text.last()) || !in_word(s[at + text.len()]),
        at + text.len() < s.len() && s[at + text.len()] == '\'' ==> text.last() != 'E' && text.last()
            != 'e',
    ensures
        stay(parts, text),
        pieces(s, at, named) == parts + pieces(s, at + text.len(), named),
{
    let end = at + text.len();
    assert(s[end - 1] == text[end - 1 - at]);
    assert(s.subrange(at, end) =~= text);
    lemma_plain(s, at, end, named)
}

proof fn lemma_cast(s: Seq<char>, at: int)
    requires
        stands_at(s, at, seq![':', ':']),
    ensures
        pieces(s, at, true) == seq![PieceView::Text(seq![':', ':'])] + pieces(s, at + 2, true),
{
    let text = seq![':', ':'];
    assert(s[at] == text[0] && s[at + 1] == text[1]);
    assert(passage_end(s, at) == at);
    assert(s.subrange(at, at + 2) =~= text);
}

/// What a segment needs of the character behind it.
spec fn is_closed_by(segment: Segment, c: char, named: bool) -> bool {
    match segment {
        Segment::Plain(text) => {
            &&& !in_word(text.last()) || !in_word(c)
            &&& c == '\'' ==> text.last() != 'E' && text.last() != 'e'
        },
        Segment::Mark(_) => named ==> !in_name(c),
        Segment::Quoted(quote, _) => c != quote,
        Segment::Escaped(_, _) => c != '\'',
        _ => true,
    }
}

/// A segment that is no placeholder stays as it is; a placeholder is one slot.
#[verifier::rlimit(40)]
proof fn lemma_segment(s: Seq<char>, at: int, segment: Segment, named: bool) -> (parts: Seq<
    PieceView,
>)
    requires
        is_segment(segment, named),
        stands_at(s, at, segment_text(segment, named)),
        at + segment_text(segment, named).len() < s.len() ==> is_closed_by(
            segment,
            s[at + segment_text(segment, named).len()],
            named,
        ),
    ensures
        pieces(s, at, named) == parts + pieces(
            s,
            at + segment_text(segment, named).len(),
            named,
        ),
        segment matches Segment::Mark(name) ==> parts == seq![PieceView::Slot(name)],
        !(segment is Mark) ==> stay(parts, segment_text(segment, named)),
{
    let text = segment_text(segment, named);
    let end = at + text.len();
    assert(s.subrange(at, end) =~= text);
    match segment {
        Segment::Plain(_) => lemma_plain_segment(s, at, text, named),
        Segment::Mark(name) => {
            lemma_mark(s, at, name, named);
            seq![PieceView::Slot(name)]
        },
        Segment::Cast => {
            lemma_cast(s, at);
            lemma_one_stays(text);
            seq![PieceView::Text(text)]
        },
        Segment::Quoted(quote, inside) => {
            lemma_quoted(s, at, quote, inside);
            lemma_passage(s, at, end, named)
        },
        Segment::Escaped(e, inside) => {
            lemma_escaped(s, at, e, inside);
            lemma_passage(s, at, end, named)
        },
        Segment::Dollar(tag, inside) => {
            lemma_dollar(s, at, tag, inside);
            lemma_passage(s, at, end, named)
        },
        Segment::Line(inside) => lemma_line_comment(s, at, inside, named),
        Segment::Comment(inside) => {
            lemma_block_comment(s, at, inside);
            lemma_passage(s, at, end, named)
        },
    }
}

proof fn lemma_newline(s: Seq<char>, at: int, named: bool)
    requires
        0 <= at < s.len(),
        s[at] == '\n',
    ensures
        pieces(s, at, named) == seq![PieceView::Text(s.subrange(at, at + 1))] + pieces(
            s,
            at + 1,
            named,
        ),
{
    assert(passage_end(s, at) == at);
}

proof fn lemma_filled_on(
    front: Seq<PieceView>,
    parts: Seq<PieceView>,
    text: Seq<char>,
    parameters: SqlParametersView,
)
    requires
        stay(parts, text),
    ensures
        slot_count(front + parts) == slot_count(front),
        filled(front, parameters) matches Ok(before) ==> filled(front + parts, parameters) == Ok::<
            Seq<char>,
            QuackErrorView,
        >(before + text),
        filled(front, parameters) is Err ==> filled(front + parts, parameters) == filled(
            front,
            parameters,
        ),
    decreases parts.len(),
{
    let all = front + parts;
    if parts.len() == 0 {
        assert(all =~= front);
        if let Ok(before) = filled(front, parameters) {
            assert(before + text =~= before);
        }
    } else {
        let early = kept(parts.drop_last())->Some_0;
        let last = parts.last()->Text_0;
        assert(kept(parts) == Some(early + last));
        lemma_filled_on(front, parts.drop_last(), early, parameters);
        assert(all.drop_last() =~= front + parts.drop_last());
        assert(all.last() == PieceView::Text(last));
        if let Ok(before) = filled(front, parameters) {
            assert(before + text =~= (before + early) + last);
        }
    }
}

proof fn lemma_text_prefix(segments: Seq<Segment>, k: int, named: bool)
    requires
        0 <= k <= segments.len(),
    ensures
        statement_text(segments.take(k), named).len() <= statement_text(segments, named).len(),
        statement_text(segments, named).take(
            statement_text(segments.take(k), named).len() as int,
        ) == statement_text(segments.take(k), named),
    decreases segments.len(),
{
    let all = statement_text(segments, named);
    let front = statement_text(segments.take(k), named);
    if k < segments.len() {
        assert(segments.drop_last().take(k) =~= segments.take(k));
        lemma_text_prefix(segments.drop_last(), k, named);
        assert(all.take(front.len() as int) =~= statement_text(segments.drop_last(), named).take(
            front.len() as int,
        ));
    } else {
        assert(segments.take(k) =~= segments);
        assert(all.take(all.len() as int) =~= all);
    }
}

proof fn lemma_segment_nonempty(segment: Segment, named: bool)
    requires
        is_segment(segment, named),
    ensures
        segment_text(segment, named).len() > 0,
{
}

/// The pieces of the first segments of a statement.
proof fn lemma_scan(segments: Seq<Segment>, named: bool, k: int) -> (front: Seq<PieceView>)
    requires
        is_statement(segments, named),
        0 <= k <= segments.len(),
    ensures
        pieces(statement_text(segments, named), 0, named) == front + pieces(
            statement_text(segments, named),
            statement_text(segments.take(k), named).len() as int,
            named,
        ),
        slot_count(front) == mark_names(segments.take(k)).len(),
        forall|parameters: SqlParametersView, texts: Seq<Seq<char>>|
            #![trigger filled(front, parameters), replaced(segments.take(k), texts, named)]
            all_given(parameters, mark_names(segments.take(k)), texts) ==> filled(front, parameters)
                == Ok::<Seq<char>, QuackErrorView>(replaced(segments.take(k), texts, named)),
        forall|parameters: SqlParametersView, n: int, error: QuackErrorView|
            #![trigger filled(front, parameters), fails_at(parameters, mark_names(segments.take(k)), n, error)]
            fails_at(parameters, mark_names(segments.take(k)), n, error) ==> filled(
                front,
                parameters,
            ) == Err::<Seq<char>, QuackErrorView>(error),
    decreases k,
{
    let s = statement_text(segments, named);
    let sofar = segments.take(k);
    if k == 0 {
        assert(sofar =~= seq![]);
        let front = Seq::<PieceView>::empty();
        assert(front + pieces(s, 0, named) =~= pieces(s, 0, named));
        front
    } else {
        let earlier = segments.take(k - 1);
        let before = lemma_scan(segments, named, k - 1);
        let segment = segments[k - 1];
        assert(sofar.drop_last() =~= earlier);
        assert(sofar.last() == segment);
        let text = segment_text(segment, named);
        let at = statement_text(earlier, named).len() as int;
        let end = at + text.len();
        lemma_text_prefix(segments, k, named);
        let front_text = statement_text(sofar, named);
        assert(front_text == statement_text(earlier, named) + text);
        assert forall|i: int| at <= i < end implies #[trigger] s[i] == text[i - at] by {
            assert(s.take(end)[i] == front_text[i]);
        }
        if end < s.len() {
            assert(k < segments.len()) by {
                if k == segments.len() {
                    assert(sofar =~= segments);
                }
            }
            let next = segments[k];
            let longer = segments.take(k + 1);
            assert(longer.drop_last() =~= sofar);
            assert(longer.last() == next);
            lemma_text_prefix(segments, k + 1, named);
            lemma_segment_nonempty(next, named);
            let next_text = segment_text(next, named);
            let longer_text = statement_text(longer, named);
            assert(longer_text == front_text + next_text);
            assert(s[end] == s.take(longer_text.len() as int)[end]);
            assert(s[end] == next_text[0]);
            assert(goes_after(segments[k - 1], segments[k], named));
            if segment is Plain && !(next is Escaped) && !(next is Dollar) {
                lemma_first_char(next, named);
            }
        }
        let parts = lemma_segment(s, at, segment, named);
        let front = before + parts;
        assert(before + (parts + pieces(s, end, named)) =~= front + pieces(s, end, named));
        lemma_step(before, parts, segment, earlier, sofar, named);
        front
    }
}

proof fn lemma_first_char(next: Segment, named: bool)
    requires
        is_segment(next, named),
        !(next is Plain),
        !(next is Escaped),
        !(next is Dollar),
    ensures
        !in_word(segment_text(next, named)[0]),
{
}

/// Whether every placeholder is given a text, each the one of its place.
pub open spec fn all_given(
    parameters: SqlParametersView,
    names: Seq<Seq<char>>,
    texts: Seq<Seq<char>>,
) -> bool {
    &&& texts.len() >= names.len()
    &&& forall|j: int|
        0 <= j < names.len() ==> argument(parameters, #[trigger] names[j], j as nat) == Ok::<
            Seq<char>,
            QuackErrorView,
        >(texts[j])
}

/// Whether a placeholder is the first that is given none.
pub open spec fn fails_at(
    parameters: SqlParametersView,
    names: Seq<Seq<char>>,
    n: int,
    error: QuackErrorView,
) -> bool {
    &&& 0 <= n < names.len()
    &&& forall|j: int|
        0 <= j < n ==> argument(parameters, #[trigger] names[j], j as nat) is Ok
    &&& argument(parameters, names[n], n as nat) == Err::<Seq<char>, QuackErrorView>(error)
}

proof fn lemma_step(
    before: Seq<PieceView>,
    parts: Seq<PieceView>,
    segment: Segment,
    earlier: Seq<Segment>,
    sofar: Seq<Segment>,
    named: bool,
)
    requires
        sofar.len() > 0,
        sofar.drop_last() == earlier,
        sofar.last() == segment,
        segment matches Segment::Mark(name) ==> parts == seq![PieceView::Slot(name)],
        !(segment is Mark) ==> stay(parts, segment_text(segment, named)),
        slot_count(before) == mark_names(earlier).len(),
        forall|parameters: SqlParametersView, texts: Seq<Seq<char>>|
            #![trigger filled(before, parameters), replaced(earlier, texts, named)]
            all_given(parameters, mark_names(earlier), texts) ==> filled(before, parameters) == Ok::<
                Seq<char>,
                QuackErrorView,
            >(replaced(earlier, texts, named)),
        forall|parameters: SqlParametersView, n: int, error: QuackErrorView|
            #![trigger filled(before, parameters), fails_at(parameters, mark_names(earlier), n, error)]
            fails_at(parameters, mark_names(earlier), n, error) ==> filled(before, parameters)
                == Err::<Seq<char>, QuackErrorView>(error),
    ensures
        slot_count(before + parts) == mark_names(sofar).len(),
        forall|parameters: SqlParametersView, texts: Seq<Seq<char>>|
            #![trigger filled(before + parts, parameters), replaced(sofar, texts, named)]
            all_given(parameters, mark_names(sofar), texts) ==> filled(before + parts, parameters)
                == Ok::<Seq<char>, QuackErrorView>(replaced(sofar, texts, named)),
        forall|parameters: SqlParametersView, n: int, error: QuackErrorView|
            #![trigger filled(before + parts, parameters), fails_at(parameters, mark_names(sofar), n, error)]
            fails_at(parameters, mark_names(sofar), n, error) ==> filled(before + parts, parameters)
                == Err::<Seq<char>, QuackErrorView>(error),
{
    let front = before + parts;
    let old_names = mark_names(earlier);
    let names = mark_names(sofar);
    if let Segment::Mark(name) = segment {
        assert(front.drop_last() =~= before);
        assert(front.last() == PieceView::Slot(name));
        assert(names == old_names.push(name));
    } else {
        lemma_filled_on(
            before,
            parts,
            segment_text(segment, named),
            SqlParametersView::Positional(seq![]),
        );
    }
    assert forall|parameters: SqlParametersView, texts: Seq<Seq<char>>|
        #![trigger filled(front, parameters), replaced(sofar, texts, named)]
        all_given(parameters, names, texts) implies filled(front, parameters) == Ok::<
        Seq<char>,
        QuackErrorView,
    >(replaced(sofar, texts, named)) by {
        assert forall|j: int| 0 <= j < old_names.len() implies argument(
            parameters,
            #[trigger] old_names[j],
            j as nat,
        ) == Ok::<Seq<char>, QuackErrorView>(texts[j]) by {
            assert(names[j] == old_names[j]);
        }
        assert(all_given(parameters, old_names, texts));
        assert(filled(before, parameters) == Ok::<Seq<char>, QuackErrorView>(
            replaced(earlier, texts, named),
        ));
        if segment is Mark {
            assert(names[old_names.len() as int] == segment->Mark_0);
        } else {
            lemma_filled_on(before, parts, segment_text(segment, named), parameters);
        }
    }
    assert forall|parameters: SqlParametersView, n: int, error: QuackErrorView|
        #![trigger filled(front, parameters), fails_at(parameters, names, n, error)]
        fails_at(parameters, names, n, error) implies filled(front, parameters) == Err::<
        Seq<char>,
        QuackErrorView,
    >(error) by {
        if n < old_names.len() {
            assert forall|j: int| 0 <= j < n implies argument(
                parameters,
                #[trigger] old_names[j],
                j as nat,
            ) is Ok by {
                assert(names[j] == old_names[j]);
            }
            assert(names[n] == old_names[n]);
            assert(fails_at(parameters, old_names, n, error));
            assert(filled(before, parameters) == Err::<Seq<char>, QuackErrorView>(error));
            if !(segment is Mark) {
                lemma_filled_on(before, parts, segment_text(segment, named), parameters);
            }
        } else {
            assert(segment is Mark);
            let texts = Seq::new(
                old_names.len(),
                |j: int| argument(parameters, old_names[j], j as nat)->Ok_0,
            );
            assert forall|j: int| 0 <= j < old_names.len() implies argument(
                parameters,
                #[trigger] old_names[j],
                j as nat,
            ) == Ok::<Seq<char>, QuackErrorView>(texts[j]) by {
                assert(names[j] == old_names[j]);
                assert(argument(parameters, names[j], j as nat) is Ok);
            }
            assert(all_given(parameters, old_names, texts));
            assert(filled(before, parameters) == Ok::<Seq<char>, QuackErrorView>(
                replaced(earlier, texts, named),
            ));
            assert(names[n] == segment->Mark_0);
        }
    }
}

/// The pieces of a whole statement.
proof fn lemma_scan_all(segments: Seq<Segment>, named: bool) -> (front: Seq<PieceView>)
    requires
        is_statement(segments, named),
    ensures
        pieces(statement_text(segments, named), 0, named) == front,
        slot_count(front) == mark_names(segments).len(),
        forall|parameters: SqlParametersView, texts: Seq<Seq<char>>|
            #![trigger filled(front, parameters), replaced(segments, texts, named)]
            all_given(parameters, mark_names(segments), texts) ==> filled(front, parameters)
                == Ok::<Seq<char>, QuackErrorView>(replaced(segments, texts, named)),
        forall|parameters: SqlParametersView, n: int, error: QuackErrorView|
            #![trigger filled(front, parameters), fails_at(parameters, mark_names(segments), n, error)]
            fails_at(parameters, mark_names(segments), n, error) ==> filled(front, parameters)
                == Err::<Seq<char>, QuackErrorView>(error),
{
    let count = segments.len() as int;
    let front = lemma_scan(segments, named, count);
    assert(segments.take(count) =~= segments);
    let s = statement_text(segments, named);
    assert(front + pieces(s, s.len() as int, named) =~= front);
    front
}

/// Each `?` outside of quotes and comments takes the value of its place: the
/// formatted statement is the statement with the literal of the first value in
/// the place of the first mark, that of the second in the place of the second,
/// and so on, and all else as it was.
pub proof fn law_marks_take_their_values(
    segments: Seq<Segment>,
    values: Seq<ValueView>,
    texts: Seq<Seq<char>>,
)
    requires
        is_statement(segments, false),
        values.len() == mark_names(segments).len(),
        texts.len() == values.len(),
        forall|k: int|
            0 <= k < values.len() ==> literal(#[trigger] values[k]) == Ok::<
                Seq<char>,
                QuackErrorView,
            >(texts[k]),
    ensures
        formatted(
            statement_text(segments, false),
            Some(SqlParametersView::Positional(values)),
        ) == Ok::<Seq<char>, QuackErrorView>(replaced(segments, texts, false)),
{
    let parameters = SqlParametersView::Positional(values);
    let names = mark_names(segments);
    let front = lemma_scan_all(segments, false);
    assert forall|j: int| 0 <= j < names.len() implies argument(
        parameters,
        #[trigger] names[j],
        j as nat,
    ) == Ok::<Seq<char>, QuackErrorView>(texts[j]) by {
        assert(literal(values[j]) == Ok::<Seq<char>, QuackErrorView>(texts[j]));
    }
    assert(all_given(parameters, names, texts));
    assert(filled(front, parameters) == Ok::<Seq<char>, QuackErrorView>(
        replaced(segments, texts, false),
    ));
}

/// Too few and too many positional values are refused, as is a value without a
/// literal.
pub proof fn law_unfit_values_are_refused(
    segments: Seq<Segment>,
    values: Seq<ValueView>,
    k: int,
)
    requires
        is_statement(segments, false),
    ensures
        ({
            let marks = mark_names(segments).len();
            let result = formatted(
                statement_text(segments, false),
                Some(SqlParametersView::Positional(values)),
            );
            let literals = forall|j: int| 0 <= j < values.len() ==> literal(#[trigger] values[j]) is Ok;
            &&& literals && values.len() < marks ==> result == Err::<Seq<char>, _>(
                QuackErrorView::Protocol("not enough SQL parameters"@),
            )
            &&& literals && values.len() > marks ==> result == Err::<Seq<char>, _>(
                QuackErrorView::Protocol("too many SQL parameters"@),
            )
            &&& 0 <= k < values.len() && k < marks && (forall|j: int|
                0 <= j < k ==> literal(#[trigger] values[j]) is Ok) && literal(values[k]) is Err
                ==> result == literal(values[k])
        }),
{
    let parameters = SqlParametersView::Positional(values);
    let names = mark_names(segments);
    let front = lemma_scan_all(segments, false);
    let literals = forall|j: int| 0 <= j < values.len() ==> literal(#[trigger] values[j]) is Ok;
    if literals && values.len() < names.len() {
        let n = values.len() as int;
        let error = QuackErrorView::Protocol("not enough SQL parameters"@);
        assert forall|j: int| 0 <= j < n implies argument(
            parameters,
            #[trigger] names[j],
            j as nat,
        ) is Ok by {
            assert(literal(values[j]) is Ok);
        }
        assert(fails_at(parameters, names, n, error));
        assert(filled(front, parameters) is Err);
    }
    if literals && values.len() > names.len() {
        let texts = Seq::new(values.len(), |j: int| literal(values[j])->Ok_0);
        assert forall|j: int| 0 <= j < names.len() implies argument(
            parameters,
            #[trigger] names[j],
            j as nat,
        ) == Ok::<Seq<char>, QuackErrorView>(texts[j]) by {
            assert(literal(values[j]) is Ok);
        }
        assert(all_given(parameters, names, texts));
        assert(filled(front, parameters) == Ok::<Seq<char>, QuackErrorView>(
            replaced(segments, texts, false),
        ));
    }
    if 0 <= k < values.len() && k < names.len() && (forall|j: int|
        0 <= j < k ==> literal(#[trigger] values[j]) is Ok) && literal(values[k]) is Err {
        let error = literal(values[k])->Err_0;
        assert forall|j: int| 0 <= j < k implies argument(
            parameters,
            #[trigger] names[j],
            j as nat,
        ) is Ok by {
            assert(literal(values[j]) is Ok);
        }
        assert(fails_at(parameters, names, k, error));
        assert(filled(front, parameters) == Err::<Seq<char>, QuackErrorView>(error));
    }
}

/// Whether an entry is the first of a name.
pub open spec fn is_entry_of(
    entries: Seq<(Seq<char>, ValueView)>,
    name: Seq<char>,
    i: int,
) -> bool {
    &&& 0 <= i < entries.len()
    &&& entries[i].0 == name
    &&& forall|j: int| 0 <= j < i ==> (#[trigger] entries[j]).0 != name
}

proof fn lemma_entry_found(entries: Seq<(Seq<char>, ValueView)>, name: Seq<char>, i: int)
    requires
        is_entry_of(entries, name, i),
    ensures
        key_index(entries, name) == Some(i),
    decreases entries.len(),
{
    if i > 0 {
        assert(entries[0].0 != name);
        let rest = entries.skip(1);
        assert(rest[i - 1] == entries[i]);
        assert forall|j: int| 0 <= j < i - 1 implies (#[trigger] rest[j]).0 != name by {
            assert(rest[j] == entries[j + 1]);
        }
        lemma_entry_found(rest, name, i - 1);
    }
}

proof fn lemma_entry_missing(entries: Seq<(Seq<char>, ValueView)>, name: Seq<char>)
    requires
        forall|j: int| 0 <= j < entries.len() ==> (#[trigger] entries[j]).0 != name,
    ensures
        key_index(entries, name) is None,
    decreases entries.len(),
{
    if entries.len() > 0 {
        assert(entries[0].0 != name);
        let rest = entries.skip(1);
        assert forall|j: int| 0 <= j < rest.len() implies (#[trigger] rest[j]).0 != name by {
            assert(rest[j] == entries[j + 1]);
        }
        lemma_entry_missing(rest, name);
    }
}

/// Each name behind a colon, outside of quotes and comments, takes the value of
/// that name, however often and in whatever order the names stand: the formatted
/// statement is the statement with the literal of the name's value in the place
/// of each, and all else as it was.
pub proof fn law_names_take_their_values(
    segments: Seq<Segment>,
    entries: Seq<(Seq<char>, ValueView)>,
    places: Seq<int>,
    texts: Seq<Seq<char>>,
)
    requires
        is_statement(segments, true),
        places.len() == mark_names(segments).len(),
        texts.len() == places.len(),
        forall|k: int|
            0 <= k < places.len() ==> is_entry_of(
                entries,
                mark_names(segments)[k],
                #[trigger] places[k],
            ) && literal(entries[places[k]].1) == Ok::<Seq<char>, QuackErrorView>(texts[k]),
    ensures
        formatted(statement_text(segments, true), Some(SqlParametersView::Named(entries))) == Ok::<
            Seq<char>,
            QuackErrorView,
        >(replaced(segments, texts, true)),
{
    let parameters = SqlParametersView::Named(entries);
    let names = mark_names(segments);
    let front = lemma_scan_all(segments, true);
    assert forall|j: int| 0 <= j < names.len() implies argument(
        parameters,
        #[trigger] names[j],
        j as nat,
    ) == Ok::<Seq<char>, QuackErrorView>(texts[j]) by {
        assert(is_entry_of(entries, names[j], places[j]));
        lemma_entry_found(entries, names[j], places[j]);
    }
    assert(all_given(parameters, names, texts));
    assert(filled(front, parameters) == Ok::<Seq<char>, QuackErrorView>(
        replaced(segments, texts, true),
    ));
}

/// A name without a value is refused, and the error says which: the first one
/// that has none, if those before it all have a literal.
pub proof fn law_missing_name_is_refused(
    segments: Seq<Segment>,
    entries: Seq<(Seq<char>, ValueView)>,
    n: int,
)
    requires
        is_statement(segments, true),
        0 <= n < mark_names(segments).len(),
        forall|i: int| 0 <= i < entries.len() ==> (#[trigger] entries[i]).0 != mark_names(segments)[n],
        forall|i: int| 0 <= i < entries.len() ==> literal((#[trigger] entries[i]).1) is Ok,
        forall|k: int|
            0 <= k < n ==> exists|i: int|
                is_entry_of(entries, #[trigger] mark_names(segments)[k], i),
    ensures
        formatted(statement_text(segments, true), Some(SqlParametersView::Named(entries))) == Err::<
            Seq<char>,
            _,
        >(QuackErrorView::Protocol("missing SQL parameter "@ + mark_names(segments)[n])),
{
    let parameters = SqlParametersView::Named(entries);
    let names = mark_names(segments);
    let front = lemma_scan_all(segments, true);
    let error = QuackErrorView::Protocol("missing SQL parameter "@ + names[n]);
    lemma_entry_missing(entries, names[n]);
    assert forall|j: int| 0 <= j < n implies argument(
        parameters,
        #[trigger] names[j],
        j as nat,
    ) is Ok by {
        let i = choose|i: int| is_entry_of(entries, names[j], i);
        lemma_entry_found(entries, names[j], i);
        assert(literal(entries[i].1) is Ok);
    }
    assert(fails_at(parameters, names, n, error));
    assert(filled(front, parameters) == Err::<Seq<char>, QuackErrorView>(error));
}

/// A statement without parameters is left alone.
pub proof fn law_statement_without_parameters_stays(sql: Seq<char>)
    ensures
        formatted(sql, None) == Ok::<Seq<char>, QuackErrorView>(sql),
{
}

} // verus!
