//! Which statements the server answers with a count: what stands in quotes,
//! comments and brackets plays no part.

use vstd::prelude::*;

use crate::placeholders::is_segment;
use crate::placeholders::lemma_passage_of;
use crate::placeholders::segment_text;
use crate::placeholders::stands_at;
use crate::placeholders::Segment;
use crate::sql::passage_end;
use crate::statements::changes_rows;
use crate::statements::counts_rows;
use crate::statements::is_change;
use crate::statements::is_lettered;
use crate::statements::is_main_verb;
use crate::statements::is_open_text;
use crate::statements::is_single;
use crate::statements::is_verb;
use crate::statements::lemma_blank_marks;
use crate::statements::lemma_keywords;
use crate::statements::lemma_mark_at;
use crate::statements::lemma_open_marks;
use crate::statements::lemma_word_mark;
use crate::statements::mark_at;
use crate::statements::marks;
use crate::statements::open_brackets;
use crate::statements::spells;
use crate::statements::spells_change;
use crate::statements::stands_apart;
use crate::statements::Keyword;
use crate::statements::Mark;
use crate::text::is_blank;
use crate::text::is_white_space;
use crate::text::speaks_of;

verus! {

/// Whether text says nothing that keeps a statement from being answered with a
/// count: it ends no statement and does not speak of returned rows.
pub open spec fn is_harmless(text: Seq<char>) -> bool {
    &&& is_open_text(text)
    &&& forall|k: int| 0 <= k < text.len() ==> #[trigger] text[k] != ';'
    &&& !speaks_of(text, "returning"@)
}

/// A change of rows is answered with a count whatever stands in its quoted text
/// and its comments, semicolons and the word for returned rows among it.
pub proof fn law_quoted_text_is_not_read(
    before: Seq<char>,
    word: Seq<char>,
    middle: Seq<char>,
    segment: Segment,
    after: Seq<char>,
)
    requires
        is_blank(before),
        spells_change(word),
        middle.len() > 0,
        is_white_space(middle[0]),
        is_white_space(middle.last()),
        is_harmless(middle),
        is_harmless(after),
        is_segment(segment, false),
        segment is Quoted || segment is Escaped || segment is Dollar || segment is Line
            || segment is Comment,
    ensures
        counts_rows(before + word + middle + segment_text(segment, false) + after),
{
    let inner = segment_text(segment, false);
    let s = before + word + middle + inner + after;
    let a = before.len() as int;
    let b = a + word.len();
    let c = b + middle.len();
    let d = c + inner.len();
    let n = s.len() as int;
    lemma_keywords(word);
    assert(s.subrange(0, a) =~= before);
    lemma_blank_marks(s, 0, a);
    assert(s.subrange(a, b) =~= word);
    assert(s[b] == middle[0]);
    lemma_word_mark(s, a, word);
    assert(s.subrange(b, c) =~= middle);
    assert(s[c - 1] == middle.last());
    let front = lemma_open_marks(s, b, c);
    assert(stands_at(s, c, inner));
    if d < n {
        assert(s[d] == after[0]);
    }
    lemma_passage_of(s, c, segment);
    lemma_mark_at(s, c);
    assert(inner.len() > 1);
    let own: Seq<Mark> = if segment is Line || segment is Comment {
        seq![]
    } else {
        seq![Mark::Other]
    };
    assert(marks(s, c) =~= own + marks(s, d)) by {
        if segment is Line {
            assert(s.subrange(d - 1, d) =~= seq!['\n']);
            lemma_blank_marks(s, d - 1, d);
        }
    }
    assert(s.subrange(d, n) =~= after);
    let tail = lemma_open_marks(s, d, n);
    assert(marks(s, n) =~= seq![]);
    let list = marks(s, 0);
    let first = list[0];
    assert(list =~= seq![first] + front + own + tail);
    assert(is_change(first));
    assert forall|m: Mark| #[trigger] list.contains(m) implies m == first || front.contains(m)
        || own.contains(m) || tail.contains(m) by {
        let k = choose|k: int| 0 <= k < list.len() && list[k] == m;
        let x = k - 1;
        if 0 <= x < front.len() {
            assert(front[x] == m);
        } else if x >= 0 && x - front.len() < own.len() {
            assert(own[x - front.len()] == m);
        } else if x >= 0 {
            assert(tail[x - front.len() - own.len()] == m);
        }
    }
    assert(!list.contains(Mark::End) && !list.contains(Mark::Key(Keyword::Returning)));
    assert(is_single(list)) by {
        assert forall|i: int, j: int|
            0 <= i < j < list.len() && #[trigger] list[i] == Mark::End implies #[trigger] list[j]
            == Mark::End by {
            assert(list.contains(list[i]));
        }
    }
}

proof fn lemma_brackets_of(a: Seq<Mark>, b: Seq<Mark>)
    ensures
        open_brackets(a + b) == open_brackets(a) + open_brackets(b),
    decreases b.len(),
{
    if b.len() == 0 {
        assert(a + b =~= a);
    } else {
        assert((a + b).drop_last() =~= a + b.drop_last());
        lemma_brackets_of(a, b.drop_last());
    }
}

proof fn lemma_no_brackets(list: Seq<Mark>)
    requires
        !list.contains(Mark::Open),
        !list.contains(Mark::Close),
    ensures
        open_brackets(list) == 0,
    decreases list.len(),
{
    if list.len() > 0 {
        let before = list.drop_last();
        assert(list.contains(list.last()));
        assert forall|m: Mark| before.contains(m) implies #[trigger] list.contains(m) by {
            let k = choose|k: int| 0 <= k < before.len() && before[k] == m;
            assert(list[k] == m);
        }
        lemma_no_brackets(before);
    }
}

/// Whether a word tells nothing about what a statement does.
pub open spec fn is_other_word(word: Seq<char>) -> bool {
    &&& word.len() > 0
    &&& is_lettered(word)
    &&& !spells_change(word)
    &&& !spells(word, "select"@)
    &&& !spells(word, "with"@)
    &&& !spells(word, "returning"@)
}

/// What the marks of a statement tell that begins with a table for its use.
spec fn marks_with(inside: Seq<Mark>, verb: Mark, rest: Seq<Mark>) -> Seq<Mark> {
    seq![Mark::Key(Keyword::With), Mark::Other, Mark::Other, Mark::Open] + inside + seq![
        Mark::Close,
        verb,
    ] + rest
}

proof fn lemma_word_behind(inside: Seq<Mark>, verb: Mark, rest: Seq<Mark>)
    requires
        is_verb(verb),
        !inside.contains(Mark::Open),
        !inside.contains(Mark::Close),
    ensures
        changes_rows(marks_with(inside, verb, rest)) <==> is_change(verb),
{
    let list = marks_with(inside, verb, rest);
    let head = seq![Mark::Key(Keyword::With), Mark::Other, Mark::Other, Mark::Open];
    let at = head.len() + inside.len() + 1;
    assert(open_brackets(head) == 1) by {
        reveal_with_fuel(open_brackets, 5);
        assert(head.drop_last() =~= seq![Mark::Key(Keyword::With), Mark::Other, Mark::Other]);
        assert(head.drop_last().drop_last() =~= seq![Mark::Key(Keyword::With), Mark::Other]);
        assert(head.drop_last().drop_last().drop_last() =~= seq![Mark::Key(Keyword::With)]);
    }
    lemma_no_brackets(inside);
    lemma_brackets_of(head, inside);
    let shut = seq![Mark::Close];
    assert(open_brackets(shut) == -1) by {
        assert(shut.drop_last() =~= seq![]);
        assert(open_brackets(shut.drop_last()) == 0);
    }
    lemma_brackets_of(head + inside, shut);
    assert(list.take(at as int) =~= head + inside + shut);
    assert(list[at as int] == verb);
    assert forall|k: int| 0 <= k < at implies !(is_verb(#[trigger] list[k]) && open_brackets(
        list.take(k),
    ) == 0) by {
        if k < 4 {
            assert(list[k] == head[k]);
        } else if k < 4 + inside.len() {
            let part = inside.take(k - 4);
            assert(list.take(k) =~= head + part);
            lemma_brackets_of(head, part);
            assert forall|m: Mark| part.contains(m) implies #[trigger] inside.contains(m) by {
                let j = choose|j: int| 0 <= j < part.len() && part[j] == m;
                assert(inside[j] == m);
            }
            lemma_no_brackets(part);
        } else {
            assert(list[k] == Mark::Close);
        }
    }
    assert(is_main_verb(list, at as int));
    assert(list[0] == Mark::Key(Keyword::With));
    assert forall|other: int| #[trigger] is_main_verb(list, other) implies other == at by {
        if other > at {
            assert(!(is_verb(list[at as int]) && open_brackets(list.take(at as int)) == 0));
        }
    }
}

/// A statement that begins with a table for its use is answered with a count
/// exactly if the word behind the brackets is one for a change of rows: what
/// stands in the brackets, such a word or another, plays no part.
#[verifier::rlimit(40)]
pub proof fn law_word_behind_the_brackets_counts(
    before: Seq<char>,
    with: Seq<char>,
    first_gap: Seq<char>,
    name: Seq<char>,
    second_gap: Seq<char>,
    link: Seq<char>,
    third_gap: Seq<char>,
    inner: Seq<char>,
    last_gap: Seq<char>,
    verb: Seq<char>,
    after: Seq<char>,
)
    requires
        is_blank(before) && is_blank(first_gap) && is_blank(second_gap) && is_blank(third_gap)
            && is_blank(last_gap),
        first_gap.len() > 0 && second_gap.len() > 0 && third_gap.len() > 0,
        spells(with, "with"@),
        is_other_word(name) && is_other_word(link),
        is_harmless(inner) && is_harmless(after),
        forall|k: int| 0 <= k < inner.len() ==> #[trigger] inner[k] != '(' && inner[k] != ')',
        spells_change(verb) || spells(verb, "select"@),
        stands_apart(after),
    ensures
        counts_rows(
            before + with + first_gap + name + second_gap + link + third_gap + seq!['('] + inner
                + seq![')'] + last_gap + verb + after,
        ) <==> spells_change(verb),
{
    let s = before + with + first_gap + name + second_gap + link + third_gap + seq!['('] + inner
        + seq![')'] + last_gap + verb + after;
    let n = s.len() as int;
    let p1 = before.len() as int;
    let p2 = p1 + with.len();
    let p3 = p2 + first_gap.len();
    let p4 = p3 + name.len();
    let p5 = p4 + second_gap.len();
    let p6 = p5 + link.len();
    let p7 = p6 + third_gap.len();
    let p8 = p7 + 1 + inner.len();
    let p9 = p8 + 1 + last_gap.len();
    let pa = p9 + verb.len();
    lemma_keywords(with);
    lemma_keywords(name);
    lemma_keywords(link);
    lemma_keywords(verb);
    assert(s.subrange(0, p1) =~= before);
    assert(s.subrange(p1, p2) =~= with);
    assert(s.subrange(p2, p3) =~= first_gap);
    assert(s.subrange(p3, p4) =~= name);
    assert(s.subrange(p4, p5) =~= second_gap);
    assert(s.subrange(p5, p6) =~= link);
    assert(s.subrange(p6, p7) =~= third_gap);
    assert(s.subrange(p7 + 1, p8) =~= inner);
    assert(s.subrange(p8 + 1, p9) =~= last_gap);
    assert(s.subrange(p9, pa) =~= verb);
    assert(s.subrange(pa, n) =~= after);
    assert(s[p2] == first_gap[0] && s[p4] == second_gap[0] && s[p6] == third_gap[0]);
    assert(s[p7] == '(' && s[p8] == ')');
    if pa < n {
        assert(s[pa] == after[0]);
    }
    lemma_blank_marks(s, 0, p1);
    lemma_word_mark(s, p1, with);
    lemma_blank_marks(s, p2, p3);
    lemma_word_mark(s, p3, name);
    lemma_blank_marks(s, p4, p5);
    lemma_word_mark(s, p5, link);
    lemma_blank_marks(s, p6, p7);
    assert(passage_end(s, p7) == p7);
    assert(mark_at(s, p7) == (Some(Mark::Open), p7 + 1));
    let inside = lemma_open_marks(s, p7 + 1, p8);
    assert(passage_end(s, p8) == p8);
    assert(mark_at(s, p8) == (Some(Mark::Close), p8 + 1));
    lemma_blank_marks(s, p8 + 1, p9);
    lemma_word_mark(s, p9, verb);
    let rest = lemma_open_marks(s, pa, n);
    assert(marks(s, n) =~= seq![]);
    let list = marks(s, 0);
    let word = Mark::Key(keyword_of(verb));
    assert(marks(s, p9) == seq![word] + marks(s, pa));
    assert(marks(s, p8) == seq![Mark::Close] + marks(s, p8 + 1));
    assert(marks(s, p7) == seq![Mark::Open] + marks(s, p7 + 1));
    assert(list =~= marks_with(inside, word, rest));
    lemma_word_behind(inside, word, rest);
    assert forall|m: Mark| #[trigger] list.contains(m) implies inside.contains(m)
        || rest.contains(m) || m == word || m == Mark::Open || m == Mark::Close || m == Mark::Other
        || m == Mark::Key(Keyword::With) by {
        let k = choose|k: int| 0 <= k < list.len() && list[k] == m;
        if 4 <= k < 4 + inside.len() {
            assert(inside[k - 4] == m);
        } else if k >= 6 + inside.len() {
            assert(rest[k - 6 - inside.len()] == m);
        }
    }
    assert(!list.contains(Mark::End) && !list.contains(Mark::Key(Keyword::Returning)));
    assert(is_single(list)) by {
        assert forall|i: int, j: int|
            0 <= i < j < list.len() && #[trigger] list[i] == Mark::End implies #[trigger] list[j]
            == Mark::End by {
            assert(list.contains(list[i]));
        }
    }
}

/// The keyword that a word for what a statement does stands for.
spec fn keyword_of(verb: Seq<char>) -> Keyword {
    if spells(verb, "insert"@) {
        Keyword::Insert
    } else if spells(verb, "update"@) {
        Keyword::Update
    } else if spells(verb, "delete"@) {
        Keyword::Delete
    } else if spells(verb, "merge"@) {
        Keyword::Merge
    } else {
        Keyword::Select
    }
}

} // verus!
