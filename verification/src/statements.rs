//! What a statement is, as far as its words tell, and the number of rows that
//! it touched.

use vstd::prelude::*;

use crate::rows::row_entry;
use crate::rows::row_len;
use crate::rows::rows_entries;
use crate::rows::Row;
use crate::sql::is_word_start;
use crate::sql::lemma_passage_end;
use crate::sql::lemma_run_end;
use crate::sql::passage_end;
use crate::sql::passage_end_from;
use crate::sql::run_end;
use crate::sql::run_end_from;
use crate::sql::starts_word;
use crate::sql::CharClass;
use crate::text::chars_of;
use crate::text::is_blank;
use crate::text::is_white_space;
use crate::text::lower;
use crate::text::lower_char;
use crate::text::reads_like;
use crate::text::speaks_of;
use crate::text::white_space;
use crate::value::Value;
use crate::value::ValueView;

verus! {

/// The words that a statement is told by.
#[derive(Clone, Copy, Debug, PartialEq, Eq, Structural)]
pub enum Keyword {
    Insert,
    Update,
    Delete,
    Merge,
    Select,
    With,
    Returning,
}

/// A mark of a statement.
#[derive(Clone, Copy, Debug, PartialEq, Eq, Structural)]
pub enum Mark {
    /// A word that tells something.
    Key(Keyword),
    /// An opening bracket.
    Open,
    /// A closing bracket.
    Close,
    /// The end of a statement.
    End,
    /// Anything else.
    Other,
}

/// What a word tells, whatever its case.
pub open spec fn keyword(word: Seq<char>) -> Option<Keyword> {
    let lower = lower(word);
    if lower == "insert"@ {
        Some(Keyword::Insert)
    } else if lower == "update"@ {
        Some(Keyword::Update)
    } else if lower == "delete"@ {
        Some(Keyword::Delete)
    } else if lower == "merge"@ {
        Some(Keyword::Merge)
    } else if lower == "select"@ {
        Some(Keyword::Select)
    } else if lower == "with"@ {
        Some(Keyword::With)
    } else if lower == "returning"@ {
        Some(Keyword::Returning)
    } else {
        None
    }
}

/// The mark that begins at a position, if one does, and where the next may
/// begin. White space and comments are none.
pub open spec fn mark_at(s: Seq<char>, i: int) -> (Option<Mark>, int) {
    let c = s[i];
    let end = passage_end(s, i);
    if end > i {
        (
            if c == '-' || c == '/' {
                None
            } else {
                Some(Mark::Other)
            },
            end,
        )
    } else if is_white_space(c) {
        (None, i + 1)
    } else if is_word_start(c) {
        let end = run_end(s, i, CharClass::Word);
        (
            match keyword(s.subrange(i, end)) {
                Some(key) => Some(Mark::Key(key)),
                None => Some(Mark::Other),
            },
            end,
        )
    } else {
        (
            Some(
                if c == '(' {
                    Mark::Open
                } else if c == ')' {
                    Mark::Close
                } else if c == ';' {
                    Mark::End
                } else {
                    Mark::Other
                },
            ),
            i + 1,
        )
    }
}

pub(crate) proof fn lemma_mark_at(s: Seq<char>, i: int)
    requires
        0 <= i < s.len(),
    ensures
        i < mark_at(s, i).1 <= s.len(),
{
    lemma_passage_end(s, i);
    lemma_run_end(s, i, CharClass::Word);
}

/// The marks of a statement from a position on.
pub open spec fn marks(s: Seq<char>, i: int) -> Seq<Mark>
    decreases s.len() - i,
    when 0 <= i
    via marks_end
{
    if i >= s.len() {
        seq![]
    } else {
        match mark_at(s, i).0 {
            Some(mark) => seq![mark] + marks(s, mark_at(s, i).1),
            None => marks(s, mark_at(s, i).1),
        }
    }
}

#[via_fn]
proof fn marks_end(s: Seq<char>, i: int) {
    if i < s.len() {
        lemma_mark_at(s, i);
    }
}

fn word_is(chars: &Vec<char>, from: usize, to: usize, word: &str) -> (b: bool)
    requires
        from <= to <= chars@.len(),
    ensures
        b == (lower(chars@.subrange(from as int, to as int)) == word@),
{
    let ghost part = chars@.subrange(from as int, to as int);
    let pattern = chars_of(word);
    if pattern.len() != to - from {
        assert(lower(part).len() != word@.len());
        return false;
    }
    let count: usize = pattern.len();
    for i in 0..count
        invariant
            count == pattern@.len(),
            pattern@ == word@,
            count == to - from,
            from <= to <= chars@.len(),
            part == chars@.subrange(from as int, to as int),
            forall|k: int| 0 <= k < i ==> lower(part)[k] == #[trigger] word@[k],
    {
        let c: char = chars[from + i];
        let small: char = if 'A' <= c && c <= 'Z' {
            ((c as u8) + 32) as char
        } else {
            c
        };
        assert(small == lower(part)[i as int]);
        if small != pattern[i] {
            return false;
        }
    }
    assert(lower(part) =~= word@);
    true
}

fn keyword_between(chars: &Vec<char>, from: usize, to: usize) -> (key: Option<Keyword>)
    requires
        from <= to <= chars@.len(),
    ensures
        key == keyword(chars@.subrange(from as int, to as int)),
{
    if word_is(chars, from, to, "insert") {
        Some(Keyword::Insert)
    } else if word_is(chars, from, to, "update") {
        Some(Keyword::Update)
    } else if word_is(chars, from, to, "delete") {
        Some(Keyword::Delete)
    } else if word_is(chars, from, to, "merge") {
        Some(Keyword::Merge)
    } else if word_is(chars, from, to, "select") {
        Some(Keyword::Select)
    } else if word_is(chars, from, to, "with") {
        Some(Keyword::With)
    } else if word_is(chars, from, to, "returning") {
        Some(Keyword::Returning)
    } else {
        None
    }
}

fn next_mark(chars: &Vec<char>, i: usize) -> (mark: (Option<Mark>, usize))
    requires
        i < chars@.len(),
    ensures
        (mark.0, mark.1 as int) == mark_at(chars@, i as int),
        i < mark.1 <= chars@.len(),
{
    proof {
        lemma_mark_at(chars@, i as int);
    }
    let count: usize = chars.len();
    let c: char = chars[i];
    let end: usize = passage_end_from(chars, i);
    if end > i {
        return (
            if c == '-' || c == '/' {
                None
            } else {
                Some(Mark::Other)
            },
            end,
        );
    }
    if white_space(c) {
        return (None, i + 1);
    }
    if starts_word(c) {
        let end: usize = run_end_from(chars, i, CharClass::Word);
        return match keyword_between(chars, i, end) {
            Some(key) => (Some(Mark::Key(key)), end),
            None => (Some(Mark::Other), end),
        };
    }
    let mark = if c == '(' {
        Mark::Open
    } else if c == ')' {
        Mark::Close
    } else if c == ';' {
        Mark::End
    } else {
        Mark::Other
    };
    (Some(mark), i + 1)
}

fn marks_of(sql: &str) -> (list: Vec<Mark>)
    ensures
        list@ == marks(sql@, 0),
{
    let chars = chars_of(sql);
    let count: usize = chars.len();
    let mut list: Vec<Mark> = Vec::new();
    let mut i: usize = 0;
    assert(list@ + marks(chars@, 0) =~= marks(chars@, 0));
    while i < count
        invariant
            i <= count,
            count == chars@.len(),
            list@ + marks(chars@, i as int) == marks(chars@, 0),
        decreases count - i,
    {
        let ghost before = list@;
        let (mark, end) = next_mark(&chars, i);
        if let Some(mark) = mark {
            list.push(mark);
            assert(list@ + marks(chars@, end as int) =~= before + (seq![mark] + marks(
                chars@,
                end as int,
            )));
        }
        i = end;
    }
    assert(list@ + marks(chars@, i as int) =~= list@);
    list
}

/// The brackets that are open behind some marks.
pub open spec fn open_brackets(list: Seq<Mark>) -> int
    decreases list.len(),
{
    if list.len() == 0 {
        0
    } else {
        open_brackets(list.drop_last()) + (match list.last() {
            Mark::Open => 1int,
            Mark::Close => -1int,
            _ => 0int,
        })
    }
}

/// Whether a mark is a word that says what a statement does.
pub open spec fn is_verb(mark: Mark) -> bool {
    match mark {
        Mark::Key(key) => key != Keyword::With && key != Keyword::Returning,
        _ => false,
    }
}

/// Whether a mark is a word for a change of rows.
pub open spec fn is_change(mark: Mark) -> bool {
    is_verb(mark) && mark != Mark::Key(Keyword::Select)
}

/// Whether the mark at a place is the first word outside of brackets that says
/// what the statement does.
pub open spec fn is_main_verb(list: Seq<Mark>, at: int) -> bool {
    &&& 0 <= at < list.len()
    &&& is_verb(list[at])
    &&& open_brackets(list.take(at)) == 0
    &&& forall|k: int|
        0 <= k < at ==> !(is_verb(#[trigger] list[k]) && open_brackets(list.take(k)) == 0)
}

/// Whether a statement changes rows: it begins with the word for that, or with
/// the tables that such a word may use.
pub open spec fn changes_rows(list: Seq<Mark>) -> bool {
    &&& list.len() > 0
    &&& {
        ||| is_change(list[0])
        ||| list[0] == Mark::Key(Keyword::With) && exists|at: int| #[trigger]
            is_main_verb(list, at) && is_change(list[at])
    }
}

/// Whether nothing comes behind the end of the first statement.
pub open spec fn is_single(list: Seq<Mark>) -> bool {
    forall|i: int, j: int|
        0 <= i < j < list.len() && #[trigger] list[i] == Mark::End ==> #[trigger] list[j]
            == Mark::End
}

/// Whether the server answers a statement with the number of rows that it
/// touched: a single change of rows that does not return them.
pub open spec fn counts_rows(sql: Seq<char>) -> bool {
    let list = marks(sql, 0);
    &&& changes_rows(list)
    &&& is_single(list)
    &&& !list.contains(Mark::Key(Keyword::Returning))
}

fn verb(mark: Mark) -> (b: bool)
    ensures
        b == is_verb(mark),
{
    match mark {
        Mark::Key(key) => key != Keyword::With && key != Keyword::Returning,
        _ => false,
    }
}

fn change(mark: Mark) -> (b: bool)
    ensures
        b == is_change(mark),
{
    verb(mark) && mark != Mark::Key(Keyword::Select)
}

fn main_verb_changes(list: &Vec<Mark>) -> (b: bool)
    ensures
        b == exists|at: int| #[trigger] is_main_verb(list@, at) && is_change(list@[at]),
{
    let count: usize = list.len();
    let mut depth: i128 = 0;
    assert(list@.take(0) =~= seq![]);
    for i in 0..count
        invariant
            count == list@.len(),
            depth == open_brackets(list@.take(i as int)),
            -i <= depth <= i,
            forall|k: int|
                0 <= k < i ==> !(is_verb(#[trigger] list@[k]) && open_brackets(list@.take(k)) == 0),
    {
        let mark: Mark = list[i];
        if depth == 0 && verb(mark) {
            assert(is_main_verb(list@, i as int));
            let b = change(mark);
            proof {
                assert forall|at: int| #[trigger] is_main_verb(list@, at) implies at == i by {
                    if at < i {
                        assert(is_verb(list@[at]));
                    } else if at > i {
                        assert(is_verb(list@[i as int]) && open_brackets(list@.take(i as int))
                            == 0);
                    }
                }
            }
            return b;
        }
        assert(list@.take(i + 1).drop_last() =~= list@.take(i as int));
        match mark {
            Mark::Open => {
                depth += 1;
            },
            Mark::Close => {
                depth -= 1;
            },
            _ => {},
        }
    }
    false
}

fn is_single_statement(list: &Vec<Mark>) -> (b: bool)
    ensures
        b == is_single(list@),
{
    let count: usize = list.len();
    let mut ended = false;
    let ghost mut end: int = 0;
    for i in 0..count
        invariant
            count == list@.len(),
            ended ==> 0 <= end < i && list@[end] == Mark::End,
            !ended ==> forall|k: int| 0 <= k < i ==> list@[k] != Mark::End,
            forall|k: int, j: int|
                0 <= k < j < i && #[trigger] list@[k] == Mark::End ==> #[trigger] list@[j]
                    == Mark::End,
    {
        if list[i] == Mark::End {
            if !ended {
                proof {
                    end = i as int;
                }
            }
            ended = true;
        } else if ended {
            assert(list@[end] == Mark::End && list@[i as int] != Mark::End);
            return false;
        }
    }
    true
}

fn has_mark(list: &Vec<Mark>, mark: Mark) -> (b: bool)
    ensures
        b == list@.contains(mark),
{
    let count: usize = list.len();
    for i in 0..count
        invariant
            count == list@.len(),
            forall|k: int| 0 <= k < i ==> list@[k] != mark,
    {
        if list[i] == mark {
            return true;
        }
    }
    false
}

/// Whether the server answers a statement with the number of rows that it
/// touched.
pub fn reports_count(sql: &str) -> (b: bool)
    ensures
        b == counts_rows(sql@),
{
    let list = marks_of(sql);
    if list.len() == 0 {
        return false;
    }
    let first: Mark = list[0];
    let changing = change(first) || (first == Mark::Key(Keyword::With) && main_verb_changes(&list));
    changing && is_single_statement(&list) && !has_mark(&list, Mark::Key(Keyword::Returning))
}

/// The number of rows in the answer to a statement: its only value, if it has
/// only one and that is a number of rows.
pub open spec fn count_in(rows: Seq<Seq<(Seq<char>, ValueView)>>) -> Option<u64> {
    if rows.len() == 1 && rows[0].len() == 1 {
        match rows[0][0].1 {
            ValueView::Int(n) => if n >= 0 {
                Some(n as u64)
            } else {
                None
            },
            ValueView::HugeInt(n) => if 0 <= n <= u64::MAX {
                Some(n as u64)
            } else {
                None
            },
            _ => None,
        }
    } else {
        None
    }
}

/// The number of rows that a statement touched, if it is one that the server
/// answers with that number.
pub open spec fn touched_rows(sql: Seq<char>, rows: Seq<Seq<(Seq<char>, ValueView)>>) -> Option<
    u64,
> {
    if counts_rows(sql) {
        count_in(rows)
    } else {
        None
    }
}

/// The number of rows that a statement touched, if it is one that the server
/// answers with that number. There is none for definitions, queries, changes
/// that return rows, and several statements in one text.
pub fn affected_rows(sql: &str, rows: &Vec<Row>) -> (count: Option<u64>)
    ensures
        count == (if counts_rows(sql@) {
            count_in(rows_entries(rows@))
        } else {
            None
        }),
        count == touched_rows(sql@, rows_entries(rows@)),
{
    if !reports_count(sql) || rows.len() != 1 || row_len(&rows[0]) != 1 {
        return None;
    }
    match row_entry(&rows[0], 0) {
        Some((_, Value::Int(n))) => if *n >= 0 {
            Some(*n as u64)
        } else {
            None
        },
        Some((_, Value::HugeInt(n))) => if 0 <= *n && *n <= u64::MAX as i128 {
            Some(*n as u64)
        } else {
            None
        },
        _ => None,
    }
}

/// Whether an answer is one number and nothing else: one row with one value,
/// which is an integer.
pub open spec fn is_lone_integer(rows: Seq<Seq<(Seq<char>, ValueView)>>, n: int) -> bool {
    &&& rows.len() == 1
    &&& rows[0].len() == 1
    &&& {
        ||| rows[0][0].1 matches ValueView::Int(value) && value == n
        ||| rows[0][0].1 matches ValueView::HugeInt(value) && value == n
    }
}

/// The count that is reported for a statement is the very number that the
/// server answered it with: a count comes out exactly if the statement is one
/// that is answered with a count and the answer is one integer that a count can
/// be, and it is that integer, whatever its size.
pub proof fn law_count_is_what_the_server_reports(
    sql: Seq<char>,
    rows: Seq<Seq<(Seq<char>, ValueView)>>,
    n: int,
)
    ensures
        touched_rows(sql, rows) matches Some(count) ==> counts_rows(sql) && is_lone_integer(
            rows,
            count as int,
        ),
        counts_rows(sql) && is_lone_integer(rows, n) && 0 <= n <= u64::MAX ==> (touched_rows(
            sql,
            rows,
        ) matches Some(count) && count as int == n),
{
}

/// Different counts from the server are reported as different.
pub proof fn law_counts_are_told_apart(
    sql: Seq<char>,
    rows: Seq<Seq<(Seq<char>, ValueView)>>,
    others: Seq<Seq<(Seq<char>, ValueView)>>,
    n: int,
    m: int,
)
    requires
        is_lone_integer(rows, n),
        is_lone_integer(others, m),
        touched_rows(sql, rows) is Some,
        touched_rows(sql, rows) == touched_rows(sql, others),
    ensures
        n == m,
{
}

/// Whether a word is a keyword, in capital or small letters.
pub open spec fn spells(word: Seq<char>, key: Seq<char>) -> bool {
    word.len() == key.len() && reads_like(word, key, 0)
}

/// Whether a word is one for a change of rows.
pub open spec fn spells_change(word: Seq<char>) -> bool {
    spells(word, "insert"@) || spells(word, "update"@) || spells(word, "delete"@) || spells(
        word,
        "merge"@,
    )
}

/// Whether text is made of letters and underscores.
pub open spec fn is_lettered(word: Seq<char>) -> bool {
    forall|k: int| 0 <= k < word.len() ==> is_letter(#[trigger] word[k])
}

/// Whether a character is an ASCII letter or an underscore.
pub open spec fn is_letter(c: char) -> bool {
    'a' <= c <= 'z' || 'A' <= c <= 'Z' || c == '_'
}

/// Whether nothing goes on with a word: it is empty, or begins with white space.
pub open spec fn stands_apart(text: Seq<char>) -> bool {
    text.len() > 0 ==> is_white_space(text[0])
}

/// Whether text holds neither quotes nor what could begin a comment or
/// dollar-quoted text.
pub open spec fn is_open_text(text: Seq<char>) -> bool {
    forall|k: int|
        0 <= k < text.len() ==> {
            let c = #[trigger] text[k];
            c != '\'' && c != '"' && c != '$' && c != '-' && c != '/'
        }
}

proof fn lemma_spells(word: Seq<char>, key: Seq<char>)
    requires
        forall|k: int| 0 <= k < key.len() ==> 'a' <= #[trigger] key[k] <= 'z',
    ensures
        spells(word, key) <==> lower(word) == key,
        spells(word, key) ==> is_lettered(word),
{
    let small = lower(word);
    if spells(word, key) {
        assert forall|k: int| 0 <= k < key.len() implies #[trigger] small[k] == key[k] && is_letter(
            word[k],
        ) by {
            let wanted = key[k];
            let c = word[0 + k];
            assert(c == wanted || 'A' <= c <= 'Z' && c as int + 32 == wanted as int);
            assert(small[k] == lower_char(c));
            if 'A' <= c <= 'Z' {
                assert((c as u8 + 32) as u8 as char == wanted);
            }
        }
        assert(small =~= key);
        assert forall|k: int| 0 <= k < word.len() implies is_letter(#[trigger] word[k]) by {
            assert(small[k] == key[k]);
        }
    }
    if small == key {
        assert forall|k: int| 0 <= k < key.len() implies {
            let c = word[0 + k];
            c == #[trigger] key[k] || 'A' <= c <= 'Z' && c as int + 32 == key[k] as int
        } by {
            assert(small[k] == lower_char(word[k]));
        }
    }
}

pub(crate) proof fn lemma_keywords(word: Seq<char>)
    ensures
        keyword(word) matches Some(Keyword::Insert) <==> spells(word, "insert"@),
        keyword(word) matches Some(Keyword::Update) <==> spells(word, "update"@),
        keyword(word) matches Some(Keyword::Delete) <==> spells(word, "delete"@),
        keyword(word) matches Some(Keyword::Merge) <==> spells(word, "merge"@),
        keyword(word) matches Some(Keyword::Select) <==> spells(word, "select"@),
        keyword(word) matches Some(Keyword::With) <==> spells(word, "with"@),
        keyword(word) matches Some(Keyword::Returning) <==> spells(word, "returning"@),
        spells_change(word) || spells(word, "select"@) || spells(word, "with"@) || spells(
            word,
            "returning"@,
        ) ==> is_lettered(word) && word.len() > 1,
{
    reveal_strlit("insert");
    reveal_strlit("update");
    reveal_strlit("delete");
    reveal_strlit("merge");
    reveal_strlit("select");
    reveal_strlit("with");
    reveal_strlit("returning");
    lemma_spells(word, "insert"@);
    lemma_spells(word, "update"@);
    lemma_spells(word, "delete"@);
    lemma_spells(word, "merge"@);
    lemma_spells(word, "select"@);
    lemma_spells(word, "with"@);
    lemma_spells(word, "returning"@);
    assert("insert"@[0] != "update"@[0]);
    assert("insert"@[0] != "delete"@[0]);
    assert("insert"@[0] != "select"@[0]);
    assert("update"@[0] != "delete"@[0]);
    assert("update"@[0] != "select"@[0]);
    assert("delete"@[0] != "select"@[0]);
    assert("merge"@.len() != "insert"@.len() && "with"@.len() != "insert"@.len());
}

proof fn lemma_word_run(s: Seq<char>, i: int, end: int)
    requires
        0 <= i <= end <= s.len(),
        forall|k: int| i <= k < end ==> is_letter(#[trigger] s[k]),
        end < s.len() ==> is_white_space(s[end]),
    ensures
        run_end(s, i, CharClass::Word) == end,
    decreases end - i,
{
    if i < end {
        lemma_word_run(s, i + 1, end);
    }
}

/// A word between white space is one mark.
pub(crate) proof fn lemma_word_mark(s: Seq<char>, i: int, word: Seq<char>)
    requires
        0 <= i,
        i + word.len() <= s.len(),
        s.subrange(i, i + word.len()) == word,
        word.len() > 0,
        is_lettered(word),
        i + word.len() < s.len() ==> is_white_space(s[i + word.len()]),
    ensures
        marks(s, i) == seq![
            match keyword(word) {
                Some(key) => Mark::Key(key),
                None => Mark::Other,
            },
        ] + marks(s, i + word.len()),
{
    let end = i + word.len();
    assert forall|k: int| i <= k < end implies is_letter(#[trigger] s[k]) by {
        assert(s[k] == word[k - i]);
    }
    lemma_word_run(s, i, end);
    assert(s[i] == word[0]);
    assert(passage_end(s, i) == i) by {
        if i + 1 < s.len() {
            assert(s[i + 1] != '\'');
        }
    }
    assert(mark_at(s, i).1 == end);
}

pub(crate) proof fn lemma_blank_marks(s: Seq<char>, i: int, end: int)
    requires
        0 <= i <= end <= s.len(),
        is_blank(s.subrange(i, end)),
    ensures
        marks(s, i) == marks(s, end),
    decreases end - i,
{
    if i < end {
        assert(s[i] == s.subrange(i, end)[0]);
        assert(passage_end(s, i) == i);
        assert forall|k: int| 0 <= k < s.subrange(i + 1, end).len() implies is_white_space(
            #[trigger] s.subrange(i + 1, end)[k],
        ) by {
            assert(s.subrange(i + 1, end)[k] == s.subrange(i, end)[k + 1]);
        }
        lemma_blank_marks(s, i + 1, end);
    }
}

/// Marks tell of semicolons and of the word for returned rows only where these
/// stand.
proof fn lemma_marks_tell(s: Seq<char>, i: int)
    requires
        0 <= i <= s.len(),
        !speaks_of(s, "returning"@),
        forall|p: int| 0 <= p < s.len() && #[trigger] s[p] == ';' ==> is_blank(s.skip(p + 1)),
    ensures
        !marks(s, i).contains(Mark::Key(Keyword::Returning)),
        is_single(marks(s, i)),
    decreases s.len() - i,
{
    if i < s.len() {
        lemma_mark_at(s, i);
        let (mark, end) = mark_at(s, i);
        lemma_marks_tell(s, end);
        let rest = marks(s, end);
        let list = marks(s, i);
        if let Some(mark) = mark {
            assert(list == seq![mark] + rest);
            if mark == Mark::Key(Keyword::Returning) {
                let stop = run_end(s, i, CharClass::Word);
                lemma_run_end(s, i, CharClass::Word);
                let word = s.subrange(i, stop);
                lemma_keywords(word);
                assert(reads_like(word, "returning"@, 0));
                assert(reads_like(s, "returning"@, i)) by {
                    assert forall|k: int| 0 <= k < "returning"@.len() implies {
                        let c = s[i + k];
                        c == #[trigger] "returning"@[k] || 'A' <= c <= 'Z' && c as int + 32
                            == "returning"@[k] as int
                    } by {
                        assert(word[0 + k] == s[i + k]);
                    }
                }
                assert(speaks_of(s, "returning"@));
            }
            if mark == Mark::End {
                assert(s[i] == ';');
                assert(end == i + 1);
                assert(s.skip(i + 1) =~= s.subrange(i + 1, s.len() as int));
                lemma_blank_marks(s, end, s.len() as int);
                assert(rest =~= seq![]);
                assert(list =~= seq![mark]);
            } else {
                assert forall|a: int, b: int|
                    0 <= a < b < list.len() && #[trigger] list[a] == Mark::End implies
                    #[trigger] list[b] == Mark::End by {
                    assert(a > 0);
                    assert(list[a] == rest[a - 1] && list[b] == rest[b - 1]);
                }
            }
            if list.contains(Mark::Key(Keyword::Returning)) {
                let k = list.index_of(Mark::Key(Keyword::Returning));
                assert(k > 0 && rest[k - 1] == list[k]);
            }
        }
    }
}

/// A statement that begins with the word for a change of rows, in capital or
/// small letters, is answered with a count, if it neither speaks of returned
/// rows nor goes on behind a semicolon: whatever else it says.
pub proof fn law_single_change_is_counted(before: Seq<char>, word: Seq<char>, after: Seq<char>)
    requires
        is_blank(before),
        spells_change(word),
        stands_apart(after),
        !speaks_of(before + word + after, "returning"@),
        forall|p: int|
            0 <= p < after.len() && #[trigger] after[p] == ';' ==> is_blank(after.skip(p + 1)),
    ensures
        counts_rows(before + word + after),
{
    let s = before + word + after;
    let at = before.len() as int;
    let end = at + word.len();
    lemma_keywords(word);
    assert(s.subrange(0, at) =~= before);
    lemma_blank_marks(s, 0, at);
    assert(s.subrange(at, end) =~= word);
    if end < s.len() {
        assert(s[end] == after[0]);
    }
    lemma_word_mark(s, at, word);
    assert forall|p: int| 0 <= p < s.len() && #[trigger] s[p] == ';' implies is_blank(
        s.skip(p + 1),
    ) by {
        if p < at {
            assert(is_white_space(before[p]));
        } else if p < end {
            assert(is_letter(word[p - at]));
        } else {
            assert(after[p - end] == ';');
            assert(s.skip(p + 1) =~= after.skip(p - end + 1));
        }
    }
    lemma_marks_tell(s, 0);
    assert(is_change(marks(s, 0)[0]));
}

/// A statement that begins with any other word is answered with no count,
/// unless that word is `WITH`.
pub proof fn law_other_statement_is_not_counted(
    before: Seq<char>,
    word: Seq<char>,
    after: Seq<char>,
)
    requires
        is_blank(before),
        is_lettered(word),
        word.len() > 0,
        !spells_change(word),
        !spells(word, "with"@),
        stands_apart(after),
    ensures
        !counts_rows(before + word + after),
{
    let s = before + word + after;
    let at = before.len() as int;
    let end = at + word.len();
    lemma_keywords(word);
    assert(s.subrange(0, at) =~= before);
    lemma_blank_marks(s, 0, at);
    assert(s.subrange(at, end) =~= word);
    if end < s.len() {
        assert(s[end] == after[0]);
    }
    lemma_word_mark(s, at, word);
    let list = marks(s, 0);
    assert(!is_change(list[0]) && list[0] != Mark::Key(Keyword::With));
}

/// Whether a word cannot go on from one side of a position to the other.
pub open spec fn is_seam(s: Seq<char>, i: int) -> bool {
    i == 0 || i >= s.len() || is_white_space(s[i - 1]) || s[i] == ';' || s[i] == '(' || s[i] == ')'
}

proof fn lemma_run_stops(s: Seq<char>, i: int, end: int)
    requires
        0 <= i < end <= s.len(),
        is_seam(s, end),
    ensures
        run_end(s, i, CharClass::Word) <= end,
    decreases end - i,
{
    if CharClass::Word.includes(s[i]) {
        if i + 1 < end {
            lemma_run_stops(s, i + 1, end);
        } else {
            assert(run_end(s, end, CharClass::Word) == end);
        }
    }
}

/// The marks of open text come before those of what follows it, and tell only
/// what stands in the text.
pub(crate) proof fn lemma_open_marks(s: Seq<char>, i: int, end: int) -> (front: Seq<Mark>)
    requires
        0 <= i <= end <= s.len(),
        is_open_text(s.subrange(i, end)),
        is_seam(s, end),
        end < s.len() && s[end] == '\'' ==> i == end || is_white_space(s[end - 1]),
    ensures
        marks(s, i) == front + marks(s, end),
        (forall|k: int|
            0 <= k < end - i ==> #[trigger] s.subrange(i, end)[k] != '(' && s.subrange(i, end)[k]
                != ')') ==> !front.contains(Mark::Open) && !front.contains(Mark::Close),
        (forall|k: int| 0 <= k < end - i ==> #[trigger] s.subrange(i, end)[k] != ';')
            ==> !front.contains(Mark::End),
        !speaks_of(s.subrange(i, end), "returning"@) ==> !front.contains(
            Mark::Key(Keyword::Returning),
        ),
    decreases end - i,
{
    let text = s.subrange(i, end);
    if i == end {
        assert(seq![] + marks(s, end) =~= marks(s, end));
        Seq::empty()
    } else {
        assert(s[i] == text[0]);
        if i + 1 < end {
            assert(s[i + 1] == text[1]);
        }
        assert(passage_end(s, i) == i);
        lemma_mark_at(s, i);
        lemma_run_stops(s, i, end);
        let (mark, next) = mark_at(s, i);
        assert(next <= end);
        let part = s.subrange(next, end);
        assert forall|k: int| 0 <= k < part.len() implies #[trigger] part[k] == text[k + next
            - i] by {}
        assert(is_open_text(part));
        let rest = lemma_open_marks(s, next, end);
        if !speaks_of(text, "returning"@) {
            if speaks_of(part, "returning"@) {
                let at = choose|at: int| #[trigger] reads_like(part, "returning"@, at);
                assert forall|k: int| 0 <= k < "returning"@.len() implies {
                    let c = text[at + next - i + k];
                    c == #[trigger] "returning"@[k] || 'A' <= c <= 'Z' && c as int + 32
                        == "returning"@[k] as int
                } by {
                    assert(part[at + k] == text[at + k + next - i]);
                }
                assert(reads_like(text, "returning"@, at + next - i));
            }
            if mark == Some(Mark::Key(Keyword::Returning)) {
                let stop = run_end(s, i, CharClass::Word);
                let word = s.subrange(i, stop);
                lemma_keywords(word);
                assert(reads_like(word, "returning"@, 0));
                assert forall|k: int| 0 <= k < "returning"@.len() implies {
                    let c = text[0 + k];
                    c == #[trigger] "returning"@[k] || 'A' <= c <= 'Z' && c as int + 32
                        == "returning"@[k] as int
                } by {
                    assert(word[0 + k] == text[0 + k]);
                }
                assert(reads_like(text, "returning"@, 0));
            }
        }
        match mark {
            Some(mark) => {
                let front = seq![mark] + rest;
                assert(seq![mark] + (rest + marks(s, end)) =~= front + marks(s, end));
                assert forall|m: Mark| #[trigger] front.contains(m) implies m == mark
                    || rest.contains(m) by {
                    let k = choose|k: int| 0 <= k < front.len() && front[k] == m;
                    if k > 0 {
                        assert(rest[k - 1] == m);
                    }
                }
                front
            },
            None => rest,
        }
    }
}

/// A statement that returns rows is answered with no count: the word for that
/// rules it out wherever it stands, outside of quotes and comments.
pub proof fn law_returned_rows_are_not_counted(
    before: Seq<char>,
    word: Seq<char>,
    after: Seq<char>,
)
    requires
        is_open_text(before),
        before.len() > 0 ==> is_white_space(before.last()),
        spells(word, "returning"@),
        stands_apart(after),
    ensures
        !counts_rows(before + word + after),
{
    let s = before + word + after;
    let at = before.len() as int;
    let end = at + word.len();
    lemma_keywords(word);
    assert(s.subrange(0, at) =~= before);
    assert(s.subrange(at, end) =~= word);
    assert(s[at] == word[0]);
    assert(is_letter(word[0]));
    if at > 0 {
        assert(s[at - 1] == before.last());
    }
    if end < s.len() {
        assert(s[end] == after[0]);
    }
    let front = lemma_open_marks(s, 0, at);
    lemma_word_mark(s, at, word);
    let list = marks(s, 0);
    assert(list[front.len() as int] == Mark::Key(Keyword::Returning));
    assert(list.contains(Mark::Key(Keyword::Returning)));
}

/// Several statements in one text are answered with no count: a word or a
/// bracket behind a semicolon rules that out.
pub proof fn law_several_statements_are_not_counted(
    before: Seq<char>,
    gap: Seq<char>,
    c: char,
    after: Seq<char>,
)
    requires
        is_open_text(before),
        is_blank(gap),
        is_letter(c) || c == '(',
        after.len() > 0 ==> after[0] != '\'',
    ensures
        !counts_rows(before + seq![';'] + gap + seq![c] + after),
{
    let s = before + seq![';'] + gap + seq![c] + after;
    let at = before.len() as int;
    let next = at + 1 + gap.len();
    assert(s.subrange(0, at) =~= before);
    assert(s[at] == ';');
    let front = lemma_open_marks(s, 0, at);
    assert(passage_end(s, at) == at);
    let behind = marks(s, at + 1);
    assert(marks(s, at) == seq![Mark::End] + behind);
    assert(s.subrange(at + 1, next) =~= gap);
    lemma_blank_marks(s, at + 1, next);
    assert(s[next] == c);
    if next + 1 < s.len() {
        assert(s[next + 1] == after[0]);
    }
    assert(passage_end(s, next) == next);
    lemma_mark_at(s, next);
    let mark = mark_at(s, next).0->Some_0;
    assert(mark != Mark::End);
    assert(behind == seq![mark] + marks(s, mark_at(s, next).1));
    let list = marks(s, 0);
    let k = front.len() as int;
    assert(list[k] == Mark::End);
    assert(list[k + 1] == behind[0]);
}

} // verus!
