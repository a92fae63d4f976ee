//! The frontmatter of a description file: lines of YAML between two marks, above
//! the body.

use crate::text;
use vstd::prelude::*;

verus! {

broadcast use vstd::string::group_string_axioms;

/// The line that begins at `i`, without the line feed behind it.
pub open spec fn line_at(s: Seq<char>, i: int) -> Seq<char> {
    s.subrange(i, text::next_char(s, '\n', i))
}

/// Where the line behind the one that begins at `i` begins.
pub open spec fn after_line(s: Seq<char>, i: int) -> int {
    let k = text::next_char(s, '\n', i);
    if k < s.len() {
        k + 1
    } else {
        s.len() as int
    }
}

/// Whether a line ends a frontmatter: it reads `---`, or, where `dots` end one as
/// well, `...`.
pub open spec fn is_mark(line: Seq<char>, dots: bool) -> bool {
    text::trim(line) == "---"@ || (dots && text::trim(line) == "..."@)
}

/// How many marks of byte order stand in front.
pub open spec fn skipped(s: Seq<char>) -> int {
    s.len() - text::strip_front(s, '\u{feff}').len()
}

/// Where the frontmatter begins, behind the line that opens it. Marks of byte
/// order may stand in front.
pub open spec fn opening(s: Seq<char>) -> Option<int> {
    let plain = text::strip_front(s, '\u{feff}');
    if text::starts(plain, "---\n"@) {
        Some(skipped(s) + 4)
    } else if text::starts(plain, "---\r\n"@) {
        Some(skipped(s) + 5)
    } else {
        None
    }
}

/// Where the first line from `i` on begins that ends a frontmatter, `i` being
/// where a line begins.
pub open spec fn closing(s: Seq<char>, i: int, dots: bool) -> Option<int>
    decreases s.len() - i,
{
    if i < 0 || i >= s.len() {
        None
    } else if is_mark(line_at(s, i), dots) {
        Some(i)
    } else if i < after_line(s, i) {
        closing(s, after_line(s, i), dots)
    } else {
        None
    }
}

/// Where a frontmatter that stands in one line with its marks begins and ends, and
/// where the body begins: `--- name: x --- Body`.
pub open spec fn inline_marks(s: Seq<char>) -> Option<(int, int, int)> {
    if text::starts(text::strip_front(s, '\u{feff}'), "--- "@) {
        let head = skipped(s) + 4;
        match text::find_from(s, " ---"@, head) {
            Some(close) => Some((head, close, close + 4)),
            None => None,
        }
    } else {
        None
    }
}

/// Where the frontmatter begins, where the mark that ends it begins, and where the
/// body begins; none where there is no frontmatter between two marks.
pub open spec fn marks(s: Seq<char>) -> Option<(int, int, int)> {
    match opening(s) {
        None => inline_marks(s),
        Some(head) => match closing(s, head, false) {
            None => None,
            Some(close) => Some((head, close, after_line(s, close))),
        },
    }
}

/// The frontmatter; empty where there is none.
pub open spec fn head_of(s: Seq<char>) -> Seq<char> {
    match marks(s) {
        Some((head, close, _)) => s.subrange(head, close),
        None => Seq::empty(),
    }
}

/// What stands below the frontmatter; empty where there is none.
pub open spec fn body_of(s: Seq<char>) -> Seq<char> {
    match marks(s) {
        Some((_, _, body)) => s.skip(body),
        None => Seq::empty(),
    }
}

/// A line ends behind where it begins.
pub proof fn lemma_after_line(s: Seq<char>, i: int)
    requires
        0 <= i <= s.len(),
    ensures
        i <= text::next_char(s, '\n', i) <= after_line(s, i) <= s.len(),
        i < s.len() ==> i < after_line(s, i),
{
    text::lemma_next_char(s, '\n', i);
}

/// What is left without characters in front is the end of the text.
pub proof fn lemma_strip_front(s: Seq<char>, c: char)
    ensures
        text::strip_front(s, c).len() <= s.len(),
        text::strip_front(s, c) == s.skip(s.len() - text::strip_front(s, c).len()),
    decreases s.len(),
{
    if s.len() > 0 && s[0] == c {
        lemma_strip_front(s.drop_first(), c);
        let n = s.len() - text::strip_front(s, c).len();
        assert(s.skip(n) =~= s.drop_first().skip(n - 1));
    } else {
        assert(s.skip(0) =~= s);
    }
}

/// The frontmatter begins inside the text.
pub proof fn lemma_opening(s: Seq<char>)
    ensures
        opening(s) matches Some(head) ==> 4 <= head <= s.len(),
{
    reveal_strlit("---\n");
    reveal_strlit("---\r\n");
    lemma_strip_front(s, '\u{feff}');
}

/// The line that ends the frontmatter stands from `i` on.
pub proof fn lemma_closing(s: Seq<char>, i: int, dots: bool)
    requires
        0 <= i <= s.len(),
    ensures
        closing(s, i, dots) matches Some(close) ==> i <= close < s.len() && is_mark(
            line_at(s, close),
            dots,
        ),
    decreases s.len() - i,
{
    if i < s.len() && !is_mark(line_at(s, i), dots) {
        lemma_after_line(s, i);
        lemma_closing(s, after_line(s, i), dots);
    }
}

/// The marks stand in their order inside the text.
pub proof fn lemma_marks(s: Seq<char>)
    ensures
        marks(s) matches Some((head, close, body)) ==> 4 <= head <= close < body <= s.len(),
{
    lemma_opening(s);
    match opening(s) {
        Some(head) => {
            lemma_closing(s, head, false);
            match closing(s, head, false) {
                Some(close) => {
                    lemma_after_line(s, close);
                },
                None => {},
            }
        },
        None => {
            reveal_strlit("--- ");
            reveal_strlit(" ---");
            lemma_strip_front(s, '\u{feff}');
            if inline_marks(s) is Some {
                text::lemma_find_from(s, " ---"@, skipped(s) + 4);
            }
        },
    }
}

/// The line that begins at `j` ends at the first line feed, or with the text.
pub proof fn lemma_line_is(s: Seq<char>, j: int, e: int)
    requires
        0 <= j <= e <= s.len(),
        forall|q: int| j <= q < e ==> s[q] != '\n',
        e < s.len() ==> s[e] == '\n',
    ensures
        line_at(s, j) == s.subrange(j, e),
        after_line(s, j) == if e < s.len() {
            e + 1
        } else {
            e
        },
{
    text::lemma_next_char(s, '\n', j);
}

/// A line is the same without what stands before it.
pub proof fn lemma_line_behind(s: Seq<char>, n: int, j: int)
    requires
        0 <= n,
        0 <= j,
        n + j <= s.len(),
    ensures
        line_at(s.skip(n), j) == line_at(s, n + j),
        after_line(s.skip(n), j) + n == after_line(s, n + j),
{
    let e = text::next_char(s, '\n', n + j);
    text::lemma_next_char(s, '\n', n + j);
    lemma_line_is(s.skip(n), j, e - n);
    assert(s.skip(n).subrange(j, e - n) =~= s.subrange(n + j, e));
}

/// A line that ends a frontmatter holds no letters.
pub proof fn lemma_mark_chars(line: Seq<char>, dots: bool, k: int)
    requires
        is_mark(line, dots),
        0 <= k < line.len(),
    ensures
        text::is_white(line[k]) || line[k] == '-' || line[k] == '.',
{
    if !text::is_white(line[k]) {
        text::lemma_trim_keeps(line, k);
        reveal_strlit("---");
        reveal_strlit("...");
    }
}

/// Whether a line begins at `j`, one beginning at `i`.
pub open spec fn begins(s: Seq<char>, i: int, j: int) -> bool {
    j == i || (0 < j && s[j - 1] == '\n')
}

/// The line that ends the frontmatter is the first of its kind.
pub proof fn lemma_closing_first(s: Seq<char>, i: int, dots: bool)
    requires
        0 <= i <= s.len(),
    ensures
        closing(s, i, dots) matches Some(c) ==> begins(s, i, c) && forall|j: int|
            i <= j < c && #[trigger] begins(s, i, j) ==> !is_mark(line_at(s, j), dots),
    decreases s.len() - i,
{
    if i < s.len() && !is_mark(line_at(s, i), dots) {
        let n = after_line(s, i);
        lemma_after_line(s, i);
        text::lemma_next_char(s, '\n', i);
        lemma_closing_first(s, n, dots);
        lemma_closing(s, n, dots);
        match closing(s, n, dots) {
            Some(c) => {
                assert forall|j: int| i <= j < c && #[trigger] begins(s, i, j) implies !is_mark(
                    line_at(s, j),
                    dots,
                ) by {
                    if i < j {
                        assert(n <= j);
                        assert(begins(s, n, j));
                    }
                }
            },
            None => {},
        }
    }
}

/// The first line that ends a frontmatter is the one that is found.
pub proof fn lemma_closing_is(s: Seq<char>, i: int, c: int, dots: bool)
    requires
        0 <= i <= c < s.len(),
        begins(s, i, c),
        is_mark(line_at(s, c), dots),
        forall|j: int| i <= j < c && #[trigger] begins(s, i, j) ==> !is_mark(line_at(s, j), dots),
    ensures
        closing(s, i, dots) == Some(c),
    decreases c - i,
{
    if i < c {
        assert(begins(s, i, i));
        let n = after_line(s, i);
        lemma_after_line(s, i);
        text::lemma_next_char(s, '\n', i);
        assert(n <= c);
        assert(s[n - 1] == '\n');
        assert forall|j: int| n <= j < c && #[trigger] begins(s, n, j) implies !is_mark(
            line_at(s, j),
            dots,
        ) by {
            assert(begins(s, i, j));
        }
        lemma_closing_is(s, n, c, dots);
    }
}

/// Texts that begin alike, beyond the marks of byte order, have as many of them.
pub proof fn lemma_skipped_alike(s: Seq<char>, u: Seq<char>, n: int)
    requires
        skipped(s) < n <= s.len(),
        n <= u.len(),
        u.take(n) == s.take(n),
    ensures
        0 <= skipped(u) == skipped(s),
    decreases s.len(),
{
    lemma_strip_front(s, '\u{feff}');
    assert(u[0] == u.take(n)[0]);
    assert(s[0] == s.take(n)[0]);
    if s[0] == '\u{feff}' {
        assert forall|q: int| 0 <= q < n - 1 implies u.drop_first()[q] == s.drop_first()[q] by {
            assert(u[q + 1] == u.take(n)[q + 1]);
            assert(s[q + 1] == s.take(n)[q + 1]);
        }
        assert(u.drop_first().take(n - 1) =~= s.drop_first().take(n - 1));
        lemma_skipped_alike(s.drop_first(), u.drop_first(), n - 1);
    }
}

/// Texts that begin alike as far as the first mark goes are opened alike.
pub proof fn lemma_opened_alike(s: Seq<char>, u: Seq<char>, n: int)
    requires
        skipped(s) + 4 <= n <= s.len(),
        opening(s) matches Some(head) ==> head <= n,
        opening(s) is None ==> text::starts(text::strip_front(s, '\u{feff}'), "--- "@),
        n <= u.len(),
        u.take(n) == s.take(n),
    ensures
        opening(u) == opening(s),
        skipped(u) == skipped(s),
        opening(s) is None ==> text::starts(text::strip_front(u, '\u{feff}'), "--- "@),
{
    reveal_strlit("---\n");
    reveal_strlit("---\r\n");
    reveal_strlit("--- ");
    lemma_skipped_alike(s, u, n);
    lemma_strip_front(s, '\u{feff}');
    lemma_strip_front(u, '\u{feff}');
    let k = skipped(s);
    let a = text::strip_front(s, '\u{feff}');
    let b = text::strip_front(u, '\u{feff}');
    assert forall|q: int| 0 <= q < n - k implies a[q] == b[q] by {
        assert(u[k + q] == u.take(n)[k + q]);
        assert(s[k + q] == s.take(n)[k + q]);
    }
    assert(a.subrange(0, 4) =~= b.subrange(0, 4));
    if opening(s) == Some(k + 5) {
        assert(a.subrange(0, 5) =~= b.subrange(0, 5));
        assert(a[3] == a.subrange(0, 5)[3]);
        assert(b.subrange(0, 4)[3] == b[3]);
    } else {
        assert(a[3] == a.subrange(0, 4)[3]);
        if text::starts(b, "---\r\n"@) {
            assert(b[3] == b.subrange(0, 5)[3]);
        }
    }
}

/// How many marks of byte order stand in front.
fn count_skipped(v: &Vec<char>) -> (res: usize)
    ensures
        res == skipped(v@),
        res <= v@.len(),
        text::strip_front(v@, '\u{feff}') == v@.skip(res as int),
{
    let mut n: usize = 0;
    assert(v@.skip(0) =~= v@);
    while n < v.len() && v[n] == '\u{feff}'
        invariant
            n <= v@.len(),
            text::strip_front(v@, '\u{feff}') == text::strip_front(v@.skip(n as int), '\u{feff}'),
        decreases v@.len() - n,
    {
        assert(v@.skip(n as int).drop_first() =~= v@.skip(n + 1));
        n += 1;
    }
    n
}

/// Where the frontmatter begins.
pub fn find_opening(v: &Vec<char>) -> (res: Option<usize>)
    ensures
        match res {
            Some(head) => opening(v@) == Some(head as int) && head <= v@.len(),
            None => opening(v@) is None,
        },
{
    proof {
        reveal_strlit("---\n");
        reveal_strlit("---\r\n");
        lemma_strip_front(v@, '\u{feff}');
        lemma_opening(v@);
    }
    let n: usize = count_skipped(v);
    let plain = text::from_range(v, n, v.len());
    assert(plain@ =~= v@.skip(n as int));
    if text::starts_with(plain.as_str(), "---\n") {
        Some(n + 4)
    } else if text::starts_with(plain.as_str(), "---\r\n") {
        Some(n + 5)
    } else {
        None
    }
}

/// Where the line behind the one that begins at `i` begins.
pub fn find_after_line(v: &Vec<char>, i: usize) -> (res: usize)
    requires
        i <= v@.len(),
    ensures
        res == after_line(v@, i as int),
        i <= res <= v@.len(),
{
    let k: usize = text::next_char_at(v, '\n', i);
    if k < v.len() {
        k + 1
    } else {
        v.len()
    }
}

/// Where the first line from `from` on begins that ends a frontmatter.
pub fn find_closing(v: &Vec<char>, from: usize, dots: bool) -> (res: Option<usize>)
    requires
        from <= v@.len(),
    ensures
        match res {
            Some(close) => closing(v@, from as int, dots) == Some(close as int) && from <= close
                < v@.len(),
            None => closing(v@, from as int, dots) is None,
        },
{
    let mut i: usize = from;
    while i < v.len()
        invariant
            from <= i <= v@.len(),
            closing(v@, from as int, dots) == closing(v@, i as int, dots),
        decreases v@.len() - i,
    {
        proof {
            lemma_after_line(v@, i as int);
        }
        let end: usize = text::next_char_at(v, '\n', i);
        let line = text::from_range(v, i, end);
        assert(line@ =~= line_at(v@, i as int));
        let t = text::trimmed(line.as_str());
        if text::same(t.as_str(), "---") || (dots && text::same(t.as_str(), "...")) {
            return Some(i);
        }
        i = find_after_line(v, i);
    }
    None
}

/// Where a frontmatter that stands in one line with its marks begins and ends, and
/// where the body begins.
fn find_inline_marks(v: &Vec<char>) -> (res: Option<(usize, usize, usize)>)
    ensures
        match res {
            Some((head, close, body)) => inline_marks(v@) == Some(
                (head as int, close as int, body as int),
            ) && head <= close < body <= v@.len(),
            None => inline_marks(v@) is None,
        },
{
    proof {
        reveal_strlit("--- ");
        reveal_strlit(" ---");
    }
    let n: usize = count_skipped(v);
    let plain = text::from_range(v, n, v.len());
    assert(plain@ =~= v@.skip(n as int));
    if !text::starts_with(plain.as_str(), "--- ") {
        return None;
    }
    let mark = text::to_chars(" ---");
    match text::position_from(v, &mark, n + 4) {
        Some(close) => Some((n + 4, close, close + 4)),
        None => None,
    }
}

/// Where the frontmatter begins, where the mark that ends it begins, and where the
/// body begins.
pub fn find_marks(v: &Vec<char>) -> (res: Option<(usize, usize, usize)>)
    ensures
        match res {
            Some((head, close, body)) => marks(v@) == Some(
                (head as int, close as int, body as int),
            ) && head <= close < body <= v@.len(),
            None => marks(v@) is None,
        },
{
    proof {
        lemma_marks(v@);
    }
    match find_opening(v) {
        None => find_inline_marks(v),
        Some(head) => match find_closing(v, head, false) {
            None => None,
            Some(close) => Some((head, close, find_after_line(v, close))),
        },
    }
}

// ---------------------------------------------------------------------------
// What holds of the frontmatter
// ---------------------------------------------------------------------------

/// Whatever lines stand between the marks, as long as none of them is a mark itself, are
/// the frontmatter, all of them and as they are; all behind the second mark is the body.
/// A mark of byte order in front does not count.
pub proof fn law_head_and_body(marked: bool, head: Seq<char>, body: Seq<char>)
    requires
        head.len() > 0 ==> head.last() == '\n',
        forall|j: int|
            0 <= j < head.len() && (j == 0 || head[j - 1] == '\n') ==> text::trim(
                #[trigger] line_at(head, j),
            ) != seq!['-', '-', '-'],
    ensures
        ({
            let front = if marked {
                seq!['\u{feff}']
            } else {
                Seq::empty()
            };
            let s = front + seq!['-', '-', '-', '\n'] + head + seq!['-', '-', '-', '\n'] + body;
            &&& marks(s) is Some
            &&& head_of(s) == head
            &&& body_of(s) == body
        }),
{
    let front = if marked {
        seq!['\u{feff}']
    } else {
        Seq::empty()
    };
    let mark = seq!['-', '-', '-', '\n'];
    let pre = front + mark;
    let s = pre + head + mark + body;
    assert(s =~= pre + (head + mark + body));
    lemma_opened(marked, head + mark + body);
    lemma_closed(pre, head, body);
    let from = pre.len() as int;
    let close = from + head.len();
    lemma_mark_ends(pre + head, body);
    assert(marks(s) == Some((from, close, close + 4)));
    assert(s.subrange(from, close) =~= head);
    assert(s.skip(close + 4) =~= body);
}

pub proof fn lemma_opened(marked: bool, rest: Seq<char>)
    ensures
        ({
            let front = if marked {
                seq!['\u{feff}']
            } else {
                Seq::empty()
            };
            opening(front + seq!['-', '-', '-', '\n'] + rest) == Some(front.len() as int + 4)
        }),
{
    let front = if marked {
        seq!['\u{feff}']
    } else {
        Seq::empty()
    };
    let mark = seq!['-', '-', '-', '\n'];
    let s = front + mark + rest;
    let plain = mark + rest;
    reveal_strlit("---\n");
    assert("---\n"@ =~= mark);
    assert(plain[0] == '-');
    reveal_with_fuel(text::strip_front, 3);
    if marked {
        assert(s[0] == '\u{feff}');
        assert(s.drop_first() =~= plain);
    } else {
        assert(s =~= plain);
    }
    assert(plain.subrange(0, 4) =~= mark);
}

/// The line of a mark, and where the line behind it begins.
proof fn lemma_mark_ends(pre: Seq<char>, body: Seq<char>)
    ensures
        ({
            let s = pre + seq!['-', '-', '-', '\n'] + body;
            &&& line_at(s, pre.len() as int) == seq!['-', '-', '-']
            &&& after_line(s, pre.len() as int) == pre.len() + 4
            &&& is_mark(line_at(s, pre.len() as int), false)
        }),
{
    let mark = seq!['-', '-', '-', '\n'];
    let s = pre + mark + body;
    let close = pre.len() as int;
    assert(s[close] == '-' && s[close + 1] == '-' && s[close + 2] == '-' && s[close + 3] == '\n');
    text::lemma_next_char(s, '\n', close);
    let end = text::next_char(s, '\n', close);
    assert(end == close + 3);
    let dashes = seq!['-', '-', '-'];
    assert(line_at(s, close) =~= dashes);
    reveal_strlit("---");
    assert("---"@ =~= dashes);
    let at = text::law_trim(dashes);
    assert(!text::is_white(dashes[0]) && !text::is_white(dashes[2]));
    assert(dashes.subrange(at.0, at.1) =~= dashes);
}

proof fn lemma_closed(pre: Seq<char>, head: Seq<char>, body: Seq<char>)
    requires
        pre.len() > 0,
        pre.last() == '\n',
        head.len() > 0 ==> head.last() == '\n',
        forall|j: int|
            0 <= j < head.len() && (j == 0 || head[j - 1] == '\n') ==> text::trim(
                #[trigger] line_at(head, j),
            ) != seq!['-', '-', '-'],
    ensures
        closing(pre + head + seq!['-', '-', '-', '\n'] + body, pre.len() as int, false) == Some(
            pre.len() as int + head.len(),
        ),
{
    let mark = seq!['-', '-', '-', '\n'];
    let s = pre + head + mark + body;
    let from = pre.len() as int;
    let close = from + head.len();
    lemma_mark_ends(pre + head, body);
    assert(begins(s, from, close)) by {
        if head.len() > 0 {
            assert(s[close - 1] == head.last());
        }
    }
    assert forall|j: int| from <= j < close && #[trigger] begins(s, from, j) implies !is_mark(
        line_at(s, j),
        false,
    ) by {
        let i = j - from;
        if i > 0 {
            assert(s[j - 1] == head[i - 1]);
        }
        lemma_same_line(pre, head, mark + body, i);
        assert(s =~= pre + head + (mark + body));
        reveal_strlit("---");
        assert("---"@ =~= seq!['-', '-', '-']);
        assert(text::trim(line_at(head, i)) != "---"@);
    }
    lemma_closing_is(s, from, close, false);
}

/// A line of a part that ends with a line is the same line in the whole.
proof fn lemma_same_line(pre: Seq<char>, head: Seq<char>, rest: Seq<char>, i: int)
    requires
        0 <= i < head.len(),
        head.last() == '\n',
    ensures
        line_at(pre + head + rest, pre.len() + i) == line_at(head, i),
{
    let s = pre + head + rest;
    let from = pre.len() as int;
    text::lemma_next_char(s, '\n', from + i);
    text::lemma_next_char(head, '\n', i);
    let a = text::next_char(s, '\n', from + i);
    let b = text::next_char(head, '\n', i);
    assert(b < head.len()) by {
        if b >= head.len() {
            assert(head[head.len() - 1] != '\n');
        }
    }
    assert(s[from + b] == head[b]);
    assert(a == from + b) by {
        if a < from + b {
            assert(s[a] == head[a - from]);
        }
    }
    assert(s.subrange(from + i, a) =~= head.subrange(i, b));
}

/// A text that does not begin with the mark has no frontmatter, whatever follows.
pub proof fn law_no_frontmatter(s: Seq<char>)
    requires
        s.len() > 0 ==> s[0] != '-' && s[0] != '\u{feff}',
    ensures
        marks(s) is None,
        head_of(s).len() == 0,
        body_of(s).len() == 0,
{
    reveal_strlit("---\n");
    reveal_strlit("---\r\n");
    reveal_strlit("--- ");
    let plain = text::strip_front(s, '\u{feff}');
    assert(plain == s);
    if text::starts(plain, "---\n"@) {
        assert(plain.subrange(0, 4)[0] == '-');
    }
    if text::starts(plain, "---\r\n"@) {
        assert(plain.subrange(0, 5)[0] == '-');
    }
    if text::starts(plain, "--- "@) {
        assert(plain.subrange(0, 4)[0] == '-');
    }
}

/// Where the marks stand in one line with what is between them, all between the first and
/// the next is the frontmatter, and all behind that one the body.
pub proof fn law_inline(head: Seq<char>, body: Seq<char>)
    requires
        forall|i: int|
            0 <= i < head.len() ==> #[trigger] (head + " ---"@).subrange(i, i + 4) != " ---"@,
    ensures
        opening("--- "@ + head + " ---"@ + body) is None,
        head_of("--- "@ + head + " ---"@ + body) == head,
        body_of("--- "@ + head + " ---"@ + body) == body,
{
    reveal_strlit("--- ");
    reveal_strlit(" ---");
    reveal_strlit("---\n");
    reveal_strlit("---\r\n");
    let mark = " ---"@;
    let s = "--- "@ + head + mark + body;
    assert(s[0] == '-' && s[3] == ' ');
    assert(text::strip_front(s, '\u{feff}') == s);
    if text::starts(s, "---\n"@) {
        assert(s.subrange(0, 4)[3] == s[3]);
    }
    if text::starts(s, "---\r\n"@) {
        assert(s.subrange(0, 5)[3] == s[3]);
    }
    assert(s.subrange(0, 4) =~= "--- "@);
    let n = head.len() as int;
    assert(s.subrange(4 + n, 8 + n) =~= mark);
    assert forall|i: int| 4 <= i < 4 + n implies !text::occurs_at(s, mark, i) by {
        let j = i - 4;
        assert((head + mark).subrange(j, j + 4) != mark);
        assert(s.subrange(i, i + 4) =~= (head + mark).subrange(j, j + 4));
    }
    assert(text::occurs_at(s, mark, 4 + n));
    lemma_found_at(s, mark, 4, 4 + n);
    assert(s.subrange(4, 4 + n) =~= head);
    assert(s.skip(8 + n) =~= body);
}

proof fn lemma_found_at(s: Seq<char>, pat: Seq<char>, i: int, k: int)
    requires
        0 <= i <= k,
        k + pat.len() <= s.len(),
        text::occurs_at(s, pat, k),
        forall|j: int| i <= j < k ==> !text::occurs_at(s, pat, j),
    ensures
        text::find_from(s, pat, i) == Some(k),
    decreases k - i,
{
    if i < k {
        lemma_found_at(s, pat, i + 1, k);
    }
}

} // verus!
