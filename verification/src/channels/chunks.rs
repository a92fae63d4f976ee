//! Cutting a long text into pieces of a bounded number of bytes, at line ends
//! where there are any.

use crate::text;
use vstd::prelude::*;
use vstd::utf8::*;

verus! {

/// How many characters at the front of `s` make up at most `max` bytes.
pub open spec fn fitting(s: Seq<char>, max: nat) -> nat
    decreases s.len(),
{
    if s.len() == 0 || text::char_width(s[0]) > max {
        0
    } else {
        1 + fitting(s.drop_first(), (max - text::char_width(s[0])) as nat)
    }
}

/// The number of characters of `s` up to and with the last line feed; zero
/// where there is none.
pub open spec fn through_last_newline(s: Seq<char>) -> nat
    decreases s.len(),
{
    if s.len() == 0 {
        0
    } else if s.last() == '\n' {
        s.len()
    } else {
        through_last_newline(s.drop_last())
    }
}

/// Where the first piece of a text too long for one piece ends: behind the last
/// line feed within `max` bytes; without one, where the bytes are used up; and
/// behind the first character where not even that one fits.
pub open spec fn cut(s: Seq<char>, max: nat) -> nat {
    let n = fitting(s, max);
    let lines = through_last_newline(s.take(n as int));
    if lines > 0 {
        lines
    } else if n > 0 {
        n
    } else {
        1
    }
}

/// The pieces of a text that is not empty.
pub open spec fn pieces(s: Seq<char>, max: nat) -> Seq<Seq<char>>
    decreases s.len(),
{
    if s.len() == 0 {
        Seq::empty()
    } else if text::byte_len(s) <= max {
        seq![s]
    } else {
        let n = cut(s, max);
        if 0 < n <= s.len() {
            seq![s.take(n as int)] + pieces(s.skip(n as int), max)
        } else {
            seq![s]
        }
    }
}

/// The pieces of a text: itself where it fits.
pub open spec fn chunks(s: Seq<char>, max: nat) -> Seq<Seq<char>> {
    if text::byte_len(s) <= max {
        seq![s]
    } else {
        pieces(s, max)
    }
}

/// What fits is a prefix, and it is as long as `max` bytes allow.
pub proof fn lemma_fitting(s: Seq<char>, max: nat)
    ensures
        fitting(s, max) <= s.len(),
        text::byte_len(s.take(fitting(s, max) as int)) <= max,
        fitting(s, max) < s.len() ==> text::byte_len(s.take(fitting(s, max) as int + 1)) > max,
    decreases s.len(),
{
    let n = fitting(s, max);
    if s.len() == 0 || text::char_width(s[0]) > max {
        assert(s.take(0) =~= Seq::empty());
        if s.len() > 0 {
            assert(s.take(1).drop_last() =~= Seq::empty());
        }
    } else {
        let rest = s.drop_first();
        let left = (max - text::char_width(s[0])) as nat;
        lemma_fitting(rest, left);
        let first = seq![s[0]];
        assert(first.drop_last() =~= Seq::empty());
        assert(text::byte_len(first) == text::char_width(s[0])) by {
            reveal_with_fuel(text::byte_len, 2);
        }
        assert(s.take(n as int) =~= first + rest.take(n - 1));
        text::lemma_byte_len_add(first, rest.take(n - 1));
        if n < s.len() {
            assert(s.take(n as int + 1) =~= first + rest.take(n as int));
            text::lemma_byte_len_add(first, rest.take(n as int));
        }
    }
}

proof fn lemma_through_last_newline(s: Seq<char>)
    ensures
        through_last_newline(s) <= s.len(),
        through_last_newline(s) > 0 ==> s[through_last_newline(s) - 1] == '\n',
        forall|i: int| through_last_newline(s) <= i < s.len() ==> s[i] != '\n',
    decreases s.len(),
{
    if s.len() > 0 && s.last() != '\n' {
        let front = s.drop_last();
        lemma_through_last_newline(front);
        assert forall|i: int| through_last_newline(s) <= i < s.len() implies s[i] != '\n' by {
            if i < s.len() - 1 {
                assert(front[i] == s[i]);
            }
        }
    }
}

/// A text has at least as many bytes as any part at its front.
proof fn lemma_byte_len_take(s: Seq<char>, n: int)
    requires
        0 <= n <= s.len(),
    ensures
        text::byte_len(s.take(n)) <= text::byte_len(s),
{
    assert(s =~= s.take(n) + s.skip(n));
    text::lemma_byte_len_add(s.take(n), s.skip(n));
}

/// Where a text is cut: inside it, and within `max` bytes unless a single
/// character is wider than that.
pub proof fn lemma_cut(s: Seq<char>, max: nat)
    requires
        s.len() > 0,
    ensures
        0 < cut(s, max) <= s.len(),
        text::byte_len(s.take(cut(s, max) as int)) <= max || (cut(s, max) == 1
            && text::char_width(s[0]) > max),
{
    lemma_fitting(s, max);
    let n = fitting(s, max);
    let head = s.take(n as int);
    lemma_through_last_newline(head);
    let lines = through_last_newline(head);
    assert(head.take(lines as int) =~= s.take(lines as int));
    lemma_byte_len_take(head, lines as int);
    if n == 0 {
        assert(s.take(1).drop_last() =~= Seq::empty());
        reveal_with_fuel(text::byte_len, 2);
    }
}

/// The pieces of a text, put together again, are the text; none is empty; and
/// each has at most `max` bytes, but for a single character that is wider.
pub proof fn law_pieces(s: Seq<char>, max: nat)
    ensures
        text::concat_all(pieces(s, max)) == s,
        forall|i: int|
            0 <= i < pieces(s, max).len() ==> {
                &&& (#[trigger] pieces(s, max)[i]).len() > 0
                &&& text::byte_len(pieces(s, max)[i]) <= max || (pieces(s, max)[i].len() == 1
                    && text::char_width(pieces(s, max)[i][0]) > max)
            },
    decreases s.len(),
{
    if s.len() == 0 {
    } else if text::byte_len(s) <= max {
        lemma_concat_one(s, Seq::empty());
        assert(seq![s] + Seq::<Seq<char>>::empty() =~= seq![s]);
    } else {
        lemma_cut(s, max);
        let n = cut(s, max) as int;
        let rest = pieces(s.skip(n), max);
        law_pieces(s.skip(n), max);
        lemma_concat_one(s.take(n), rest);
        assert(s.take(n) + s.skip(n) =~= s);
        assert forall|i: int| 0 <= i < pieces(s, max).len() implies {
            &&& (#[trigger] pieces(s, max)[i]).len() > 0
            &&& text::byte_len(pieces(s, max)[i]) <= max || (pieces(s, max)[i].len() == 1
                && text::char_width(pieces(s, max)[i][0]) > max)
        } by {
            if i > 0 {
                assert(pieces(s, max)[i] == rest[i - 1]);
            } else {
                assert(pieces(s, max)[0] == s.take(n));
            }
        }
    }
}

proof fn lemma_concat_one(first: Seq<char>, rest: Seq<Seq<char>>)
    ensures
        text::concat_all(seq![first] + rest) == first + text::concat_all(rest),
    decreases rest.len(),
{
    let all = seq![first] + rest;
    if rest.len() == 0 {
        assert(all.drop_last() =~= Seq::empty());
        assert(all.last() == first);
        assert(text::concat_all(all.drop_last()) =~= Seq::empty());
        assert(text::concat_all(all) =~= first + text::concat_all(rest));
    } else {
        assert(all.drop_last() =~= seq![first] + rest.drop_last());
        lemma_concat_one(first, rest.drop_last());
        assert(all.last() == rest.last());
        assert(text::concat_all(all) =~= first + text::concat_all(rest));
    }
}

/// The chunks of a text, put together again, are the text; and each has at most
/// `max` bytes, but for a single character that is wider.
pub proof fn law_chunks(s: Seq<char>, max: nat)
    ensures
        text::concat_all(chunks(s, max)) == s,
        chunks(s, max).len() > 0,
        forall|i: int|
            0 <= i < chunks(s, max).len() ==> {
                text::byte_len(#[trigger] chunks(s, max)[i]) <= max || (chunks(s, max)[i].len() == 1
                    && text::char_width(chunks(s, max)[i][0]) > max)
            },
{
    if text::byte_len(s) <= max {
        lemma_concat_one(s, Seq::empty());
        assert(seq![s] + Seq::<Seq<char>>::empty() =~= seq![s]);
    } else {
        law_pieces(s, max);
    }
}

/// Where the first piece ends: it holds a line feed at its end or nowhere; and no more
/// of the text would fit but a part of a line behind a line feed.
proof fn lemma_first_piece(s: Seq<char>, max: nat)
    requires
        s.len() > 0,
        text::byte_len(s) > max,
    ensures
        ({
            let n = cut(s, max) as int;
            &&& 0 < n < s.len() || text::char_width(s[0]) > max
            &&& s.take(n).contains('\n') ==> s[n - 1] == '\n'
            &&& forall|m: int|
                n < m <= s.len() && text::byte_len(#[trigger] s.take(m)) <= max ==> s[n - 1]
                    == '\n' && !s.subrange(n, m).contains('\n')
        }),
{
    let n = cut(s, max) as int;
    let fit = fitting(s, max) as int;
    lemma_cut(s, max);
    lemma_fitting(s, max);
    let head = s.take(fit);
    lemma_through_last_newline(head);
    let lines = through_last_newline(head) as int;
    assert(s.take(s.len() as int) =~= s);
    if s.take(n).contains('\n') && fit > 0 {
        let q = choose|q: int| 0 <= q < n && s.take(n)[q] == '\n';
        assert(head[q] == '\n');
    }
    assert forall|m: int|
        n < m <= s.len() && text::byte_len(#[trigger] s.take(m)) <= max implies s[n - 1] == '\n'
        && !s.subrange(n, m).contains('\n') by {
        if m > fit {
            assert(s.take(m).take(fit + 1) =~= s.take(fit + 1));
            lemma_byte_len_take(s.take(m), fit + 1);
        }
        assert(lines > 0 && n == lines);
        assert(head[lines - 1] == s[n - 1]);
        if s.subrange(n, m).contains('\n') {
            let q = choose|q: int| 0 <= q < m - n && s.subrange(n, m)[q] == '\n';
            assert(head[n + q] == '\n');
        }
    }
}

/// Each piece but the last ends with a line, unless it lies within one; and it is as
/// long as the limit allows under that rule: more of what follows fits only behind a
/// line feed, and then not as far as the next.
pub proof fn law_pieces_break_at_lines(s: Seq<char>, max: nat, i: int)
    requires
        0 <= i < pieces(s, max).len() - 1,
    ensures
        ({
            let piece = pieces(s, max)[i];
            let rest = pieces(s, max).skip(i + 1).flatten();
            &&& piece.len() > 0
            &&& piece.contains('\n') ==> piece.last() == '\n'
            &&& forall|n: int|
                0 < n <= rest.len() && encode_utf8(piece + #[trigger] rest.take(n)).len() <= max
                    ==> piece.last() == '\n' && !rest.take(n).contains('\n')
        }),
    decreases s.len(),
{
    let all = pieces(s, max);
    let n = cut(s, max) as int;
    lemma_cut(s, max);
    let rest = pieces(s.skip(n), max);
    assert(all == seq![s.take(n)] + rest);
    if i == 0 {
        lemma_first_piece(s, max);
        law_pieces(s.skip(n), max);
        text::law_concat_all(rest);
        assert(all.skip(1) =~= rest);
        assert(all[0] == s.take(n));
        let tail = s.skip(n);
        assert(all.skip(1).flatten() == tail);
        assert(all[0].last() == s[n - 1]);
        assert forall|m: int|
            0 < m <= tail.len() && encode_utf8(all[0] + #[trigger] tail.take(m)).len() <= max
            implies all[0].last() == '\n' && !tail.take(m).contains('\n') by {
            assert(all[0] + tail.take(m) =~= s.take(n + m));
            text::lemma_byte_len_utf8(s.take(n + m));
            assert(s.subrange(n, n + m) =~= tail.take(m));
        }
    } else {
        law_pieces_break_at_lines(s.skip(n), max, i - 1);
        assert(all[i] == rest[i - 1]);
        assert(all.skip(i + 1) =~= rest.skip(i - 1 + 1));
        let last = all.skip(i + 1).flatten();
        assert forall|n: int|
            0 < n <= last.len() && encode_utf8(all[i] + #[trigger] last.take(n)).len() <= max
            implies all[i].last() == '\n' && !last.take(n).contains('\n') by {
            assert(encode_utf8(rest[i - 1] + last.take(n)).len() <= max);
        }
    }
}

/// So it is for the chunks of a text; and a text that fits is one chunk.
pub proof fn law_chunks_break_at_lines(s: Seq<char>, max: nat)
    ensures
        chunks(s, max).flatten() == s,
        encode_utf8(s).len() <= max ==> chunks(s, max) == seq![s],
        forall|i: int|
            0 <= i < chunks(s, max).len() ==> encode_utf8(#[trigger] chunks(s, max)[i]).len()
                <= max || chunks(s, max)[i].len() == 1,
        forall|i: int|
            #![trigger chunks(s, max)[i]]
            0 <= i < chunks(s, max).len() - 1 ==> {
                let piece = chunks(s, max)[i];
                let rest = chunks(s, max).skip(i + 1).flatten();
                &&& piece.len() > 0
                &&& piece.contains('\n') ==> piece.last() == '\n'
                &&& forall|n: int|
                    0 < n <= rest.len() && encode_utf8(piece + #[trigger] rest.take(n)).len()
                        <= max ==> piece.last() == '\n' && !rest.take(n).contains('\n')
            },
{
    law_chunks(s, max);
    text::law_concat_all(chunks(s, max));
    text::lemma_byte_len_utf8(s);
    assert forall|i: int| 0 <= i < chunks(s, max).len() implies encode_utf8(
        #[trigger] chunks(s, max)[i],
    ).len() <= max || chunks(s, max)[i].len() == 1 by {
        text::lemma_byte_len_utf8(chunks(s, max)[i]);
    }
    assert forall|i: int|
        #![trigger chunks(s, max)[i]]
        0 <= i < chunks(s, max).len() - 1 implies {
        let piece = chunks(s, max)[i];
        let rest = chunks(s, max).skip(i + 1).flatten();
        &&& piece.len() > 0
        &&& piece.contains('\n') ==> piece.last() == '\n'
        &&& forall|n: int|
            0 < n <= rest.len() && encode_utf8(piece + #[trigger] rest.take(n)).len() <= max
                ==> piece.last() == '\n' && !rest.take(n).contains('\n')
    } by {
        law_pieces_break_at_lines(s, max, i);
    }
}

/// How many characters of `v` from `from` on make up at most `max` bytes, and
/// whether they are all there are.
fn fitting_from(v: &Vec<char>, from: usize, max: usize) -> (res: usize)
    requires
        from <= v@.len(),
    ensures
        res == fitting(v@.skip(from as int), max as nat),
        from + res <= v.len(),
{
    let mut left: usize = max;
    let mut i: usize = from;
    while i < v.len()
        invariant
            from <= i <= v.len(),
            left <= max,
            fitting(v@.skip(from as int), max as nat) == (i - from) + fitting(
                v@.skip(i as int),
                left as nat,
            ),
        decreases v@.len() - i,
    {
        let w: usize = text::width_of(v[i]);
        assert(v@.skip(i as int).drop_first() =~= v@.skip(i + 1));
        if w > left {
            return i - from;
        }
        left -= w;
        i += 1;
    }
    i - from
}

/// The number of characters of `v[from..to]` up to and with the last line feed.
fn newline_in(v: &Vec<char>, from: usize, to: usize) -> (res: usize)
    requires
        from <= to <= v@.len(),
    ensures
        res == through_last_newline(v@.subrange(from as int, to as int)),
        from + res <= to,
{
    let mut end: usize = to;
    while end > from
        invariant
            from <= end <= to <= v@.len(),
            through_last_newline(v@.subrange(from as int, to as int)) == through_last_newline(
                v@.subrange(from as int, end as int),
            ),
        decreases end,
    {
        if v[end - 1] == '\n' {
            return end - from;
        }
        assert(v@.subrange(from as int, end as int).drop_last() =~= v@.subrange(
            from as int,
            end - 1,
        ));
        end -= 1;
    }
    0
}

/// Cuts `text` into chunks of at most `max` bytes.
pub fn split_chunks(text: &str, max: usize) -> (res: Vec<String>)
    ensures
        text::strs(res@) == chunks(text@, max as nat),
{
    let mut out: Vec<String> = Vec::new();
    let mut left: usize = text::len_bytes(text);
    if left <= max {
        out.push(text.to_owned());
        assert(text::strs(out@) =~= seq![text@]);
        return out;
    }
    let v = text::to_chars(text);
    let mut at: usize = 0;
    assert(v@.skip(0) =~= text@);
    assert(text::strs(out@) + pieces(v@.skip(0), max as nat) =~= chunks(text@, max as nat));
    while at < v.len()
        invariant
            at <= v@.len(),
            v@ == text@,
            left == text::byte_len(v@.skip(at as int)),
            text::strs(out@) + pieces(v@.skip(at as int), max as nat) == chunks(
                text@,
                max as nat,
            ),
        decreases v@.len() - at,
    {
        let ghost rest = v@.skip(at as int);
        let ghost before = text::strs(out@);
        if left <= max {
            let piece = text::from_range(&v, at, v.len());
            assert(piece@ =~= rest);
            out.push(piece);
            assert(text::strs(out@) =~= before + seq![rest]);
            return out;
        }
        let n: usize = fitting_from(&v, at, max);
        let lines: usize = newline_in(&v, at, at + n);
        assert(v@.subrange(at as int, at + n) =~= rest.take(n as int));
        let step: usize = if lines > 0 {
            lines
        } else if n > 0 {
            n
        } else {
            1
        };
        proof {
            lemma_cut(rest, max as nat);
            assert(step == cut(rest, max as nat));
            assert(rest =~= rest.take(step as int) + rest.skip(step as int));
            text::lemma_byte_len_add(rest.take(step as int), rest.skip(step as int));
        }
        let piece = text::from_range(&v, at, at + step);
        assert(piece@ =~= rest.take(step as int));
        let used: usize = text::len_bytes(piece.as_str());
        out.push(piece);
        assert(text::strs(out@) =~= before.push(piece@));
        assert(rest.skip(step as int) =~= v@.skip(at + step));
        assert(before + (seq![piece@] + pieces(rest.skip(step as int), max as nat))
            =~= text::strs(out@) + pieces(rest.skip(step as int), max as nat));
        left -= used;
        at += step;
    }
    assert(text::strs(out@) + pieces(v@.skip(at as int), max as nat) =~= text::strs(out@));
    out
}

} // verus!
