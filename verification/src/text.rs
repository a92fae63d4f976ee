//! Text as sequences of characters: the searching, trimming, splitting and
//! rendering that the rest of the library is stated in.

use vstd::arithmetic::power::pow;
use vstd::prelude::*;
use vstd::string::*;
use vstd::utf8::*;

verus! {

broadcast use vstd::string::group_string_axioms;

/// Appends a character to a string (`String::push`): the old contents stay, the
/// character follows them.
pub assume_specification[ String::push ](s: &mut String, c: char)
    ensures
        final(s)@ == old(s)@.push(c),
;

/// The views of a sequence of strings.
pub open spec fn strs(v: Seq<String>) -> Seq<Seq<char>> {
    Seq::new(v.len(), |i: int| v[i]@)
}

/// The view of an optional string.
pub open spec fn opt(s: Option<String>) -> Option<Seq<char>> {
    match s {
        Some(t) => Some(t@),
        None => None,
    }
}

/// The views of a sequence of string pairs.
pub open spec fn pairs(v: Seq<(String, String)>) -> Seq<(Seq<char>, Seq<char>)> {
    Seq::new(v.len(), |i: int| (v[i].0@, v[i].1@))
}

/// Concatenation of all the pieces, in order.
pub open spec fn concat_all(pieces: Seq<Seq<char>>) -> Seq<char>
    decreases pieces.len(),
{
    if pieces.len() == 0 {
        Seq::empty()
    } else {
        concat_all(pieces.drop_last()) + pieces.last()
    }
}

/// The pieces in order with `sep` between neighbours.
pub open spec fn join(pieces: Seq<Seq<char>>, sep: Seq<char>) -> Seq<char>
    decreases pieces.len(),
{
    if pieces.len() == 0 {
        Seq::empty()
    } else if pieces.len() == 1 {
        pieces[0]
    } else {
        join(pieces.drop_last(), sep) + sep + pieces.last()
    }
}

// ---------------------------------------------------------------------------
// Strings and vectors of characters
// ---------------------------------------------------------------------------

/// The characters of `s`.
pub fn to_chars(s: &str) -> (res: Vec<char>)
    ensures
        res@ == s@,
{
    let mut out: Vec<char> = Vec::new();
    for c in it: s.chars()
        invariant
            it.seq() == s@,
            out@ == s@.take(it.index() as int),
    {
        out.push(c);
    }
    assert(s@.take(s@.len() as int) =~= s@);
    out
}

/// The string of the characters `v[from..to]`.
pub fn from_range(v: &Vec<char>, from: usize, to: usize) -> (res: String)
    requires
        from <= to <= v@.len(),
    ensures
        res@ == v@.subrange(from as int, to as int),
{
    let mut out = String::new();
    let mut i: usize = from;
    while i < to
        invariant
            from <= i <= to <= v@.len(),
            out@ == v@.subrange(from as int, i as int),
        decreases to - i,
    {
        out.push(v[i]);
        assert(v@.subrange(from as int, i as int).push(v@[i as int]) =~= v@.subrange(
            from as int,
            i + 1,
        ));
        i += 1;
    }
    out
}

/// A copy of `s` as an owned string.
pub fn owned(s: &str) -> (res: String)
    ensures
        res@ == s@,
{
    s.to_owned()
}

/// Whether two strings hold the same characters.
pub fn same(a: &str, b: &str) -> (res: bool)
    ensures
        res == (a@ == b@),
{
    let x = to_chars(a);
    let y = to_chars(b);
    if x.len() != y.len() {
        return false;
    }
    let mut i: usize = 0;
    while i < x.len()
        invariant
            x@ == a@,
            y@ == b@,
            x@.len() == y@.len(),
            i <= x@.len(),
            x@.take(i as int) == y@.take(i as int),
        decreases x@.len() - i,
    {
        if x[i] != y[i] {
            assert(a@[i as int] != b@[i as int]);
            return false;
        }
        assert(x@.take(i + 1) =~= x@.take(i as int).push(x@[i as int]));
        assert(y@.take(i + 1) =~= y@.take(i as int).push(y@[i as int]));
        i += 1;
    }
    assert(x@.take(x@.len() as int) =~= x@);
    assert(y@.take(y@.len() as int) =~= y@);
    true
}

/// `a` followed by `b`.
pub fn cat(a: &str, b: &str) -> (res: String)
    ensures
        res@ == a@ + b@,
{
    let mut out = a.to_owned();
    out.append(b);
    out
}

/// `a`, `b` and `c` in a row.
pub fn cat3(a: &str, b: &str, c: &str) -> (res: String)
    ensures
        res@ == a@ + b@ + c@,
{
    let mut out = a.to_owned();
    out.append(b);
    out.append(c);
    out
}

/// `a`, `b`, `c` and `d` in a row.
pub fn cat4(a: &str, b: &str, c: &str, d: &str) -> (res: String)
    ensures
        res@ == a@ + b@ + c@ + d@,
{
    let mut out = cat3(a, b, c);
    out.append(d);
    out
}

/// `a`, `b`, `c`, `d` and `e` in a row.
pub fn cat5(a: &str, b: &str, c: &str, d: &str, e: &str) -> (res: String)
    ensures
        res@ == a@ + b@ + c@ + d@ + e@,
{
    let mut out = cat4(a, b, c, d);
    out.append(e);
    out
}

/// The pieces in order with `sep` between neighbours.
pub fn join_strings(pieces: &[String], sep: &str) -> (res: String)
    ensures
        res@ == join(strs(pieces@), sep@),
{
    let mut out = String::new();
    let mut i: usize = 0;
    while i < pieces.len()
        invariant
            i <= pieces@.len(),
            out@ == join(strs(pieces@).take(i as int), sep@),
        decreases pieces@.len() - i,
    {
        let ghost before = strs(pieces@).take(i as int);
        let ghost after = strs(pieces@).take(i + 1);
        assert(after.drop_last() =~= before);
        assert(after.last() == pieces@[i as int]@);
        if i > 0 {
            out.append(sep);
        }
        out.append(pieces[i].as_str());
        proof {
            if i == 0 {
                assert(out@ =~= after[0]);
            }
        }
        i += 1;
    }
    assert(strs(pieces@).take(pieces@.len() as int) =~= strs(pieces@));
    out
}

// ---------------------------------------------------------------------------
// Characters
// ---------------------------------------------------------------------------

/// The characters with the Unicode property White_Space.
pub open spec fn is_white(c: char) -> bool {
    ||| 0x9 <= c as u32 <= 0xd
    ||| c as u32 == 0x20
    ||| c as u32 == 0x85
    ||| c as u32 == 0xa0
    ||| c as u32 == 0x1680
    ||| 0x2000 <= c as u32 <= 0x200a
    ||| c as u32 == 0x2028
    ||| c as u32 == 0x2029
    ||| c as u32 == 0x202f
    ||| c as u32 == 0x205f
    ||| c as u32 == 0x3000
}

/// Whether `c` is white space.
pub fn is_whitespace(c: char) -> (res: bool)
    ensures
        res == is_white(c),
{
    let n: u32 = c as u32;
    (0x9 <= n && n <= 0xd) || n == 0x20 || n == 0x85 || n == 0xa0 || n == 0x1680 || (0x2000 <= n && n
        <= 0x200a) || n == 0x2028 || n == 0x2029 || n == 0x202f || n == 0x205f || n == 0x3000
}

/// The control characters (Unicode general category Cc).
pub open spec fn is_control(c: char) -> bool {
    c as u32 <= 0x1f || 0x7f <= c as u32 <= 0x9f
}

/// Whether `c` is a control character.
pub fn is_control_char(c: char) -> (res: bool)
    ensures
        res == is_control(c),
{
    let n: u32 = c as u32;
    n <= 0x1f || (0x7f <= n && n <= 0x9f)
}

/// The number of bytes of `c` in UTF-8.
pub open spec fn char_width(c: char) -> nat {
    if c as u32 <= 0x7f {
        1
    } else if c as u32 <= 0x7ff {
        2
    } else if c as u32 <= 0xffff {
        3
    } else {
        4
    }
}

/// The number of bytes of `c` in UTF-8.
pub fn width_of(c: char) -> (res: usize)
    ensures
        res == char_width(c),
        1 <= res <= 4,
{
    let n: u32 = c as u32;
    if n <= 0x7f {
        1
    } else if n <= 0x7ff {
        2
    } else if n <= 0xffff {
        3
    } else {
        4
    }
}

/// The number of bytes of `s` in UTF-8.
pub open spec fn byte_len(s: Seq<char>) -> nat
    decreases s.len(),
{
    if s.len() == 0 {
        0
    } else {
        byte_len(s.drop_last()) + char_width(s.last())
    }
}

/// The byte length of two texts in a row is the sum of their byte lengths.
pub proof fn lemma_byte_len_add(a: Seq<char>, b: Seq<char>)
    ensures
        byte_len(a + b) == byte_len(a) + byte_len(b),
    decreases b.len(),
{
    if b.len() == 0 {
        assert(a + b =~= a);
    } else {
        assert((a + b).drop_last() =~= a + b.drop_last());
        assert((a + b).last() == b.last());
        lemma_byte_len_add(a, b.drop_last());
    }
}

/// A text has between one and four times as many bytes as characters.
pub proof fn lemma_byte_len_bounds(s: Seq<char>)
    ensures
        s.len() <= byte_len(s) <= 4 * s.len(),
    decreases s.len(),
{
    if s.len() > 0 {
        lemma_byte_len_bounds(s.drop_last());
    }
}

/// The byte length of a text is the length of its UTF-8 encoding.
pub proof fn lemma_byte_len_utf8(s: Seq<char>)
    ensures
        byte_len(s) == encode_utf8(s).len(),
    decreases s.len(),
{
    if s.len() > 0 {
        lemma_byte_len_utf8(s.drop_first());
        assert(s =~= seq![s[0]] + s.drop_first());
        lemma_byte_len_add(seq![s[0]], s.drop_first());
        reveal_with_fuel(byte_len, 2);
        assert(seq![s[0]].drop_last() =~= Seq::<char>::empty());
        assert(byte_len(seq![s[0]]) == char_width(s[0]));
        char_is_scalar(s[0]);
    }
}

/// The UTF-8 form of two texts is that of the one and that of the other.
pub proof fn lemma_encode_add(a: Seq<char>, b: Seq<char>)
    ensures
        encode_utf8(a + b) == encode_utf8(a) + encode_utf8(b),
    decreases a.len(),
{
    if a.len() == 0 {
        assert(a + b =~= b);
        assert(encode_utf8(a) + encode_utf8(b) =~= encode_utf8(b));
    } else {
        assert((a + b).drop_first() =~= a.drop_first() + b);
        lemma_encode_add(a.drop_first(), b);
        let first = encode_scalar(a[0] as u32);
        assert(first + (encode_utf8(a.drop_first()) + encode_utf8(b)) =~= (first + encode_utf8(
            a.drop_first(),
        )) + encode_utf8(b));
    }
}

/// The bytes of a character are a line feed where it is one, and else none of
/// them is.
pub proof fn lemma_newline_bytes(c: char)
    ensures
        encode_scalar(c as u32).len() > 0,
        c == '\n' ==> encode_scalar(c as u32) == seq![10u8],
        c != '\n' ==> forall|i: int|
            0 <= i < encode_scalar(c as u32).len() ==> #[trigger] encode_scalar(c as u32)[i] != 10,
{
    let v = c as u32;
    assert(10u32 & 0x7F == 10u32) by (bit_vector);
    assert((v & 0x7F) as u8 == 10 && v <= 0x7F ==> v == 10) by (bit_vector);
    assert((0xC0 | ((v >> 6) & 0x1F) as u8) != 10u8) by (bit_vector);
    assert((0xE0 | ((v >> 12) & 0x0F) as u8) != 10u8) by (bit_vector);
    assert((0xF0 | ((v >> 18) & 0x7) as u8) != 10u8) by (bit_vector);
    assert((0x80 | (v & 0x3F) as u8) != 10u8) by (bit_vector);
    assert((0x80 | ((v >> 6) & 0x3F) as u8) != 10u8) by (bit_vector);
    assert((0x80 | ((v >> 12) & 0x3F) as u8) != 10u8) by (bit_vector);
    if c == '\n' {
        assert(encode_scalar(v) =~= seq![10u8]);
    } else {
        char_is_scalar(c);
        char_u32_cast(c, v);
    }
}

/// The number of bytes of `s` in UTF-8.
pub fn len_bytes(s: &str) -> (res: usize)
    ensures
        res == byte_len(s@),
{
    proof {
        lemma_byte_len_utf8(s@);
    }
    s.as_bytes().len()
}

/// What is left of `s` behind its first `n` bytes; none where they end inside a
/// character or there are not so many.
pub open spec fn behind_bytes(s: Seq<char>, n: nat) -> Option<Seq<char>>
    decreases s.len(),
{
    if n == 0 {
        Some(s)
    } else if s.len() == 0 || char_width(s[0]) > n {
        None
    } else {
        behind_bytes(s.drop_first(), (n - char_width(s[0])) as nat)
    }
}

/// What is left behind some bytes is no longer than the whole.
pub proof fn lemma_behind_is_shorter(s: Seq<char>, n: nat)
    ensures
        behind_bytes(s, n) matches Some(rest) ==> rest.len() <= s.len(),
    decreases s.len(),
{
    if n > 0 && s.len() > 0 && char_width(s[0]) <= n {
        lemma_behind_is_shorter(s.drop_first(), (n - char_width(s[0])) as nat);
    }
}

/// What is left of `s` behind its first `n` bytes.
pub fn suffix_behind(s: &str, n: usize) -> (res: Option<String>)
    ensures
        opt(res) == behind_bytes(s@, n as nat),
{
    let v = to_chars(s);
    let mut i: usize = 0;
    let mut left: usize = n;
    assert(v@.skip(0) =~= s@);
    while left > 0
        invariant
            i <= v@.len(),
            v@ == s@,
            behind_bytes(s@, n as nat) == behind_bytes(v@.skip(i as int), left as nat),
        decreases left,
    {
        if i == v.len() {
            return None;
        }
        let w: usize = width_of(v[i]);
        if w > left {
            return None;
        }
        assert(v@.skip(i as int).drop_first() =~= v@.skip(i + 1));
        left -= w;
        i += 1;
    }
    let res = from_range(&v, i, v.len());
    assert(res@ =~= v@.skip(i as int));
    Some(res)
}

// ---------------------------------------------------------------------------
// Trimming
// ---------------------------------------------------------------------------

/// `s` without its leading white space.
pub open spec fn trim_start(s: Seq<char>) -> Seq<char>
    decreases s.len(),
{
    if s.len() > 0 && is_white(s[0]) {
        trim_start(s.drop_first())
    } else {
        s
    }
}

/// `s` without its trailing white space.
pub open spec fn trim_end(s: Seq<char>) -> Seq<char>
    decreases s.len(),
{
    if s.len() > 0 && is_white(s.last()) {
        trim_end(s.drop_last())
    } else {
        s
    }
}

/// `s` without white space at either end.
pub open spec fn trim(s: Seq<char>) -> Seq<char> {
    trim_end(trim_start(s))
}

/// Without space in front all that is no space is still there.
proof fn lemma_trim_start_keeps(s: Seq<char>, k: int)
    requires
        0 <= k < s.len(),
        !is_white(s[k]),
    ensures
        trim_start(s).contains(s[k]),
    decreases s.len(),
{
    if is_white(s[0]) {
        assert(s.drop_first()[k - 1] == s[k]);
        lemma_trim_start_keeps(s.drop_first(), k - 1);
    }
}

/// Without space at the end all that is no space is still there.
proof fn lemma_trim_end_keeps(s: Seq<char>, k: int)
    requires
        0 <= k < s.len(),
        !is_white(s[k]),
    ensures
        trim_end(s).contains(s[k]),
    decreases s.len(),
{
    if is_white(s.last()) {
        assert(s.drop_last()[k] == s[k]);
        lemma_trim_end_keeps(s.drop_last(), k);
    }
}

/// Without space around it a text is a part of what it was, and begins with
/// something else than space.
pub proof fn lemma_trim_part(s: Seq<char>) -> (i: int)
    ensures
        0 <= i <= i + trim(s).len() <= s.len(),
        trim(s) == s.subrange(i, i + trim(s).len()),
        trim(s).len() > 0 ==> !is_white(trim(s)[0]),
    decreases s.len(),
{
    if s.len() > 0 && is_white(s[0]) {
        let i = lemma_trim_part(s.drop_first());
        assert(s.subrange(i + 1, i + 1 + trim(s).len()) =~= s.drop_first().subrange(
            i,
            i + trim(s).len(),
        ));
        i + 1
    } else {
        lemma_trim_end_part(s);
        0
    }
}

/// Without space at the end a text is the beginning of what it was.
proof fn lemma_trim_end_part(s: Seq<char>)
    ensures
        trim_end(s).len() <= s.len(),
        trim_end(s) == s.subrange(0, trim_end(s).len() as int),
    decreases s.len(),
{
    if s.len() > 0 && is_white(s.last()) {
        lemma_trim_end_part(s.drop_last());
        assert(s.subrange(0, trim_end(s).len() as int) =~= s.drop_last().subrange(
            0,
            trim_end(s).len() as int,
        ));
    } else {
        assert(s.subrange(0, s.len() as int) =~= s);
    }
}

/// Without space around it a text still holds all that is no space.
pub proof fn lemma_trim_keeps(s: Seq<char>, k: int)
    requires
        0 <= k < s.len(),
        !is_white(s[k]),
    ensures
        trim(s).contains(s[k]),
{
    lemma_trim_start_keeps(s, k);
    let at = choose|at: int|
        0 <= at < trim_start(s).len() && #[trigger] trim_start(s)[at] == s[k];
    lemma_trim_end_keeps(trim_start(s), at);
}

/// A copy of `s` without its leading white space.
pub fn trimmed_start(s: &str) -> (res: String)
    ensures
        res@ == trim_start(s@),
{
    let v = to_chars(s);
    let mut i: usize = 0;
    assert(v@.skip(0) =~= s@);
    while i < v.len() && is_whitespace(v[i])
        invariant
            i <= v@.len(),
            v@ == s@,
            trim_start(v@.skip(i as int)) == trim_start(s@),
        decreases v@.len() - i,
    {
        assert(v@.skip(i as int).drop_first() =~= v@.skip(i + 1));
        i += 1;
    }
    from_range(&v, i, v.len())
}

/// A copy of `s` without its trailing white space.
pub fn trimmed_end(s: &str) -> (res: String)
    ensures
        res@ == trim_end(s@),
{
    let v = to_chars(s);
    let mut n: usize = v.len();
    assert(v@.take(n as int) =~= s@);
    while n > 0 && is_whitespace(v[n - 1])
        invariant
            n <= v@.len(),
            v@ == s@,
            trim_end(v@.take(n as int)) == trim_end(s@),
        decreases n,
    {
        assert(v@.take(n as int).drop_last() =~= v@.take(n - 1));
        n -= 1;
    }
    let res = from_range(&v, 0, n);
    assert(v@.subrange(0, n as int) =~= v@.take(n as int));
    res
}

/// A copy of `s` without white space at either end.
pub fn trimmed(s: &str) -> (res: String)
    ensures
        res@ == trim(s@),
{
    let t = trimmed_start(s);
    trimmed_end(t.as_str())
}

/// Whether nothing but white space is in `s`.
pub fn is_blank(s: &str) -> (res: bool)
    ensures
        res == (trim(s@).len() == 0),
{
    let t = trimmed(s);
    t.as_str().is_empty()
}

/// Copies of pairs of texts.
pub fn copy_pairs(v: &Vec<(String, String)>) -> (res: Vec<(String, String)>)
    ensures
        pairs(res@) == pairs(v@),
{
    let mut out: Vec<(String, String)> = Vec::new();
    let mut i: usize = 0;
    while i < v.len()
        invariant
            i <= v@.len(),
            pairs(out@) == pairs(v@).take(i as int),
        decreases v@.len() - i,
    {
        let ghost before = pairs(out@);
        out.push((v[i].0.clone(), v[i].1.clone()));
        assert(pairs(out@) =~= before.push((v@[i as int].0@, v@[i as int].1@)));
        assert(pairs(v@).take(i + 1) =~= pairs(v@).take(i as int).push(
            (v@[i as int].0@, v@[i as int].1@),
        ));
        i += 1;
    }
    assert(pairs(v@).take(v@.len() as int) =~= pairs(v@));
    out
}

/// Copies of texts.
pub fn copies(v: &Vec<String>) -> (res: Vec<String>)
    ensures
        strs(res@) == strs(v@),
{
    let mut out: Vec<String> = Vec::new();
    let mut i: usize = 0;
    while i < v.len()
        invariant
            i <= v@.len(),
            strs(out@) == strs(v@).take(i as int),
        decreases v@.len() - i,
    {
        let ghost before = strs(out@);
        out.push(v[i].clone());
        assert(strs(out@) =~= before.push(v@[i as int]@));
        assert(strs(v@).take(i + 1) =~= strs(v@).take(i as int).push(v@[i as int]@));
        i += 1;
    }
    assert(strs(v@).take(v@.len() as int) =~= strs(v@));
    out
}

/// `s` without the characters `c` at its front.
pub open spec fn strip_front(s: Seq<char>, c: char) -> Seq<char>
    decreases s.len(),
{
    if s.len() > 0 && s[0] == c {
        strip_front(s.drop_first(), c)
    } else {
        s
    }
}

/// `s` without the characters `c` at its end.
pub open spec fn strip_back(s: Seq<char>, c: char) -> Seq<char>
    decreases s.len(),
{
    if s.len() > 0 && s.last() == c {
        strip_back(s.drop_last(), c)
    } else {
        s
    }
}

/// `s` without the characters `c` at its ends.
pub open spec fn strip_char(s: Seq<char>, c: char) -> Seq<char> {
    strip_back(strip_front(s, c), c)
}

/// `s` without the characters `c` at its ends.
pub fn stripped(s: &str, c: char) -> (res: String)
    ensures
        res@ == strip_char(s@, c),
{
    let v = to_chars(s);
    let mut from: usize = 0;
    assert(v@.skip(0) =~= s@);
    while from < v.len() && v[from] == c
        invariant
            from <= v@.len(),
            v@ == s@,
            strip_front(s@, c) == strip_front(v@.skip(from as int), c),
        decreases v@.len() - from,
    {
        assert(v@.skip(from as int).drop_first() =~= v@.skip(from + 1));
        from += 1;
    }
    let ghost front = v@.skip(from as int);
    assert(strip_front(s@, c) == front);
    let mut to: usize = v.len();
    assert(v@.subrange(from as int, to as int) =~= front);
    while to > from && v[to - 1] == c
        invariant
            from <= to <= v@.len(),
            strip_back(front, c) == strip_back(v@.subrange(from as int, to as int), c),
        decreases to,
    {
        assert(v@.subrange(from as int, to as int).drop_last() =~= v@.subrange(
            from as int,
            to - 1,
        ));
        to -= 1;
    }
    from_range(&v, from, to)
}

/// `s` without the characters `c` at its front.
pub fn stripped_front(s: &str, c: char) -> (res: String)
    ensures
        res@ == strip_front(s@, c),
{
    let v = to_chars(s);
    let mut from: usize = 0;
    assert(v@.skip(0) =~= s@);
    while from < v.len() && v[from] == c
        invariant
            from <= v@.len(),
            v@ == s@,
            strip_front(s@, c) == strip_front(
                v@.skip(from as int),
                c,
            ),
        decreases v@.len() - from,
    {
        assert(v@.skip(from as int).drop_first() =~= v@.skip(from + 1));
        from += 1;
    }
    let res = from_range(&v, from, v.len());
    assert(res@ =~= v@.skip(from as int));
    res
}

// ---------------------------------------------------------------------------
// Searching
// ---------------------------------------------------------------------------

/// Whether `pat` stands in `s` at position `i`.
pub open spec fn occurs_at(s: Seq<char>, pat: Seq<char>, i: int) -> bool {
    0 <= i && i + pat.len() <= s.len() && s.subrange(i, i + pat.len()) == pat
}

/// Whether `pat` stands anywhere in `s`.
pub open spec fn contains(s: Seq<char>, pat: Seq<char>) -> bool {
    exists|i: int| occurs_at(s, pat, i)
}

/// The first position from `i` on at which `pat` stands in `s`.
pub open spec fn find_from(s: Seq<char>, pat: Seq<char>, i: int) -> Option<int>
    decreases s.len() + 1 - i,
{
    if i < 0 || i + pat.len() > s.len() {
        None
    } else if occurs_at(s, pat, i) {
        Some(i)
    } else {
        find_from(s, pat, i + 1)
    }
}

/// The first position at which `pat` stands in `s`.
pub open spec fn find(s: Seq<char>, pat: Seq<char>) -> Option<int> {
    find_from(s, pat, 0)
}

/// The last position up to `i` at which `pat` stands in `s`.
pub open spec fn rfind_upto(s: Seq<char>, pat: Seq<char>, i: int) -> Option<int>
    decreases i + 1,
{
    if i < 0 {
        None
    } else if occurs_at(s, pat, i) {
        Some(i)
    } else {
        rfind_upto(s, pat, i - 1)
    }
}

/// The last position at which `pat` stands in `s`.
pub open spec fn rfind(s: Seq<char>, pat: Seq<char>) -> Option<int> {
    rfind_upto(s, pat, s.len() - pat.len())
}

/// What `find_from` returns is the least occurrence from `i` on.
pub proof fn lemma_find_from(s: Seq<char>, pat: Seq<char>, i: int)
    requires
        0 <= i,
    ensures
        match find_from(s, pat, i) {
            Some(k) => i <= k && occurs_at(s, pat, k) && forall|j: int|
                i <= j < k ==> !occurs_at(s, pat, j),
            None => forall|j: int| i <= j ==> !occurs_at(s, pat, j),
        },
    decreases s.len() + 1 - i,
{
    if i + pat.len() <= s.len() && !occurs_at(s, pat, i) {
        lemma_find_from(s, pat, i + 1);
    }
}

/// Whether `pat` stands in `s` at position `i`.
pub fn occurs(s: &Vec<char>, pat: &Vec<char>, i: usize) -> (res: bool)
    ensures
        res == occurs_at(s@, pat@, i as int),
{
    if i > s.len() || s.len() - i < pat.len() {
        return false;
    }
    let mut j: usize = 0;
    while j < pat.len()
        invariant
            j <= pat@.len(),
            i + pat@.len() <= s.len(),
            forall|k: int| 0 <= k < j ==> s@[i + k] == #[trigger] pat@[k],
        decreases pat@.len() - j,
    {
        if s[i + j] != pat[j] {
            assert(s@.subrange(i as int, i + pat@.len())[j as int] != pat@[j as int]);
            return false;
        }
        j += 1;
    }
    assert(s@.subrange(i as int, i + pat@.len()) =~= pat@);
    true
}

/// The first position from `from` on at which `pat` stands in `s`.
pub fn position_from(s: &Vec<char>, pat: &Vec<char>, from: usize) -> (res: Option<usize>)
    requires
        from <= s@.len(),
    ensures
        match res {
            Some(k) => find_from(s@, pat@, from as int) == Some(k as int) && from <= k && k
                + pat@.len() <= s.len() && occurs_at(s@, pat@, k as int),
            None => find_from(s@, pat@, from as int) is None,
        },
{
    let mut i: usize = from;
    while i <= s.len() && s.len() - i >= pat.len()
        invariant
            from <= i <= s@.len() + 1,
            find_from(s@, pat@, from as int) == find_from(s@, pat@, i as int),
        decreases s@.len() + 1 - i,
    {
        if occurs(s, pat, i) {
            return Some(i);
        }
        if i == s.len() {
            assert(find_from(s@, pat@, i + 1) is None);
            return None;
        }
        i += 1;
    }
    None
}

/// The first position at which `pat` stands in `s`.
pub fn position(s: &Vec<char>, pat: &str) -> (res: Option<usize>)
    ensures
        match res {
            Some(k) => find(s@, pat@) == Some(k as int) && k + pat@.len() <= s.len()
                && occurs_at(s@, pat@, k as int),
            None => find(s@, pat@) is None,
        },
{
    let p = to_chars(pat);
    position_from(s, &p, 0)
}

/// The last position at which `pat` stands in `s`.
pub fn last_position(s: &Vec<char>, pat: &str) -> (res: Option<usize>)
    ensures
        match res {
            Some(k) => rfind(s@, pat@) == Some(k as int) && k + pat@.len() <= s.len()
                && occurs_at(s@, pat@, k as int),
            None => rfind(s@, pat@) is None,
        },
{
    let p = to_chars(pat);
    if p.len() > s.len() {
        return None;
    }
    let mut i: usize = s.len() - p.len();
    loop
        invariant
            p@ == pat@,
            i + p@.len() <= s@.len(),
            rfind(s@, pat@) == rfind_upto(s@, pat@, i as int),
        decreases i,
    {
        if occurs(s, &p, i) {
            return Some(i);
        }
        if i == 0 {
            assert(rfind_upto(s@, pat@, -1) is None);
            return None;
        }
        i -= 1;
    }
}

/// Whether `pat` stands anywhere in `s`.
pub fn has(s: &str, pat: &str) -> (res: bool)
    ensures
        res == contains(s@, pat@),
{
    let v = to_chars(s);
    proof {
        lemma_find_from(s@, pat@, 0);
    }
    match position(&v, pat) {
        Some(_) => true,
        None => false,
    }
}

/// What stands between two texts stands in the whole.
pub proof fn lemma_middle_is_contained(a: Seq<char>, pat: Seq<char>, b: Seq<char>)
    ensures
        contains(a + pat + b, pat),
{
    let s = a + pat + b;
    assert(s.subrange(a.len() as int, (a.len() + pat.len()) as int) =~= pat);
    assert(occurs_at(s, pat, a.len() as int));
}

/// What stands in a part of a text stands in the whole.
pub proof fn lemma_part_is_contained(a: Seq<char>, part: Seq<char>, b: Seq<char>, pat: Seq<char>)
    requires
        contains(part, pat),
    ensures
        contains(a + part + b, pat),
{
    let i = choose|i: int| occurs_at(part, pat, i);
    let s = a + part + b;
    let at = a.len() + i;
    assert(s.subrange(at, at + pat.len()) =~= part.subrange(i, i + pat.len()));
    assert(occurs_at(s, pat, at));
}

/// What stands in one of the pieces stands in the pieces put together.
pub proof fn lemma_piece_is_contained(pieces: Seq<Seq<char>>, sep: Seq<char>, k: int, pat: Seq<char>)
    requires
        0 <= k < pieces.len(),
        contains(pieces[k], pat),
    ensures
        contains(join(pieces, sep), pat),
    decreases pieces.len(),
{
    if pieces.len() > 1 {
        let front = join(pieces.drop_last(), sep);
        let whole = join(pieces, sep);
        if k == pieces.len() - 1 {
            lemma_part_is_contained(front + sep, pieces.last(), Seq::empty(), pat);
            assert(whole =~= (front + sep) + pieces.last() + Seq::<char>::empty());
        } else {
            assert(pieces.drop_last()[k] == pieces[k]);
            lemma_piece_is_contained(pieces.drop_last(), sep, k, pat);
            lemma_part_is_contained(Seq::empty(), front, sep + pieces.last(), pat);
            assert(whole =~= Seq::<char>::empty() + front + (sep + pieces.last()));
        }
    }
}

/// Whether `s` begins with `pat`.
pub open spec fn starts(s: Seq<char>, pat: Seq<char>) -> bool {
    occurs_at(s, pat, 0)
}

/// Whether `s` ends with `pat`.
pub open spec fn ends(s: Seq<char>, pat: Seq<char>) -> bool {
    occurs_at(s, pat, s.len() - pat.len())
}

/// Whether `s` begins with `pat`.
pub fn starts_with(s: &str, pat: &str) -> (res: bool)
    ensures
        res == starts(s@, pat@),
{
    let v = to_chars(s);
    let p = to_chars(pat);
    occurs(&v, &p, 0)
}

/// Whether `s` ends with `pat`.
pub fn ends_with(s: &str, pat: &str) -> (res: bool)
    ensures
        res == ends(s@, pat@),
{
    let v = to_chars(s);
    let p = to_chars(pat);
    if p.len() > v.len() {
        return false;
    }
    occurs(&v, &p, v.len() - p.len())
}

/// What follows `pat` in `s`, where `s` begins with it.
pub fn after_prefix(s: &str, pat: &str) -> (res: Option<String>)
    ensures
        match res {
            Some(rest) => starts(s@, pat@) && rest@ == s@.skip(pat@.len() as int),
            None => !starts(s@, pat@),
        },
{
    let v = to_chars(s);
    let p = to_chars(pat);
    if occurs(&v, &p, 0) {
        let rest = from_range(&v, p.len(), v.len());
        assert(v@.subrange(p@.len() as int, v@.len() as int) =~= s@.skip(pat@.len() as int));
        Some(rest)
    } else {
        None
    }
}

// ---------------------------------------------------------------------------
// Replacing
// ---------------------------------------------------------------------------

/// `s` from position `i` on, with each occurrence of `pat`, found from left to
/// right without overlap, replaced by `to`.
pub open spec fn replace_from(s: Seq<char>, pat: Seq<char>, to: Seq<char>, i: int) -> Seq<char>
    decreases s.len() - i,
    when 0 <= i <= s.len() && pat.len() > 0
{
    match find_from(s, pat, i) {
        None => s.skip(i),
        Some(k) => if i <= k && k + pat.len() <= s.len() {
            s.subrange(i, k) + to + replace_from(s, pat, to, k + pat.len())
        } else {
            s.skip(i)
        },
    }
}

/// `s` with each occurrence of `pat` replaced by `to`.
pub open spec fn replace(s: Seq<char>, pat: Seq<char>, to: Seq<char>) -> Seq<char> {
    replace_from(s, pat, to, 0)
}

/// A copy of `s` with each occurrence of `pat` replaced by `to`.
pub fn replaced(s: &str, pat: &str, to: &str) -> (res: String)
    requires
        pat@.len() > 0,
    ensures
        res@ == replace(s@, pat@, to@),
{
    let v = to_chars(s);
    let p = to_chars(pat);
    let mut out = String::new();
    let mut i: usize = 0;
    loop
        invariant
            v@ == s@,
            p@ == pat@,
            p@.len() > 0,
            i <= v@.len(),
            out@ + replace_from(s@, pat@, to@, i as int) == replace(s@, pat@, to@),
        decreases v@.len() - i,
    {
        match position_from(&v, &p, i) {
            None => {
                let rest = from_range(&v, i, v.len());
                assert(v@.subrange(i as int, v@.len() as int) =~= s@.skip(i as int));
                out.append(rest.as_str());
                return out;
            },
            Some(k) => {
                let piece = from_range(&v, i, k);
                let ghost before = out@;
                out.append(piece.as_str());
                out.append(to);
                assert(out@ + replace_from(s@, pat@, to@, k + p@.len()) =~= before + (s@.subrange(
                    i as int,
                    k as int,
                ) + to@ + replace_from(s@, pat@, to@, k + p@.len())));
                i = k + p.len();
            },
        }
    }
}

/// `s` with the first occurrence of `pat` replaced by `to`.
pub open spec fn replace_first(s: Seq<char>, pat: Seq<char>, to: Seq<char>) -> Seq<char> {
    match find(s, pat) {
        Some(k) => s.take(k) + to + s.skip(k + pat.len()),
        None => s,
    }
}

/// A copy of `s` with the first occurrence of `pat` replaced by `to`.
pub fn replaced_first(s: &str, pat: &str, to: &str) -> (res: String)
    ensures
        res@ == replace_first(s@, pat@, to@),
{
    let v = to_chars(s);
    let p = to_chars(pat);
    match position_from(&v, &p, 0) {
        Some(k) => {
            let head = from_range(&v, 0, k);
            let tail = from_range(&v, k + p.len(), v.len());
            assert(head@ =~= s@.take(k as int));
            assert(tail@ =~= s@.skip(k + pat@.len()));
            cat3(head.as_str(), to, tail.as_str())
        },
        None => s.to_owned(),
    }
}

// ---------------------------------------------------------------------------
// Order
// ---------------------------------------------------------------------------

/// Whether `a` stands before `b` in the order of dictionaries, by code points.
pub open spec fn before(a: Seq<char>, b: Seq<char>) -> bool
    decreases a.len(),
{
    if b.len() == 0 {
        false
    } else if a.len() == 0 {
        true
    } else if a[0] != b[0] {
        a[0] < b[0]
    } else {
        before(a.drop_first(), b.drop_first())
    }
}

/// Of two texts one stands before the other, or they are the same.
pub proof fn lemma_before_total(a: Seq<char>, b: Seq<char>)
    ensures
        a == b || before(a, b) || before(b, a),
        !(before(a, b) && before(b, a)),
        a == b ==> !before(a, b),
    decreases a.len(),
{
    if a.len() == 0 || b.len() == 0 {
        if a.len() == 0 && b.len() == 0 {
            assert(a =~= b);
        }
    } else if a[0] == b[0] {
        lemma_before_total(a.drop_first(), b.drop_first());
        if a.drop_first() == b.drop_first() {
            assert(a =~= seq![a[0]] + a.drop_first());
            assert(b =~= seq![b[0]] + b.drop_first());
        }
    }
}

/// What stands before a text stands before all that it stands before.
pub proof fn lemma_before_transitive(a: Seq<char>, b: Seq<char>, c: Seq<char>)
    requires
        before(a, b),
        before(b, c),
    ensures
        before(a, c),
    decreases a.len(),
{
    if a.len() > 0 && b.len() > 0 && c.len() > 0 && a[0] == b[0] && b[0] == c[0] {
        lemma_before_transitive(a.drop_first(), b.drop_first(), c.drop_first());
    }
}

/// Whether `a` stands before `b`.
pub fn is_before(a: &str, b: &str) -> (res: bool)
    ensures
        res == before(a@, b@),
{
    let x = to_chars(a);
    let y = to_chars(b);
    let mut i: usize = 0;
    assert(x@.skip(0) =~= a@);
    assert(y@.skip(0) =~= b@);
    loop
        invariant
            x@ == a@,
            y@ == b@,
            i <= x@.len(),
            i <= y@.len(),
            before(a@, b@) == before(x@.skip(i as int), y@.skip(i as int)),
        decreases x@.len() - i,
    {
        if i == y.len() {
            return false;
        }
        if i == x.len() {
            return true;
        }
        if x[i] != y[i] {
            return x[i] < y[i];
        }
        assert(x@.skip(i as int).drop_first() =~= x@.skip(i + 1));
        assert(y@.skip(i as int).drop_first() =~= y@.skip(i + 1));
        i += 1;
    }
}

/// Whether `set` lists the texts of `items`, each once and in order.
pub open spec fn is_sorted_set(set: Seq<Seq<char>>, items: Seq<Seq<char>>) -> bool {
    &&& forall|i: int, j: int|
        0 <= i < j < set.len() ==> before(#[trigger] set[i], #[trigger] set[j])
    &&& forall|x: Seq<char>| #[trigger] set.contains(x) <==> items.contains(x)
}

proof fn lemma_contains_push(s: Seq<Seq<char>>, x: Seq<char>, y: Seq<char>)
    ensures
        s.push(x).contains(y) == (s.contains(y) || y == x),
{
    let all = s.push(x);
    if s.contains(y) {
        let i = choose|i: int| 0 <= i < s.len() && s[i] == y;
        assert(all[i] == y);
    }
    if y == x {
        assert(all[s.len() as int] == y);
    }
    if all.contains(y) && y != x {
        let i = choose|i: int| 0 <= i < all.len() && all[i] == y;
        assert(s[i] == y);
    }
}

proof fn lemma_contains_insert(s: Seq<Seq<char>>, at: int, x: Seq<char>, y: Seq<char>)
    requires
        0 <= at <= s.len(),
    ensures
        s.insert(at, x).contains(y) == (s.contains(y) || y == x),
{
    let all = s.insert(at, x);
    if s.contains(y) {
        let i = choose|i: int| 0 <= i < s.len() && s[i] == y;
        if i < at {
            assert(all[i] == y);
        } else {
            assert(all[i + 1] == y);
        }
    }
    if y == x {
        assert(all[at] == y);
    }
    if all.contains(y) && y != x {
        let i = choose|i: int| 0 <= i < all.len() && all[i] == y;
        if i < at {
            assert(s[i] == y);
        } else {
            assert(s[i - 1] == y);
        }
    }
}

/// The texts of `items`, each once and in order.
pub fn sorted_set(items: &Vec<String>) -> (res: Vec<String>)
    ensures
        is_sorted_set(strs(res@), strs(items@)),
{
    let ghost all = strs(items@);
    let mut out: Vec<String> = Vec::new();
    let mut n: usize = 0;
    while n < items.len()
        invariant
            n <= items@.len(),
            all == strs(items@),
            is_sorted_set(strs(out@), all.take(n as int)),
        decreases items@.len() - n,
    {
        let ghost set = strs(out@);
        let ghost x = all[n as int];
        let ghost seen = all.take(n as int);
        let ghost next = all.take(n + 1);
        assert(next =~= seen.push(x));
        let mut at: usize = 0;
        while at < out.len() && is_before(out[at].as_str(), items[n].as_str())
            invariant
                at <= out@.len(),
                n < items@.len(),
                set == strs(out@),
                x == items@[n as int]@,
                forall|i: int| 0 <= i < at ==> before(#[trigger] set[i], x),
            decreases out@.len() - at,
        {
            assert(set[at as int] == out@[at as int]@);
            at += 1;
        }
        let known = at < out.len() && same(out[at].as_str(), items[n].as_str());
        if known {
            assert(set[at as int] == x);
            assert(set.contains(x));
            assert forall|y: Seq<char>| #[trigger] set.contains(y) <==> next.contains(y) by {
                lemma_contains_push(seen, x, y);
            }
        } else {
            proof {
                if at < out@.len() {
                    assert(set[at as int] == out@[at as int]@);
                    lemma_before_total(set[at as int], x);
                    assert(before(x, set[at as int]));
                }
                assert forall|i: int| at <= i < set.len() implies before(x, #[trigger] set[i]) by {
                    if i > at {
                        lemma_before_transitive(x, set[at as int], set[i]);
                    }
                }
            }
            out.insert(at, items[n].clone());
            let ghost after = strs(out@);
            assert(after =~= set.insert(at as int, x));
            assert forall|i: int, j: int| 0 <= i < j < after.len() implies before(
                #[trigger] after[i],
                #[trigger] after[j],
            ) by {
                let i0 = if i < at {
                    i
                } else {
                    i - 1
                };
                let j0 = if j < at {
                    j
                } else {
                    j - 1
                };
                if i != at {
                    assert(after[i] == set[i0]);
                }
                if j != at {
                    assert(after[j] == set[j0]);
                }
            }
            assert forall|y: Seq<char>| #[trigger] after.contains(y) <==> next.contains(y) by {
                lemma_contains_push(seen, x, y);
                lemma_contains_insert(set, at as int, x, y);
                assert(set.contains(y) <==> seen.contains(y));
            }
        }
        n += 1;
    }
    assert(all.take(items@.len() as int) =~= all);
    out
}

// ---------------------------------------------------------------------------
// Splitting
// ---------------------------------------------------------------------------

/// The first position from `i` on at which the character `c` stands in `s`, or
/// the length of `s`.
pub open spec fn next_char(s: Seq<char>, c: char, i: int) -> int
    decreases s.len() - i,
{
    if i < 0 || i >= s.len() {
        s.len() as int
    } else if s[i] == c {
        i
    } else {
        next_char(s, c, i + 1)
    }
}

/// What `next_char` returns lies in the text and is the first such place.
pub proof fn lemma_next_char(s: Seq<char>, c: char, i: int)
    requires
        0 <= i <= s.len(),
    ensures
        i <= next_char(s, c, i) <= s.len(),
        next_char(s, c, i) < s.len() ==> s[next_char(s, c, i)] == c,
        forall|j: int| i <= j < next_char(s, c, i) ==> s[j] != c,
    decreases s.len() - i,
{
    if i < s.len() && s[i] != c {
        lemma_next_char(s, c, i + 1);
    }
}

/// The pieces of `s` from position `i` on between occurrences of `c`.
pub open spec fn split_from(s: Seq<char>, c: char, i: int) -> Seq<Seq<char>>
    decreases s.len() - i,
    when 0 <= i <= s.len()
{
    let k = next_char(s, c, i);
    if i <= k < s.len() {
        seq![s.subrange(i, k)] + split_from(s, c, k + 1)
    } else {
        seq![s.skip(i)]
    }
}

/// The pieces of `s` between occurrences of `c`; always at least one.
pub open spec fn split(s: Seq<char>, c: char) -> Seq<Seq<char>> {
    split_from(s, c, 0)
}

/// `s` without one carriage return at its end.
pub open spec fn strip_cr(s: Seq<char>) -> Seq<char> {
    if s.len() > 0 && s.last() == '\r' {
        s.drop_last()
    } else {
        s
    }
}

/// The lines of `s` from position `i` on. A line ends with a line feed, or a
/// carriage return and a line feed, which are not part of it; the last line
/// need not have an ending.
pub open spec fn lines_from(s: Seq<char>, i: int) -> Seq<Seq<char>>
    decreases s.len() - i,
    when 0 <= i <= s.len()
{
    let k = next_char(s, '\n', i);
    if i == s.len() {
        Seq::empty()
    } else if i <= k < s.len() {
        seq![strip_cr(s.subrange(i, k))] + lines_from(s, k + 1)
    } else {
        seq![s.skip(i)]
    }
}

/// The lines of `s`.
pub open spec fn lines(s: Seq<char>) -> Seq<Seq<char>> {
    lines_from(s, 0)
}

/// The first position from `from` on at which `c` stands in `v`, or its length.
pub fn next_char_at(v: &Vec<char>, c: char, from: usize) -> (res: usize)
    requires
        from <= v@.len(),
    ensures
        res == next_char(v@, c, from as int),
        from <= res <= v@.len(),
{
    let mut i: usize = from;
    while i < v.len()
        invariant
            from <= i <= v@.len(),
            next_char(v@, c, from as int) == next_char(v@, c, i as int),
        decreases v@.len() - i,
    {
        if v[i] == c {
            return i;
        }
        i += 1;
    }
    i
}

/// The pieces of `s` between occurrences of `c`.
pub fn split_on(s: &str, c: char) -> (res: Vec<String>)
    ensures
        strs(res@) == split(s@, c),
{
    let v = to_chars(s);
    let mut out: Vec<String> = Vec::new();
    let mut i: usize = 0;
    loop
        invariant
            v@ == s@,
            i <= v@.len(),
            strs(out@) + split_from(s@, c, i as int) == split(s@, c),
        decreases v@.len() - i,
    {
        let k: usize = next_char_at(&v, c, i);
        let piece = from_range(&v, i, k);
        let ghost before = strs(out@);
        out.push(piece);
        assert(strs(out@) =~= before.push(piece@));
        if k == v.len() {
            assert(piece@ =~= s@.skip(i as int));
            assert(strs(out@) =~= before + seq![piece@]);
            return out;
        }
        assert(before + (seq![piece@] + split_from(s@, c, k + 1)) =~= strs(out@) + split_from(
            s@,
            c,
            k + 1,
        ));
        i = k + 1;
    }
}

/// The lines of `s`.
pub fn lines_of(s: &str) -> (res: Vec<String>)
    ensures
        strs(res@) == lines(s@),
{
    let v = to_chars(s);
    let mut out: Vec<String> = Vec::new();
    let mut i: usize = 0;
    assert(strs(out@) + lines_from(s@, 0) =~= lines(s@));
    while i < v.len()
        invariant
            v@ == s@,
            i <= v@.len(),
            strs(out@) + lines_from(s@, i as int) == lines(s@),
        decreases v@.len() - i,
    {
        let k: usize = next_char_at(&v, '\n', i);
        let ghost before = strs(out@);
        if k == v.len() {
            let piece = from_range(&v, i, k);
            assert(piece@ =~= s@.skip(i as int));
            out.push(piece);
            assert(strs(out@) =~= before + seq![piece@]);
            return out;
        }
        let end: usize = if k > i && v[k - 1] == '\r' {
            k - 1
        } else {
            k
        };
        let piece = from_range(&v, i, end);
        assert(piece@ =~= strip_cr(s@.subrange(i as int, k as int)));
        out.push(piece);
        assert(strs(out@) =~= before.push(piece@));
        assert(before + (seq![piece@] + lines_from(s@, k + 1)) =~= strs(out@) + lines_from(
            s@,
            k + 1,
        ));
        i = k + 1;
    }
    assert(strs(out@) + lines_from(s@, i as int) =~= strs(out@));
    out
}

// ---------------------------------------------------------------------------
// Case
// ---------------------------------------------------------------------------

/// `c` with an ASCII capital made small.
pub open spec fn ascii_lower_char(c: char) -> char {
    if 'A' <= c <= 'Z' {
        (c as u8 + 32) as char
    } else {
        c
    }
}

/// `s` with its ASCII capitals made small.
pub open spec fn ascii_lower(s: Seq<char>) -> Seq<char> {
    Seq::new(s.len(), |i: int| ascii_lower_char(s[i]))
}

/// The lower-case form that Unicode gives to a text with characters outside ASCII.
pub uninterp spec fn unicode_lowercase(s: Seq<char>) -> Seq<char>;

/// The lower-case form of `s`.
pub open spec fn lowercase(s: Seq<char>) -> Seq<char> {
    if is_ascii_chars(s) {
        ascii_lower(s)
    } else {
        unicode_lowercase(s)
    }
}

/// The lower-case form of a text (`str::to_lowercase`): on ASCII text each
/// capital becomes its small letter and nothing else changes; on other text the
/// result is the one that Unicode's tables give, which is named, not spelled out.
pub assume_specification[ str::to_lowercase ](s: &str) -> (res: String)
    ensures
        is_ascii_chars(s@) ==> res@ == ascii_lower(s@),
        !is_ascii_chars(s@) ==> res@ == unicode_lowercase(s@),
;

/// A copy of `s` with its ASCII capitals made small.
pub fn ascii_lowered(s: &str) -> (res: String)
    ensures
        res@ == ascii_lower(s@),
{
    let v = to_chars(s);
    let mut out = String::new();
    let mut i: usize = 0;
    while i < v.len()
        invariant
            v@ == s@,
            i <= v@.len(),
            out@ == ascii_lower(s@).take(i as int),
        decreases v@.len() - i,
    {
        let c = v[i];
        let d = if 'A' <= c && c <= 'Z' {
            (c as u8 + 32) as char
        } else {
            c
        };
        out.push(d);
        assert(ascii_lower(s@).take(i + 1) =~= ascii_lower(s@).take(i as int).push(d));
        i += 1;
    }
    assert(ascii_lower(s@).take(v@.len() as int) =~= ascii_lower(s@));
    out
}

// ---------------------------------------------------------------------------
// Bytes
// ---------------------------------------------------------------------------

/// The text that stands for bytes which are not valid UTF-8.
pub uninterp spec fn repaired_utf8(bytes: Seq<u8>) -> Seq<char>;

/// The text of `bytes`: what they encode where they are valid UTF-8.
pub open spec fn lossy(bytes: Seq<u8>) -> Seq<char> {
    if valid_utf8(bytes) {
        decode_utf8(bytes)
    } else {
        repaired_utf8(bytes)
    }
}

/// The text of a byte string (`String::from_utf8_lossy`): valid UTF-8 is decoded;
/// of other bytes the result is named only, as the places of the replacement
/// characters take long to state.
#[verifier::external_body]
pub(crate) fn decode_lossy(bytes: &[u8]) -> (res: String)
    ensures
        valid_utf8(bytes@) ==> res@ == decode_utf8(bytes@),
        !valid_utf8(bytes@) ==> res@ == repaired_utf8(bytes@),
{
    String::from_utf8_lossy(bytes).into_owned()
}

/// Decoding the UTF-8 form of a text gives the text back.
pub proof fn lemma_lossy_of_encoded(s: Seq<char>)
    ensures
        lossy(encode_utf8(s)) == s,
{
    encode_utf8_valid_utf8(s);
    encode_utf8_decode_utf8(s);
}

// ---------------------------------------------------------------------------
// Numbers
// ---------------------------------------------------------------------------

/// The decimal digit `d`.
pub open spec fn digit(d: nat) -> char {
    (48 + d) as char
}

/// `n` in decimal.
pub open spec fn digits(n: nat) -> Seq<char>
    decreases n,
{
    if n < 10 {
        seq![digit(n)]
    } else {
        digits(n / 10).push(digit(n % 10))
    }
}

/// `n` in decimal, with a minus sign where it is negative.
pub open spec fn signed(n: int) -> Seq<char> {
    if n < 0 {
        seq!['-'] + digits((-n) as nat)
    } else {
        digits(n as nat)
    }
}

/// `n` in decimal.
pub fn decimal(n: u64) -> (res: String)
    ensures
        res@ == digits(n as nat),
    decreases n,
{
    if n < 10 {
        let mut out = String::new();
        out.push((48u8 + n as u8) as char);
        assert(out@ =~= seq![digit(n as nat)]);
        out
    } else {
        let mut out = decimal(n / 10);
        out.push((48u8 + (n % 10) as u8) as char);
        out
    }
}

/// `n` in decimal, with a minus sign where it is negative.
pub fn decimal_signed(n: i64) -> (res: String)
    ensures
        res@ == signed(n as int),
{
    if n >= 0 {
        decimal(n as u64)
    } else if n == i64::MIN {
        let d = decimal(9223372036854775808);
        let res = cat("-", d.as_str());
        proof {
            reveal_strlit("-");
            assert("-"@ =~= seq!['-']);
        }
        res
    } else {
        let m: i64 = -n;
        let d = decimal(m as u64);
        let res = cat("-", d.as_str());
        proof {
            reveal_strlit("-");
            assert("-"@ =~= seq!['-']);
        }
        res
    }
}

/// The number that a row of decimal digits stands for, if `s` is one.
pub open spec fn digits_value(s: Seq<char>) -> Option<nat>
    decreases s.len(),
{
    if s.len() == 0 {
        None
    } else if !('0' <= s.last() <= '9') {
        None
    } else if s.len() == 1 {
        Some((s[0] as u32 - 48) as nat)
    } else {
        match digits_value(s.drop_last()) {
            Some(n) => Some(n * 10 + (s.last() as u32 - 48) as nat),
            None => None,
        }
    }
}

/// The integer that `s` stands for: decimal digits, with a plus or a minus sign
/// in front of them or none.
pub open spec fn integer_value(s: Seq<char>) -> Option<int> {
    if s.len() > 0 && s[0] == '-' {
        match digits_value(s.drop_first()) {
            Some(n) => Some(-(n as int)),
            None => None,
        }
    } else if s.len() > 0 && s[0] == '+' {
        match digits_value(s.drop_first()) {
            Some(n) => Some(n as int),
            None => None,
        }
    } else {
        match digits_value(s) {
            Some(n) => Some(n as int),
            None => None,
        }
    }
}

/// The integer that `s` stands for, where it is one of 32 bits.
pub open spec fn i32_value(s: Seq<char>) -> Option<i32> {
    match integer_value(s) {
        Some(n) => if i32::MIN <= n <= i32::MAX {
            Some(n as i32)
        } else {
            None
        },
        None => None,
    }
}

/// A row of digits stands for a number that no further digit makes smaller.
proof fn lemma_digits_value_prefix(s: Seq<char>, k: int)
    requires
        1 <= k <= s.len(),
        digits_value(s) is Some,
    ensures
        digits_value(s.take(k)) is Some,
        digits_value(s.take(k))->0 <= digits_value(s)->0,
    decreases s.len(),
{
    if k == s.len() {
        assert(s.take(k) =~= s);
    } else {
        lemma_digits_value_prefix(s.drop_last(), k);
        assert(s.drop_last().take(k) =~= s.take(k));
    }
}

/// A row of digits begins with a digit.
pub proof fn lemma_digits_value_first(s: Seq<char>)
    ensures
        digits_value(s) is Some ==> s.len() > 0 && '0' <= s[0] <= '9',
    decreases s.len(),
{
    if s.len() > 1 && digits_value(s) is Some {
        lemma_digits_value_first(s.drop_last());
    }
}

/// The digits of a number stand for that number.
pub proof fn lemma_digits_read_back(n: nat)
    ensures
        digits_value(digits(n)) == Some(n),
    decreases n,
{
    if n >= 10 {
        lemma_digits_read_back(n / 10);
        let s = digits(n);
        assert(s.drop_last() =~= digits(n / 10));
        assert(digits(n / 10).len() > 0);
    }
}

/// The number of the digits `v[from..]`; `None` where they are no digits or stand
/// for more than 64 bits hold.
pub fn digits_number(v: &Vec<char>, from: usize) -> (res: Option<u64>)
    requires
        from <= v@.len(),
    ensures
        match res {
            Some(n) => digits_value(v@.skip(from as int)) == Some(n as nat),
            None => match digits_value(v@.skip(from as int)) {
                Some(n) => n > u64::MAX,
                None => true,
            },
        },
{
    let ghost s = v@.skip(from as int);
    if from == v.len() {
        return None;
    }
    let mut n: u64 = 0;
    let mut i: usize = from;
    while i < v.len()
        invariant
            from <= i <= v@.len(),
            from < v@.len(),
            s == v@.skip(from as int),
            i == from ==> n == 0,
            i > from ==> digits_value(s.take(i - from)) == Some(n as nat),
        decreases v@.len() - i,
    {
        let c = v[i];
        let ghost next = s.take(i + 1 - from);
        assert(next.drop_last() =~= s.take(i - from));
        assert(next.last() == c);
        proof {
            if digits_value(s) is Some {
                lemma_digits_value_prefix(s, i + 1 - from);
            }
        }
        if !('0' <= c && c <= '9') {
            return None;
        }
        let d: u64 = c as u64 - 48;
        assert(digits_value(next) == Some((n * 10 + d) as nat));
        if n > (u64::MAX - d) / 10 {
            return None;
        }
        n = n * 10 + d;
        i += 1;
    }
    assert(s.take(v@.len() - from) =~= s);
    Some(n)
}

/// The integer of 32 bits that `s` stands for, if any.
pub fn parse_i32(s: &str) -> (res: Option<i32>)
    ensures
        res == i32_value(s@),
{
    let v = to_chars(s);
    if v.len() > 0 && v[0] == '-' {
        assert(v@.skip(1) =~= s@.drop_first());
        match digits_number(&v, 1) {
            Some(n) => if n <= 0x8000_0000 {
                Some((-(n as i64)) as i32)
            } else {
                None
            },
            None => None,
        }
    } else if v.len() > 0 && v[0] == '+' {
        assert(v@.skip(1) =~= s@.drop_first());
        match digits_number(&v, 1) {
            Some(n) => if n <= 0x7fff_ffff {
                Some(n as i32)
            } else {
                None
            },
            None => None,
        }
    } else {
        assert(v@.skip(0) =~= s@);
        match digits_number(&v, 0) {
            Some(n) => if n <= 0x7fff_ffff {
                Some(n as i32)
            } else {
                None
            },
            None => None,
        }
    }
}

// ---------------------------------------------------------------------------
// What holds of texts
// ---------------------------------------------------------------------------

/// Pieces put together are the pieces one after the other, none left out.
pub proof fn law_concat_all(pieces: Seq<Seq<char>>)
    ensures
        concat_all(pieces) == pieces.flatten(),
    decreases pieces.len(),
{
    if pieces.len() > 0 {
        law_concat_all(pieces.drop_last());
        pieces.drop_last().lemma_flatten_push(pieces.last());
        assert(pieces.drop_last().push(pieces.last()) =~= pieces);
    }
}

/// What is joined first stands first, with the separator behind it.
pub proof fn law_join_first(first: Seq<char>, rest: Seq<Seq<char>>, sep: Seq<char>)
    ensures
        join(Seq::empty(), sep) == Seq::<char>::empty(),
        join(seq![first] + rest, sep) == if rest.len() == 0 {
            first
        } else {
            first + sep + join(rest, sep)
        },
    decreases rest.len(),
{
    let all = seq![first] + rest;
    if rest.len() > 0 {
        assert(all.drop_last() =~= seq![first] + rest.drop_last());
        assert(all.last() == rest.last());
        law_join_first(first, rest.drop_last(), sep);
        if rest.len() == 1 {
            assert(rest.drop_last() =~= Seq::empty());
            assert(rest[0] == rest.last());
        }
        assert(join(all, sep) =~= first + sep + join(rest, sep));
    }
}

/// The text behind a character up to which others stand is split as by itself.
proof fn lemma_split_shift(s: Seq<char>, c: char, n: int, i: int)
    requires
        0 <= n,
        0 <= i,
        n + i <= s.len(),
    ensures
        split_from(s, c, n + i) == split_from(s.skip(n), c, i),
    decreases s.len() - i,
{
    let t = s.skip(n);
    let k = next_char(s, c, n + i);
    lemma_next_char(s, c, n + i);
    lemma_next_char(t, c, i);
    let m = next_char(t, c, i);
    assert(m == k - n) by {
        if m < k - n {
            assert(s[n + m] == t[m]);
        } else if m > k - n {
            assert(t[k - n] == s[k]);
        }
    }
    if k < s.len() {
        lemma_split_shift(s, c, n, m + 1);
        assert(s.subrange(n + i, k) =~= t.subrange(i, m));
    } else {
        assert(s.skip(n + i) =~= t.skip(i));
    }
}

/// What is split at a character gives the text back when it is joined with it, and
/// no piece holds the character.
pub proof fn law_split(s: Seq<char>, c: char)
    ensures
        split(s, c).len() > 0,
        join(split(s, c), seq![c]) == s,
        forall|i: int|
            0 <= i < split(s, c).len() ==> !(#[trigger] split(s, c)[i]).contains(c),
    decreases s.len(),
{
    let k = next_char(s, c, 0);
    lemma_next_char(s, c, 0);
    if k < s.len() {
        let first = s.subrange(0, k);
        let rest = s.skip(k + 1);
        lemma_split_shift(s, c, k + 1, 0);
        law_split(rest, c);
        law_join_first(first, split(rest, c), seq![c]);
        assert(s =~= first + seq![c] + rest);
        let all = split(s, c);
        assert(all == seq![first] + split(rest, c));
        assert forall|i: int| 0 <= i < all.len() implies !(#[trigger] all[i]).contains(c) by {
            if i > 0 {
                assert(all[i] == split(rest, c)[i - 1]);
            }
        }
    } else {
        assert(s.skip(0) =~= s);
        assert(split(s, c) =~= seq![s]);
    }
}

/// Pieces that do not hold a character come back when what they were joined to with
/// it is split.
pub proof fn law_join_then_split(pieces: Seq<Seq<char>>, c: char)
    requires
        pieces.len() > 0,
        forall|i: int| 0 <= i < pieces.len() ==> !(#[trigger] pieces[i]).contains(c),
    ensures
        split(join(pieces, seq![c]), c) == pieces,
    decreases pieces.len(),
{
    let first = pieces[0];
    let rest = pieces.drop_first();
    assert(pieces =~= seq![first] + rest);
    law_join_first(first, rest, seq![c]);
    let s = join(pieces, seq![c]);
    lemma_next_char(s, c, 0);
    let k = next_char(s, c, 0);
    if rest.len() == 0 {
        assert(s == first);
        assert(k == s.len()) by {
            if k < s.len() {
                assert(first.contains(s[k]));
            }
        }
        assert(s.skip(0) =~= s);
        assert(split(s, c) =~= pieces);
    } else {
        assert forall|i: int| 0 <= i < rest.len() implies !(#[trigger] rest[i]).contains(c) by {
            assert(rest[i] == pieces[i + 1]);
        }
        law_join_then_split(rest, c);
        assert(s[first.len() as int] == c);
        assert(k == first.len()) by {
            if k < first.len() {
                assert(first[k] == s[k]);
                assert(first.contains(c));
            }
        }
        assert(s.subrange(0, k) =~= first);
        assert(s.skip(k + 1) =~= join(rest, seq![c]));
        lemma_split_shift(s, c, k + 1, 0);
        assert(split(s, c) =~= pieces);
    }
}

/// The lines of a text are what stands between its line feeds, each without a return
/// before the line feed; a line feed at the end begins no further line.
pub proof fn law_lines(s: Seq<char>)
    ensures
        ({
            let pieces = split(s, '\n');
            let n = pieces.len() - 1;
            &&& lines(s).len() == if pieces[n].len() == 0 {
                n
            } else {
                n + 1
            }
            &&& forall|i: int|
                0 <= i < n ==> (#[trigger] lines(s)[i]) == if pieces[i].len() > 0
                    && pieces[i].last() == '\r' {
                    pieces[i].drop_last()
                } else {
                    pieces[i]
                }
            &&& pieces[n].len() > 0 ==> lines(s)[n] == pieces[n]
        }),
{
    lemma_lines_from(s, 0);
}

proof fn lemma_lines_from(s: Seq<char>, i: int)
    requires
        0 <= i <= s.len(),
    ensures
        ({
            let pieces = split_from(s, '\n', i);
            let found = lines_from(s, i);
            let n = pieces.len() - 1;
            &&& n >= 0
            &&& found.len() == if pieces[n].len() == 0 {
                n
            } else {
                n + 1
            }
            &&& forall|j: int|
                0 <= j < n ==> (#[trigger] found[j]) == if pieces[j].len() > 0 && pieces[j].last()
                    == '\r' {
                    pieces[j].drop_last()
                } else {
                    pieces[j]
                }
            &&& pieces[n].len() > 0 ==> found[n] == pieces[n]
        }),
    decreases s.len() - i,
{
    let k = next_char(s, '\n', i);
    lemma_next_char(s, '\n', i);
    if i < s.len() && k < s.len() {
        lemma_lines_from(s, k + 1);
        let pieces = split_from(s, '\n', i);
        let found = lines_from(s, i);
        let rest = split_from(s, '\n', k + 1);
        let rest_found = lines_from(s, k + 1);
        assert(pieces == seq![s.subrange(i, k)] + rest);
        assert(found == seq![strip_cr(s.subrange(i, k))] + rest_found);
        assert forall|j: int| 0 <= j < pieces.len() - 1 implies (#[trigger] found[j])
            == if pieces[j].len() > 0 && pieces[j].last() == '\r' {
            pieces[j].drop_last()
        } else {
            pieces[j]
        } by {
            if j > 0 {
                assert(found[j] == rest_found[j - 1]);
                assert(pieces[j] == rest[j - 1]);
            }
        }
    } else if i == s.len() {
        assert(split_from(s, '\n', i) =~= seq![s.skip(i)]);
    }
}

/// Without the space around it a text is what it was between two places, outside of
/// which it is all space, and at which it is none. Spaces, tabs and the ends of lines
/// are space; what ASCII shows is not.
pub proof fn law_trim(s: Seq<char>) -> (at: (int, int))
    ensures
        0 <= at.0 <= at.1 <= s.len(),
        trim(s) == s.subrange(at.0, at.1),
        forall|q: int| 0 <= q < at.0 || at.1 <= q < s.len() ==> is_white(#[trigger] s[q]),
        at.0 < at.1 ==> !is_white(s[at.0]) && !is_white(s[at.1 - 1]),
        is_white(' ') && is_white('\t') && is_white('\n') && is_white('\r'),
        forall|c: char| '!' <= c <= '~' ==> !#[trigger] is_white(c),
{
    let i = lemma_trimmed_start(s);
    let t = trim_start(s);
    let n = lemma_trimmed_end(t);
    assert(trim(s) =~= s.subrange(i, i + n));
    assert forall|q: int| 0 <= q < i || i + n <= q < s.len() implies is_white(
        #[trigger] s[q],
    ) by {
        if q >= i {
            assert(t[q - i] == s[q]);
        }
    }
    if n > 0 {
        assert(t[0] == s[i]);
        assert(t[n - 1] == s[i + n - 1]);
    }
    (i, i + n)
}

pub proof fn lemma_trimmed_start(s: Seq<char>) -> (i: int)
    ensures
        0 <= i <= s.len(),
        trim_start(s) == s.skip(i),
        forall|q: int| 0 <= q < i ==> is_white(#[trigger] s[q]),
        i < s.len() ==> !is_white(s[i]),
    decreases s.len(),
{
    if s.len() > 0 && is_white(s[0]) {
        let rest = s.drop_first();
        let i = lemma_trimmed_start(rest);
        assert(rest.skip(i) =~= s.skip(i + 1));
        assert forall|q: int| 0 <= q < i + 1 implies is_white(#[trigger] s[q]) by {
            if q > 0 {
                assert(rest[q - 1] == s[q]);
            }
        }
        i + 1
    } else {
        assert(s.skip(0) =~= s);
        0
    }
}

proof fn lemma_trimmed_end(s: Seq<char>) -> (n: int)
    ensures
        0 <= n <= s.len(),
        trim_end(s) == s.take(n),
        forall|q: int| n <= q < s.len() ==> is_white(#[trigger] s[q]),
        n > 0 ==> !is_white(s[n - 1]),
    decreases s.len(),
{
    if s.len() > 0 && is_white(s.last()) {
        let front = s.drop_last();
        let n = lemma_trimmed_end(front);
        assert(front.take(n) =~= s.take(n));
        assert forall|q: int| n <= q < s.len() implies is_white(#[trigger] s[q]) by {
            if q < s.len() - 1 {
                assert(front[q] == s[q]);
            }
        }
        n
    } else {
        assert(s.take(s.len() as int) =~= s);
        s.len() as int
    }
}

/// Without a character around it a text is what it was between two places, outside of
/// which it is that character alone, and at which it is another.
pub proof fn law_strip_char(s: Seq<char>, c: char) -> (at: (int, int))
    ensures
        0 <= at.0 <= at.1 <= s.len(),
        strip_char(s, c) == s.subrange(at.0, at.1),
        forall|q: int| 0 <= q < at.0 || at.1 <= q < s.len() ==> #[trigger] s[q] == c,
        at.0 < at.1 ==> s[at.0] != c && s[at.1 - 1] != c,
{
    let i = lemma_stripped_front(s, c);
    let t = strip_front(s, c);
    let n = lemma_stripped_back(t, c);
    assert(strip_char(s, c) =~= s.subrange(i, i + n));
    assert forall|q: int| 0 <= q < i || i + n <= q < s.len() implies #[trigger] s[q] == c by {
        if q >= i {
            assert(t[q - i] == s[q]);
        }
    }
    if n > 0 {
        assert(t[0] == s[i]);
        assert(t[n - 1] == s[i + n - 1]);
    }
    (i, i + n)
}

/// Without a character in front a text is what stands behind all of them.
pub proof fn lemma_stripped_front(s: Seq<char>, c: char) -> (i: int)
    ensures
        0 <= i <= s.len(),
        strip_front(s, c) == s.skip(i),
        forall|q: int| 0 <= q < i ==> #[trigger] s[q] == c,
        i < s.len() ==> s[i] != c,
    decreases s.len(),
{
    if s.len() > 0 && s[0] == c {
        let rest = s.drop_first();
        let i = lemma_stripped_front(rest, c);
        assert(rest.skip(i) =~= s.skip(i + 1));
        assert forall|q: int| 0 <= q < i + 1 implies #[trigger] s[q] == c by {
            if q > 0 {
                assert(rest[q - 1] == s[q]);
            }
        }
        i + 1
    } else {
        assert(s.skip(0) =~= s);
        0
    }
}

/// Without a character at the end a text is what stands before all of them.
pub proof fn lemma_stripped_back(s: Seq<char>, c: char) -> (n: int)
    ensures
        0 <= n <= s.len(),
        strip_back(s, c) == s.take(n),
        forall|q: int| n <= q < s.len() ==> #[trigger] s[q] == c,
        n > 0 ==> s[n - 1] != c,
    decreases s.len(),
{
    if s.len() > 0 && s.last() == c {
        let front = s.drop_last();
        let n = lemma_stripped_back(front, c);
        assert(front.take(n) =~= s.take(n));
        assert forall|q: int| n <= q < s.len() implies #[trigger] s[q] == c by {
            if q < s.len() - 1 {
                assert(front[q] == s[q]);
            }
        }
        n
    } else {
        assert(s.take(s.len() as int) =~= s);
        s.len() as int
    }
}

/// A text holds another where it is that text between something before and something
/// behind it, and only there.
pub proof fn law_contains(s: Seq<char>, pat: Seq<char>)
    ensures
        contains(s, pat) <==> exists|i: int, j: int|
            0 <= i <= j <= s.len() && #[trigger] s.subrange(i, j) == pat,
        starts(s, pat) <==> pat.is_prefix_of(s),
        ends(s, pat) <==> pat.is_suffix_of(s),
{
    if contains(s, pat) {
        let i = choose|i: int| occurs_at(s, pat, i);
        assert(s.subrange(i, i + pat.len()) == pat);
    }
    if exists|i: int, j: int| 0 <= i <= j <= s.len() && #[trigger] s.subrange(i, j) == pat {
        let (i, j) = choose|i: int, j: int|
            0 <= i <= j <= s.len() && #[trigger] s.subrange(i, j) == pat;
        assert(occurs_at(s, pat, i));
    }
    if pat.is_suffix_of(s) {
        assert(s.subrange(s.len() - pat.len(), s.len() as int) =~= pat);
    }
}

/// What is found is the first place, or the last, at which a text holds another; where
/// nothing is found it holds it nowhere.
pub proof fn law_find(s: Seq<char>, pat: Seq<char>)
    ensures
        match find(s, pat) {
            Some(k) => 0 <= k && k + pat.len() <= s.len() && s.subrange(k, k + pat.len()) == pat
                && forall|i: int| 0 <= i < k ==> #[trigger] s.subrange(i, i + pat.len()) != pat,
            None => forall|i: int|
                0 <= i && i + pat.len() <= s.len() ==> #[trigger] s.subrange(i, i + pat.len())
                    != pat,
        },
        match rfind(s, pat) {
            Some(k) => 0 <= k && k + pat.len() <= s.len() && s.subrange(k, k + pat.len()) == pat
                && forall|i: int|
                k < i && i + pat.len() <= s.len() ==> #[trigger] s.subrange(i, i + pat.len())
                    != pat,
            None => forall|i: int|
                0 <= i && i + pat.len() <= s.len() ==> #[trigger] s.subrange(i, i + pat.len())
                    != pat,
        },
{
    lemma_find_from(s, pat, 0);
    lemma_rfind_upto(s, pat, s.len() - pat.len());
    match find(s, pat) {
        Some(k) => {
            assert forall|i: int| 0 <= i < k implies #[trigger] s.subrange(i, i + pat.len())
                != pat by {
                assert(!occurs_at(s, pat, i));
            }
        },
        None => {
            assert forall|i: int| 0 <= i && i + pat.len() <= s.len() implies #[trigger] s.subrange(
                i,
                i + pat.len(),
            ) != pat by {
                assert(!occurs_at(s, pat, i));
            }
        },
    }
    match rfind(s, pat) {
        Some(k) => {
            assert forall|i: int| k < i && i + pat.len() <= s.len() implies #[trigger] s.subrange(
                i,
                i + pat.len(),
            ) != pat by {
                assert(!occurs_at(s, pat, i));
            }
        },
        None => {
            assert forall|i: int| 0 <= i && i + pat.len() <= s.len() implies #[trigger] s.subrange(
                i,
                i + pat.len(),
            ) != pat by {
                assert(!occurs_at(s, pat, i));
            }
        },
    }
}

proof fn lemma_rfind_upto(s: Seq<char>, pat: Seq<char>, i: int)
    ensures
        match rfind_upto(s, pat, i) {
            Some(k) => k <= i && occurs_at(s, pat, k) && forall|j: int|
                k < j <= i ==> !occurs_at(s, pat, j),
            None => forall|j: int| j <= i ==> !occurs_at(s, pat, j),
        },
    decreases i + 1,
{
    if i >= 0 && !occurs_at(s, pat, i) {
        lemma_rfind_upto(s, pat, i - 1);
    }
}

/// The place at which a text is found does not depend on what stands before the place
/// from which on it is looked for.
proof fn lemma_find_shift(s: Seq<char>, pat: Seq<char>, n: int, i: int)
    requires
        0 <= n,
        0 <= i,
        n <= s.len(),
    ensures
        find_from(s, pat, n + i) == match find_from(s.skip(n), pat, i) {
            Some(k) => Some(n + k),
            None => None,
        },
    decreases s.len() + 1 - i,
{
    if n + i + pat.len() <= s.len() {
        assert(s.skip(n).subrange(i, i + pat.len()) =~= s.subrange(n + i, n + i + pat.len()));
        if !occurs_at(s, pat, n + i) {
            lemma_find_shift(s, pat, n, i + 1);
        }
    }
}

proof fn lemma_replace_shift(s: Seq<char>, pat: Seq<char>, to: Seq<char>, n: int, i: int)
    requires
        0 <= n,
        0 <= i,
        n + i <= s.len(),
        pat.len() > 0,
    ensures
        replace_from(s, pat, to, n + i) == replace_from(s.skip(n), pat, to, i),
    decreases s.len() - i,
{
    let t = s.skip(n);
    lemma_find_shift(s, pat, n, i);
    lemma_find_from(t, pat, i);
    lemma_find_from(s, pat, n + i);
    match find_from(t, pat, i) {
        Some(k) => {
            lemma_replace_shift(s, pat, to, n, k + pat.len() as int);
            assert(s.subrange(n + i, n + k) =~= t.subrange(i, k));
        },
        None => {
            assert(s.skip(n + i) =~= t.skip(i));
        },
    }
}

/// A text in which another stands nowhere is the same when that is replaced. Where it
/// stands, what is before its first place stays, the new text takes its place, and
/// what is behind it is treated in the same way; or stays, where only the first is
/// replaced.
pub proof fn law_replace(a: Seq<char>, pat: Seq<char>, b: Seq<char>, to: Seq<char>)
    requires
        pat.len() > 0,
    ensures
        (forall|i: int|
            0 <= i && i + pat.len() <= a.len() ==> #[trigger] a.subrange(i, i + pat.len())
                != pat) ==> replace(a, pat, to) == a && replace_first(a, pat, to) == a,
        (forall|i: int|
            0 <= i < a.len() ==> #[trigger] (a + pat).subrange(i, i + pat.len()) != pat)
            ==> replace(a + pat + b, pat, to) == a + to + replace(b, pat, to) && replace_first(
            a + pat + b,
            pat,
            to,
        ) == a + to + b,
{
    law_find(a, pat);
    lemma_find_from(a, pat, 0);
    if forall|i: int|
        0 <= i && i + pat.len() <= a.len() ==> #[trigger] a.subrange(i, i + pat.len()) != pat {
        assert(a.skip(0) =~= a);
    }
    if forall|i: int|
        0 <= i < a.len() ==> #[trigger] (a + pat).subrange(i, i + pat.len()) != pat {
        let s = a + pat + b;
        let n = a.len() as int;
        assert(s.subrange(n, n + pat.len()) =~= pat);
        assert forall|i: int| 0 <= i < n implies !occurs_at(s, pat, i) by {
            assert(s.subrange(i, i + pat.len()) =~= (a + pat).subrange(i, i + pat.len()));
        }
        assert(occurs_at(s, pat, n));
        lemma_find_from(s, pat, 0);
        assert(find(s, pat) == Some(n));
        lemma_replace_shift(s, pat, to, n + pat.len(), 0);
        assert(s.skip(n + pat.len()) =~= b);
        assert(s.subrange(0, n) =~= a);
        assert(s.take(n) =~= a);
    }
}

/// One text stands before another in the order of texts where they are the same up to
/// some place, at which the first ends or has the smaller character.
pub proof fn law_before(a: Seq<char>, b: Seq<char>)
    ensures
        before(a, b) <==> exists|k: int|
            0 <= k <= a.len() && k < b.len() && #[trigger] a.take(k) == b.take(k) && (k == a.len()
                || a[k] < b[k]),
    decreases a.len(),
{
    if b.len() > 0 && a.len() > 0 && a[0] == b[0] {
        let x = a.drop_first();
        let y = b.drop_first();
        law_before(x, y);
        if before(a, b) {
            let k = choose|k: int|
                0 <= k <= x.len() && k < y.len() && #[trigger] x.take(k) == y.take(k) && (k
                    == x.len() || x[k] < y[k]);
            assert(a.take(k + 1) =~= seq![a[0]] + x.take(k));
            assert(b.take(k + 1) =~= seq![b[0]] + y.take(k));
        }
        if exists|k: int|
            0 <= k <= a.len() && k < b.len() && #[trigger] a.take(k) == b.take(k) && (k == a.len()
                || a[k] < b[k]) {
            let k = choose|k: int|
                0 <= k <= a.len() && k < b.len() && #[trigger] a.take(k) == b.take(k) && (k
                    == a.len() || a[k] < b[k]);
            assert(x.take(k - 1) =~= a.take(k).drop_first());
            assert(y.take(k - 1) =~= b.take(k).drop_first());
        }
    } else {
        if before(a, b) {
            assert(a.take(0) =~= b.take(0));
        }
        if a.len() > 0 && b.len() > 0 {
            assert forall|k: int|
                0 <= k <= a.len() && k < b.len() && #[trigger] a.take(k) == b.take(k) implies k
                == 0 by {
                if k > 0 {
                    assert(a.take(k)[0] == a[0]);
                    assert(b.take(k)[0] == b[0]);
                }
            }
        }
    }
}

/// Capital letters of ASCII become small ones, and all else stays.
pub proof fn law_ascii_lower(s: Seq<char>)
    ensures
        ascii_lower(s).len() == s.len(),
        forall|i: int|
            0 <= i < s.len() ==> (#[trigger] ascii_lower(s)[i]) as u32 == if 65 <= s[i] as u32
                <= 90 {
                s[i] as u32 + 32
            } else {
                s[i] as int
            },
        forall|i: int|
            0 <= i < s.len() ==> !(65 <= (#[trigger] ascii_lower(s)[i]) as u32 <= 90),
        ascii_lower(ascii_lower(s)) == ascii_lower(s),
{
    assert(ascii_lower(ascii_lower(s)) =~= ascii_lower(s));
}

/// The digits of a number are those of its places, the highest first, without a nought
/// in front.
pub proof fn law_digits(n: nat)
    ensures
        digits(n).len() > 0,
        forall|i: int|
            0 <= i < digits(n).len() ==> (#[trigger] digits(n)[i]) as u32 == 48 + (n as int / pow(
                10,
                (digits(n).len() - 1 - i) as nat,
            )) % 10,
        n < pow(10, digits(n).len()),
        digits(n).len() > 1 ==> pow(10, (digits(n).len() - 1) as nat) <= n,
    decreases n,
{
    let s = digits(n);
    reveal(pow);
    if n < 10 {
        assert(pow(10, 0) == 1);
        assert(pow(10, 1) == 10 * pow(10, 0));
        assert(n as int / 1 == n);
    } else {
        let front = digits(n / 10);
        law_digits(n / 10);
        let m = front.len();
        assert(s == front.push(digit(n % 10)));
        assert(pow(10, m + 1) == 10 * pow(10, m));
        assert(pow(10, m) == 10 * pow(10, (m - 1) as nat));
        if m == 1 {
            assert(pow(10, 0) == 1);
        }
        assert forall|i: int| 0 <= i < s.len() implies (#[trigger] s[i]) as u32 == 48 + (n as int
            / pow(10, (s.len() - 1 - i) as nat)) % 10 by {
            if i < m {
                assert(s[i] == front[i]);
                let e = (m - 1 - i) as nat;
                assert(pow(10, e + 1) == 10 * pow(10, e));
                vstd::arithmetic::power::lemma_pow_positive(10, e);
                vstd::arithmetic::div_mod::lemma_div_denominator(n as int, 10, pow(10, e));
            } else {
                assert(pow(10, 0) == 1);
                assert(n as int / 1 == n);
            }
        }
    }
}

/// Where neither the pieces nor the separator hold a character, what is joined does not
/// either.
pub proof fn lemma_join_without(pieces: Seq<Seq<char>>, sep: Seq<char>, c: char)
    requires
        !sep.contains(c),
        forall|i: int| 0 <= i < pieces.len() ==> !(#[trigger] pieces[i]).contains(c),
    ensures
        !join(pieces, sep).contains(c),
    decreases pieces.len(),
{
    if pieces.len() > 0 {
        let front = pieces.drop_last();
        assert forall|i: int| 0 <= i < front.len() implies !(#[trigger] front[i]).contains(c) by {
            assert(front[i] == pieces[i]);
        }
        lemma_join_without(front, sep, c);
        let last = pieces.last();
        assert(!pieces[pieces.len() - 1].contains(c));
        let whole = join(pieces, sep);
        if whole.contains(c) && pieces.len() > 1 {
            let k = choose|k: int| 0 <= k < whole.len() && whole[k] == c;
            let head = join(front, sep);
            if k < head.len() {
                assert(head[k] == c);
            } else if k < head.len() + sep.len() {
                assert(sep[k - head.len()] == c);
            } else {
                assert(last[k - head.len() - sep.len()] == c);
            }
        }
    }
}

/// A whole number, written with its sign where it is below nought, is read as itself;
/// so it is with a plus in front. It is a number of four bytes where it fits them.
pub proof fn law_integer(n: int)
    ensures
        integer_value(signed(n)) == Some(n),
        n >= 0 ==> integer_value(seq!['+'] + signed(n)) == Some(n),
        n >= 0 ==> digits_value(signed(n)) == Some(n as nat),
        i32::MIN <= n <= i32::MAX ==> i32_value(signed(n)) == Some(n as i32),
        !(i32::MIN <= n <= i32::MAX) ==> i32_value(signed(n)) is None,
{
    let size: nat = if n < 0 {
        (-n) as nat
    } else {
        n as nat
    };
    lemma_digits_read_back(size);
    law_digits(size);
    assert(seq!['-'].add(digits(size)).drop_first() =~= digits(size));
    assert(seq!['+'].add(digits(size)).drop_first() =~= digits(size));
}

/// What is behind some bytes of a text is its end, and has all the other bytes; there is
/// such an end if and only if the bytes end with a character.
pub proof fn law_behind_bytes(front: Seq<char>, rest: Seq<char>, n: nat)
    ensures
        behind_bytes(front + rest, byte_len(front)) == Some(rest),
        behind_bytes(rest, n) matches Some(end) ==> end.is_suffix_of(rest) && byte_len(end) + n
            == byte_len(rest),
    decreases front.len() + rest.len(),
{
    if front.len() > 0 {
        let tail = front.drop_first();
        law_behind_bytes(tail, rest, n);
        assert((front + rest).drop_first() =~= tail + rest);
        assert(seq![front[0]] + tail =~= front);
        lemma_byte_len_add(seq![front[0]], tail);
        lemma_one_char(front[0]);
        lemma_byte_len_bounds(seq![front[0]]);
    } else {
        assert(front + rest =~= rest);
        lemma_end_of_bytes(rest, n);
    }
}

proof fn lemma_one_char(c: char)
    ensures
        byte_len(seq![c]) == char_width(c),
{
    assert(seq![c].drop_last() =~= Seq::empty());
    assert(byte_len(Seq::<char>::empty()) == 0);
}

proof fn lemma_end_of_bytes(s: Seq<char>, n: nat)
    ensures
        behind_bytes(s, n) matches Some(end) ==> end.is_suffix_of(s) && byte_len(end) + n
            == byte_len(s),
    decreases s.len(),
{
    if n == 0 {
        assert(s.subrange(0, s.len() as int) =~= s);
    } else if s.len() > 0 && char_width(s[0]) <= n {
        let tail = s.drop_first();
        lemma_end_of_bytes(tail, (n - char_width(s[0])) as nat);
        assert(seq![s[0]] + tail =~= s);
        lemma_byte_len_add(seq![s[0]], tail);
        lemma_one_char(s[0]);
        match behind_bytes(s, n) {
            Some(end) => {
                assert(s.subrange(s.len() - end.len(), s.len() as int) =~= tail.subrange(
                    tail.len() - end.len(),
                    tail.len() as int,
                ));
            },
            None => {},
        }
    }
}

} // verus!
