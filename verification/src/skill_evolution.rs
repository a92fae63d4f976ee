//! Skills that grow out of use: repeated runs of tools, the skills made of
//! them, their promotion and their retirement.

use crate::frontmatter;
use crate::json;
use crate::json::{Fields, Json, JsonNumber, JsonNumberV, JsonV};
use crate::paths;
use crate::skills;
use crate::stamps;
use crate::text;
use vstd::prelude::*;

verus! {

broadcast use vstd::string::group_string_axioms;

// ---------------------------------------------------------------------------
// Repeated runs of tools
// ---------------------------------------------------------------------------

/// The tools that a session called, in order.
pub struct ToolCallSequence {
    pub chat_id: i64,
    pub tool_names: Vec<String>,
}

/// A run of tools that several sessions share.
#[derive(Debug, Clone)]
pub struct ToolPattern {
    pub sequence: Vec<String>,
    pub occurrences: usize,
    pub hash: String,
    pub example_chat_ids: Vec<i64>,
}

/// The mathematical form of a `ToolPattern`.
pub struct PatternV {
    pub sequence: Seq<Seq<char>>,
    pub occurrences: nat,
    pub hash: Seq<char>,
    pub example_chat_ids: Seq<i64>,
}

impl ToolPattern {
    pub open spec fn view(self) -> PatternV {
        PatternV {
            sequence: text::strs(self.sequence@),
            occurrences: self.occurrences as nat,
            hash: self.hash@,
            example_chat_ids: self.example_chat_ids@,
        }
    }
}

/// The runs of exactly `n` tools, from left to right.
pub open spec fn windows(tools: Seq<Seq<char>>, n: nat) -> Seq<Seq<Seq<char>>> {
    if n <= tools.len() {
        Seq::new((tools.len() - n + 1) as nat, |i: int| tools.subrange(i, i + n))
    } else {
        Seq::empty()
    }
}

/// The longest run that is looked at: eight tools, or all there are.
pub open spec fn longest(tools: Seq<Seq<char>>) -> nat {
    if tools.len() < 8 {
        tools.len()
    } else {
        8
    }
}

/// The runs of at least `n` tools, the shorter first.
pub open spec fn ngrams(tools: Seq<Seq<char>>, n: nat) -> Seq<Seq<Seq<char>>>
    decreases longest(tools) + 1 - n,
{
    if n > longest(tools) {
        Seq::empty()
    } else {
        windows(tools, n) + ngrams(tools, n + 1)
    }
}

/// The views of rows of names.
pub open spec fn rows(v: Seq<Vec<String>>) -> Seq<Seq<Seq<char>>> {
    Seq::new(v.len(), |i: int| text::strs(v[i]@))
}

/// The names that identify a run.
pub open spec fn hash(run: Seq<Seq<char>>) -> Seq<char> {
    text::join(run, "|"@)
}

/// The names that identify a run, in one text.
pub fn hash_sequence(seq: &[String]) -> (res: String)
    ensures
        res@ == hash(text::strs(seq@)),
{
    text::join_strings(seq, "|")
}

/// A copy of `tools[from..to]`.
fn copy_range(tools: &[String], from: usize, to: usize) -> (res: Vec<String>)
    requires
        from <= to <= tools@.len(),
    ensures
        text::strs(res@) == text::strs(tools@).subrange(from as int, to as int),
{
    let ghost all = text::strs(tools@);
    let mut out: Vec<String> = Vec::new();
    let mut i: usize = from;
    assert(text::strs(out@) =~= all.subrange(from as int, from as int));
    while i < to
        invariant
            from <= i <= to <= tools@.len(),
            all == text::strs(tools@),
            text::strs(out@) == all.subrange(from as int, i as int),
        decreases to - i,
    {
        let ghost before = text::strs(out@);
        out.push(tools[i].clone());
        assert(text::strs(out@) =~= before.push(all[i as int]));
        assert(text::strs(out@) =~= all.subrange(from as int, i + 1));
        i += 1;
    }
    out
}

/// The runs of at least `min_len` tools in a session, up to eight.
pub fn extract_ngrams(tools: &[String], min_len: usize) -> (res: Vec<Vec<String>>)
    requires
        min_len >= 1,
    ensures
        rows(res@) == ngrams(text::strs(tools@), min_len as nat),
{
    let ghost all = text::strs(tools@);
    let mut out: Vec<Vec<String>> = Vec::new();
    let max: usize = if tools.len() < 8 {
        tools.len()
    } else {
        8
    };
    let mut n: usize = min_len;
    assert(rows(out@) + ngrams(all, n as nat) =~= ngrams(all, n as nat));
    while n <= max
        invariant
            1 <= n,
            max <= 8,
            max == longest(all),
            all == text::strs(tools@),
            n > max + 1 ==> n == min_len,
            rows(out@) + ngrams(all, n as nat) == ngrams(all, min_len as nat),
        decreases max + 1 - n,
    {
        let ghost start = rows(out@);
        let ghost wanted = windows(all, n as nat);
        let mut i: usize = 0;
        assert(rows(out@) =~= start + wanted.take(0));
        while i <= tools.len() - n
            invariant
                1 <= n <= max <= tools@.len(),
                max <= 8,
                i + n <= tools@.len() + 1,
                all == text::strs(tools@),
                wanted == windows(all, n as nat),
                rows(out@) == start + wanted.take(i as int),
            decreases tools@.len() + 1 - i - n,
        {
            let ghost before = rows(out@);
            let window = copy_range(tools, i, i + n);
            out.push(window);
            assert(rows(out@) =~= before.push(text::strs(window@)));
            assert(wanted[i as int] == all.subrange(i as int, i + n));
            assert(rows(out@) =~= start + wanted.take(i + 1));
            i += 1;
        }
        assert(wanted.take(i as int) =~= wanted);
        assert(start + (wanted + ngrams(all, (n + 1) as nat)) =~= rows(out@) + ngrams(
            all,
            (n + 1) as nat,
        ));
        n += 1;
    }
    assert(rows(out@) + ngrams(all, n as nat) =~= rows(out@));
    out
}

/// The tools of each session.
pub open spec fn tools_of(s: ToolCallSequence) -> Seq<Seq<char>> {
    text::strs(s.tool_names@)
}

/// The runs of all sessions, one session after the other.
pub open spec fn all_runs(s: Seq<ToolCallSequence>, min: nat) -> Seq<Seq<Seq<char>>>
    decreases s.len(),
{
    if s.len() == 0 {
        Seq::empty()
    } else {
        all_runs(s.drop_last(), min) + ngrams(tools_of(s.last()), min)
    }
}

/// Whether one of the runs is identified by `h`.
pub open spec fn has_hash(runs: Seq<Seq<Seq<char>>>, h: Seq<char>) -> bool {
    exists|i: int| 0 <= i < runs.len() && hash(#[trigger] runs[i]) == h
}

/// The chats of the sessions with a run that `h` identifies, in order; each
/// session counts once.
pub open spec fn sessions_with(s: Seq<ToolCallSequence>, min: nat, h: Seq<char>) -> Seq<i64>
    decreases s.len(),
{
    if s.len() == 0 {
        Seq::empty()
    } else {
        let front = sessions_with(s.drop_last(), min, h);
        if has_hash(ngrams(tools_of(s.last()), min), h) {
            front.push(s.last().chat_id)
        } else {
            front
        }
    }
}

/// The first of the runs from `i` on that `h` identifies.
pub open spec fn first_run(runs: Seq<Seq<Seq<char>>>, h: Seq<char>, i: int) -> Seq<Seq<char>>
    decreases runs.len() - i,
{
    if i < 0 || i >= runs.len() {
        Seq::empty()
    } else if hash(runs[i]) == h {
        runs[i]
    } else {
        first_run(runs, h, i + 1)
    }
}

/// Whether enough sessions, and at least one, have a run that `h` identifies.
pub open spec fn is_frequent(
    s: Seq<ToolCallSequence>,
    min: nat,
    min_occurrences: nat,
    h: Seq<char>,
) -> bool {
    sessions_with(s, min, h).len() >= min_occurrences && sessions_with(s, min, h).len() > 0
}

/// The pattern of the runs that `h` identifies, with at most five examples.
pub open spec fn pattern_of(s: Seq<ToolCallSequence>, min: nat, h: Seq<char>) -> PatternV {
    let chats = sessions_with(s, min, h);
    PatternV {
        sequence: first_run(all_runs(s, min), h, 0),
        occurrences: chats.len(),
        hash: h,
        example_chat_ids: if chats.len() > 5 {
            chats.take(5)
        } else {
            chats
        },
    }
}

/// Whether `inner` stands in `outer` without a gap.
pub open spec fn is_window(inner: Seq<Seq<char>>, outer: Seq<Seq<char>>) -> bool {
    exists|i: int|
        0 <= i && i + inner.len() <= outer.len() && #[trigger] outer.subrange(i, i + inner.len())
            == inner
}

/// Whether a pattern makes another superfluous: a longer one that contains it.
pub open spec fn dominates(q: PatternV, p: PatternV) -> bool {
    q.sequence.len() > p.sequence.len() && is_window(p.sequence, q.sequence)
}

/// Whether a pattern may stand before another: more frequent, or as frequent and
/// not shorter.
pub open spec fn in_order(p: PatternV, q: PatternV) -> bool {
    p.occurrences > q.occurrences || (p.occurrences == q.occurrences && p.sequence.len()
        >= q.sequence.len())
}

/// Whether a pattern is reported: frequent, and not contained in a longer one that
/// is.
pub open spec fn is_reported(
    s: Seq<ToolCallSequence>,
    min: nat,
    min_occurrences: nat,
    h: Seq<char>,
) -> bool {
    &&& is_frequent(s, min, min_occurrences, h)
    &&& forall|g: Seq<char>|
        is_frequent(s, min, min_occurrences, g) ==> !dominates(
            #[trigger] pattern_of(s, min, g),
            pattern_of(s, min, h),
        )
}

/// The views of patterns.
pub open spec fn pattern_views(v: Seq<ToolPattern>) -> Seq<PatternV> {
    Seq::new(v.len(), |i: int| v[i]@)
}

/// Whether `res` lists the patterns to report: each once, each as it is, and in
/// order.
pub open spec fn reports(
    s: Seq<ToolCallSequence>,
    min: nat,
    min_occurrences: nat,
    res: Seq<PatternV>,
) -> bool {
    &&& forall|i: int|
        0 <= i < res.len() ==> is_reported(s, min, min_occurrences, (#[trigger] res[i]).hash)
            && res[i] == pattern_of(s, min, res[i].hash)
    &&& forall|h: Seq<char>| #[trigger]
        is_reported(s, min, min_occurrences, h) ==> exists|i: int|
            0 <= i < res.len() && (#[trigger] res[i]).hash == h
    &&& forall|i: int, j: int|
        0 <= i < j < res.len() ==> (#[trigger] res[i]).hash != (#[trigger] res[j]).hash && in_order(
            res[i],
            res[j],
        )
}

/// A part of a part is a part.
proof fn lemma_window_transitive(a: Seq<Seq<char>>, b: Seq<Seq<char>>, c: Seq<Seq<char>>)
    requires
        is_window(a, b),
        is_window(b, c),
    ensures
        is_window(a, c),
{
    let i = choose|i: int|
        0 <= i && i + a.len() <= b.len() && #[trigger] b.subrange(i, i + a.len()) == a;
    let j = choose|j: int|
        0 <= j && j + b.len() <= c.len() && #[trigger] c.subrange(j, j + b.len()) == b;
    assert(c.subrange(i + j, i + j + a.len()) =~= b.subrange(i, i + a.len()));
}

/// What makes a pattern superfluous that makes another superfluous, makes that
/// one superfluous too.
pub proof fn law_dominates_transitive(r: PatternV, q: PatternV, p: PatternV)
    requires
        dominates(r, q),
        dominates(q, p),
    ensures
        dominates(r, p),
{
    lemma_window_transitive(p.sequence, q.sequence, r.sequence);
}

/// The runs of all sessions hold those of each.
proof fn lemma_all_runs_hash(s: Seq<ToolCallSequence>, min: nat, h: Seq<char>)
    ensures
        has_hash(all_runs(s, min), h) <==> sessions_with(s, min, h).len() > 0,
    decreases s.len(),
{
    if s.len() > 0 {
        lemma_all_runs_hash(s.drop_last(), min, h);
        let front = all_runs(s.drop_last(), min);
        let last = ngrams(tools_of(s.last()), min);
        let whole = all_runs(s, min);
        if has_hash(whole, h) {
            let i = choose|i: int| 0 <= i < whole.len() && hash(#[trigger] whole[i]) == h;
            if i < front.len() {
                assert(front[i] == whole[i]);
            } else {
                assert(last[i - front.len()] == whole[i]);
            }
        }
        if has_hash(front, h) {
            let i = choose|i: int| 0 <= i < front.len() && hash(#[trigger] front[i]) == h;
            assert(whole[i] == front[i]);
        }
        if has_hash(last, h) {
            let i = choose|i: int| 0 <= i < last.len() && hash(#[trigger] last[i]) == h;
            assert(whole[front.len() + i] == last[i]);
        }
    }
}

/// The first run that `h` identifies stands where none before it is identified
/// by `h`.
proof fn lemma_first_run(runs: Seq<Seq<Seq<char>>>, h: Seq<char>, i: int, k: int)
    requires
        0 <= i <= k < runs.len(),
        hash(runs[k]) == h,
        forall|j: int| i <= j < k ==> hash(#[trigger] runs[j]) != h,
    ensures
        first_run(runs, h, i) == runs[k],
    decreases k - i,
{
    if i < k {
        lemma_first_run(runs, h, i + 1, k);
    }
}

/// A run of a session is a part of it, neither shorter nor longer than asked for.
proof fn lemma_ngram_is_window(tools: Seq<Seq<char>>, n: nat, i: int)
    requires
        0 <= i < ngrams(tools, n).len(),
    ensures
        n <= ngrams(tools, n)[i].len() <= 8,
        is_window(ngrams(tools, n)[i], tools),
    decreases longest(tools) + 1 - n,
{
    let here = windows(tools, n);
    let run = ngrams(tools, n)[i];
    if i < here.len() {
        assert(run == tools.subrange(i, i + n));
        assert(tools.subrange(i, i + run.len()) == run);
    } else {
        lemma_ngram_is_window(tools, n + 1, i - here.len());
        assert(run == ngrams(tools, n + 1)[i - here.len()]);
    }
}

/// A run of all sessions is a run of one of them.
proof fn lemma_run_of_a_session(s: Seq<ToolCallSequence>, min: nat, i: int) -> (k: int)
    requires
        0 <= i < all_runs(s, min).len(),
    ensures
        0 <= k < s.len(),
        ngrams(tools_of(s[k]), min).contains(all_runs(s, min)[i]),
    decreases s.len(),
{
    let front = all_runs(s.drop_last(), min);
    let last = ngrams(tools_of(s.last()), min);
    if i < front.len() {
        let k = lemma_run_of_a_session(s.drop_last(), min, i);
        assert(s.drop_last()[k] == s[k]);
        k
    } else {
        assert(last[i - front.len()] == all_runs(s, min)[i]);
        s.len() - 1
    }
}

/// Each session that is counted has the run, and is one of the sessions.
proof fn lemma_counted_session(s: Seq<ToolCallSequence>, min: nat, h: Seq<char>, i: int) -> (k: int)
    requires
        0 <= i < sessions_with(s, min, h).len(),
    ensures
        0 <= k < s.len(),
        s[k].chat_id == sessions_with(s, min, h)[i],
        has_hash(ngrams(tools_of(s[k]), min), h),
    decreases s.len(),
{
    let front = sessions_with(s.drop_last(), min, h);
    if i < front.len() {
        let k = lemma_counted_session(s.drop_last(), min, h, i);
        assert(s.drop_last()[k] == s[k]);
        k
    } else {
        s.len() - 1
    }
}

/// A pattern that is reported is a run of tools of one of the sessions, of at
/// least the length asked for and at most eight; enough sessions have it; and
/// its examples, five at most, are chats of sessions that have it.
pub proof fn law_reported_is_a_frequent_run(
    s: Seq<ToolCallSequence>,
    min: nat,
    min_occurrences: nat,
    res: Seq<PatternV>,
    i: int,
)
    requires
        reports(s, min, min_occurrences, res),
        0 <= i < res.len(),
    ensures
        res[i].occurrences >= min_occurrences,
        res[i].occurrences > 0,
        hash(res[i].sequence) == res[i].hash,
        min <= res[i].sequence.len() <= 8,
        exists|k: int|
            0 <= k < s.len() && is_window(res[i].sequence, #[trigger] tools_of(s[k])),
        res[i].example_chat_ids.len() <= 5,
        forall|j: int|
            0 <= j < res[i].example_chat_ids.len() ==> exists|k: int|
                0 <= k < s.len() && s[k].chat_id == #[trigger] res[i].example_chat_ids[j]
                    && has_hash(ngrams(#[trigger] tools_of(s[k]), min), res[i].hash),
{
    let h = res[i].hash;
    let runs = all_runs(s, min);
    assert(is_reported(s, min, min_occurrences, h));
    lemma_all_runs_hash(s, min, h);
    let first = choose|n: int| 0 <= n < runs.len() && hash(#[trigger] runs[n]) == h;
    let at = lemma_first_run_found(runs, h, 0, first);
    let k = lemma_run_of_a_session(s, min, at);
    let own = ngrams(tools_of(s[k]), min);
    let m = choose|m: int| 0 <= m < own.len() && own[m] == runs[at];
    lemma_ngram_is_window(tools_of(s[k]), min, m);
    assert forall|j: int| 0 <= j < res[i].example_chat_ids.len() implies exists|k: int|
        0 <= k < s.len() && s[k].chat_id == #[trigger] res[i].example_chat_ids[j] && has_hash(
            ngrams(#[trigger] tools_of(s[k]), min),
            h,
        ) by {
        let c = lemma_counted_session(s, min, h, j);
        assert(tools_of(s[c]) == tools_of(s[c]));
    }
}

/// No pattern that is reported makes another one that is reported superfluous.
pub proof fn law_reported_are_not_superfluous(
    s: Seq<ToolCallSequence>,
    min: nat,
    min_occurrences: nat,
    res: Seq<PatternV>,
    i: int,
    j: int,
)
    requires
        reports(s, min, min_occurrences, res),
        0 <= i < res.len(),
        0 <= j < res.len(),
    ensures
        !dominates(res[i], res[j]),
{
    assert(is_reported(s, min, min_occurrences, res[i].hash));
    assert(is_reported(s, min, min_occurrences, res[j].hash));
    assert(pattern_of(s, min, res[i].hash) == res[i]);
}

/// Every run is looked at: wherever it stands in a session, however long the session
/// is; and nothing else is.
pub proof fn law_every_run_is_looked_at(tools: Seq<Seq<char>>, min: nat)
    ensures
        forall|i: int, n: int|
            min <= n <= 8 && 0 <= i && i + n <= tools.len() ==> ngrams(tools, min).contains(
                #[trigger] tools.subrange(i, i + n),
            ),
        forall|run: Seq<Seq<char>>| #[trigger]
            ngrams(tools, min).contains(run) ==> min <= run.len() <= 8 && exists|i: int|
                0 <= i && i + run.len() <= tools.len() && run == #[trigger] tools.subrange(
                    i,
                    i + run.len(),
                ),
{
    assert forall|i: int, n: int|
        min <= n <= 8 && 0 <= i && i + n <= tools.len() implies ngrams(tools, min).contains(
        #[trigger] tools.subrange(i, i + n),
    ) by {
        lemma_run_is_looked_at(tools, min, i, n as nat);
    }
    assert forall|run: Seq<Seq<char>>| #[trigger] ngrams(tools, min).contains(run) implies min
        <= run.len() <= 8 && exists|i: int|
        0 <= i && i + run.len() <= tools.len() && run == #[trigger] tools.subrange(
            i,
            i + run.len(),
        ) by {
        let k = choose|k: int| 0 <= k < ngrams(tools, min).len() && ngrams(tools, min)[k] == run;
        lemma_ngram_is_window(tools, min, k);
    }
}

proof fn lemma_run_is_looked_at(tools: Seq<Seq<char>>, min: nat, i: int, n: nat)
    requires
        min <= n <= 8,
        0 <= i,
        i + n <= tools.len(),
    ensures
        ngrams(tools, min).contains(tools.subrange(i, i + n)),
    decreases n - min,
{
    let here = windows(tools, min);
    let rest = ngrams(tools, min + 1);
    let all = ngrams(tools, min);
    assert(all == here + rest);
    if min == n {
        assert(here[i] == tools.subrange(i, i + n));
        assert(all[i] == here[i]);
    } else {
        lemma_run_is_looked_at(tools, min + 1, i, n);
        let k = choose|k: int| 0 <= k < rest.len() && rest[k] == tools.subrange(i, i + n);
        assert(all[here.len() + k] == rest[k]);
    }
}

/// Whether no tool of a session has a bar in its name.
pub open spec fn no_bars(tools: Seq<Seq<char>>) -> bool {
    forall|i: int| 0 <= i < tools.len() ==> !(#[trigger] tools[i]).contains('|')
}

/// Runs without bars in their names are told apart by their names.
pub proof fn law_runs_are_told_apart(a: Seq<Seq<char>>, b: Seq<Seq<char>>)
    requires
        a.len() > 0,
        b.len() > 0,
        no_bars(a),
        no_bars(b),
        hash(a) == hash(b),
    ensures
        a == b,
{
    reveal_strlit("|");
    assert("|"@ =~= seq!['|']);
    text::law_join_then_split(a, '|');
    text::law_join_then_split(b, '|');
}

proof fn lemma_part_without_bars(tools: Seq<Seq<char>>, i: int, n: int)
    requires
        no_bars(tools),
        0 <= i <= i + n <= tools.len(),
    ensures
        no_bars(tools.subrange(i, i + n)),
{
    assert forall|j: int| 0 <= j < n implies !(#[trigger] tools.subrange(i, i + n)[j]).contains(
        '|',
    ) by {
        assert(tools.subrange(i, i + n)[j] == tools[i + j]);
    }
}

/// A run is one of a session, without bars, where it is told by its names.
proof fn lemma_session_has_run(tools: Seq<Seq<char>>, min: nat, w: Seq<Seq<char>>)
    requires
        1 <= min <= w.len() <= 8,
        no_bars(tools),
        no_bars(w),
    ensures
        has_hash(ngrams(tools, min), hash(w)) <==> is_window(w, tools),
{
    let runs = ngrams(tools, min);
    if is_window(w, tools) {
        let i = choose|i: int|
            0 <= i && i + w.len() <= tools.len() && #[trigger] tools.subrange(i, i + w.len()) == w;
        lemma_run_is_looked_at(tools, min, i, w.len());
        let k = choose|k: int| 0 <= k < runs.len() && runs[k] == w;
        assert(hash(runs[k]) == hash(w));
    }
    if has_hash(runs, hash(w)) {
        let k = choose|k: int| 0 <= k < runs.len() && hash(#[trigger] runs[k]) == hash(w);
        lemma_ngram_is_window(tools, min, k);
        let run = runs[k];
        let i = choose|i: int|
            0 <= i && i + run.len() <= tools.len() && #[trigger] tools.subrange(i, i + run.len())
                == run;
        lemma_part_without_bars(tools, i, run.len() as int);
        law_runs_are_told_apart(run, w);
    }
}

/// The sessions that are counted for a run, by their places: each of those that have
/// it, once and in order.
proof fn lemma_counted_places(s: Seq<ToolCallSequence>, min: nat, h: Seq<char>) -> (at: Seq<int>)
    ensures
        at.len() == sessions_with(s, min, h).len(),
        forall|j: int| 0 <= j < at.len() ==> 0 <= #[trigger] at[j] < s.len(),
        forall|j: int|
            0 <= j < at.len() ==> s[#[trigger] at[j]].chat_id == sessions_with(s, min, h)[j],
        forall|i: int, j: int| 0 <= i < j < at.len() ==> at[i] < at[j],
        forall|k: int|
            0 <= k < s.len() ==> (has_hash(ngrams(tools_of(#[trigger] s[k]), min), h)
                <==> at.contains(k)),
    decreases s.len(),
{
    if s.len() == 0 {
        Seq::empty()
    } else {
        let front = s.drop_last();
        let before = lemma_counted_places(front, min, h);
        let n = s.len() - 1;
        let at = if has_hash(ngrams(tools_of(s.last()), min), h) {
            before.push(n)
        } else {
            before
        };
        assert forall|j: int| 0 <= j < at.len() implies s[#[trigger] at[j]].chat_id
            == sessions_with(s, min, h)[j] by {
            if j < before.len() {
                assert(front[before[j]] == s[at[j]]);
            }
        }
        assert forall|k: int| 0 <= k < s.len() implies (has_hash(
            ngrams(tools_of(#[trigger] s[k]), min),
            h,
        ) <==> at.contains(k)) by {
            if k < n {
                assert(front[k] == s[k]);
                if before.contains(k) {
                    let j = choose|j: int| 0 <= j < before.len() && before[j] == k;
                    assert(at[j] == k);
                }
                if at.contains(k) {
                    let j = choose|j: int| 0 <= j < at.len() && at[j] == k;
                    assert(before[j] == k);
                }
            } else {
                if has_hash(ngrams(tools_of(s[k]), min), h) {
                    assert(at[before.len() as int] == n);
                }
                if at.contains(n) && at == before {
                    let j = choose|j: int| 0 <= j < before.len() && before[j] == n;
                    assert(before[j] < front.len());
                }
            }
        }
        at
    }
}

/// Whether a session has a run: its tools stand somewhere in it without a gap.
pub open spec fn has_run(s: ToolCallSequence, w: Seq<Seq<char>>) -> bool {
    exists|i: int|
        0 <= i && i + w.len() <= s.tool_names@.len() && #[trigger] text::strs(
            s.tool_names@,
        ).subrange(i, i + w.len()) == w
}

/// A pattern counts the sessions that have its run, each once, wherever in the session
/// it stands and however often; its examples are the chats of the first five of them.
pub proof fn law_sessions_are_counted(
    s: Seq<ToolCallSequence>,
    min: nat,
    min_occurrences: nat,
    res: Seq<PatternV>,
    i: int,
) -> (at: Seq<int>)
    requires
        reports(s, min, min_occurrences, res),
        1 <= min,
        forall|k: int| 0 <= k < s.len() ==> no_bars(tools_of(#[trigger] s[k])),
        0 <= i < res.len(),
    ensures
        forall|k: int|
            0 <= k < s.len() ==> (has_run(#[trigger] s[k], res[i].sequence) <==> at.contains(k)),
        forall|j: int| 0 <= j < at.len() ==> 0 <= #[trigger] at[j] < s.len(),
        forall|j: int, k: int| 0 <= j < k < at.len() ==> at[j] < at[k],
        res[i].occurrences == at.len(),
        res[i].example_chat_ids.len() == if at.len() < 5 {
            at.len()
        } else {
            5
        },
        forall|j: int|
            0 <= j < res[i].example_chat_ids.len() ==> #[trigger] res[i].example_chat_ids[j]
                == s[at[j]].chat_id,
{
    let h = res[i].hash;
    let w = res[i].sequence;
    law_reported_is_a_frequent_run(s, min, min_occurrences, res, i);
    let c = choose|c: int| 0 <= c < s.len() && is_window(w, #[trigger] tools_of(s[c]));
    let x = choose|x: int|
        0 <= x && x + w.len() <= tools_of(s[c]).len() && #[trigger] tools_of(s[c]).subrange(
            x,
            x + w.len(),
        ) == w;
    lemma_part_without_bars(tools_of(s[c]), x, w.len() as int);
    let at = lemma_counted_places(s, min, h);
    assert forall|k: int| 0 <= k < s.len() implies (has_run(#[trigger] s[k], w) <==> at.contains(
        k,
    )) by {
        lemma_session_has_run(tools_of(s[k]), min, w);
        lemma_has_run(s[k], w);
    }
    assert forall|j: int| 0 <= j < res[i].example_chat_ids.len() implies #[trigger] res[i]
        .example_chat_ids[j] == s[at[j]].chat_id by {
        assert(sessions_with(s, min, h)[j] == s[at[j]].chat_id);
    }
    at
}

proof fn lemma_has_run(s: ToolCallSequence, w: Seq<Seq<char>>)
    ensures
        has_run(s, w) <==> is_window(w, tools_of(s)),
{
    let tools = tools_of(s);
    if is_window(w, tools) {
        let i = choose|i: int|
            0 <= i && i + w.len() <= tools.len() && #[trigger] tools.subrange(i, i + w.len()) == w;
        assert(text::strs(s.tool_names@).subrange(i, i + w.len()) == w);
    }
    if has_run(s, w) {
        let i = choose|i: int|
            0 <= i && i + w.len() <= s.tool_names@.len() && #[trigger] text::strs(
                s.tool_names@,
            ).subrange(i, i + w.len()) == w;
        assert(tools.subrange(i, i + w.len()) == w);
    }
}

/// Places that are different are not more than the sessions that are counted.
proof fn lemma_count_at_least(
    s: Seq<ToolCallSequence>,
    min: nat,
    h: Seq<char>,
    places: Set<int>,
)
    requires
        places.finite(),
        forall|k: int| #[trigger]
            places.contains(k) ==> 0 <= k < s.len() && has_hash(ngrams(tools_of(s[k]), min), h),
    ensures
        places.len() <= sessions_with(s, min, h).len(),
    decreases s.len(),
{
    if s.len() == 0 {
        assert(places =~= Set::empty());
    } else {
        let front = s.drop_last();
        let n = s.len() - 1;
        let rest = places.remove(n);
        assert forall|k: int| #[trigger] rest.contains(k) implies 0 <= k < front.len() && has_hash(
            ngrams(tools_of(front[k]), min),
            h,
        ) by {
            assert(places.contains(k));
            assert(front[k] == s[k]);
        }
        lemma_count_at_least(front, min, h, rest);
        if !places.contains(n) {
            assert(rest =~= places);
        }
    }
}

/// A run that is frequent is a part of one that is reported.
proof fn lemma_reported_above(
    s: Seq<ToolCallSequence>,
    min: nat,
    min_occurrences: nat,
    h: Seq<char>,
) -> (g: Seq<char>)
    requires
        is_frequent(s, min, min_occurrences, h),
    ensures
        is_reported(s, min, min_occurrences, g),
        is_window(pattern_of(s, min, h).sequence, pattern_of(s, min, g).sequence),
    decreases 8 - pattern_of(s, min, h).sequence.len(),
{
    let p = pattern_of(s, min, h);
    if is_reported(s, min, min_occurrences, h) {
        assert(p.sequence.subrange(0, p.sequence.len() as int) =~= p.sequence);
        assert(p.sequence.subrange(0, 0int + p.sequence.len()) == p.sequence);
        h
    } else {
        let g = choose|g: Seq<char>|
            is_frequent(s, min, min_occurrences, g) && dominates(
                #[trigger] pattern_of(s, min, g),
                p,
            );
        lemma_frequent_length(s, min, min_occurrences, g);
        let top = lemma_reported_above(s, min, min_occurrences, g);
        lemma_window_transitive(
            p.sequence,
            pattern_of(s, min, g).sequence,
            pattern_of(s, min, top).sequence,
        );
        top
    }
}

/// The pattern of frequent runs is a run, which its names identify.
proof fn lemma_frequent_length(
    s: Seq<ToolCallSequence>,
    min: nat,
    min_occurrences: nat,
    h: Seq<char>,
) -> (k: int)
    requires
        is_frequent(s, min, min_occurrences, h),
    ensures
        0 <= k < s.len(),
        min <= pattern_of(s, min, h).sequence.len() <= 8,
        hash(pattern_of(s, min, h).sequence) == h,
        is_window(pattern_of(s, min, h).sequence, tools_of(s[k])),
{
    let runs = all_runs(s, min);
    lemma_all_runs_hash(s, min, h);
    let first = choose|n: int| 0 <= n < runs.len() && hash(#[trigger] runs[n]) == h;
    let at = lemma_first_run_found(runs, h, 0, first);
    let k = lemma_run_of_a_session(s, min, at);
    let own = ngrams(tools_of(s[k]), min);
    let m = choose|m: int| 0 <= m < own.len() && own[m] == runs[at];
    lemma_ngram_is_window(tools_of(s[k]), min, m);
    k
}

/// A run that enough sessions have is a part of a pattern that is reported.
pub proof fn law_frequent_run_is_reported(
    s: Seq<ToolCallSequence>,
    min: nat,
    min_occurrences: nat,
    res: Seq<PatternV>,
    w: Seq<Seq<char>>,
    places: Set<int>,
) -> (at: (int, int))
    requires
        reports(s, min, min_occurrences, res),
        1 <= min <= w.len() <= 8,
        forall|k: int| 0 <= k < s.len() ==> no_bars(tools_of(#[trigger] s[k])),
        places.finite(),
        places.len() >= min_occurrences,
        places.len() > 0,
        forall|k: int| #[trigger] places.contains(k) ==> 0 <= k < s.len() && has_run(s[k], w),
    ensures
        0 <= at.0 < res.len(),
        0 <= at.1 <= at.1 + w.len() <= res[at.0].sequence.len(),
        res[at.0].sequence.subrange(at.1, at.1 + w.len()) == w,
{
    let h = hash(w);
    let c = places.choose();
    assert(places.contains(c));
    let tools = tools_of(s[c]);
    lemma_has_run(s[c], w);
    let x = choose|x: int|
        0 <= x && x + w.len() <= tools.len() && #[trigger] tools.subrange(x, x + w.len()) == w;
    lemma_part_without_bars(tools, x, w.len() as int);
    assert forall|k: int| #[trigger] places.contains(k) implies 0 <= k < s.len() && has_hash(
        ngrams(tools_of(s[k]), min),
        h,
    ) by {
        lemma_has_run(s[k], w);
        lemma_session_has_run(tools_of(s[k]), min, w);
    }
    lemma_count_at_least(s, min, h, places);
    assert(is_frequent(s, min, min_occurrences, h));
    let k = lemma_frequent_length(s, min, min_occurrences, h);
    let run = pattern_of(s, min, h).sequence;
    let y = choose|y: int|
        0 <= y && y + run.len() <= tools_of(s[k]).len() && #[trigger] tools_of(s[k]).subrange(
            y,
            y + run.len(),
        ) == run;
    lemma_part_without_bars(tools_of(s[k]), y, run.len() as int);
    law_runs_are_told_apart(run, w);
    let g = lemma_reported_above(s, min, min_occurrences, h);
    let i = choose|i: int| 0 <= i < res.len() && (#[trigger] res[i]).hash == g;
    assert(res[i] == pattern_of(s, min, g));
    let z = choose|z: int|
        0 <= z && z + w.len() <= res[i].sequence.len() && #[trigger] res[i].sequence.subrange(
            z,
            z + w.len(),
        ) == w;
    (i, z)
}

/// Patterns are reported in order, the more frequent first and of those the longer; and
/// none is a part of another.
pub proof fn law_patterns_are_ordered(
    s: Seq<ToolCallSequence>,
    min: nat,
    min_occurrences: nat,
    res: Seq<PatternV>,
)
    requires
        reports(s, min, min_occurrences, res),
    ensures
        forall|i: int, j: int|
            0 <= i < j < res.len() ==> (#[trigger] res[i]).occurrences >= (
            #[trigger] res[j]).occurrences,
        forall|i: int, j: int|
            0 <= i < j < res.len() && (#[trigger] res[i]).occurrences == (
            #[trigger] res[j]).occurrences ==> res[i].sequence.len() >= res[j].sequence.len(),
        forall|i: int, j: int, a: int, b: int|
            #![trigger res[i], res[j].sequence.subrange(a, b)]
            0 <= i < res.len() && 0 <= j < res.len() && 0 <= a <= b <= res[j].sequence.len() && b
                - a < res[j].sequence.len() ==> res[j].sequence.subrange(a, b) != res[i].sequence,
{
    assert forall|i: int, j: int, a: int, b: int|
        #![trigger res[i], res[j].sequence.subrange(a, b)]
        0 <= i < res.len() && 0 <= j < res.len() && 0 <= a <= b <= res[j].sequence.len() && b - a
            < res[j].sequence.len() implies res[j].sequence.subrange(a, b) != res[i].sequence by {
        law_reported_are_not_superfluous(s, min, min_occurrences, res, j, i);
        if res[j].sequence.subrange(a, b) == res[i].sequence {
            let n = res[i].sequence.len();
            assert(res[j].sequence.subrange(a, a + n) == res[i].sequence);
        }
    }
}

/// The first run that `h` identifies is found where there is one.
proof fn lemma_first_run_found(runs: Seq<Seq<Seq<char>>>, h: Seq<char>, i: int, n: int) -> (at: int)
    requires
        0 <= i <= n < runs.len(),
        hash(runs[n]) == h,
    ensures
        i <= at <= n,
        hash(runs[at]) == h,
        first_run(runs, h, i) == runs[at],
    decreases n - i,
{
    if hash(runs[i]) == h {
        i
    } else {
        lemma_first_run_found(runs, h, i + 1, n)
    }
}

/// The runs of all sessions.
fn collect_runs(sequences: &[ToolCallSequence], min: usize) -> (res: (
    Vec<Vec<String>>,
    Vec<Vec<String>>,
))
    requires
        min >= 1,
    ensures
        rows(res.0@) == all_runs(sequences@, min as nat),
        res.1@.len() == sequences@.len(),
        forall|k: int|
            0 <= k < sequences@.len() ==> hashes_of(
                ngrams(tools_of(sequences@[k]), min as nat),
            ) == text::strs((#[trigger] res.1@[k])@),
{
    let mut runs: Vec<Vec<String>> = Vec::new();
    let mut lists: Vec<Vec<String>> = Vec::new();
    let mut k: usize = 0;
    assert(sequences@.take(0) =~= Seq::empty());
    assert(rows(runs@) =~= all_runs(sequences@.take(0), min as nat));
    while k < sequences.len()
        invariant
            k <= sequences@.len(),
            min >= 1,
            rows(runs@) == all_runs(sequences@.take(k as int), min as nat),
            lists@.len() == k,
            forall|j: int|
                0 <= j < k ==> hashes_of(ngrams(tools_of(sequences@[j]), min as nat))
                    == text::strs((#[trigger] lists@[j])@),
        decreases sequences@.len() - k,
    {
        let ghost before = rows(runs@);
        let ghost s = sequences@.take(k + 1);
        assert(s.drop_last() =~= sequences@.take(k as int));
        assert(s.last() == sequences@[k as int]);
        let mut found = extract_ngrams(&sequences[k].tool_names, min);
        let ghost found_rows = rows(found@);
        let hashes = hash_all(&found);
        let ghost runs_before = runs@;
        let ghost found_before = found@;
        runs.append(&mut found);
        assert(rows(runs@) =~= before + found_rows) by {
            assert(runs@ =~= runs_before + found_before);
        }
        lists.push(hashes);
        k += 1;
    }
    assert(sequences@.take(sequences@.len() as int) =~= sequences@);
    (runs, lists)
}

/// What identifies each of the runs.
pub open spec fn hashes_of(runs: Seq<Seq<Seq<char>>>) -> Seq<Seq<char>> {
    Seq::new(runs.len(), |i: int| hash(runs[i]))
}

fn hash_all(runs: &Vec<Vec<String>>) -> (res: Vec<String>)
    ensures
        text::strs(res@) == hashes_of(rows(runs@)),
{
    let mut out: Vec<String> = Vec::new();
    let mut i: usize = 0;
    while i < runs.len()
        invariant
            i <= runs@.len(),
            text::strs(out@) == hashes_of(rows(runs@)).take(i as int),
        decreases runs@.len() - i,
    {
        let ghost before = text::strs(out@);
        let h = hash_sequence(&runs[i]);
        out.push(h);
        assert(text::strs(out@) =~= before.push(h@));
        assert(hashes_of(rows(runs@)).take(i + 1) =~= hashes_of(rows(runs@)).take(i as int).push(
            hashes_of(rows(runs@))[i as int],
        ));
        i += 1;
    }
    assert(text::strs(out@) =~= hashes_of(rows(runs@)));
    out
}

/// Whether one of the first `n` texts is `h`.
fn among(list: &Vec<String>, n: usize, h: &str) -> (res: bool)
    requires
        n <= list@.len(),
    ensures
        res == exists|i: int| 0 <= i < n && (#[trigger] text::strs(list@)[i]) == h@,
{
    let ghost views = text::strs(list@);
    let mut i: usize = 0;
    while i < n
        invariant
            i <= n <= list@.len(),
            views == text::strs(list@),
            forall|j: int| 0 <= j < i ==> (#[trigger] views[j]) != h@,
        decreases n - i,
    {
        if text::same(list[i].as_str(), h) {
            assert(views[i as int] == h@);
            return true;
        }
        i += 1;
    }
    false
}

/// The chats of the sessions with a run that `h` identifies.
fn chats_with(
    sequences: &[ToolCallSequence],
    lists: &Vec<Vec<String>>,
    min: usize,
    h: &str,
) -> (res: Vec<i64>)
    requires
        lists@.len() == sequences@.len(),
        forall|k: int|
            0 <= k < sequences@.len() ==> hashes_of(ngrams(tools_of(sequences@[k]), min as nat))
                == text::strs((#[trigger] lists@[k])@),
    ensures
        res@ == sessions_with(sequences@, min as nat, h@),
{
    let mut out: Vec<i64> = Vec::new();
    let mut k: usize = 0;
    assert(sequences@.take(0) =~= Seq::empty());
    assert(out@ =~= sessions_with(sequences@.take(0), min as nat, h@));
    while k < sequences.len()
        invariant
            k <= sequences@.len(),
            lists@.len() == sequences@.len(),
            forall|k: int|
                0 <= k < sequences@.len() ==> hashes_of(
                    ngrams(tools_of(sequences@[k]), min as nat),
                ) == text::strs((#[trigger] lists@[k])@),
            out@ == sessions_with(sequences@.take(k as int), min as nat, h@),
        decreases sequences@.len() - k,
    {
        let ghost s = sequences@.take(k + 1);
        assert(s.drop_last() =~= sequences@.take(k as int));
        assert(s.last() == sequences@[k as int]);
        let ghost runs = ngrams(tools_of(sequences@[k as int]), min as nat);
        let found = among(&lists[k], lists[k].len(), h);
        assert(found == has_hash(runs, h@)) by {
            let views = text::strs(lists@[k as int]@);
            assert(views == hashes_of(runs));
            assert(views.len() == lists@[k as int]@.len());
            assert(views.len() == runs.len());
            if found {
                let i = choose|i: int|
                    0 <= i < lists@[k as int]@.len() && (#[trigger] views[i]) == h@;
                assert(hash(runs[i]) == h@);
            }
            if has_hash(runs, h@) {
                let i = choose|i: int| 0 <= i < runs.len() && hash(#[trigger] runs[i]) == h@;
                assert(views[i] == h@);
            }
        }
        if found {
            out.push(sequences[k].chat_id);
        }
        k += 1;
    }
    assert(sequences@.take(sequences@.len() as int) =~= sequences@);
    out
}

/// The pattern of the run at `k`, which none before it repeats.
fn build_pattern(run: &Vec<String>, h: &str, chats: &Vec<i64>) -> (res: ToolPattern)
    ensures
        res@ == (PatternV {
            sequence: text::strs(run@),
            occurrences: chats@.len(),
            hash: h@,
            example_chat_ids: if chats@.len() > 5 {
                chats@.take(5)
            } else {
                chats@
            },
        }),
{
    let mut examples: Vec<i64> = Vec::new();
    let mut i: usize = 0;
    while i < chats.len() && i < 5
        invariant
            i <= chats@.len(),
            i <= 5,
            examples@ == chats@.take(i as int),
        decreases chats@.len() - i,
    {
        examples.push(chats[i]);
        assert(examples@ =~= chats@.take(i + 1));
        i += 1;
    }
    assert(i == chats@.len() ==> chats@.take(i as int) =~= chats@);
    let sequence = copy_range(run, 0, run.len());
    assert(text::strs(sequence@) =~= text::strs(run@));
    ToolPattern {
        sequence,
        occurrences: chats.len(),
        hash: h.to_owned(),
        example_chat_ids: examples,
    }
}

/// Whether `res` lists the frequent patterns, each once and as it is.
spec fn lists_frequent(
    s: Seq<ToolCallSequence>,
    min: nat,
    min_occurrences: nat,
    res: Seq<PatternV>,
) -> bool {
    &&& forall|i: int|
        0 <= i < res.len() ==> is_frequent(s, min, min_occurrences, (#[trigger] res[i]).hash)
            && res[i] == pattern_of(s, min, res[i].hash)
    &&& forall|h: Seq<char>| #[trigger]
        is_frequent(s, min, min_occurrences, h) ==> exists|i: int|
            0 <= i < res.len() && (#[trigger] res[i]).hash == h
    &&& forall|i: int, j: int|
        0 <= i < j < res.len() ==> (#[trigger] res[i]).hash != (#[trigger] res[j]).hash
}

/// The frequent patterns, in the order of their first run.
fn frequent_patterns(
    sequences: &[ToolCallSequence],
    min: usize,
    min_occurrences: usize,
) -> (res: Vec<ToolPattern>)
    requires
        min >= 1,
    ensures
        lists_frequent(sequences@, min as nat, min_occurrences as nat, pattern_views(res@)),
{
    let (runs, lists) = collect_runs(sequences, min);
    let hashes = hash_all(&runs);
    let ghost views = rows(runs@);
    let ghost keys = hashes_of(views);
    assert(text::strs(hashes@).len() == keys.len());
    let mut out: Vec<ToolPattern> = Vec::new();
    let mut k: usize = 0;
    while k < runs.len()
        invariant
            k <= runs@.len(),
            views == rows(runs@),
            views == all_runs(sequences@, min as nat),
            keys == hashes_of(views),
            text::strs(hashes@) == keys,
            hashes@.len() == runs@.len(),
            lists@.len() == sequences@.len(),
            forall|k: int|
                0 <= k < sequences@.len() ==> hashes_of(
                    ngrams(tools_of(sequences@[k]), min as nat),
                ) == text::strs((#[trigger] lists@[k])@),
            forall|i: int|
                0 <= i < out@.len() ==> is_frequent(
                    sequences@,
                    min as nat,
                    min_occurrences as nat,
                    (#[trigger] pattern_views(out@)[i]).hash,
                ) && pattern_views(out@)[i] == pattern_of(
                    sequences@,
                    min as nat,
                    pattern_views(out@)[i].hash,
                ) && exists|j: int| 0 <= j < k && #[trigger] keys[j] == pattern_views(out@)[i].hash,
            forall|j: int|
                0 <= j < k && is_frequent(
                    sequences@,
                    min as nat,
                    min_occurrences as nat,
                    #[trigger] keys[j],
                ) ==> exists|i: int|
                    0 <= i < out@.len() && (#[trigger] pattern_views(out@)[i]).hash == keys[j],
            forall|i: int, j: int|
                0 <= i < j < out@.len() ==> (#[trigger] pattern_views(out@)[i]).hash != (
                #[trigger] pattern_views(out@)[j]).hash,
        decreases runs@.len() - k,
    {
        let ghost h = keys[k as int];
        let ghost before = pattern_views(out@);
        assert(text::strs(hashes@)[k as int] == hashes@[k as int]@);
        let repeated = among(&hashes, k, hashes[k].as_str());
        if !repeated {
            let chats = chats_with(sequences, &lists, min, hashes[k].as_str());
            proof {
                lemma_all_runs_hash(sequences@, min as nat, h);
                assert(hash(views[k as int]) == h);
                assert(has_hash(views, h));
                assert forall|j: int| 0 <= j < k implies hash(#[trigger] views[j]) != h by {
                    assert(text::strs(hashes@)[j] == keys[j]);
                }
                lemma_first_run(views, h, 0, k as int);
            }
            if chats.len() >= min_occurrences {
                let pattern = build_pattern(&runs[k], hashes[k].as_str(), &chats);
                assert(views[k as int] == text::strs(runs@[k as int]@));
                assert(pattern@ == pattern_of(sequences@, min as nat, h));
                out.push(pattern);
                assert(pattern_views(out@) =~= before.push(pattern@));
                assert forall|i: int, j: int| 0 <= i < j < out@.len() implies (
                #[trigger] pattern_views(out@)[i]).hash != (#[trigger] pattern_views(out@)[j]).hash
                    by {
                    if j == out@.len() - 1 {
                        assert(pattern_views(out@)[i] == before[i]);
                        let m = choose|m: int| 0 <= m < k && #[trigger] keys[m] == before[i].hash;
                        assert(text::strs(hashes@)[m] == keys[m]);
                    } else {
                        assert(pattern_views(out@)[i] == before[i]);
                        assert(pattern_views(out@)[j] == before[j]);
                    }
                }
                assert forall|i: int| 0 <= i < out@.len() implies exists|j: int|
                    0 <= j < k + 1 && #[trigger] keys[j] == (#[trigger] pattern_views(
                        out@,
                    )[i]).hash by {
                    if i == out@.len() - 1 {
                        assert(keys[k as int] == pattern_views(out@)[i].hash);
                    } else {
                        assert(pattern_views(out@)[i] == before[i]);
                        let m = choose|m: int| 0 <= m < k && #[trigger] keys[m] == before[i].hash;
                        assert(keys[m] == pattern_views(out@)[i].hash);
                    }
                }
            }
        }
        assert forall|j: int|
            0 <= j < k + 1 && is_frequent(
                sequences@,
                min as nat,
                min_occurrences as nat,
                #[trigger] keys[j],
            ) implies exists|i: int|
            0 <= i < out@.len() && (#[trigger] pattern_views(out@)[i]).hash == keys[j] by {
            if j < k {
                let i = choose|i: int| 0 <= i < before.len() && (#[trigger] before[i]).hash
                    == keys[j];
                assert(pattern_views(out@)[i] == before[i]);
            } else if repeated {
                let m = choose|m: int|
                    0 <= m < k && (#[trigger] text::strs(hashes@)[m]) == hashes@[k as int]@;
                assert(keys[m] == keys[j]);
                let i = choose|i: int| 0 <= i < before.len() && (#[trigger] before[i]).hash
                    == keys[m];
                assert(pattern_views(out@)[i] == before[i]);
            } else {
                assert(pattern_views(out@)[out@.len() - 1].hash == keys[j]);
            }
        }
        k += 1;
    }
    assert forall|h: Seq<char>| #[trigger]
        is_frequent(sequences@, min as nat, min_occurrences as nat, h) implies exists|i: int|
        0 <= i < out@.len() && (#[trigger] pattern_views(out@)[i]).hash == h by {
        lemma_all_runs_hash(sequences@, min as nat, h);
        let j = choose|j: int| 0 <= j < views.len() && hash(#[trigger] views[j]) == h;
        assert(keys[j] == h);
    }
    out
}

/// The patterns in order: the more frequent first, and of those as frequent the
/// longer.
fn sort_patterns(patterns: Vec<ToolPattern>) -> (res: Vec<ToolPattern>)
    ensures
        forall|p: PatternV|
            pattern_views(patterns@).contains(p) <==> #[trigger] pattern_views(res@).contains(p),
        (forall|i: int, j: int|
            0 <= i < j < patterns@.len() ==> (#[trigger] pattern_views(patterns@)[i]).hash != (
            #[trigger] pattern_views(patterns@)[j]).hash) ==> (forall|i: int, j: int|
            0 <= i < j < res@.len() ==> (#[trigger] pattern_views(res@)[i]).hash != (
            #[trigger] pattern_views(res@)[j]).hash),
        forall|i: int, j: int|
            0 <= i < j < res@.len() ==> in_order(
                #[trigger] pattern_views(res@)[i],
                #[trigger] pattern_views(res@)[j],
            ),
{
    let ghost all = pattern_views(patterns@);
    let ghost distinct = forall|i: int, j: int|
        0 <= i < j < all.len() ==> (#[trigger] all[i]).hash != (#[trigger] all[j]).hash;
    let mut rest = patterns;
    let mut out: Vec<ToolPattern> = Vec::new();
    while rest.len() > 0
        invariant
            rest@.len() <= all.len(),
            pattern_views(rest@) == all.take(rest@.len() as int),
            distinct == forall|i: int, j: int|
                0 <= i < j < all.len() ==> (#[trigger] all[i]).hash != (#[trigger] all[j]).hash,
            forall|p: PatternV|
                all.skip(rest@.len() as int).contains(p) <==> #[trigger] pattern_views(
                    out@,
                ).contains(p),
            distinct ==> (forall|i: int, j: int|
                0 <= i < j < out@.len() ==> (#[trigger] pattern_views(out@)[i]).hash != (
                #[trigger] pattern_views(out@)[j]).hash),
            forall|i: int, j: int|
                0 <= i < j < out@.len() ==> in_order(
                    #[trigger] pattern_views(out@)[i],
                    #[trigger] pattern_views(out@)[j],
                ),
        decreases rest@.len(),
    {
        let ghost n = rest@.len() as int;
        let ghost rest_before = pattern_views(rest@);
        let pattern = rest.pop().unwrap();
        let ghost p = pattern@;
        assert(p == rest_before[n - 1]);
        assert(p == all[n - 1]);
        assert(pattern_views(rest@) =~= all.take(n - 1));
        let ghost before = pattern_views(out@);
        let mut at: usize = 0;
        while at < out.len() && (out[at].occurrences > pattern.occurrences || (out[at].occurrences
            == pattern.occurrences && out[at].sequence.len() > pattern.sequence.len()))
            invariant
                at <= out@.len(),
                before == pattern_views(out@),
                p == pattern@,
                forall|i: int| 0 <= i < at ==> in_order(#[trigger] before[i], p),
            decreases out@.len() - at,
        {
            assert(before[at as int] == out@[at as int]@);
            at += 1;
        }
        assert(at < out@.len() ==> in_order(p, before[at as int])) by {
            if at < out@.len() {
                assert(before[at as int] == out@[at as int]@);
            }
        }
        assert forall|i: int| at <= i < before.len() implies in_order(p, #[trigger] before[i]) by {
            if i > at {
                assert(in_order(before[at as int], before[i]));
            }
        }
        out.insert(at, pattern);
        let ghost after = pattern_views(out@);
        assert(after =~= before.insert(at as int, p));
        assert forall|q: PatternV| all.skip(n - 1).contains(q) <==> #[trigger] after.contains(
            q,
        ) by {
            let old_tail = all.skip(n);
            let tail = all.skip(n - 1);
            assert(tail =~= seq![p] + old_tail);
            if tail.contains(q) {
                let i = choose|i: int| 0 <= i < tail.len() && tail[i] == q;
                if i == 0 {
                    assert(after[at as int] == q);
                } else {
                    assert(old_tail[i - 1] == q);
                    assert(before.contains(q));
                    let j = choose|j: int| 0 <= j < before.len() && before[j] == q;
                    if j < at {
                        assert(after[j] == q);
                    } else {
                        assert(after[j + 1] == q);
                    }
                }
            }
            if after.contains(q) {
                let j = choose|j: int| 0 <= j < after.len() && after[j] == q;
                if j == at {
                    assert(tail[0] == q);
                } else {
                    if j < at {
                        assert(before[j] == q);
                    } else {
                        assert(before[j - 1] == q);
                    }
                    assert(before.contains(q));
                    let i = choose|i: int| 0 <= i < old_tail.len() && old_tail[i] == q;
                    assert(tail[i + 1] == q);
                }
            }
        }
        assert(distinct ==> (forall|i: int, j: int|
            0 <= i < j < after.len() ==> (#[trigger] after[i]).hash != (#[trigger] after[j]).hash))
            by {
            if distinct {
                assert forall|i: int| 0 <= i < before.len() implies (#[trigger] before[i]).hash
                    != p.hash by {
                    assert(before.contains(before[i]));
                    let old_tail = all.skip(n);
                    let m = choose|m: int| 0 <= m < old_tail.len() && old_tail[m] == before[i];
                    assert(all[n + m] == before[i]);
                    assert(all[n - 1].hash != all[n + m].hash);
                }
                assert forall|i: int, j: int| 0 <= i < j < after.len() implies (
                #[trigger] after[i]).hash != (#[trigger] after[j]).hash by {
                    let i0 = if i < at {
                        i
                    } else {
                        i - 1
                    };
                    let j0 = if j < at {
                        j
                    } else {
                        j - 1
                    };
                    if i != at {
                        assert(after[i] == before[i0]);
                    }
                    if j != at {
                        assert(after[j] == before[j0]);
                    }
                }
            }
        }
        assert forall|i: int, j: int| 0 <= i < j < after.len() implies in_order(
            #[trigger] after[i],
            #[trigger] after[j],
        ) by {
            let i0 = if i < at {
                i
            } else {
                i - 1
            };
            let j0 = if j < at {
                j
            } else {
                j - 1
            };
            if i != at {
                assert(after[i] == before[i0]);
            }
            if j != at {
                assert(after[j] == before[j0]);
            }
        }
    }
    assert(all.skip(0) =~= all);
    out
}

/// Whether the run `inner` stands in `outer` without a gap.
fn stands_in(inner: &Vec<String>, outer: &Vec<String>) -> (res: bool)
    ensures
        res == is_window(text::strs(inner@), text::strs(outer@)),
{
    let ghost a = text::strs(inner@);
    let ghost b = text::strs(outer@);
    if inner.len() > outer.len() {
        return false;
    }
    let mut i: usize = 0;
    while i <= outer.len() - inner.len()
        invariant
            inner@.len() <= outer.len(),
            i <= outer@.len() - inner@.len() + 1,
            a == text::strs(inner@),
            b == text::strs(outer@),
            forall|k: int| 0 <= k < i ==> (#[trigger] b.subrange(k, k + a.len())) != a,
        decreases outer@.len() - inner@.len() + 1 - i,
    {
        let mut j: usize = 0;
        let mut equal = true;
        while equal && j < inner.len()
            invariant
                j <= inner@.len(),
                i + inner@.len() <= outer.len(),
                a == text::strs(inner@),
                b == text::strs(outer@),
                equal ==> forall|k: int| 0 <= k < j ==> b[i + k] == #[trigger] a[k],
                !equal ==> exists|k: int| 0 <= k < a.len() && b[i + k] != #[trigger] a[k],
            decreases inner@.len() - j + (if equal {
                1int
            } else {
                0int
            }),
        {
            assert(a[j as int] == inner@[j as int]@);
            assert(b[i + j] == outer@[i + j]@);
            if text::same(inner[j].as_str(), outer[i + j].as_str()) {
                j += 1;
            } else {
                equal = false;
            }
        }
        if equal {
            assert(b.subrange(i as int, i + a.len()) =~= a);
            return true;
        }
        assert(b.subrange(i as int, i + a.len()) != a) by {
            let k = choose|k: int| 0 <= k < a.len() && b[i + k] != #[trigger] a[k];
            assert(b.subrange(i as int, i + a.len())[k] != a[k]);
        }
        i += 1;
    }
    false
}

/// Whether one of the patterns makes `p` superfluous.
fn is_dominated(patterns: &Vec<ToolPattern>, p: &ToolPattern) -> (res: bool)
    ensures
        res == exists|i: int|
            0 <= i < patterns@.len() && dominates(#[trigger] pattern_views(patterns@)[i], p@),
{
    let ghost views = pattern_views(patterns@);
    let mut i: usize = 0;
    while i < patterns.len()
        invariant
            i <= patterns@.len(),
            views == pattern_views(patterns@),
            forall|j: int| 0 <= j < i ==> !dominates(#[trigger] views[j], p@),
        decreases patterns@.len() - i,
    {
        assert(views[i as int] == patterns@[i as int]@);
        if patterns[i].sequence.len() > p.sequence.len() && stands_in(
            &p.sequence,
            &patterns[i].sequence,
        ) {
            return true;
        }
        i += 1;
    }
    false
}

/// A copy of a pattern.
fn copy_pattern(p: &ToolPattern) -> (res: ToolPattern)
    ensures
        res@ == p@,
{
    let sequence = copy_range(&p.sequence, 0, p.sequence.len());
    assert(text::strs(sequence@) =~= text::strs(p.sequence@));
    let mut examples: Vec<i64> = Vec::new();
    examples.extend_from_slice(p.example_chat_ids.as_slice());
    assert(examples@ =~= p.example_chat_ids@);
    ToolPattern {
        sequence,
        occurrences: p.occurrences,
        hash: p.hash.clone(),
        example_chat_ids: examples,
    }
}

/// Whether none of the patterns makes the one at `i` superfluous.
spec fn stands_alone(all: Seq<PatternV>, i: int) -> bool {
    forall|m: int| 0 <= m < all.len() ==> !dominates(#[trigger] all[m], all[i])
}

/// Of the frequent patterns those are reported that none makes superfluous.
proof fn lemma_reported(
    s: Seq<ToolCallSequence>,
    min: nat,
    often: nat,
    all: Seq<PatternV>,
    i: int,
)
    requires
        lists_frequent(s, min, often, all),
        0 <= i < all.len(),
    ensures
        is_reported(s, min, often, all[i].hash) == stands_alone(all, i),
{
    let p = all[i];
    assert(is_frequent(s, min, often, p.hash));
    assert(p == pattern_of(s, min, p.hash));
    if stands_alone(all, i) {
        assert forall|g: Seq<char>| is_frequent(s, min, often, g) implies !dominates(
            #[trigger] pattern_of(s, min, g),
            pattern_of(s, min, p.hash),
        ) by {
            let m = choose|m: int| 0 <= m < all.len() && (#[trigger] all[m]).hash == g;
            assert(!dominates(all[m], p));
        }
    } else {
        let m = choose|m: int| 0 <= m < all.len() && dominates(#[trigger] all[m], p);
        assert(is_frequent(s, min, often, all[m].hash));
        assert(all[m] == pattern_of(s, min, all[m].hash));
    }
}

/// Whether `res` are the patterns among the first `n` that none makes superfluous,
/// and `at` says where they stand.
spec fn selects(all: Seq<PatternV>, n: int, res: Seq<PatternV>, at: Seq<int>) -> bool {
    &&& at.len() == res.len()
    &&& forall|k: int|
        0 <= k < at.len() ==> 0 <= #[trigger] at[k] < n && stands_alone(all, at[k]) && res[k]
            == all[at[k]]
    &&& forall|j: int, k: int| 0 <= j < k < at.len() ==> #[trigger] at[j] < #[trigger] at[k]
    &&& forall|m: int| 0 <= m < n && #[trigger] stands_alone(all, m) ==> at.contains(m)
}

/// One more pattern that none makes superfluous is one more that is selected.
proof fn lemma_selects_push(all: Seq<PatternV>, n: int, res: Seq<PatternV>, at: Seq<int>)
    requires
        selects(all, n, res, at),
        0 <= n < all.len(),
        stands_alone(all, n),
    ensures
        selects(all, n + 1, res.push(all[n]), at.push(n)),
{
    let more = at.push(n);
    assert forall|m: int| 0 <= m < n + 1 && #[trigger] stands_alone(all, m) implies more.contains(
        m,
    ) by {
        if m == n {
            assert(more[at.len() as int] == m);
        } else {
            let k = choose|k: int| 0 <= k < at.len() && at[k] == m;
            assert(more[k] == m);
        }
    }
}

/// The patterns that none of them makes superfluous, in their order, and where
/// they stand.
fn not_contained(patterns: &Vec<ToolPattern>) -> (res: (Vec<ToolPattern>, Ghost<Seq<int>>))
    ensures
        selects(
            pattern_views(patterns@),
            patterns@.len() as int,
            pattern_views(res.0@),
            res.1@,
        ),
{
    let ghost all = pattern_views(patterns@);
    let ghost mut at: Seq<int> = Seq::empty();
    let mut kept: Vec<ToolPattern> = Vec::new();
    let mut i: usize = 0;
    while i < patterns.len()
        invariant
            i <= patterns@.len(),
            all == pattern_views(patterns@),
            selects(all, i as int, pattern_views(kept@), at),
        decreases patterns@.len() - i,
    {
        let ghost before = pattern_views(kept@);
        assert(all[i as int] == patterns@[i as int]@);
        let dominated = is_dominated(patterns, &patterns[i]);
        assert(dominated == !stands_alone(all, i as int));
        if !dominated {
            let copy = copy_pattern(&patterns[i]);
            kept.push(copy);
            assert(pattern_views(kept@) =~= before.push(all[i as int]));
            proof {
                lemma_selects_push(all, i as int, before, at);
                at = at.push(i as int);
            }
        }
        i += 1;
    }
    (kept, Ghost(at))
}

/// The runs of at least `min_seq_len` tools that at least `min_occurrences`
/// sessions share, but for those that a longer one of them contains.
pub fn detect_patterns(
    sequences: &[ToolCallSequence],
    min_seq_len: usize,
    min_occurrences: usize,
) -> (res: Vec<ToolPattern>)
    requires
        min_seq_len >= 1 || sequences@.len() == 0,
    ensures
        reports(sequences@, min_seq_len as nat, min_occurrences as nat, pattern_views(res@)),
{
    let ghost s = sequences@;
    let ghost min = min_seq_len as nat;
    let ghost often = min_occurrences as nat;
    if sequences.len() == 0 {
        return Vec::new();
    }
    let found = frequent_patterns(sequences, min_seq_len, min_occurrences);
    let ghost found_views = pattern_views(found@);
    let patterns = sort_patterns(found);
    let ghost all = pattern_views(patterns@);
    assert(lists_frequent(s, min, often, all)) by {
        assert forall|i: int| 0 <= i < all.len() implies is_frequent(
            s,
            min,
            often,
            (#[trigger] all[i]).hash,
        ) && all[i] == pattern_of(s, min, all[i].hash) by {
            assert(all.contains(all[i]));
            assert(found_views.contains(all[i]));
        }
        assert forall|h: Seq<char>| #[trigger] is_frequent(s, min, often, h) implies exists|i: int|
            0 <= i < all.len() && (#[trigger] all[i]).hash == h by {
            let k = choose|k: int| 0 <= k < found_views.len() && (#[trigger] found_views[k]).hash
                == h;
            assert(found_views.contains(found_views[k]));
            assert(all.contains(found_views[k]));
            let i = choose|i: int| 0 <= i < all.len() && all[i] == found_views[k];
            assert(all[i].hash == h);
        }
    }
    let (kept, Ghost(at)) = not_contained(&patterns);
    let ghost res = pattern_views(kept@);
    assert forall|k: int| 0 <= k < res.len() implies is_reported(
        s,
        min,
        often,
        (#[trigger] res[k]).hash,
    ) && res[k] == pattern_of(s, min, res[k].hash) by {
        assert(res[k] == all[at[k]]);
        lemma_reported(s, min, often, all, at[k]);
    }
    assert forall|h: Seq<char>| #[trigger] is_reported(s, min, often, h) implies exists|k: int|
        0 <= k < res.len() && (#[trigger] res[k]).hash == h by {
        let m = choose|m: int| 0 <= m < all.len() && (#[trigger] all[m]).hash == h;
        lemma_reported(s, min, often, all, m);
        let k = choose|k: int| 0 <= k < at.len() && at[k] == m;
        assert(res[k].hash == h);
    }
    assert forall|i: int, j: int| 0 <= i < j < res.len() implies (#[trigger] res[i]).hash != (
    #[trigger] res[j]).hash && in_order(res[i], res[j]) by {
        assert(at[i] < at[j]);
        assert(res[i] == all[at[i]] && res[j] == all[at[j]]);
        assert(in_order(all[at[i]], all[at[j]]));
    }
    kept
}

// ---------------------------------------------------------------------------
// Skills made by the model
// ---------------------------------------------------------------------------

/// What the model is told before it writes a skill.
pub open spec fn generation_prompt() -> Seq<char> {
    "You are a skill generator for RayClaw, an AI agent runtime.\nGiven a repeated tool-call pattern, generate a SKILL.md file that encapsulates this workflow as a reusable skill.\n\nOutput ONLY the SKILL.md content in this exact format:\n\n---\nname: <kebab-case-name>\ndescription: <when to use this skill — describe the trigger, not just what it does>\ntrust_level: candidate\nsource: auto-generated\n---\n\n# <Skill Title>\n\n<Instructions for using this skill, referencing the specific tools in the pattern>\n\nRules:\n- name must be kebab-case, descriptive, under 30 characters\n- description must explain WHEN to trigger, not just WHAT it does\n- Do NOT reference bash, write_file, or edit_file tools — candidate skills are read-only\n- Keep instructions concise (under 100 lines)"@
}

/// What the model is told before it improves a skill.
pub open spec fn rewrite_prompt() -> Seq<char> {
    "You are a skill improvement specialist for RayClaw.\nA skill has been failing frequently. Rewrite its SKILL.md to fix the issues.\n\nOutput ONLY the improved SKILL.md content, preserving the frontmatter format.\nKeep the same name. Change trust_level to 'candidate' (it needs re-verification).\nDo NOT reference bash, write_file, or edit_file tools."@
}

/// A request to the model: what it is told first, and what it is asked.
pub struct ModelRequest {
    pub system: String,
    pub user: String,
}

/// Numbers in decimal.
pub open spec fn signed_texts(ids: Seq<i64>) -> Seq<Seq<char>> {
    Seq::new(ids.len(), |i: int| text::signed(ids[i] as int))
}

/// Numbers in a bracketed list.
pub open spec fn id_list(ids: Seq<i64>) -> Seq<char> {
    "["@ + text::join(signed_texts(ids), ", "@) + "]"@
}

/// Numbers in a bracketed list.
fn write_id_list(ids: &Vec<i64>) -> (res: String)
    ensures
        res@ == id_list(ids@),
{
    let mut parts: Vec<String> = Vec::new();
    let mut i: usize = 0;
    while i < ids.len()
        invariant
            i <= ids@.len(),
            text::strs(parts@) == signed_texts(ids@).take(i as int),
        decreases ids@.len() - i,
    {
        let ghost before = text::strs(parts@);
        let part = text::decimal_signed(ids[i]);
        parts.push(part);
        assert(text::strs(parts@) =~= before.push(part@));
        assert(signed_texts(ids@).take(i + 1) =~= signed_texts(ids@).take(i as int).push(
            signed_texts(ids@)[i as int],
        ));
        i += 1;
    }
    assert(text::strs(parts@) =~= signed_texts(ids@));
    let inner = text::join_strings(&parts, ", ");
    text::cat3("[", inner.as_str(), "]")
}

/// What the model is asked about a pattern.
pub open spec fn generation_question(p: PatternV) -> Seq<char> {
    "Generate a skill for this repeated tool pattern:\n\nTool sequence (appeared "@ + text::digits(
        p.occurrences,
    ) + " times across "@ + text::digits(p.example_chat_ids.len()) + " sessions):\n"@ + text::join(
        p.sequence,
        " -> "@,
    ) + "\n\nExample chat IDs: "@ + id_list(p.example_chat_ids)
}

/// The request for a skill that carries a pattern out.
pub fn skill_generation_request(pattern: &ToolPattern) -> (res: ModelRequest)
    ensures
        res.system@ == generation_prompt(),
        res.user@ == generation_question(pattern@),
{
    let times = text::decimal(pattern.occurrences as u64);
    let sessions = text::decimal(pattern.example_chat_ids.len() as u64);
    let sequence = text::join_strings(&pattern.sequence, " -> ");
    let ids = write_id_list(&pattern.example_chat_ids);
    let mut user = text::cat5(
        "Generate a skill for this repeated tool pattern:\n\nTool sequence (appeared ",
        times.as_str(),
        " times across ",
        sessions.as_str(),
        " sessions):\n",
    );
    user.append(sequence.as_str());
    user.append("\n\nExample chat IDs: ");
    user.append(ids.as_str());
    let system = text::owned(
        "You are a skill generator for RayClaw, an AI agent runtime.\nGiven a repeated tool-call pattern, generate a SKILL.md file that encapsulates this workflow as a reusable skill.\n\nOutput ONLY the SKILL.md content in this exact format:\n\n---\nname: <kebab-case-name>\ndescription: <when to use this skill — describe the trigger, not just what it does>\ntrust_level: candidate\nsource: auto-generated\n---\n\n# <Skill Title>\n\n<Instructions for using this skill, referencing the specific tools in the pattern>\n\nRules:\n- name must be kebab-case, descriptive, under 30 characters\n- description must explain WHEN to trigger, not just WHAT it does\n- Do NOT reference bash, write_file, or edit_file tools — candidate skills are read-only\n- Keep instructions concise (under 100 lines)",
    );
    ModelRequest { system, user }
}

/// One block of the model's reply.
pub enum ResponseContentBlock {
    Text(String),
    Other,
}

/// The texts in a reply, one after the other.
pub open spec fn reply_text(blocks: Seq<ResponseContentBlock>) -> Seq<char>
    decreases blocks.len(),
{
    if blocks.len() == 0 {
        Seq::empty()
    } else {
        reply_text(blocks.drop_last()) + match blocks.last() {
            ResponseContentBlock::Text(t) => t@,
            ResponseContentBlock::Other => Seq::empty(),
        }
    }
}

/// The text of a reply that came, or what went wrong.
pub open spec fn skill_text(
    reply: Result<Seq<char>, Seq<char>>,
    failed: Seq<char>,
    empty: Seq<char>,
) -> Result<Seq<char>, Seq<char>> {
    match reply {
        Err(e) => Err(failed + e),
        Ok(t) => if text::trim(t).len() == 0 {
            Err(empty)
        } else {
            Ok(t)
        },
    }
}

/// The view of a reply.
pub open spec fn reply_view(reply: Result<Vec<ResponseContentBlock>, String>) -> Result<
    Seq<char>,
    Seq<char>,
> {
    match reply {
        Ok(blocks) => Ok(reply_text(blocks@)),
        Err(e) => Err(e@),
    }
}

/// The view of a result of texts.
pub open spec fn result_view(r: Result<String, String>) -> Result<Seq<char>, Seq<char>> {
    match r {
        Ok(t) => Ok(t@),
        Err(e) => Err(e@),
    }
}

/// The texts in a reply, one after the other.
fn join_blocks(blocks: &Vec<ResponseContentBlock>) -> (res: String)
    ensures
        res@ == reply_text(blocks@),
{
    let mut out = String::new();
    let mut i: usize = 0;
    assert(blocks@.take(0) =~= Seq::empty());
    while i < blocks.len()
        invariant
            i <= blocks@.len(),
            out@ == reply_text(blocks@.take(i as int)),
        decreases blocks@.len() - i,
    {
        assert(blocks@.take(i + 1).drop_last() =~= blocks@.take(i as int));
        assert(blocks@.take(i + 1).last() == blocks@[i as int]);
        match &blocks[i] {
            ResponseContentBlock::Text(t) => {
                out.append(t.as_str());
            },
            ResponseContentBlock::Other => {
                assert(out@ + Seq::<char>::empty() =~= out@);
            },
        }
        i += 1;
    }
    assert(blocks@.take(blocks@.len() as int) =~= blocks@);
    out
}

/// The skill in the reply to a request for one.
pub fn generate_skill_content(reply: Result<Vec<ResponseContentBlock>, String>) -> (res: Result<
    String,
    String,
>)
    ensures
        result_view(res) == skill_text(
            reply_view(reply),
            "LLM call failed: "@,
            "LLM returned empty response"@,
        ),
{
    match reply {
        Err(e) => Err(text::cat("LLM call failed: ", e.as_str())),
        Ok(blocks) => {
            let t = join_blocks(&blocks);
            if text::is_blank(t.as_str()) {
                Err(text::owned("LLM returned empty response"))
            } else {
                Ok(t)
            }
        },
    }
}

/// The skill in the reply to a request for a better one.
pub fn rewrite_failing_skill(reply: Result<Vec<ResponseContentBlock>, String>) -> (res: Result<
    String,
    String,
>)
    ensures
        result_view(res) == skill_text(
            reply_view(reply),
            "LLM rewrite call failed: "@,
            "LLM returned empty rewrite"@,
        ),
{
    match reply {
        Err(e) => Err(text::cat("LLM rewrite call failed: ", e.as_str())),
        Ok(blocks) => {
            let t = join_blocks(&blocks);
            if text::is_blank(t.as_str()) {
                Err(text::owned("LLM returned empty rewrite"))
            } else {
                Ok(t)
            }
        },
    }
}

/// How a skill fares.
#[derive(Debug, Clone)]
pub struct SkillHealthRow {
    pub skill_name: String,
    pub total_activations: i64,
    pub successful_activations: i64,
    pub last_activated_at: String,
    pub first_activated_at: String,
}

/// What the model is asked about a failing skill, given its rate of success and
/// its cost in words.
pub open spec fn rewrite_question(
    percent: Seq<char>,
    health: SkillHealthRow,
    avg_tokens: Seq<char>,
    content: Seq<char>,
) -> Seq<char> {
    "This skill is failing. Please rewrite it.\n\nSuccess rate: "@ + percent + "% ("@
        + text::signed(health.successful_activations as int) + " / "@ + text::signed(
        health.total_activations as int,
    ) + " activations)\nAverage tokens per use: "@ + avg_tokens
        + "\n\nCurrent SKILL.md:\n```\n"@ + content + "\n```"@
}

/// The request for a better skill.
pub fn skill_rewrite_request(
    content: &str,
    health: &SkillHealthRow,
    percent: &str,
    avg_tokens: &str,
) -> (res: ModelRequest)
    ensures
        res.system@ == rewrite_prompt(),
        res.user@ == rewrite_question(percent@, *health, avg_tokens@, content@),
{
    let good = text::decimal_signed(health.successful_activations);
    let all = text::decimal_signed(health.total_activations);
    let mut user = text::cat5(
        "This skill is failing. Please rewrite it.\n\nSuccess rate: ",
        percent,
        "% (",
        good.as_str(),
        " / ",
    );
    user.append(all.as_str());
    user.append(" activations)\nAverage tokens per use: ");
    user.append(avg_tokens);
    user.append("\n\nCurrent SKILL.md:\n```\n");
    user.append(content);
    user.append("\n```");
    let system = text::owned(
        "You are a skill improvement specialist for RayClaw.\nA skill has been failing frequently. Rewrite its SKILL.md to fix the issues.\n\nOutput ONLY the improved SKILL.md content, preserving the frontmatter format.\nKeep the same name. Change trust_level to 'candidate' (it needs re-verification).\nDo NOT reference bash, write_file, or edit_file tools.",
    );
    ModelRequest { system, user }
}

// ---------------------------------------------------------------------------
// Candidates
// ---------------------------------------------------------------------------

/// Whether a text has a frontmatter: what stands between an opening and a closing
/// mark is not blank.
pub open spec fn has_frontmatter(content: Seq<char>) -> bool {
    frontmatter::marks(content) is Some && text::trim(frontmatter::head_of(content)).len() > 0
}

/// The first tool that a candidate may not use and that its body names, given the
/// body in lower case.
pub open spec fn forbidden_tool(body: Seq<char>) -> Option<Seq<char>> {
    if text::contains(body, "bash"@) {
        Some("bash"@)
    } else if text::contains(body, "write_file"@) {
        Some("write_file"@)
    } else if text::contains(body, "edit_file"@) {
        Some("edit_file"@)
    } else {
        None
    }
}

/// What is wrong with a candidate, given its body in lower case too.
pub open spec fn candidate_error(content: Seq<char>, lower_body: Seq<char>) -> Option<Seq<char>> {
    if !has_frontmatter(content) {
        Some("Missing YAML frontmatter"@)
    } else {
        match forbidden_tool(lower_body) {
            Some(tool) => Some("Candidate skill references forbidden tool: "@ + tool),
            None => None,
        }
    }
}

/// A text in its two parts, the frontmatter and the body; none where it has no
/// frontmatter between two marks.
fn parts(content: &str) -> (res: Option<(String, String)>)
    ensures
        match res {
            Some((head, body)) => frontmatter::marks(content@) is Some && head@
                == frontmatter::head_of(content@) && body@ == frontmatter::body_of(content@),
            None => frontmatter::marks(content@) is None,
        },
{
    let v = text::to_chars(content);
    match frontmatter::find_marks(&v) {
        None => None,
        Some((head, close, below)) => {
            let first = text::from_range(&v, head, close);
            let second = text::from_range(&v, below, v.len());
            assert(second@ =~= content@.skip(below as int));
            Some((first, second))
        },
    }
}

/// Whether a candidate is in order, given its body in lower case too.
pub fn validate_candidate_lowered(content: &str, lower_body: &str) -> (res: Result<(), String>)
    ensures
        match res {
            Ok(()) => candidate_error(content@, lower_body@) is None,
            Err(e) => candidate_error(content@, lower_body@) == Some(e@),
        },
{
    let found = match parts(content) {
        Some((head, _)) => !text::is_blank(head.as_str()),
        None => false,
    };
    if !found {
        Err(text::owned("Missing YAML frontmatter"))
    } else if text::has(lower_body, "bash") {
        Err(text::cat("Candidate skill references forbidden tool: ", "bash"))
    } else if text::has(lower_body, "write_file") {
        Err(text::cat("Candidate skill references forbidden tool: ", "write_file"))
    } else if text::has(lower_body, "edit_file") {
        Err(text::cat("Candidate skill references forbidden tool: ", "edit_file"))
    } else {
        Ok(())
    }
}

/// What is wrong with a candidate, if anything is.
pub open spec fn content_error(content: Seq<char>) -> Option<Seq<char>> {
    candidate_error(content, text::lowercase(frontmatter::body_of(content)))
}

/// Whether a candidate is in order: it has a frontmatter, and its body names no
/// forbidden tool, in whatever case.
pub fn validate_candidate_content(content: &str) -> (res: Result<(), String>)
    ensures
        match res {
            Ok(()) => content_error(content@) is None,
            Err(e) => content_error(content@) == Some(e@),
        },
        match res {
            Ok(()) => candidate_error(
                content@,
                text::lowercase(frontmatter::body_of(content@)),
            ) is None,
            Err(e) => candidate_error(content@, text::lowercase(frontmatter::body_of(content@)))
                == Some(e@),
        },
{
    let body = match parts(content) {
        Some((_, body)) => body,
        None => String::new(),
    };
    assert(body@ =~= frontmatter::body_of(content@));
    let lower = body.as_str().to_lowercase();
    validate_candidate_lowered(content, lower.as_str())
}

/// Of a frontmatter between two lines and a body below it, the body alone is
/// searched for forbidden tools. The frontmatter may hold anything but a mark.
pub proof fn law_body_alone_is_judged(head: Seq<char>, body: Seq<char>)
    requires
        text::trim(head).len() > 0,
        !text::contains(head, "---"@),
    ensures
        ({
            let content = "---\n"@ + head + "\n---\n"@ + body;
            &&& frontmatter::head_of(content) == head.push('\n')
            &&& frontmatter::body_of(content) == body
            &&& candidate_error(content, text::lowercase(body)) == match forbidden_tool(
                text::lowercase(body),
            ) {
                Some(tool) => Some("Candidate skill references forbidden tool: "@ + tool),
                None => None,
            }
        }),
{
    reveal_strlit("---\n");
    reveal_strlit("\n---\n");
    reveal_strlit("---");
    let content = "---\n"@ + head + "\n---\n"@ + body;
    let c = head.len() as int + 5;
    assert(text::strip_front(content, '\u{feff}') == content);
    assert(content.subrange(0, 4) =~= "---\n"@);
    assert(frontmatter::opening(content) == Some(4int));
    frontmatter::lemma_line_is(content, c, c + 3);
    assert(content.subrange(c, c + 3) =~= "---"@);
    assert(text::trim("---"@) =~= "---"@);
    assert forall|j: int| 4 <= j < c && #[trigger] frontmatter::begins(
        content,
        4,
        j,
    ) implies !frontmatter::is_mark(frontmatter::line_at(content, j), false) by {
        let line = frontmatter::line_at(content, j);
        text::lemma_next_char(content, '\n', j);
        assert(content[c - 1] == '\n');
        if frontmatter::is_mark(line, false) {
            let i = text::lemma_trim_part(line);
            assert(head.subrange(j - 4 + i, j - 4 + i + 3) =~= line.subrange(i, i + 3));
            assert(text::occurs_at(head, "---"@, j - 4 + i));
        }
    }
    frontmatter::lemma_closing_is(content, 4, c, false);
    assert(content.subrange(4, c) =~= head.push('\n'));
    assert(content.skip(c + 4) =~= body);
    let i = text::lemma_trim_part(head);
    assert(head[i] == text::trim(head)[0]);
    assert(head.push('\n')[i] == head[i]);
    text::lemma_trim_keeps(head.push('\n'), i);
}

/// So it is where the frontmatter stands in one line with its marks.
pub proof fn law_body_alone_is_judged_in_line(head: Seq<char>, body: Seq<char>)
    requires
        text::trim(head).len() > 0,
        !text::contains(head, " ---"@),
    ensures
        ({
            let content = "--- "@ + head + " ---"@ + body;
            &&& frontmatter::head_of(content) == head
            &&& frontmatter::body_of(content) == body
            &&& candidate_error(content, text::lowercase(body)) == match forbidden_tool(
                text::lowercase(body),
            ) {
                Some(tool) => Some("Candidate skill references forbidden tool: "@ + tool),
                None => None,
            }
        }),
{
    reveal_strlit("---\n");
    reveal_strlit("---\r\n");
    reveal_strlit("--- ");
    reveal_strlit(" ---");
    let mark = " ---"@;
    let content = "--- "@ + head + mark + body;
    let c = head.len() as int + 4;
    assert(text::strip_front(content, '\u{feff}') == content);
    assert(content.subrange(0, 4) =~= "--- "@);
    assert(content.subrange(0, 4)[3] == ' ');
    if text::starts(content, "---\r\n"@) {
        assert(content.subrange(0, 5)[3] == content[3]);
    }
    assert(content.subrange(c, c + 4) =~= mark);
    assert(text::occurs_at(content, mark, c));
    assert forall|j: int| 4 <= j < c implies !text::occurs_at(content, mark, j) by {
        if text::occurs_at(content, mark, j) {
            if j + 4 > c {
                lemma_occurs_chars(content, mark, j, c - j);
            }
            assert(head.subrange(j - 4, j) =~= content.subrange(j, j + 4));
            assert(text::occurs_at(head, mark, j - 4));
        }
    }
    text::lemma_find_from(content, mark, 4);
    assert(content.subrange(4, c) =~= head);
    assert(content.skip(c + 4) =~= body);
}

/// The name that a line gives, without quotes; empty where it gives none.
pub open spec fn name_in_line(line: Seq<char>) -> Seq<char> {
    let t = text::trim(line);
    if text::starts(t, "name:"@) {
        text::strip_char(text::strip_char(text::trim(t.skip("name:"@.len() as int)), '"'), '\'')
    } else {
        Seq::empty()
    }
}

/// The first name that one of the lines from `i` on gives.
pub open spec fn name_from(lines: Seq<Seq<char>>, i: int) -> Option<Seq<char>>
    decreases lines.len() - i,
{
    if i < 0 || i >= lines.len() {
        None
    } else if name_in_line(lines[i]).len() > 0 {
        Some(name_in_line(lines[i]))
    } else {
        name_from(lines, i + 1)
    }
}

/// The lines of the frontmatter; where it stands in one line, that line with each
/// key on a line of its own.
pub open spec fn head_lines(content: Seq<char>) -> Seq<Seq<char>> {
    let head = frontmatter::head_of(content);
    if frontmatter::opening(content) is Some {
        text::lines(head)
    } else {
        text::lines(skills::keys_on_lines(text::trim(head)))
    }
}

/// The lines of the frontmatter.
fn lines_of_head(content: &str) -> (res: Vec<String>)
    ensures
        text::strs(res@) == head_lines(content@),
{
    let head = match parts(content) {
        Some((head, _)) => head,
        None => String::new(),
    };
    assert(head@ =~= frontmatter::head_of(content@));
    let v = text::to_chars(content);
    if frontmatter::find_opening(&v).is_some() {
        text::lines_of(head.as_str())
    } else {
        let plain = text::trimmed(head.as_str());
        let unfolded = skills::put_keys_on_lines(plain.as_str());
        text::lines_of(unfolded.as_str())
    }
}

/// The name of a skill, from its frontmatter.
pub open spec fn skill_name_in(content: Seq<char>) -> Option<Seq<char>> {
    name_from(head_lines(content), 0)
}

/// The name of a skill, from its frontmatter.
pub fn extract_skill_name(content: &str) -> (res: Option<String>)
    ensures
        text::opt(res) == skill_name_in(content@),
        text::opt(res) == name_from(head_lines(content@), 0),
{
    let lines = lines_of_head(content);
    let ghost views = text::strs(lines@);
    let mut i: usize = 0;
    while i < lines.len()
        invariant
            i <= lines@.len(),
            views == text::strs(lines@),
            views == head_lines(content@),
            name_from(views, 0) == name_from(views, i as int),
        decreases lines@.len() - i,
    {
        assert(views[i as int] == lines@[i as int]@);
        let t = text::trimmed(lines[i].as_str());
        match text::after_prefix(t.as_str(), "name:") {
            Some(rest) => {
                let plain = text::stripped(text::trimmed(rest.as_str()).as_str(), '"');
                let name = text::stripped(plain.as_str(), '\'');
                if !name.as_str().is_empty() {
                    return Some(name);
                }
            },
            None => {},
        }
        i += 1;
    }
    None
}

/// Where a candidate is kept.
pub open spec fn candidate_place(skills_dir: Seq<char>, name: Seq<char>) -> Seq<char> {
    paths::joined(
        paths::joined(paths::joined(skills_dir, "auto-generated"@), name),
        "SKILL.md"@,
    )
}

/// Where a retired skill is kept.
pub open spec fn archive_place(skills_dir: Seq<char>, name: Seq<char>) -> Seq<char> {
    paths::joined(paths::joined(skills_dir, ".archive"@), name)
}

/// Where a candidate is kept.
pub fn candidate_skill_path(skills_dir: &str, name: &str) -> (res: String)
    ensures
        res@ == candidate_place(skills_dir@, name@),
        res@ == paths::joined(
            paths::joined(paths::joined(skills_dir@, "auto-generated"@), name@),
            "SKILL.md"@,
        ),
{
    let auto = paths::join(skills_dir, "auto-generated");
    let dir = paths::join(auto.as_str(), name);
    paths::join(dir.as_str(), "SKILL.md")
}

// ---------------------------------------------------------------------------
// Promotion
// ---------------------------------------------------------------------------

/// Whether a candidate has proved itself: used at least three times, and well in
/// more than seven of ten.
pub open spec fn deserves_promotion(total: int, successful: int) -> bool {
    total >= 3 && 10 * successful > 7 * total
}

/// Whether a candidate has proved itself.
pub fn should_promote(health: &SkillHealthRow) -> (res: bool)
    ensures
        res == deserves_promotion(
            health.total_activations as int,
            health.successful_activations as int,
        ),
{
    health.total_activations >= 3 && 10 * (health.successful_activations as i128) > 7 * (
    health.total_activations as i128)
}

/// A frontmatter with the level of a candidate raised.
pub open spec fn raised(head: Seq<char>) -> Seq<char> {
    text::replace(head, "trust_level: candidate"@, "trust_level: verified"@)
}

/// The text of a promoted skill: the level is raised in its frontmatter, and
/// nothing else changes.
pub open spec fn promoted(content: Seq<char>) -> Seq<char> {
    match frontmatter::marks(content) {
        Some((head, close, _)) => content.take(head) + raised(content.subrange(head, close))
            + content.skip(close),
        None => content,
    }
}

/// The text of a promoted skill.
pub fn promoted_content(content: &str) -> (res: String)
    ensures
        res@ == promoted(content@),
{
    proof {
        reveal_strlit("trust_level: candidate");
    }
    let v = text::to_chars(content);
    match frontmatter::find_marks(&v) {
        None => content.to_owned(),
        Some((head, close, _)) => {
            let front = text::from_range(&v, 0, head);
            let middle = text::from_range(&v, head, close);
            let rest = text::from_range(&v, close, v.len());
            assert(front@ =~= content@.take(head as int));
            assert(rest@ =~= content@.skip(close as int));
            let new = text::replaced(
                middle.as_str(),
                "trust_level: candidate",
                "trust_level: verified",
            );
            text::cat3(front.as_str(), new.as_str(), rest.as_str())
        },
    }
}

/// A text stands in another character by character.
proof fn lemma_occurs_chars(s: Seq<char>, pat: Seq<char>, j: int, k: int)
    requires
        text::occurs_at(s, pat, j),
        0 <= k < pat.len(),
    ensures
        s[j + k] == pat[k],
{
    assert(s.subrange(j, j + pat.len())[k] == pat[k]);
}

/// Once the mark of a candidate is replaced from `i` on, it stands nowhere in
/// what came of it.
proof fn lemma_no_candidate_left(s: Seq<char>, i: int)
    requires
        0 <= i <= s.len(),
    ensures
        !text::contains(
            text::replace_from(s, "trust_level: candidate"@, "trust_level: verified"@, i),
            "trust_level: candidate"@,
        ),
    decreases s.len() - i,
{
    let p = "trust_level: candidate"@;
    let r = "trust_level: verified"@;
    reveal_strlit("trust_level: candidate");
    reveal_strlit("trust_level: verified");
    let out = text::replace_from(s, p, r, i);
    text::lemma_find_from(s, p, i);
    match text::find_from(s, p, i) {
        None => {
            assert(out == s.skip(i));
            if text::contains(out, p) {
                let j = choose|j: int| text::occurs_at(out, p, j);
                assert(s.subrange(i + j, i + j + p.len()) =~= out.subrange(j, j + p.len()));
                assert(text::occurs_at(s, p, i + j));
            }
        },
        Some(k) => {
            let rest = text::replace_from(s, p, r, k + p.len());
            let a = s.subrange(i, k);
            assert(out == a + r + rest);
            lemma_no_candidate_left(s, k + p.len() as int);
            if text::contains(out, p) {
                let j = choose|j: int| text::occurs_at(out, p, j);
                lemma_occurs_chars(out, p, j, 0);
                if j + p.len() <= a.len() {
                    assert(s.subrange(i + j, i + j + p.len()) =~= out.subrange(j, j + p.len()));
                    assert(text::occurs_at(s, p, i + j));
                } else if j < a.len() {
                    let d = a.len() - j;
                    lemma_occurs_chars(out, p, j, d);
                    assert(out[j + d] == r[0]);
                    if d < 21 {
                        lemma_occurs_chars(out, p, j, d + 1);
                        assert(out[j + d + 1] == r[1]);
                    }
                } else if j < a.len() + r.len() {
                    let e = j - a.len();
                    assert(out[j] == r[e]);
                    if e == 0 {
                        lemma_occurs_chars(out, p, j, 13);
                        assert(out[j + 13] == r[13]);
                    } else if e < 20 {
                        lemma_occurs_chars(out, p, j, 1);
                        assert(out[j + 1] == r[e + 1]);
                    }
                } else {
                    let m = j - a.len() - r.len();
                    assert(rest.subrange(m, m + p.len()) =~= out.subrange(j, j + p.len()));
                    assert(text::occurs_at(rest, p, m));
                }
            }
        },
    }
}

/// A line of a raised frontmatter that would end it was one before; `t` is what
/// follows the frontmatter, and only what stands from `i` on is raised.
proof fn lemma_raised_line(h: Seq<char>, t: Seq<char>, i: int, j: int) -> (j0: int)
    requires
        0 <= i <= h.len(),
        ({
            let out = text::replace_from(
                h,
                "trust_level: candidate"@,
                "trust_level: verified"@,
                i,
            );
            &&& 0 <= j < out.len()
            &&& j == 0 || out[j - 1] == '\n'
            &&& frontmatter::is_mark(frontmatter::line_at(out + t, j), false)
        }),
    ensures
        i <= j0 < h.len(),
        (j == 0 && j0 == i) || (i < j0 && h[j0 - 1] == '\n'),
        frontmatter::is_mark(frontmatter::line_at(h + t, j0), false),
    decreases h.len() - i,
{
    let p = "trust_level: candidate"@;
    let r = "trust_level: verified"@;
    reveal_strlit("trust_level: candidate");
    reveal_strlit("trust_level: verified");
    let out = text::replace_from(h, p, r, i);
    let w = out + t;
    text::lemma_find_from(h, p, i);
    match text::find_from(h, p, i) {
        None => {
            assert(out == h.skip(i));
            assert(w =~= (h + t).skip(i));
            frontmatter::lemma_line_behind(h + t, i, j);
            i + j
        },
        Some(k) => {
            let rest = text::replace_from(h, p, r, k + p.len());
            let a = h.subrange(i, k);
            let n = (a.len() + r.len()) as int;
            assert(out == a + r + rest);
            let e = text::next_char(w, '\n', j);
            text::lemma_next_char(w, '\n', j);
            let line = frontmatter::line_at(w, j);
            if j <= a.len() {
                if e >= a.len() {
                    assert(w[a.len() as int] == r[0]);
                    assert(line[a.len() - j] == 't');
                    frontmatter::lemma_mark_chars(line, false, a.len() - j);
                }
                assert forall|q: int| i + j <= q < i + e implies (h + t)[q] != '\n' by {
                    assert(w[q - i] == h[q]);
                }
                assert(w[e] == h[i + e]);
                frontmatter::lemma_line_is(h + t, i + j, i + e);
                assert((h + t).subrange(i + j, i + e) =~= w.subrange(j, e));
                i + j
            } else {
                assert(forall|q: int| 0 <= q < r.len() ==> r[q] != '\n');
                if j <= n {
                    assert(out[j - 1] == r[j - 1 - a.len()]);
                }
                assert(w.skip(n) =~= rest + t);
                frontmatter::lemma_line_behind(w, n, j - n);
                assert(out[j - 1] == rest[j - n - 1]);
                lemma_raised_line(h, t, k + p.len() as int, j - n)
            }
        },
    }
}

/// Lines that are raised from `i` on still end with a line feed.
proof fn lemma_raised_end(h: Seq<char>, i: int)
    requires
        0 <= i < h.len(),
        h.last() == '\n',
    ensures
        ({
            let out = text::replace_from(
                h,
                "trust_level: candidate"@,
                "trust_level: verified"@,
                i,
            );
            out.len() > 0 && out.last() == '\n'
        }),
    decreases h.len() - i,
{
    let p = "trust_level: candidate"@;
    reveal_strlit("trust_level: candidate");
    text::lemma_find_from(h, p, i);
    match text::find_from(h, p, i) {
        None => {},
        Some(k) => {
            lemma_occurs_chars(h, p, k, p.len() - 1);
            lemma_raised_end(h, k + p.len() as int);
        },
    }
}

/// A mark that would end a raised frontmatter in one line was one before; `t` is
/// what follows the frontmatter, and only what stands from `i` on is raised.
proof fn lemma_raised_mark(h: Seq<char>, t: Seq<char>, i: int, j: int) -> (j0: int)
    requires
        0 <= i <= h.len(),
        ({
            let out = text::replace_from(
                h,
                "trust_level: candidate"@,
                "trust_level: verified"@,
                i,
            );
            0 <= j < out.len() && text::occurs_at(out + t, " ---"@, j)
        }),
    ensures
        i <= j0 < h.len(),
        text::occurs_at(h + t, " ---"@, j0),
    decreases h.len() - i,
{
    let p = "trust_level: candidate"@;
    let r = "trust_level: verified"@;
    let mark = " ---"@;
    reveal_strlit("trust_level: candidate");
    reveal_strlit("trust_level: verified");
    reveal_strlit(" ---");
    let out = text::replace_from(h, p, r, i);
    let w = out + t;
    text::lemma_find_from(h, p, i);
    match text::find_from(h, p, i) {
        None => {
            assert(out == h.skip(i));
            assert((h + t).subrange(i + j, i + j + 4) =~= w.subrange(j, j + 4));
            i + j
        },
        Some(k) => {
            let rest = text::replace_from(h, p, r, k + p.len());
            let a = h.subrange(i, k);
            let n = (a.len() + r.len()) as int;
            assert(out == a + r + rest);
            if j < a.len() {
                if j + 4 > a.len() {
                    lemma_occurs_chars(w, mark, j, a.len() - j);
                    assert(w[a.len() as int] == r[0]);
                }
                assert((h + t).subrange(i + j, i + j + 4) =~= w.subrange(j, j + 4));
                i + j
            } else {
                if j < n {
                    let q = j - a.len();
                    lemma_occurs_chars(w, mark, j, 0);
                    lemma_occurs_chars(w, mark, j, 1);
                    assert(w[j] == r[q]);
                    assert(forall|x: int| 0 <= x < r.len() && r[x] == ' ' ==> x == 12);
                    assert(w[j + 1] == r[13]);
                }
                assert((rest + t).subrange(j - n, j - n + 4) =~= w.subrange(j, j + 4));
                lemma_raised_mark(h, t, k + p.len() as int, j - n)
            }
        },
    }
}

/// A promoted skill with a frontmatter in lines has the raised frontmatter, above
/// the body that it had.
proof fn lemma_promoted_lines(content: Seq<char>)
    requires
        frontmatter::opening(content) is Some,
        frontmatter::marks(content) is Some,
    ensures
        frontmatter::marks(promoted(content)) is Some,
        frontmatter::opening(promoted(content)) == frontmatter::opening(content),
        frontmatter::head_of(promoted(content)) == raised(frontmatter::head_of(content)),
        frontmatter::body_of(promoted(content)) == frontmatter::body_of(content),
{
    let (head, close, body) = frontmatter::marks(content)->0;
    let h = frontmatter::head_of(content);
    let new = raised(h);
    let u = promoted(content);
    let t = content.skip(close);
    let c = (head + new.len()) as int;
    reveal_strlit("trust_level: candidate");
    frontmatter::lemma_marks(content);
    frontmatter::lemma_strip_front(content, '\u{feff}');
    frontmatter::lemma_closing(content, head, false);
    frontmatter::lemma_closing_first(content, head, false);
    assert(u.take(head) =~= content.take(head));
    frontmatter::lemma_opened_alike(content, u, head);
    assert(u.skip(c) =~= t);
    assert(u.skip(head) =~= new + t);
    assert(content.skip(head) =~= h + t);
    frontmatter::lemma_line_behind(u, c, 0);
    frontmatter::lemma_line_behind(content, close, 0);
    assert(frontmatter::begins(u, head, c)) by {
        if h.len() == 0 {
            assert(text::find_from(h, "trust_level: candidate"@, 0) is None);
            assert(new =~= h);
        } else {
            assert(h.last() == content[close - 1]);
            lemma_raised_end(h, 0);
            assert(u[c - 1] == new.last());
        }
    }
    assert forall|j: int| head <= j < c && #[trigger] frontmatter::begins(
        u,
        head,
        j,
    ) implies !frontmatter::is_mark(frontmatter::line_at(u, j), false) by {
        if frontmatter::is_mark(frontmatter::line_at(u, j), false) {
            frontmatter::lemma_line_behind(u, head, j - head);
            assert(j > head ==> u[j - 1] == new[j - head - 1]);
            let j0 = lemma_raised_line(h, t, 0, j - head);
            frontmatter::lemma_line_behind(content, head, j0);
            assert(j0 > 0 ==> content[head + j0 - 1] == h[j0 - 1]);
            assert(frontmatter::begins(content, head, head + j0));
        }
    }
    frontmatter::lemma_closing_is(u, head, c, false);
    assert(u.subrange(head, c) =~= new);
    assert(u.skip(c + (body - close)) =~= content.skip(body));
}

/// The mark that ends a frontmatter in one line is still the first when the
/// frontmatter is raised; `front` stands before it, and `t` begins with the mark.
proof fn lemma_raised_mark_is_first(front: Seq<char>, h: Seq<char>, t: Seq<char>)
    requires
        text::occurs_at(t, " ---"@, 0),
        text::find_from(front + h + t, " ---"@, front.len() as int) == Some(
            (front.len() + h.len()) as int,
        ),
    ensures
        text::find_from(front + raised(h) + t, " ---"@, front.len() as int) == Some(
            (front.len() + raised(h).len()) as int,
        ),
{
    let mark = " ---"@;
    let new = raised(h);
    let old_text = front + h + t;
    let u = front + new + t;
    let head = front.len() as int;
    let c = head + new.len();
    reveal_strlit(" ---");
    text::lemma_find_from(old_text, mark, head);
    assert(u.subrange(c, c + 4) =~= t.subrange(0, 4));
    assert(text::occurs_at(u, mark, c));
    assert forall|j: int| head <= j < c implies !text::occurs_at(u, mark, j) by {
        if text::occurs_at(u, mark, j) {
            assert((new + t).subrange(j - head, j - head + 4) =~= u.subrange(j, j + 4));
            let j0 = lemma_raised_mark(h, t, 0, j - head);
            assert(old_text.subrange(head + j0, head + j0 + 4) =~= (h + t).subrange(j0, j0 + 4));
            assert(text::occurs_at(old_text, mark, head + j0));
        }
    }
    text::lemma_find_from(u, mark, head);
}

/// A promoted skill with a frontmatter in one line has the raised frontmatter, before
/// the body that it had.
proof fn lemma_promoted_inline(content: Seq<char>)
    requires
        frontmatter::opening(content) is None,
        frontmatter::marks(content) is Some,
    ensures
        frontmatter::marks(promoted(content)) is Some,
        frontmatter::opening(promoted(content)) is None,
        frontmatter::head_of(promoted(content)) == raised(frontmatter::head_of(content)),
        frontmatter::body_of(promoted(content)) == frontmatter::body_of(content),
{
    let (head, close, body) = frontmatter::marks(content)->0;
    let h = frontmatter::head_of(content);
    let new = raised(h);
    let u = promoted(content);
    let t = content.skip(close);
    let c = (head + new.len()) as int;
    reveal_strlit(" ---");
    frontmatter::lemma_marks(content);
    frontmatter::lemma_strip_front(content, '\u{feff}');
    text::lemma_find_from(content, " ---"@, head);
    assert(u.take(head) =~= content.take(head));
    frontmatter::lemma_opened_alike(content, u, head);
    assert(t.subrange(0, 4) =~= content.subrange(close, close + 4));
    assert(content.take(head) + h + t =~= content);
    lemma_raised_mark_is_first(content.take(head), h, t);
    assert(u.subrange(head, c) =~= new);
    assert(u.skip(c + 4) =~= content.skip(body));
}

/// A promoted skill has the raised frontmatter, above the body that it had.
pub proof fn law_promoted_keeps_its_body(content: Seq<char>)
    requires
        frontmatter::marks(content) is Some,
    ensures
        frontmatter::marks(promoted(content)) is Some,
        frontmatter::head_of(promoted(content)) == raised(frontmatter::head_of(content)),
        frontmatter::body_of(promoted(content)) == frontmatter::body_of(content),
{
    if frontmatter::opening(content) is Some {
        lemma_promoted_lines(content);
    } else {
        lemma_promoted_inline(content);
    }
}

/// In the frontmatter of a promoted skill the mark of a candidate stands nowhere.
pub proof fn law_promoted_is_no_candidate(content: Seq<char>)
    ensures
        !text::contains(frontmatter::head_of(promoted(content)), "trust_level: candidate"@),
{
    if frontmatter::marks(content) is Some {
        law_promoted_keeps_its_body(content);
        lemma_no_candidate_left(frontmatter::head_of(content), 0);
    } else {
        reveal_strlit("trust_level: candidate");
    }
}

/// A candidate that is promoted is marked as verified in its frontmatter.
pub proof fn law_promoted_is_verified(content: Seq<char>)
    requires
        text::contains(frontmatter::head_of(content), "trust_level: candidate"@),
    ensures
        text::contains(frontmatter::head_of(promoted(content)), "trust_level: verified"@),
{
    let head = frontmatter::head_of(content);
    let p = "trust_level: candidate"@;
    let r = "trust_level: verified"@;
    reveal_strlit("trust_level: candidate");
    law_promoted_keeps_its_body(content);
    text::lemma_find_from(head, p, 0);
    let k = text::find_from(head, p, 0)->0;
    let rest = text::replace_from(head, p, r, k + p.len());
    text::lemma_middle_is_contained(head.subrange(0, k), r, rest);
}

// ---------------------------------------------------------------------------
// Retirement
// ---------------------------------------------------------------------------

/// Where a skill may be kept: by itself, or among those that were generated.
pub open spec fn skill_places(skills_dir: Seq<char>, name: Seq<char>) -> (Seq<char>, Seq<char>) {
    (
        paths::joined(skills_dir, name),
        paths::joined(paths::joined(skills_dir, "auto-generated"@), name),
    )
}

/// Where a skill is kept, given which of the two places is a directory.
pub open spec fn skill_place(
    skills_dir: Seq<char>,
    name: Seq<char>,
    direct_is_dir: bool,
    auto_is_dir: bool,
) -> Option<Seq<char>> {
    if direct_is_dir {
        Some(skill_places(skills_dir, name).0)
    } else if auto_is_dir {
        Some(skill_places(skills_dir, name).1)
    } else {
        None
    }
}

/// Where a skill is kept, given which of the two places is a directory.
pub fn find_skill_dir(
    skills_dir: &str,
    skill_name: &str,
    direct_is_dir: bool,
    auto_is_dir: bool,
) -> (res: Result<String, String>)
    ensures
        match res {
            Ok(found) => skill_place(skills_dir@, skill_name@, direct_is_dir, auto_is_dir) == Some(
                found@,
            ),
            Err(_) => skill_place(skills_dir@, skill_name@, direct_is_dir, auto_is_dir) is None,
        },
        result_view(res) == if direct_is_dir {
            Ok::<_, Seq<char>>(skill_places(skills_dir@, skill_name@).0)
        } else if auto_is_dir {
            Ok(skill_places(skills_dir@, skill_name@).1)
        } else {
            Err(
                "Skill directory not found for '"@ + skill_name@ + "' in "@ + skills_dir@,
            )
        },
{
    if direct_is_dir {
        return Ok(paths::join(skills_dir, skill_name));
    }
    if auto_is_dir {
        let auto = paths::join(skills_dir, "auto-generated");
        return Ok(paths::join(auto.as_str(), skill_name));
    }
    Err(text::cat4("Skill directory not found for '", skill_name, "' in ", skills_dir))
}

/// Where a retired skill is kept.
pub fn archive_dir(skills_dir: &str, skill_name: &str) -> (res: String)
    ensures
        res@ == archive_place(skills_dir@, skill_name@),
        res@ == paths::joined(paths::joined(skills_dir@, ".archive"@), skill_name@),
{
    let archive = paths::join(skills_dir, ".archive");
    paths::join(archive.as_str(), skill_name)
}

/// The figures of a retired skill; rates and averages as decimal text.
pub struct RetirementMetrics {
    pub total_activations: i64,
    pub success_rate: String,
    pub avg_tokens: String,
    pub last_activated_at: String,
}

/// The note on a retired skill.
pub open spec fn retirement_json(
    archived_at: Seq<char>,
    reason: Seq<char>,
    metrics: Option<RetirementMetrics>,
) -> JsonV {
    match metrics {
        None => json::obj2(
            "archived_at"@,
            json::jstr(archived_at),
            "reason"@,
            json::jstr(reason),
        ),
        Some(m) => json::obj3(
            "archived_at"@,
            json::jstr(archived_at),
            "reason"@,
            json::jstr(reason),
            "metrics"@,
            json::obj4(
                "total_activations"@,
                json::int_view(m.total_activations),
                "success_rate"@,
                JsonV::Number(JsonNumberV::Other(m.success_rate@)),
                "avg_tokens"@,
                JsonV::Number(JsonNumberV::Other(m.avg_tokens@)),
                "last_activated_at"@,
                json::jstr(m.last_activated_at@),
            ),
        ),
    }
}

/// The note on a skill that was retired at this time.
pub fn retirement_meta_at(archived_at: &str, reason: &str, metrics: &Option<RetirementMetrics>) ->
    (res: Json)
    ensures
        res@ == retirement_json(archived_at@, reason@, *metrics),
{
    let plain = Fields::new().text("archived_at", archived_at).text("reason", reason);
    match metrics {
        None => plain.object(),
        Some(m) => {
            let figures = Fields::new().with(
                "total_activations",
                json::integer(m.total_activations),
            ).with(
                "success_rate",
                Json::Number(JsonNumber::Other(m.success_rate.clone())),
            ).with("avg_tokens", Json::Number(JsonNumber::Other(m.avg_tokens.clone()))).text(
                "last_activated_at",
                m.last_activated_at.as_str(),
            ).object();
            plain.with("metrics", figures).object()
        },
    }
}

/// The note on a skill that is retired now, as indented text.
pub fn retirement_meta(reason: &str, metrics: &Option<RetirementMetrics>) -> (res: String)
    ensures
        exists|now: Seq<char>|
            res@ == json::indented_text_of(#[trigger] retirement_json(now, reason@, *metrics)),
{
    let now = stamps::now_rfc3339();
    let meta = retirement_meta_at(now.as_str(), reason, metrics);
    assert(meta@ == retirement_json(now@, reason@, *metrics));
    meta.to_indented_text()
}

// ---------------------------------------------------------------------------
// Learnings
// ---------------------------------------------------------------------------

/// What was learned.
pub open spec fn learning_json(
    timestamp: Seq<char>,
    source: Seq<char>,
    title: Seq<char>,
    context: Seq<char>,
    takeaway: Seq<char>,
) -> JsonV {
    JsonV::Object(
        Seq::empty().push(("timestamp"@, json::jstr(timestamp))).push(
            ("source"@, json::jstr(source)),
        ).push(("title"@, json::jstr(title))).push(("context"@, json::jstr(context))).push(
            ("takeaway"@, json::jstr(takeaway)),
        ).push(("confidence"@, JsonV::Number(JsonNumberV::Other("0.8"@)))),
    )
}

/// What was learned at this time.
pub fn learning_entry_at(
    timestamp: &str,
    source: &str,
    title: &str,
    context: &str,
    takeaway: &str,
) -> (res: Json)
    ensures
        res@ == learning_json(timestamp@, source@, title@, context@, takeaway@),
{
    Fields::new().text("timestamp", timestamp).text("source", source).text("title", title).text(
        "context",
        context,
    ).text("takeaway", takeaway).with(
        "confidence",
        Json::Number(JsonNumber::Other(text::owned("0.8"))),
    ).object()
}

/// The line that records what was learned now.
pub fn learning_line(source: &str, title: &str, context: &str, takeaway: &str) -> (res: String)
    ensures
        exists|now: Seq<char>|
            res@ == json::text_of(
                #[trigger] learning_json(now, source@, title@, context@, takeaway@),
            ) + "\n"@,
{
    let now = stamps::now_rfc3339();
    let entry = learning_entry_at(now.as_str(), source, title, context, takeaway);
    assert(entry@ == learning_json(now@, source@, title@, context@, takeaway@));
    text::cat(entry.to_text().as_str(), "\n")
}

/// Where learnings are kept.
pub fn learnings_path(data_dir: &str) -> (res: String)
    ensures
        res@ == paths::joined(data_dir@, "learnings.jsonl"@),
{
    paths::join(data_dir, "learnings.jsonl")
}

// ---------------------------------------------------------------------------
// What holds of questions, replies and records
// ---------------------------------------------------------------------------

/// What a block of a reply says.
pub open spec fn block_text(block: ResponseContentBlock) -> Seq<char> {
    match block {
        ResponseContentBlock::Text(t) => t@,
        ResponseContentBlock::Other => Seq::empty(),
    }
}

/// The text of a reply is what all its blocks of text say, one behind the other.
pub proof fn law_reply_text(blocks: Seq<ResponseContentBlock>)
    ensures
        reply_text(blocks) == blocks.map_values(
            |b: ResponseContentBlock| block_text(b),
        ).flatten(),
    decreases blocks.len(),
{
    let f = |b: ResponseContentBlock| block_text(b);
    if blocks.len() > 0 {
        let front = blocks.drop_last();
        law_reply_text(front);
        front.map_values(f).lemma_flatten_push(f(blocks.last()));
        assert(front.map_values(f).push(f(blocks.last())) =~= blocks.map_values(f));
    }
}

/// A reply is taken as it is if and only if it came and says something; else what went
/// wrong is told.
pub proof fn law_skill_text(
    reply: Result<Seq<char>, Seq<char>>,
    failed: Seq<char>,
    empty: Seq<char>,
)
    ensures
        match reply {
            Ok(t) => {
                &&& (exists|i: int| 0 <= i < t.len() && !text::is_white(#[trigger] t[i]))
                    ==> skill_text(reply, failed, empty) == Ok::<_, Seq<char>>(t)
                &&& (forall|i: int| 0 <= i < t.len() ==> text::is_white(#[trigger] t[i]))
                    ==> skill_text(reply, failed, empty) == Err::<Seq<char>, _>(empty)
            },
            Err(e) => skill_text(reply, failed, empty) matches Err(said) && failed.is_prefix_of(said)
                && e.is_suffix_of(said),
        },
{
    match reply {
        Ok(t) => {
            let at = text::law_trim(t);
            if at.0 < at.1 {
                assert(!text::is_white(t[at.0]));
            }
        },
        Err(e) => {
            let said = failed + e;
            assert(said.subrange(0, failed.len() as int) =~= failed);
            assert(said.subrange(said.len() - e.len(), said.len() as int) =~= e);
        },
    }
}

/// The question for a skill tells how often the pattern came, each of its tools and each
/// of the example chats.
pub proof fn law_generation_question(p: PatternV, i: int)
    ensures
        text::contains(generation_question(p), text::digits(p.occurrences)),
        0 <= i < p.sequence.len() ==> text::contains(generation_question(p), p.sequence[i]),
        0 <= i < p.example_chat_ids.len() ==> text::contains(
            generation_question(p),
            text::signed(p.example_chat_ids[i] as int),
        ),
        text::contains(generation_question(p), text::join(p.sequence, " -> "@)),
{
    let q = generation_question(p);
    let a = "Generate a skill for this repeated tool pattern:\n\nTool sequence (appeared "@;
    let n = text::digits(p.occurrences);
    let b = " times across "@;
    let m = text::digits(p.example_chat_ids.len());
    let c = " sessions):\n"@;
    let tools = text::join(p.sequence, " -> "@);
    let d = "\n\nExample chat IDs: "@;
    let ids = id_list(p.example_chat_ids);
    assert(q =~= a + n + (b + m + c + tools + d + ids));
    text::lemma_middle_is_contained(a, n, b + m + c + tools + d + ids);
    assert(q =~= (a + n + b + m + c) + tools + (d + ids));
    text::lemma_middle_is_contained(a + n + b + m + c, tools, d + ids);
    if 0 <= i < p.sequence.len() {
        lemma_whole_is_contained(p.sequence[i]);
        text::lemma_piece_is_contained(p.sequence, " -> "@, i, p.sequence[i]);
        text::lemma_part_is_contained(a + n + b + m + c, tools, d + ids, p.sequence[i]);
    }
    if 0 <= i < p.example_chat_ids.len() {
        let texts = signed_texts(p.example_chat_ids);
        let id = text::signed(p.example_chat_ids[i] as int);
        assert(texts[i] == id);
        lemma_whole_is_contained(id);
        text::lemma_piece_is_contained(texts, ", "@, i, id);
        let row = text::join(texts, ", "@);
        text::lemma_part_is_contained("["@, row, "]"@, id);
        let front = a + n + b + m + c + tools + d;
        text::lemma_part_is_contained(front, ids, Seq::empty(), id);
        assert(q =~= front + ids + Seq::<char>::empty());
    }
}

proof fn lemma_whole_is_contained(t: Seq<char>)
    ensures
        text::contains(t, t),
{
    text::lemma_middle_is_contained(Seq::empty(), t, Seq::empty());
    assert(Seq::<char>::empty() + t + Seq::<char>::empty() =~= t);
}

/// The question for a better skill tells how often it was used, how often well, and its
/// whole text.
pub proof fn law_rewrite_question(
    percent: Seq<char>,
    health: SkillHealthRow,
    avg_tokens: Seq<char>,
    content: Seq<char>,
)
    ensures
        ({
            let q = rewrite_question(percent, health, avg_tokens, content);
            &&& text::contains(q, content)
            &&& text::contains(q, percent)
            &&& text::contains(q, avg_tokens)
            &&& text::contains(q, text::signed(health.successful_activations as int))
            &&& text::contains(q, text::signed(health.total_activations as int))
        }),
{
    let q = rewrite_question(percent, health, avg_tokens, content);
    let a = "This skill is failing. Please rewrite it.\n\nSuccess rate: "@;
    let b = "% ("@;
    let good = text::signed(health.successful_activations as int);
    let c = " / "@;
    let all = text::signed(health.total_activations as int);
    let d = " activations)\nAverage tokens per use: "@;
    let e = "\n\nCurrent SKILL.md:\n```\n"@;
    let f = "\n```"@;
    assert(q =~= a + percent + (b + good + c + all + d + avg_tokens + e + content + f));
    text::lemma_middle_is_contained(a, percent, b + good + c + all + d + avg_tokens + e + content + f);
    assert(q =~= (a + percent + b) + good + (c + all + d + avg_tokens + e + content + f));
    text::lemma_middle_is_contained(a + percent + b, good, c + all + d + avg_tokens + e + content + f);
    assert(q =~= (a + percent + b + good + c) + all + (d + avg_tokens + e + content + f));
    text::lemma_middle_is_contained(a + percent + b + good + c, all, d + avg_tokens + e + content + f);
    assert(q =~= (a + percent + b + good + c + all + d) + avg_tokens + (e + content + f));
    text::lemma_middle_is_contained(a + percent + b + good + c + all + d, avg_tokens, e + content + f);
    text::lemma_middle_is_contained(
        a + percent + b + good + c + all + d + avg_tokens + e,
        content,
        f,
    );
}

/// A text that names one of the tools that change things is refused, wherever the name
/// stands and for that tool; one that names none is not.
pub proof fn law_forbidden_tools(a: Seq<char>, b: Seq<char>, body: Seq<char>)
    ensures
        forbidden_tool(a + "bash"@ + b) is Some,
        forbidden_tool(a + "write_file"@ + b) is Some,
        forbidden_tool(a + "edit_file"@ + b) is Some,
        forbidden_tool(body) matches Some(tool) ==> (tool == "bash"@ || tool == "write_file"@ || tool
            == "edit_file"@) && text::contains(body, tool),
        !text::contains(body, "bash"@) && !text::contains(body, "write_file"@) && !text::contains(
            body,
            "edit_file"@,
        ) ==> forbidden_tool(body) is None,
{
    text::lemma_middle_is_contained(a, "bash"@, b);
    text::lemma_middle_is_contained(a, "write_file"@, b);
    text::lemma_middle_is_contained(a, "edit_file"@, b);
}

/// A candidate with a frontmatter is refused if and only if its body names a tool that
/// changes things, and the reason names the tool; without a frontmatter it is refused in
/// any case.
pub proof fn law_candidates(content: Seq<char>, lower_body: Seq<char>)
    ensures
        !has_frontmatter(content) ==> candidate_error(content, lower_body) is Some,
        has_frontmatter(content) ==> (candidate_error(content, lower_body) is Some
            <==> text::contains(lower_body, "bash"@) || text::contains(lower_body, "write_file"@)
            || text::contains(lower_body, "edit_file"@)),
        has_frontmatter(content) ==> (forbidden_tool(lower_body) matches Some(tool)
            ==> tool.is_suffix_of(candidate_error(content, lower_body)->0)),
{
    if has_frontmatter(content) && forbidden_tool(lower_body) is Some {
        let tool = forbidden_tool(lower_body)->0;
        let e = candidate_error(content, lower_body)->0;
        assert(e.subrange(e.len() - tool.len(), e.len() as int) =~= tool);
    }
}

/// A text between marks that says something is a frontmatter, whatever the body.
pub proof fn law_has_frontmatter(head: Seq<char>, body: Seq<char>, k: int)
    requires
        head.len() > 0,
        head.last() == '\n',
        0 <= k < head.len(),
        !text::is_white(head[k]),
        forall|j: int|
            0 <= j < head.len() && (j == 0 || head[j - 1] == '\n') ==> text::trim(
                #[trigger] frontmatter::line_at(head, j),
            ) != seq!['-', '-', '-'],
    ensures
        has_frontmatter(seq!['-', '-', '-', '\n'] + head + seq!['-', '-', '-', '\n'] + body),
{
    frontmatter::law_head_and_body(false, head, body);
    let mark = seq!['-', '-', '-', '\n'];
    assert(Seq::<char>::empty() + mark + head + mark + body =~= mark + head + mark + body);
    let at = text::law_trim(head);
    if at.0 >= at.1 {
        assert(text::is_white(head[k]));
    }
}

/// The name of a skill stands at the first line that gives one, wherever it is; other
/// lines do not count. It is given without the marks of quotation around it.
pub proof fn law_name_from(lines: Seq<Seq<char>>, k: int, line: Seq<char>)
    ensures
        0 <= k < lines.len() && name_in_line(lines[k]).len() > 0 && (forall|j: int|
            0 <= j < k ==> name_in_line(#[trigger] lines[j]).len() == 0) ==> name_from(lines, 0)
            == Some(name_in_line(lines[k])),
        (forall|j: int| 0 <= j < lines.len() ==> name_in_line(#[trigger] lines[j]).len() == 0)
            ==> name_from(lines, 0) is None,
        !"name:"@.is_prefix_of(text::trim(line)) ==> name_in_line(line).len() == 0,
        name_in_line(line).len() > 0 ==> text::contains(line, name_in_line(line)) && name_in_line(
            line,
        )[0] != '\'' && name_in_line(line).last() != '\'',
{
    lemma_first_name(lines, 0, k);
    let t = text::trim(line);
    text::law_contains(t, "name:"@);
    let at = text::law_trim(line);
    if text::starts(t, "name:"@) {
        let n = "name:"@.len() as int;
        let rest = t.skip(n);
        let mid = text::trim(rest);
        let bt = text::law_trim(rest);
        let once = text::strip_char(mid, '"');
        let ct = text::law_strip_char(mid, '"');
        let name = text::strip_char(once, '\'');
        let dt = text::law_strip_char(once, '\'');
        let from = at.0 + n + bt.0 + ct.0 + dt.0;
        if name.len() > 0 {
            assert(line.subrange(from, from + name.len()) =~= name);
            text::law_contains(line, name);
            assert(name[0] == once[dt.0]);
            assert(name.last() == once[dt.1 - 1]);
        }
    }
}

proof fn lemma_first_name(lines: Seq<Seq<char>>, i: int, k: int)
    requires
        0 <= i,
    ensures
        i <= k < lines.len() && name_in_line(lines[k]).len() > 0 && (forall|j: int|
            i <= j < k ==> name_in_line(#[trigger] lines[j]).len() == 0) ==> name_from(lines, i)
            == Some(name_in_line(lines[k])),
        (forall|j: int| i <= j < lines.len() ==> name_in_line(#[trigger] lines[j]).len() == 0)
            ==> name_from(lines, i) is None,
    decreases lines.len() - i,
{
    if i < lines.len() && name_in_line(lines[i]).len() == 0 {
        lemma_first_name(lines, i + 1, k);
    }
}

/// A plain name, with or without marks of quotation around it, is given as it is.
pub proof fn law_plain_name(name: Seq<char>, quoted: bool)
    requires
        name.len() > 0,
        forall|i: int|
            0 <= i < name.len() ==> !text::is_white(#[trigger] name[i]) && name[i] != '"' && name[i]
                != '\'',
    ensures
        name_in_line(
            "name: "@ + if quoted {
                seq!['"'] + name + seq!['"']
            } else {
                name
            },
        ) == name,
{
    let held = if quoted {
        seq!['"'] + name + seq!['"']
    } else {
        name
    };
    assert(held[0] == if quoted {
        '"'
    } else {
        name[0]
    });
    assert(held.last() == if quoted {
        '"'
    } else {
        name.last()
    });
    assert(!text::is_white(name[0]) && !text::is_white(name[name.len() - 1]));
    lemma_line_of_name(held);
    if quoted {
        lemma_unquoted(name);
    } else {
        lemma_not_stripped(name, '"');
    }
    lemma_not_stripped(name, '\'');
}

/// What stands behind the key, where it begins and ends with no white space.
proof fn lemma_line_of_name(held: Seq<char>)
    requires
        held.len() > 0,
        !text::is_white(held[0]),
        !text::is_white(held.last()),
    ensures
        text::starts(text::trim("name: "@ + held), "name:"@),
        text::trim(text::trim("name: "@ + held).skip("name:"@.len() as int)) == held,
{
    reveal_strlit("name: ");
    reveal_strlit("name:");
    let line = "name: "@ + held;
    assert(line[0] == 'n');
    assert(line.last() == held.last());
    lemma_not_trimmed(line);
    assert(line.subrange(0, 5) =~= "name:"@);
    let rest = line.skip(5);
    assert(rest =~= seq![' '] + held);
    let at = text::law_trim(rest);
    assert(rest[0] == ' ' && rest[1] == held[0] && rest[rest.len() - 1] == held.last());
    assert(at.0 == 1) by {
        if at.0 > 1 {
            assert(text::is_white(rest[1]));
        }
    }
    assert(at.1 == rest.len()) by {
        if at.1 < rest.len() {
            assert(text::is_white(rest[rest.len() - 1]));
        }
    }
    assert(rest.subrange(1, rest.len() as int) =~= held);
}

proof fn lemma_not_trimmed(t: Seq<char>)
    requires
        t.len() > 0,
        !text::is_white(t[0]),
        !text::is_white(t.last()),
    ensures
        text::trim(t) == t,
{
    let at = text::law_trim(t);
    assert(at.0 == 0) by {
        if at.0 > 0 {
            assert(text::is_white(t[0]));
        }
    }
    assert(at.1 == t.len()) by {
        if at.1 < t.len() {
            assert(text::is_white(t[t.len() - 1]));
        }
    }
    assert(t.subrange(0, t.len() as int) =~= t);
}

proof fn lemma_not_stripped(t: Seq<char>, c: char)
    requires
        t.len() > 0,
        t[0] != c,
        t.last() != c,
    ensures
        text::strip_char(t, c) == t,
{
    let at = text::law_strip_char(t, c);
    assert(at.0 == 0) by {
        if at.0 > 0 {
            assert(t[0] == c);
        }
    }
    assert(at.1 == t.len()) by {
        if at.1 < t.len() {
            assert(t[t.len() - 1] == c);
        }
    }
    assert(t.subrange(0, t.len() as int) =~= t);
}

proof fn lemma_unquoted(name: Seq<char>)
    requires
        name.len() > 0,
        name[0] != '"',
        name.last() != '"',
    ensures
        text::strip_char(seq!['"'] + name + seq!['"'], '"') == name,
{
    let held = seq!['"'] + name + seq!['"'];
    let n = held.len() as int;
    assert(held[0] == '"' && held[1] == name[0] && held[n - 2] == name.last() && held[n - 1]
        == '"');
    let at = text::law_strip_char(held, '"');
    assert(at.0 == 1) by {
        if at.0 > 1 {
            assert(held[1] == '"');
        }
    }
    assert(at.1 == n - 1) by {
        if at.1 < n - 1 {
            assert(held[n - 2] == '"');
        }
    }
    assert(held.subrange(1, n - 1) =~= name);
}

/// The lines in which the name of a skill is looked for are those between the marks; where
/// the marks stand in one line with what is between them, those that its keys make.
pub proof fn law_head_lines(head: Seq<char>, body: Seq<char>)
    ensures
        head.len() > 0 && head.last() == '\n' && (forall|j: int|
            0 <= j < head.len() && (j == 0 || head[j - 1] == '\n') ==> text::trim(
                #[trigger] frontmatter::line_at(head, j),
            ) != seq!['-', '-', '-']) ==> head_lines(
            seq!['-', '-', '-', '\n'] + head + seq!['-', '-', '-', '\n'] + body,
        ) == text::lines(head),
        (forall|i: int|
            0 <= i < head.len() ==> #[trigger] (head + " ---"@).subrange(i, i + 4) != " ---"@)
            ==> head_lines("--- "@ + head + " ---"@ + body) == text::lines(
            skills::keys_on_lines(text::trim(head)),
        ),
{
    let mark = seq!['-', '-', '-', '\n'];
    if head.len() > 0 && head.last() == '\n' && (forall|j: int|
        0 <= j < head.len() && (j == 0 || head[j - 1] == '\n') ==> text::trim(
            #[trigger] frontmatter::line_at(head, j),
        ) != seq!['-', '-', '-']) {
        frontmatter::law_head_and_body(false, head, body);
        let s = mark + head + mark + body;
        assert(Seq::<char>::empty() + mark + head + mark + body =~= s);
        frontmatter::lemma_opened(false, head + mark + body);
        assert(Seq::<char>::empty() + mark + (head + mark + body) =~= s);
    }
    if forall|i: int|
        0 <= i < head.len() ==> #[trigger] (head + " ---"@).subrange(i, i + 4) != " ---"@ {
        frontmatter::law_inline(head, body);
    }
}

/// A skill is promoted if and only if it was used at least three times and more than
/// seventy of a hundred times with success. More success never stands in the way.
pub proof fn law_promotion(total: int, successful: int, more: int)
    requires
        0 <= successful <= more <= total,
    ensures
        deserves_promotion(total, successful) <==> total >= 3 && 100 * successful > 70 * total,
        deserves_promotion(total, successful) ==> deserves_promotion(total, more),
{
}

/// A skill may lie right under the directory of skills or among those that were
/// generated.
pub proof fn law_skill_places(dir: Seq<char>, name: Seq<char>)
    requires
        name.len() > 0,
        name[0] != '/',
        dir.len() > 0,
        dir.last() != '/',
    ensures
        skill_places(dir, name).0 == dir + seq!['/'] + name,
        skill_places(dir, name).1 == dir + "/auto-generated/"@ + name,
{
    reveal_strlit("auto-generated");
    reveal_strlit("/auto-generated/");
    assert(skill_places(dir, name).0 =~= dir + seq!['/'] + name);
    let inner = paths::joined(dir, "auto-generated"@);
    assert(inner =~= dir.push('/') + "auto-generated"@);
    assert(inner.last() == "auto-generated"@[13]);
    assert("/auto-generated/"@ =~= seq!['/'] + "auto-generated"@ + seq!['/']);
    assert(skill_places(dir, name).1 =~= dir + "/auto-generated/"@ + name);
}

/// The record of a retired skill tells when and why, and its numbers where there are
/// any.
pub proof fn law_retirement(at: Seq<char>, reason: Seq<char>, metrics: Option<RetirementMetrics>)
    ensures
        retirement_json(at, reason, metrics).get("archived_at"@) == Some(JsonV::Text(at)),
        retirement_json(at, reason, metrics).get("reason"@) == Some(JsonV::Text(reason)),
        metrics is None ==> retirement_json(at, reason, metrics).get("metrics"@) is None,
        metrics matches Some(m) ==> {
            let told = retirement_json(at, reason, metrics);
            &&& told.at2("metrics"@, "total_activations"@) == Some(
                json::int_view(m.total_activations),
            )
            &&& told.at2("metrics"@, "success_rate"@) == Some(
                JsonV::Number(JsonNumberV::Other(m.success_rate@)),
            )
            &&& told.at2("metrics"@, "avg_tokens"@) == Some(
                JsonV::Number(JsonNumberV::Other(m.avg_tokens@)),
            )
            &&& told.at2("metrics"@, "last_activated_at"@) == Some(
                JsonV::Text(m.last_activated_at@),
            )
        },
{
    reveal_strlit("archived_at");
    reveal_strlit("reason");
    reveal_strlit("metrics");
    reveal_strlit("total_activations");
    reveal_strlit("success_rate");
    reveal_strlit("avg_tokens");
    reveal_strlit("last_activated_at");
    assert("reason"@.len() == 6);
    assert("metrics"@.len() == 7);
    assert("avg_tokens"@.len() == 10);
    assert("archived_at"@.len() == 11);
    assert("success_rate"@.len() == 12);
    assert("total_activations"@.len() == 17 && "total_activations"@[0] == 't');
    assert("last_activated_at"@.len() == 17 && "last_activated_at"@[0] == 'l');
    reveal_with_fuel(json::member_from, 5);
}

/// The record of what was learnt tells all of it.
pub proof fn law_learning(
    timestamp: Seq<char>,
    source: Seq<char>,
    title: Seq<char>,
    context: Seq<char>,
    takeaway: Seq<char>,
)
    ensures
        ({
            let told = learning_json(timestamp, source, title, context, takeaway);
            &&& told.get("timestamp"@) == Some(JsonV::Text(timestamp))
            &&& told.get("source"@) == Some(JsonV::Text(source))
            &&& told.get("title"@) == Some(JsonV::Text(title))
            &&& told.get("context"@) == Some(JsonV::Text(context))
            &&& told.get("takeaway"@) == Some(JsonV::Text(takeaway))
            &&& told.get("confidence"@) == Some(JsonV::Number(JsonNumberV::Other("0.8"@)))
        }),
{
    reveal_strlit("timestamp");
    reveal_strlit("source");
    reveal_strlit("title");
    reveal_strlit("context");
    reveal_strlit("takeaway");
    reveal_strlit("confidence");
    assert("title"@.len() == 5);
    assert("source"@.len() == 6);
    assert("context"@.len() == 7);
    assert("takeaway"@.len() == 8);
    assert("timestamp"@.len() == 9);
    assert("confidence"@.len() == 10);
    reveal_with_fuel(json::member_from, 7);
    match learning_json(timestamp, source, title, context, takeaway) {
        JsonV::Object(m) => {
            assert(m[0].0 == "timestamp"@);
            assert(m[1].0 == "source"@);
            assert(m[2].0 == "title"@);
            assert(m[3].0 == "context"@);
            assert(m[4].0 == "takeaway"@);
            assert(m[5].0 == "confidence"@);
        },
        _ => {},
    }
}

/// A candidate in plain letters whose body names a tool that changes things, in whatever
/// case, is refused; what its frontmatter holds does not count.
pub proof fn law_content_is_judged(head: Seq<char>, a: Seq<char>, word: Seq<char>, b: Seq<char>)
    requires
        text::trim(head).len() > 0,
        !text::contains(head, "---"@),
        vstd::utf8::is_ascii_chars(a + word + b),
    ensures
        text::ascii_lower(word) == "bash"@ || text::ascii_lower(word) == "write_file"@
            || text::ascii_lower(word) == "edit_file"@ ==> content_error(
            "---\n"@ + head + "\n---\n"@ + (a + word + b),
        ) is Some,
        !text::contains(text::ascii_lower(a + word + b), "bash"@) && !text::contains(
            text::ascii_lower(a + word + b),
            "write_file"@,
        ) && !text::contains(text::ascii_lower(a + word + b), "edit_file"@) ==> content_error(
            "---\n"@ + head + "\n---\n"@ + (a + word + b),
        ) is None,
{
    let body = a + word + b;
    law_body_alone_is_judged(head, body);
    let lower = text::ascii_lower(body);
    assert(lower =~= text::ascii_lower(a) + text::ascii_lower(word) + text::ascii_lower(b));
    text::lemma_middle_is_contained(
        text::ascii_lower(a),
        text::ascii_lower(word),
        text::ascii_lower(b),
    );
}

/// The name of a skill is the one that the first line of its frontmatter which gives one
/// gives, whatever its body says.
pub proof fn law_skill_name(head: Seq<char>, body: Seq<char>, k: int)
    requires
        head.len() > 0,
        head.last() == '\n',
        forall|j: int|
            0 <= j < head.len() && (j == 0 || head[j - 1] == '\n') ==> text::trim(
                #[trigger] frontmatter::line_at(head, j),
            ) != seq!['-', '-', '-'],
        0 <= k < text::lines(head).len(),
        name_in_line(text::lines(head)[k]).len() > 0,
        forall|j: int| 0 <= j < k ==> name_in_line(#[trigger] text::lines(head)[j]).len() == 0,
    ensures
        skill_name_in(seq!['-', '-', '-', '\n'] + head + seq!['-', '-', '-', '\n'] + body) == Some(
            name_in_line(text::lines(head)[k]),
        ),
{
    law_head_lines(head, body);
    law_name_from(text::lines(head), k, Seq::empty());
}

/// A skill is kept right under the directory of skills where it is there, else among those
/// that were generated where it is there; a candidate among those, in a file of its own;
/// and a retired skill apart.
pub proof fn law_places(dir: Seq<char>, name: Seq<char>, there: bool)
    requires
        dir.len() > 0,
        dir.last() != '/',
        name.len() > 0,
        name[0] != '/',
        name.last() != '/',
    ensures
        skill_place(dir, name, true, there) == Some(dir + seq!['/'] + name),
        skill_place(dir, name, false, true) == Some(dir + "/auto-generated/"@ + name),
        skill_place(dir, name, false, false) is None,
        candidate_place(dir, name) == dir + "/auto-generated/"@ + name + "/SKILL.md"@,
        archive_place(dir, name) == dir + "/.archive/"@ + name,
{
    law_skill_places(dir, name);
    reveal_strlit("SKILL.md");
    reveal_strlit("/SKILL.md");
    reveal_strlit(".archive");
    reveal_strlit("/.archive/");
    let kept = dir + "/auto-generated/"@ + name;
    assert(kept.last() == name.last());
    assert("/SKILL.md"@ =~= seq!['/'] + "SKILL.md"@);
    assert(paths::joined(kept, "SKILL.md"@) =~= kept + "/SKILL.md"@);
    let apart = paths::joined(dir, ".archive"@);
    assert(apart =~= dir.push('/') + ".archive"@);
    assert(apart.last() == ".archive"@[7]);
    assert("/.archive/"@ =~= seq!['/'] + ".archive"@ + seq!['/']);
    assert(archive_place(dir, name) =~= dir + "/.archive/"@ + name);
}

} // verus!
