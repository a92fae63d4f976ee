//! Observability: what a session did, and what the user thought of it.

use crate::stamps;
use crate::text;
use vstd::prelude::*;

verus! {

/// One call of a tool.
#[derive(Debug, Clone)]
pub struct ToolCallMetric {
    pub tool_name: String,
    pub success: bool,
    pub duration_ms: u64,
    pub timestamp: String,
}

/// What a session did.
#[derive(Debug, Clone)]
pub struct SessionMetrics {
    pub chat_id: i64,
    pub channel: String,
    pub timestamp: String,
    pub total_iterations: u32,
    pub tool_calls: Vec<ToolCallMetric>,
    pub llm_input_tokens: u64,
    pub llm_output_tokens: u64,
    pub error_count: u32,
    pub error_categories: Vec<String>,
    pub loop_detected: bool,
    pub overflow_recovered: bool,
    pub user_corrections: u32,
    pub user_positive_signals: u32,
    pub session_duration_ms: u64,
}

/// Whether two records agree in all but the tokens.
pub open spec fn same_but_tokens(a: SessionMetrics, b: SessionMetrics) -> bool {
    a == SessionMetrics {
        llm_input_tokens: a.llm_input_tokens,
        llm_output_tokens: a.llm_output_tokens,
        ..b
    }
}

/// Whether two records agree in all but the errors.
pub open spec fn same_but_errors(a: SessionMetrics, b: SessionMetrics) -> bool {
    a == SessionMetrics {
        error_count: a.error_count,
        error_categories: a.error_categories,
        ..b
    }
}

/// Whether two records agree in all but the calls of tools.
pub open spec fn same_but_calls(a: SessionMetrics, b: SessionMetrics) -> bool {
    a == SessionMetrics { tool_calls: a.tool_calls, ..b }
}

/// The categories with one more, where it is not yet among them.
pub open spec fn with_category(listed: Seq<Seq<char>>, category: Seq<char>) -> Seq<Seq<char>> {
    if listed.contains(category) {
        listed
    } else {
        listed.push(category)
    }
}

impl SessionMetrics {
    /// Whether each category of errors is listed once.
    pub open spec fn wf(self) -> bool {
        text::strs(self.error_categories@).no_duplicates()
    }

    /// A session that has done nothing yet.
    pub fn new(chat_id: i64, channel: &str) -> (res: SessionMetrics)
        ensures
            res.wf(),
            res.chat_id == chat_id,
            res.channel@ == channel@,
            res.timestamp@.len() == 0,
            res.total_iterations == 0,
            res.tool_calls@.len() == 0,
            res.llm_input_tokens == 0,
            res.llm_output_tokens == 0,
            res.error_count == 0,
            res.error_categories@.len() == 0,
            !res.loop_detected,
            !res.overflow_recovered,
            res.user_corrections == 0,
            res.user_positive_signals == 0,
            res.session_duration_ms == 0,
    {
        SessionMetrics {
            chat_id,
            channel: channel.to_owned(),
            timestamp: String::new(),
            total_iterations: 0,
            tool_calls: Vec::new(),
            llm_input_tokens: 0,
            llm_output_tokens: 0,
            error_count: 0,
            error_categories: Vec::new(),
            loop_detected: false,
            overflow_recovered: false,
            user_corrections: 0,
            user_positive_signals: 0,
            session_duration_ms: 0,
        }
    }

    /// Records a call of a tool that was made at this time.
    pub fn record_tool_call_at(
        &mut self,
        name: &str,
        success: bool,
        duration_ms: u64,
        timestamp: String,
    )
        ensures
            same_but_calls(*final(self), *old(self)),
            final(self).tool_calls@.drop_last() == old(self).tool_calls@,
            final(self).tool_calls@.len() == old(self).tool_calls@.len() + 1,
            ({
                let last = final(self).tool_calls@.last();
                &&& last.tool_name@ == name@
                &&& last.success == success
                &&& last.duration_ms == duration_ms
                &&& last.timestamp@ == timestamp@
            }),
    {
        let ghost before = self.tool_calls@;
        self.tool_calls.push(
            ToolCallMetric { tool_name: name.to_owned(), success, duration_ms, timestamp },
        );
        assert(self.tool_calls@.drop_last() =~= before);
    }

    /// Records a call of a tool that was made now.
    pub fn record_tool_call(&mut self, name: &str, success: bool, duration_ms: u64)
        ensures
            same_but_calls(*final(self), *old(self)),
            final(self).tool_calls@.drop_last() == old(self).tool_calls@,
            final(self).tool_calls@.len() == old(self).tool_calls@.len() + 1,
            ({
                let last = final(self).tool_calls@.last();
                &&& last.tool_name@ == name@
                &&& last.success == success
                &&& last.duration_ms == duration_ms
            }),
    {
        let now = stamps::now_rfc3339();
        self.record_tool_call_at(name, success, duration_ms, now);
    }

    /// Adds tokens that the model read and wrote.
    pub fn record_llm_usage(&mut self, input_tokens: u32, output_tokens: u32)
        requires
            old(self).llm_input_tokens + input_tokens <= u64::MAX,
            old(self).llm_output_tokens + output_tokens <= u64::MAX,
        ensures
            same_but_tokens(*final(self), *old(self)),
            final(self).llm_input_tokens == old(self).llm_input_tokens + input_tokens,
            final(self).llm_output_tokens == old(self).llm_output_tokens + output_tokens,
    {
        self.llm_input_tokens = self.llm_input_tokens + input_tokens as u64;
        self.llm_output_tokens = self.llm_output_tokens + output_tokens as u64;
    }

    /// Counts an error, and lists its category once.
    pub fn record_error(&mut self, category: &str)
        requires
            old(self).error_count < u32::MAX,
        ensures
            same_but_errors(*final(self), *old(self)),
            final(self).error_count == old(self).error_count + 1,
            text::strs(final(self).error_categories@) == with_category(
                text::strs(old(self).error_categories@),
                category@,
            ),
            text::strs(final(self).error_categories@) == if text::strs(
                old(self).error_categories@,
            ).contains(category@) {
                text::strs(old(self).error_categories@)
            } else {
                text::strs(old(self).error_categories@).push(category@)
            },
            old(self).wf() ==> final(self).wf(),
    {
        let ghost before = text::strs(self.error_categories@);
        self.error_count = self.error_count + 1;
        let mut known = false;
        let mut i: usize = 0;
        while i < self.error_categories.len()
            invariant
                i <= self.error_categories@.len(),
                before == text::strs(self.error_categories@),
                known == exists|j: int| 0 <= j < i && before[j] == category@,
            decreases self.error_categories@.len() - i,
        {
            let hit = text::same(self.error_categories[i].as_str(), category);
            assert(before[i as int] == self.error_categories@[i as int]@);
            if hit {
                known = true;
            }
            i += 1;
        }
        if !known {
            self.error_categories.push(category.to_owned());
            assert(text::strs(self.error_categories@) =~= before.push(category@));
        }
    }
}

// ---------------------------------------------------------------------------
// Feedback of the user
// ---------------------------------------------------------------------------

/// What a message says of the last answer.
#[derive(Debug, Clone, Copy, PartialEq, Eq)]
pub enum FeedbackSignal {
    Correction,
    Positive,
}

/// Whether a text in lower case corrects the last answer.
pub open spec fn corrects(lower: Seq<char>) -> bool {
    ||| text::contains(lower, "不对"@)
    ||| text::contains(lower, "错了"@)
    ||| text::contains(lower, "不是这样"@)
    ||| text::contains(lower, "搞错"@)
    ||| text::contains(lower, "wrong"@)
    ||| text::contains(lower, "no that's not"@)
    ||| text::contains(lower, "that's incorrect"@)
    ||| text::contains(lower, "that's not right"@)
    ||| text::contains(lower, "you're wrong"@)
    ||| text::contains(lower, "not what i asked"@)
}

/// Whether a text in lower case praises the last answer.
pub open spec fn praises(lower: Seq<char>) -> bool {
    ||| text::contains(lower, "谢谢"@)
    ||| text::contains(lower, "太好了"@)
    ||| text::contains(lower, "非常好"@)
    ||| text::contains(lower, "perfect"@)
    ||| text::contains(lower, "exactly"@)
    ||| text::contains(lower, "thanks"@)
    ||| text::contains(lower, "great"@)
    ||| text::contains(lower, "well done"@)
}

/// The signals in a text in lower case.
pub open spec fn signals_in(lower: Seq<char>) -> Seq<FeedbackSignal> {
    let first = if corrects(lower) {
        seq![FeedbackSignal::Correction]
    } else {
        Seq::empty()
    };
    if praises(lower) {
        first.push(FeedbackSignal::Positive)
    } else {
        first
    }
}

/// The signals in a text in lower case.
pub fn signals_in_lowered(lower: &str) -> (res: Vec<FeedbackSignal>)
    ensures
        res@ == signals_in(lower@),
{
    let mut signals: Vec<FeedbackSignal> = Vec::new();
    if text::has(lower, "不对") || text::has(lower, "错了") || text::has(lower, "不是这样")
        || text::has(lower, "搞错") || text::has(lower, "wrong") || text::has(
        lower,
        "no that's not",
    ) || text::has(lower, "that's incorrect") || text::has(lower, "that's not right")
        || text::has(lower, "you're wrong") || text::has(lower, "not what i asked") {
        signals.push(FeedbackSignal::Correction);
    }
    if text::has(lower, "谢谢") || text::has(lower, "太好了") || text::has(lower, "非常好")
        || text::has(lower, "perfect") || text::has(lower, "exactly") || text::has(lower, "thanks")
        || text::has(lower, "great") || text::has(lower, "well done") {
        signals.push(FeedbackSignal::Positive);
    }
    assert(signals@ =~= signals_in(lower@));
    signals
}

/// The signals in a message, whatever its case.
pub fn detect_feedback_signals(text: &str) -> (res: Vec<FeedbackSignal>)
    ensures
        res@ == signals_in(text::lowercase(text@)),
{
    let lower = text.to_lowercase();
    signals_in_lowered(lower.as_str())
}

/// The words that correct an answer.
pub open spec fn corrections() -> Seq<Seq<char>> {
    seq![
        "不对"@,
        "错了"@,
        "不是这样"@,
        "搞错"@,
        "wrong"@,
        "no that's not"@,
        "that's incorrect"@,
        "that's not right"@,
        "you're wrong"@,
        "not what i asked"@,
    ]
}

/// The words that praise an answer.
pub open spec fn praise() -> Seq<Seq<char>> {
    seq![
        "谢谢"@,
        "太好了"@,
        "非常好"@,
        "perfect"@,
        "exactly"@,
        "thanks"@,
        "great"@,
        "well done"@,
    ]
}

/// Whatever stands before and behind words of correction, there is a correction, and so
/// with words of praise; without any of them there is none. Each signal is given once, a
/// correction before a praise.
pub proof fn law_signals(front: Seq<char>, k: int, back: Seq<char>, lower: Seq<char>)
    ensures
        0 <= k < corrections().len() ==> signals_in(front + corrections()[k] + back).contains(
            FeedbackSignal::Correction,
        ),
        0 <= k < praise().len() ==> signals_in(front + praise()[k] + back).contains(
            FeedbackSignal::Positive,
        ),
        signals_in(lower).contains(FeedbackSignal::Correction) ==> exists|i: int|
            0 <= i < corrections().len() && text::contains(lower, #[trigger] corrections()[i]),
        signals_in(lower).contains(FeedbackSignal::Positive) ==> exists|i: int|
            0 <= i < praise().len() && text::contains(lower, #[trigger] praise()[i]),
        signals_in(lower).len() <= 2,
        signals_in(lower).len() == 2 ==> signals_in(lower) == seq![
            FeedbackSignal::Correction,
            FeedbackSignal::Positive,
        ],
{
    let words = corrections();
    assert(words[0] == "不对"@ && words[1] == "错了"@ && words[2] == "不是这样"@);
    assert(words[3] == "搞错"@ && words[4] == "wrong"@ && words[5] == "no that's not"@);
    assert(words[6] == "that's incorrect"@ && words[7] == "that's not right"@);
    assert(words[8] == "you're wrong"@ && words[9] == "not what i asked"@);
    let kind = praise();
    assert(kind[0] == "谢谢"@ && kind[1] == "太好了"@ && kind[2] == "非常好"@);
    assert(kind[3] == "perfect"@ && kind[4] == "exactly"@ && kind[5] == "thanks"@);
    assert(kind[6] == "great"@ && kind[7] == "well done"@);
    if 0 <= k < words.len() {
        text::lemma_middle_is_contained(front, words[k], back);
        let got = signals_in(front + words[k] + back);
        assert(got[0] == FeedbackSignal::Correction);
    }
    if 0 <= k < kind.len() {
        text::lemma_middle_is_contained(front, kind[k], back);
        let got = signals_in(front + kind[k] + back);
        assert(got[got.len() - 1] == FeedbackSignal::Positive);
    }
    let got = signals_in(lower);
    if got.len() == 2 {
        assert(got =~= seq![FeedbackSignal::Correction, FeedbackSignal::Positive]);
    }
    if corrects(lower) {
        assert(exists|i: int|
            0 <= i < corrections().len() && text::contains(lower, #[trigger] corrections()[i]));
    } else if got.contains(FeedbackSignal::Correction) {
        let i = choose|i: int| 0 <= i < got.len() && got[i] == FeedbackSignal::Correction;
        assert(got[i] == FeedbackSignal::Positive);
    }
    if praises(lower) {
        assert(exists|i: int|
            0 <= i < praise().len() && text::contains(lower, #[trigger] praise()[i]));
    } else if got.contains(FeedbackSignal::Positive) {
        let i = choose|i: int| 0 <= i < got.len() && got[i] == FeedbackSignal::Positive;
        assert(got[i] == FeedbackSignal::Correction);
    }
}

/// A category of an error is listed once, in the order in which they came, and none is
/// lost.
pub proof fn law_categories(listed: Seq<Seq<char>>, category: Seq<char>)
    requires
        listed.no_duplicates(),
    ensures
        with_category(listed, category).contains(category),
        listed.is_prefix_of(with_category(listed, category)),
        with_category(listed, category).no_duplicates(),
        with_category(listed, category).len() <= listed.len() + 1,
        with_category(with_category(listed, category), category) == with_category(
            listed,
            category,
        ),
{
    let after = with_category(listed, category);
    assert(after.subrange(0, listed.len() as int) =~= listed);
    if !listed.contains(category) {
        assert(after[listed.len() as int] == category);
    }
}

} // verus!
