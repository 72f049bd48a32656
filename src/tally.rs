use vstd::prelude::*;
use crate::model::{Poll, PollQuestion, PollResponse, PollResult, ResponseView};
use crate::render::contains_index;

verus! {

/// The summary of one question over all submissions.
#[derive(Debug, PartialEq, Eq)]
pub enum QuestionTally {
    /// The texts submitted to a text question, in the order of the submissions.
    Texts(Vec<String>),
    /// For each option of a choice question, how many submissions selected it.
    Counts(Vec<usize>),
}

pub enum TallyView {
    Texts(Seq<Seq<char>>),
    Counts(Seq<nat>),
}

impl View for QuestionTally {
    type V = TallyView;

    open spec fn view(&self) -> TallyView {
        match self {
            QuestionTally::Texts(t) => TallyView::Texts(t@.map_values(|s: String| s@)),
            QuestionTally::Counts(c) => TallyView::Counts(c@.map_values(|n: usize| n as nat)),
        }
    }
}

/// The answer to question `i` in a submission, where it has one.
pub open spec fn answer_at(r: Seq<ResponseView>, i: int) -> Option<ResponseView> {
    if 0 <= i < r.len() {
        Some(r[i])
    } else {
        None
    }
}

/// Whether an answer selects option `o`.
pub open spec fn selects(a: Option<ResponseView>, o: nat) -> bool {
    match a {
        Some(ResponseView::SingleChoice(k)) => k == o,
        Some(ResponseView::MultipleChoice(v)) => v.contains(o),
        _ => false,
    }
}

/// How many submissions select option `o` of question `i`.
pub open spec fn count_selecting(rs: Seq<Seq<ResponseView>>, i: int, o: nat) -> nat
    decreases rs.len(),
{
    if rs.len() == 0 {
        0
    } else {
        count_selecting(rs.drop_last(), i, o) + if selects(answer_at(rs.last(), i), o) {
            1nat
        } else {
            0nat
        }
    }
}

/// The texts that submissions give to question `i`, in order.
pub open spec fn texts_of(rs: Seq<Seq<ResponseView>>, i: int) -> Seq<Seq<char>>
    decreases rs.len(),
{
    if rs.len() == 0 {
        Seq::empty()
    } else {
        match answer_at(rs.last(), i) {
            Some(ResponseView::Text(t)) => texts_of(rs.drop_last(), i).push(t),
            _ => texts_of(rs.drop_last(), i),
        }
    }
}

/// The summary of question `q`, at position `i`.
pub open spec fn question_tally(q: PollQuestion, i: int, rs: Seq<Seq<ResponseView>>) -> TallyView {
    match q {
        PollQuestion::Text { .. } => TallyView::Texts(texts_of(rs, i)),
        PollQuestion::Choice { options, .. } => TallyView::Counts(
            Seq::new(options@.len(), |o: int| count_selecting(rs, i, o as nat)),
        ),
    }
}

pub open spec fn records_view(records: Seq<PollResult>) -> Seq<Seq<ResponseView>> {
    records.map_values(|r: PollResult| r@)
}

/// Whether the answer `a` selects option `o`.
fn answer_selects(a: Option<&PollResponse>, o: usize) -> (r: bool)
    ensures
        r == selects(
            match a {
                Some(x) => Some(x@),
                None => None,
            },
            o as nat,
        ),
{
    match a {
        Some(PollResponse::SingleChoice(k)) => *k == o,
        Some(PollResponse::MultipleChoice(v)) => contains_index(v, o),
        _ => false,
    }
}

fn answer_exec(r: &PollResult, i: usize) -> (a: Option<&PollResponse>)
    ensures
        match a {
            Some(x) => answer_at(r@, i as int) == Some(x@),
            None => answer_at(r@, i as int) is None,
        },
{
    if i < r.0.len() {
        Some(&r.0[i])
    } else {
        None
    }
}

fn count_option(records: &Vec<PollResult>, i: usize, o: usize) -> (r: usize)
    ensures
        r == count_selecting(records_view(records@), i as int, o as nat),
{
    let ghost rs = records_view(records@);
    let mut n: usize = 0;
    let mut j: usize = 0;
    while j < records.len()
        invariant
            j <= records@.len(),
            rs == records_view(records@),
            n <= j,
            n == count_selecting(rs.subrange(0, j as int), i as int, o as nat),
        decreases records@.len() - j,
    {
        let ghost next = rs.subrange(0, j + 1);
        assert(next.drop_last() =~= rs.subrange(0, j as int));
        assert(next.last() == records@[j as int]@);
        if answer_selects(answer_exec(&records[j], i), o) {
            n = n + 1;
        }
        j = j + 1;
    }
    assert(rs.subrange(0, records@.len() as int) =~= rs);
    n
}

fn collect_texts(records: &Vec<PollResult>, i: usize) -> (r: Vec<String>)
    ensures
        r@.map_values(|s: String| s@) == texts_of(records_view(records@), i as int),
{
    let ghost rs = records_view(records@);
    let mut out: Vec<String> = Vec::new();
    let mut j: usize = 0;
    while j < records.len()
        invariant
            j <= records@.len(),
            rs == records_view(records@),
            out@.map_values(|s: String| s@) == texts_of(rs.subrange(0, j as int), i as int),
        decreases records@.len() - j,
    {
        let ghost next = rs.subrange(0, j + 1);
        assert(next.drop_last() =~= rs.subrange(0, j as int));
        assert(next.last() == records@[j as int]@);
        match answer_exec(&records[j], i) {
            Some(PollResponse::Text(t)) => out.push(t.clone()),
            _ => {},
        }
        assert(out@.map_values(|s: String| s@) =~= texts_of(next, i as int));
        j = j + 1;
    }
    assert(rs.subrange(0, records@.len() as int) =~= rs);
    out
}

/// Summarises all submissions to `poll`: for each text question the submitted
/// texts, for each choice question how often each option was selected. An
/// answer that does not fit its question (a text where a choice is asked, a
/// position past the options) counts for nothing.
pub fn tally(poll: &Poll, records: &Vec<PollResult>) -> (r: Vec<QuestionTally>)
    ensures
        r@.len() == poll.entries@.len(),
        forall|i: int|
            0 <= i < r@.len() ==> #[trigger] r@[i]@ == question_tally(
                poll.entries@[i],
                i,
                records_view(records@),
            ),
{
    let ghost rs = records_view(records@);
    let mut out: Vec<QuestionTally> = Vec::new();
    let mut i: usize = 0;
    while i < poll.entries.len()
        invariant
            i <= poll.entries@.len(),
            rs == records_view(records@),
            out@.len() == i,
            forall|k: int|
                0 <= k < i ==> #[trigger] out@[k]@ == question_tally(poll.entries@[k], k, rs),
        decreases poll.entries@.len() - i,
    {
        match &poll.entries[i] {
            PollQuestion::Text { .. } => {
                out.push(QuestionTally::Texts(collect_texts(records, i)));
            },
            PollQuestion::Choice { options, .. } => {
                let mut counts: Vec<usize> = Vec::new();
                let mut o: usize = 0;
                while o < options.len()
                    invariant
                        o <= options@.len(),
                        rs == records_view(records@),
                        counts@.len() == o,
                        forall|p: int|
                            0 <= p < o ==> #[trigger] counts@[p] as nat == count_selecting(
                                rs,
                                i as int,
                                p as nat,
                            ),
                    decreases options@.len() - o,
                {
                    counts.push(count_option(records, i, o));
                    o = o + 1;
                }
                let t = QuestionTally::Counts(counts);
                assert(t@ == question_tally(poll.entries@[i as int], i as int, rs)) by {
                    if let TallyView::Counts(c) = t@ {
                        assert(c =~= Seq::new(
                            options@.len(),
                            |p: int| count_selecting(rs, i as int, p as nat),
                        ));
                    }
                }
                out.push(t);
            },
        }
        i = i + 1;
    }
    out
}

/// With no submissions, every choice counts zero and no text is listed.
pub proof fn lemma_tally_of_nothing(q: PollQuestion, i: int)
    ensures
        match question_tally(q, i, Seq::empty()) {
            TallyView::Texts(t) => t.len() == 0,
            TallyView::Counts(c) => forall|o: int| 0 <= o < c.len() ==> c[o] == 0,
        },
{
}

} // verus!
