use vstd::prelude::*;

verus! {

/// One question of a poll.
#[derive(Debug, Clone)]
pub enum PollQuestion {
    Text { question: String },
    Choice { question: String, options: Vec<String>, multiple: bool },
}

/// A poll: a title and an ordered list of questions.
#[derive(Debug, Clone)]
pub struct Poll {
    pub title: String,
    pub entries: Vec<PollQuestion>,
}

/// The answer to one question, aligned with the question by position.
#[derive(Debug, Clone, PartialEq, Eq)]
pub enum PollResponse {
    Text(String),
    SingleChoice(usize),
    MultipleChoice(Vec<usize>),
}

/// One voter's full submission.
#[derive(Debug, Clone, PartialEq, Eq)]
pub struct PollResult(pub Vec<PollResponse>);

/// The mathematical value of an answer.
pub enum ResponseView {
    Text(Seq<char>),
    SingleChoice(nat),
    MultipleChoice(Seq<nat>),
}

pub open spec fn nat_seq(v: Seq<usize>) -> Seq<nat> {
    v.map_values(|x: usize| x as nat)
}

impl View for PollResponse {
    type V = ResponseView;

    open spec fn view(&self) -> ResponseView {
        match self {
            PollResponse::Text(t) => ResponseView::Text(t@),
            PollResponse::SingleChoice(k) => ResponseView::SingleChoice(*k as nat),
            PollResponse::MultipleChoice(v) => ResponseView::MultipleChoice(nat_seq(v@)),
        }
    }
}

impl View for PollResult {
    type V = Seq<ResponseView>;

    open spec fn view(&self) -> Seq<ResponseView> {
        self.0@.map_values(|r: PollResponse| r@)
    }
}

/// The labels of a list of options.
pub open spec fn labels(options: Seq<String>) -> Seq<Seq<char>> {
    options.map_values(|s: String| s@)
}

impl PollQuestion {
    /// A choice question has at least one option.
    pub open spec fn has_options(&self) -> bool {
        match self {
            PollQuestion::Text { .. } => true,
            PollQuestion::Choice { options, .. } => options@.len() > 0,
        }
    }
}

} // verus!
