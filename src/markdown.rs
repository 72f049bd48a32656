use vstd::prelude::*;
use crate::text::{first_at, occurs, occurs_at, split_first, split_first_exec};

verus! {

/// The marker that opens a poll definition inside post content.
pub const SURVEY_OPEN: &'static str = "```survey";

/// The marker that closes a poll definition.
pub const SURVEY_CLOSE: &'static str = "```";

/// The definition text of the poll in `content`: what follows the first
/// opening marker, up to the first closing marker after it. There is none
/// where the opening marker is missing or is never closed.
pub open spec fn survey_block(content: Seq<char>) -> Option<Seq<char>> {
    match split_first(content, SURVEY_OPEN@) {
        None => None,
        Some((_, rest)) => match split_first(rest, SURVEY_CLOSE@) {
            None => None,
            Some((block, _)) => Some(block),
        },
    }
}

/// Finds the poll definition embedded in post content, if there is one.
pub fn survey_block_of(content: &str) -> (r: Option<String>)
    ensures
        match r {
            None => survey_block(content@) is None,
            Some(b) => survey_block(content@) == Some(b@),
        },
{
    match split_first_exec(content, SURVEY_OPEN) {
        None => None,
        Some((_, rest)) => match split_first_exec(rest, SURVEY_CLOSE) {
            None => None,
            Some((block, _)) => Some(block.to_owned()),
        },
    }
}

/// An opening marker that is never closed means that the content holds no
/// poll: such content is not an error.
pub proof fn lemma_unclosed_block_is_no_poll(content: Seq<char>, i: int)
    requires
        first_at(content, SURVEY_OPEN@, i),
        !occurs(content.subrange(i + SURVEY_OPEN@.len(), content.len() as int), SURVEY_CLOSE@),
    ensures
        survey_block(content) is None,
{
    assert(occurs_at(content, SURVEY_OPEN@, i));
    assert(occurs(content, SURVEY_OPEN@));
    let k = crate::text::first_index(content, SURVEY_OPEN@);
    crate::text::lemma_first_exists(content, SURVEY_OPEN@, i);
    crate::text::lemma_first_unique(content, SURVEY_OPEN@, i, k);
}

} // verus!
