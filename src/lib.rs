//! Polls embedded in post content: the schema, the form that is rendered for
//! it, the decoding of submitted answers, their binary records and the store
//! that keeps one record per voter.
//!
//! A stored record names options by position and carries no version of the
//! poll it answered. The library therefore fixes a poll's definition once a
//! vote on it is stored (`VoteStore::may_edit_definition`); a record that does
//! not fit the current poll anyway is shown and counted as far as it fits.

pub mod model;
pub mod render;
pub mod round_trip;
pub mod store;
pub mod tally;
pub mod codec;
pub mod decode;
pub mod markdown;
pub mod text;

pub use codec::{decode_record, encode_record};
pub use decode::{decode_pairs, PollFormQuery};
pub use markdown::survey_block_of;
pub use model::{Poll, PollQuestion, PollResponse, PollResult};
pub use render::HTML_PLACEHOLDER;
pub use store::{storage_key, StoreError, VoteStore};
pub use tally::{tally, QuestionTally};
