//! Conversation corpus recording for a chat relay: the chain bookkeeping that
//! decides which messages of a completed turn are new and which conversation
//! they belong to, and the calendar arithmetic that names the daily corpus
//! files.

use vstd::prelude::*;

pub mod calendar;
pub mod corpus;

verus! {

} // verus!
