//! What the store of chains decides: which chain a lookup yields and what may be saved.
use vstd::prelude::*;

use crate::chain::{end_word, start_word, ChatMarkovChain};
use crate::validate::{reports, validate_chain, ValidationError};

verus! {

/// A failure of the store, described in words.
pub struct DbError {
    message: String,
}

impl DbError {
    pub fn new(message: String) -> (r: DbError)
        ensures
            r.message_view() == message@,
    {
        DbError { message }
    }

    pub closed spec fn message_view(&self) -> Seq<char> {
        self.message@
    }

    /// The description of the failure.
    pub fn message(&self) -> (r: &str)
        ensures
            r@ == self.message_view(),
    {
        self.message.as_str()
    }
}

/// Why a lookup yielded no chain.
#[derive(Debug)]
pub enum FetchError {
    /// The store holds more than one chain for the conversation.
    MultipleEntries { chat_id: i64 },
    /// The record found belongs to another conversation.
    OtherChat { chat_id: i64, found: i64 },
    /// The stored chain breaks the invariant.
    Invalid(ValidationError),
}

/// The chain that a lookup for `chat_id` which found exactly `found` yields, where it
/// yields one it found.
pub open spec fn fetched_chain(chat_id: i64, found: Seq<ChatMarkovChain>) -> Option<
    ChatMarkovChain,
> {
    if found.len() == 1 && found[0].chat_id == chat_id && found[0].wf() {
        Some(found[0])
    } else {
        None
    }
}

/// The chain of conversation `chat_id`, given the records the store found for it:
/// an empty chain where there is none, the one record where it belongs to the
/// conversation and passes `validate_chain`, and an error otherwise.
pub fn select_fetched_chain(chat_id: i64, found: Vec<ChatMarkovChain>) -> (r: Result<
    ChatMarkovChain,
    FetchError,
>)
    ensures
        found.len() == 0 ==> (r matches Ok(c) && c.chat_id == chat_id && c.wf() && c.nodes() == map![
            start_word() => Map::<Seq<char>, nat>::empty(),
            end_word() => Map::<Seq<char>, nat>::empty(),
        ]),
        found.len() > 1 ==> r == Err::<ChatMarkovChain, FetchError>(
            FetchError::MultipleEntries { chat_id },
        ),
        found.len() == 1 ==> (r is Ok <==> fetched_chain(chat_id, found@) is Some),
        found.len() == 1 && r is Ok ==> r->Ok_0 == fetched_chain(chat_id, found@)->Some_0,
        found.len() == 1 && found@[0].chat_id != chat_id ==> r == Err::<
            ChatMarkovChain,
            FetchError,
        >(FetchError::OtherChat { chat_id, found: found@[0].chat_id }),
        found.len() == 1 && found@[0].chat_id == chat_id && r is Err ==> (r matches Err(
            FetchError::Invalid(e),
        ) && reports(found@[0], e)),
{
    let mut found = found;
    if found.len() > 1 {
        return Err(FetchError::MultipleEntries { chat_id });
    }
    match found.pop() {
        None => Ok(ChatMarkovChain::get_empty_chain(chat_id)),
        Some(c) => {
            if c.chat_id != chat_id {
                return Err(FetchError::OtherChat { chat_id, found: c.chat_id });
            }
            match validate_chain(&c) {
                Ok(()) => Ok(c),
                Err(e) => Err(FetchError::Invalid(e)),
            }
        },
    }
}

/// Checks a chain before it is saved; only a chain that passes may be stored.
pub fn check_before_save(chain: &ChatMarkovChain) -> (r: Result<(), ValidationError>)
    ensures
        r is Ok <==> chain.wf(),
        r is Err ==> reports(*chain, r->Err_0),
{
    validate_chain(chain)
}

/// A chain that may be saved comes back unchanged from a lookup for its conversation
/// that finds it.
pub proof fn lemma_save_then_fetch(c: ChatMarkovChain)
    requires
        c.wf(),
    ensures
        fetched_chain(c.chat_id, seq![c]) == Some(c),
{
}

} // verus!
