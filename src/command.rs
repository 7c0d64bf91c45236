//! What an incoming chat line asks of the bot.
use vstd::prelude::*;

use crate::text::has_prefix;

verus! {

/// The intent of one incoming line.
#[derive(Debug, PartialEq, Eq, Structural)]
pub enum MessageKind {
    /// Produce a sentence.
    Generate,
    /// Forget the conversation's chain.
    Clear,
    /// Learn from the line.
    Learn,
    /// Another command, or an empty line.
    Ignore,
}

/// `text` is the command `name`, alone or followed by a space or by `@` and a bot's name.
pub open spec fn is_command(text: Seq<char>, name: Seq<char>) -> bool {
    text == name || name.push(' ').is_prefix_of(text) || name.push('@').is_prefix_of(text)
}

pub open spec fn message_kind(text: Seq<char>) -> MessageKind {
    if is_command(text, "/markov"@) {
        MessageKind::Generate
    } else if is_command(text, "/markov_clear"@) {
        MessageKind::Clear
    } else if text.len() > 0 && text[0] != '/' {
        MessageKind::Learn
    } else {
        MessageKind::Ignore
    }
}

fn command_matches(text: &str, name: &str, with_space: &str, with_at: &str) -> (r: bool)
    requires
        with_space@ == name@.push(' '),
        with_at@ == name@.push('@'),
    ensures
        r == is_command(text@, name@),
{
    let same = text.unicode_len() == name.unicode_len() && has_prefix(text, name);
    proof {
        if text@.len() == name@.len() && name@.is_prefix_of(text@) {
            assert(text@ =~= name@);
        }
    }
    same || has_prefix(text, with_space) || has_prefix(text, with_at)
}

/// Classifies an incoming line: a generate command, a clear command, text to learn
/// from, or something to ignore (other commands and empty lines).
pub fn classify_message(text: &str) -> (r: MessageKind)
    ensures
        r == message_kind(text@),
{
    proof {
        reveal_strlit("/markov");
        reveal_strlit("/markov ");
        reveal_strlit("/markov@");
        reveal_strlit("/markov_clear");
        reveal_strlit("/markov_clear ");
        reveal_strlit("/markov_clear@");
        assert("/markov "@ =~= "/markov"@.push(' '));
        assert("/markov@"@ =~= "/markov"@.push('@'));
        assert("/markov_clear "@ =~= "/markov_clear"@.push(' '));
        assert("/markov_clear@"@ =~= "/markov_clear"@.push('@'));
    }
    if command_matches(text, "/markov", "/markov ", "/markov@") {
        MessageKind::Generate
    } else if command_matches(text, "/markov_clear", "/markov_clear ", "/markov_clear@") {
        MessageKind::Clear
    } else if text.unicode_len() > 0 && text.get_char(0) != '/' {
        MessageKind::Learn
    } else {
        MessageKind::Ignore
    }
}

} // verus!
