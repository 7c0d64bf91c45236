use markov_bot::chain::ChatMarkovChain;
use markov_bot::command::{classify_message, MessageKind};

#[test]
fn generate_command_forms() {
    assert_eq!(classify_message("/markov"), MessageKind::Generate);
    assert_eq!(classify_message("/markov please"), MessageKind::Generate);
    assert_eq!(classify_message("/markov@some_bot"), MessageKind::Generate);
}

#[test]
fn clear_command_forms() {
    assert_eq!(classify_message("/markov_clear"), MessageKind::Clear);
    assert_eq!(classify_message("/markov_clear now"), MessageKind::Clear);
    assert_eq!(classify_message("/markov_clear@some_bot"), MessageKind::Clear);
}

#[test]
fn plain_text_is_learned_and_other_lines_ignored() {
    assert_eq!(classify_message("hello there"), MessageKind::Learn);
    assert_eq!(classify_message(" /markov"), MessageKind::Learn);
    assert_eq!(classify_message(""), MessageKind::Ignore);
    assert_eq!(classify_message("/start"), MessageKind::Ignore);
    assert_eq!(classify_message("/markovx"), MessageKind::Ignore);
}

#[test]
fn room_for_small_counts() {
    let mut chain = ChatMarkovChain::get_empty_chain(1);
    chain.add_sentence("a b");
    assert!(chain.has_room_for("a b c"));
}

#[test]
fn no_room_near_the_largest_count() {
    let mut chain = ChatMarkovChain::get_empty_chain(1);
    chain.add_sentence("a");
    chain.entries[0].successors[0].num_times = u32::MAX - 3;
    assert!(chain.has_room_for("a"));
    assert!(chain.has_room_for("b c d e f"));
    assert!(!chain.has_room_for("a a a"));
}
