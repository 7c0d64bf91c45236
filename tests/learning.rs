use markov_bot::chain::{ChatMarkovChain, MARKOV_CHAIN_END, MARKOV_CHAIN_START};
use markov_bot::text::{char_is_whitespace, is_url_word, sentence_words_of, split_lines};
use markov_bot::validate::validate_chain;

fn count(chain: &ChatMarkovChain, from: &str, to: &str) -> Option<u32> {
    let entry = chain.entries.iter().find(|e| e.word == from)?;
    entry
        .successors
        .iter()
        .find(|s| s.word == to)
        .map(|s| s.num_times)
}

fn successor_count(chain: &ChatMarkovChain, from: &str) -> usize {
    chain
        .entries
        .iter()
        .find(|e| e.word == from)
        .map(|e| e.successors.len())
        .unwrap()
}

fn has_node(chain: &ChatMarkovChain, word: &str) -> bool {
    chain.entries.iter().any(|e| e.word == word)
}

#[test]
fn empty_chain_holds_only_sentinels() {
    let chain = ChatMarkovChain::get_empty_chain(42);
    assert_eq!(chain.chat_id, 42);
    assert_eq!(chain.entries.len(), 2);
    assert!(has_node(&chain, MARKOV_CHAIN_START));
    assert!(has_node(&chain, MARKOV_CHAIN_END));
    assert!(validate_chain(&chain).is_ok());
}

#[test]
fn learning_twice_accumulates_counts() {
    let mut chain = ChatMarkovChain::get_empty_chain(1);
    chain.add_sentence("hello world");
    chain.add_sentence("hello world");
    assert_eq!(count(&chain, MARKOV_CHAIN_START, "hello"), Some(2));
    assert_eq!(count(&chain, "hello", "world"), Some(2));
    assert_eq!(count(&chain, "world", MARKOV_CHAIN_END), Some(2));
    assert_eq!(successor_count(&chain, MARKOV_CHAIN_START), 1);
    assert_eq!(successor_count(&chain, "hello"), 1);
    assert_eq!(successor_count(&chain, "world"), 1);
    assert_eq!(chain.entries.len(), 4);
}

#[test]
fn blank_line_changes_nothing() {
    let mut chain = ChatMarkovChain::get_empty_chain(1);
    chain.add_sentence("a b");
    let before: Vec<(String, Vec<(String, u32)>)> = chain
        .entries
        .iter()
        .map(|e| {
            (
                e.word.clone(),
                e.successors.iter().map(|s| (s.word.clone(), s.num_times)).collect(),
            )
        })
        .collect();
    chain.add_sentence("   ");
    chain.add_sentence("");
    chain.add_sentence("\t \n ");
    let after: Vec<(String, Vec<(String, u32)>)> = chain
        .entries
        .iter()
        .map(|e| {
            (
                e.word.clone(),
                e.successors.iter().map(|s| (s.word.clone(), s.num_times)).collect(),
            )
        })
        .collect();
    assert_eq!(before, after);
}

#[test]
fn web_addresses_are_not_learned() {
    let mut chain = ChatMarkovChain::get_empty_chain(1);
    chain.add_sentence("check https://x.test now");
    assert!(!has_node(&chain, "https://x.test"));
    assert_eq!(count(&chain, MARKOV_CHAIN_START, "check"), Some(1));
    assert_eq!(count(&chain, "check", "now"), Some(1));
    assert_eq!(count(&chain, "now", MARKOV_CHAIN_END), Some(1));
    assert_eq!(chain.entries.len(), 4);
}

#[test]
fn line_of_addresses_alone_changes_nothing() {
    let mut chain = ChatMarkovChain::get_empty_chain(1);
    chain.add_sentence("http://a.test HTTPS://b.test");
    assert_eq!(chain.entries.len(), 2);
    assert_eq!(successor_count(&chain, MARKOV_CHAIN_START), 0);
}

#[test]
fn words_are_lowercased_and_split_on_any_white_space() {
    assert_eq!(
        sentence_words_of("Hello\tWORLD  agAin\n"),
        vec!["hello".to_string(), "world".to_string(), "again".to_string()]
    );
    assert_eq!(sentence_words_of("  "), Vec::<String>::new());
    assert_eq!(sentence_words_of("ÄÖ x"), vec!["äö".to_string(), "x".to_string()]);
}

#[test]
fn url_words_are_recognised() {
    assert!(is_url_word("http://x"));
    assert!(is_url_word("https://x"));
    assert!(is_url_word("http://"));
    assert!(!is_url_word("http:/x"));
    assert!(!is_url_word("xhttp://"));
    assert!(!is_url_word("http"));
}

#[test]
fn repeated_word_makes_a_loop() {
    let mut chain = ChatMarkovChain::get_empty_chain(3);
    chain.add_sentence("la la la");
    assert_eq!(count(&chain, MARKOV_CHAIN_START, "la"), Some(1));
    assert_eq!(count(&chain, "la", "la"), Some(2));
    assert_eq!(count(&chain, "la", MARKOV_CHAIN_END), Some(1));
    assert!(validate_chain(&chain).is_ok());
}

#[test]
fn learned_chains_stay_valid() {
    let mut chain = ChatMarkovChain::get_empty_chain(9);
    for line in ["The cat sat", "the dog sat down", "a cat, a dog", "sat"] {
        chain.add_sentence(line);
        assert!(validate_chain(&chain).is_ok());
    }
    assert_eq!(count(&chain, "sat", MARKOV_CHAIN_END), Some(2));
    assert_eq!(count(&chain, MARKOV_CHAIN_START, "the"), Some(2));
    assert_eq!(count(&chain, "sat", "down"), Some(1));
}

#[test]
fn text_is_learned_line_by_line() {
    let mut chain = ChatMarkovChain::get_empty_chain(1);
    chain.add_text("one two\nthree\r\n\n");
    assert_eq!(count(&chain, MARKOV_CHAIN_START, "one"), Some(1));
    assert_eq!(count(&chain, "one", "two"), Some(1));
    assert_eq!(count(&chain, "two", MARKOV_CHAIN_END), Some(1));
    assert_eq!(count(&chain, MARKOV_CHAIN_START, "three"), Some(1));
    assert_eq!(count(&chain, "three", MARKOV_CHAIN_END), Some(1));
    assert_eq!(count(&chain, "two", "three"), None);
    assert!(validate_chain(&chain).is_ok());
}

#[test]
fn lines_are_split_at_line_feeds() {
    assert_eq!(split_lines(""), vec!["".to_string()]);
    assert_eq!(
        split_lines("a\nb c\n"),
        vec!["a".to_string(), "b c".to_string(), "".to_string()]
    );
}

#[test]
fn text_line_without_room_is_skipped() {
    let mut chain = ChatMarkovChain::get_empty_chain(1);
    chain.add_sentence("a");
    chain.entries[0].successors[0].num_times = u32::MAX - 2;
    chain.add_text("a\nb\na");
    assert_eq!(count(&chain, MARKOV_CHAIN_START, "a"), Some(u32::MAX - 1));
    assert_eq!(count(&chain, MARKOV_CHAIN_START, "b"), Some(1));
    assert_eq!(count(&chain, "a", MARKOV_CHAIN_END), Some(2));
}

#[test]
fn split_words_are_learned_as_given() {
    let mut chain = ChatMarkovChain::get_empty_chain(1);
    chain.add_sentence_words(&vec!["Big".to_string(), "cat".to_string()]);
    assert_eq!(count(&chain, MARKOV_CHAIN_START, "Big"), Some(1));
    assert_eq!(count(&chain, "Big", "cat"), Some(1));
    assert_eq!(count(&chain, "cat", MARKOV_CHAIN_END), Some(1));
    chain.add_sentence_words(&vec![]);
    assert_eq!(chain.entries.len(), 4);
}

#[test]
fn white_space_matches_std() {
    for u in 0u32..=0x10FFFF {
        if let Some(c) = char::from_u32(u) {
            assert_eq!(char_is_whitespace(c), c.is_whitespace(), "U+{:04X}", u);
        }
    }
}
