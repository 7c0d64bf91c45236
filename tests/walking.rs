use markov_bot::chain::{
    ChatMarkovChain, ChatMarkovChainEntry, ChatMarkovChainSuccessor, MARKOV_CHAIN_END,
    MARKOV_CHAIN_START,
};
use markov_bot::generate::{join_with_spaces, pick_successor, total_count, WalkSettings};
use rand::rngs::StdRng;
use rand::SeedableRng;

fn succ(word: &str, n: u32) -> ChatMarkovChainSuccessor {
    ChatMarkovChainSuccessor { word: word.to_string(), num_times: n }
}

#[test]
fn empty_chain_generates_nothing() {
    let chain = ChatMarkovChain::get_empty_chain(1);
    let mut rng = StdRng::seed_from_u64(7);
    assert_eq!(chain.generate_sentence(&WalkSettings::standard(), &mut rng), None);
}

#[test]
fn learned_chain_generates_something() {
    let mut chain = ChatMarkovChain::get_empty_chain(1);
    chain.add_sentence("hello");
    let mut rng = StdRng::seed_from_u64(7);
    for _ in 0..50 {
        let s = chain.generate_sentence(&WalkSettings::standard(), &mut rng);
        assert!(s == Some("hello".to_string()) || s == Some(String::new()));
    }
}

#[test]
fn walk_from_start_follows_the_only_path() {
    let mut chain = ChatMarkovChain::get_empty_chain(1);
    chain.add_sentence("one two three");
    let settings = WalkSettings { start_chance: 0, end_chance: 0, max_words: 100 };
    let mut rng = StdRng::seed_from_u64(11);
    assert_eq!(
        chain.generate_sentence(&settings, &mut rng),
        Some("one two three".to_string())
    );
}

#[test]
fn walk_that_always_ends_at_once_is_empty() {
    let mut chain = ChatMarkovChain::get_empty_chain(1);
    chain.add_sentence("one two three");
    let settings = WalkSettings { start_chance: 0, end_chance: 1000000, max_words: 100 };
    let mut rng = StdRng::seed_from_u64(3);
    assert_eq!(chain.generate_sentence(&settings, &mut rng), Some(String::new()));
}

#[test]
fn random_start_begins_at_a_real_word() {
    let mut chain = ChatMarkovChain::get_empty_chain(1);
    chain.add_sentence("one two three");
    let settings = WalkSettings { start_chance: 1000000, end_chance: 0, max_words: 100 };
    let mut rng = StdRng::seed_from_u64(5);
    for _ in 0..20 {
        let s = chain.generate_sentence(&settings, &mut rng).unwrap();
        assert!(s == "one two three" || s == "two three" || s == "three", "{}", s);
    }
}

#[test]
fn walk_stops_at_max_words() {
    let mut chain = ChatMarkovChain::get_empty_chain(1);
    chain.add_sentence("la la");
    let settings = WalkSettings { start_chance: 0, end_chance: 0, max_words: 2 };
    let mut rng = StdRng::seed_from_u64(5);
    for _ in 0..20 {
        let s = chain.generate_sentence(&settings, &mut rng).unwrap();
        assert!(s == "la" || s == "la la", "{}", s);
    }
}

#[test]
fn draws_select_by_running_sum() {
    let d = vec![succ("a", 1), succ("b", 3)];
    assert_eq!(total_count(&d), 4);
    let picks: Vec<usize> = (0..4u128).map(|x| pick_successor(&d, x)).collect();
    assert_eq!(picks, vec![0, 1, 1, 1]);
    let e = vec![succ("x", 2), succ("y", 1), succ("z", 4)];
    assert_eq!(total_count(&e), 7);
    let picks: Vec<usize> = (0..7u128).map(|x| pick_successor(&e, x)).collect();
    assert_eq!(picks, vec![0, 0, 1, 2, 2, 2, 2]);
}

#[test]
fn weighted_selection_converges_to_counts() {
    let mut chain = ChatMarkovChain::get_empty_chain(1);
    chain.entries.push(ChatMarkovChainEntry { word: "a".to_string(), successors: vec![] });
    chain.entries.push(ChatMarkovChainEntry { word: "b".to_string(), successors: vec![] });
    let start = chain.entries.iter().position(|e| e.word == MARKOV_CHAIN_START).unwrap();
    chain.entries[start].successors = vec![succ("a", 1), succ("b", 3)];
    let settings = WalkSettings { start_chance: 0, end_chance: 0, max_words: 10 };
    let mut rng = StdRng::seed_from_u64(2024);
    let (mut a, mut b) = (0u32, 0u32);
    for _ in 0..20000 {
        match chain.generate_sentence(&settings, &mut rng).unwrap().as_str() {
            "a" => a += 1,
            "b" => b += 1,
            other => panic!("unexpected {}", other),
        }
    }
    let ratio = b as f64 / a as f64;
    assert!(ratio > 2.8 && ratio < 3.2, "ratio {}", ratio);
}

#[test]
fn next_entry_stops_at_end_sentinel() {
    let mut chain = ChatMarkovChain::get_empty_chain(1);
    chain.add_sentence("solo");
    let solo = chain.entries.iter().position(|e| e.word == "solo").unwrap();
    assert_eq!(chain.next_entry(solo, 0), None);
    let start = chain.entries.iter().position(|e| e.word == MARKOV_CHAIN_START).unwrap();
    assert_eq!(chain.next_entry(start, 0), Some(solo));
    assert!(chain.entries.iter().any(|e| e.word == MARKOV_CHAIN_END));
}

#[test]
fn words_are_joined_by_single_spaces() {
    assert_eq!(join_with_spaces(&vec![]), "");
    assert_eq!(join_with_spaces(&vec!["a".to_string()]), "a");
    assert_eq!(
        join_with_spaces(&vec!["a".to_string(), "bc".to_string(), "d".to_string()]),
        "a bc d"
    );
}

#[test]
fn initial_index_follows_the_draws() {
    let s = WalkSettings { start_chance: 100, end_chance: 0, max_words: 5 };
    let candidates = vec![4usize, 7, 9];
    assert_eq!(ChatMarkovChain::initial_index(&s, 99, 2, &candidates, 0), 9);
    assert_eq!(ChatMarkovChain::initial_index(&s, 100, 2, &candidates, 0), 0);
    let none = WalkSettings { start_chance: 100, end_chance: 0, max_words: 0 };
    assert_eq!(ChatMarkovChain::initial_index(&none, 0, 1, &candidates, 3), 3);
}

#[test]
fn certain_end_takes_no_step() {
    let mut chain = ChatMarkovChain::get_empty_chain(1);
    chain.add_sentence("one two three");
    let settings = WalkSettings { start_chance: 1000000, end_chance: 1000000, max_words: 9 };
    let mut rng = StdRng::seed_from_u64(8);
    for _ in 0..20 {
        let s = chain.generate_sentence(&settings, &mut rng).unwrap();
        assert!(s == "one" || s == "two" || s == "three", "{}", s);
    }
}

#[test]
fn walk_step_ends_by_chance_or_follows_the_pick() {
    let mut chain = ChatMarkovChain::get_empty_chain(1);
    chain.add_sentence("x y");
    chain.add_sentence("x z");
    chain.add_sentence("x z");
    let x = chain.entries.iter().position(|e| e.word == "x").unwrap();
    let y = chain.entries.iter().position(|e| e.word == "y").unwrap();
    let z = chain.entries.iter().position(|e| e.word == "z").unwrap();
    let s = WalkSettings { start_chance: 0, end_chance: 10, max_words: 5 };
    assert_eq!(chain.walk_step(x, &s, 9, 0), None);
    assert_eq!(chain.walk_step(x, &s, 10, 0), Some(y));
    assert_eq!(chain.walk_step(x, &s, 10, 1), Some(z));
    assert_eq!(chain.walk_step(x, &s, 10, 2), Some(z));
    assert_eq!(chain.walk_step(y, &s, 10, 0), None);
}
