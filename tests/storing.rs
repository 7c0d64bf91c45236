use markov_bot::chain::{
    ChatMarkovChain, ChatMarkovChainEntry, ChatMarkovChainSuccessor, MARKOV_CHAIN_END,
    MARKOV_CHAIN_START,
};
use markov_bot::config::{Config, MissingSetting};
use markov_bot::db::{check_before_save, select_fetched_chain, DbError, FetchError};
use markov_bot::validate::{validate_chain, ValidationError};

fn entry(word: &str, succ: &[(&str, u32)]) -> ChatMarkovChainEntry {
    ChatMarkovChainEntry {
        word: word.to_string(),
        successors: succ
            .iter()
            .map(|(w, n)| ChatMarkovChainSuccessor { word: w.to_string(), num_times: *n })
            .collect(),
    }
}

fn chain(entries: Vec<ChatMarkovChainEntry>) -> ChatMarkovChain {
    ChatMarkovChain { chat_id: 5, entries }
}

fn summary(c: &ChatMarkovChain) -> Vec<(String, Vec<(String, u32)>)> {
    c.entries
        .iter()
        .map(|e| {
            (
                e.word.clone(),
                e.successors.iter().map(|s| (s.word.clone(), s.num_times)).collect(),
            )
        })
        .collect()
}

#[test]
fn missing_start_is_reported() {
    let c = chain(vec![entry(MARKOV_CHAIN_END, &[])]);
    assert!(matches!(validate_chain(&c), Err(ValidationError::MissingStart { chat_id: 5 })));
}

#[test]
fn missing_end_is_reported() {
    let c = chain(vec![entry(MARKOV_CHAIN_START, &[])]);
    assert!(matches!(validate_chain(&c), Err(ValidationError::MissingEnd { chat_id: 5 })));
}

#[test]
fn dangling_successor_is_reported() {
    let c = chain(vec![
        entry(MARKOV_CHAIN_START, &[("ghost", 1)]),
        entry(MARKOV_CHAIN_END, &[]),
    ]);
    match validate_chain(&c) {
        Err(ValidationError::MissingSuccessor { chat_id, word, successor }) => {
            assert_eq!(chat_id, 5);
            assert_eq!(word, MARKOV_CHAIN_START);
            assert_eq!(successor, "ghost");
        }
        _ => panic!("expected a missing successor"),
    }
}

#[test]
fn duplicate_word_is_reported() {
    let c = chain(vec![
        entry(MARKOV_CHAIN_START, &[]),
        entry("x", &[]),
        entry(MARKOV_CHAIN_END, &[]),
        entry("x", &[]),
    ]);
    assert!(matches!(
        validate_chain(&c),
        Err(ValidationError::DuplicateWord { chat_id: 5, ref word }) if word == "x"
    ));
}

#[test]
fn duplicate_successor_is_reported() {
    let c = chain(vec![
        entry(MARKOV_CHAIN_START, &[("x", 1), ("x", 2)]),
        entry("x", &[]),
        entry(MARKOV_CHAIN_END, &[]),
    ]);
    assert!(matches!(
        validate_chain(&c),
        Err(ValidationError::DuplicateSuccessor { chat_id: 5, .. })
    ));
}

#[test]
fn zero_count_is_reported() {
    let c = chain(vec![
        entry(MARKOV_CHAIN_START, &[("x", 0)]),
        entry("x", &[]),
        entry(MARKOV_CHAIN_END, &[]),
    ]);
    assert!(matches!(validate_chain(&c), Err(ValidationError::ZeroCount { chat_id: 5, .. })));
}

#[test]
fn closed_chain_passes() {
    let c = chain(vec![
        entry(MARKOV_CHAIN_END, &[]),
        entry("x", &[(MARKOV_CHAIN_END, 3)]),
        entry(MARKOV_CHAIN_START, &[("x", 3)]),
    ]);
    assert!(validate_chain(&c).is_ok());
    assert!(check_before_save(&c).is_ok());
}

#[test]
fn lookup_without_record_yields_empty_chain() {
    let c = select_fetched_chain(77, vec![]).ok().unwrap();
    assert_eq!(c.chat_id, 77);
    assert_eq!(c.entries.len(), 2);
    assert!(validate_chain(&c).is_ok());
}

#[test]
fn lookup_with_two_records_fails() {
    let a = ChatMarkovChain::get_empty_chain(8);
    let b = ChatMarkovChain::get_empty_chain(8);
    assert!(matches!(
        select_fetched_chain(8, vec![a, b]),
        Err(FetchError::MultipleEntries { chat_id: 8 })
    ));
}

#[test]
fn saved_chain_comes_back_unchanged() {
    let mut c = ChatMarkovChain::get_empty_chain(5);
    c.add_sentence("round trip works");
    c.add_sentence("round again");
    assert!(check_before_save(&c).is_ok());
    let expected = summary(&c);
    let back = select_fetched_chain(5, vec![c]).ok().unwrap();
    assert_eq!(back.chat_id, 5);
    assert_eq!(summary(&back), expected);
}

#[test]
fn invalid_record_is_rejected_on_lookup() {
    let c = chain(vec![entry(MARKOV_CHAIN_START, &[])]);
    assert!(matches!(
        select_fetched_chain(5, vec![c]),
        Err(FetchError::Invalid(ValidationError::MissingEnd { chat_id: 5 }))
    ));
}

#[test]
fn db_error_keeps_its_message() {
    let e = DbError::new("broken".to_string());
    assert_eq!(e.message(), "broken");
}

fn vars(pairs: &[(&str, &str)]) -> Vec<(String, String)> {
    pairs.iter().map(|(k, v)| (k.to_string(), v.to_string())).collect()
}

#[test]
fn config_reads_every_setting() {
    let v = vars(&[
        ("TELEGRAM_BOT_TOKEN", "t"),
        ("MONGODB_URL", "host:1"),
        ("OTHER", "x"),
        ("MONGODB_USER", "u"),
        ("MONGODB_PASSWORD", "p"),
        ("MONGODB_DB", "d"),
        ("MONGODB_URL", "host:2"),
    ]);
    let c: Config = Config::from_vars(&v).ok().unwrap();
    assert_eq!(c.bot_token, "t");
    assert_eq!(c.mongodb_url, "host:2");
    assert_eq!(c.mongodb_user, "u");
    assert_eq!(c.mongodb_password, "p");
    assert_eq!(c.mongodb_db, "d");
    assert_eq!(c.log_level, None);
}

#[test]
fn config_reports_first_missing_setting() {
    let v = vars(&[("MONGODB_URL", "h"), ("RUST_LOG", "debug")]);
    assert_eq!(Config::from_vars(&v).err(), Some(MissingSetting::TelegramBotToken));
    let v = vars(&[
        ("TELEGRAM_BOT_TOKEN", "t"),
        ("MONGODB_URL", "h"),
        ("MONGODB_USER", "u"),
        ("MONGODB_PASSWORD", ""),
        ("MONGODB_DB", "d"),
    ]);
    assert_eq!(Config::from_vars(&v).err(), Some(MissingSetting::MongodbPassword));
}

#[test]
fn config_keeps_log_level() {
    let v = vars(&[
        ("TELEGRAM_BOT_TOKEN", "t"),
        ("MONGODB_URL", "h"),
        ("MONGODB_USER", "u"),
        ("MONGODB_PASSWORD", "p"),
        ("MONGODB_DB", "d"),
        ("RUST_LOG", "info"),
    ]);
    assert_eq!(Config::from_vars(&v).ok().unwrap().log_level, Some("info".to_string()));
}

#[test]
fn lookup_of_another_chats_record_fails() {
    let c = ChatMarkovChain::get_empty_chain(4);
    assert!(matches!(
        select_fetched_chain(5, vec![c]),
        Err(FetchError::OtherChat { chat_id: 5, found: 4 })
    ));
}

#[test]
fn first_violation_in_order_is_reported() {
    let c = chain(vec![
        entry(MARKOV_CHAIN_START, &[("a", 1), ("b", 0)]),
        entry("a", &[("zz", 1)]),
        entry(MARKOV_CHAIN_END, &[]),
    ]);
    match validate_chain(&c) {
        Err(ValidationError::ZeroCount { word, successor, .. }) => {
            assert_eq!(word, MARKOV_CHAIN_START);
            assert_eq!(successor, "b");
        }
        other => panic!("unexpected {:?}", other),
    }
}
