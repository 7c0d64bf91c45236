//! The bot's settings, read from named variables.
use vstd::prelude::*;

verus! {

/// What the bot needs to reach the chat service and the store.
pub struct Config {
    pub bot_token: String,
    pub mongodb_url: String,
    pub mongodb_user: String,
    pub mongodb_password: String,
    pub mongodb_db: String,
    pub log_level: Option<String>,
}

/// A required setting that is absent or empty.
#[derive(Debug, PartialEq, Eq, Structural)]
pub enum MissingSetting {
    TelegramBotToken,
    MongodbUrl,
    MongodbUser,
    MongodbPassword,
    MongodbDb,
}

/// The value of the last variable named `key`, if any.
pub open spec fn last_value(vars: Seq<(String, String)>, key: Seq<char>) -> Option<Seq<char>>
    decreases vars.len(),
{
    if vars.len() == 0 {
        None
    } else if vars.last().0@ == key {
        Some(vars.last().1@)
    } else {
        last_value(vars.drop_last(), key)
    }
}

/// The value of the last variable named `key`, empty where there is none.
pub open spec fn setting(vars: Seq<(String, String)>, key: Seq<char>) -> Seq<char> {
    match last_value(vars, key) {
        Some(v) => v,
        None => Seq::empty(),
    }
}

/// The first required setting that is empty, in the order token, address, user,
/// password, database.
pub open spec fn first_missing(vars: Seq<(String, String)>) -> Option<MissingSetting> {
    if setting(vars, "TELEGRAM_BOT_TOKEN"@).len() == 0 {
        Some(MissingSetting::TelegramBotToken)
    } else if setting(vars, "MONGODB_URL"@).len() == 0 {
        Some(MissingSetting::MongodbUrl)
    } else if setting(vars, "MONGODB_USER"@).len() == 0 {
        Some(MissingSetting::MongodbUser)
    } else if setting(vars, "MONGODB_PASSWORD"@).len() == 0 {
        Some(MissingSetting::MongodbPassword)
    } else if setting(vars, "MONGODB_DB"@).len() == 0 {
        Some(MissingSetting::MongodbDb)
    } else {
        None
    }
}

pub open spec fn opt_view(o: Option<String>) -> Option<Seq<char>> {
    match o {
        Some(s) => Some(s@),
        None => None,
    }
}

impl Config {
    /// The settings that `vars` give, where a later variable overrides an earlier one
    /// of the same name and unknown names are ignored; every setting but the log level
    /// is required and must not be empty.
    pub fn from_vars(vars: &Vec<(String, String)>) -> (r: Result<Config, MissingSetting>)
        ensures
            r is Err <==> first_missing(vars@) is Some,
            r is Err ==> r == Err::<Config, MissingSetting>(first_missing(vars@)->Some_0),
            r matches Ok(c) ==> {
                &&& c.bot_token@ == setting(vars@, "TELEGRAM_BOT_TOKEN"@)
                &&& c.mongodb_url@ == setting(vars@, "MONGODB_URL"@)
                &&& c.mongodb_user@ == setting(vars@, "MONGODB_USER"@)
                &&& c.mongodb_password@ == setting(vars@, "MONGODB_PASSWORD"@)
                &&& c.mongodb_db@ == setting(vars@, "MONGODB_DB"@)
                &&& opt_view(c.log_level) == last_value(vars@, "RUST_LOG"@)
            },
    {
        let k_token = String::from_str("TELEGRAM_BOT_TOKEN");
        let k_url = String::from_str("MONGODB_URL");
        let k_user = String::from_str("MONGODB_USER");
        let k_password = String::from_str("MONGODB_PASSWORD");
        let k_db = String::from_str("MONGODB_DB");
        let k_log = String::from_str("RUST_LOG");
        let mut config = Config {
            bot_token: String::new(),
            mongodb_url: String::new(),
            mongodb_user: String::new(),
            mongodb_password: String::new(),
            mongodb_db: String::new(),
            log_level: None,
        };
        let mut i: usize = 0;
        while i < vars.len()
            invariant
                i <= vars.len(),
                k_token@ == "TELEGRAM_BOT_TOKEN"@,
                k_url@ == "MONGODB_URL"@,
                k_user@ == "MONGODB_USER"@,
                k_password@ == "MONGODB_PASSWORD"@,
                k_db@ == "MONGODB_DB"@,
                k_log@ == "RUST_LOG"@,
                config.bot_token@ == setting(vars@.take(i as int), "TELEGRAM_BOT_TOKEN"@),
                config.mongodb_url@ == setting(vars@.take(i as int), "MONGODB_URL"@),
                config.mongodb_user@ == setting(vars@.take(i as int), "MONGODB_USER"@),
                config.mongodb_password@ == setting(vars@.take(i as int), "MONGODB_PASSWORD"@),
                config.mongodb_db@ == setting(vars@.take(i as int), "MONGODB_DB"@),
                opt_view(config.log_level) == last_value(vars@.take(i as int), "RUST_LOG"@),
            decreases vars.len() - i,
        {
            proof {
                reveal_strlit("TELEGRAM_BOT_TOKEN");
                reveal_strlit("MONGODB_URL");
                reveal_strlit("MONGODB_USER");
                reveal_strlit("MONGODB_PASSWORD");
                reveal_strlit("MONGODB_DB");
                reveal_strlit("RUST_LOG");
                assert("TELEGRAM_BOT_TOKEN"@.len() == 18);
                assert("MONGODB_URL"@.len() == 11);
                assert("MONGODB_USER"@.len() == 12);
                assert("MONGODB_PASSWORD"@.len() == 16);
                assert("MONGODB_DB"@.len() == 10);
                assert("RUST_LOG"@.len() == 8);
            }
            let ghost t = vars@.take(i + 1);
            assert(t.drop_last() =~= vars@.take(i as int));
            assert(t.last() == vars@[i as int]);
            assert(forall|k: Seq<char>|
                #[trigger] last_value(t, k) == if vars@[i as int].0@ == k {
                    Some(vars@[i as int].1@)
                } else {
                    last_value(vars@.take(i as int), k)
                });
            let key = &vars[i].0;
            let value = &vars[i].1;
            if *key == k_token {
                config.bot_token = value.clone();
            } else if *key == k_url {
                config.mongodb_url = value.clone();
            } else if *key == k_user {
                config.mongodb_user = value.clone();
            } else if *key == k_password {
                config.mongodb_password = value.clone();
            } else if *key == k_db {
                config.mongodb_db = value.clone();
            } else if *key == k_log {
                config.log_level = Some(value.clone());
            }
            i += 1;
        }
        assert(vars@.take(vars.len() as int) =~= vars@);
        if config.bot_token.unicode_len() == 0 {
            Err(MissingSetting::TelegramBotToken)
        } else if config.mongodb_url.unicode_len() == 0 {
            Err(MissingSetting::MongodbUrl)
        } else if config.mongodb_user.unicode_len() == 0 {
            Err(MissingSetting::MongodbUser)
        } else if config.mongodb_password.unicode_len() == 0 {
            Err(MissingSetting::MongodbPassword)
        } else if config.mongodb_db.unicode_len() == 0 {
            Err(MissingSetting::MongodbDb)
        } else {
            Ok(config)
        }
    }
}

} // verus!
