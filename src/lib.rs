//! A per-conversation Markov text generator: a transition graph between words
//! that learns from sentences and walks its counts to produce new ones.
pub mod assoc;
pub mod chain;
pub mod command;
pub mod config;
pub mod db;
pub mod generate;
pub mod laws;
pub mod text;
pub mod validate;
