//! Hangover counting for a friend group on IRC and Telegram: nick
//! canonicalization, command handling, reply formatting, the event store
//! behind the leaderboard, configuration and the historical import.

pub mod clock;
pub mod config;
pub mod db;
pub mod import;
pub mod irc_bot;
pub mod laws;
pub mod num;
pub mod shared;
pub mod tally;
pub mod telegram_bot;
pub mod text;
