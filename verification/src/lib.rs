//! trod: a persistent directory history. The library keeps the history's
//! rows and visit records and answers the tool's queries on them (most recent, most visited,
//! going back, statistics, cleaning), drives the interactive picker, and
//! writes what the tool prints.
pub mod cli;
pub mod history;
pub mod laws;
pub mod ledger;
pub mod picker;
pub mod ranking;
pub mod render;
pub mod text;
pub mod time;
