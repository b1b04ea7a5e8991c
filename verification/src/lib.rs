//! Verified core of a pipeline that scrapes NHL schedules, rosters, play
//! events and shift charts and loads them into an SQLite database.
//!
//! The library computes what the pipeline does with its data: where each
//! download goes, which address it comes from, how clock times such as
//! `"12:34"` are read, and which rows each table receives.  Network, file
//! and database work stays with the caller.

pub mod void;
pub mod text;
pub mod theft;
pub mod games;
pub mod db_games;
pub mod teams;
pub mod sql;
pub mod vars;
pub mod blobs;
pub mod schedules;
pub mod schedule;
