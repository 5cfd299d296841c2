//! Result verification, statistics and puzzle generation for the
//! jellespelletjes games (woordle, sudokudo, lettersoep), with the small
//! pieces of account logic that sit beside them.

pub mod auth;
pub mod clock;
pub mod config;
pub mod games;
pub mod requests;
pub mod results;
pub mod seed;
pub mod stats;
pub mod text;
