//! Board-game catalog client: typed records parsed from the remote service's
//! XML, with a verified query pipeline for filtering, sorting and grouping.

pub mod bgg_api;
pub mod cli;
pub mod cmd;
pub mod details;
pub mod error;
pub mod game;
pub mod query;
pub mod search_result;
pub mod text;
pub mod xml;
