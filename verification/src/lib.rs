use vstd::prelude::*;

pub mod text;
pub mod tagger;
pub mod sort;
pub mod error;
pub mod db;
pub mod output;
pub mod search;
pub mod duplicates;
pub mod stats;
pub mod indexer;
pub mod verify;
pub mod config;
pub mod cli;
pub mod listing;
pub mod commands;

verus! {

} // verus!
