use vstd::prelude::*;

pub mod date_utils;
pub mod text;
pub mod config;
pub mod tokenize;
pub mod recent_files;
pub mod outline;
pub mod chunker;
pub mod error;
pub mod daily_notes;
pub mod storage;
pub mod embeddings;
pub mod search;
pub mod paths;
pub mod tags;
pub mod files;
pub mod index;
pub mod order;
pub mod todo_config;
pub mod bm25;

verus! {

} // verus!
