//! A local search engine: tokenizes documents, counts how often each term
//! occurs in each document, and ranks documents against free-text queries.

pub mod args;
pub mod chars;
pub mod file_types;
pub mod index;
pub mod io_control;
pub mod keyed_store;
pub mod lexical_analysis;
pub mod ranking;
pub mod serve;
pub mod snapshot;
pub mod term_frequency;
