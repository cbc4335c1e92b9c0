//! Argument tokenization for a text-search command line tool: raw invocation
//! strings become typed tokens in one deterministic pass, an ordered
//! collection of tokens answers lookup queries, a relative-path walk serves
//! display formatting, and a shared error type covers the search operations
//! built around the library.

pub mod flag;
pub mod path;
pub mod result;
