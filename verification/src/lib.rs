//! A directory-jump helper: remembers visited directories, scores them by
//! how often and how recently they were visited, and resolves a short query
//! to the best-matching directory.
//!
//! The library does no input or output. The store is loaded from a text and
//! saved to a text; the instant of a visit or a query, the working
//! directory and the existence of a directory are handed in by the caller.
//!
//! - [`rank`]: the weight of a directory, counted in millionths of a visit;
//! - [`entry`]: a remembered directory and its score;
//! - [`database`]: the store, with visits, removal and aging;
//! - [`query`]: the entries that a query selects, in ranked order;
//! - [`matcher`]: which paths a query selects;
//! - [`format`] and [`numbers`]: the store as text;
//! - [`cli`]: what an invocation of the program does;
//! - [`locate`]: where the store's file lies;
//! - [`text`]: characters, case folding and substring search.

pub mod cli;
pub mod database;
pub mod entry;
pub mod format;
pub mod locate;
pub mod matcher;
pub mod numbers;
pub mod query;
pub mod rank;
pub mod text;

pub use cli::run;
pub use database::ZDatabase;
pub use entry::DirEntry;
