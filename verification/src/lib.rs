//! A vocabulary-trainer core: a line-oriented collection-file parser and a
//! quiz-session engine (learn and test modes) with an exportable result log.
pub mod collection;
pub mod export;
pub mod session;
pub mod text;
