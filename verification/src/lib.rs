//! An interpreter core for an eight-symbol tape language.
//!
//! Program text is loaded into a tree of [`command::Command`]s, optionally
//! rewritten by the passes in [`optimizer`], and then walked by the
//! [`executor`] against a [`tape::Tape`].
pub mod args;
pub mod command;
pub mod executor;
pub mod idioms;
pub mod loader;
pub mod optimizer;
pub mod tape;
