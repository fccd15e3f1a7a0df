//! Run-time configuration of the interpreter.
use std::path::PathBuf;
use vstd::prelude::*;

verus! {

/// `std::path::PathBuf`, carried through as an opaque value.
#[verifier::external_type_specification]
#[verifier::external_body]
pub struct ExPathBuf(std::path::PathBuf);

/// The switches of one interpreter run.
#[derive(Debug)]
pub struct Args {
    /// Path of the file holding the program text.
    pub file: PathBuf,
    /// Emit each output byte as a line of hexadecimal text instead of a character.
    pub hex_output: bool,
    /// Discard all output.
    pub no_output: bool,
    /// Rewrite reset and move loops into single commands.
    pub optimize_loops: bool,
    /// Merge runs of single-cell resets into range resets.
    pub optimize_chunk_resets: bool,
    /// Report how long each stage took.
    pub time: bool,
    /// Treat `?` as a request to dump the tape.
    pub debug: bool,
}

} // verus!
