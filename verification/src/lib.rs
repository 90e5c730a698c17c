use vstd::prelude::*;

pub mod accepted;
pub mod cli;
pub mod completion;
pub mod dialogue;
pub mod document;
pub mod file;
pub mod host;
pub mod parser;
pub mod runtime;
pub mod seqs;
pub mod text;
pub mod vm;

pub use file::RepliqueFile;

verus! {

} // verus!
