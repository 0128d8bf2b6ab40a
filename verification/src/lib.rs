//! A small stack virtual machine: a line-oriented, whitespace-tokenized
//! assembly-like text format executed against a single stack of bytes.
//!
//! The crate holds the whole engine: the tokenizer, the label table and
//! cursor of a program, the byte stack, and the fetch-decode-execute loop
//! with its instruction semantics.  Input and output are kept at arm's
//! length: printing instructions append to an output buffer, and reading
//! instructions suspend the run so that the caller can supply the bytes.

pub mod defs;
pub mod machine;
pub mod source;
pub mod stack;
pub mod token;
