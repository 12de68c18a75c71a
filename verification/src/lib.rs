//! A parser for command lines in the style of `getopt_long`.
//!
//! The program declares its options in an [`OptSpecs`], hands the command
//! line to [`OptSpecs::getopt`] and reads the answer from the [`Args`] that
//! comes back: the options found, the other arguments, and what looked
//! like an option but was not declared. The parser prints nothing and
//! never fails; what to make of its findings is the program's business.
//!
//! # The command line
//!
//! A short option is `-` and one character (`-f`). Several may share one
//! `-` (`-abc`). A long option is `--` and a name of two characters or
//! more (`--file`).
//!
//! An option that requires a value takes it from the same argument
//! (`-fVALUE`, `--file=VALUE`) or, where nothing is attached, from the next
//! argument, whatever that looks like (`-f VALUE`, `--file VALUE`). An
//! option with an optional value takes it from the same argument only.
//! `--file=` gives the empty value.
//!
//! Options come first: the first argument that is no option ends option
//! parsing, unless [`OptFlags::OptionsEverywhere`] is set. The argument
//! `--` always ends it and is itself dropped.
//!
//! # What is proved
//!
//! Every function of this crate is verified with Verus. What a call
//! returns is stated in its `ensures` over the views of its arguments, and
//! what a command line means is defined once, in [`model`].

pub mod args;
pub mod grammar;
pub mod laws;
pub mod model;
pub mod parser;
pub mod registry;
pub mod text;

pub use crate::args::{Args, Opt};
pub use crate::registry::{OptFlags, OptSpec, OptSpecs, OptValue};
