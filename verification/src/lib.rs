//! Assert that code does **not** compile: the decision core of a compile-fail
//! test harness.
//!
//! A compile-fail test asserts that a program does not build, and that it fails for
//! the intended reason. Every fixture becomes a bin target of one generated project,
//! and they all compile in a single, parallel `cargo build`. A `compile_fail` fixture
//! must fail, and its diagnostics must match the `.stderr` golden beside it.
//!
//! Everything that decides something is here, from the text of the generated manifest
//! to the verdict on each fixture, and each function says in its contract exactly what
//! it decides. Whoever drives a [`run::Run`] does the rest: it takes the lock, reads and
//! writes the files and runs cargo, and hands back what happened.

pub mod cases;
pub mod classify;
pub mod compare;
pub mod compile;
pub mod diff;
pub mod elsewhere;
pub mod environment;
pub mod gutter;
pub mod json;
pub mod lists;
pub mod normalize;
pub mod outcome;
pub mod path;
pub mod rewrite;
pub mod run;
pub mod scratch;
pub mod text;

pub use crate::cases::{TestCases, OVERWRITE_VAR};
pub use crate::compare::Mode;
pub use crate::outcome::{CaseOutcome, Failure, Kind, Outcome};
