//! Extraction of interrupt-vector definitions from a vendor-supplied C header
//! and emission of a strongly typed C++ enumeration of interrupt numbers.
//!
//! The pipeline has three stages, each specified against a mathematical model
//! of the text as a sequence of characters:
//! - the block locator scans the raw text for `typedef enum { ... } <ident>;`
//!   shaped blocks (`locator`),
//! - the entry parser turns the interior lines of the interrupt enumeration
//!   block into name/number pairs (`parser`),
//! - the emitter renders the fixed core-system preamble followed by the
//!   device entries (`emitter`).

pub mod emitter;
pub mod entry;
pub mod laws;
pub mod locator;
pub mod numbers;
pub mod parser;
pub mod text;
