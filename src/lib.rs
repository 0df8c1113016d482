//! A small line-oriented scripting language: a parser from source text to a
//! statement tree, and an evaluator over an environment of `i64` variables.
//!
//! Each statement stands on a line of its own. At the top level a line may
//! declare (`let x = 1;`), update (`x = x + 2;`), call (`print(1, 2);`), or open
//! an `if x == 1 {` (with an optional `} else {`) or a `while x < 9 {` block,
//! closed by `}`; other top-level lines are skipped. Inside a block only
//! declarations, updates and calls are allowed, and any other line is an error.

pub mod text;
pub mod syntax;
pub mod interp;
pub mod laws;
pub mod output;

pub use interp::{Interpreter, RunError, STEP_LIMIT};
pub use output::render_line;
pub use syntax::{CmpOp, ParseError, Statement};
