//! An optimizing compiler for a language of eight instructions over a tape
//! of bytes with a cursor: a source text is parsed into a tree of
//! instructions, the tree is optimized to a fixed point, and the result is
//! lowered to assembly text for a 32-bit machine.

pub mod algebra;
pub mod convergence;
pub mod driver;
pub mod equivalence;
pub mod labels;
pub mod optimizer;
pub mod parser;
pub mod refold;
pub mod soundness;
pub mod source;
pub mod text;
pub mod util;
pub mod vm;
pub mod x86;
