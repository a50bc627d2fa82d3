//! The middle end of a compiler for a functional language: a
//! control-flow-graph intermediate representation in single-static-assignment
//! form, the passes that rewrite it, and the validation that holds every
//! rewritten graph to its structural invariants.
//!
//! The data model is in `ir` and `function`, the global validation in
//! `validate`, and the one mutation surface in `builder`. Pattern
//! compilation goes from clauses to a decision tree (`pattern`, `matrix`,
//! `decision`) and from the tree to blocks (`lower`, `compile_pattern`).
//! `simplify_cfg` and `naive_inline_closures` are the other passes, `pass`
//! the pipeline. The modules `ssa`, `case_soundness`, `case_ssa`,
//! `simplify_soundness` and `inline_soundness` hold the proofs that the
//! passes keep a sound graph sound; `run`, `case_semantics` and
//! `inline_semantics` say what running a graph means and prove that the
//! rewritten graphs run as they should.
pub mod ir;
pub mod function;
pub mod util;
pub mod validate;
pub mod builder;
pub mod exception_handler_stack;
pub mod pattern;
pub mod matrix;
pub mod decision;
pub mod lower;
pub mod compile_pattern;
pub mod simplify_cfg;
pub mod naive_inline_closures;
pub mod pass;
pub mod ssa;
pub mod case_soundness;
pub mod case_ssa;
pub mod simplify_soundness;
pub mod inline_soundness;
pub mod run;
pub mod case_semantics;
pub mod inline_semantics;

pub use builder::FunctionBuilder;
pub use compile_pattern::CompilePatternPass;
pub use exception_handler_stack::ExceptionHandlerStack;
pub use function::{Function, Module};
pub use ir::{BasicBlock, Clause, Label, Op, OpKind, Pattern, Phi, Source, Value};
pub use naive_inline_closures::NaiveInlineClosuresPass;
pub use pass::{FunctionPass, PassManager};
pub use simplify_cfg::SimplifyCfgPass;
pub use validate::ValidationError;
