//! A small compiler for the Ore language and its companions: lexers, parsers, name
//! resolution, type checking and inference, lowering to a CFG, SSA construction and
//! optimization, register allocation, and the Sieve rule language, each with a
//! machine-checked contract.

pub mod wrap;
pub mod codegen_examples;
pub mod text;
pub mod bytes;
pub mod lexer;
pub mod ore;
pub mod visitor;
pub mod shapes;
pub mod pratt;
pub mod checker;
pub mod ir;
pub mod lower;
pub mod ssa;
pub mod opt;
pub mod interp;
pub mod infer;
pub mod subst;
pub mod sieve;
pub mod regalloc;
pub mod emulator;
pub mod dfa;
pub mod spans;
pub mod precedence;
pub mod recovery;
pub mod confusable;
pub mod depth;
pub mod pipeline;
pub mod interner;
pub mod resolver;
pub mod arena;
pub mod dataflow;
pub mod let_order;
pub mod licm;
pub mod dump;
