#![verifier::loop_isolation(false)]
pub mod table;
pub mod text;
pub mod order;
pub mod koopa;
pub mod riscv;
pub mod assembly;
pub mod ast;
pub mod ast_tool;
pub mod lower;
pub mod semantic;
pub mod lalr;
pub mod syntax;
pub mod llvm;
pub mod validate;
pub mod program;
pub mod analysis;
pub mod lexer;
pub mod diagnostic;
