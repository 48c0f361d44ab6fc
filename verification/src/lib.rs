//! Verified passes of a Luau decompiler: the syntax tree, the passes that
//! recover readable source from it, the printer, and the control-flow
//! analyses that feed them.

pub mod ast;
pub mod cfg;
pub mod collections;
pub mod string_laws;
pub mod text;
