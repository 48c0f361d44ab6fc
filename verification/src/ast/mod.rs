//! The syntax tree and the passes that run over it.

pub mod alias_elimination;
pub mod alias_laws;
pub mod assignment_laws;
pub mod binary;
pub mod binding_validation;
pub mod cleanup_laws;
pub mod construct;
pub mod control_flow_cleanup;
pub mod convert;
pub mod copy;
pub mod declaring_laws;
pub mod display;
pub mod expression_recovery;
pub mod formatter;
pub mod frame_laws;
pub mod function_recovery;
pub mod global;
pub mod grouping_laws;
pub mod inlining_laws;
pub mod layout;
pub mod literal;
pub mod local;
pub mod local_declarations;
pub mod local_grouping;
pub mod local_rw;
pub mod meaning;
pub mod meaning_laws;
pub mod model;
pub mod name_evidence;
pub mod name_flow;
pub mod name_locals;
pub mod nodes;
pub mod operator_laws;
pub mod reading_laws;
pub mod recovery_laws;
pub mod reduction_laws;
pub mod rename;
pub mod replacement_laws;
pub mod result_group;
pub mod rewrite;
pub mod scope_graph;
pub mod scope_laws;
pub mod scope_narrowing;
pub mod scope_validity;
pub mod set_list_lowering;
pub mod shape;
pub mod shape_laws;
pub mod slot_folding;
pub mod slot_laws;
pub mod spelling;
pub mod statement_shape;
pub mod table_laws;
pub mod tally;
pub mod walk;

pub use global::{Global, GlobalOrigin};
pub use literal::{Literal, Number};
pub use local::{
    is_valid_identifier, is_valid_identifier_in, IdentifierContext, Local, Locals, RcLocal,
};
pub use local_rw::LocalRw;
pub use nodes::{
    Assign, Binary, BinaryOperation, Block, Break, Call, Class, Close, Closure, Comment,
    Conditional, Continue, Do, Empty, Function, GenericFor, GenericForInit, GenericForNext, Goto,
    If, Index, LValue, Label, MethodCall, NumForInit, NumForNext, NumericFor, RValue, Repeat,
    Return, Select, SetList, Statement, Table, Unary, UnaryOperation, Upvalue, VarArg, While,
};
pub use result_group::ResultDemand;
