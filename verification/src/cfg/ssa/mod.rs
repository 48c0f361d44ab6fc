//! Static single assignment form.

pub mod capture_flow;
pub mod construct;
pub mod copies;
pub mod definitions;
pub mod inline;
pub mod inline_laws;
pub mod local_map;
pub mod numbering;
pub mod params;
pub mod pruning;
pub mod single_assignment;
pub mod substitution;
pub mod table_folding;
pub mod upvalues;
pub mod value_names;
pub mod value_order;
pub mod value_sources;
