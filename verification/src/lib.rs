//! A structured-output grammar library: a static type description (records,
//! tagged and untagged unions, constrained primitives) is compiled into two
//! synchronized artifacts — a declarative schema document and an incremental
//! byte-level parser that can accept, reject, or finish at any prefix.

pub mod desc;
pub mod parser;
pub mod render;
pub mod schema;
pub mod value;
