//! Static call graphs: extraction of one record per function from a syntax
//! tree, and queries over the finished list of records in both directions.

pub mod query;
pub mod record;
pub mod resolve;
pub mod syntax;
pub mod targets;
pub mod text;
pub mod visitor;

pub use record::FnDef;
pub use syntax::{SourceFile, Syntax};
pub use visitor::CallsVisitor;
