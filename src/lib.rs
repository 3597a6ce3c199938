//! Parser for SQL query files annotated with type and query declarations.
pub mod text;
pub mod parsed;
pub mod sql;
pub mod fields;
pub mod module;
pub mod resolve;
pub mod cli;

pub use cli::{run, Action, Args, CodegenSettings, Command, Plan};
pub use fields::{NullableIdent, TypeAnnotation};
pub use module::{
    parse_query_module, Diagnostic, Error, ParsedModule, Query, QueryAnnotation,
    QueryDataStruct, Statement,
};
pub use parsed::Parsed;
pub use sql::QuerySql;
