//! Exploration of a storage engine's transaction log: a parser for the mixed
//! text/JSON stream, an oid lineage tracer, and an interactive session engine
//! that combines filtering, paging and bisection.

pub mod text;
pub mod model;
pub mod record;
pub mod stamp;
pub mod parse;
pub mod lineage;
pub mod display;
pub mod session;
pub mod command;
