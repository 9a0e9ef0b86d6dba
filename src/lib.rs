//! Export every row related to one row of a relational database.
//!
//! The library takes a database schema (tables, columns and foreign keys),
//! builds the graph of tables linked by foreign keys, walks it depth first
//! from a root table and synthesises one retrieval query per reachable table.
pub mod compiler;
pub mod graph;
pub mod introspection;
pub mod schema;
pub mod sqlgen;
pub mod walk;
