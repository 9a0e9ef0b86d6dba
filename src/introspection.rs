//! The catalogue queries that read a schema from PostgreSQL's information_schema.
use vstd::prelude::*;

use crate::sqlgen::{quote_literal, quoted_literal};

verus! {

/// Every foreign-key column with the column it references, as
/// (table_schema, table_name, column_name, foreign_table_schema,
/// foreign_table_name, foreign_column_name).
pub const RELATIONS_QUERY: &'static str = "SELECT tc.table_schema, tc.table_name, kcu.column_name, ccu.table_schema AS foreign_table_schema, ccu.table_name AS foreign_table_name, ccu.column_name AS foreign_column_name FROM information_schema.table_constraints AS tc JOIN information_schema.key_column_usage AS kcu ON tc.constraint_name = kcu.constraint_name AND tc.table_schema = kcu.table_schema JOIN information_schema.constraint_column_usage AS ccu ON ccu.constraint_name = tc.constraint_name AND ccu.table_schema = tc.table_schema WHERE tc.constraint_type = 'FOREIGN KEY';";

/// The names of the base tables of schema `schema`, ascending, with the schema
/// name quoted as a string literal.
pub fn table_names_query(schema: &str) -> (r: String)
    ensures
        r@ == "SELECT table_name FROM information_schema.tables WHERE table_schema = "@
            + quoted_literal(schema@) + " AND table_type = 'BASE TABLE' ORDER BY table_name;"@,
{
    let name = String::from_str(schema);
    let mut r = String::from_str(
        "SELECT table_name FROM information_schema.tables WHERE table_schema = ",
    );
    let q = quote_literal(&name);
    r.append(q.as_str());
    r.append(" AND table_type = 'BASE TABLE' ORDER BY table_name;");
    r
}

/// The column names of table `table_name`, in declaration order, with the
/// table name quoted as a string literal.
pub fn columns_query(table_name: String) -> (r: String)
    ensures
        r@ == "SELECT column_name FROM information_schema.columns WHERE table_name = "@
            + quoted_literal(table_name@) + " ORDER BY ordinal_position;"@,
{
    let mut r = String::from_str("SELECT column_name FROM information_schema.columns WHERE table_name = ");
    let q = quote_literal(&table_name);
    r.append(q.as_str());
    r.append(" ORDER BY ordinal_position;");
    r
}

} // verus!
