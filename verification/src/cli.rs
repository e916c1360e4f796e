//! The command line: its commands, and how query results are shown.

use vstd::prelude::*;

use crate::query::exec::{ResultSet, row_view, rows_view};
use crate::query::plan::{join, join_strings, strings_view};
use crate::text::{decimal, i64_to_string, push_str, string_of};
use crate::types::{Value, ValueV};

verus! {

/// What the command line asks for.
#[derive(Debug, Clone, PartialEq, Eq)]
pub enum Command {
    /// Create a database directory with an empty data file.
    Init { db: String },
    /// Open a database directory and report its format version.
    Open { db: String },
    /// Print the syntax tree of a statement.
    Parse { query: String },
    /// Print the logical plan of a statement.
    Plan { db: String, query: String },
    /// Run a statement.
    Query { db: String, sql: String },
    /// Print the logical and the physical plan of a statement.
    Explain { db: String, sql: String },
}

/// The parsed command line.
#[derive(Debug, Clone, PartialEq, Eq)]
pub struct Cli {
    pub command: Command,
    pub debug: bool,
}

/// How a value is shown: integers in decimal, text as it is, NULL as `NULL`.
pub open spec fn value_text(v: ValueV) -> Seq<char> {
    match v {
        ValueV::Int(n) => decimal(n as int),
        ValueV::Text(s) => s,
        ValueV::Null => "NULL"@,
    }
}

/// One row as a line: its values separated by " | ".
pub open spec fn row_line(row: Seq<ValueV>) -> Seq<char> {
    join(row.map_values(|v: ValueV| value_text(v)), " | "@) + "\n"@
}

/// The lines of the rows from the first on, up to `n`.
pub open spec fn rows_text(rows: Seq<Seq<ValueV>>, n: nat) -> Seq<char>
    decreases n,
{
    if n == 0 || n > rows.len() {
        Seq::empty()
    } else {
        rows_text(rows, (n - 1) as nat) + row_line(rows[n - 1])
    }
}

/// A result as text: the column names on the first line, then one line per
/// row, cells separated by " | ".
pub open spec fn result_text(columns: Seq<Seq<char>>, rows: Seq<Seq<ValueV>>) -> Seq<char> {
    join(columns, " | "@) + "\n"@ + rows_text(rows, rows.len())
}

/// How a value is shown.
pub fn format_value(v: &Value) -> (r: String)
    ensures
        r@ == value_text(v@),
{
    match v {
        Value::Int(n) => i64_to_string(*n),
        Value::Text(s) => s.clone(),
        Value::Null => string_of("NULL"),
    }
}

fn format_row(row: &Vec<Value>) -> (r: String)
    ensures
        r@ == row_line(row_view(row@)),
{
    let ghost target = row_view(row@).map_values(|v: ValueV| value_text(v));
    let mut cells: Vec<String> = Vec::new();
    let mut i: usize = 0;
    while i < row.len()
        invariant
            target == row_view(row@).map_values(|v: ValueV| value_text(v)),
            i <= row@.len(),
            strings_view(cells@) == target.take(i as int),
        decreases row@.len() - i,
    {
        let ghost prev = cells@;
        let t = format_value(&row[i]);
        cells.push(t);
        assert(strings_view(cells@) =~= strings_view(prev).push(t@));
        assert(strings_view(cells@) =~= target.take(i + 1));
        i = i + 1;
    }
    assert(target.take(row@.len() as int) =~= target);
    let mut line = join_strings(&cells, " | ");
    push_str(&mut line, "\n");
    line
}

/// A result as text: a header line with the column names, then one line
/// per row, cells separated by " | ".
pub fn format_result(rs: &ResultSet) -> (r: String)
    ensures
        r@ == result_text(strings_view(rs.columns@), rows_view(rs.rows@)),
{
    let mut out = join_strings(&rs.columns, " | ");
    push_str(&mut out, "\n");
    let ghost head = out@;
    let ghost rv = rows_view(rs.rows@);
    let mut i: usize = 0;
    while i < rs.rows.len()
        invariant
            rv == rows_view(rs.rows@),
            i <= rs.rows@.len(),
            out@ == head + rows_text(rv, i as nat),
        decreases rs.rows@.len() - i,
    {
        let line = format_row(&rs.rows[i]);
        assert(rv[i as int] == row_view(rs.rows@[i as int]@));
        push_str(&mut out, line.as_str());
        assert(out@ =~= head + rows_text(rv, (i + 1) as nat));
        i = i + 1;
    }
    out
}

} // verus!
