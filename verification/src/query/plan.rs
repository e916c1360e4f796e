use vstd::prelude::*;

use crate::parser::ast::{
    ColumnDef, ColumnDefV, CompareOp, DataType, Expr, ExprV, Literal, LiteralV, literals_view,
};
use crate::text::{decimal, i64_to_string, push_str, string_of};

verus! {

/// An output column of a projection: its expression and its name.
#[derive(Debug, PartialEq, Eq)]
pub struct ProjItem {
    pub expr: Expr,
    pub name: String,
}

/// The model of a projection item.
pub ghost struct ProjItemV {
    pub expr: ExprV,
    pub name: Seq<char>,
}

impl View for ProjItem {
    type V = ProjItemV;

    open spec fn view(&self) -> ProjItemV {
        ProjItemV { expr: self.expr@, name: self.name@ }
    }
}

/// The models of projection items.
pub open spec fn proj_items_view(v: Seq<ProjItem>) -> Seq<ProjItemV> {
    v.map_values(|i: ProjItem| i@)
}

/// The models of column definitions.
pub open spec fn column_defs_view(v: Seq<ColumnDef>) -> Seq<ColumnDefV> {
    v.map_values(|c: ColumnDef| c@)
}

/// The models of names.
pub open spec fn strings_view(v: Seq<String>) -> Seq<Seq<char>> {
    v.map_values(|s: String| s@)
}

/// A logical query plan.
#[derive(Debug, PartialEq, Eq)]
pub enum LogicalPlan {
    CreateTable { table: String, columns: Vec<ColumnDef> },
    Insert { table: String, values: Vec<Literal> },
    Scan { table: String, columns: Vec<String> },
    Filter { predicate: Expr, input: Box<LogicalPlan> },
    Projection { items: Vec<ProjItem>, input: Box<LogicalPlan> },
    Sort { column: String, descending: bool, input: Box<LogicalPlan> },
    Limit { count: i64, input: Box<LogicalPlan> },
}

/// The model of a logical plan.
#[allow(inconsistent_fields)]
pub ghost enum LogicalPlanV {
    CreateTable { table: Seq<char>, columns: Seq<ColumnDefV> },
    Insert { table: Seq<char>, values: Seq<LiteralV> },
    Scan { table: Seq<char>, columns: Seq<Seq<char>> },
    Filter { predicate: ExprV, input: Box<LogicalPlanV> },
    Projection { items: Seq<ProjItemV>, input: Box<LogicalPlanV> },
    Sort { column: Seq<char>, descending: bool, input: Box<LogicalPlanV> },
    Limit { count: i64, input: Box<LogicalPlanV> },
}

impl View for LogicalPlan {
    type V = LogicalPlanV;

    open spec fn view(&self) -> LogicalPlanV
        decreases self,
    {
        match self {
            LogicalPlan::CreateTable { table, columns } => LogicalPlanV::CreateTable {
                table: table@,
                columns: column_defs_view(columns@),
            },
            LogicalPlan::Insert { table, values } => LogicalPlanV::Insert {
                table: table@,
                values: literals_view(values@),
            },
            LogicalPlan::Scan { table, columns } => LogicalPlanV::Scan {
                table: table@,
                columns: strings_view(columns@),
            },
            LogicalPlan::Filter { predicate, input } => LogicalPlanV::Filter {
                predicate: predicate@,
                input: Box::new((**input).view()),
            },
            LogicalPlan::Projection { items, input } => LogicalPlanV::Projection {
                items: proj_items_view(items@),
                input: Box::new((**input).view()),
            },
            LogicalPlan::Sort { column, descending, input } => LogicalPlanV::Sort {
                column: column@,
                descending: *descending,
                input: Box::new((**input).view()),
            },
            LogicalPlan::Limit { count, input } => LogicalPlanV::Limit {
                count: *count,
                input: Box::new((**input).view()),
            },
        }
    }
}

/// The parts separated by `sep`.
pub open spec fn join(parts: Seq<Seq<char>>, sep: Seq<char>) -> Seq<char>
    decreases parts.len(),
{
    if parts.len() == 0 {
        Seq::empty()
    } else if parts.len() == 1 {
        parts[0]
    } else {
        join(parts.drop_last(), sep) + sep + parts.last()
    }
}

/// Two spaces per level of depth.
pub open spec fn pad(depth: nat) -> Seq<char>
    decreases depth,
{
    if depth == 0 {
        Seq::empty()
    } else {
        pad((depth - 1) as nat) + "  "@
    }
}

/// `name INT` or `name TEXT`.
pub open spec fn column_text(c: ColumnDefV) -> Seq<char> {
    c.name + " "@ + match c.ty {
        DataType::Int => "INT"@,
        DataType::Text => "TEXT"@,
    }
}

/// A literal as SQL text.
pub open spec fn literal_text(l: LiteralV) -> Seq<char> {
    match l {
        LiteralV::Int(n) => decimal(n as int),
        LiteralV::Str(s) => "'"@ + s + "'"@,
        LiteralV::Null => "NULL"@,
    }
}

/// A comparison operator as SQL text.
pub open spec fn op_text(op: CompareOp) -> Seq<char> {
    match op {
        CompareOp::Eq => "="@,
        CompareOp::NotEq => "!="@,
        CompareOp::Lt => "<"@,
        CompareOp::LtEq => "<="@,
        CompareOp::Gt => ">"@,
        CompareOp::GtEq => ">="@,
    }
}

/// An expression as SQL text; OR is parenthesized, AND is not.
pub open spec fn expr_text(e: ExprV) -> Seq<char>
    decreases e,
{
    match e {
        ExprV::Column(c) => c,
        ExprV::Literal(l) => literal_text(l),
        ExprV::Function { name, arg } => name + "("@ + expr_text(*arg) + ")"@,
        ExprV::Compare { left, op, right } => expr_text(*left) + " "@ + op_text(op) + " "@ + expr_text(*right),
        ExprV::And(l, r) => expr_text(*l) + " AND "@ + expr_text(*r),
        ExprV::Or(l, r) => "("@ + expr_text(*l) + " OR "@ + expr_text(*r) + ")"@,
    }
}

/// The text of a logical plan at a depth: one line per node, children
/// indented below their parent.
pub open spec fn plan_text(p: LogicalPlanV, depth: nat) -> Seq<char>
    decreases p,
{
    let pd = pad(depth);
    match p {
        LogicalPlanV::CreateTable { table, columns } => pd + "CreateTable "@ + table + " ["@
            + join(columns.map_values(|c: ColumnDefV| column_text(c)), ", "@) + "]\n"@,
        LogicalPlanV::Insert { table, values } => pd + "Insert "@ + table + " ["@
            + join(values.map_values(|l: LiteralV| literal_text(l)), ", "@) + "]\n"@,
        LogicalPlanV::Scan { table, .. } => pd + "Scan "@ + table + "\n"@,
        LogicalPlanV::Filter { predicate, input } => pd + "Filter ["@ + expr_text(predicate) + "]\n"@
            + plan_text(*input, depth + 1),
        LogicalPlanV::Projection { items, input } => pd + "Projection ["@
            + join(items.map_values(|i: ProjItemV| i.name), ", "@) + "]\n"@ + plan_text(*input, depth + 1),
        LogicalPlanV::Sort { column, descending, input } => pd + "Sort ["@ + column
            + (if descending { " DESC"@ } else { Seq::empty() }) + "]\n"@ + plan_text(*input, depth + 1),
        LogicalPlanV::Limit { count, input } => pd + "Limit "@ + decimal(count as int) + "\n"@
            + plan_text(*input, depth + 1),
    }
}

proof fn lemma_join_step(parts: Seq<Seq<char>>, sep: Seq<char>, i: int)
    requires
        0 <= i < parts.len(),
    ensures
        join(parts.take(i + 1), sep) == if i == 0 {
            parts[0]
        } else {
            join(parts.take(i), sep) + sep + parts[i]
        },
{
    assert(parts.take(i + 1).drop_last() =~= parts.take(i));
    if i == 0 {
        assert(parts.take(1).len() == 1);
    }
}

/// Joins strings with a separator.
pub fn join_strings(parts: &Vec<String>, sep: &str) -> (r: String)
    ensures
        r@ == join(strings_view(parts@), sep@),
{
    let ghost ps = strings_view(parts@);
    let mut r = String::new();
    let mut i: usize = 0;
    proof {
        assert(ps.take(0) =~= Seq::<Seq<char>>::empty());
    }
    while i < parts.len()
        invariant
            ps == strings_view(parts@),
            i <= parts@.len(),
            r@ == join(ps.take(i as int), sep@),
        decreases parts@.len() - i,
    {
        proof {
            lemma_join_step(ps, sep@, i as int);
        }
        if i > 0 {
            push_str(&mut r, sep);
        }
        push_str(&mut r, parts[i].as_str());
        proof {
            if i == 0 {
                assert(r@ =~= ps[0]);
            } else {
                assert(r@ =~= join(ps.take(i as int), sep@) + sep@ + ps[i as int]);
            }
        }
        i = i + 1;
    }
    assert(ps.take(parts@.len() as int) =~= ps);
    r
}

/// Two spaces per level of depth.
pub fn pad_string(depth: usize) -> (r: String)
    ensures
        r@ == pad(depth as nat),
{
    let mut r = String::new();
    let mut i: usize = 0;
    while i < depth
        invariant
            i <= depth,
            r@ == pad(i as nat),
        decreases depth - i,
    {
        push_str(&mut r, "  ");
        i = i + 1;
    }
    r
}

/// `name INT` or `name TEXT`.
pub fn format_column(c: &ColumnDef) -> (r: String)
    ensures
        r@ == column_text(c@),
{
    let mut r = string_of(c.name.as_str());
    push_str(&mut r, " ");
    match c.ty {
        DataType::Int => push_str(&mut r, "INT"),
        DataType::Text => push_str(&mut r, "TEXT"),
    }
    r
}

/// A literal as SQL text.
pub fn format_literal(l: &Literal) -> (r: String)
    ensures
        r@ == literal_text(l@),
{
    match l {
        Literal::Int(n) => i64_to_string(*n),
        Literal::Str(s) => {
            let mut r = string_of("'");
            push_str(&mut r, s.as_str());
            push_str(&mut r, "'");
            r
        },
        Literal::Null => string_of("NULL"),
    }
}

/// A comparison operator as SQL text.
pub fn format_op(op: CompareOp) -> (r: &'static str)
    ensures
        r@ == op_text(op),
{
    match op {
        CompareOp::Eq => "=",
        CompareOp::NotEq => "!=",
        CompareOp::Lt => "<",
        CompareOp::LtEq => "<=",
        CompareOp::Gt => ">",
        CompareOp::GtEq => ">=",
    }
}

/// An expression as SQL text; OR is parenthesized, AND is not.
pub fn format_expr(e: &Expr) -> (r: String)
    ensures
        r@ == expr_text(e@),
    decreases e,
{
    match e {
        Expr::Column(c) => c.clone(),
        Expr::Literal(l) => format_literal(l),
        Expr::Function { name, arg } => {
            let mut r = name.clone();
            push_str(&mut r, "(");
            let at = format_expr(arg);
            push_str(&mut r, at.as_str());
            push_str(&mut r, ")");
            r
        },
        Expr::Compare { left, op, right } => {
            let mut r = format_expr(left);
            push_str(&mut r, " ");
            push_str(&mut r, format_op(*op));
            push_str(&mut r, " ");
            let rt = format_expr(right);
            push_str(&mut r, rt.as_str());
            r
        },
        Expr::And(l, rr) => {
            let mut r = format_expr(l);
            push_str(&mut r, " AND ");
            let rt = format_expr(rr);
            push_str(&mut r, rt.as_str());
            r
        },
        Expr::Or(l, rr) => {
            let mut r = string_of("(");
            let lt = format_expr(l);
            push_str(&mut r, lt.as_str());
            push_str(&mut r, " OR ");
            let rt = format_expr(rr);
            push_str(&mut r, rt.as_str());
            push_str(&mut r, ")");
            r
        },
    }
}

/// The column definitions as text, separated by ", ".
pub(crate) fn columns_list(columns: &Vec<ColumnDef>) -> (r: String)
    ensures
        r@ == join(column_defs_view(columns@).map_values(|c: ColumnDefV| column_text(c)), ", "@),
{
    let mut parts: Vec<String> = Vec::new();
    let mut i: usize = 0;
    while i < columns.len()
        invariant
            i <= columns@.len(),
            strings_view(parts@) == column_defs_view(columns@).map_values(|c: ColumnDefV| column_text(c)).take(i as int),
        decreases columns@.len() - i,
    {
        let ghost prev = parts@;
        let t = format_column(&columns[i]);
        parts.push(t);
        assert(strings_view(parts@) =~= strings_view(prev).push(t@));
        assert(strings_view(parts@) =~= column_defs_view(columns@).map_values(|c: ColumnDefV| column_text(c)).take(i + 1));
        i = i + 1;
    }
    assert(column_defs_view(columns@).map_values(|c: ColumnDefV| column_text(c)).take(columns@.len() as int)
        =~= column_defs_view(columns@).map_values(|c: ColumnDefV| column_text(c)));
    join_strings(&parts, ", ")
}

/// The literals as text, separated by ", ".
pub(crate) fn literals_list(values: &Vec<Literal>) -> (r: String)
    ensures
        r@ == join(literals_view(values@).map_values(|l: LiteralV| literal_text(l)), ", "@),
{
    let mut parts: Vec<String> = Vec::new();
    let mut i: usize = 0;
    while i < values.len()
        invariant
            i <= values@.len(),
            strings_view(parts@) == literals_view(values@).map_values(|l: LiteralV| literal_text(l)).take(i as int),
        decreases values@.len() - i,
    {
        let ghost prev = parts@;
        let t = format_literal(&values[i]);
        parts.push(t);
        assert(strings_view(parts@) =~= strings_view(prev).push(t@));
        assert(strings_view(parts@) =~= literals_view(values@).map_values(|l: LiteralV| literal_text(l)).take(i + 1));
        i = i + 1;
    }
    assert(literals_view(values@).map_values(|l: LiteralV| literal_text(l)).take(values@.len() as int)
        =~= literals_view(values@).map_values(|l: LiteralV| literal_text(l)));
    join_strings(&parts, ", ")
}

/// The item names, separated by ", ".
pub(crate) fn names_list(items: &Vec<ProjItem>) -> (r: String)
    ensures
        r@ == join(proj_items_view(items@).map_values(|i: ProjItemV| i.name), ", "@),
{
    let mut parts: Vec<String> = Vec::new();
    let mut i: usize = 0;
    while i < items.len()
        invariant
            i <= items@.len(),
            strings_view(parts@) == proj_items_view(items@).map_values(|i: ProjItemV| i.name).take(i as int),
        decreases items@.len() - i,
    {
        let ghost prev = parts@;
        let t = items[i].name.clone();
        parts.push(t);
        assert(strings_view(parts@) =~= strings_view(prev).push(t@));
        assert(strings_view(parts@) =~= proj_items_view(items@).map_values(|i: ProjItemV| i.name).take(i + 1));
        i = i + 1;
    }
    assert(proj_items_view(items@).map_values(|i: ProjItemV| i.name).take(items@.len() as int)
        =~= proj_items_view(items@).map_values(|i: ProjItemV| i.name));
    join_strings(&parts, ", ")
}

impl LogicalPlan {
    /// The text of the plan below `depth` levels of indentation.
    pub fn write_at(&self, depth: usize) -> (r: String)
        requires
            depth + plan_depth(self@) <= usize::MAX,
        ensures
            r@ == plan_text(self@, depth as nat),
        decreases self,
    {
        let mut r = pad_string(depth);
        match self {
            LogicalPlan::CreateTable { table, columns } => {
                push_str(&mut r, "CreateTable ");
                push_str(&mut r, table.as_str());
                push_str(&mut r, " [");
                let cols = columns_list(columns);
                push_str(&mut r, cols.as_str());
                push_str(&mut r, "]\n");
            },
            LogicalPlan::Insert { table, values } => {
                push_str(&mut r, "Insert ");
                push_str(&mut r, table.as_str());
                push_str(&mut r, " [");
                let vals = literals_list(values);
                push_str(&mut r, vals.as_str());
                push_str(&mut r, "]\n");
            },
            LogicalPlan::Scan { table, .. } => {
                push_str(&mut r, "Scan ");
                push_str(&mut r, table.as_str());
                push_str(&mut r, "\n");
            },
            LogicalPlan::Filter { predicate, input } => {
                push_str(&mut r, "Filter [");
                let p = format_expr(predicate);
                push_str(&mut r, p.as_str());
                push_str(&mut r, "]\n");
                let rest = input.write_at(depth + 1);
                push_str(&mut r, rest.as_str());
            },
            LogicalPlan::Projection { items, input } => {
                push_str(&mut r, "Projection [");
                let names = names_list(items);
                push_str(&mut r, names.as_str());
                push_str(&mut r, "]\n");
                let rest = input.write_at(depth + 1);
                push_str(&mut r, rest.as_str());
            },
            LogicalPlan::Sort { column, descending, input } => {
                push_str(&mut r, "Sort [");
                push_str(&mut r, column.as_str());
                if *descending {
                    push_str(&mut r, " DESC");
                }
                push_str(&mut r, "]\n");
                let rest = input.write_at(depth + 1);
                push_str(&mut r, rest.as_str());
            },
            LogicalPlan::Limit { count, input } => {
                push_str(&mut r, "Limit ");
                let c = i64_to_string(*count);
                push_str(&mut r, c.as_str());
                push_str(&mut r, "\n");
                let rest = input.write_at(depth + 1);
                push_str(&mut r, rest.as_str());
            },
        }
        r
    }

    /// The text of the plan: one line per node, children indented by two
    /// spaces per level.
    pub fn to_string(&self) -> (r: String)
        requires
            plan_depth(self@) <= usize::MAX,
        ensures
            r@ == plan_text(self@, 0),
    {
        self.write_at(0)
    }
}

/// The number of nodes on the longest path from the root.
pub open spec fn plan_depth(p: LogicalPlanV) -> nat
    decreases p,
{
    match p {
        LogicalPlanV::Filter { input, .. } => 1 + plan_depth(*input),
        LogicalPlanV::Projection { input, .. } => 1 + plan_depth(*input),
        LogicalPlanV::Sort { input, .. } => 1 + plan_depth(*input),
        LogicalPlanV::Limit { input, .. } => 1 + plan_depth(*input),
        _ => 1,
    }
}

} // verus!
