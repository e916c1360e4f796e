//! Physical plans: the operators that execution runs, one for each logical
//! node.

use vstd::prelude::*;

use crate::parser::ast::{ColumnDef, ColumnDefV, Expr, ExprV, Literal, LiteralV, literals_view};
use crate::query::plan::{
    LogicalPlan, LogicalPlanV, ProjItem, ProjItemV, column_defs_view, column_text, columns_list,
    expr_text, format_expr, join, literal_text, literals_list, names_list, pad, pad_string,
    proj_items_view, strings_view,
};
use crate::text::{decimal, i64_to_string, push_str};

verus! {

/// A physical query plan.
#[derive(Debug, PartialEq, Eq)]
pub enum PhysicalPlan {
    CreateTableExec { table: String, columns: Vec<ColumnDef> },
    InsertExec { table: String, values: Vec<Literal> },
    TableScanExec { table: String, columns: Vec<String> },
    FilterExec { predicate: Expr, input: Box<PhysicalPlan> },
    ProjectionExec { items: Vec<ProjItem>, input: Box<PhysicalPlan> },
    SortExec { column: String, descending: bool, input: Box<PhysicalPlan> },
    LimitExec { count: i64, input: Box<PhysicalPlan> },
}

/// The model of a physical plan.
#[allow(inconsistent_fields)]
pub ghost enum PhysicalPlanV {
    CreateTableExec { table: Seq<char>, columns: Seq<ColumnDefV> },
    InsertExec { table: Seq<char>, values: Seq<LiteralV> },
    TableScanExec { table: Seq<char>, columns: Seq<Seq<char>> },
    FilterExec { predicate: ExprV, input: Box<PhysicalPlanV> },
    ProjectionExec { items: Seq<ProjItemV>, input: Box<PhysicalPlanV> },
    SortExec { column: Seq<char>, descending: bool, input: Box<PhysicalPlanV> },
    LimitExec { count: i64, input: Box<PhysicalPlanV> },
}

impl View for PhysicalPlan {
    type V = PhysicalPlanV;

    open spec fn view(&self) -> PhysicalPlanV
        decreases self,
    {
        match self {
            PhysicalPlan::CreateTableExec { table, columns } => PhysicalPlanV::CreateTableExec {
                table: table@,
                columns: column_defs_view(columns@),
            },
            PhysicalPlan::InsertExec { table, values } => PhysicalPlanV::InsertExec {
                table: table@,
                values: literals_view(values@),
            },
            PhysicalPlan::TableScanExec { table, columns } => PhysicalPlanV::TableScanExec {
                table: table@,
                columns: strings_view(columns@),
            },
            PhysicalPlan::FilterExec { predicate, input } => PhysicalPlanV::FilterExec {
                predicate: predicate@,
                input: Box::new((**input).view()),
            },
            PhysicalPlan::ProjectionExec { items, input } => PhysicalPlanV::ProjectionExec {
                items: proj_items_view(items@),
                input: Box::new((**input).view()),
            },
            PhysicalPlan::SortExec { column, descending, input } => PhysicalPlanV::SortExec {
                column: column@,
                descending: *descending,
                input: Box::new((**input).view()),
            },
            PhysicalPlan::LimitExec { count, input } => PhysicalPlanV::LimitExec {
                count: *count,
                input: Box::new((**input).view()),
            },
        }
    }
}

/// Each logical node becomes the operator that runs it; nothing else changes.
pub open spec fn lower(p: LogicalPlanV) -> PhysicalPlanV
    decreases p,
{
    match p {
        LogicalPlanV::CreateTable { table, columns } => PhysicalPlanV::CreateTableExec { table, columns },
        LogicalPlanV::Insert { table, values } => PhysicalPlanV::InsertExec { table, values },
        LogicalPlanV::Scan { table, columns } => PhysicalPlanV::TableScanExec { table, columns },
        LogicalPlanV::Filter { predicate, input } => PhysicalPlanV::FilterExec {
            predicate,
            input: Box::new(lower(*input)),
        },
        LogicalPlanV::Projection { items, input } => PhysicalPlanV::ProjectionExec {
            items,
            input: Box::new(lower(*input)),
        },
        LogicalPlanV::Sort { column, descending, input } => PhysicalPlanV::SortExec {
            column,
            descending,
            input: Box::new(lower(*input)),
        },
        LogicalPlanV::Limit { count, input } => PhysicalPlanV::LimitExec {
            count,
            input: Box::new(lower(*input)),
        },
    }
}

/// The number of nodes on the longest path from the root.
pub open spec fn physical_depth(p: PhysicalPlanV) -> nat
    decreases p,
{
    match p {
        PhysicalPlanV::FilterExec { input, .. } => 1 + physical_depth(*input),
        PhysicalPlanV::ProjectionExec { input, .. } => 1 + physical_depth(*input),
        PhysicalPlanV::SortExec { input, .. } => 1 + physical_depth(*input),
        PhysicalPlanV::LimitExec { input, .. } => 1 + physical_depth(*input),
        _ => 1,
    }
}

/// The text of a physical plan at a depth: one line per operator, inputs
/// indented below the operator that reads them.
pub open spec fn physical_text(p: PhysicalPlanV, depth: nat) -> Seq<char>
    decreases p,
{
    let pd = pad(depth);
    match p {
        PhysicalPlanV::CreateTableExec { table, columns } => pd + "CreateTableExec "@ + table + " ["@
            + join(columns.map_values(|c: ColumnDefV| column_text(c)), ", "@) + "]\n"@,
        PhysicalPlanV::InsertExec { table, values } => pd + "InsertExec "@ + table + " ["@
            + join(values.map_values(|l: LiteralV| literal_text(l)), ", "@) + "]\n"@,
        PhysicalPlanV::TableScanExec { table, .. } => pd + "TableScanExec "@ + table + "\n"@,
        PhysicalPlanV::FilterExec { predicate, input } => pd + "FilterExec ["@ + expr_text(predicate)
            + "]\n"@ + physical_text(*input, depth + 1),
        PhysicalPlanV::ProjectionExec { items, input } => pd + "ProjectionExec ["@
            + join(items.map_values(|i: ProjItemV| i.name), ", "@) + "]\n"@
            + physical_text(*input, depth + 1),
        PhysicalPlanV::SortExec { column, descending, input } => pd + "SortExec ["@ + column
            + (if descending { " DESC"@ } else { Seq::empty() }) + "]\n"@
            + physical_text(*input, depth + 1),
        PhysicalPlanV::LimitExec { count, input } => pd + "LimitExec "@ + decimal(count as int) + "\n"@
            + physical_text(*input, depth + 1),
    }
}

/// Lowering loses nothing: two logical plans that lower to the same
/// physical plan are the same plan.
pub proof fn lemma_lower_injective(a: LogicalPlanV, b: LogicalPlanV)
    requires
        lower(a) == lower(b),
    ensures
        a == b,
    decreases a,
{
    match a {
        LogicalPlanV::Filter { input: ia, .. } => {
            let ib = b->Filter_input;
            lemma_lower_injective(*ia, *ib);
        },
        LogicalPlanV::Projection { input: ia, .. } => {
            let ib = b->Projection_input;
            lemma_lower_injective(*ia, *ib);
        },
        LogicalPlanV::Sort { input: ia, .. } => {
            let ib = b->Sort_input;
            lemma_lower_injective(*ia, *ib);
        },
        LogicalPlanV::Limit { input: ia, .. } => {
            let ib = b->Limit_input;
            lemma_lower_injective(*ia, *ib);
        },
        _ => {},
    }
}

/// Lowering keeps the shape of the tree: every path from the root has as
/// many operators as the logical plan has nodes.
pub proof fn lemma_lower_depth(p: LogicalPlanV)
    ensures
        physical_depth(lower(p)) == crate::query::plan::plan_depth(p),
    decreases p,
{
    match p {
        LogicalPlanV::Filter { input, .. } => lemma_lower_depth(*input),
        LogicalPlanV::Projection { input, .. } => lemma_lower_depth(*input),
        LogicalPlanV::Sort { input, .. } => lemma_lower_depth(*input),
        LogicalPlanV::Limit { input, .. } => lemma_lower_depth(*input),
        _ => {},
    }
}

/// Turns a logical plan into the physical plan that runs it.
pub fn from_logical(plan: LogicalPlan) -> (r: PhysicalPlan)
    ensures
        r@ == lower(plan@),
    decreases plan,
{
    match plan {
        LogicalPlan::CreateTable { table, columns } => PhysicalPlan::CreateTableExec { table, columns },
        LogicalPlan::Insert { table, values } => PhysicalPlan::InsertExec { table, values },
        LogicalPlan::Scan { table, columns } => PhysicalPlan::TableScanExec { table, columns },
        LogicalPlan::Filter { predicate, input } => PhysicalPlan::FilterExec {
            predicate,
            input: Box::new(from_logical(*input)),
        },
        LogicalPlan::Projection { items, input } => PhysicalPlan::ProjectionExec {
            items,
            input: Box::new(from_logical(*input)),
        },
        LogicalPlan::Sort { column, descending, input } => PhysicalPlan::SortExec {
            column,
            descending,
            input: Box::new(from_logical(*input)),
        },
        LogicalPlan::Limit { count, input } => PhysicalPlan::LimitExec {
            count,
            input: Box::new(from_logical(*input)),
        },
    }
}

impl PhysicalPlan {
    /// The text of the plan below `depth` levels of indentation.
    pub fn write_at(&self, depth: usize) -> (r: String)
        requires
            depth + physical_depth(self@) <= usize::MAX,
        ensures
            r@ == physical_text(self@, depth as nat),
        decreases self,
    {
        let mut r = pad_string(depth);
        match self {
            PhysicalPlan::CreateTableExec { table, columns } => {
                push_str(&mut r, "CreateTableExec ");
                push_str(&mut r, table.as_str());
                push_str(&mut r, " [");
                let cols = columns_list(columns);
                push_str(&mut r, cols.as_str());
                push_str(&mut r, "]\n");
            },
            PhysicalPlan::InsertExec { table, values } => {
                push_str(&mut r, "InsertExec ");
                push_str(&mut r, table.as_str());
                push_str(&mut r, " [");
                let vals = literals_list(values);
                push_str(&mut r, vals.as_str());
                push_str(&mut r, "]\n");
            },
            PhysicalPlan::TableScanExec { table, .. } => {
                push_str(&mut r, "TableScanExec ");
                push_str(&mut r, table.as_str());
                push_str(&mut r, "\n");
            },
            PhysicalPlan::FilterExec { predicate, input } => {
                push_str(&mut r, "FilterExec [");
                let p = format_expr(predicate);
                push_str(&mut r, p.as_str());
                push_str(&mut r, "]\n");
                let rest = input.write_at(depth + 1);
                push_str(&mut r, rest.as_str());
            },
            PhysicalPlan::ProjectionExec { items, input } => {
                push_str(&mut r, "ProjectionExec [");
                let names = names_list(items);
                push_str(&mut r, names.as_str());
                push_str(&mut r, "]\n");
                let rest = input.write_at(depth + 1);
                push_str(&mut r, rest.as_str());
            },
            PhysicalPlan::SortExec { column, descending, input } => {
                push_str(&mut r, "SortExec [");
                push_str(&mut r, column.as_str());
                if *descending {
                    push_str(&mut r, " DESC");
                }
                push_str(&mut r, "]\n");
                let rest = input.write_at(depth + 1);
                push_str(&mut r, rest.as_str());
            },
            PhysicalPlan::LimitExec { count, input } => {
                push_str(&mut r, "LimitExec ");
                let c = i64_to_string(*count);
                push_str(&mut r, c.as_str());
                push_str(&mut r, "\n");
                let rest = input.write_at(depth + 1);
                push_str(&mut r, rest.as_str());
            },
        }
        r
    }

    /// The text of the plan: one line per operator, inputs indented by two
    /// spaces per level.
    pub fn to_string(&self) -> (r: String)
        requires
            physical_depth(self@) <= usize::MAX,
        ensures
            r@ == physical_text(self@, 0),
    {
        self.write_at(0)
    }
}

} // verus!
