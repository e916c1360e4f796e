//! Planning: from a parsed statement and the schemas of the tables to a
//! logical plan. Names are checked against the table's schema; the parser
//! does not check them.

pub mod exec;
pub mod physical;
pub mod plan;

use vstd::prelude::*;

use crate::catalog::schema::{ColumnV, Schema};
use crate::parser::ast::{
    ColumnDef, CreateTable, CreateTableV, Expr, ExprV, Insert, InsertV, Literal, LiteralV,
    Projection, ProjectionV, Select, SelectItem, SelectItemV, SelectV, Statement, StatementV,
    items_view, literals_view, names_view,
};
use crate::text::{decimal, digits, eq_ignore_ascii_case, push_i64, push_str, push_usize, str_ci_eq, str_eq, string_of};
use plan::{LogicalPlan, LogicalPlanV, ProjItem, ProjItemV, column_defs_view, expr_text, format_expr, proj_items_view, strings_view};

verus! {

/// A statement that cannot be planned: unknown names, bad counts, NULL in a
/// NOT NULL column, a negative LIMIT.
#[derive(Debug, Clone, PartialEq, Eq)]
pub struct PlanError {
    pub message: String,
}

impl PlanError {
    /// "plan error: message".
    pub fn to_string(&self) -> (r: String)
        ensures
            r@ == "plan error: "@ + self.message@,
    {
        let mut s = string_of("plan error: ");
        push_str(&mut s, self.message.as_str());
        s
    }
}

/// Where the planner finds the schema of a table.
pub trait Catalog {
    /// Whether `schema` is an answer this catalog gives when asked for
    /// `table` (`None`: no such table). An implementation may say which
    /// answers it gives; by default any answer is possible.
    closed spec fn answers(&self, table: Seq<char>, schema: Option<Seq<ColumnV>>) -> bool {
        true
    }

    /// The schema of `table`, or `None` when there is no such table.
    fn schema(&self, table: &str) -> (r: Option<Schema>)
        ensures
            self.answers(table@, schema_opt_view(r)),
    ;
}

/// A database directory, where each table is a file named after it.
#[derive(Debug, Clone, PartialEq, Eq)]
pub struct DirCatalog {
    dir: String,
}

impl View for DirCatalog {
    type V = Seq<char>;

    closed spec fn view(&self) -> Seq<char> {
        self.dir@
    }
}

impl DirCatalog {
    /// The catalog of the tables in directory `dir`.
    pub fn new(dir: String) -> (r: Self)
        ensures
            r@ == dir@,
    {
        Self { dir }
    }

    /// The directory.
    pub fn dir(&self) -> (r: &str)
        ensures
            r@ == self@,
    {
        self.dir.as_str()
    }
}

/// A name in double quotes.
pub open spec fn quoted(s: Seq<char>) -> Seq<char> {
    "\""@ + s + "\""@
}

/// The message for an unknown table.
pub open spec fn msg_unknown_table(t: Seq<char>) -> Seq<char> {
    "unknown table "@ + quoted(t)
}

/// The message for an unknown column.
pub open spec fn msg_unknown_column(c: Seq<char>, t: Seq<char>) -> Seq<char> {
    "unknown column "@ + quoted(c) + " in table "@ + quoted(t)
}

/// The message for a column named twice in CREATE TABLE.
pub open spec fn msg_duplicate(c: Seq<char>) -> Seq<char> {
    "duplicate column "@ + quoted(c)
}

/// The message for an INSERT without column list whose value count differs.
pub open spec fn msg_expects(t: Seq<char>, n: nat, m: nat) -> Seq<char> {
    "table "@ + quoted(t) + " expects "@ + digits(n) + " values but got "@ + digits(m)
}

/// The message for a column list and value list of different lengths.
pub open spec fn msg_count(n: nat, m: nat) -> Seq<char> {
    "got "@ + digits(n) + " columns but "@ + digits(m) + " values"@
}

/// The message for NULL in a NOT NULL column.
pub open spec fn msg_not_null(c: Seq<char>) -> Seq<char> {
    "column "@ + quoted(c) + " is NOT NULL"@
}

/// The message for a negative LIMIT.
pub open spec fn msg_negative_limit(n: i64) -> Seq<char> {
    "LIMIT must not be negative, got "@ + decimal(n as int)
}

/// The names of the columns, in order.
pub open spec fn names_of(sc: Seq<ColumnV>) -> Seq<Seq<char>> {
    sc.map_values(|c: ColumnV| c.name)
}

/// A column of the schema has this name.
pub open spec fn schema_has(sc: Seq<ColumnV>, n: Seq<char>) -> bool {
    exists|k: int| 0 <= k < sc.len() && #[trigger] sc[k].name == n
}

/// The first column from `i` on whose name an earlier column already has.
pub open spec fn first_duplicate(cols: Seq<Seq<char>>, i: int) -> Option<int>
    decreases cols.len() - i,
{
    if i < 0 || i >= cols.len() {
        None
    } else if exists|j: int| 0 <= j < i && #[trigger] cols[j] == cols[i] {
        Some(i)
    } else {
        first_duplicate(cols, i + 1)
    }
}

/// Planning CREATE TABLE: column names must differ.
pub open spec fn spec_plan_create(ct: CreateTableV) -> Result<LogicalPlanV, Seq<char>> {
    match first_duplicate(ct.columns.map_values(|c: crate::parser::ast::ColumnDefV| c.name), 0) {
        Some(i) => Err(msg_duplicate(ct.columns[i].name)),
        None => Ok(LogicalPlanV::CreateTable { table: ct.table, columns: ct.columns }),
    }
}

/// The first position from `i` on of `n` among `names`.
pub open spec fn name_index(names: Seq<Seq<char>>, n: Seq<char>, i: int) -> Option<int>
    decreases names.len() - i,
{
    if i < 0 || i >= names.len() {
        None
    } else if names[i] == n {
        Some(i)
    } else {
        name_index(names, n, i + 1)
    }
}

/// The first name from `i` on that no column of the schema has.
pub open spec fn first_unknown_name(sc: Seq<ColumnV>, names: Seq<Seq<char>>, i: int) -> Option<int>
    decreases names.len() - i,
{
    if i < 0 || i >= names.len() {
        None
    } else if !schema_has(sc, names[i]) {
        Some(i)
    } else {
        first_unknown_name(sc, names, i + 1)
    }
}

/// The values in table-column order: each column takes the value at the
/// first position of its name in the list, or NULL when not listed.
pub open spec fn reorder(sc: Seq<ColumnV>, names: Seq<Seq<char>>, values: Seq<LiteralV>) -> Seq<LiteralV> {
    Seq::new(
        sc.len(),
        |k: int| match name_index(names, sc[k].name, 0) {
            Some(i) => values[i],
            None => LiteralV::Null,
        },
    )
}

/// The first position from `i` on where NULL meets a NOT NULL column.
pub open spec fn first_null_violation(ordered: Seq<LiteralV>, sc: Seq<ColumnV>, i: int) -> Option<int>
    decreases ordered.len() - i,
{
    if i < 0 || i >= ordered.len() || i >= sc.len() {
        None
    } else if ordered[i] is Null && !sc[i].nullable {
        Some(i)
    } else {
        first_null_violation(ordered, sc, i + 1)
    }
}

/// The values of an INSERT in table-column order, or the error.
pub open spec fn insert_values(ins: InsertV, sc: Seq<ColumnV>) -> Result<Seq<LiteralV>, Seq<char>> {
    match ins.columns {
        None => if ins.values.len() != sc.len() {
            Err(msg_expects(ins.table, sc.len(), ins.values.len()))
        } else {
            Ok(ins.values)
        },
        Some(names) => if names.len() != ins.values.len() {
            Err(msg_count(names.len(), ins.values.len()))
        } else {
            match first_unknown_name(sc, names, 0) {
                Some(k) => Err(msg_unknown_column(names[k], ins.table)),
                None => Ok(reorder(sc, names, ins.values)),
            }
        },
    }
}

/// Planning INSERT against the table's schema (`None`: no such table).
pub open spec fn spec_plan_insert(ins: InsertV, schema: Option<Seq<ColumnV>>) -> Result<LogicalPlanV, Seq<char>> {
    match schema {
        None => Err(msg_unknown_table(ins.table)),
        Some(sc) => match insert_values(ins, sc) {
            Err(m) => Err(m),
            Ok(ordered) => match first_null_violation(ordered, sc, 0) {
                Some(k) => Err(msg_not_null(sc[k].name)),
                None => Ok(LogicalPlanV::Insert { table: ins.table, values: ordered }),
            },
        },
    }
}

proof fn lemma_no_null_violation(ordered: Seq<LiteralV>, sc: Seq<ColumnV>, i: int)
    requires
        0 <= i,
        ordered.len() == sc.len(),
        first_null_violation(ordered, sc, i) is None,
    ensures
        forall|k: int| i <= k < sc.len() && !sc[k].nullable ==> !(ordered[k] is Null),
    decreases ordered.len() - i,
{
    if i < ordered.len() {
        lemma_no_null_violation(ordered, sc, i + 1);
    }
}

/// A planned INSERT fills every column of the table, in order, and puts no
/// NULL in a NOT NULL column, whether or not the statement lists its
/// columns (a column left out of the list is NULL, so it must allow NULL).
/// Without a column list the row is the statement's values as written;
/// with one, each listed column gets the value written for it.
pub proof fn lemma_planned_insert_fits_schema(ins: InsertV, sc: Seq<ColumnV>)
    ensures
        spec_plan_insert(ins, Some(sc)) matches Ok(p) ==> p matches LogicalPlanV::Insert { table, values } && {
            &&& table == ins.table
            &&& values.len() == sc.len()
            &&& forall|k: int| 0 <= k < sc.len() && !sc[k].nullable ==> !(#[trigger] values[k] is Null)
            &&& ins.columns is None ==> values == ins.values
            &&& ins.columns matches Some(names) ==> forall|k: int, j: int|
                0 <= k < sc.len() && 0 <= j < names.len() && names[j] == sc[k].name && (forall|m: int|
                    0 <= m < j ==> names[m] != sc[k].name) ==> #[trigger] values[k] == #[trigger] ins.values[j]
            &&& ins.columns matches Some(names) ==> forall|k: int|
                0 <= k < sc.len() && (forall|m: int| 0 <= m < names.len() ==> names[m] != sc[k].name) ==> (
                #[trigger] values[k]) is Null
        },
{
    if let Ok(ordered) = insert_values(ins, sc) {
        if let Some(names) = ins.columns {
            assert(ordered.len() == sc.len());
            assert forall|k: int, j: int|
                0 <= k < sc.len() && 0 <= j < names.len() && names[j] == sc[k].name && (forall|m: int|
                    0 <= m < j ==> names[m] != sc[k].name) implies #[trigger] ordered[k] == #[trigger] ins.values[j] by {
                lemma_name_index_first(names, sc[k].name, 0, j);
            }
            assert forall|k: int|
                0 <= k < sc.len() && (forall|m: int| 0 <= m < names.len() ==> names[m] != sc[k].name) implies (
                #[trigger] ordered[k]) is Null by {
                lemma_name_index_none(names, sc[k].name, 0);
            }
        }
        if first_null_violation(ordered, sc, 0) is None {
            lemma_no_null_violation(ordered, sc, 0);
        }
    }
}

proof fn lemma_name_index_first(names: Seq<Seq<char>>, n: Seq<char>, i: int, j: int)
    requires
        0 <= i <= j < names.len(),
        names[j] == n,
        forall|m: int| 0 <= m < j ==> names[m] != n,
    ensures
        name_index(names, n, i) == Some(j),
    decreases j - i,
{
    if i < j {
        lemma_name_index_first(names, n, i + 1, j);
    }
}

proof fn lemma_name_index_none(names: Seq<Seq<char>>, n: Seq<char>, i: int)
    requires
        0 <= i,
        forall|m: int| 0 <= m < names.len() ==> names[m] != n,
    ensures
        name_index(names, n, i) is None,
    decreases names.len() - i,
{
    if i < names.len() {
        lemma_name_index_none(names, n, i + 1);
    }
}

/// The message for a call of a function other than LENGTH.
pub open spec fn msg_unknown_function(f: Seq<char>) -> Seq<char> {
    "unknown function "@ + quoted(f)
}

/// The function name LENGTH, in any ASCII case.
pub open spec fn is_length(name: Seq<char>) -> bool {
    str_ci_eq(name, "LENGTH"@)
}

/// The first problem of an expression against the schema of `table`, left
/// to right: a column the schema lacks, or a function other than LENGTH.
pub open spec fn expr_problem(e: ExprV, sc: Seq<ColumnV>, table: Seq<char>) -> Option<Seq<char>>
    decreases e,
{
    match e {
        ExprV::Column(c) => if schema_has(sc, c) { None } else { Some(msg_unknown_column(c, table)) },
        ExprV::Literal(_) => None,
        ExprV::Function { name, arg } => if is_length(name) {
            expr_problem(*arg, sc, table)
        } else {
            Some(msg_unknown_function(name))
        },
        ExprV::Compare { left, right, .. } => match expr_problem(*left, sc, table) {
            Some(m) => Some(m),
            None => expr_problem(*right, sc, table),
        },
        ExprV::And(l, r) => match expr_problem(*l, sc, table) {
            Some(m) => Some(m),
            None => expr_problem(*r, sc, table),
        },
        ExprV::Or(l, r) => match expr_problem(*l, sc, table) {
            Some(m) => Some(m),
            None => expr_problem(*r, sc, table),
        },
    }
}

/// The first problem of the items from `i` on.
pub open spec fn items_problem(items: Seq<SelectItemV>, sc: Seq<ColumnV>, table: Seq<char>, i: int) -> Option<Seq<char>>
    decreases items.len() - i,
{
    if i < 0 || i >= items.len() {
        None
    } else {
        match expr_problem(items[i].expr, sc, table) {
            Some(m) => Some(m),
            None => items_problem(items, sc, table, i + 1),
        }
    }
}

/// The name of an output column: its alias, else the column it names, else
/// the expression's text.
pub open spec fn output_name(item: SelectItemV) -> Seq<char> {
    match item.alias {
        Some(a) => a,
        None => match item.expr {
            ExprV::Column(c) => c,
            other => expr_text(other),
        },
    }
}

/// The projection items of `*`: every column of the table, in order.
pub open spec fn star_items(names: Seq<Seq<char>>) -> Seq<ProjItemV> {
    names.map_values(|c: Seq<char>| ProjItemV { expr: ExprV::Column(c), name: c })
}

/// The projection items of a SELECT list.
pub open spec fn list_items(items: Seq<SelectItemV>) -> Seq<ProjItemV> {
    items.map_values(|i: SelectItemV| ProjItemV { expr: i.expr, name: output_name(i) })
}

/// Planning SELECT against the table's schema: Scan, then Filter, Sort,
/// Projection and Limit as the statement asks.
pub open spec fn spec_plan_select(sel: SelectV, schema: Option<Seq<ColumnV>>) -> Result<LogicalPlanV, Seq<char>> {
    match schema {
        None => Err(msg_unknown_table(sel.from)),
        Some(sc) => {
            let names = names_of(sc);
            let scan = LogicalPlanV::Scan { table: sel.from, columns: names };
            if sel.filter matches Some(p) && expr_problem(p, sc, sel.from) is Some {
                Err(expr_problem(sel.filter->0, sc, sel.from)->0)
            } else if sel.order_by matches Some(o) && !schema_has(sc, o.column) {
                Err(msg_unknown_column(sel.order_by->0.column, sel.from))
            } else if sel.projection matches ProjectionV::Items(items) && items_problem(items, sc, sel.from, 0) is Some {
                Err(items_problem(sel.projection->0, sc, sel.from, 0)->0)
            } else if sel.limit matches Some(n) && n < 0 {
                Err(msg_negative_limit(sel.limit->0))
            } else {
                let n1 = match sel.filter {
                    Some(p) => LogicalPlanV::Filter { predicate: p, input: Box::new(scan) },
                    None => scan,
                };
                let n2 = match sel.order_by {
                    Some(o) => LogicalPlanV::Sort { column: o.column, descending: o.descending, input: Box::new(n1) },
                    None => n1,
                };
                let items = match sel.projection {
                    ProjectionV::All => star_items(names),
                    ProjectionV::Items(list) => list_items(list),
                };
                let n3 = LogicalPlanV::Projection { items, input: Box::new(n2) };
                match sel.limit {
                    Some(n) => Ok(LogicalPlanV::Limit { count: n, input: Box::new(n3) }),
                    None => Ok(n3),
                }
            }
        },
    }
}

/// The model of a planning result: the plan, or the error's message.
pub open spec fn plan_result_view(r: Result<LogicalPlan, PlanError>) -> Result<LogicalPlanV, Seq<char>> {
    match r {
        Ok(p) => Ok(p@),
        Err(e) => Err(e.message@),
    }
}

/// The model of an optional schema.
pub open spec fn schema_opt_view(s: Option<Schema>) -> Option<Seq<ColumnV>> {
    match s {
        Some(x) => Some(x@),
        None => None,
    }
}

/// Plans a statement, asking `catalog` for the schema of the table it names.
pub fn plan<C: Catalog>(statement: Statement, catalog: &C) -> (r: Result<LogicalPlan, PlanError>)
    ensures
        match statement@ {
            StatementV::CreateTable(ct) => plan_result_view(r) == spec_plan_create(ct),
            StatementV::Insert(ins) => exists|s: Option<Seq<ColumnV>>|
                catalog.answers(ins.table, s) && plan_result_view(r) == #[trigger] spec_plan_insert(ins, s),
            StatementV::Select(sel) => exists|s: Option<Seq<ColumnV>>|
                catalog.answers(sel.from, s) && plan_result_view(r) == #[trigger] spec_plan_select(sel, s),
        },
{
    match statement {
        Statement::CreateTable(ct) => plan_create_table(ct),
        Statement::Insert(ins) => {
            let schema = catalog.schema(ins.table.as_str());
            let ghost sv = schema_opt_view(schema);
            let r = plan_insert(ins, schema);
            assert(plan_result_view(r) == spec_plan_insert(statement@->Insert_0, sv));
            r
        },
        Statement::Select(sel) => {
            let schema = catalog.schema(sel.from.as_str());
            let ghost sv = schema_opt_view(schema);
            let r = plan_select(sel, schema);
            assert(plan_result_view(r) == spec_plan_select(statement@->Select_0, sv));
            r
        },
    }
}

fn quote_into(s: &mut String, name: &str)
    ensures
        final(s)@ == old(s)@ + quoted(name@),
{
    push_str(s, "\"");
    push_str(s, name);
    push_str(s, "\"");
    assert(final(s)@ =~= old(s)@ + quoted(name@));
}

fn err(message: String) -> (r: PlanError)
    ensures
        r.message@ == message@,
{
    PlanError { message }
}

fn unknown_table(table: &str) -> (r: PlanError)
    ensures
        r.message@ == msg_unknown_table(table@),
{
    let mut m = string_of("unknown table ");
    quote_into(&mut m, table);
    err(m)
}

fn unknown_function(name: &str) -> (r: PlanError)
    ensures
        r.message@ == msg_unknown_function(name@),
{
    let mut m = string_of("unknown function ");
    quote_into(&mut m, name);
    err(m)
}

fn unknown_column(column: &str, table: &str) -> (r: PlanError)
    ensures
        r.message@ == msg_unknown_column(column@, table@),
{
    let mut m = string_of("unknown column ");
    quote_into(&mut m, column);
    push_str(&mut m, " in table ");
    quote_into(&mut m, table);
    assert(m@ =~= msg_unknown_column(column@, table@));
    err(m)
}

/// Plans CREATE TABLE: rejects a column name given twice.
pub fn plan_create_table(ct: CreateTable) -> (r: Result<LogicalPlan, PlanError>)
    ensures
        plan_result_view(r) == spec_plan_create(ct@),
{
    let ghost names = ct@.columns.map_values(|c: crate::parser::ast::ColumnDefV| c.name);
    let mut i: usize = 0;
    while i < ct.columns.len()
        invariant
            names == ct@.columns.map_values(|c: crate::parser::ast::ColumnDefV| c.name),
            names.len() == ct.columns@.len(),
            i <= ct.columns@.len(),
            first_duplicate(names, 0) == first_duplicate(names, i as int),
        decreases ct.columns@.len() - i,
    {
        let mut j: usize = 0;
        let mut dup = false;
        while j < i
            invariant
                names == ct@.columns.map_values(|c: crate::parser::ast::ColumnDefV| c.name),
                names.len() == ct.columns@.len(),
                i < ct.columns@.len(),
                j <= i,
                dup == (exists|k: int| 0 <= k < j && #[trigger] names[k] == names[i as int]),
            decreases i - j,
        {
            if ct.columns[j].name == ct.columns[i].name {
                assert(names[j as int] == names[i as int]);
                dup = true;
            }
            j = j + 1;
        }
        if dup {
            let mut m = string_of("duplicate column ");
            quote_into(&mut m, ct.columns[i].name.as_str());
            return Err(err(m));
        }
        i = i + 1;
    }
    Ok(LogicalPlan::CreateTable { table: ct.table, columns: ct.columns })
}

/// A copy of a literal.
pub fn clone_literal(l: &Literal) -> (r: Literal)
    ensures
        r@ == l@,
{
    match l {
        Literal::Int(n) => Literal::Int(*n),
        Literal::Str(s) => Literal::Str(s.clone()),
        Literal::Null => Literal::Null,
    }
}

/// A copy of an expression.
pub fn clone_expr(e: &Expr) -> (r: Expr)
    ensures
        r@ == e@,
    decreases e,
{
    match e {
        Expr::Column(c) => Expr::Column(c.clone()),
        Expr::Literal(l) => Expr::Literal(clone_literal(l)),
        Expr::Function { name, arg } => Expr::Function { name: name.clone(), arg: Box::new(clone_expr(arg)) },
        Expr::Compare { left, op, right } => Expr::Compare {
            left: Box::new(clone_expr(left)),
            op: *op,
            right: Box::new(clone_expr(right)),
        },
        Expr::And(l, r) => Expr::And(Box::new(clone_expr(l)), Box::new(clone_expr(r))),
        Expr::Or(l, r) => Expr::Or(Box::new(clone_expr(l)), Box::new(clone_expr(r))),
    }
}

/// Checks an expression against the schema: every column it names is a
/// column of the table, and every function it calls is LENGTH.
fn check_columns(e: &Expr, schema: &Schema, table: &str) -> (r: Result<(), PlanError>)
    ensures
        match expr_problem(e@, schema@, table@) {
            Some(m) => r matches Err(er) && er.message@ == m,
            None => r is Ok,
        },
    decreases e,
{
    match e {
        Expr::Column(c) => {
            match schema.column_index(c.as_str()) {
                None => Err(unknown_column(c.as_str(), table)),
                Some(i) => {
                    assert(schema@[i as int].name == c@);
                    Ok(())
                },
            }
        },
        Expr::Literal(_) => Ok(()),
        Expr::Function { name, arg } => {
            if eq_ignore_ascii_case(name.as_str(), "LENGTH") {
                check_columns(arg, schema, table)
            } else {
                Err(unknown_function(name.as_str()))
            }
        },
        Expr::Compare { left, right, .. } => {
            match check_columns(left, schema, table) {
                Err(er) => Err(er),
                Ok(()) => check_columns(right, schema, table),
            }
        },
        Expr::And(l, r) => {
            match check_columns(l, schema, table) {
                Err(er) => Err(er),
                Ok(()) => check_columns(r, schema, table),
            }
        },
        Expr::Or(l, r) => {
            match check_columns(l, schema, table) {
                Err(er) => Err(er),
                Ok(()) => check_columns(r, schema, table),
            }
        },
    }
}

fn output_name_of(item: &SelectItem) -> (r: String)
    ensures
        r@ == output_name(item@),
{
    match &item.alias {
        Some(a) => a.clone(),
        None => match &item.expr {
            Expr::Column(c) => c.clone(),
            other => format_expr(other),
        },
    }
}


/// A copy of a list of names.
pub fn clone_strings(v: &Vec<String>) -> (r: Vec<String>)
    ensures
        strings_view(r@) == strings_view(v@),
{
    let mut r: Vec<String> = Vec::new();
    let mut i: usize = 0;
    while i < v.len()
        invariant
            i <= v@.len(),
            strings_view(r@) == strings_view(v@).take(i as int),
        decreases v@.len() - i,
    {
        let ghost prev = r@;
        let t = v[i].clone();
        r.push(t);
        assert(strings_view(r@) =~= strings_view(prev).push(t@));
        assert(strings_view(r@) =~= strings_view(v@).take(i + 1));
        i = i + 1;
    }
    assert(strings_view(v@).take(v@.len() as int) =~= strings_view(v@));
    r
}

/// The names of the columns of a schema, in order.
pub fn column_names(schema: &Schema) -> (r: Vec<String>)
    ensures
        strings_view(r@) == names_of(schema@),
{
    let ghost sc = schema@;
    let mut names: Vec<String> = Vec::new();
    let mut i: usize = 0;
    while i < schema.columns.len()
        invariant
            sc == schema@,
            i <= sc.len(),
            strings_view(names@) == sc.map_values(|c: ColumnV| c.name).take(i as int),
        decreases sc.len() - i,
    {
        let ghost prev = names@;
        let t = schema.columns[i].name.clone();
        names.push(t);
        assert(strings_view(names@) =~= strings_view(prev).push(t@));
        assert(strings_view(names@) =~= sc.map_values(|c: ColumnV| c.name).take(i + 1));
        i = i + 1;
    }
    assert(sc.map_values(|c: ColumnV| c.name).take(sc.len() as int) =~= names_of(sc));
    names
}

/// The projection items of `*`.
fn star_proj_items(names: &Vec<String>) -> (r: Vec<ProjItem>)
    ensures
        proj_items_view(r@) == star_items(strings_view(names@)),
{
    let mut out: Vec<ProjItem> = Vec::new();
    let mut k: usize = 0;
    while k < names.len()
        invariant
            k <= names@.len(),
            proj_items_view(out@) == star_items(strings_view(names@)).take(k as int),
        decreases names@.len() - k,
    {
        let ghost prev = out@;
        let it = ProjItem { expr: Expr::Column(names[k].clone()), name: names[k].clone() };
        out.push(it);
        assert(proj_items_view(out@) =~= proj_items_view(prev).push(it@));
        assert(proj_items_view(out@) =~= star_items(strings_view(names@)).take(k + 1));
        k = k + 1;
    }
    assert(star_items(strings_view(names@)).take(names@.len() as int) =~= star_items(strings_view(names@)));
    out
}

/// The projection items of a SELECT list, after checking their columns.
fn list_proj_items(list: &Vec<SelectItem>, schema: &Schema, table: &str) -> (r: Result<Vec<ProjItem>, PlanError>)
    ensures
        match items_problem(items_view(list@), schema@, table@, 0) {
            Some(m) => r matches Err(e) && e.message@ == m,
            None => r matches Ok(v) && proj_items_view(v@) == list_items(items_view(list@)),
        },
{
    let ghost lv = items_view(list@);
    let ghost sc = schema@;
    let mut out: Vec<ProjItem> = Vec::new();
    let mut k: usize = 0;
    while k < list.len()
        invariant
            lv == items_view(list@),
            sc == schema@,
            k <= list@.len(),
            items_problem(lv, sc, table@, 0) == items_problem(lv, sc, table@, k as int),
            proj_items_view(out@) == list_items(lv).take(k as int),
        decreases list@.len() - k,
    {
        match check_columns(&list[k].expr, schema, table) {
            Err(e) => {
                return Err(e);
            },
            Ok(()) => {},
        }
        let ghost prev = out@;
        let it = ProjItem { expr: clone_expr(&list[k].expr), name: output_name_of(&list[k]) };
        out.push(it);
        assert(proj_items_view(out@) =~= proj_items_view(prev).push(it@));
        assert(proj_items_view(out@) =~= list_items(lv).take(k + 1));
        k = k + 1;
    }
    assert(list_items(lv).take(list@.len() as int) =~= list_items(lv));
    Ok(out)
}

/// Plans SELECT against the table's schema (`None`: no such table): a Scan,
/// then Filter, Sort, Projection and Limit as the statement asks, after
/// checking every column it names.
pub fn plan_select(sel: Select, schema: Option<Schema>) -> (r: Result<LogicalPlan, PlanError>)
    ensures
        plan_result_view(r) == spec_plan_select(sel@, schema_opt_view(schema)),
{
    let schema = match schema {
        Some(s) => s,
        None => {
            return Err(unknown_table(sel.from.as_str()));
        },
    };
    let ghost sc = schema@;
    let ghost selv = sel@;
    let ghost names_v = names_of(sc);
    let Select { projection, from, filter, order_by, limit } = sel;
    let names = column_names(&schema);
    let mut node = LogicalPlan::Scan { table: from.clone(), columns: clone_strings(&names) };
    let ghost n0 = LogicalPlanV::Scan { table: selv.from, columns: names_v };
    assert(node@ == n0);
    match filter {
        Some(predicate) => {
            match check_columns(&predicate, &schema, from.as_str()) {
                Err(e) => {
                    return Err(e);
                },
                Ok(()) => {},
            }
            node = LogicalPlan::Filter { predicate, input: Box::new(node) };
        },
        None => {},
    }
    let ghost n1 = match selv.filter {
        Some(p) => LogicalPlanV::Filter { predicate: p, input: Box::new(n0) },
        None => n0,
    };
    assert(node@ == n1);
    assert(!(selv.filter matches Some(p) && expr_problem(p, sc, selv.from) is Some));
    match order_by {
        Some(o) => {
            match schema.column_index(o.column.as_str()) {
                None => {
                    assert(!schema_has(sc, o.column@));
                    return Err(unknown_column(o.column.as_str(), from.as_str()));
                },
                Some(k) => {
                    assert(sc[k as int].name == o.column@);
                },
            }
            node = LogicalPlan::Sort { column: o.column, descending: o.descending, input: Box::new(node) };
        },
        None => {},
    }
    let ghost n2 = match selv.order_by {
        Some(o) => LogicalPlanV::Sort { column: o.column, descending: o.descending, input: Box::new(n1) },
        None => n1,
    };
    assert(node@ == n2);
    assert(!(selv.order_by matches Some(o) && !schema_has(sc, o.column)));
    let items: Vec<ProjItem> = match projection {
        Projection::All => star_proj_items(&names),
        Projection::Items(list) => {
            match list_proj_items(&list, &schema, from.as_str()) {
                Err(e) => {
                    return Err(e);
                },
                Ok(v) => v,
            }
        },
    };
    let ghost items_v = match selv.projection {
        ProjectionV::All => star_items(names_v),
        ProjectionV::Items(list) => list_items(list),
    };
    assert(proj_items_view(items@) == items_v);
    assert(!(selv.projection matches ProjectionV::Items(list) && items_problem(list, sc, selv.from, 0) is Some));
    node = LogicalPlan::Projection { items, input: Box::new(node) };
    let ghost n3 = LogicalPlanV::Projection { items: items_v, input: Box::new(n2) };
    assert(node@ == n3);
    match limit {
        Some(count) => {
            if count < 0 {
                let mut m = string_of("LIMIT must not be negative, got ");
                push_i64(&mut m, count);
                return Err(err(m));
            }
            Ok(LogicalPlan::Limit { count, input: Box::new(node) })
        },
        None => Ok(node),
    }
}

/// Checks that every listed column name is a column of the schema.
fn check_names(names: &Vec<String>, schema: &Schema, table: &str) -> (r: Result<(), PlanError>)
    ensures
        match first_unknown_name(schema@, names_view(names@), 0) {
            Some(k) => r matches Err(e) && e.message@ == msg_unknown_column(names_view(names@)[k], table@),
            None => r is Ok,
        },
{
    let ghost nv = names_view(names@);
    let ghost sc = schema@;
    let mut k: usize = 0;
    while k < names.len()
        invariant
            nv == names_view(names@),
            sc == schema@,
            k <= names@.len(),
            first_unknown_name(sc, nv, 0) == first_unknown_name(sc, nv, k as int),
        decreases names@.len() - k,
    {
        match schema.column_index(names[k].as_str()) {
            None => {
                assert(nv[k as int] == names[k as int]@);
                assert(!schema_has(sc, nv[k as int]));
                return Err(unknown_column(names[k].as_str(), table));
            },
            Some(i) => {
                assert(sc[i as int].name == nv[k as int]);
            },
        }
        k = k + 1;
    }
    Ok(())
}

/// The values in table-column order (see `reorder`).
fn reorder_values(schema: &Schema, names: &Vec<String>, values: &Vec<Literal>) -> (r: Vec<Literal>)
    requires
        names@.len() == values@.len(),
    ensures
        literals_view(r@) == reorder(schema@, names_view(names@), literals_view(values@)),
{
    let ghost nv = names_view(names@);
    let ghost sc = schema@;
    let n = schema.columns.len();
    let mut ordered: Vec<Literal> = Vec::new();
    let mut c: usize = 0;
    while c < n
        invariant
            nv == names_view(names@),
            sc == schema@,
            n == sc.len(),
            names@.len() == values@.len(),
            c <= n,
            literals_view(ordered@) == reorder(sc, nv, literals_view(values@)).take(c as int),
        decreases n - c,
    {
        let mut i: usize = 0;
        let mut found: Option<usize> = None;
        while i < names.len()
            invariant
                nv == names_view(names@),
                sc == schema@,
                c < sc.len(),
                i <= names@.len(),
                found is None ==> name_index(nv, sc[c as int].name, 0) == name_index(nv, sc[c as int].name, i as int),
                found matches Some(f) ==> f < names@.len() && name_index(nv, sc[c as int].name, 0) == Some(f as int),
            decreases names@.len() - i,
        {
            if found.is_none() && str_eq(names[i].as_str(), schema.columns[c].name.as_str()) {
                assert(nv[i as int] == sc[c as int].name);
                found = Some(i);
            }
            i = i + 1;
        }
        let v = match found {
            Some(f) => clone_literal(&values[f]),
            None => Literal::Null,
        };
        let ghost prev = ordered@;
        ordered.push(v);
        assert(literals_view(ordered@) =~= literals_view(prev).push(v@));
        assert(literals_view(ordered@) =~= reorder(sc, nv, literals_view(values@)).take(c + 1));
        c = c + 1;
    }
    assert(reorder(sc, nv, literals_view(values@)).take(n as int) =~= reorder(sc, nv, literals_view(values@)));
    ordered
}

/// Checks that no NULL meets a NOT NULL column.
fn check_not_null(ordered: &Vec<Literal>, schema: &Schema) -> (r: Result<(), PlanError>)
    ensures
        match first_null_violation(literals_view(ordered@), schema@, 0) {
            Some(k) => r matches Err(e) && e.message@ == msg_not_null(schema@[k].name),
            None => r is Ok,
        },
{
    let ghost sc = schema@;
    let n = schema.columns.len();
    let mut k: usize = 0;
    while k < ordered.len()
        invariant
            sc == schema@,
            n == sc.len(),
            k <= ordered@.len(),
            first_null_violation(literals_view(ordered@), sc, 0) == first_null_violation(literals_view(ordered@), sc, k as int),
        decreases ordered@.len() - k,
    {
        if k >= n {
            return Ok(());
        }
        let is_null = match &ordered[k] {
            Literal::Null => true,
            _ => false,
        };
        if is_null && !schema.columns[k].nullable {
            let mut m = string_of("column ");
            quote_into(&mut m, schema.columns[k].name.as_str());
            push_str(&mut m, " is NOT NULL");
            assert(m@ =~= msg_not_null(sc[k as int].name));
            return Err(err(m));
        }
        k = k + 1;
    }
    Ok(())
}

/// Plans INSERT against the table's schema (`None`: no such table). Values
/// are put in table-column order so that execution can insert by position.
pub fn plan_insert(ins: Insert, schema: Option<Schema>) -> (r: Result<LogicalPlan, PlanError>)
    ensures
        plan_result_view(r) == spec_plan_insert(ins@, schema_opt_view(schema)),
{
    let schema = match schema {
        Some(s) => s,
        None => {
            return Err(unknown_table(ins.table.as_str()));
        },
    };
    let ghost sc = schema@;
    let ghost insv = ins@;
    let Insert { table, columns, values } = ins;
    let n = schema.columns.len();
    let ordered: Vec<Literal> = match columns {
        None => {
            if values.len() != n {
                let mut m = string_of("table ");
                quote_into(&mut m, table.as_str());
                push_str(&mut m, " expects ");
                push_usize(&mut m, n);
                push_str(&mut m, " values but got ");
                push_usize(&mut m, values.len());
                assert(m@ =~= msg_expects(table@, n as nat, values@.len()));
                return Err(err(m));
            }
            values
        },
        Some(names) => {
            if names.len() != values.len() {
                let mut m = string_of("got ");
                push_usize(&mut m, names.len());
                push_str(&mut m, " columns but ");
                push_usize(&mut m, values.len());
                push_str(&mut m, " values");
                assert(m@ =~= msg_count(names@.len(), values@.len()));
                return Err(err(m));
            }
            match check_names(&names, &schema, table.as_str()) {
                Err(e) => {
                    return Err(e);
                },
                Ok(()) => {},
            }
            reorder_values(&schema, &names, &values)
        },
    };
    assert(insert_values(insv, sc) == Ok::<Seq<LiteralV>, Seq<char>>(literals_view(ordered@)));
    match check_not_null(&ordered, &schema) {
        Err(e) => {
            return Err(e);
        },
        Ok(()) => {},
    }
    Ok(LogicalPlan::Insert { table, values: ordered })
}

} // verus!
