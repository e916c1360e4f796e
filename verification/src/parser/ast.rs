use vstd::prelude::*;

verus! {

/// A column type as written in `CREATE TABLE`.
#[derive(Debug, Clone, Copy, PartialEq, Eq, Structural)]
pub enum DataType {
    Int,
    Text,
}

/// A comparison operator.
#[derive(Debug, Clone, Copy, PartialEq, Eq, Structural)]
pub enum CompareOp {
    Eq,
    NotEq,
    Lt,
    LtEq,
    Gt,
    GtEq,
}

/// A literal value.
#[derive(Debug, Clone, PartialEq, Eq)]
pub enum Literal {
    Int(i64),
    Str(String),
    Null,
}

/// The model of a literal.
pub ghost enum LiteralV {
    Int(i64),
    Str(Seq<char>),
    Null,
}

impl View for Literal {
    type V = LiteralV;

    open spec fn view(&self) -> LiteralV {
        match self {
            Literal::Int(n) => LiteralV::Int(*n),
            Literal::Str(s) => LiteralV::Str(s@),
            Literal::Null => LiteralV::Null,
        }
    }
}

/// An expression: column references, literals and function calls such as
/// `LENGTH(name)`, compared and combined with AND and OR.
#[derive(Debug, PartialEq, Eq)]
pub enum Expr {
    Column(String),
    Literal(Literal),
    Function { name: String, arg: Box<Expr> },
    Compare { left: Box<Expr>, op: CompareOp, right: Box<Expr> },
    And(Box<Expr>, Box<Expr>),
    Or(Box<Expr>, Box<Expr>),
}

/// The model of an expression.
pub ghost enum ExprV {
    Column(Seq<char>),
    Literal(LiteralV),
    Function { name: Seq<char>, arg: Box<ExprV> },
    Compare { left: Box<ExprV>, op: CompareOp, right: Box<ExprV> },
    And(Box<ExprV>, Box<ExprV>),
    Or(Box<ExprV>, Box<ExprV>),
}

impl View for Expr {
    type V = ExprV;

    open spec fn view(&self) -> ExprV
        decreases self,
    {
        match self {
            Expr::Column(c) => ExprV::Column(c@),
            Expr::Literal(l) => ExprV::Literal(l@),
            Expr::Function { name, arg } => ExprV::Function { name: name@, arg: Box::new((**arg).view()) },
            Expr::Compare { left, op, right } => ExprV::Compare {
                left: Box::new((**left).view()),
                op: *op,
                right: Box::new((**right).view()),
            },
            Expr::And(l, r) => ExprV::And(Box::new((**l).view()), Box::new((**r).view())),
            Expr::Or(l, r) => ExprV::Or(Box::new((**l).view()), Box::new((**r).view())),
        }
    }
}

/// A column definition of `CREATE TABLE`.
#[derive(Debug, Clone, PartialEq, Eq)]
pub struct ColumnDef {
    pub name: String,
    pub ty: DataType,
    pub nullable: bool,
}

/// The model of a column definition.
pub ghost struct ColumnDefV {
    pub name: Seq<char>,
    pub ty: DataType,
    pub nullable: bool,
}

impl View for ColumnDef {
    type V = ColumnDefV;

    open spec fn view(&self) -> ColumnDefV {
        ColumnDefV { name: self.name@, ty: self.ty, nullable: self.nullable }
    }
}

/// `CREATE TABLE table (columns)`.
#[derive(Debug, Clone, PartialEq, Eq)]
pub struct CreateTable {
    pub table: String,
    pub columns: Vec<ColumnDef>,
}

/// The model of a `CREATE TABLE` statement.
pub ghost struct CreateTableV {
    pub table: Seq<char>,
    pub columns: Seq<ColumnDefV>,
}

impl View for CreateTable {
    type V = CreateTableV;

    open spec fn view(&self) -> CreateTableV {
        CreateTableV { table: self.table@, columns: self.columns@.map_values(|c: ColumnDef| c@) }
    }
}

/// The models of a list of names.
pub open spec fn names_view(v: Seq<String>) -> Seq<Seq<char>> {
    v.map_values(|s: String| s@)
}

/// The models of a list of literals.
pub open spec fn literals_view(v: Seq<Literal>) -> Seq<LiteralV> {
    v.map_values(|l: Literal| l@)
}

/// `INSERT INTO table [(columns)] VALUES (values)`.
#[derive(Debug, Clone, PartialEq, Eq)]
pub struct Insert {
    pub table: String,
    pub columns: Option<Vec<String>>,
    pub values: Vec<Literal>,
}

/// The model of an `INSERT` statement.
pub ghost struct InsertV {
    pub table: Seq<char>,
    pub columns: Option<Seq<Seq<char>>>,
    pub values: Seq<LiteralV>,
}

impl View for Insert {
    type V = InsertV;

    open spec fn view(&self) -> InsertV {
        InsertV {
            table: self.table@,
            columns: match self.columns {
                Some(v) => Some(names_view(v@)),
                None => None,
            },
            values: literals_view(self.values@),
        }
    }
}

/// An item of a SELECT list with its optional alias.
#[derive(Debug, PartialEq, Eq)]
pub struct SelectItem {
    pub expr: Expr,
    pub alias: Option<String>,
}

/// The model of a select item.
pub ghost struct SelectItemV {
    pub expr: ExprV,
    pub alias: Option<Seq<char>>,
}

impl View for SelectItem {
    type V = SelectItemV;

    open spec fn view(&self) -> SelectItemV {
        SelectItemV {
            expr: self.expr@,
            alias: match self.alias {
                Some(a) => Some(a@),
                None => None,
            },
        }
    }
}

/// The models of select items.
pub open spec fn items_view(v: Seq<SelectItem>) -> Seq<SelectItemV> {
    v.map_values(|i: SelectItem| i@)
}

/// `*` or a list of items.
#[derive(Debug, PartialEq, Eq)]
pub enum Projection {
    All,
    Items(Vec<SelectItem>),
}

/// The model of a projection.
pub ghost enum ProjectionV {
    All,
    Items(Seq<SelectItemV>),
}

impl View for Projection {
    type V = ProjectionV;

    open spec fn view(&self) -> ProjectionV {
        match self {
            Projection::All => ProjectionV::All,
            Projection::Items(v) => ProjectionV::Items(items_view(v@)),
        }
    }
}

/// `ORDER BY column [ASC|DESC]`.
#[derive(Debug, Clone, PartialEq, Eq)]
pub struct OrderBy {
    pub column: String,
    pub descending: bool,
}

/// The model of an ORDER BY clause.
pub ghost struct OrderByV {
    pub column: Seq<char>,
    pub descending: bool,
}

impl View for OrderBy {
    type V = OrderByV;

    open spec fn view(&self) -> OrderByV {
        OrderByV { column: self.column@, descending: self.descending }
    }
}

/// `SELECT projection FROM table [WHERE expr] [ORDER BY ..] [LIMIT n]`.
#[derive(Debug, PartialEq, Eq)]
pub struct Select {
    pub projection: Projection,
    pub from: String,
    pub filter: Option<Expr>,
    pub order_by: Option<OrderBy>,
    pub limit: Option<i64>,
}

/// The model of a SELECT statement.
pub ghost struct SelectV {
    pub projection: ProjectionV,
    pub from: Seq<char>,
    pub filter: Option<ExprV>,
    pub order_by: Option<OrderByV>,
    pub limit: Option<i64>,
}

impl View for Select {
    type V = SelectV;

    open spec fn view(&self) -> SelectV {
        SelectV {
            projection: self.projection@,
            from: self.from@,
            filter: match self.filter {
                Some(e) => Some(e@),
                None => None,
            },
            order_by: match self.order_by {
                Some(o) => Some(o@),
                None => None,
            },
            limit: self.limit,
        }
    }
}

/// A statement of the SQL subset.
#[derive(Debug, PartialEq, Eq)]
pub enum Statement {
    CreateTable(CreateTable),
    Insert(Insert),
    Select(Select),
}

/// The model of a statement.
pub ghost enum StatementV {
    CreateTable(CreateTableV),
    Insert(InsertV),
    Select(SelectV),
}

impl View for Statement {
    type V = StatementV;

    open spec fn view(&self) -> StatementV {
        match self {
            Statement::CreateTable(c) => StatementV::CreateTable(c@),
            Statement::Insert(i) => StatementV::Insert(i@),
            Statement::Select(s) => StatementV::Select(s@),
        }
    }
}

} // verus!
