//! Running a query plan over the rows of its table: filter, sort, project
//! and limit, and the value comparisons they rest on.

use vstd::prelude::*;
use vstd::utf8::*;

use crate::catalog::schema::{Column, ColumnV};
use crate::parser::ast::{ColumnDef, ColumnDefV, CompareOp, DataType, Expr, ExprV, Literal, LiteralV};
use crate::query::{is_length, list_items, name_index, names_of, schema_has, spec_plan_select, star_items};
use crate::query::physical::lower;
use crate::parser::ast::{ProjectionV, SelectV};
use crate::query::plan::LogicalPlanV;
use crate::query::physical::{PhysicalPlan, PhysicalPlanV};
use crate::query::plan::{ProjItem, ProjItemV, proj_items_view, strings_view};
use crate::query::clone_strings;
use crate::text::{eq_ignore_ascii_case, push_str, str_eq, string_of};
use crate::types::{ColumnType, Value, ValueV};

verus! {

/// The columns and rows a query returns.
#[derive(Debug, Clone, PartialEq)]
pub struct ResultSet {
    pub columns: Vec<String>,
    pub rows: Vec<Vec<Value>>,
}

/// What executing a statement gives back.
#[derive(Debug, Clone, PartialEq)]
pub enum QueryResult {
    Select(ResultSet),
    Inserted,
    Created(String),
}

/// The outcome of a three-way comparison.
#[derive(Debug, Clone, Copy, PartialEq, Eq, Structural)]
pub enum Order {
    Less,
    Equal,
    Greater,
}

/// The opposite outcome: what comparing the other way round gives.
pub open spec fn flip(o: Order) -> Order {
    match o {
        Order::Less => Order::Greater,
        Order::Equal => Order::Equal,
        Order::Greater => Order::Less,
    }
}

/// The model of a row.
pub open spec fn row_view(r: Seq<Value>) -> Seq<ValueV> {
    r.map_values(|v: Value| v@)
}

/// The models of rows.
pub open spec fn rows_view(rs: Seq<Vec<Value>>) -> Seq<Seq<ValueV>> {
    rs.map_values(|r: Vec<Value>| row_view(r@))
}

/// The value a literal stands for.
pub open spec fn value_of(l: LiteralV) -> ValueV {
    match l {
        LiteralV::Int(n) => ValueV::Int(n),
        LiteralV::Str(s) => ValueV::Text(s),
        LiteralV::Null => ValueV::Null,
    }
}

/// The table column a column definition describes.
pub open spec fn column_of(c: ColumnDefV) -> ColumnV {
    ColumnV {
        name: c.name,
        ty: match c.ty {
            DataType::Int => ColumnType::Int,
            DataType::Text => ColumnType::Text,
        },
        nullable: c.nullable,
    }
}

/// The value of a literal.
pub fn to_value(l: &Literal) -> (r: Value)
    ensures
        r@ == value_of(l@),
{
    match l {
        Literal::Int(n) => Value::Int(*n),
        Literal::Str(s) => Value::Text(s.clone()),
        Literal::Null => Value::Null,
    }
}

/// The table column of a column definition.
pub fn to_column(c: &ColumnDef) -> (r: Column)
    ensures
        r@ == column_of(c@),
{
    Column {
        name: c.name.clone(),
        ty: match c.ty {
            DataType::Int => ColumnType::Int,
            DataType::Text => ColumnType::Text,
        },
        nullable: c.nullable,
    }
}

/// The name of the file that holds a table.
pub fn table_file(table: &str) -> (r: String)
    ensures
        r@ == table@ + ".tbl"@,
{
    let mut r = string_of(table);
    push_str(&mut r, ".tbl");
    r
}

/// Integers in their usual order.
pub open spec fn int_order(a: i64, b: i64) -> Order {
    if a < b {
        Order::Less
    } else if a == b {
        Order::Equal
    } else {
        Order::Greater
    }
}

/// Byte strings in lexicographic order, from position `i` on.
pub open spec fn byte_order_from(a: Seq<u8>, b: Seq<u8>, i: int) -> Order
    decreases a.len() - i,
{
    if i >= a.len() {
        if i >= b.len() {
            Order::Equal
        } else {
            Order::Less
        }
    } else if i >= b.len() {
        Order::Greater
    } else if a[i] < b[i] {
        Order::Less
    } else if a[i] > b[i] {
        Order::Greater
    } else {
        byte_order_from(a, b, i + 1)
    }
}

/// Text in the order of its UTF-8 bytes, as `String`s compare.
pub open spec fn text_order(a: Seq<char>, b: Seq<char>) -> Order {
    byte_order_from(encode_utf8(a), encode_utf8(b), 0)
}

/// The order of ORDER BY: NULL first, then integers, then text.
pub open spec fn order_of_values(a: ValueV, b: ValueV) -> Order {
    match (a, b) {
        (ValueV::Null, ValueV::Null) => Order::Equal,
        (ValueV::Null, _) => Order::Less,
        (_, ValueV::Null) => Order::Greater,
        (ValueV::Int(x), ValueV::Int(y)) => int_order(x, y),
        (ValueV::Text(x), ValueV::Text(y)) => text_order(x, y),
        (ValueV::Int(_), ValueV::Text(_)) => Order::Less,
        (ValueV::Text(_), ValueV::Int(_)) => Order::Greater,
    }
}

/// A comparison in a WHERE clause. Only two integers or two texts compare;
/// any other pair, NULL among them, makes the comparison false.
pub open spec fn compare_holds(l: ValueV, op: CompareOp, r: ValueV) -> bool {
    let o = match (l, r) {
        (ValueV::Int(a), ValueV::Int(b)) => Some(int_order(a, b)),
        (ValueV::Text(a), ValueV::Text(b)) => Some(text_order(a, b)),
        _ => None,
    };
    match o {
        None => false,
        Some(o) => match op {
            CompareOp::Eq => o == Order::Equal,
            CompareOp::NotEq => o != Order::Equal,
            CompareOp::Lt => o == Order::Less,
            CompareOp::LtEq => o != Order::Greater,
            CompareOp::Gt => o == Order::Greater,
            CompareOp::GtEq => o != Order::Less,
        },
    }
}

proof fn lemma_byte_order_flip(a: Seq<u8>, b: Seq<u8>, i: int)
    requires
        0 <= i,
    ensures
        byte_order_from(b, a, i) == flip(byte_order_from(a, b, i)),
    decreases a.len() - i,
{
    if i < a.len() && i < b.len() && a[i] == b[i] {
        lemma_byte_order_flip(a, b, i + 1);
    }
}

proof fn lemma_byte_order_less_trans(a: Seq<u8>, b: Seq<u8>, c: Seq<u8>, i: int)
    requires
        0 <= i,
        byte_order_from(a, b, i) == Order::Less,
        byte_order_from(b, c, i) == Order::Less,
    ensures
        byte_order_from(a, c, i) == Order::Less,
    decreases a.len() - i,
{
    if i < a.len() && i < b.len() && i < c.len() && a[i] == b[i] && b[i] == c[i] {
        lemma_byte_order_less_trans(a, b, c, i + 1);
    }
}

/// The order of values turned round is the order of the values swapped.
pub proof fn lemma_value_order_flip(a: ValueV, b: ValueV)
    ensures
        order_of_values(b, a) == flip(order_of_values(a, b)),
{
    match (a, b) {
        (ValueV::Text(x), ValueV::Text(y)) => lemma_byte_order_flip(encode_utf8(x), encode_utf8(y), 0),
        _ => {},
    }
}

/// `Less` in the order of values is transitive.
pub proof fn lemma_value_order_less_trans(a: ValueV, b: ValueV, c: ValueV)
    requires
        order_of_values(a, b) == Order::Less,
        order_of_values(b, c) == Order::Less,
    ensures
        order_of_values(a, c) == Order::Less,
{
    match (a, b, c) {
        (ValueV::Text(x), ValueV::Text(y), ValueV::Text(z)) => {
            lemma_byte_order_less_trans(encode_utf8(x), encode_utf8(y), encode_utf8(z), 0);
        },
        _ => {},
    }
}

proof fn lemma_encode_utf8_append(a: Seq<char>, c: Seq<char>)
    ensures
        encode_utf8(a + c) == encode_utf8(a) + encode_utf8(c),
    decreases a.len(),
{
    if a.len() > 0 {
        assert((a + c).drop_first() =~= a.drop_first() + c);
        lemma_encode_utf8_append(a.drop_first(), c);
        assert(encode_utf8(a + c) =~= encode_utf8(a) + encode_utf8(c));
    } else {
        assert(a + c =~= c);
        assert(encode_utf8(a) + encode_utf8(c) =~= encode_utf8(c));
    }
}

proof fn lemma_encode_utf8_nonempty(c: Seq<char>)
    requires
        c.len() > 0,
    ensures
        encode_utf8(c).len() > 0,
{
    encode_utf8_first_scalar(c);
}

proof fn lemma_byte_order_prefix(a: Seq<u8>, b: Seq<u8>, i: int)
    requires
        0 <= i <= a.len(),
        a.len() < b.len(),
        a == b.take(a.len() as int),
    ensures
        byte_order_from(a, b, i) == Order::Less,
    decreases a.len() - i,
{
    if i < a.len() {
        assert(a[i] == b.take(a.len() as int)[i]);
        lemma_byte_order_prefix(a, b, i + 1);
    }
}

proof fn lemma_byte_order_equal(a: Seq<u8>, b: Seq<u8>, i: int)
    requires
        0 <= i <= a.len(),
        i <= b.len(),
        a.subrange(0, i) == b.subrange(0, i),
    ensures
        byte_order_from(a, b, i) == Order::Equal <==> a == b,
    decreases a.len() - i,
{
    if i < a.len() && i < b.len() && a[i] == b[i] {
        assert(a.subrange(0, i + 1) =~= a.subrange(0, i).push(a[i]));
        assert(b.subrange(0, i + 1) =~= b.subrange(0, i).push(b[i]));
        lemma_byte_order_equal(a, b, i + 1);
    } else if i < a.len() && i < b.len() {
        assert(a[i] != b[i]);
    } else if i >= a.len() && i >= b.len() {
        assert(a =~= a.subrange(0, i));
        assert(b =~= b.subrange(0, i));
    } else if i >= a.len() {
        assert(a.len() != b.len());
    } else {
        assert(a.len() != b.len());
    }
}

/// Texts are ordered by their characters' UTF-8 bytes, so a text comes
/// before every longer text that it begins (`"Ann"` before `"Anna"`), and
/// two texts are in order `Equal` exactly when they are the same text.
pub proof fn lemma_text_order_prefix_and_equal(a: Seq<char>, b: Seq<char>)
    ensures
        a.len() < b.len() && a == b.take(a.len() as int) ==> text_order(a, b) == Order::Less
            && text_order(b, a) == Order::Greater,
        text_order(a, b) == Order::Equal <==> a == b,
{
    if a.len() < b.len() && a == b.take(a.len() as int) {
        let c = b.skip(a.len() as int);
        assert(b =~= a + c);
        lemma_encode_utf8_append(a, c);
        lemma_encode_utf8_nonempty(c);
        let ea = encode_utf8(a);
        let eb = encode_utf8(b);
        assert(ea =~= eb.take(ea.len() as int));
        lemma_byte_order_prefix(ea, eb, 0);
        lemma_byte_order_flip(ea, eb, 0);
    }
    assert(encode_utf8(a).subrange(0, 0) =~= encode_utf8(b).subrange(0, 0));
    lemma_byte_order_equal(encode_utf8(a), encode_utf8(b), 0);
    if encode_utf8(a) == encode_utf8(b) {
        encode_utf8_decode_utf8(a);
        encode_utf8_decode_utf8(b);
    }
}

proof fn lemma_byte_order_first_difference(a: Seq<u8>, b: Seq<u8>, i: int, k: int)
    requires
        0 <= i <= k < a.len(),
        k < b.len(),
        forall|j: int| i <= j < k ==> a[j] == b[j],
        a[k] < b[k],
    ensures
        byte_order_from(a, b, i) == Order::Less,
    decreases k - i,
{
    if i < k {
        lemma_byte_order_first_difference(a, b, i + 1, k);
    }
}

/// Texts are ordered by the first UTF-8 byte where they differ: when their
/// encodings agree before byte `k` and `a`'s byte there is smaller, `a`
/// comes first and `b` after.
pub proof fn lemma_text_order_first_difference(a: Seq<char>, b: Seq<char>, k: int)
    requires
        0 <= k < encode_utf8(a).len(),
        k < encode_utf8(b).len(),
        forall|j: int| 0 <= j < k ==> encode_utf8(a)[j] == encode_utf8(b)[j],
        encode_utf8(a)[k] < encode_utf8(b)[k],
    ensures
        text_order(a, b) == Order::Less,
        text_order(b, a) == Order::Greater,
{
    lemma_byte_order_first_difference(encode_utf8(a), encode_utf8(b), 0, k);
    lemma_byte_order_flip(encode_utf8(a), encode_utf8(b), 0);
}

/// What a WHERE comparison of two integers means: each operator is its
/// arithmetic comparison.
pub proof fn lemma_compare_ints(a: i64, b: i64)
    ensures
        compare_holds(ValueV::Int(a), CompareOp::Eq, ValueV::Int(b)) <==> a == b,
        compare_holds(ValueV::Int(a), CompareOp::NotEq, ValueV::Int(b)) <==> a != b,
        compare_holds(ValueV::Int(a), CompareOp::Lt, ValueV::Int(b)) <==> a < b,
        compare_holds(ValueV::Int(a), CompareOp::LtEq, ValueV::Int(b)) <==> a <= b,
        compare_holds(ValueV::Int(a), CompareOp::Gt, ValueV::Int(b)) <==> a > b,
        compare_holds(ValueV::Int(a), CompareOp::GtEq, ValueV::Int(b)) <==> a >= b,
{
}

/// What a WHERE comparison of two texts means: `=` is sameness, `!=` its
/// negation, `<=` is `<` or `=`, `>=` is `>` or `=`, `>` is `<` with the
/// sides swapped, and a text is `<` every longer text that it begins.
pub proof fn lemma_compare_texts(x: Seq<char>, y: Seq<char>)
    ensures
        compare_holds(ValueV::Text(x), CompareOp::Eq, ValueV::Text(y)) <==> x == y,
        compare_holds(ValueV::Text(x), CompareOp::NotEq, ValueV::Text(y)) <==> x != y,
        compare_holds(ValueV::Text(x), CompareOp::LtEq, ValueV::Text(y)) <==> compare_holds(
            ValueV::Text(x),
            CompareOp::Lt,
            ValueV::Text(y),
        ) || x == y,
        compare_holds(ValueV::Text(x), CompareOp::GtEq, ValueV::Text(y)) <==> compare_holds(
            ValueV::Text(x),
            CompareOp::Gt,
            ValueV::Text(y),
        ) || x == y,
        compare_holds(ValueV::Text(x), CompareOp::Gt, ValueV::Text(y)) <==> compare_holds(
            ValueV::Text(y),
            CompareOp::Lt,
            ValueV::Text(x),
        ),
        !(compare_holds(ValueV::Text(x), CompareOp::Lt, ValueV::Text(y)) && compare_holds(
            ValueV::Text(y),
            CompareOp::Lt,
            ValueV::Text(x),
        )),
        x.len() < y.len() && x == y.take(x.len() as int) ==> compare_holds(
            ValueV::Text(x),
            CompareOp::Lt,
            ValueV::Text(y),
        ),
{
    lemma_text_order_prefix_and_equal(x, y);
    lemma_byte_order_flip(encode_utf8(x), encode_utf8(y), 0);
}

/// For any two values, `<=` holds exactly when `<` or `=` holds, and `>=`
/// exactly when `>` or `=` does; values of different kinds, NULL among
/// them, satisfy no comparison.
pub proof fn lemma_compare_relations(a: ValueV, b: ValueV, op: CompareOp)
    ensures
        compare_holds(a, CompareOp::LtEq, b) <==> compare_holds(a, CompareOp::Lt, b) || compare_holds(a, CompareOp::Eq, b),
        compare_holds(a, CompareOp::GtEq, b) <==> compare_holds(a, CompareOp::Gt, b) || compare_holds(a, CompareOp::Eq, b),
        compare_holds(a, CompareOp::Lt, b) ==> !compare_holds(a, CompareOp::Eq, b) && !compare_holds(a, CompareOp::Gt, b),
        !((a is Int && b is Int) || (a is Text && b is Text)) ==> !compare_holds(a, op, b),
{
}

/// Texts compared by their UTF-8 bytes, as `String`s compare.
pub fn text_order_of(a: &str, b: &str) -> (r: Order)
    ensures
        r == text_order(a@, b@),
{
    let x = a.as_bytes();
    let y = b.as_bytes();
    let mut i: usize = 0;
    while i < x.len() && i < y.len()
        invariant
            x@ == encode_utf8(a@),
            y@ == encode_utf8(b@),
            i <= x@.len(),
            i <= y@.len(),
            byte_order_from(x@, y@, 0) == byte_order_from(x@, y@, i as int),
        decreases x@.len() - i,
    {
        if x[i] < y[i] {
            return Order::Less;
        }
        if x[i] > y[i] {
            return Order::Greater;
        }
        i = i + 1;
    }
    if i < x.len() {
        Order::Greater
    } else if i < y.len() {
        Order::Less
    } else {
        Order::Equal
    }
}

fn int_order_of(a: i64, b: i64) -> (r: Order)
    ensures
        r == int_order(a, b),
{
    if a < b {
        Order::Less
    } else if a == b {
        Order::Equal
    } else {
        Order::Greater
    }
}

/// The order of ORDER BY: NULL first, then integers, then text.
pub fn value_order(a: &Value, b: &Value) -> (r: Order)
    ensures
        r == order_of_values(a@, b@),
{
    match (a, b) {
        (Value::Null, Value::Null) => Order::Equal,
        (Value::Null, _) => Order::Less,
        (_, Value::Null) => Order::Greater,
        (Value::Int(x), Value::Int(y)) => int_order_of(*x, *y),
        (Value::Text(x), Value::Text(y)) => text_order_of(x.as_str(), y.as_str()),
        (Value::Int(_), Value::Text(_)) => Order::Less,
        (Value::Text(_), Value::Int(_)) => Order::Greater,
    }
}

/// A comparison in a WHERE clause; false unless both sides are integers or
/// both are texts.
pub fn compare(l: &Value, op: CompareOp, r: &Value) -> (b: bool)
    ensures
        b == compare_holds(l@, op, r@),
{
    let o = match (l, r) {
        (Value::Int(a), Value::Int(b)) => int_order_of(*a, *b),
        (Value::Text(a), Value::Text(b)) => text_order_of(a.as_str(), b.as_str()),
        _ => {
            return false;
        },
    };
    match op {
        CompareOp::Eq => o == Order::Equal,
        CompareOp::NotEq => o != Order::Equal,
        CompareOp::Lt => o == Order::Less,
        CompareOp::LtEq => o != Order::Greater,
        CompareOp::Gt => o == Order::Greater,
        CompareOp::GtEq => o != Order::Less,
    }
}

/// The value of a column reference or literal against a row whose columns
/// are named by `cols`: an unknown column is NULL.
pub open spec fn atom_value(e: ExprV, row: Seq<ValueV>, cols: Seq<Seq<char>>) -> ValueV {
    match e {
        ExprV::Column(c) => match name_index(cols, c, 0) {
            Some(i) => row[i],
            None => ValueV::Null,
        },
        ExprV::Literal(l) => value_of(l),
        _ => ValueV::Null,
    }
}

/// The value of a function call on `arg`: LENGTH of a text is its number of
/// characters; anything else is NULL.
pub open spec fn function_value(name: Seq<char>, arg: ValueV) -> ValueV {
    if is_length(name) && arg is Text {
        ValueV::Int(arg->Text_0.len() as i64)
    } else {
        ValueV::Null
    }
}

/// Whether an expression holds of a row. A column, literal or function call
/// holds when its value is a non-zero integer.
pub open spec fn predicate_holds(e: ExprV, row: Seq<ValueV>, cols: Seq<Seq<char>>) -> bool
    decreases e, 0int,
{
    match e {
        ExprV::And(l, r) => predicate_holds(*l, row, cols) && predicate_holds(*r, row, cols),
        ExprV::Or(l, r) => predicate_holds(*l, row, cols) || predicate_holds(*r, row, cols),
        ExprV::Compare { left, op, right } => compare_holds(
            scalar_value(*left, row, cols),
            op,
            scalar_value(*right, row, cols),
        ),
        ExprV::Function { name, arg } => function_value(name, scalar_value(*arg, row, cols)) matches ValueV::Int(n)
            && n != 0,
        _ => atom_value(e, row, cols) matches ValueV::Int(n) && n != 0,
    }
}

/// The value of an expression for a row; a condition is 1 when it holds and
/// 0 when not.
pub open spec fn scalar_value(e: ExprV, row: Seq<ValueV>, cols: Seq<Seq<char>>) -> ValueV
    decreases e, 1int,
{
    match e {
        ExprV::Column(_) => atom_value(e, row, cols),
        ExprV::Literal(_) => atom_value(e, row, cols),
        ExprV::Function { name, arg } => function_value(name, scalar_value(*arg, row, cols)),
        _ => ValueV::Int(if predicate_holds(e, row, cols) { 1 } else { 0 }),
    }
}

/// Every row has `n` values.
pub open spec fn all_width(rows: Seq<Seq<ValueV>>, n: nat) -> bool {
    forall|i: int| 0 <= i < rows.len() ==> (#[trigger] rows[i]).len() == n
}

/// The position of a column by name; the first one wins.
fn find_column(cols: &Vec<String>, name: &str) -> (r: Option<usize>)
    ensures
        name_index(strings_view(cols@), name@, 0) == match r {
            Some(i) => Some(i as int),
            None => None::<int>,
        },
        r matches Some(i) ==> i < cols@.len(),
{
    let ghost cv = strings_view(cols@);
    let mut i: usize = 0;
    while i < cols.len()
        invariant
            cv == strings_view(cols@),
            i <= cols@.len(),
            name_index(cv, name@, 0) == name_index(cv, name@, i as int),
        decreases cols@.len() - i,
    {
        if str_eq(cols[i].as_str(), name) {
            return Some(i);
        }
        i = i + 1;
    }
    None
}

fn atom(e: &Expr, row: &Vec<Value>, cols: &Vec<String>) -> (r: Value)
    requires
        row@.len() == cols@.len(),
    ensures
        r@ == atom_value(e@, row_view(row@), strings_view(cols@)),
{
    match e {
        Expr::Column(c) => match find_column(cols, c.as_str()) {
            Some(i) => {
                assert(row_view(row@)[i as int] == row@[i as int]@);
                row[i].duplicate()
            },
            None => Value::Null,
        },
        Expr::Literal(l) => to_value(l),
        _ => Value::Null,
    }
}

/// A function call on a value: LENGTH counts the characters of a text;
/// anything else is NULL.
pub fn apply_function(name: &str, arg: Value) -> (r: Value)
    ensures
        r@ == function_value(name@, arg@),
{
    if eq_ignore_ascii_case(name, "LENGTH") {
        match arg {
            Value::Text(s) => {
                let n = s.as_str().unicode_len();
                Value::Int(n as i64)
            },
            _ => Value::Null,
        }
    } else {
        Value::Null
    }
}

/// Whether an expression holds of a row whose columns are named by `cols`.
pub fn eval_predicate(e: &Expr, row: &Vec<Value>, cols: &Vec<String>) -> (r: bool)
    requires
        row@.len() == cols@.len(),
    ensures
        r == predicate_holds(e@, row_view(row@), strings_view(cols@)),
    decreases e, 0int,
{
    match e {
        Expr::And(l, r) => eval_predicate(l, row, cols) && eval_predicate(r, row, cols),
        Expr::Or(l, r) => eval_predicate(l, row, cols) || eval_predicate(r, row, cols),
        Expr::Compare { left, op, right } => {
            let a = eval_scalar(left, row, cols);
            let b = eval_scalar(right, row, cols);
            compare(&a, *op, &b)
        },
        Expr::Function { name, arg } => match apply_function(name.as_str(), eval_scalar(arg, row, cols)) {
            Value::Int(n) => n != 0,
            _ => false,
        },
        _ => match atom(e, row, cols) {
            Value::Int(n) => n != 0,
            _ => false,
        },
    }
}

/// The value of an expression for a row whose columns are named by `cols`.
pub fn eval_scalar(e: &Expr, row: &Vec<Value>, cols: &Vec<String>) -> (r: Value)
    requires
        row@.len() == cols@.len(),
    ensures
        r@ == scalar_value(e@, row_view(row@), strings_view(cols@)),
    decreases e, 1int,
{
    match e {
        Expr::Column(_) => atom(e, row, cols),
        Expr::Literal(_) => atom(e, row, cols),
        Expr::Function { name, arg } => apply_function(name.as_str(), eval_scalar(arg, row, cols)),
        _ => Value::Int(if eval_predicate(e, row, cols) { 1 } else { 0 }),
    }
}

/// The rows for which the predicate holds, in their order.
pub open spec fn filter_rows(rows: Seq<Seq<ValueV>>, p: ExprV, cols: Seq<Seq<char>>) -> Seq<Seq<ValueV>>
    decreases rows.len(),
{
    if rows.len() == 0 {
        rows
    } else {
        let rest = filter_rows(rows.drop_last(), p, cols);
        if predicate_holds(p, rows.last(), cols) {
            rest.push(rows.last())
        } else {
            rest
        }
    }
}

/// The values of the projection items for one row.
pub open spec fn project_row(items: Seq<ProjItemV>, row: Seq<ValueV>, cols: Seq<Seq<char>>) -> Seq<ValueV> {
    Seq::new(items.len(), |k: int| scalar_value(items[k].expr, row, cols))
}

/// Each row replaced by the values of the projection items.
pub open spec fn project_rows(rows: Seq<Seq<ValueV>>, items: Seq<ProjItemV>, cols: Seq<Seq<char>>) -> Seq<Seq<ValueV>> {
    Seq::new(rows.len(), |i: int| project_row(items, rows[i], cols))
}

/// At most `count` rows from the front; a negative count keeps them all.
pub open spec fn limit_rows(rows: Seq<Seq<ValueV>>, count: i64) -> Seq<Seq<ValueV>> {
    if count < 0 || count >= rows.len() {
        rows
    } else {
        rows.take(count as int)
    }
}

/// Row `a` comes strictly before row `b` when sorting on column `idx`.
pub open spec fn goes_before(a: Seq<ValueV>, b: Seq<ValueV>, idx: int, descending: bool) -> bool {
    if descending {
        order_of_values(a[idx], b[idx]) == Order::Greater
    } else {
        order_of_values(a[idx], b[idx]) == Order::Less
    }
}

/// Where a row goes in sorted rows: before the first row from `k` on that
/// it comes strictly before, so that equal rows keep their order.
pub open spec fn insert_pos(sorted: Seq<Seq<ValueV>>, row: Seq<ValueV>, idx: int, descending: bool, k: int) -> int
    decreases sorted.len() - k,
{
    if k < 0 || k >= sorted.len() {
        sorted.len() as int
    } else if goes_before(row, sorted[k], idx, descending) {
        k
    } else {
        insert_pos(sorted, row, idx, descending, k + 1)
    }
}

/// The rows sorted on column `idx`, stably: rows that compare equal keep
/// their order.
pub open spec fn sort_rows(rows: Seq<Seq<ValueV>>, idx: int, descending: bool) -> Seq<Seq<ValueV>>
    decreases rows.len(),
{
    if rows.len() == 0 {
        rows
    } else {
        let s = sort_rows(rows.drop_last(), idx, descending);
        s.insert(insert_pos(s, rows.last(), idx, descending, 0), rows.last())
    }
}

/// The names of projection items.
pub open spec fn item_names(items: Seq<ProjItemV>) -> Seq<Seq<char>> {
    items.map_values(|i: ProjItemV| i.name)
}

/// The names of the columns a plan returns.
pub open spec fn output_columns(p: PhysicalPlanV) -> Seq<Seq<char>>
    decreases p,
{
    match p {
        PhysicalPlanV::TableScanExec { columns, .. } => columns,
        PhysicalPlanV::FilterExec { input, .. } => output_columns(*input),
        PhysicalPlanV::ProjectionExec { items, .. } => item_names(items),
        PhysicalPlanV::SortExec { input, .. } => output_columns(*input),
        PhysicalPlanV::LimitExec { input, .. } => output_columns(*input),
        _ => Seq::empty(),
    }
}

/// The number of columns of the table a plan scans.
pub open spec fn scan_width(p: PhysicalPlanV) -> nat
    decreases p,
{
    match p {
        PhysicalPlanV::TableScanExec { columns, .. } => columns.len(),
        PhysicalPlanV::FilterExec { input, .. } => scan_width(*input),
        PhysicalPlanV::ProjectionExec { input, .. } => scan_width(*input),
        PhysicalPlanV::SortExec { input, .. } => scan_width(*input),
        PhysicalPlanV::LimitExec { input, .. } => scan_width(*input),
        _ => 0,
    }
}

/// A query plan that can run: a chain of operators over one table scan,
/// each sort on a column that its input returns.
pub open spec fn runnable(p: PhysicalPlanV) -> bool
    decreases p,
{
    match p {
        PhysicalPlanV::TableScanExec { .. } => true,
        PhysicalPlanV::FilterExec { input, .. } => runnable(*input),
        PhysicalPlanV::ProjectionExec { input, .. } => runnable(*input),
        PhysicalPlanV::SortExec { column, input, .. } => runnable(*input) && name_index(
            output_columns(*input),
            column,
            0,
        ) is Some,
        PhysicalPlanV::LimitExec { input, .. } => runnable(*input),
        _ => false,
    }
}

/// The rows a plan returns when its table holds `table`.
pub open spec fn query_rows(p: PhysicalPlanV, table: Seq<Seq<ValueV>>) -> Seq<Seq<ValueV>>
    decreases p,
{
    match p {
        PhysicalPlanV::TableScanExec { .. } => table,
        PhysicalPlanV::FilterExec { predicate, input } => filter_rows(
            query_rows(*input, table),
            predicate,
            output_columns(*input),
        ),
        PhysicalPlanV::ProjectionExec { items, input } => project_rows(
            query_rows(*input, table),
            items,
            output_columns(*input),
        ),
        PhysicalPlanV::SortExec { column, descending, input } => sort_rows(
            query_rows(*input, table),
            name_index(output_columns(*input), column, 0)->0,
            descending,
        ),
        PhysicalPlanV::LimitExec { count, input } => limit_rows(query_rows(*input, table), count),
        _ => Seq::empty(),
    }
}

proof fn lemma_filter_width(rows: Seq<Seq<ValueV>>, p: ExprV, cols: Seq<Seq<char>>, n: nat)
    requires
        all_width(rows, n),
    ensures
        all_width(filter_rows(rows, p, cols), n),
    decreases rows.len(),
{
    if rows.len() > 0 {
        lemma_filter_width(rows.drop_last(), p, cols, n);
    }
}

proof fn lemma_insert_pos_bounds(sorted: Seq<Seq<ValueV>>, row: Seq<ValueV>, idx: int, descending: bool, k: int)
    requires
        0 <= k,
    ensures
        0 <= insert_pos(sorted, row, idx, descending, k) <= sorted.len(),
        k <= sorted.len() ==> k <= insert_pos(sorted, row, idx, descending, k),
    decreases sorted.len() - k,
{
    if k < sorted.len() && !goes_before(row, sorted[k], idx, descending) {
        lemma_insert_pos_bounds(sorted, row, idx, descending, k + 1);
    }
}

proof fn lemma_sort_width(rows: Seq<Seq<ValueV>>, idx: int, descending: bool, n: nat)
    requires
        all_width(rows, n),
    ensures
        sort_rows(rows, idx, descending).len() == rows.len(),
        all_width(sort_rows(rows, idx, descending), n),
    decreases rows.len(),
{
    if rows.len() > 0 {
        let s = sort_rows(rows.drop_last(), idx, descending);
        lemma_sort_width(rows.drop_last(), idx, descending, n);
        lemma_insert_pos_bounds(s, rows.last(), idx, descending, 0);
        let r = sort_rows(rows, idx, descending);
        assert forall|i: int| 0 <= i < r.len() implies (#[trigger] r[i]).len() == n by {
            let q = insert_pos(s, rows.last(), idx, descending, 0);
            if i < q {
                assert(r[i] == s[i]);
            } else if i > q {
                assert(r[i] == s[i - 1]);
            }
        }
    }
}

proof fn lemma_query_width(p: PhysicalPlanV, table: Seq<Seq<ValueV>>)
    requires
        runnable(p),
        all_width(table, scan_width(p)),
    ensures
        all_width(query_rows(p, table), output_columns(p).len()),
    decreases p,
{
    match p {
        PhysicalPlanV::FilterExec { predicate, input } => {
            lemma_query_width(*input, table);
            lemma_filter_width(query_rows(*input, table), predicate, output_columns(*input), output_columns(*input).len());
        },
        PhysicalPlanV::ProjectionExec { items, input } => {
            let r = query_rows(p, table);
            assert forall|i: int| 0 <= i < r.len() implies (#[trigger] r[i]).len() == output_columns(p).len() by {}
        },
        PhysicalPlanV::SortExec { column, descending, input } => {
            lemma_query_width(*input, table);
            lemma_sort_width(
                query_rows(*input, table),
                name_index(output_columns(*input), column, 0)->0,
                descending,
                output_columns(*input).len(),
            );
        },
        PhysicalPlanV::LimitExec { count, input } => {
            lemma_query_width(*input, table);
        },
        _ => {},
    }
}

/// A copy of a row.
pub fn copy_row(row: &Vec<Value>) -> (r: Vec<Value>)
    ensures
        row_view(r@) == row_view(row@),
{
    let mut out: Vec<Value> = Vec::new();
    let mut i: usize = 0;
    while i < row.len()
        invariant
            i <= row@.len(),
            row_view(out@) == row_view(row@).take(i as int),
        decreases row@.len() - i,
    {
        let ghost prev = out@;
        let v = row[i].duplicate();
        out.push(v);
        assert(row_view(out@) =~= row_view(prev).push(v@));
        assert(row_view(out@) =~= row_view(row@).take(i + 1));
        i = i + 1;
    }
    assert(row_view(row@).take(row@.len() as int) =~= row_view(row@));
    out
}

/// The rows for which the predicate holds, in their order.
pub fn filter(rows: &Vec<Vec<Value>>, predicate: &Expr, cols: &Vec<String>) -> (r: Vec<Vec<Value>>)
    requires
        all_width(rows_view(rows@), cols@.len()),
    ensures
        rows_view(r@) == filter_rows(rows_view(rows@), predicate@, strings_view(cols@)),
{
    let ghost rv = rows_view(rows@);
    let ghost cv = strings_view(cols@);
    let mut out: Vec<Vec<Value>> = Vec::new();
    let mut i: usize = 0;
    while i < rows.len()
        invariant
            rv == rows_view(rows@),
            cv == strings_view(cols@),
            all_width(rv, cols@.len()),
            i <= rows@.len(),
            rows_view(out@) == filter_rows(rv.take(i as int), predicate@, cv),
        decreases rows@.len() - i,
    {
        assert(rv.take(i + 1).drop_last() =~= rv.take(i as int));
        assert(rv[i as int].len() == cols@.len());
        assert(rv[i as int] == row_view(rows@[i as int]@));
        if eval_predicate(predicate, &rows[i], cols) {
            let ghost prev = out@;
            let row = copy_row(&rows[i]);
            out.push(row);
            assert(rows_view(out@) =~= rows_view(prev).push(row_view(row@)));
        }
        i = i + 1;
    }
    assert(rv.take(rows@.len() as int) =~= rv);
    out
}

/// One row's values of the projection items.
fn project_one(items: &Vec<ProjItem>, row: &Vec<Value>, cols: &Vec<String>) -> (r: Vec<Value>)
    requires
        row@.len() == cols@.len(),
    ensures
        row_view(r@) == project_row(proj_items_view(items@), row_view(row@), strings_view(cols@)),
{
    let ghost target = project_row(proj_items_view(items@), row_view(row@), strings_view(cols@));
    let mut out: Vec<Value> = Vec::new();
    let mut k: usize = 0;
    while k < items.len()
        invariant
            target == project_row(proj_items_view(items@), row_view(row@), strings_view(cols@)),
            row@.len() == cols@.len(),
            k <= items@.len(),
            row_view(out@) == target.take(k as int),
        decreases items@.len() - k,
    {
        let ghost prev = out@;
        let v = eval_scalar(&items[k].expr, row, cols);
        out.push(v);
        assert(row_view(out@) =~= row_view(prev).push(v@));
        assert(row_view(out@) =~= target.take(k + 1));
        k = k + 1;
    }
    assert(target.take(items@.len() as int) =~= target);
    out
}

/// Each row replaced by the values of the projection items.
pub fn project(rows: &Vec<Vec<Value>>, items: &Vec<ProjItem>, cols: &Vec<String>) -> (r: Vec<Vec<Value>>)
    requires
        all_width(rows_view(rows@), cols@.len()),
    ensures
        rows_view(r@) == project_rows(rows_view(rows@), proj_items_view(items@), strings_view(cols@)),
{
    let ghost rv = rows_view(rows@);
    let ghost target = project_rows(rv, proj_items_view(items@), strings_view(cols@));
    let mut out: Vec<Vec<Value>> = Vec::new();
    let mut i: usize = 0;
    while i < rows.len()
        invariant
            rv == rows_view(rows@),
            target == project_rows(rv, proj_items_view(items@), strings_view(cols@)),
            all_width(rv, cols@.len()),
            i <= rows@.len(),
            rows_view(out@) == target.take(i as int),
        decreases rows@.len() - i,
    {
        assert(rv[i as int].len() == cols@.len());
        assert(rv[i as int] == row_view(rows@[i as int]@));
        let ghost prev = out@;
        let row = project_one(items, &rows[i], cols);
        out.push(row);
        assert(rows_view(out@) =~= rows_view(prev).push(row_view(row@)));
        assert(rows_view(out@) =~= target.take(i + 1));
        i = i + 1;
    }
    assert(target.take(rows@.len() as int) =~= target);
    out
}

/// Row `a` comes strictly before row `b` when sorting on column `idx`.
fn row_goes_before(a: &Vec<Value>, b: &Vec<Value>, idx: usize, descending: bool) -> (r: bool)
    requires
        idx < a@.len(),
        idx < b@.len(),
    ensures
        r == goes_before(row_view(a@), row_view(b@), idx as int, descending),
{
    let o = value_order(&a[idx], &b[idx]);
    if descending {
        o == Order::Greater
    } else {
        o == Order::Less
    }
}

/// The rows sorted on column `idx`, stably.
pub fn sort(rows: &Vec<Vec<Value>>, idx: usize, descending: bool) -> (r: Vec<Vec<Value>>)
    requires
        forall|i: int| 0 <= i < rows@.len() ==> idx < (#[trigger] rows@[i])@.len(),
    ensures
        rows_view(r@) == sort_rows(rows_view(rows@), idx as int, descending),
{
    let ghost rv = rows_view(rows@);
    let mut out: Vec<Vec<Value>> = Vec::new();
    let mut i: usize = 0;
    while i < rows.len()
        invariant
            rv == rows_view(rows@),
            forall|j: int| 0 <= j < rows@.len() ==> idx < (#[trigger] rows@[j])@.len(),
            forall|j: int| 0 <= j < out@.len() ==> idx < (#[trigger] out@[j])@.len(),
            i <= rows@.len(),
            rows_view(out@) == sort_rows(rv.take(i as int), idx as int, descending),
        decreases rows@.len() - i,
    {
        assert(rv.take(i + 1).drop_last() =~= rv.take(i as int));
        let ghost sv = rows_view(out@);
        let mut k: usize = 0;
        while k < out.len()
            invariant
                sv == rows_view(out@),
                forall|j: int| 0 <= j < out@.len() ==> idx < (#[trigger] out@[j])@.len(),
                idx < rows@[i as int]@.len(),
                i < rows@.len(),
                k <= out@.len(),
                insert_pos(sv, rv[i as int], idx as int, descending, 0)
                    == insert_pos(sv, rv[i as int], idx as int, descending, k as int),
                rv == rows_view(rows@),
            ensures
                k <= out@.len(),
                insert_pos(sv, rv[i as int], idx as int, descending, 0) == k as int,
            decreases out@.len() - k,
        {
            proof {
                assert(sv[k as int] == row_view(out@[k as int]@));
                assert(rv[i as int] == row_view(rows@[i as int]@));
            }
            if row_goes_before(&rows[i], &out[k], idx, descending) {
                break;
            }
            k = k + 1;
        }
        let row = copy_row(&rows[i]);
        assert(row@.len() == row_view(row@).len());
        let ghost prev = out@;
        out.insert(k, row);
        assert(rows_view(out@) =~= sv.insert(k as int, row_view(row@)));
        assert forall|j: int| 0 <= j < out@.len() implies idx < (#[trigger] out@[j])@.len() by {
            if j < k {
                assert(out@[j] == prev[j]);
            } else if j > k {
                assert(out@[j] == prev[j - 1]);
            }
        }
        i = i + 1;
    }
    assert(rv.take(rows@.len() as int) =~= rv);
    out
}

/// At most `count` rows from the front; a negative count keeps them all.
pub fn limit(rows: Vec<Vec<Value>>, count: i64) -> (r: Vec<Vec<Value>>)
    ensures
        rows_view(r@) == limit_rows(rows_view(rows@), count),
{
    let mut rows = rows;
    if count >= 0 && (count as u64) < (rows.len() as u64) {
        let ghost before = rows@;
        rows.truncate(count as usize);
        assert(rows_view(rows@) =~= rows_view(before).take(count as int));
    }
    rows
}

fn names_of_items(items: &Vec<ProjItem>) -> (r: Vec<String>)
    ensures
        strings_view(r@) == item_names(proj_items_view(items@)),
{
    let ghost target = item_names(proj_items_view(items@));
    let mut out: Vec<String> = Vec::new();
    let mut k: usize = 0;
    while k < items.len()
        invariant
            target == item_names(proj_items_view(items@)),
            k <= items@.len(),
            strings_view(out@) == target.take(k as int),
        decreases items@.len() - k,
    {
        let ghost prev = out@;
        let t = items[k].name.clone();
        out.push(t);
        assert(strings_view(out@) =~= strings_view(prev).push(t@));
        assert(strings_view(out@) =~= target.take(k + 1));
        k = k + 1;
    }
    assert(target.take(items@.len() as int) =~= target);
    out
}

fn run(plan: &PhysicalPlan, table: Vec<Vec<Value>>) -> (r: (Vec<String>, Vec<Vec<Value>>))
    requires
        runnable(plan@),
        all_width(rows_view(table@), scan_width(plan@)),
    ensures
        strings_view(r.0@) == output_columns(plan@),
        rows_view(r.1@) == query_rows(plan@, rows_view(table@)),
    decreases plan,
{
    proof {
        lemma_query_width(plan@, rows_view(table@));
    }
    match plan {
        PhysicalPlan::TableScanExec { columns, .. } => (clone_strings(columns), table),
        PhysicalPlan::FilterExec { predicate, input } => {
            proof {
                lemma_query_width((**input)@, rows_view(table@));
            }
            let (cols, rows) = run(input, table);
            let out = filter(&rows, predicate, &cols);
            (cols, out)
        },
        PhysicalPlan::ProjectionExec { items, input } => {
            proof {
                lemma_query_width((**input)@, rows_view(table@));
            }
            let (cols, rows) = run(input, table);
            let out = project(&rows, items, &cols);
            (names_of_items(items), out)
        },
        PhysicalPlan::SortExec { column, descending, input } => {
            proof {
                lemma_query_width((**input)@, rows_view(table@));
            }
            let (cols, rows) = run(input, table);
            match find_column(&cols, column.as_str()) {
                Some(idx) => {
                    assert forall|j: int| 0 <= j < rows@.len() implies idx < (#[trigger] rows@[j])@.len() by {
                        assert(rows_view(rows@)[j] == row_view(rows@[j]@));
                    }
                    let out = sort(&rows, idx, *descending);
                    (cols, out)
                },
                None => (cols, rows),
            }
        },
        PhysicalPlan::LimitExec { count, input } => {
            let (cols, rows) = run(input, table);
            (cols, limit(rows, *count))
        },
        _ => (Vec::new(), Vec::new()),
    }
}

/// Runs a query plan over the rows of the table it scans: the rows pass
/// through filter, sort, projection and limit as the plan says.
pub fn evaluate(plan: &PhysicalPlan, table: Vec<Vec<Value>>) -> (r: ResultSet)
    requires
        runnable(plan@),
        all_width(rows_view(table@), scan_width(plan@)),
    ensures
        strings_view(r.columns@) == output_columns(plan@),
        rows_view(r.rows@) == query_rows(plan@, rows_view(table@)),
{
    let (columns, rows) = run(plan, table);
    ResultSet { columns, rows }
}

/// No row comes strictly before an earlier one.
pub open spec fn rows_sorted(rows: Seq<Seq<ValueV>>, idx: int, descending: bool) -> bool {
    forall|i: int, j: int| 0 <= i < j < rows.len() ==> !goes_before(#[trigger] rows[j], #[trigger] rows[i], idx, descending)
}

proof fn lemma_goes_before_asym(a: Seq<ValueV>, b: Seq<ValueV>, idx: int, descending: bool)
    requires
        goes_before(a, b, idx, descending),
    ensures
        !goes_before(b, a, idx, descending),
{
    lemma_value_order_flip(a[idx], b[idx]);
}

proof fn lemma_goes_before_trans(a: Seq<ValueV>, b: Seq<ValueV>, c: Seq<ValueV>, idx: int, descending: bool)
    requires
        goes_before(a, b, idx, descending),
        goes_before(b, c, idx, descending),
    ensures
        goes_before(a, c, idx, descending),
{
    if descending {
        lemma_value_order_flip(a[idx], b[idx]);
        lemma_value_order_flip(b[idx], c[idx]);
        lemma_value_order_less_trans(c[idx], b[idx], a[idx]);
        lemma_value_order_flip(c[idx], a[idx]);
    } else {
        lemma_value_order_less_trans(a[idx], b[idx], c[idx]);
    }
}

proof fn lemma_insert_pos_props(sorted: Seq<Seq<ValueV>>, row: Seq<ValueV>, idx: int, descending: bool, k: int)
    requires
        0 <= k <= sorted.len(),
    ensures
        forall|m: int| k <= m < insert_pos(sorted, row, idx, descending, k) ==> !goes_before(row, #[trigger] sorted[m], idx, descending),
        insert_pos(sorted, row, idx, descending, k) < sorted.len() ==> goes_before(
            row,
            sorted[insert_pos(sorted, row, idx, descending, k)],
            idx,
            descending,
        ),
    decreases sorted.len() - k,
{
    if k < sorted.len() && !goes_before(row, sorted[k], idx, descending) {
        lemma_insert_pos_props(sorted, row, idx, descending, k + 1);
    }
}

/// ORDER BY sorts: in the rows it returns, no row comes strictly before an
/// earlier one.
pub proof fn lemma_sort_rows_sorted(rows: Seq<Seq<ValueV>>, idx: int, descending: bool)
    ensures
        rows_sorted(sort_rows(rows, idx, descending), idx, descending),
    decreases rows.len(),
{
    if rows.len() > 0 {
        let s = sort_rows(rows.drop_last(), idx, descending);
        let x = rows.last();
        lemma_sort_rows_sorted(rows.drop_last(), idx, descending);
        lemma_insert_pos_bounds(s, x, idx, descending, 0);
        lemma_insert_pos_props(s, x, idx, descending, 0);
        let q = insert_pos(s, x, idx, descending, 0);
        let r = s.insert(q, x);
        assert forall|i: int, j: int| 0 <= i < j < r.len() implies !goes_before(#[trigger] r[j], #[trigger] r[i], idx, descending) by {
            if j < q {
                assert(r[i] == s[i] && r[j] == s[j]);
            } else if j == q {
                assert(r[i] == s[i]);
            } else if i < q {
                assert(r[i] == s[i] && r[j] == s[j - 1]);
            } else if i == q {
                assert(r[j] == s[j - 1]);
                if goes_before(s[j - 1], x, idx, descending) {
                    lemma_goes_before_trans(s[j - 1], x, s[q], idx, descending);
                    if j - 1 == q {
                        lemma_goes_before_asym(s[q], s[q], idx, descending);
                    }
                }
            } else {
                assert(r[i] == s[i - 1] && r[j] == s[j - 1]);
            }
        }
    }
}

proof fn lemma_insert_to_multiset(s: Seq<Seq<ValueV>>, q: int, x: Seq<ValueV>)
    requires
        0 <= q <= s.len(),
    ensures
        s.insert(q, x).to_multiset() =~= s.to_multiset().insert(x),
{
    broadcast use vstd::seq_lib::group_to_multiset_ensures;
    let t = s.insert(q, x);
    assert(t.remove(q) =~= s);
    assert(t[q] == x);
    assert(t.contains(x));
    assert(s.to_multiset() == t.to_multiset().remove(x));
}

/// ORDER BY keeps every row: the rows it returns are the rows it was given,
/// each as often.
pub proof fn lemma_sort_rows_permutation(rows: Seq<Seq<ValueV>>, idx: int, descending: bool)
    ensures
        sort_rows(rows, idx, descending).to_multiset() =~= rows.to_multiset(),
    decreases rows.len(),
{
    broadcast use vstd::seq_lib::group_to_multiset_ensures;
    if rows.len() > 0 {
        let s = sort_rows(rows.drop_last(), idx, descending);
        lemma_sort_rows_permutation(rows.drop_last(), idx, descending);
        lemma_insert_pos_bounds(s, rows.last(), idx, descending, 0);
        lemma_insert_to_multiset(s, insert_pos(s, rows.last(), idx, descending, 0), rows.last());
        assert(rows.drop_last().push(rows.last()) =~= rows);
    } else {
        assert(sort_rows(rows, idx, descending) == rows);
    }
}

/// WHERE keeps exactly the rows for which the predicate holds, in their
/// order.
pub proof fn lemma_filter_rows_is_filter(rows: Seq<Seq<ValueV>>, p: ExprV, cols: Seq<Seq<char>>)
    ensures
        filter_rows(rows, p, cols) == rows.filter(|r: Seq<ValueV>| predicate_holds(p, r, cols)),
    decreases rows.len(),
{
    reveal(Seq::filter);
    if rows.len() > 0 {
        lemma_filter_rows_is_filter(rows.drop_last(), p, cols);
    }
}

/// LIMIT n returns the first n rows, or all of them when there are fewer or
/// n is negative.
pub proof fn lemma_limit_rows_prefix(rows: Seq<Seq<ValueV>>, count: i64)
    ensures
        limit_rows(rows, count).len() == if 0 <= count < rows.len() { count as int } else { rows.len() as int },
        limit_rows(rows, count) =~= rows.take(limit_rows(rows, count).len() as int),
{
}

/// The table a query plan scans.
pub open spec fn scanned_table(p: PhysicalPlanV) -> Option<Seq<char>>
    decreases p,
{
    match p {
        PhysicalPlanV::TableScanExec { table, .. } => Some(table),
        PhysicalPlanV::FilterExec { input, .. } => scanned_table(*input),
        PhysicalPlanV::ProjectionExec { input, .. } => scanned_table(*input),
        PhysicalPlanV::SortExec { input, .. } => scanned_table(*input),
        PhysicalPlanV::LimitExec { input, .. } => scanned_table(*input),
        _ => None,
    }
}

/// The table a query plan scans; `None` for CREATE TABLE and INSERT.
pub fn scan_table(plan: &PhysicalPlan) -> (r: Option<&str>)
    ensures
        match scanned_table(plan@) {
            Some(t) => r matches Some(s) && s@ == t,
            None => r is None,
        },
    decreases plan,
{
    match plan {
        PhysicalPlan::TableScanExec { table, .. } => Some(table.as_str()),
        PhysicalPlan::FilterExec { input, .. } => scan_table(input),
        PhysicalPlan::ProjectionExec { input, .. } => scan_table(input),
        PhysicalPlan::SortExec { input, .. } => scan_table(input),
        PhysicalPlan::LimitExec { input, .. } => scan_table(input),
        _ => None,
    }
}

fn output_names(plan: &PhysicalPlan) -> (r: Vec<String>)
    ensures
        strings_view(r@) == output_columns(plan@),
    decreases plan,
{
    match plan {
        PhysicalPlan::TableScanExec { columns, .. } => clone_strings(columns),
        PhysicalPlan::FilterExec { input, .. } => output_names(input),
        PhysicalPlan::ProjectionExec { items, .. } => names_of_items(items),
        PhysicalPlan::SortExec { input, .. } => output_names(input),
        PhysicalPlan::LimitExec { input, .. } => output_names(input),
        _ => Vec::new(),
    }
}

/// Whether a plan can run (see `runnable`): a chain of operators over a
/// table scan, each sort on a column its input returns.
pub fn is_runnable(plan: &PhysicalPlan) -> (r: bool)
    ensures
        r == runnable(plan@),
    decreases plan,
{
    match plan {
        PhysicalPlan::TableScanExec { .. } => true,
        PhysicalPlan::FilterExec { input, .. } => is_runnable(input),
        PhysicalPlan::ProjectionExec { input, .. } => is_runnable(input),
        PhysicalPlan::SortExec { column, input, .. } => {
            if !is_runnable(input) {
                return false;
            }
            let cols = output_names(input);
            find_column(&cols, column.as_str()).is_some()
        },
        PhysicalPlan::LimitExec { input, .. } => is_runnable(input),
        _ => false,
    }
}

/// The number of columns of the table a plan scans.
pub fn scan_width_of(plan: &PhysicalPlan) -> (r: usize)
    ensures
        r == scan_width(plan@),
    decreases plan,
{
    match plan {
        PhysicalPlan::TableScanExec { columns, .. } => columns.len(),
        PhysicalPlan::FilterExec { input, .. } => scan_width_of(input),
        PhysicalPlan::ProjectionExec { input, .. } => scan_width_of(input),
        PhysicalPlan::SortExec { input, .. } => scan_width_of(input),
        PhysicalPlan::LimitExec { input, .. } => scan_width_of(input),
        _ => 0,
    }
}

proof fn lemma_name_index_found(names: Seq<Seq<char>>, c: Seq<char>, i: int, k: int)
    requires
        0 <= i <= k < names.len(),
        names[k] == c,
    ensures
        name_index(names, c, i) is Some,
    decreases k - i,
{
    if names[i] != c {
        lemma_name_index_found(names, c, i + 1, k);
    }
}

/// Every SELECT the planner accepts can run: its physical plan is a chain
/// of operators over a scan of the table's columns, and its sort column is
/// one the scan returns.
pub proof fn lemma_planned_select_runs(sel: SelectV, sc: Seq<ColumnV>)
    requires
        spec_plan_select(sel, Some(sc)) is Ok,
    ensures
        runnable(lower(spec_plan_select(sel, Some(sc))->Ok_0)),
        scan_width(lower(spec_plan_select(sel, Some(sc))->Ok_0)) == sc.len(),
{
    let names = names_of(sc);
    let scan = LogicalPlanV::Scan { table: sel.from, columns: names };
    let n1 = match sel.filter {
        Some(p) => LogicalPlanV::Filter { predicate: p, input: Box::new(scan) },
        None => scan,
    };
    assert(runnable(lower(scan)) && scan_width(lower(scan)) == sc.len() && output_columns(lower(scan)) == names);
    assert(runnable(lower(n1)) && scan_width(lower(n1)) == sc.len() && output_columns(lower(n1)) == names);
    let n2 = match sel.order_by {
        Some(o) => LogicalPlanV::Sort { column: o.column, descending: o.descending, input: Box::new(n1) },
        None => n1,
    };
    if let Some(o) = sel.order_by {
        assert(schema_has(sc, o.column));
        let k = choose|k: int| 0 <= k < sc.len() && #[trigger] sc[k].name == o.column;
        assert(names[k] == o.column);
        lemma_name_index_found(names, o.column, 0, k);
    }
    assert(runnable(lower(n2)) && scan_width(lower(n2)) == sc.len());
    let items = match sel.projection {
        ProjectionV::All => star_items(names),
        ProjectionV::Items(list) => list_items(list),
    };
    let n3 = LogicalPlanV::Projection { items, input: Box::new(n2) };
    assert(runnable(lower(n3)) && scan_width(lower(n3)) == sc.len());
    if let Some(n) = sel.limit {
        let n4 = LogicalPlanV::Limit { count: n, input: Box::new(n3) };
        assert(runnable(lower(n4)) && scan_width(lower(n4)) == sc.len());
    }
}

} // verus!
