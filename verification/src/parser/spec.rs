//! What the parser computes, over the token sequence: one function per
//! grammar rule, each giving the parsed value and the position after it, or
//! the error at the first token that does not fit.
use vstd::prelude::*;

use crate::parser::ast::{
    ColumnDefV, CompareOp, CreateTableV, DataType, ExprV, InsertV, LiteralV, OrderByV, ProjectionV,
    SelectItemV, SelectV, StatementV,
};
use crate::parser::lexer::{ParseErrorV, TokenKindV, TokenV, spec_tokenize};
use crate::query::plan::op_text;
use crate::text::{decimal, str_ci_eq};

verus! {

/// The position after advancing once; the last token is never passed.
pub open spec fn adv(ts: Seq<TokenV>, p: int) -> int {
    if p + 1 < ts.len() {
        p + 1
    } else {
        p
    }
}

/// The token at `p` is the keyword `kw`, in any ASCII case.
pub open spec fn kw_at(ts: Seq<TokenV>, p: int, kw: Seq<char>) -> bool {
    ts[p].kind matches TokenKindV::Ident(s) && str_ci_eq(s, kw)
}

/// How an error message names a token.
#[verifier::opaque]
pub open spec fn describe(k: TokenKindV) -> Seq<char> {
    match k {
        TokenKindV::Ident(s) => "\""@ + s + "\""@,
        TokenKindV::Int(n) => decimal(n as int),
        TokenKindV::Str(s) => "'"@ + s + "'"@,
        TokenKindV::Star => "'*'"@,
        TokenKindV::Comma => "','"@,
        TokenKindV::Semicolon => "';'"@,
        TokenKindV::LParen => "'('"@,
        TokenKindV::RParen => "')'"@,
        TokenKindV::Eq => "'='"@,
        TokenKindV::NotEq => "'!='"@,
        TokenKindV::Lt => "'<'"@,
        TokenKindV::LtEq => "'<='"@,
        TokenKindV::Gt => "'>'"@,
        TokenKindV::GtEq => "'>='"@,
        TokenKindV::Eof => "end of input"@,
    }
}

/// The error at token `p`: the message, then the token found there.
pub open spec fn error_at(ts: Seq<TokenV>, p: int, msg: Seq<char>) -> ParseErrorV {
    ParseErrorV { message: msg + ", found "@ + describe(ts[p].kind), pos: ts[p].pos }
}

/// "expected what" at token `p`.
pub open spec fn expected(ts: Seq<TokenV>, p: int, what: Seq<char>) -> ParseErrorV {
    error_at(ts, p, "expected "@ + what)
}

/// The keywords, which cannot name a table or column reference.
pub open spec fn is_reserved(w: Seq<char>) -> bool {
    ||| str_ci_eq(w, "SELECT"@)
    ||| str_ci_eq(w, "FROM"@)
    ||| str_ci_eq(w, "WHERE"@)
    ||| str_ci_eq(w, "ORDER"@)
    ||| str_ci_eq(w, "BY"@)
    ||| str_ci_eq(w, "LIMIT"@)
    ||| str_ci_eq(w, "AND"@)
    ||| str_ci_eq(w, "OR"@)
    ||| str_ci_eq(w, "NOT"@)
    ||| str_ci_eq(w, "NULL"@)
    ||| str_ci_eq(w, "ASC"@)
    ||| str_ci_eq(w, "DESC"@)
    ||| str_ci_eq(w, "INSERT"@)
    ||| str_ci_eq(w, "INTO"@)
    ||| str_ci_eq(w, "VALUES"@)
    ||| str_ci_eq(w, "CREATE"@)
    ||| str_ci_eq(w, "TABLE"@)
    ||| str_ci_eq(w, "INT"@)
    ||| str_ci_eq(w, "TEXT"@)
    ||| str_ci_eq(w, "AS"@)
}

/// The keyword `kw` must stand at `p`.
pub open spec fn spec_expect_keyword(ts: Seq<TokenV>, p: int, kw: Seq<char>) -> Result<int, ParseErrorV> {
    if kw_at(ts, p, kw) {
        Ok(adv(ts, p))
    } else {
        Err(expected(ts, p, kw))
    }
}

/// The token kind `k` must stand at `p`.
pub open spec fn spec_expect(ts: Seq<TokenV>, p: int, k: TokenKindV, what: Seq<char>) -> Result<int, ParseErrorV> {
    if ts[p].kind == k {
        Ok(adv(ts, p))
    } else {
        Err(expected(ts, p, what))
    }
}

/// Any identifier at `p`.
pub open spec fn spec_expect_ident(ts: Seq<TokenV>, p: int, what: Seq<char>) -> Result<(Seq<char>, int), ParseErrorV> {
    match ts[p].kind {
        TokenKindV::Ident(s) => Ok((s, adv(ts, p))),
        _ => Err(expected(ts, p, what)),
    }
}

/// An identifier that is not a keyword at `p`.
pub open spec fn spec_parse_name(ts: Seq<TokenV>, p: int, what: Seq<char>) -> Result<(Seq<char>, int), ParseErrorV> {
    match ts[p].kind {
        TokenKindV::Ident(s) => if !is_reserved(s) {
            Ok((s, adv(ts, p)))
        } else {
            Err(expected(ts, p, what))
        },
        _ => Err(expected(ts, p, what)),
    }
}

/// The comparison operator a token stands for.
pub open spec fn compare_op_of(k: TokenKindV) -> Option<CompareOp> {
    match k {
        TokenKindV::Eq => Some(CompareOp::Eq),
        TokenKindV::NotEq => Some(CompareOp::NotEq),
        TokenKindV::Lt => Some(CompareOp::Lt),
        TokenKindV::LtEq => Some(CompareOp::LtEq),
        TokenKindV::Gt => Some(CompareOp::Gt),
        TokenKindV::GtEq => Some(CompareOp::GtEq),
        _ => None,
    }
}

/// Each of the six comparison tokens stands for its own operator, the one
/// written the same way: the token as an error message names it is the
/// operator's SQL text in quotes (`'<='` is `<=`). No other token is an
/// operator, and no two tokens stand for the same one.
pub proof fn lemma_compare_tokens(k: TokenKindV, k2: TokenKindV)
    ensures
        compare_op_of(k) is Some <==> (k == TokenKindV::Eq || k == TokenKindV::NotEq || k == TokenKindV::Lt || k
            == TokenKindV::LtEq || k == TokenKindV::Gt || k == TokenKindV::GtEq),
        compare_op_of(k) matches Some(op) ==> describe(k) == "'"@ + op_text(op) + "'"@,
        compare_op_of(k) is Some && compare_op_of(k) == compare_op_of(k2) ==> k == k2,
{
    reveal(describe);
    reveal_strlit("'");
    reveal_strlit("=");
    reveal_strlit("!=");
    reveal_strlit("<");
    reveal_strlit("<=");
    reveal_strlit(">");
    reveal_strlit(">=");
    reveal_strlit("'='");
    reveal_strlit("'!='");
    reveal_strlit("'<'");
    reveal_strlit("'<='");
    reveal_strlit("'>'");
    reveal_strlit("'>='");
    match k {
        TokenKindV::Eq => assert(describe(k) =~= "'"@ + op_text(CompareOp::Eq) + "'"@),
        TokenKindV::NotEq => assert(describe(k) =~= "'"@ + op_text(CompareOp::NotEq) + "'"@),
        TokenKindV::Lt => assert(describe(k) =~= "'"@ + op_text(CompareOp::Lt) + "'"@),
        TokenKindV::LtEq => assert(describe(k) =~= "'"@ + op_text(CompareOp::LtEq) + "'"@),
        TokenKindV::Gt => assert(describe(k) =~= "'"@ + op_text(CompareOp::Gt) + "'"@),
        TokenKindV::GtEq => assert(describe(k) =~= "'"@ + op_text(CompareOp::GtEq) + "'"@),
        _ => {},
    }
}

/// `expr := and (OR and)*`, left-associative.
pub open spec fn spec_expr(ts: Seq<TokenV>, p: int) -> Result<(ExprV, int), ParseErrorV>
    decreases ts.len() - p, 5int,
{
    match spec_and(ts, p) {
        Err(e) => Err(e),
        Ok((l, q)) => if p <= q <= ts.len() {
            spec_or_tail(ts, q, l)
        } else {
            Ok((l, q))
        },
    }
}

/// The `(OR and)*` part after `left`.
pub open spec fn spec_or_tail(ts: Seq<TokenV>, p: int, left: ExprV) -> Result<(ExprV, int), ParseErrorV>
    decreases ts.len() - p, 4int,
{
    if kw_at(ts, p, "OR"@) {
        match spec_and(ts, adv(ts, p)) {
            Err(e) => Err(e),
            Ok((r, q)) => {
                let e = ExprV::Or(Box::new(left), Box::new(r));
                if p < q <= ts.len() {
                    spec_or_tail(ts, q, e)
                } else {
                    Ok((e, q))
                }
            },
        }
    } else {
        Ok((left, p))
    }
}

/// `and := compare (AND compare)*`, left-associative.
pub open spec fn spec_and(ts: Seq<TokenV>, p: int) -> Result<(ExprV, int), ParseErrorV>
    decreases ts.len() - p, 3int,
{
    match spec_compare(ts, p) {
        Err(e) => Err(e),
        Ok((l, q)) => if p <= q <= ts.len() {
            spec_and_tail(ts, q, l)
        } else {
            Ok((l, q))
        },
    }
}

/// The `(AND compare)*` part after `left`.
pub open spec fn spec_and_tail(ts: Seq<TokenV>, p: int, left: ExprV) -> Result<(ExprV, int), ParseErrorV>
    decreases ts.len() - p, 2int,
{
    if kw_at(ts, p, "AND"@) {
        match spec_compare(ts, adv(ts, p)) {
            Err(e) => Err(e),
            Ok((r, q)) => {
                let e = ExprV::And(Box::new(left), Box::new(r));
                if p < q <= ts.len() {
                    spec_and_tail(ts, q, e)
                } else {
                    Ok((e, q))
                }
            },
        }
    } else {
        Ok((left, p))
    }
}

/// `compare := primary [op primary]`.
pub open spec fn spec_compare(ts: Seq<TokenV>, p: int) -> Result<(ExprV, int), ParseErrorV>
    decreases ts.len() - p, 1int,
{
    match spec_primary(ts, p) {
        Err(e) => Err(e),
        Ok((l, q)) => match compare_op_of(ts[q].kind) {
            None => Ok((l, q)),
            Some(op) => {
                let q1 = adv(ts, q);
                if p <= q1 <= ts.len() {
                    match spec_primary(ts, q1) {
                        Err(e) => Err(e),
                        Ok((r, q2)) => Ok((ExprV::Compare { left: Box::new(l), op, right: Box::new(r) }, q2)),
                    }
                } else {
                    Ok((l, q))
                }
            },
        },
    }
}

/// `primary := '(' expr ')' | integer | string | NULL | name '(' expr ')' | column`.
pub open spec fn spec_primary(ts: Seq<TokenV>, p: int) -> Result<(ExprV, int), ParseErrorV>
    decreases ts.len() - p, 0int,
{
    match ts[p].kind {
        TokenKindV::LParen => {
            let p1 = adv(ts, p);
            if p < p1 <= ts.len() {
                match spec_expr(ts, p1) {
                    Err(e) => Err(e),
                    Ok((e, q)) => match spec_expect(ts, q, TokenKindV::RParen, "')' after expression"@) {
                        Err(er) => Err(er),
                        Ok(q1) => Ok((e, q1)),
                    },
                }
            } else {
                Err(error_at(ts, p, "expected an expression"@))
            }
        },
        TokenKindV::Int(n) => Ok((ExprV::Literal(LiteralV::Int(n)), adv(ts, p))),
        TokenKindV::Str(s) => Ok((ExprV::Literal(LiteralV::Str(s)), adv(ts, p))),
        TokenKindV::Ident(s) => if str_ci_eq(s, "NULL"@) {
            Ok((ExprV::Literal(LiteralV::Null), adv(ts, p)))
        } else if !is_reserved(s) {
            let p1 = adv(ts, p);
            if ts[p1].kind == TokenKindV::LParen {
                let p2 = adv(ts, p1);
                if p < p2 <= ts.len() {
                    match spec_expr(ts, p2) {
                        Err(e) => Err(e),
                        Ok((a, q)) => match spec_expect(ts, q, TokenKindV::RParen, "')' after function argument"@) {
                            Err(er) => Err(er),
                            Ok(q1) => Ok((ExprV::Function { name: s, arg: Box::new(a) }, q1)),
                        },
                    }
                } else {
                    Err(error_at(ts, p1, "expected an expression"@))
                }
            } else {
                Ok((ExprV::Column(s), p1))
            }
        } else {
            Err(error_at(ts, p, "expected an expression"@))
        },
        _ => Err(error_at(ts, p, "expected an expression"@)),
    }
}

/// `item := expr [AS alias]`.
#[verifier::opaque]
pub open spec fn spec_select_item(ts: Seq<TokenV>, p: int) -> Result<(SelectItemV, int), ParseErrorV> {
    match spec_expr(ts, p) {
        Err(e) => Err(e),
        Ok((e, q)) => if kw_at(ts, q, "AS"@) {
            match spec_expect_ident(ts, adv(ts, q), "alias"@) {
                Err(er) => Err(er),
                Ok((a, r)) => Ok((SelectItemV { expr: e, alias: Some(a) }, r)),
            }
        } else {
            Ok((SelectItemV { expr: e, alias: None }, q))
        },
    }
}

/// `projection := '*' | item (',' item)*`.
#[verifier::opaque]
pub open spec fn spec_projection(ts: Seq<TokenV>, p: int) -> Result<(ProjectionV, int), ParseErrorV> {
    if ts[p].kind == TokenKindV::Star {
        Ok((ProjectionV::All, adv(ts, p)))
    } else {
        match spec_select_item(ts, p) {
            Err(e) => Err(e),
            Ok((i, q)) => projection_finish(spec_items_tail(ts, q, seq![i])),
        }
    }
}

/// The item list of a projection.
pub open spec fn projection_finish(r: Result<(Seq<SelectItemV>, int), ParseErrorV>) -> Result<(ProjectionV, int), ParseErrorV> {
    match r {
        Err(e) => Err(e),
        Ok((items, q)) => Ok((ProjectionV::Items(items), q)),
    }
}

/// `[WHERE expr]`.
#[verifier::opaque]
pub open spec fn spec_filter(ts: Seq<TokenV>, p: int) -> Result<(Option<ExprV>, int), ParseErrorV> {
    if kw_at(ts, p, "WHERE"@) {
        match spec_expr(ts, adv(ts, p)) {
            Err(e) => Err(e),
            Ok((e, q)) => Ok((Some(e), q)),
        }
    } else {
        Ok((None, p))
    }
}

/// `[ORDER BY column [ASC|DESC]]`.
#[verifier::opaque]
pub open spec fn spec_order_by(ts: Seq<TokenV>, p: int) -> Result<(Option<OrderByV>, int), ParseErrorV> {
    if kw_at(ts, p, "ORDER"@) {
        match spec_expect_keyword(ts, adv(ts, p), "BY"@) {
            Err(e) => Err(e),
            Ok(p1) => match spec_parse_name(ts, p1, "column name"@) {
                Err(e) => Err(e),
                Ok((c, p2)) => if kw_at(ts, p2, "DESC"@) {
                    Ok((Some(OrderByV { column: c, descending: true }), adv(ts, p2)))
                } else {
                    let p3 = if kw_at(ts, p2, "ASC"@) { adv(ts, p2) } else { p2 };
                    Ok((Some(OrderByV { column: c, descending: false }), p3))
                },
            },
        }
    } else {
        Ok((None, p))
    }
}

/// The number after LIMIT.
#[verifier::opaque]
pub open spec fn spec_parse_limit(ts: Seq<TokenV>, p: int) -> Result<(i64, int), ParseErrorV> {
    match ts[p].kind {
        TokenKindV::Int(n) => Ok((n, adv(ts, p))),
        _ => Err(error_at(ts, p, "expected a number after LIMIT"@)),
    }
}

/// `[LIMIT n]`.
#[verifier::opaque]
pub open spec fn spec_limit_clause(ts: Seq<TokenV>, p: int) -> Result<(Option<i64>, int), ParseErrorV> {
    if kw_at(ts, p, "LIMIT"@) {
        match spec_parse_limit(ts, adv(ts, p)) {
            Err(e) => Err(e),
            Ok((n, q)) => Ok((Some(n), q)),
        }
    } else {
        Ok((None, p))
    }
}

/// `SELECT projection FROM name [WHERE ..] [ORDER BY ..] [LIMIT ..]`.
#[verifier::opaque]
pub open spec fn spec_select(ts: Seq<TokenV>, p: int) -> Result<(SelectV, int), ParseErrorV> {
    match spec_expect_keyword(ts, p, "SELECT"@) {
        Err(e) => Err(e),
        Ok(p1) => match spec_projection(ts, p1) {
            Err(e) => Err(e),
            Ok((projection, p2)) => match spec_expect_keyword(ts, p2, "FROM"@) {
                Err(e) => Err(e),
                Ok(p3) => match spec_parse_name(ts, p3, "table name"@) {
                    Err(e) => Err(e),
                    Ok((from, p4)) => match spec_filter(ts, p4) {
                        Err(e) => Err(e),
                        Ok((filter, p5)) => match spec_order_by(ts, p5) {
                            Err(e) => Err(e),
                            Ok((order_by, p6)) => match spec_limit_clause(ts, p6) {
                                Err(e) => Err(e),
                                Ok((limit, p7)) => Ok((SelectV { projection, from, filter, order_by, limit }, p7)),
                            },
                        },
                    },
                },
            },
        },
    }
}

/// `INT | TEXT`.
#[verifier::opaque]
pub open spec fn spec_data_type(ts: Seq<TokenV>, p: int) -> Result<(DataType, int), ParseErrorV> {
    if kw_at(ts, p, "INT"@) {
        Ok((DataType::Int, adv(ts, p)))
    } else if kw_at(ts, p, "TEXT"@) {
        Ok((DataType::Text, adv(ts, p)))
    } else {
        Err(error_at(ts, p, "expected a column type (INT or TEXT)"@))
    }
}

/// `name type [NOT NULL | NULL]`; nullable unless NOT NULL.
#[verifier::opaque]
pub open spec fn spec_column_def(ts: Seq<TokenV>, p: int) -> Result<(ColumnDefV, int), ParseErrorV> {
    match spec_expect_ident(ts, p, "column name"@) {
        Err(e) => Err(e),
        Ok((name, p1)) => match spec_data_type(ts, p1) {
            Err(e) => Err(e),
            Ok((ty, p2)) => if kw_at(ts, p2, "NOT"@) {
                match spec_expect_keyword(ts, adv(ts, p2), "NULL"@) {
                    Err(e) => Err(e),
                    Ok(p3) => Ok((ColumnDefV { name, ty, nullable: false }, p3)),
                }
            } else {
                let p3 = if kw_at(ts, p2, "NULL"@) { adv(ts, p2) } else { p2 };
                Ok((ColumnDefV { name, ty, nullable: true }, p3))
            },
        },
    }
}

/// `CREATE TABLE name '(' column (',' column)* ')'`.
#[verifier::opaque]
pub open spec fn spec_create_table(ts: Seq<TokenV>, p: int) -> Result<(CreateTableV, int), ParseErrorV> {
    match spec_expect_keyword(ts, p, "CREATE"@) {
        Err(e) => Err(e),
        Ok(p1) => match spec_expect_keyword(ts, p1, "TABLE"@) {
            Err(e) => Err(e),
            Ok(p2) => match spec_expect_ident(ts, p2, "table name"@) {
                Err(e) => Err(e),
                Ok((table, p3)) => match spec_expect(ts, p3, TokenKindV::LParen, "'(' after table name"@) {
                    Err(e) => Err(e),
                    Ok(p4) => match spec_column_def(ts, p4) {
                        Err(e) => Err(e),
                        Ok((c, p5)) => create_finish(ts, table, spec_columns_tail(ts, p5, seq![c])),
                    },
                },
            },
        },
    }
}

/// The closing parenthesis after the column list of `CREATE TABLE`.
pub open spec fn create_finish(
    ts: Seq<TokenV>,
    table: Seq<char>,
    r: Result<(Seq<ColumnDefV>, int), ParseErrorV>,
) -> Result<(CreateTableV, int), ParseErrorV> {
    match r {
        Err(e) => Err(e),
        Ok((columns, p6)) => match spec_expect(ts, p6, TokenKindV::RParen, "',' or ')' in column list"@) {
            Err(e) => Err(e),
            Ok(p7) => Ok((CreateTableV { table, columns }, p7)),
        },
    }
}

/// Further select items after `acc`, each after a comma.
pub open spec fn spec_items_tail(ts: Seq<TokenV>, p: int, acc: Seq<SelectItemV>) -> Result<(Seq<SelectItemV>, int), ParseErrorV>
    decreases ts.len() - p,
{
    if ts[p].kind == TokenKindV::Comma {
        match spec_select_item(ts, adv(ts, p)) {
            Err(e) => Err(e),
            Ok((x, q)) => if p < q <= ts.len() {
                spec_items_tail(ts, q, acc.push(x))
            } else {
                Ok((acc.push(x), q))
            },
        }
    } else {
        Ok((acc, p))
    }
}

/// Further column definitions after `acc`, each after a comma.
pub open spec fn spec_columns_tail(ts: Seq<TokenV>, p: int, acc: Seq<ColumnDefV>) -> Result<(Seq<ColumnDefV>, int), ParseErrorV>
    decreases ts.len() - p,
{
    if ts[p].kind == TokenKindV::Comma {
        match spec_column_def(ts, adv(ts, p)) {
            Err(e) => Err(e),
            Ok((x, q)) => if p < q <= ts.len() {
                spec_columns_tail(ts, q, acc.push(x))
            } else {
                Ok((acc.push(x), q))
            },
        }
    } else {
        Ok((acc, p))
    }
}

/// Further column names after `acc`, each after a comma.
pub open spec fn spec_names_tail(ts: Seq<TokenV>, p: int, acc: Seq<Seq<char>>) -> Result<(Seq<Seq<char>>, int), ParseErrorV>
    decreases ts.len() - p,
{
    if ts[p].kind == TokenKindV::Comma {
        match spec_expect_ident(ts, adv(ts, p), "column name"@) {
            Err(e) => Err(e),
            Ok((x, q)) => if p < q <= ts.len() {
                spec_names_tail(ts, q, acc.push(x))
            } else {
                Ok((acc.push(x), q))
            },
        }
    } else {
        Ok((acc, p))
    }
}

/// Further values after `acc`, each after a comma.
pub open spec fn spec_values_tail(ts: Seq<TokenV>, p: int, acc: Seq<LiteralV>) -> Result<(Seq<LiteralV>, int), ParseErrorV>
    decreases ts.len() - p,
{
    if ts[p].kind == TokenKindV::Comma {
        match spec_literal(ts, adv(ts, p)) {
            Err(e) => Err(e),
            Ok((x, q)) => if p < q <= ts.len() {
                spec_values_tail(ts, q, acc.push(x))
            } else {
                Ok((acc.push(x), q))
            },
        }
    } else {
        Ok((acc, p))
    }
}

/// A literal value of an INSERT.
#[verifier::opaque]
pub open spec fn spec_literal(ts: Seq<TokenV>, p: int) -> Result<(LiteralV, int), ParseErrorV> {
    match ts[p].kind {
        TokenKindV::Int(n) => Ok((LiteralV::Int(n), adv(ts, p))),
        TokenKindV::Str(s) => Ok((LiteralV::Str(s), adv(ts, p))),
        TokenKindV::Ident(s) => if str_ci_eq(s, "NULL"@) {
            Ok((LiteralV::Null, adv(ts, p)))
        } else {
            Err(error_at(ts, p, "expected a value (number, string, or NULL)"@))
        },
        _ => Err(error_at(ts, p, "expected a value (number, string, or NULL)"@)),
    }
}

/// The closing parenthesis after the column names of an INSERT.
pub open spec fn columns_finish(ts: Seq<TokenV>, r: Result<(Seq<Seq<char>>, int), ParseErrorV>) -> Result<(Option<Seq<Seq<char>>>, int), ParseErrorV> {
    match r {
        Err(e) => Err(e),
        Ok((names, p2)) => match spec_expect(ts, p2, TokenKindV::RParen, "')' after column list"@) {
            Err(e) => Err(e),
            Ok(p3) => Ok((Some(names), p3)),
        },
    }
}

/// The optional `'(' name (',' name)* ')'` of an INSERT.
#[verifier::opaque]
pub open spec fn spec_insert_columns(ts: Seq<TokenV>, p: int) -> Result<(Option<Seq<Seq<char>>>, int), ParseErrorV> {
    if ts[p].kind == TokenKindV::LParen {
        match spec_expect_ident(ts, adv(ts, p), "column name"@) {
            Err(e) => Err(e),
            Ok((n, p1)) => columns_finish(ts, spec_names_tail(ts, p1, seq![n])),
        }
    } else {
        Ok((None, p))
    }
}

/// The closing parenthesis after the values of an INSERT.
pub open spec fn insert_finish(
    ts: Seq<TokenV>,
    table: Seq<char>,
    columns: Option<Seq<Seq<char>>>,
    r: Result<(Seq<LiteralV>, int), ParseErrorV>,
) -> Result<(InsertV, int), ParseErrorV> {
    match r {
        Err(e) => Err(e),
        Ok((values, p8)) => match spec_expect(ts, p8, TokenKindV::RParen, "')' after value list"@) {
            Err(e) => Err(e),
            Ok(p9) => Ok((InsertV { table, columns, values }, p9)),
        },
    }
}

/// `INSERT INTO name [columns] VALUES '(' literal (',' literal)* ')'`.
#[verifier::opaque]
pub open spec fn spec_insert(ts: Seq<TokenV>, p: int) -> Result<(InsertV, int), ParseErrorV> {
    match spec_expect_keyword(ts, p, "INSERT"@) {
        Err(e) => Err(e),
        Ok(p1) => match spec_expect_keyword(ts, p1, "INTO"@) {
            Err(e) => Err(e),
            Ok(p2) => match spec_expect_ident(ts, p2, "table name"@) {
                Err(e) => Err(e),
                Ok((table, p3)) => match spec_insert_columns(ts, p3) {
                    Err(e) => Err(e),
                    Ok((columns, p4)) => match spec_expect_keyword(ts, p4, "VALUES"@) {
                        Err(e) => Err(e),
                        Ok(p5) => match spec_expect(ts, p5, TokenKindV::LParen, "'(' before value list"@) {
                            Err(e) => Err(e),
                            Ok(p6) => match spec_literal(ts, p6) {
                                Err(e) => Err(e),
                                Ok((l, p7)) => insert_finish(ts, table, columns, spec_values_tail(ts, p7, seq![l])),
                            },
                        },
                    },
                },
            },
        },
    }
}

/// A statement, chosen by its first keyword.
#[verifier::opaque]
pub open spec fn spec_statement(ts: Seq<TokenV>, p: int) -> Result<(StatementV, int), ParseErrorV> {
    if kw_at(ts, p, "CREATE"@) {
        match spec_create_table(ts, p) {
            Err(e) => Err(e),
            Ok((c, q)) => Ok((StatementV::CreateTable(c), q)),
        }
    } else if kw_at(ts, p, "INSERT"@) {
        match spec_insert(ts, p) {
            Err(e) => Err(e),
            Ok((i, q)) => Ok((StatementV::Insert(i), q)),
        }
    } else if kw_at(ts, p, "SELECT"@) {
        match spec_select(ts, p) {
            Err(e) => Err(e),
            Ok((s, q)) => Ok((StatementV::Select(s), q)),
        }
    } else {
        Err(error_at(ts, p, "expected CREATE, INSERT, or SELECT"@))
    }
}

/// An optional semicolon, then the end of the input.
#[verifier::opaque]
pub open spec fn spec_expect_end(ts: Seq<TokenV>, p: int) -> Result<int, ParseErrorV> {
    let p1 = if ts[p].kind == TokenKindV::Semicolon { adv(ts, p) } else { p };
    if ts[p1].kind == TokenKindV::Eof {
        Ok(p1)
    } else {
        Err(error_at(ts, p1, "expected end of statement"@))
    }
}

/// The statement that an input string holds, or the first error.
pub open spec fn spec_parse(input: Seq<char>) -> Result<StatementV, ParseErrorV> {
    match spec_tokenize(input) {
        Err(e) => Err(e),
        Ok(ts) => match spec_statement(ts, 0) {
            Err(e) => Err(e),
            Ok((s, p)) => match spec_expect_end(ts, p) {
                Err(e) => Err(e),
                Ok(_) => Ok(s),
            },
        },
    }
}

} // verus!
