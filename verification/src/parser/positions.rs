//! Where parse errors point: every error of the parser stands at the
//! position of one of the input's tokens, so within the input.

use vstd::prelude::*;
use vstd::utf8::*;

use crate::parser::ast::{ColumnDefV, ExprV, LiteralV, SelectItemV};
use crate::parser::lexer::{ParseErrorV, TokenKindV, TokenV, lemma_lex_shape, lex_from, spec_tokenize};
use crate::parser::spec::{
    adv, compare_op_of, error_at, kw_at, spec_and, spec_and_tail, spec_column_def, spec_columns_tail, spec_compare,
    spec_create_table, spec_data_type, spec_expect, spec_expect_end, spec_expect_ident, spec_expect_keyword, spec_expr,
    spec_filter, spec_insert, spec_insert_columns, spec_items_tail, spec_limit_clause, spec_literal, spec_names_tail,
    spec_or_tail, spec_order_by, spec_parse, spec_parse_limit, spec_parse_name, spec_primary, spec_projection,
    spec_select, spec_select_item, spec_statement, spec_values_tail,
};

verus! {

/// The error stands at the position of a token.
pub open spec fn at_token(ts: Seq<TokenV>, e: ParseErrorV) -> bool {
    exists|k: int| 0 <= k < ts.len() && (#[trigger] ts[k]).pos == e.pos
}

/// A parse result that ends at a token, or fails at one.
pub open spec fn placed<T>(ts: Seq<TokenV>, r: Result<(T, int), ParseErrorV>) -> bool {
    match r {
        Ok((_, q)) => 0 <= q < ts.len(),
        Err(e) => at_token(ts, e),
    }
}

/// A position result that ends at a token, or fails at one.
pub open spec fn placed_at(ts: Seq<TokenV>, r: Result<int, ParseErrorV>) -> bool {
    match r {
        Ok(q) => 0 <= q < ts.len(),
        Err(e) => at_token(ts, e),
    }
}

proof fn lemma_error_at(ts: Seq<TokenV>, p: int, msg: Seq<char>)
    requires
        0 <= p < ts.len(),
    ensures
        at_token(ts, error_at(ts, p, msg)),
{
    assert(ts[p].pos == error_at(ts, p, msg).pos);
}

proof fn lemma_expect_keyword(ts: Seq<TokenV>, p: int, kw: Seq<char>)
    requires
        0 <= p < ts.len(),
    ensures
        placed_at(ts, spec_expect_keyword(ts, p, kw)),
{
    lemma_error_at(ts, p, "expected "@ + kw);
}

proof fn lemma_expect(ts: Seq<TokenV>, p: int, k: TokenKindV, what: Seq<char>)
    requires
        0 <= p < ts.len(),
    ensures
        placed_at(ts, spec_expect(ts, p, k, what)),
{
    lemma_error_at(ts, p, "expected "@ + what);
}

proof fn lemma_expect_ident(ts: Seq<TokenV>, p: int, what: Seq<char>)
    requires
        0 <= p < ts.len(),
    ensures
        placed(ts, spec_expect_ident(ts, p, what)),
{
    lemma_error_at(ts, p, "expected "@ + what);
}

proof fn lemma_parse_name(ts: Seq<TokenV>, p: int, what: Seq<char>)
    requires
        0 <= p < ts.len(),
    ensures
        placed(ts, spec_parse_name(ts, p, what)),
{
    lemma_error_at(ts, p, "expected "@ + what);
}

proof fn lemma_expr(ts: Seq<TokenV>, p: int)
    requires
        0 <= p < ts.len(),
    ensures
        placed(ts, spec_expr(ts, p)),
    decreases ts.len() - p, 5int,
{
    lemma_and(ts, p);
    if let Ok((l, q)) = spec_and(ts, p) {
        if p <= q <= ts.len() {
            lemma_or_tail(ts, q, l);
        }
    }
}

proof fn lemma_or_tail(ts: Seq<TokenV>, p: int, left: ExprV)
    requires
        0 <= p < ts.len(),
    ensures
        placed(ts, spec_or_tail(ts, p, left)),
    decreases ts.len() - p, 4int,
{
    if kw_at(ts, p, "OR"@) {
        lemma_and(ts, adv(ts, p));
        if let Ok((r, q)) = spec_and(ts, adv(ts, p)) {
            if p < q <= ts.len() {
                lemma_or_tail(ts, q, ExprV::Or(Box::new(left), Box::new(r)));
            }
        }
    }
}

proof fn lemma_and(ts: Seq<TokenV>, p: int)
    requires
        0 <= p < ts.len(),
    ensures
        placed(ts, spec_and(ts, p)),
    decreases ts.len() - p, 3int,
{
    lemma_compare(ts, p);
    if let Ok((l, q)) = spec_compare(ts, p) {
        if p <= q <= ts.len() {
            lemma_and_tail(ts, q, l);
        }
    }
}

proof fn lemma_and_tail(ts: Seq<TokenV>, p: int, left: ExprV)
    requires
        0 <= p < ts.len(),
    ensures
        placed(ts, spec_and_tail(ts, p, left)),
    decreases ts.len() - p, 2int,
{
    if kw_at(ts, p, "AND"@) {
        lemma_compare(ts, adv(ts, p));
        if let Ok((r, q)) = spec_compare(ts, adv(ts, p)) {
            if p < q <= ts.len() {
                lemma_and_tail(ts, q, ExprV::And(Box::new(left), Box::new(r)));
            }
        }
    }
}

proof fn lemma_compare(ts: Seq<TokenV>, p: int)
    requires
        0 <= p < ts.len(),
    ensures
        placed(ts, spec_compare(ts, p)),
    decreases ts.len() - p, 1int,
{
    lemma_primary(ts, p);
    if let Ok((l, q)) = spec_primary(ts, p) {
        if let Some(op) = compare_op_of(ts[q].kind) {
            let q1 = adv(ts, q);
            if p <= q1 <= ts.len() {
                lemma_primary(ts, q1);
            }
        }
    }
}

proof fn lemma_primary(ts: Seq<TokenV>, p: int)
    requires
        0 <= p < ts.len(),
    ensures
        placed(ts, spec_primary(ts, p)),
    decreases ts.len() - p, 0int,
{
    lemma_error_at(ts, p, "expected an expression"@);
    if ts[p].kind == TokenKindV::LParen {
        let p1 = adv(ts, p);
        if p < p1 <= ts.len() {
            lemma_expr(ts, p1);
            if let Ok((e, q)) = spec_expr(ts, p1) {
                lemma_expect(ts, q, TokenKindV::RParen, "')' after expression"@);
            }
        }
    }
    if ts[p].kind is Ident {
        let p1 = adv(ts, p);
        lemma_error_at(ts, p1, "expected an expression"@);
        let p2 = adv(ts, p1);
        if ts[p1].kind == TokenKindV::LParen && p < p2 <= ts.len() {
            lemma_expr(ts, p2);
            if let Ok((e, q)) = spec_expr(ts, p2) {
                lemma_expect(ts, q, TokenKindV::RParen, "')' after function argument"@);
            }
        }
    }
}

proof fn lemma_select_item(ts: Seq<TokenV>, p: int)
    requires
        0 <= p < ts.len(),
    ensures
        placed(ts, spec_select_item(ts, p)),
{
    reveal(spec_select_item);
    lemma_expr(ts, p);
    if let Ok((e, q)) = spec_expr(ts, p) {
        lemma_expect_ident(ts, adv(ts, q), "alias"@);
    }
}

proof fn lemma_items_tail(ts: Seq<TokenV>, p: int, acc: Seq<SelectItemV>)
    requires
        0 <= p < ts.len(),
    ensures
        placed(ts, spec_items_tail(ts, p, acc)),
    decreases ts.len() - p,
{
    if ts[p].kind == TokenKindV::Comma {
        lemma_select_item(ts, adv(ts, p));
        if let Ok((x, q)) = spec_select_item(ts, adv(ts, p)) {
            if p < q <= ts.len() {
                lemma_items_tail(ts, q, acc.push(x));
            }
        }
    }
}

proof fn lemma_projection(ts: Seq<TokenV>, p: int)
    requires
        0 <= p < ts.len(),
    ensures
        placed(ts, spec_projection(ts, p)),
{
    reveal(spec_projection);
    lemma_select_item(ts, p);
    if let Ok((i, q)) = spec_select_item(ts, p) {
        lemma_items_tail(ts, q, seq![i]);
    }
}

proof fn lemma_select(ts: Seq<TokenV>, p: int)
    requires
        0 <= p < ts.len(),
    ensures
        placed(ts, spec_select(ts, p)),
{
    reveal(spec_select);
    reveal(spec_filter);
    reveal(spec_order_by);
    reveal(spec_limit_clause);
    reveal(spec_parse_limit);
    lemma_expect_keyword(ts, p, "SELECT"@);
    if let Ok(p1) = spec_expect_keyword(ts, p, "SELECT"@) {
        lemma_projection(ts, p1);
        if let Ok((projection, p2)) = spec_projection(ts, p1) {
            lemma_expect_keyword(ts, p2, "FROM"@);
            if let Ok(p3) = spec_expect_keyword(ts, p2, "FROM"@) {
                lemma_parse_name(ts, p3, "table name"@);
                if let Ok((from, p4)) = spec_parse_name(ts, p3, "table name"@) {
                    if kw_at(ts, p4, "WHERE"@) {
                        lemma_expr(ts, adv(ts, p4));
                    }
                    if let Ok((filter, p5)) = spec_filter(ts, p4) {
                        if kw_at(ts, p5, "ORDER"@) {
                            lemma_expect_keyword(ts, adv(ts, p5), "BY"@);
                            if let Ok(q1) = spec_expect_keyword(ts, adv(ts, p5), "BY"@) {
                                lemma_parse_name(ts, q1, "column name"@);
                            }
                        }
                        if let Ok((order_by, p6)) = spec_order_by(ts, p5) {
                            if kw_at(ts, p6, "LIMIT"@) {
                                lemma_error_at(ts, adv(ts, p6), "expected a number after LIMIT"@);
                            }
                        }
                    }
                }
            }
        }
    }
}

proof fn lemma_column_def(ts: Seq<TokenV>, p: int)
    requires
        0 <= p < ts.len(),
    ensures
        placed(ts, spec_column_def(ts, p)),
{
    reveal(spec_column_def);
    reveal(spec_data_type);
    lemma_expect_ident(ts, p, "column name"@);
    if let Ok((name, p1)) = spec_expect_ident(ts, p, "column name"@) {
        lemma_error_at(ts, p1, "expected a column type (INT or TEXT)"@);
        if let Ok((ty, p2)) = spec_data_type(ts, p1) {
            lemma_expect_keyword(ts, adv(ts, p2), "NULL"@);
        }
    }
}

proof fn lemma_columns_tail(ts: Seq<TokenV>, p: int, acc: Seq<ColumnDefV>)
    requires
        0 <= p < ts.len(),
    ensures
        placed(ts, spec_columns_tail(ts, p, acc)),
    decreases ts.len() - p,
{
    if ts[p].kind == TokenKindV::Comma {
        lemma_column_def(ts, adv(ts, p));
        if let Ok((x, q)) = spec_column_def(ts, adv(ts, p)) {
            if p < q <= ts.len() {
                lemma_columns_tail(ts, q, acc.push(x));
            }
        }
    }
}

proof fn lemma_create_table(ts: Seq<TokenV>, p: int)
    requires
        0 <= p < ts.len(),
    ensures
        placed(ts, spec_create_table(ts, p)),
{
    reveal(spec_create_table);
    lemma_expect_keyword(ts, p, "CREATE"@);
    if let Ok(p1) = spec_expect_keyword(ts, p, "CREATE"@) {
        lemma_expect_keyword(ts, p1, "TABLE"@);
        if let Ok(p2) = spec_expect_keyword(ts, p1, "TABLE"@) {
            lemma_expect_ident(ts, p2, "table name"@);
            if let Ok((table, p3)) = spec_expect_ident(ts, p2, "table name"@) {
                lemma_expect(ts, p3, TokenKindV::LParen, "'(' after table name"@);
                if let Ok(p4) = spec_expect(ts, p3, TokenKindV::LParen, "'(' after table name"@) {
                    lemma_column_def(ts, p4);
                    if let Ok((c, p5)) = spec_column_def(ts, p4) {
                        lemma_columns_tail(ts, p5, seq![c]);
                        if let Ok((columns, p6)) = spec_columns_tail(ts, p5, seq![c]) {
                            lemma_expect(ts, p6, TokenKindV::RParen, "',' or ')' in column list"@);
                        }
                    }
                }
            }
        }
    }
}

proof fn lemma_literal(ts: Seq<TokenV>, p: int)
    requires
        0 <= p < ts.len(),
    ensures
        placed(ts, spec_literal(ts, p)),
{
    reveal(spec_literal);
    lemma_error_at(ts, p, "expected a value (number, string, or NULL)"@);
}

proof fn lemma_names_tail(ts: Seq<TokenV>, p: int, acc: Seq<Seq<char>>)
    requires
        0 <= p < ts.len(),
    ensures
        placed(ts, spec_names_tail(ts, p, acc)),
    decreases ts.len() - p,
{
    if ts[p].kind == TokenKindV::Comma {
        lemma_expect_ident(ts, adv(ts, p), "column name"@);
        if let Ok((x, q)) = spec_expect_ident(ts, adv(ts, p), "column name"@) {
            if p < q <= ts.len() {
                lemma_names_tail(ts, q, acc.push(x));
            }
        }
    }
}

proof fn lemma_values_tail(ts: Seq<TokenV>, p: int, acc: Seq<LiteralV>)
    requires
        0 <= p < ts.len(),
    ensures
        placed(ts, spec_values_tail(ts, p, acc)),
    decreases ts.len() - p,
{
    if ts[p].kind == TokenKindV::Comma {
        lemma_literal(ts, adv(ts, p));
        if let Ok((x, q)) = spec_literal(ts, adv(ts, p)) {
            if p < q <= ts.len() {
                lemma_values_tail(ts, q, acc.push(x));
            }
        }
    }
}

proof fn lemma_insert(ts: Seq<TokenV>, p: int)
    requires
        0 <= p < ts.len(),
    ensures
        placed(ts, spec_insert(ts, p)),
{
    reveal(spec_insert);
    reveal(spec_insert_columns);
    lemma_expect_keyword(ts, p, "INSERT"@);
    if let Ok(p1) = spec_expect_keyword(ts, p, "INSERT"@) {
        lemma_expect_keyword(ts, p1, "INTO"@);
        if let Ok(p2) = spec_expect_keyword(ts, p1, "INTO"@) {
            lemma_expect_ident(ts, p2, "table name"@);
            if let Ok((table, p3)) = spec_expect_ident(ts, p2, "table name"@) {
                if ts[p3].kind == TokenKindV::LParen {
                    lemma_expect_ident(ts, adv(ts, p3), "column name"@);
                    if let Ok((n, q1)) = spec_expect_ident(ts, adv(ts, p3), "column name"@) {
                        lemma_names_tail(ts, q1, seq![n]);
                        if let Ok((names, q2)) = spec_names_tail(ts, q1, seq![n]) {
                            lemma_expect(ts, q2, TokenKindV::RParen, "')' after column list"@);
                        }
                    }
                }
                if let Ok((columns, p4)) = spec_insert_columns(ts, p3) {
                    lemma_expect_keyword(ts, p4, "VALUES"@);
                    if let Ok(p5) = spec_expect_keyword(ts, p4, "VALUES"@) {
                        lemma_expect(ts, p5, TokenKindV::LParen, "'(' before value list"@);
                        if let Ok(p6) = spec_expect(ts, p5, TokenKindV::LParen, "'(' before value list"@) {
                            lemma_literal(ts, p6);
                            if let Ok((l, p7)) = spec_literal(ts, p6) {
                                lemma_values_tail(ts, p7, seq![l]);
                                if let Ok((values, p8)) = spec_values_tail(ts, p7, seq![l]) {
                                    lemma_expect(ts, p8, TokenKindV::RParen, "')' after value list"@);
                                }
                            }
                        }
                    }
                }
            }
        }
    }
}

proof fn lemma_statement(ts: Seq<TokenV>, p: int)
    requires
        0 <= p < ts.len(),
    ensures
        placed(ts, spec_statement(ts, p)),
{
    reveal(spec_statement);
    lemma_create_table(ts, p);
    lemma_insert(ts, p);
    lemma_select(ts, p);
    lemma_error_at(ts, p, "expected CREATE, INSERT, or SELECT"@);
}

proof fn lemma_expect_end(ts: Seq<TokenV>, p: int)
    requires
        0 <= p < ts.len(),
    ensures
        placed_at(ts, spec_expect_end(ts, p)),
{
    reveal(spec_expect_end);
    let p1 = if ts[p].kind == TokenKindV::Semicolon { adv(ts, p) } else { p };
    lemma_error_at(ts, p1, "expected end of statement"@);
}

/// A parse error never points past the input: its position is at most the
/// input's length in bytes.
pub proof fn lemma_parse_error_in_input(input: Seq<char>)
    requires
        encode_utf8(input).len() <= usize::MAX,
    ensures
        spec_parse(input) matches Err(e) ==> e.pos <= encode_utf8(input).len(),
{
    let b = encode_utf8(input);
    lemma_lex_shape(b, 0);
    if let Ok(ts) = spec_tokenize(input) {
        assert(lex_from(b, 0) == Ok::<Seq<TokenV>, ParseErrorV>(ts));
        assert forall|k: int| 0 <= k < ts.len() implies (#[trigger] ts[k]).pos <= b.len() by {
            if k < ts.len() - 1 {
                assert(ts[k].pos < b.len());
            }
        }
        lemma_statement(ts, 0);
        if let Ok((s, p)) = spec_statement(ts, 0) {
            lemma_expect_end(ts, p);
        }
    }
}

} // verus!
