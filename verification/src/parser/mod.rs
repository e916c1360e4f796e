//! A hand-written lexer and recursive-descent parser for the SQL subset.
pub mod ast;
pub mod lexer;
pub mod positions;
pub mod spec;

use vstd::prelude::*;

use ast::{
    ColumnDefV, ExprV, LiteralV, SelectItemV, ColumnDef, CompareOp, CreateTable, DataType, Expr, Insert, Literal, OrderBy, Projection, Select,
    SelectItem, Statement, items_view, literals_view, names_view,
};
use lexer::{ParseErrorV, ParseError, Token, TokenKind, TokenKindV, TokenV, tokenize, tokens_view};
use spec::{
    spec_items_tail, spec_columns_tail, spec_names_tail, spec_values_tail, adv, columns_finish, create_finish, insert_finish, projection_finish, compare_op_of, describe, error_at, expected, is_reserved, kw_at, spec_and, spec_and_tail,
    spec_column_def, spec_compare, spec_create_table, spec_data_type, spec_expect, spec_expect_end,
    spec_expect_ident, spec_expect_keyword, spec_expr, spec_filter, spec_insert, spec_insert_columns,
    spec_limit_clause, spec_literal, spec_or_tail, spec_order_by, spec_parse,
    spec_parse_limit, spec_parse_name, spec_primary, spec_projection, spec_select, spec_select_item,
    spec_statement,
};
use crate::text::{eq_ignore_ascii_case, i64_to_string, push_str, str_eq, string_of};

verus! {

/// Parses one statement, optionally followed by a semicolon.
pub fn parse(input: &str) -> (r: Result<Statement, ParseError>)
    ensures
        spec_parse(input@) == match r {
            Ok(s) => Ok(s@),
            Err(e) => Err(e@),
        },
{
    let tokens = match tokenize(input) {
        Ok(t) => t,
        Err(e) => {
            return Err(e);
        },
    };
    let bytes = input.as_bytes();
    let n = bytes.len();
    assert(bytes@.len() <= usize::MAX);
    let mut parser = Parser { tokens, pos: 0 };
    proof {
        lexer::lemma_lex_ends_with_eof(vstd::utf8::encode_utf8(input@), 0);
    }
    let statement = match parser.parse_statement() {
        Ok(s) => s,
        Err(e) => {
            return Err(e);
        },
    };
    match parser.expect_end() {
        Ok(()) => {},
        Err(e) => {
            return Err(e);
        },
    }
    Ok(statement)
}

struct Parser {
    tokens: Vec<Token>,
    pos: usize,
}

/// Equality of token kinds.
fn kind_eq(a: &TokenKind, b: &TokenKind) -> (r: bool)
    ensures
        r == (a@ == b@),
{
    match (a, b) {
        (TokenKind::Ident(x), TokenKind::Ident(y)) => str_eq(x.as_str(), y.as_str()),
        (TokenKind::Int(x), TokenKind::Int(y)) => *x == *y,
        (TokenKind::Str(x), TokenKind::Str(y)) => str_eq(x.as_str(), y.as_str()),
        (TokenKind::Star, TokenKind::Star) => true,
        (TokenKind::Comma, TokenKind::Comma) => true,
        (TokenKind::Semicolon, TokenKind::Semicolon) => true,
        (TokenKind::LParen, TokenKind::LParen) => true,
        (TokenKind::RParen, TokenKind::RParen) => true,
        (TokenKind::Eq, TokenKind::Eq) => true,
        (TokenKind::NotEq, TokenKind::NotEq) => true,
        (TokenKind::Lt, TokenKind::Lt) => true,
        (TokenKind::LtEq, TokenKind::LtEq) => true,
        (TokenKind::Gt, TokenKind::Gt) => true,
        (TokenKind::GtEq, TokenKind::GtEq) => true,
        (TokenKind::Eof, TokenKind::Eof) => true,
        _ => false,
    }
}

fn is_reserved_word(word: &str) -> (r: bool)
    ensures
        r == is_reserved(word@),
{
    eq_ignore_ascii_case(word, "SELECT") || eq_ignore_ascii_case(word, "FROM")
        || eq_ignore_ascii_case(word, "WHERE") || eq_ignore_ascii_case(word, "ORDER")
        || eq_ignore_ascii_case(word, "BY") || eq_ignore_ascii_case(word, "LIMIT")
        || eq_ignore_ascii_case(word, "AND") || eq_ignore_ascii_case(word, "OR")
        || eq_ignore_ascii_case(word, "NOT") || eq_ignore_ascii_case(word, "NULL")
        || eq_ignore_ascii_case(word, "ASC") || eq_ignore_ascii_case(word, "DESC")
        || eq_ignore_ascii_case(word, "INSERT") || eq_ignore_ascii_case(word, "INTO")
        || eq_ignore_ascii_case(word, "VALUES") || eq_ignore_ascii_case(word, "CREATE")
        || eq_ignore_ascii_case(word, "TABLE") || eq_ignore_ascii_case(word, "INT")
        || eq_ignore_ascii_case(word, "TEXT") || eq_ignore_ascii_case(word, "AS")
}

/// How an error message names a token.
fn describe_kind(kind: &TokenKind) -> (r: String)
    ensures
        r@ == describe(kind@),
{
    proof { reveal(describe); }
    match kind {
        TokenKind::Ident(s) => {
            let mut r = string_of("\"");
            push_str(&mut r, s.as_str());
            push_str(&mut r, "\"");
            r
        },
        TokenKind::Int(n) => i64_to_string(*n),
        TokenKind::Str(s) => {
            let mut r = string_of("'");
            push_str(&mut r, s.as_str());
            push_str(&mut r, "'");
            r
        },
        TokenKind::Star => string_of("'*'"),
        TokenKind::Comma => string_of("','"),
        TokenKind::Semicolon => string_of("';'"),
        TokenKind::LParen => string_of("'('"),
        TokenKind::RParen => string_of("')'"),
        TokenKind::Eq => string_of("'='"),
        TokenKind::NotEq => string_of("'!='"),
        TokenKind::Lt => string_of("'<'"),
        TokenKind::LtEq => string_of("'<='"),
        TokenKind::Gt => string_of("'>'"),
        TokenKind::GtEq => string_of("'>='"),
        TokenKind::Eof => string_of("end of input"),
    }
}

/// "expected what".
fn expected_msg(what: &str) -> (r: String)
    ensures
        r@ == "expected "@ + what@,
{
    let mut m = string_of("expected ");
    push_str(&mut m, what);
    m
}

impl Parser {
    spec fn ts(&self) -> Seq<TokenV> {
        tokens_view(self.tokens@)
    }

    /// The tokens end with `Eof` and the position is a token.
    spec fn wf(&self) -> bool {
        &&& self.tokens@.len() > 0
        &&& self.ts()[self.tokens@.len() - 1].kind == TokenKindV::Eof
        &&& self.pos < self.tokens@.len()
    }

    /// A step of the parser: the same tokens, well formed, not moved back.
    spec fn step(&self, after: &Self) -> bool {
        &&& after.wf()
        &&& after.tokens@ == self.tokens@
    }

    fn current(&self) -> (r: &TokenKind)
        requires
            self.wf(),
        ensures
            r@ == self.ts()[self.pos as int].kind,
    {
        &self.tokens[self.pos].kind
    }

    fn advance(&mut self)
        requires
            old(self).wf(),
        ensures
            old(self).step(final(self)),
            final(self).pos == adv(old(self).ts(), old(self).pos as int),
    {
        if self.pos < self.tokens.len() - 1 {
            self.pos = self.pos + 1;
        }
    }

    fn peek_keyword(&self, keyword: &str) -> (r: bool)
        requires
            self.wf(),
        ensures
            r == kw_at(self.ts(), self.pos as int, keyword@),
    {
        match self.current() {
            TokenKind::Ident(s) => eq_ignore_ascii_case(s.as_str(), keyword),
            _ => false,
        }
    }

    fn eat_keyword(&mut self, keyword: &str) -> (r: bool)
        requires
            old(self).wf(),
        ensures
            old(self).step(final(self)),
            r == kw_at(old(self).ts(), old(self).pos as int, keyword@),
            final(self).pos == if r { adv(old(self).ts(), old(self).pos as int) } else { old(self).pos as int },
    {
        if self.peek_keyword(keyword) {
            self.advance();
            true
        } else {
            false
        }
    }

    fn error(&self, message: String) -> (r: ParseError)
        requires
            self.wf(),
        ensures
            r@ == error_at(self.ts(), self.pos as int, message@),
    {
        let mut m = message;
        push_str(&mut m, ", found ");
        let d = describe_kind(self.current());
        push_str(&mut m, d.as_str());
        ParseError { message: m, pos: self.tokens[self.pos].pos }
    }

    fn expect_keyword(&mut self, keyword: &str) -> (r: Result<(), ParseError>)
        requires
            old(self).wf(),
        ensures
            old(self).step(final(self)),
            spec_expect_keyword(old(self).ts(), old(self).pos as int, keyword@) == match r {
                Ok(_) => Ok(final(self).pos as int),
                Err(e) => Err(e@),
            },
            r is Ok ==> final(self).pos >= old(self).pos,
    {
        if self.eat_keyword(keyword) {
            Ok(())
        } else {
            Err(self.error(expected_msg(keyword)))
        }
    }

    fn expect_ident(&mut self, what: &str) -> (r: Result<String, ParseError>)
        requires
            old(self).wf(),
        ensures
            old(self).step(final(self)),
            spec_expect_ident(old(self).ts(), old(self).pos as int, what@) == match r {
                Ok(s) => Ok((s@, final(self).pos as int)),
                Err(e) => Err(e@),
            },
            r is Ok ==> final(self).pos >= old(self).pos,
    {
        let found = match self.current() {
            TokenKind::Ident(s) => Some(s.clone()),
            _ => None,
        };
        match found {
            Some(s) => {
                self.advance();
                Ok(s)
            },
            None => Err(self.error(expected_msg(what))),
        }
    }

    fn parse_name(&mut self, what: &str) -> (r: Result<String, ParseError>)
        requires
            old(self).wf(),
        ensures
            old(self).step(final(self)),
            spec_parse_name(old(self).ts(), old(self).pos as int, what@) == match r {
                Ok(s) => Ok((s@, final(self).pos as int)),
                Err(e) => Err(e@),
            },
            r is Ok ==> final(self).pos >= old(self).pos,
    {
        let found = match self.current() {
            TokenKind::Ident(s) => if !is_reserved_word(s.as_str()) {
                Some(s.clone())
            } else {
                None
            },
            _ => None,
        };
        match found {
            Some(s) => {
                self.advance();
                Ok(s)
            },
            None => Err(self.error(expected_msg(what))),
        }
    }

    fn eat(&mut self, kind: &TokenKind) -> (r: bool)
        requires
            old(self).wf(),
        ensures
            old(self).step(final(self)),
            r == (old(self).ts()[old(self).pos as int].kind == kind@),
            final(self).pos == if r { adv(old(self).ts(), old(self).pos as int) } else { old(self).pos as int },
    {
        if kind_eq(self.current(), kind) {
            self.advance();
            true
        } else {
            false
        }
    }

    fn expect(&mut self, kind: &TokenKind, what: &str) -> (r: Result<(), ParseError>)
        requires
            old(self).wf(),
        ensures
            old(self).step(final(self)),
            spec_expect(old(self).ts(), old(self).pos as int, kind@, what@) == match r {
                Ok(_) => Ok(final(self).pos as int),
                Err(e) => Err(e@),
            },
            r is Ok ==> final(self).pos >= old(self).pos,
    {
        if self.eat(kind) {
            Ok(())
        } else {
            Err(self.error(expected_msg(what)))
        }
    }

    fn parse_expr(&mut self) -> (r: Result<Expr, ParseError>)
        requires
            old(self).wf(),
        ensures
            old(self).step(final(self)),
            spec_expr(old(self).ts(), old(self).pos as int) == match r {
                Ok(e) => Ok((e@, final(self).pos as int)),
                Err(e) => Err(e@),
            },
            r is Ok ==> final(self).pos >= old(self).pos,
        decreases old(self).tokens@.len() - old(self).pos, 5int,
    {
        let ghost ts = self.ts();
        let ghost p0 = self.pos as int;
        let mut left = match self.parse_and() {
            Ok(e) => e,
            Err(e) => {
                return Err(e);
            },
        };
        loop
            invariant
                self.wf(),
                self.tokens@ == old(self).tokens@,
                self.ts() == ts,
                ts == old(self).ts(),
                p0 == old(self).pos,
                p0 <= self.pos,
                spec_expr(ts, p0) == spec_or_tail(ts, self.pos as int, left@),
            decreases self.tokens@.len() - self.pos,
        {
            let ghost p = self.pos as int;
            if !self.eat_keyword("OR") {
                return Ok(left);
            }
            proof { self.lemma_adv_non_eof_at(ts, p); }
            let right = match self.parse_and() {
                Ok(e) => e,
                Err(e) => {
                    return Err(e);
                },
            };
            left = Expr::Or(Box::new(left), Box::new(right));
        }
    }

    proof fn lemma_adv_non_eof_at(&self, ts: Seq<TokenV>, p: int)
        requires
            self.wf(),
            self.ts() == ts,
            0 <= p < ts.len(),
            ts[p].kind != TokenKindV::Eof,
        ensures
            adv(ts, p) == p + 1,
    {
    }

    fn parse_and(&mut self) -> (r: Result<Expr, ParseError>)
        requires
            old(self).wf(),
        ensures
            old(self).step(final(self)),
            spec_and(old(self).ts(), old(self).pos as int) == match r {
                Ok(e) => Ok((e@, final(self).pos as int)),
                Err(e) => Err(e@),
            },
            r is Ok ==> final(self).pos >= old(self).pos,
        decreases old(self).tokens@.len() - old(self).pos, 3int,
    {
        let ghost ts = self.ts();
        let ghost p0 = self.pos as int;
        let mut left = match self.parse_compare() {
            Ok(e) => e,
            Err(e) => {
                return Err(e);
            },
        };
        loop
            invariant
                self.wf(),
                self.tokens@ == old(self).tokens@,
                self.ts() == ts,
                ts == old(self).ts(),
                p0 == old(self).pos,
                p0 <= self.pos,
                spec_and(ts, p0) == spec_and_tail(ts, self.pos as int, left@),
            decreases self.tokens@.len() - self.pos,
        {
            let ghost p = self.pos as int;
            if !self.eat_keyword("AND") {
                return Ok(left);
            }
            proof { self.lemma_adv_non_eof_at(ts, p); }

            let right = match self.parse_compare() {
                Ok(e) => e,
                Err(e) => {
                    return Err(e);
                },
            };
            left = Expr::And(Box::new(left), Box::new(right));
        }
    }

    fn eat_compare_op(&mut self) -> (r: Option<CompareOp>)
        requires
            old(self).wf(),
        ensures
            old(self).step(final(self)),
            r == compare_op_of(old(self).ts()[old(self).pos as int].kind),
            final(self).pos == if r is Some { adv(old(self).ts(), old(self).pos as int) } else { old(self).pos as int },
    {
        let op = match self.current() {
            TokenKind::Eq => CompareOp::Eq,
            TokenKind::NotEq => CompareOp::NotEq,
            TokenKind::Lt => CompareOp::Lt,
            TokenKind::LtEq => CompareOp::LtEq,
            TokenKind::Gt => CompareOp::Gt,
            TokenKind::GtEq => CompareOp::GtEq,
            _ => {
                return None;
            },
        };
        self.advance();
        Some(op)
    }

    fn parse_compare(&mut self) -> (r: Result<Expr, ParseError>)
        requires
            old(self).wf(),
        ensures
            old(self).step(final(self)),
            spec_compare(old(self).ts(), old(self).pos as int) == match r {
                Ok(e) => Ok((e@, final(self).pos as int)),
                Err(e) => Err(e@),
            },
            r is Ok ==> final(self).pos >= old(self).pos,
        decreases old(self).tokens@.len() - old(self).pos, 1int,
    {
        let left = match self.parse_primary() {
            Ok(e) => e,
            Err(e) => {
                return Err(e);
            },
        };
        match self.eat_compare_op() {
            Some(op) => {
                let right = match self.parse_primary() {
                    Ok(e) => e,
                    Err(e) => {
                        return Err(e);
                    },
                };
                Ok(Expr::Compare { left: Box::new(left), op, right: Box::new(right) })
            },
            None => Ok(left),
        }
    }

    fn parse_primary(&mut self) -> (r: Result<Expr, ParseError>)
        requires
            old(self).wf(),
        ensures
            old(self).step(final(self)),
            spec_primary(old(self).ts(), old(self).pos as int) == match r {
                Ok(e) => Ok((e@, final(self).pos as int)),
                Err(e) => Err(e@),
            },
            r is Ok ==> final(self).pos >= old(self).pos,
        decreases old(self).tokens@.len() - old(self).pos, 0int,
    {
        let ghost ts = self.ts();
        let ghost p = self.pos as int;
        match self.current() {
            TokenKind::LParen => {
                self.advance();
                proof { self.lemma_adv_non_eof_at(ts, p); }
                let expr = match self.parse_expr() {
                    Ok(e) => e,
                    Err(e) => {
                        return Err(e);
                    },
                };
                match self.expect(&TokenKind::RParen, "')' after expression") {
                    Ok(()) => {},
                    Err(e) => {
                        return Err(e);
                    },
                }
                Ok(expr)
            },
            TokenKind::Int(n) => {
                let n = *n;
                self.advance();
                Ok(Expr::Literal(Literal::Int(n)))
            },
            TokenKind::Str(s) => {
                let s = s.clone();
                self.advance();
                Ok(Expr::Literal(Literal::Str(s)))
            },
            TokenKind::Ident(s) => {
                if eq_ignore_ascii_case(s.as_str(), "NULL") {
                    self.advance();
                    Ok(Expr::Literal(Literal::Null))
                } else if !is_reserved_word(s.as_str()) {
                    let s = s.clone();
                    self.advance();
                    proof { self.lemma_adv_non_eof_at(ts, p); }
                    if kind_eq(self.current(), &TokenKind::LParen) {
                        let ghost p1 = self.pos as int;
                        self.advance();
                        proof { self.lemma_adv_non_eof_at(ts, p1); }
                        let arg = match self.parse_expr() {
                            Ok(e) => e,
                            Err(e) => {
                                return Err(e);
                            },
                        };
                        match self.expect(&TokenKind::RParen, "')' after function argument") {
                            Ok(()) => {},
                            Err(e) => {
                                return Err(e);
                            },
                        }
                        Ok(Expr::Function { name: s, arg: Box::new(arg) })
                    } else {
                        Ok(Expr::Column(s))
                    }
                } else {
                    Err(self.error(string_of("expected an expression")))
                }
            },
            _ => Err(self.error(string_of("expected an expression"))),
        }
    }

    fn parse_select_item(&mut self) -> (r: Result<SelectItem, ParseError>)
        requires
            old(self).wf(),
        ensures
            old(self).step(final(self)),
            spec_select_item(old(self).ts(), old(self).pos as int) == match r {
                Ok(i) => Ok((i@, final(self).pos as int)),
                Err(e) => Err(e@),
            },
            r is Ok ==> final(self).pos >= old(self).pos,
    {
        proof { reveal(spec_select_item); }
        let expr = match self.parse_expr() {
            Ok(e) => e,
            Err(e) => {
                return Err(e);
            },
        };
        let alias = if self.eat_keyword("AS") {
            match self.expect_ident("alias") {
                Ok(a) => Some(a),
                Err(e) => {
                    return Err(e);
                },
            }
        } else {
            None
        };
        Ok(SelectItem { expr, alias })
    }

    fn parse_projection(&mut self) -> (r: Result<Projection, ParseError>)
        requires
            old(self).wf(),
        ensures
            old(self).step(final(self)),
            spec_projection(old(self).ts(), old(self).pos as int) == match r {
                Ok(p) => Ok((p@, final(self).pos as int)),
                Err(e) => Err(e@),
            },
            r is Ok ==> final(self).pos >= old(self).pos,
    {
        proof { reveal(spec_projection); }
        let ghost ts = self.ts();
        let ghost p0 = self.pos as int;
        if self.eat(&TokenKind::Star) {
            return Ok(Projection::All);
        }
        let first = match self.parse_select_item() {
            Ok(i) => i,
            Err(e) => {
                return Err(e);
            },
        };
        let mut items: Vec<SelectItem> = Vec::new();
        items.push(first);
        let ghost q0 = self.pos as int;
        proof {
            assert(items_view(items@) =~= seq![items@[0]@]);
            assert(items_view(items@).take(1) =~= items_view(items@));
        }
        loop
            invariant
                self.wf(),
                self.tokens@ == old(self).tokens@,
                self.ts() == ts,
                ts == old(self).ts(),
                p0 == old(self).pos,
                q0 <= self.pos,
                p0 <= self.pos,
                spec_projection(ts, p0) == projection_finish(spec_items_tail(ts, self.pos as int, items_view(items@))),
                items@.len() >= 1,
            decreases self.tokens@.len() - self.pos,
        {
            let ghost p = self.pos as int;
            if !self.eat(&TokenKind::Comma) {
                return Ok(Projection::Items(items));
            }
            proof { self.lemma_adv_non_eof_at(ts, p); }
            let ghost p1 = self.pos as int;
            let item = match self.parse_select_item() {
                Ok(i) => i,
                Err(e) => {
                    return Err(e);
                },
            };
            proof {
            }
            let ghost prev = items@;
            items.push(item);
            proof {
                assert(items_view(items@) =~= items_view(prev).push(item@));
                assert(items_view(items@).take(1) =~= items_view(prev).take(1));
            }
        }
    }

    fn parse_select(&mut self) -> (r: Result<Select, ParseError>)
        requires
            old(self).wf(),
        ensures
            old(self).step(final(self)),
            spec_select(old(self).ts(), old(self).pos as int) == match r {
                Ok(s) => Ok((s@, final(self).pos as int)),
                Err(e) => Err(e@),
            },
            r is Ok ==> final(self).pos >= old(self).pos,
    {
        proof { reveal(spec_select); reveal(spec_limit_clause); }
        match self.expect_keyword("SELECT") {
            Ok(()) => {},
            Err(e) => {
                return Err(e);
            },
        }
        let projection = match self.parse_projection() {
            Ok(p) => p,
            Err(e) => {
                return Err(e);
            },
        };
        match self.expect_keyword("FROM") {
            Ok(()) => {},
            Err(e) => {
                return Err(e);
            },
        }
        let from = match self.parse_name("table name") {
            Ok(n) => n,
            Err(e) => {
                return Err(e);
            },
        };
        let filter = match self.parse_filter() {
            Ok(f) => f,
            Err(e) => {
                return Err(e);
            },
        };
        let order_by = match self.parse_order_by() {
            Ok(o) => o,
            Err(e) => {
                return Err(e);
            },
        };
        let limit = if self.eat_keyword("LIMIT") {
            match self.parse_limit() {
                Ok(n) => Some(n),
                Err(e) => {
                    return Err(e);
                },
            }
        } else {
            None
        };
        Ok(Select { projection, from, filter, order_by, limit })
    }

    fn parse_filter(&mut self) -> (r: Result<Option<Expr>, ParseError>)
        requires
            old(self).wf(),
        ensures
            old(self).step(final(self)),
            spec_filter(old(self).ts(), old(self).pos as int) == match r {
                Ok(Some(e)) => Ok((Some(e@), final(self).pos as int)),
                Ok(None) => Ok((None, final(self).pos as int)),
                Err(e) => Err(e@),
            },
            r is Ok ==> final(self).pos >= old(self).pos,
    {
        proof { reveal(spec_filter); }
        if self.eat_keyword("WHERE") {
            match self.parse_expr() {
                Ok(e) => Ok(Some(e)),
                Err(e) => Err(e),
            }
        } else {
            Ok(None)
        }
    }

    fn parse_order_by(&mut self) -> (r: Result<Option<OrderBy>, ParseError>)
        requires
            old(self).wf(),
        ensures
            old(self).step(final(self)),
            spec_order_by(old(self).ts(), old(self).pos as int) == match r {
                Ok(Some(o)) => Ok((Some(o@), final(self).pos as int)),
                Ok(None) => Ok((None, final(self).pos as int)),
                Err(e) => Err(e@),
            },
            r is Ok ==> final(self).pos >= old(self).pos,
    {
        proof { reveal(spec_order_by); }
        if self.eat_keyword("ORDER") {
            match self.expect_keyword("BY") {
                Ok(()) => {},
                Err(e) => {
                    return Err(e);
                },
            }
            let column = match self.parse_name("column name") {
                Ok(n) => n,
                Err(e) => {
                    return Err(e);
                },
            };
            let descending = if self.eat_keyword("DESC") {
                true
            } else {
                self.eat_keyword("ASC");
                false
            };
            Ok(Some(OrderBy { column, descending }))
        } else {
            Ok(None)
        }
    }

    fn parse_limit(&mut self) -> (r: Result<i64, ParseError>)
        requires
            old(self).wf(),
        ensures
            old(self).step(final(self)),
            spec_parse_limit(old(self).ts(), old(self).pos as int) == match r {
                Ok(n) => Ok((n, final(self).pos as int)),
                Err(e) => Err(e@),
            },
            r is Ok ==> final(self).pos >= old(self).pos,
    {
        proof { reveal(spec_parse_limit); }
        let found = match self.current() {
            TokenKind::Int(n) => Some(*n),
            _ => None,
        };
        match found {
            Some(n) => {
                self.advance();
                Ok(n)
            },
            None => Err(self.error(string_of("expected a number after LIMIT"))),
        }
    }

    fn parse_create_table(&mut self) -> (r: Result<CreateTable, ParseError>)
        requires
            old(self).wf(),
        ensures
            old(self).step(final(self)),
            spec_create_table(old(self).ts(), old(self).pos as int) == match r {
                Ok(c) => Ok((c@, final(self).pos as int)),
                Err(e) => Err(e@),
            },
            r is Ok ==> final(self).pos >= old(self).pos,
    {
        proof { reveal(spec_create_table); }
        let ghost ts = self.ts();
        let ghost p0 = self.pos as int;
        match self.expect_keyword("CREATE") {
            Ok(()) => {},
            Err(e) => {
                return Err(e);
            },
        }
        match self.expect_keyword("TABLE") {
            Ok(()) => {},
            Err(e) => {
                return Err(e);
            },
        }
        let table = match self.expect_ident("table name") {
            Ok(t) => t,
            Err(e) => {
                return Err(e);
            },
        };
        match self.expect(&TokenKind::LParen, "'(' after table name") {
            Ok(()) => {},
            Err(e) => {
                return Err(e);
            },
        }
        let first = match self.parse_column_def() {
            Ok(c) => c,
            Err(e) => {
                return Err(e);
            },
        };
        let mut columns: Vec<ColumnDef> = Vec::new();
        columns.push(first);
        let ghost q0 = self.pos as int;
        proof {
            assert(columns@.map_values(|c: ColumnDef| c@) =~= seq![columns@[0]@]);
            assert(columns@.map_values(|c: ColumnDef| c@).take(1) =~= columns@.map_values(|c: ColumnDef| c@));
        }
        loop
            invariant
                self.wf(),
                self.tokens@ == old(self).tokens@,
                self.ts() == ts,
                ts == old(self).ts(),
                p0 == old(self).pos,
                q0 <= self.pos,
                p0 <= self.pos,
                spec_create_table(ts, p0) == create_finish(ts, table@, spec_columns_tail(ts, self.pos as int, columns@.map_values(|c: ColumnDef| c@))),
                columns@.len() >= 1,
            decreases self.tokens@.len() - self.pos,
        {
            let ghost p = self.pos as int;
            if !self.eat(&TokenKind::Comma) {
                match self.expect(&TokenKind::RParen, "',' or ')' in column list") {
                    Ok(()) => {},
                    Err(e) => {
                        return Err(e);
                    },
                }
                return Ok(CreateTable { table, columns });
            }
            proof { self.lemma_adv_non_eof_at(ts, p); }
            let ghost p1 = self.pos as int;
            let c = match self.parse_column_def() {
                Ok(c) => c,
                Err(e) => {
                    return Err(e);
                },
            };
            proof {
                assert(spec_column_def(ts, p1) == Ok::<(ColumnDefV, int), ParseErrorV>((c@, self.pos as int)));
            }
            let ghost prev = columns@;
            columns.push(c);
            proof {
                assert(columns@.map_values(|c: ColumnDef| c@) =~= prev.map_values(|c: ColumnDef| c@).push(c@));
                assert(columns@.map_values(|c: ColumnDef| c@).take(1) =~= prev.map_values(|c: ColumnDef| c@).take(1));
            }
        }
    }

    fn parse_column_def(&mut self) -> (r: Result<ColumnDef, ParseError>)
        requires
            old(self).wf(),
        ensures
            old(self).step(final(self)),
            spec_column_def(old(self).ts(), old(self).pos as int) == match r {
                Ok(c) => Ok((c@, final(self).pos as int)),
                Err(e) => Err(e@),
            },
            r is Ok ==> final(self).pos >= old(self).pos,
    {
        proof { reveal(spec_column_def); }
        let name = match self.expect_ident("column name") {
            Ok(n) => n,
            Err(e) => {
                return Err(e);
            },
        };
        let ty = match self.parse_data_type() {
            Ok(t) => t,
            Err(e) => {
                return Err(e);
            },
        };
        let nullable = if self.eat_keyword("NOT") {
            match self.expect_keyword("NULL") {
                Ok(()) => {},
                Err(e) => {
                    return Err(e);
                },
            }
            false
        } else {
            self.eat_keyword("NULL");
            true
        };
        Ok(ColumnDef { name, ty, nullable })
    }

    fn parse_data_type(&mut self) -> (r: Result<DataType, ParseError>)
        requires
            old(self).wf(),
        ensures
            old(self).step(final(self)),
            spec_data_type(old(self).ts(), old(self).pos as int) == match r {
                Ok(t) => Ok((t, final(self).pos as int)),
                Err(e) => Err(e@),
            },
            r is Ok ==> final(self).pos >= old(self).pos,
    {
        proof { reveal(spec_data_type); }
        if self.eat_keyword("INT") {
            Ok(DataType::Int)
        } else if self.eat_keyword("TEXT") {
            Ok(DataType::Text)
        } else {
            Err(self.error(string_of("expected a column type (INT or TEXT)")))
        }
    }

    fn parse_insert_columns(&mut self) -> (r: Result<Option<Vec<String>>, ParseError>)
        requires
            old(self).wf(),
        ensures
            old(self).step(final(self)),
            spec_insert_columns(old(self).ts(), old(self).pos as int) == match r {
                Ok(Some(v)) => Ok((Some(names_view(v@)), final(self).pos as int)),
                Ok(None) => Ok((None, final(self).pos as int)),
                Err(e) => Err(e@),
            },
            r is Ok ==> final(self).pos >= old(self).pos,
    {
        proof { reveal(spec_insert_columns); }
        let ghost ts = self.ts();
        let ghost p0 = self.pos as int;
        if !self.eat(&TokenKind::LParen) {
            return Ok(None);
        }
        let first = match self.expect_ident("column name") {
            Ok(n) => n,
            Err(e) => {
                return Err(e);
            },
        };
        let mut names: Vec<String> = Vec::new();
        names.push(first);
        let ghost q0 = self.pos as int;
        proof {
            assert(names_view(names@) =~= seq![names@[0]@]);
            assert(names_view(names@).take(1) =~= names_view(names@));
        }
        loop
            invariant
                self.wf(),
                self.tokens@ == old(self).tokens@,
                self.ts() == ts,
                ts == old(self).ts(),
                p0 == old(self).pos,
                q0 <= self.pos,
                p0 <= self.pos,
                spec_insert_columns(ts, p0) == columns_finish(ts, spec_names_tail(ts, self.pos as int, names_view(names@))),
                names@.len() >= 1,
            decreases self.tokens@.len() - self.pos,
        {
            let ghost p = self.pos as int;
            if !self.eat(&TokenKind::Comma) {
                match self.expect(&TokenKind::RParen, "')' after column list") {
                    Ok(()) => {},
                    Err(e) => {
                        return Err(e);
                    },
                }
                return Ok(Some(names));
            }
            proof { self.lemma_adv_non_eof_at(ts, p); }
            let ghost p1 = self.pos as int;
            let n = match self.expect_ident("column name") {
                Ok(n) => n,
                Err(e) => {
                    return Err(e);
                },
            };
            proof {
            }
            let ghost prev = names@;
            names.push(n);
            proof {
                assert(names_view(names@) =~= names_view(prev).push(n@));
                assert(names_view(names@).take(1) =~= names_view(prev).take(1));
            }
        }
    }

    fn parse_insert(&mut self) -> (r: Result<Insert, ParseError>)
        requires
            old(self).wf(),
        ensures
            old(self).step(final(self)),
            spec_insert(old(self).ts(), old(self).pos as int) == match r {
                Ok(i) => Ok((i@, final(self).pos as int)),
                Err(e) => Err(e@),
            },
            r is Ok ==> final(self).pos >= old(self).pos,
    {
        proof { reveal(spec_insert); }
        let ghost ts = self.ts();
        let ghost p0 = self.pos as int;
        match self.expect_keyword("INSERT") {
            Ok(()) => {},
            Err(e) => {
                return Err(e);
            },
        }
        match self.expect_keyword("INTO") {
            Ok(()) => {},
            Err(e) => {
                return Err(e);
            },
        }
        let table = match self.expect_ident("table name") {
            Ok(t) => t,
            Err(e) => {
                return Err(e);
            },
        };
        let columns = match self.parse_insert_columns() {
            Ok(c) => c,
            Err(e) => {
                return Err(e);
            },
        };
        match self.expect_keyword("VALUES") {
            Ok(()) => {},
            Err(e) => {
                return Err(e);
            },
        }
        match self.expect(&TokenKind::LParen, "'(' before value list") {
            Ok(()) => {},
            Err(e) => {
                return Err(e);
            },
        }
        let ghost colsv: Option<Seq<Seq<char>>> = match &columns {
            Some(v) => Some(names_view(v@)),
            None => None,
        };
        let first = match self.parse_literal() {
            Ok(l) => l,
            Err(e) => {
                return Err(e);
            },
        };
        let mut values: Vec<Literal> = Vec::new();
        values.push(first);
        let ghost q0 = self.pos as int;
        proof {
            assert(literals_view(values@) =~= seq![values@[0]@]);
            assert(literals_view(values@).take(1) =~= literals_view(values@));
        }
        loop
            invariant
                self.wf(),
                self.tokens@ == old(self).tokens@,
                self.ts() == ts,
                ts == old(self).ts(),
                p0 == old(self).pos,
                q0 <= self.pos,
                p0 <= self.pos,
                colsv == (match columns {
                    Some(v) => Some(names_view(v@)),
                    None => None::<Seq<Seq<char>>>,
                }),
                spec_insert(ts, p0) == insert_finish(ts, table@, colsv, spec_values_tail(ts, self.pos as int, literals_view(values@))),
                values@.len() >= 1,
            decreases self.tokens@.len() - self.pos,
        {
            let ghost p = self.pos as int;
            if !self.eat(&TokenKind::Comma) {
                match self.expect(&TokenKind::RParen, "')' after value list") {
                    Ok(()) => {},
                    Err(e) => {
                        return Err(e);
                    },
                }
                return Ok(Insert { table, columns, values });
            }
            proof { self.lemma_adv_non_eof_at(ts, p); }
            let ghost p1 = self.pos as int;
            let l = match self.parse_literal() {
                Ok(l) => l,
                Err(e) => {
                    return Err(e);
                },
            };
            proof {
            }
            let ghost prev = values@;
            values.push(l);
            proof {
                assert(literals_view(values@) =~= literals_view(prev).push(l@));
                assert(literals_view(values@).take(1) =~= literals_view(prev).take(1));
            }
        }
    }

    fn parse_literal(&mut self) -> (r: Result<Literal, ParseError>)
        requires
            old(self).wf(),
        ensures
            old(self).step(final(self)),
            spec_literal(old(self).ts(), old(self).pos as int) == match r {
                Ok(l) => Ok((l@, final(self).pos as int)),
                Err(e) => Err(e@),
            },
            r is Ok ==> final(self).pos >= old(self).pos,
    {
        proof { reveal(spec_literal); }
        let found = match self.current() {
            TokenKind::Int(n) => Some(Literal::Int(*n)),
            TokenKind::Str(s) => Some(Literal::Str(s.clone())),
            TokenKind::Ident(kw) => if eq_ignore_ascii_case(kw.as_str(), "NULL") {
                Some(Literal::Null)
            } else {
                None
            },
            _ => None,
        };
        match found {
            Some(l) => {
                self.advance();
                Ok(l)
            },
            None => Err(self.error(string_of("expected a value (number, string, or NULL)"))),
        }
    }

    fn parse_statement(&mut self) -> (r: Result<Statement, ParseError>)
        requires
            old(self).wf(),
        ensures
            old(self).step(final(self)),
            spec_statement(old(self).ts(), old(self).pos as int) == match r {
                Ok(s) => Ok((s@, final(self).pos as int)),
                Err(e) => Err(e@),
            },
    {
        proof { reveal(spec_statement); }
        if self.peek_keyword("CREATE") {
            match self.parse_create_table() {
                Ok(c) => Ok(Statement::CreateTable(c)),
                Err(e) => Err(e),
            }
        } else if self.peek_keyword("INSERT") {
            match self.parse_insert() {
                Ok(i) => Ok(Statement::Insert(i)),
                Err(e) => Err(e),
            }
        } else if self.peek_keyword("SELECT") {
            match self.parse_select() {
                Ok(s) => Ok(Statement::Select(s)),
                Err(e) => Err(e),
            }
        } else {
            Err(self.error(string_of("expected CREATE, INSERT, or SELECT")))
        }
    }

    fn expect_end(&mut self) -> (r: Result<(), ParseError>)
        requires
            old(self).wf(),
        ensures
            old(self).step(final(self)),
            spec_expect_end(old(self).ts(), old(self).pos as int) == match r {
                Ok(_) => Ok(final(self).pos as int),
                Err(e) => Err(e@),
            },
    {
        proof { reveal(spec_expect_end); }
        self.eat(&TokenKind::Semicolon);
        let at_end = match self.current() {
            TokenKind::Eof => true,
            _ => false,
        };
        if at_end {
            Ok(())
        } else {
            Err(self.error(string_of("expected end of statement")))
        }
    }
}

} // verus!
