use vstd::prelude::*;
use vstd::utf8::*;

use crate::text::{push_char, push_str, string_from_utf8, string_of};

verus! {

broadcast use vstd::utf8::encode_utf8_valid_utf8;

/// The kinds of token of the SQL subset.
#[derive(Debug, Clone, PartialEq, Eq)]
pub enum TokenKind {
    Ident(String),
    Int(i64),
    Str(String),
    Star,
    Comma,
    Semicolon,
    LParen,
    RParen,
    Eq,
    NotEq,
    Lt,
    LtEq,
    Gt,
    GtEq,
    Eof,
}

/// The model of a token kind.
pub ghost enum TokenKindV {
    Ident(Seq<char>),
    Int(i64),
    Str(Seq<char>),
    Star,
    Comma,
    Semicolon,
    LParen,
    RParen,
    Eq,
    NotEq,
    Lt,
    LtEq,
    Gt,
    GtEq,
    Eof,
}

impl View for TokenKind {
    type V = TokenKindV;

    open spec fn view(&self) -> TokenKindV {
        match self {
            TokenKind::Ident(s) => TokenKindV::Ident(s@),
            TokenKind::Int(n) => TokenKindV::Int(*n),
            TokenKind::Str(s) => TokenKindV::Str(s@),
            TokenKind::Star => TokenKindV::Star,
            TokenKind::Comma => TokenKindV::Comma,
            TokenKind::Semicolon => TokenKindV::Semicolon,
            TokenKind::LParen => TokenKindV::LParen,
            TokenKind::RParen => TokenKindV::RParen,
            TokenKind::Eq => TokenKindV::Eq,
            TokenKind::NotEq => TokenKindV::NotEq,
            TokenKind::Lt => TokenKindV::Lt,
            TokenKind::LtEq => TokenKindV::LtEq,
            TokenKind::Gt => TokenKindV::Gt,
            TokenKind::GtEq => TokenKindV::GtEq,
            TokenKind::Eof => TokenKindV::Eof,
        }
    }
}

/// A token and the byte offset where it starts.
#[derive(Debug, Clone, PartialEq, Eq)]
pub struct Token {
    pub kind: TokenKind,
    pub pos: usize,
}

/// The model of a token.
pub ghost struct TokenV {
    pub kind: TokenKindV,
    pub pos: usize,
}

impl View for Token {
    type V = TokenV;

    open spec fn view(&self) -> TokenV {
        TokenV { kind: self.kind@, pos: self.pos }
    }
}

/// An error of the lexer or parser, at a byte offset of the input.
#[derive(Debug, Clone, PartialEq, Eq)]
pub struct ParseError {
    pub message: String,
    pub pos: usize,
}

/// The model of a parse error.
pub ghost struct ParseErrorV {
    pub message: Seq<char>,
    pub pos: usize,
}

impl View for ParseError {
    type V = ParseErrorV;

    open spec fn view(&self) -> ParseErrorV {
        ParseErrorV { message: self.message@, pos: self.pos }
    }
}

/// The text that describes a parse error: "parse error at position N: message".
pub open spec fn parse_error_text(e: ParseErrorV) -> Seq<char> {
    "parse error at position "@ + crate::text::digits(e.pos as nat) + ": "@ + e.message
}

impl ParseError {
    /// "parse error at position N: message".
    pub fn to_string(&self) -> (r: String)
        ensures
            r@ == parse_error_text(self@),
    {
        let mut s = string_of("parse error at position ");
        crate::text::push_usize(&mut s, self.pos);
        push_str(&mut s, ": ");
        push_str(&mut s, self.message.as_str());
        s
    }
}

/// The models of a sequence of tokens.
pub open spec fn tokens_view(ts: Seq<Token>) -> Seq<TokenV> {
    ts.map_values(|t: Token| t@)
}

/// `u8::is_ascii_whitespace`: space, tab, line feed, form feed, carriage return.
pub open spec fn is_ws(c: u8) -> bool {
    c == 32 || c == 9 || c == 10 || c == 12 || c == 13
}

/// `u8::is_ascii_digit`.
pub open spec fn is_digit(c: u8) -> bool {
    48 <= c <= 57
}

/// `u8::is_ascii_alphabetic`.
pub open spec fn is_alpha(c: u8) -> bool {
    (65 <= c <= 90) || (97 <= c <= 122)
}

/// A byte that may continue an identifier.
pub open spec fn is_ident_char(c: u8) -> bool {
    is_alpha(c) || is_digit(c) || c == 95
}

/// The end of the run of digits that starts at `j`.
pub open spec fn digits_end(b: Seq<u8>, j: int) -> int
    decreases b.len() - j,
{
    if 0 <= j < b.len() && is_digit(b[j]) {
        digits_end(b, j + 1)
    } else {
        j
    }
}

/// The end of the run of identifier bytes that starts at `j`.
pub open spec fn ident_end(b: Seq<u8>, j: int) -> int
    decreases b.len() - j,
{
    if 0 <= j < b.len() && is_ident_char(b[j]) {
        ident_end(b, j + 1)
    } else {
        j
    }
}

/// The position of the first quote at or after `j`, or the length when none.
pub open spec fn quote_at(b: Seq<u8>, j: int) -> int
    decreases b.len() - j,
{
    if j < 0 || j >= b.len() {
        b.len() as int
    } else if b[j] == 39 {
        j
    } else {
        quote_at(b, j + 1)
    }
}

/// The number that the decimal digits `b[s..e]` denote.
pub open spec fn digits_value(b: Seq<u8>, s: int, e: int) -> int
    decreases e - s,
{
    if e <= s {
        0
    } else {
        digits_value(b, s, e - 1) * 10 + (b[e - 1] - 48)
    }
}

pub proof fn lemma_digits_end(b: Seq<u8>, j: int)
    requires
        0 <= j,
    ensures
        j <= digits_end(b, j),
        digits_end(b, j) <= b.len() || digits_end(b, j) == j,
        forall|k: int| j <= k < digits_end(b, j) ==> is_digit(#[trigger] b[k]),
        0 <= digits_end(b, j) < b.len() ==> !is_digit(b[digits_end(b, j)]),
    decreases b.len() - j,
{
    if 0 <= j < b.len() && is_digit(b[j]) {
        lemma_digits_end(b, j + 1);
    }
}

pub proof fn lemma_ident_end(b: Seq<u8>, j: int)
    requires
        0 <= j,
    ensures
        j <= ident_end(b, j),
        ident_end(b, j) <= b.len() || ident_end(b, j) == j,
        forall|k: int| j <= k < ident_end(b, j) ==> is_ident_char(#[trigger] b[k]),
        0 <= ident_end(b, j) < b.len() ==> !is_ident_char(b[ident_end(b, j)]),
    decreases b.len() - j,
{
    if 0 <= j < b.len() && is_ident_char(b[j]) {
        lemma_ident_end(b, j + 1);
    }
}

pub proof fn lemma_quote_at(b: Seq<u8>, j: int)
    requires
        0 <= j,
    ensures
        j <= quote_at(b, j) || j > b.len(),
        quote_at(b, j) <= b.len(),
        forall|k: int| j <= k < quote_at(b, j) ==> b[k] != 39,
        quote_at(b, j) < b.len() ==> b[quote_at(b, j)] == 39,
    decreases b.len() - j,
{
    if j < b.len() && b[j] != 39 {
        lemma_quote_at(b, j + 1);
    }
}

proof fn lemma_digits_value_mono(b: Seq<u8>, s: int, k: int, e: int)
    requires
        s <= k <= e,
        forall|q: int| s <= q < e ==> is_digit(#[trigger] b[q]),
    ensures
        0 <= digits_value(b, s, k) <= digits_value(b, s, e),
    decreases e - k,
{
    if k < e {
        lemma_digits_value_mono(b, s, k, e - 1);
        lemma_digits_value_nonneg(b, s, e - 1);
    } else {
        lemma_digits_value_nonneg(b, s, e);
    }
}

proof fn lemma_digits_value_nonneg(b: Seq<u8>, s: int, e: int)
    requires
        forall|q: int| s <= q < e ==> is_digit(#[trigger] b[q]),
    ensures
        0 <= digits_value(b, s, e),
    decreases e - s,
{
    if e > s {
        lemma_digits_value_nonneg(b, s, e - 1);
    }
}

/// The characters of ASCII bytes.
pub open spec fn ascii_chars(b: Seq<u8>) -> Seq<char> {
    b.map_values(|c: u8| c as char)
}

/// The message for a byte that starts no token.
pub open spec fn unexpected_message(c: u8) -> Seq<char> {
    "unexpected character, found '"@ + seq![c as char] + "'"@
}

/// How a lexer error names what it found at byte `j`: the byte in quotes,
/// or the end of the input.
pub open spec fn found_at(b: Seq<u8>, j: int) -> Seq<char> {
    if 0 <= j < b.len() {
        "'"@ + seq![b[j] as char] + "'"@
    } else {
        "end of input"@
    }
}

/// The message for '!' not followed by '='.
pub open spec fn bang_message(b: Seq<u8>, i: int) -> Seq<char> {
    "expected '=' after '!', found "@ + found_at(b, i + 1)
}

/// The message for a string literal without its closing quote.
pub open spec fn unterminated_message() -> Seq<char> {
    "unterminated string literal, found end of input"@
}

/// The message for an integer literal, bytes `i` to `e`, that does not fit.
pub open spec fn range_message(b: Seq<u8>, i: int, e: int) -> Seq<char> {
    "integer literal out of range, found "@ + ascii_chars(b.subrange(i, e))
}

/// The tokens of `b` from byte `i` on, ending with `Eof` at the end of the
/// input, or the first error. Whitespace separates tokens; the longest
/// identifier, number or two-byte operator is taken.
pub open spec fn lex_from(b: Seq<u8>, i: int) -> Result<Seq<TokenV>, ParseErrorV>
    decreases b.len() - i,
    when 0 <= i
{
    let n = b.len() as int;
    if i >= n {
        Ok(seq![TokenV { kind: TokenKindV::Eof, pos: n as usize }])
    } else {
        let c = b[i];
        let next = if i + 1 < n { Some(b[i + 1]) } else { None };
        if is_ws(c) {
            lex_from(b, i + 1)
        } else if c == 42 {
            lex_cons(TokenKindV::Star, i, lex_from(b, i + 1))
        } else if c == 44 {
            lex_cons(TokenKindV::Comma, i, lex_from(b, i + 1))
        } else if c == 59 {
            lex_cons(TokenKindV::Semicolon, i, lex_from(b, i + 1))
        } else if c == 40 {
            lex_cons(TokenKindV::LParen, i, lex_from(b, i + 1))
        } else if c == 41 {
            lex_cons(TokenKindV::RParen, i, lex_from(b, i + 1))
        } else if c == 61 {
            lex_cons(TokenKindV::Eq, i, lex_from(b, i + 1))
        } else if c == 33 {
            if next == Some(61u8) {
                lex_cons(TokenKindV::NotEq, i, lex_from(b, i + 2))
            } else {
                Err(ParseErrorV { message: bang_message(b, i), pos: i as usize })
            }
        } else if c == 60 {
            if next == Some(61u8) {
                lex_cons(TokenKindV::LtEq, i, lex_from(b, i + 2))
            } else {
                lex_cons(TokenKindV::Lt, i, lex_from(b, i + 1))
            }
        } else if c == 62 {
            if next == Some(61u8) {
                lex_cons(TokenKindV::GtEq, i, lex_from(b, i + 2))
            } else {
                lex_cons(TokenKindV::Gt, i, lex_from(b, i + 1))
            }
        } else if c == 39 {
            let j = quote_at(b, i + 1);
            if j >= n {
                Err(ParseErrorV { message: unterminated_message(), pos: i as usize })
            } else {
                proof { lemma_quote_at(b, i + 1); }
                lex_cons(TokenKindV::Str(decode_utf8(b.subrange(i + 1, j))), i, lex_from(b, j + 1))
            }
        } else if is_digit(c) || (c == 45 && i + 1 < n && is_digit(b[i + 1])) {
            let e = digits_end(b, i + 1);
            proof { lemma_digits_end(b, i + 1); }
            let v = if c == 45 { -digits_value(b, i + 1, e) } else { digits_value(b, i, e) };
            if i64::MIN <= v <= i64::MAX {
                lex_cons(TokenKindV::Int(v as i64), i, lex_from(b, e))
            } else {
                Err(ParseErrorV { message: range_message(b, i, e), pos: i as usize })
            }
        } else if is_alpha(c) || c == 95 {
            let e = ident_end(b, i + 1);
            proof { lemma_ident_end(b, i + 1); }
            lex_cons(TokenKindV::Ident(ascii_chars(b.subrange(i, e))), i, lex_from(b, e))
        } else {
            Err(ParseErrorV { message: unexpected_message(c), pos: i as usize })
        }
    }
}

proof fn lemma_ident_end_at(b: Seq<u8>, j: int, e: int)
    requires
        0 <= j <= e <= b.len(),
        forall|k: int|
            j <= k < e ==> (65 <= #[trigger] b[k] <= 90) || (97 <= b[k] <= 122) || (48 <= b[k] <= 57) || b[k] == 95,
        e < b.len() ==> !((65 <= b[e] <= 90) || (97 <= b[e] <= 122) || (48 <= b[e] <= 57) || b[e] == 95),
    ensures
        ident_end(b, j) == e,
    decreases e - j,
{
    if j < e {
        lemma_ident_end_at(b, j + 1, e);
    }
}

/// An identifier is the longest run of ASCII letters, digits and
/// underscores that starts at a letter or underscore: a word such as
/// `user_id` in the input becomes one `Ident` token holding the whole word,
/// at the word's position, and lexing goes on after it.
pub proof fn lemma_lex_word(b: Seq<u8>, i: int, e: int)
    requires
        0 <= i < e <= b.len(),
        (65 <= b[i] <= 90) || (97 <= b[i] <= 122) || b[i] == 95,
        forall|k: int|
            i < k < e ==> (65 <= #[trigger] b[k] <= 90) || (97 <= b[k] <= 122) || (48 <= b[k] <= 57) || b[k] == 95,
        e < b.len() ==> !((65 <= b[e] <= 90) || (97 <= b[e] <= 122) || (48 <= b[e] <= 57) || b[e] == 95),
    ensures
        lex_from(b, i) == lex_cons(TokenKindV::Ident(ascii_chars(b.subrange(i, e))), i, lex_from(b, e)),
{
    lemma_ident_end_at(b, i + 1, e);
}

/// A whole input that is one word lexes to that word and the end.
pub proof fn lemma_lex_single_word(b: Seq<u8>)
    requires
        b.len() > 0,
        (65 <= b[0] <= 90) || (97 <= b[0] <= 122) || b[0] == 95,
        forall|k: int|
            0 < k < b.len() ==> (65 <= #[trigger] b[k] <= 90) || (97 <= b[k] <= 122) || (48 <= b[k] <= 57) || b[k] == 95,
    ensures
        lex_from(b, 0) == Ok::<Seq<TokenV>, ParseErrorV>(
            seq![
                TokenV { kind: TokenKindV::Ident(ascii_chars(b)), pos: 0 },
                TokenV { kind: TokenKindV::Eof, pos: b.len() as usize },
            ],
        ),
{
    lemma_lex_word(b, 0, b.len() as int);
    assert(b.subrange(0, b.len() as int) =~= b);
    assert(seq![TokenV { kind: TokenKindV::Ident(ascii_chars(b)), pos: 0 }] + seq![
        TokenV { kind: TokenKindV::Eof, pos: b.len() as usize },
    ] =~= seq![
        TokenV { kind: TokenKindV::Ident(ascii_chars(b)), pos: 0 },
        TokenV { kind: TokenKindV::Eof, pos: b.len() as usize },
    ]);
}

/// A text character of an identifier: an ASCII letter, digit or '_'.
pub open spec fn word_char(c: char, first: bool) -> bool {
    ('A' <= c <= 'Z') || ('a' <= c <= 'z') || c == '_' || (!first && '0' <= c <= '9')
}

/// Tokenizing a text that is one word, such as `user_id`, gives one
/// identifier holding the whole text, then the end.
pub proof fn lemma_tokenize_word(s: Seq<char>)
    requires
        s.len() > 0,
        forall|k: int| 0 <= k < s.len() ==> word_char(#[trigger] s[k], k == 0),
    ensures
        spec_tokenize(s) == Ok::<Seq<TokenV>, ParseErrorV>(
            seq![
                TokenV { kind: TokenKindV::Ident(s), pos: 0 },
                TokenV { kind: TokenKindV::Eof, pos: s.len() as usize },
            ],
        ),
{
    assert(is_ascii_chars(s));
    is_ascii_chars_encode_utf8(s);
    let b = encode_utf8(s);
    assert forall|k: int| 0 <= k < b.len() implies (65 <= #[trigger] b[k] <= 90) || (97 <= b[k] <= 122) || (k > 0 && 48
        <= b[k] <= 57) || b[k] == 95 by {
        assert(s[k] as u8 == b[k]);
        assert(word_char(s[k], k == 0));
    }
    lemma_lex_single_word(b);
    assert(ascii_chars(b) =~= s) by {
        assert forall|k: int| 0 <= k < s.len() implies ascii_chars(b)[k] == s[k] by {
            assert(s[k] as u8 == b[k]);
            assert(word_char(s[k], k == 0));
        }
    }
}

/// A token at `pos` in front of the rest of the lexing result.
pub open spec fn lex_cons(kind: TokenKindV, pos: int, rest: Result<Seq<TokenV>, ParseErrorV>) -> Result<Seq<TokenV>, ParseErrorV> {
    match rest {
        Ok(ts) => Ok(seq![TokenV { kind, pos: pos as usize }] + ts),
        Err(e) => Err(e),
    }
}

/// The lexing result of a whole input string, over its UTF-8 bytes.
pub open spec fn spec_tokenize(input: Seq<char>) -> Result<Seq<TokenV>, ParseErrorV> {
    lex_from(encode_utf8(input), 0)
}

/// Prefixes tokens to a lexing result.
pub open spec fn lex_prepend(prefix: Seq<TokenV>, r: Result<Seq<TokenV>, ParseErrorV>) -> Result<Seq<TokenV>, ParseErrorV> {
    match r {
        Ok(ts) => Ok(prefix + ts),
        Err(e) => Err(e),
    }
}

proof fn lemma_lex_prepend_cons(prefix: Seq<TokenV>, kind: TokenKindV, pos: int, r: Result<Seq<TokenV>, ParseErrorV>)
    ensures
        lex_prepend(prefix, lex_cons(kind, pos, r)) == lex_prepend(prefix.push(TokenV { kind, pos: pos as usize }), r),
{
    match r {
        Ok(ts) => {
            assert(prefix + (seq![TokenV { kind, pos: pos as usize }] + ts) =~= prefix.push(TokenV { kind, pos: pos as usize }) + ts);
        },
        Err(_) => {},
    }
}

/// The bytes between two quotes of a valid UTF-8 text are valid UTF-8.
proof fn lemma_quoted_valid(b: Seq<u8>, i: int, j: int)
    requires
        valid_utf8(b),
        0 <= i < j < b.len(),
        b[i] == 39,
        b[j] == 39,
    ensures
        valid_utf8(b.subrange(i + 1, j)),
{
    is_char_boundary_iff_not_is_continuation_byte(b, i);
    valid_utf8_split(b, i);
    let c = b.subrange(i, b.len() as int);
    assert(c[0] == 39);
    assert(valid_first_scalar(c));
    let d = pop_first_scalar(c);
    assert(d =~= b.subrange(i + 1, b.len() as int));
    assert(valid_utf8(d));
    let k = j - i - 1;
    assert(d[k] == 39);
    is_char_boundary_iff_not_is_continuation_byte(d, k);
    valid_utf8_split(d, k);
    assert(d.subrange(0, k) =~= b.subrange(i + 1, j));
}


/// The shape of a lexing result from byte `i` on: tokens that are not `Eof`
/// start at strictly increasing offsets inside the input, and the last token
/// is `Eof` at the input's length.
pub open spec fn lex_shape(b: Seq<u8>, i: int, ts: Seq<TokenV>) -> bool {
    &&& ts.len() >= 1
    &&& ts[ts.len() - 1] == (TokenV { kind: TokenKindV::Eof, pos: b.len() as usize })
    &&& forall|k: int| 0 <= k < ts.len() - 1 ==> (#[trigger] ts[k]).kind != TokenKindV::Eof && i <= ts[k].pos < b.len()
    &&& forall|k: int| 0 <= k < ts.len() - 1 ==> (#[trigger] ts[k]).pos < ts[k + 1].pos
}

proof fn lemma_cons_shape(b: Seq<u8>, i: int, j: int, kind: TokenKindV, rest: Result<Seq<TokenV>, ParseErrorV>)
    requires
        0 <= i < j,
        i < b.len() <= usize::MAX,
        kind != TokenKindV::Eof,
        rest matches Ok(ts) ==> lex_shape(b, j, ts),
        rest matches Err(e) ==> j <= e.pos < b.len(),
    ensures
        lex_cons(kind, i, rest) matches Ok(ts) ==> lex_shape(b, i, ts),
        lex_cons(kind, i, rest) matches Err(e) ==> i <= e.pos < b.len(),
{
    if let Ok(ts) = rest {
        let all = seq![TokenV { kind, pos: i as usize }] + ts;
        assert(all[all.len() - 1] == ts[ts.len() - 1]);
        assert forall|k: int| 0 <= k < all.len() - 1 implies (#[trigger] all[k]).kind != TokenKindV::Eof && i <= all[k].pos < b.len() by {
            if k > 0 {
                assert(all[k] == ts[k - 1]);
            }
        }
        assert forall|k: int| 0 <= k < all.len() - 1 implies (#[trigger] all[k]).pos < all[k + 1].pos by {
            if k > 0 {
                assert(all[k] == ts[k - 1]);
                assert(all[k + 1] == ts[k]);
            } else {
                assert(all[1] == ts[0]);
            }
        }
    }
}

/// Lexing succeeds only with well-shaped tokens (see `lex_shape`), and
/// fails at a position inside the input.
pub proof fn lemma_lex_shape(b: Seq<u8>, i: int)
    requires
        0 <= i,
        b.len() <= usize::MAX,
    ensures
        lex_from(b, i) matches Ok(ts) ==> lex_shape(b, i, ts),
        lex_from(b, i) matches Err(e) ==> i <= e.pos < b.len(),
    decreases b.len() - i,
{
    let n = b.len() as int;
    if i >= n {
        return;
    }
    let c = b[i];
    if is_ws(c) {
        lemma_lex_shape(b, i + 1);
        if let Ok(ts) = lex_from(b, i + 1) {
            assert forall|k: int| 0 <= k < ts.len() - 1 implies (#[trigger] ts[k]).kind != TokenKindV::Eof && i <= ts[k].pos < b.len() by {
            }
        }
    } else if c == 42 || c == 44 || c == 59 || c == 40 || c == 41 || c == 61 {
        lemma_lex_shape(b, i + 1);
        let k = if c == 42 { TokenKindV::Star } else if c == 44 { TokenKindV::Comma } else if c == 59 {
            TokenKindV::Semicolon } else if c == 40 { TokenKindV::LParen } else if c == 41 { TokenKindV::RParen } else { TokenKindV::Eq };
        lemma_cons_shape(b, i, i + 1, k, lex_from(b, i + 1));
    } else if c == 33 || c == 60 || c == 62 {
        let two = i + 1 < n && b[i + 1] == 61;
        if two {
            lemma_lex_shape(b, i + 2);
            let k = if c == 33 { TokenKindV::NotEq } else if c == 60 { TokenKindV::LtEq } else { TokenKindV::GtEq };
            lemma_cons_shape(b, i, i + 2, k, lex_from(b, i + 2));
        } else {
            lemma_lex_shape(b, i + 1);
            let k = if c == 60 { TokenKindV::Lt } else { TokenKindV::Gt };
            lemma_cons_shape(b, i, i + 1, k, lex_from(b, i + 1));
        }
    } else if c == 39 {
        let j = quote_at(b, i + 1);
        lemma_quote_at(b, i + 1);
        if j < n {
            lemma_lex_shape(b, j + 1);
            lemma_cons_shape(b, i, j + 1, TokenKindV::Str(decode_utf8(b.subrange(i + 1, j))), lex_from(b, j + 1));
        }
    } else if is_digit(c) || (c == 45 && i + 1 < n && is_digit(b[i + 1])) {
        let e = digits_end(b, i + 1);
        lemma_digits_end(b, i + 1);
        lemma_lex_shape(b, e);
        let v = if c == 45 { -digits_value(b, i + 1, e) } else { digits_value(b, i, e) };
        lemma_cons_shape(b, i, e, TokenKindV::Int(v as i64), lex_from(b, e));
    } else if is_alpha(c) || c == 95 {
        let e = ident_end(b, i + 1);
        lemma_ident_end(b, i + 1);
        lemma_lex_shape(b, e);
        lemma_cons_shape(b, i, e, TokenKindV::Ident(ascii_chars(b.subrange(i, e))), lex_from(b, e));
    }
}

/// The tokens of any input end with `Eof`.
pub proof fn lemma_lex_ends_with_eof(b: Seq<u8>, i: int)
    requires
        0 <= i,
        b.len() <= usize::MAX,
    ensures
        lex_from(b, i) matches Ok(ts) ==> ts.len() >= 1 && ts[ts.len() - 1].kind == TokenKindV::Eof,
{
    lemma_lex_shape(b, i);
}

fn single(i: &mut usize, kind: TokenKind) -> (r: TokenKind)
    requires
        *old(i) < usize::MAX,
    ensures
        *final(i) == *old(i) + 1,
        r == kind,
{
    *i = *i + 1;
    kind
}

fn two_or_one(i: &mut usize, bytes: &[u8], second: u8, two: TokenKind, one: TokenKind) -> (r: TokenKind)
    requires
        *old(i) < bytes@.len(),
    ensures
        if *old(i) + 1 < bytes@.len() && bytes@[*old(i) + 1] == second {
            *final(i) == *old(i) + 2 && r == two
        } else {
            *final(i) == *old(i) + 1 && r == one
        },
{
    if *i < bytes.len() - 1 && bytes[*i + 1] == second {
        *i = *i + 2;
        two
    } else {
        *i = *i + 1;
        one
    }
}

fn next_is_digit(bytes: &[u8], i: usize) -> (r: bool)
    requires
        i < bytes@.len(),
    ensures
        r == (i + 1 < bytes@.len() && is_digit(bytes@[i + 1])),
{
    i < bytes.len() - 1 && bytes[i + 1] >= 48 && bytes[i + 1] <= 57
}

fn err(pos: usize, message: String) -> (r: ParseError)
    ensures
        r@ == (ParseErrorV { message: message@, pos }),
{
    ParseError { message, pos }
}

/// Splits the input into tokens, ending with `Eof` at the input's length.
pub fn tokenize(input: &str) -> (r: Result<Vec<Token>, ParseError>)
    ensures
        match spec_tokenize(input@) {
            Ok(ts) => r matches Ok(v) && tokens_view(v@) == ts,
            Err(e) => r matches Err(pe) && pe@ == e,
        },
{
    let bytes = input.as_bytes();
    let ghost b = bytes@;
    let n = bytes.len();
    let mut tokens: Vec<Token> = Vec::new();
    let mut i: usize = 0;
    proof {
        assert(tokens_view(tokens@) =~= Seq::<TokenV>::empty());
        assert(lex_prepend(Seq::<TokenV>::empty(), lex_from(b, 0)) == lex_from(b, 0)) by {
            match lex_from(b, 0) {
                Ok(ts) => { assert(Seq::<TokenV>::empty() + ts =~= ts); },
                Err(_) => {},
            }
        }
    }
    while i < n
        invariant
            b == bytes@,
            b == encode_utf8(input@),
            n == b.len(),
            i <= n,
            spec_tokenize(input@) == lex_prepend(tokens_view(tokens@), lex_from(b, i as int)),
        decreases n - i,
    {
        let start = i;
        let c = bytes[i];
        let ghost prev = tokens@;
        let kind: TokenKind;
        if c == 32 || c == 9 || c == 10 || c == 12 || c == 13 {
            i = i + 1;
            continue;
        } else if c == 42 {
            kind = single(&mut i, TokenKind::Star);
        } else if c == 44 {
            kind = single(&mut i, TokenKind::Comma);
        } else if c == 59 {
            kind = single(&mut i, TokenKind::Semicolon);
        } else if c == 40 {
            kind = single(&mut i, TokenKind::LParen);
        } else if c == 41 {
            kind = single(&mut i, TokenKind::RParen);
        } else if c == 61 {
            kind = single(&mut i, TokenKind::Eq);
        } else if c == 33 {
            if i + 1 < n && bytes[i + 1] == 61 {
                i = i + 2;
                kind = TokenKind::NotEq;
            } else {
                let mut msg = string_of("expected '=' after '!', found ");
                if i + 1 < n {
                    push_str(&mut msg, "'");
                    push_char(&mut msg, bytes[i + 1] as char);
                    push_str(&mut msg, "'");
                } else {
                    push_str(&mut msg, "end of input");
                }
                assert(msg@ =~= bang_message(b, i as int));
                return Err(err(start, msg));
            }
        } else if c == 60 {
            kind = two_or_one(&mut i, bytes, 61, TokenKind::LtEq, TokenKind::Lt);
        } else if c == 62 {
            kind = two_or_one(&mut i, bytes, 61, TokenKind::GtEq, TokenKind::Gt);
        } else if c == 39 {
            let mut j = i + 1;
            proof { lemma_quote_at(b, i + 1); }
            while j < n && bytes[j] != 39
                invariant
                    b == bytes@,
                    n == b.len(),
                    i + 1 <= j <= n,
                    quote_at(b, i + 1) == quote_at(b, j as int),
                decreases n - j,
            {
                j = j + 1;
            }
            if j >= n {
                let msg = string_of("unterminated string literal, found end of input");
                assert(msg@ =~= unterminated_message());
                return Err(err(start, msg));
            }
            proof {
                lemma_quoted_valid(b, i as int, j as int);
            }
            let tb = vstd::slice::slice_to_vec(vstd::slice::slice_subrange(bytes, i + 1, j));
            let text = match string_from_utf8(tb) {
                Some(s) => s,
                None => String::new(),
            };
            i = j + 1;
            kind = TokenKind::Str(text);
        } else if (c >= 48 && c <= 57) || (c == 45 && next_is_digit(bytes, i)) {
            let neg = c == 45;
            let first = if neg { i + 1 } else { i };
            let mut j = i + 1;
            proof { lemma_digits_end(b, i + 1); }
            while j < n && bytes[j] >= 48 && bytes[j] <= 57
                invariant
                    b == bytes@,
                    n == b.len(),
                    i + 1 <= j <= n,
                    digits_end(b, i + 1) == digits_end(b, j as int),
                decreases n - j,
            {
                j = j + 1;
            }
            proof {
                lemma_digits_end(b, j as int);
                lemma_digits_end(b, i + 1);
            }
            let ghost e = j as int;
            let ghost dv = digits_value(b, first as int, e);
            let mut acc: i64 = 0;
            let mut k = first;
            let mut in_range = true;
            while k < j
                invariant
                    b == bytes@,
                    n == b.len(),
                    first <= k <= j,
                    j <= n,
                    e == j,
                    dv == digits_value(b, first as int, e),
                    forall|q: int| first <= q < j ==> is_digit(#[trigger] b[q]),
                    in_range ==> acc == (if neg { -digits_value(b, first as int, k as int) } else { digits_value(b, first as int, k as int) }),
                    !in_range ==> !(i64::MIN <= (if neg { -dv } else { dv }) <= i64::MAX),
                decreases j - k,
            {
                let d = (bytes[k] - 48) as i64;
                proof {
                    lemma_digits_value_mono(b, first as int, k + 1, e);
                }
                if in_range {
                    let m = acc.checked_mul(10);
                    match m {
                        Some(m) => {
                            let s = if neg { m.checked_sub(d) } else { m.checked_add(d) };
                            match s {
                                Some(s) => { acc = s; },
                                None => { in_range = false; },
                            }
                        },
                        None => { in_range = false; },
                    }
                }
                k = k + 1;
            }
            if !in_range {
                let mut msg = string_of("integer literal out of range, found ");
                let mut k = i;
                let ghost m0 = msg@;
                while k < j
                    invariant
                        b == bytes@,
                        i <= k <= j,
                        j <= n,
                        n == b.len(),
                        msg@ == m0 + ascii_chars(b.subrange(i as int, k as int)),
                    decreases j - k,
                {
                    push_char(&mut msg, bytes[k] as char);
                    assert(ascii_chars(b.subrange(i as int, k + 1)) =~= ascii_chars(b.subrange(i as int, k as int)).push(bytes[k as int] as char));
                    k = k + 1;
                }
                assert(msg@ =~= range_message(b, i as int, j as int));
                return Err(err(start, msg));
            }
            i = j;
            kind = TokenKind::Int(acc);
        } else if (c >= 65 && c <= 90) || (c >= 97 && c <= 122) || c == 95 {
            let mut j = i + 1;
            proof { lemma_ident_end(b, i + 1); }
            while j < n && ((bytes[j] >= 65 && bytes[j] <= 90) || (bytes[j] >= 97 && bytes[j] <= 122)
                || (bytes[j] >= 48 && bytes[j] <= 57) || bytes[j] == 95)
                invariant
                    b == bytes@,
                    n == b.len(),
                    i + 1 <= j <= n,
                    ident_end(b, i + 1) == ident_end(b, j as int),
                decreases n - j,
            {
                j = j + 1;
            }
            let mut text = String::new();
            let mut k = i;
            while k < j
                invariant
                    b == bytes@,
                    i <= k <= j,
                    j <= n,
                    n == b.len(),
                    text@ == ascii_chars(b.subrange(i as int, k as int)),
                decreases j - k,
            {
                let ghost before = text@;
                push_char(&mut text, bytes[k] as char);
                assert(text@ =~= ascii_chars(b.subrange(i as int, k + 1)));
                k = k + 1;
            }
            i = j;
            kind = TokenKind::Ident(text);
        } else {
            let mut msg = string_of("unexpected character, found '");
            push_char(&mut msg, c as char);
            push_str(&mut msg, "'");
            assert(msg@ =~= unexpected_message(c));
            return Err(err(start, msg));
        }
        proof {
            lemma_lex_prepend_cons(tokens_view(prev), kind@, start as int, lex_from(b, i as int));
        }
        tokens.push(Token { kind, pos: start });
        proof {
            assert(tokens_view(tokens@) =~= tokens_view(prev).push(TokenV { kind: kind@, pos: start }));
        }
    }
    let ghost prev = tokens@;
    tokens.push(Token { kind: TokenKind::Eof, pos: input.len() });
    proof {
        assert(tokens_view(tokens@) =~= tokens_view(prev) + seq![TokenV { kind: TokenKindV::Eof, pos: n }]);
    }
    Ok(tokens)
}

} // verus!
