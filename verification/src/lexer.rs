//! Splits source text into tokens.

use crate::error::{self, fail_at, CompilerError, CompilerResult, ErrorView};
use crate::text::{cat3, str_eq};
use vstd::prelude::*;
use vstd::string::StringSliceAdditionalSpecFns;
use vstd::utf8::*;

verus! {

/// A token and the byte at which it starts.
#[derive(Debug, PartialEq, Eq)]
pub struct Token {
    pub kind: TokenKind,
    pub position: usize,
}

#[derive(Debug, PartialEq, Eq)]
pub enum TokenKind {
    KwInt,
    KwReturn,
    KwConst,
    KwIf,
    KwElse,
    KwWhile,
    KwBreak,
    KwContinue,
    KwVoid,
    KwAsm,
    LBracket,
    RBracket,
    Ident(String),
    IntLiteral(i32),
    StrLiteral(String),
    LParen,
    RParen,
    LBrace,
    RBrace,
    Semicolon,
    Comma,
    Plus,
    Minus,
    Star,
    Slash,
    Percent,
    Bang,
    Less,
    Greater,
    LessEq,
    GreaterEq,
    EqEq,
    Eq,
    NotEq,
    AndAnd,
    OrOr,
    Eof,
}

/// The view of a [`TokenKind`]: kinds without text stand for themselves.
pub enum KindV {
    Ident(Seq<char>),
    Str(Seq<char>),
    Other(TokenKind),
}

impl TokenKind {
    pub open spec fn view(self) -> KindV {
        match self {
            TokenKind::Ident(s) => KindV::Ident(s@),
            TokenKind::StrLiteral(s) => KindV::Str(s@),
            k => KindV::Other(k),
        }
    }
}

/// The view of a [`Token`].
pub struct TokenV {
    pub kind: KindV,
    pub position: usize,
}

impl Token {
    pub open spec fn view(self) -> TokenV {
        TokenV { kind: self.kind.view(), position: self.position }
    }
}

impl Clone for TokenKind {
    fn clone(&self) -> (r: Self)
        ensures
            r.view() == self.view(),
    {
        match self {
            TokenKind::KwInt => TokenKind::KwInt,
            TokenKind::KwReturn => TokenKind::KwReturn,
            TokenKind::KwConst => TokenKind::KwConst,
            TokenKind::KwIf => TokenKind::KwIf,
            TokenKind::KwElse => TokenKind::KwElse,
            TokenKind::KwWhile => TokenKind::KwWhile,
            TokenKind::KwBreak => TokenKind::KwBreak,
            TokenKind::KwContinue => TokenKind::KwContinue,
            TokenKind::KwVoid => TokenKind::KwVoid,
            TokenKind::KwAsm => TokenKind::KwAsm,
            TokenKind::LBracket => TokenKind::LBracket,
            TokenKind::RBracket => TokenKind::RBracket,
            TokenKind::Ident(s) => TokenKind::Ident(s.clone()),
            TokenKind::IntLiteral(n) => TokenKind::IntLiteral(*n),
            TokenKind::StrLiteral(s) => TokenKind::StrLiteral(s.clone()),
            TokenKind::LParen => TokenKind::LParen,
            TokenKind::RParen => TokenKind::RParen,
            TokenKind::LBrace => TokenKind::LBrace,
            TokenKind::RBrace => TokenKind::RBrace,
            TokenKind::Semicolon => TokenKind::Semicolon,
            TokenKind::Comma => TokenKind::Comma,
            TokenKind::Plus => TokenKind::Plus,
            TokenKind::Minus => TokenKind::Minus,
            TokenKind::Star => TokenKind::Star,
            TokenKind::Slash => TokenKind::Slash,
            TokenKind::Percent => TokenKind::Percent,
            TokenKind::Bang => TokenKind::Bang,
            TokenKind::Less => TokenKind::Less,
            TokenKind::Greater => TokenKind::Greater,
            TokenKind::LessEq => TokenKind::LessEq,
            TokenKind::GreaterEq => TokenKind::GreaterEq,
            TokenKind::EqEq => TokenKind::EqEq,
            TokenKind::Eq => TokenKind::Eq,
            TokenKind::NotEq => TokenKind::NotEq,
            TokenKind::AndAnd => TokenKind::AndAnd,
            TokenKind::OrOr => TokenKind::OrOr,
            TokenKind::Eof => TokenKind::Eof,
        }
    }
}

impl Clone for Token {
    fn clone(&self) -> (r: Self)
        ensures
            r.view() == self.view(),
    {
        Token { kind: self.kind.clone(), position: self.position }
    }
}

/// The views of a list of tokens.
pub open spec fn tokens_view(v: Seq<Token>) -> Seq<TokenV> {
    v.map_values(|t: Token| t.view())
}

// ── Character classes ────────────────────────────────────────────────────────

pub open spec fn is_space(b: u8) -> bool {
    b == 32 || b == 9 || b == 10 || b == 12 || b == 13
}

pub open spec fn is_digit(b: u8) -> bool {
    48 <= b <= 57
}

pub open spec fn is_hex_digit(b: u8) -> bool {
    is_digit(b) || 65 <= b <= 70 || 97 <= b <= 102
}

pub open spec fn ident_start(b: u8) -> bool {
    b == 95 || 65 <= b <= 90 || 97 <= b <= 122
}

pub open spec fn ident_continue(b: u8) -> bool {
    ident_start(b) || is_digit(b)
}

fn is_ascii_space(b: u8) -> (r: bool)
    ensures
        r == is_space(b),
{
    b == 32 || b == 9 || b == 10 || b == 12 || b == 13
}

fn is_ascii_digit(b: u8) -> (r: bool)
    ensures
        r == is_digit(b),
{
    48 <= b && b <= 57
}

fn is_ascii_hex_digit(b: u8) -> (r: bool)
    ensures
        r == is_hex_digit(b),
{
    is_ascii_digit(b) || (65 <= b && b <= 70) || (97 <= b && b <= 102)
}

fn is_ident_start(byte: u8) -> (r: bool)
    ensures
        r == ident_start(byte),
{
    byte == 95 || (65 <= byte && byte <= 90) || (97 <= byte && byte <= 122)
}

fn is_ident_continue(byte: u8) -> (r: bool)
    ensures
        r == ident_continue(byte),
{
    is_ident_start(byte) || is_ascii_digit(byte)
}

// ── What a position of the source holds ──────────────────────────────────────

/// The classes of bytes that the lexer reads runs of.
pub enum Class {
    Space,
    Line,
    Digit,
    HexDigit,
    Ident,
    Quoted,
}

pub open spec fn in_class(c: Class, b: u8) -> bool {
    match c {
        Class::Space => is_space(b),
        Class::Line => b != 10,
        Class::Digit => is_digit(b),
        Class::HexDigit => is_hex_digit(b),
        Class::Ident => ident_continue(b),
        Class::Quoted => b != 34 && b != 10,
    }
}

/// The end of the longest run of bytes of a class that starts at `p`.
pub open spec fn run_end(b: Seq<u8>, p: int, c: Class) -> int
    decreases b.len() - p,
{
    if 0 <= p < b.len() && in_class(c, b[p]) {
        run_end(b, p + 1, c)
    } else {
        p
    }
}

pub proof fn run_end_bounds(b: Seq<u8>, p: int, c: Class)
    requires
        0 <= p <= b.len(),
    ensures
        p <= run_end(b, p, c) <= b.len(),
        p < b.len() && in_class(c, b[p]) ==> p < run_end(b, p, c),
        forall|i: int| p <= i < run_end(b, p, c) ==> in_class(c, #[trigger] b[i]),
        run_end(b, p, c) < b.len() ==> !in_class(c, b[run_end(b, p, c)]),
    decreases b.len() - p,
{
    if p < b.len() && in_class(c, b[p]) {
        run_end_bounds(b, p + 1, c);
    }
}

/// Whether the byte at `p` is `x`.
pub open spec fn byte_is(b: Seq<u8>, p: int, x: u8) -> bool {
    0 <= p < b.len() && b[p] == x
}

/// The position after the first `*/` at or after `p`.
pub open spec fn comment_end(b: Seq<u8>, p: int) -> Option<int>
    decreases b.len() - p,
{
    if p < 0 || p >= b.len() {
        None
    } else if b[p] == 42 && byte_is(b, p + 1, 47) {
        Some(p + 2)
    } else {
        comment_end(b, p + 1)
    }
}

pub proof fn comment_end_bounds(b: Seq<u8>, p: int)
    requires
        0 <= p <= b.len(),
    ensures
        comment_end(b, p) matches Some(q) ==> p + 2 <= q <= b.len(),
    decreases b.len() - p,
{
    if p < b.len() {
        comment_end_bounds(b, p + 1);
    }
}

/// The first position at or after `p` that is neither white space nor in a comment.
pub open spec fn trivia_end(b: Seq<u8>, p: int) -> Result<int, ErrorView>
    decreases b.len() - p,
{
    if p < 0 || p > b.len() {
        Ok(p)
    } else {
        proof {
            run_end_bounds(b, p, Class::Space);
        }
        let q = run_end(b, p, Class::Space);
        if byte_is(b, q, 47) && byte_is(b, q + 1, 47) {
            proof {
                run_end_bounds(b, q + 2, Class::Line);
            }
            trivia_end(b, run_end(b, q + 2, Class::Line))
        } else if byte_is(b, q, 47) && byte_is(b, q + 1, 42) {
            proof {
                comment_end_bounds(b, q + 2);
            }
            match comment_end(b, q + 2) {
                Some(r) => trivia_end(b, r),
                None => Err(error::err_at(q as usize, "unterminated block comment"@)),
            }
        } else {
            Ok(q)
        }
    }
}

pub proof fn trivia_end_bounds(b: Seq<u8>, p: int)
    requires
        0 <= p <= b.len(),
    ensures
        trivia_end(b, p) matches Ok(q) ==> p <= q <= b.len(),
    decreases b.len() - p,
{
    run_end_bounds(b, p, Class::Space);
    let q = run_end(b, p, Class::Space);
    if byte_is(b, q, 47) && byte_is(b, q + 1, 47) {
        run_end_bounds(b, q + 2, Class::Line);
        trivia_end_bounds(b, run_end(b, q + 2, Class::Line));
    } else if byte_is(b, q, 47) && byte_is(b, q + 1, 42) {
        comment_end_bounds(b, q + 2);
        if let Some(r) = comment_end(b, q + 2) {
            trivia_end_bounds(b, r);
        }
    }
}

/// The text of ASCII bytes.
pub open spec fn chars_of(b: Seq<u8>) -> Seq<char> {
    b.map_values(|x: u8| x as char)
}

/// The keyword or identifier that a word is.
pub open spec fn word_kind(word: Seq<char>) -> KindV {
    if word == "int"@ {
        KindV::Other(TokenKind::KwInt)
    } else if word == "return"@ {
        KindV::Other(TokenKind::KwReturn)
    } else if word == "const"@ {
        KindV::Other(TokenKind::KwConst)
    } else if word == "if"@ {
        KindV::Other(TokenKind::KwIf)
    } else if word == "else"@ {
        KindV::Other(TokenKind::KwElse)
    } else if word == "while"@ {
        KindV::Other(TokenKind::KwWhile)
    } else if word == "break"@ {
        KindV::Other(TokenKind::KwBreak)
    } else if word == "continue"@ {
        KindV::Other(TokenKind::KwContinue)
    } else if word == "void"@ {
        KindV::Other(TokenKind::KwVoid)
    } else if word == "asm"@ {
        KindV::Other(TokenKind::KwAsm)
    } else {
        KindV::Ident(word)
    }
}

/// The value of one digit of a numeral.
pub open spec fn digit_value(b: u8) -> nat {
    if 48 <= b <= 57 {
        (b - 48) as nat
    } else if 65 <= b <= 70 {
        (b - 55) as nat
    } else if 97 <= b <= 102 {
        (b - 87) as nat
    } else {
        0
    }
}

/// The value of the digits `b[from..to]` in a radix.
pub open spec fn radix_value(b: Seq<u8>, from: int, to: int, radix: nat) -> nat
    decreases to - from,
{
    if to <= from {
        0
    } else {
        radix_value(b, from, to - 1, radix) * radix + digit_value(b[to - 1])
    }
}

/// The 32-bit integer with the bits of an unsigned 32-bit value.
pub open spec fn wrap_i32(v: nat) -> i32 {
    if v < 0x8000_0000 {
        v as i32
    } else {
        (v - 0x1_0000_0000) as i32
    }
}

/// The literal that the digits `b[from..to]` denote.
pub open spec fn literal(b: Seq<u8>, start: int, from: int, to: int, radix: nat) -> Result<
    KindV,
    ErrorView,
> {
    let v = radix_value(b, from, to, radix);
    if v <= u32::MAX {
        Ok(KindV::Other(TokenKind::IntLiteral(wrap_i32(v))))
    } else {
        Err(error::err_at(start as usize, "integer literal out of range"@))
    }
}

/// The number that starts at `p`, and the position after it.
pub open spec fn number_at(b: Seq<u8>, p: int) -> (Result<KindV, ErrorView>, int) {
    if b[p] == 48 {
        if byte_is(b, p + 1, 120) || byte_is(b, p + 1, 88) {
            let q = run_end(b, p + 2, Class::HexDigit);
            if q == p + 2 {
                (Err(error::err_at(p as usize, "expected hexadecimal digits"@)), q)
            } else {
                (literal(b, p, p + 2, q, 16), q)
            }
        } else if 0 <= p + 1 < b.len() && is_digit(b[p + 1]) {
            let q = run_end(b, p + 1, Class::Digit);
            if exists|i: int| p + 1 <= i < q && #[trigger] b[i] >= 56 {
                (Err(error::err_at(p as usize, "invalid octal literal"@)), q)
            } else {
                (literal(b, p, p + 1, q, 8), q)
            }
        } else {
            (Ok(KindV::Other(TokenKind::IntLiteral(0))), p + 1)
        }
    } else {
        let q = run_end(b, p, Class::Digit);
        (literal(b, p, p, q, 10), q)
    }
}

/// One of two kinds, by whether the byte after `p` is `x`.
pub open spec fn one_or_two(b: Seq<u8>, p: int, x: u8, two: TokenKind, one: TokenKind) -> (
    Result<KindV, ErrorView>,
    int,
) {
    if byte_is(b, p + 1, x) {
        (Ok(KindV::Other(two)), p + 2)
    } else {
        (Ok(KindV::Other(one)), p + 1)
    }
}

/// The kind that one byte is by itself.
pub open spec fn single(c: u8) -> Option<TokenKind> {
    if c == 40 {
        Some(TokenKind::LParen)
    } else if c == 41 {
        Some(TokenKind::RParen)
    } else if c == 123 {
        Some(TokenKind::LBrace)
    } else if c == 125 {
        Some(TokenKind::RBrace)
    } else if c == 91 {
        Some(TokenKind::LBracket)
    } else if c == 93 {
        Some(TokenKind::RBracket)
    } else if c == 59 {
        Some(TokenKind::Semicolon)
    } else if c == 44 {
        Some(TokenKind::Comma)
    } else if c == 43 {
        Some(TokenKind::Plus)
    } else if c == 45 {
        Some(TokenKind::Minus)
    } else if c == 42 {
        Some(TokenKind::Star)
    } else if c == 47 {
        Some(TokenKind::Slash)
    } else if c == 37 {
        Some(TokenKind::Percent)
    } else {
        None
    }
}

/// The kind of the token that starts at `p`, and the position after it.
pub open spec fn kind_at(b: Seq<u8>, p: int) -> (Result<KindV, ErrorView>, int) {
    if p >= b.len() {
        (Ok(KindV::Other(TokenKind::Eof)), p)
    } else {
        let c = b[p];
        if single(c) is Some {
            (Ok(KindV::Other(single(c)->0)), p + 1)
        } else if c == 33 {
            one_or_two(b, p, 61, TokenKind::NotEq, TokenKind::Bang)
        } else if c == 60 {
            one_or_two(b, p, 61, TokenKind::LessEq, TokenKind::Less)
        } else if c == 62 {
            one_or_two(b, p, 61, TokenKind::GreaterEq, TokenKind::Greater)
        } else if c == 61 {
            one_or_two(b, p, 61, TokenKind::EqEq, TokenKind::Eq)
        } else if c == 38 {
            if byte_is(b, p + 1, 38) {
                (Ok(KindV::Other(TokenKind::AndAnd)), p + 2)
            } else {
                (Err(error::err_at(p as usize, "unexpected '&'"@)), p + 1)
            }
        } else if c == 124 {
            if byte_is(b, p + 1, 124) {
                (Ok(KindV::Other(TokenKind::OrOr)), p + 2)
            } else {
                (Err(error::err_at(p as usize, "unexpected '|'"@)), p + 1)
            }
        } else if c == 34 {
            let q = run_end(b, p + 1, Class::Quoted);
            if byte_is(b, q, 34) {
                (Ok(KindV::Str(decode_utf8(b.subrange(p + 1, q)))), q + 1)
            } else {
                (Err(error::err_at(p as usize, "unterminated string literal"@)), q)
            }
        } else if ident_start(c) {
            let q = run_end(b, p, Class::Ident);
            (Ok(word_kind(chars_of(b.subrange(p, q)))), q)
        } else if is_digit(c) {
            number_at(b, p)
        } else {
            (
                Err(
                    error::err_at(
                        p as usize,
                        "unexpected character '"@ + seq![c as char] + "'"@,
                    ),
                ),
                p,
            )
        }
    }
}

/// The first token at or after `p`, and the position after it.
pub open spec fn token_at(b: Seq<u8>, p: int) -> Result<(TokenV, int), ErrorView> {
    match trivia_end(b, p) {
        Err(e) => Err(e),
        Ok(q) => match kind_at(b, q) {
            (Err(e), _) => Err(e),
            (Ok(kind), r) => Ok((TokenV { kind, position: q as usize }, r)),
        },
    }
}

pub proof fn number_at_bounds(b: Seq<u8>, p: int)
    requires
        0 <= p < b.len(),
        is_digit(b[p]),
    ensures
        p < number_at(b, p).1 <= b.len(),
{
    if b[p] == 48 {
        if byte_is(b, p + 1, 120) || byte_is(b, p + 1, 88) {
            run_end_bounds(b, p + 2, Class::HexDigit);
        } else if p + 1 < b.len() && is_digit(b[p + 1]) {
            run_end_bounds(b, p + 1, Class::Digit);
        }
    } else {
        run_end_bounds(b, p, Class::Digit);
    }
}

pub proof fn kind_at_bounds(b: Seq<u8>, p: int)
    requires
        0 <= p <= b.len(),
    ensures
        kind_at(b, p).0 matches Ok(k) ==> {
            &&& p <= kind_at(b, p).1 <= b.len()
            &&& k == KindV::Other(TokenKind::Eof) <==> p == b.len()
            &&& p < b.len() ==> p < kind_at(b, p).1
        },
{
    if p < b.len() {
        let c = b[p];
        if ident_start(c) {
            run_end_bounds(b, p, Class::Ident);
        } else if is_digit(c) {
            number_at_bounds(b, p);
        } else if c == 34 {
            run_end_bounds(b, p + 1, Class::Quoted);
        }
    }
}

/// A token starts at or after the position it is looked for at, and ends after its start unless
/// it is the end of the source.
pub proof fn token_at_bounds(b: Seq<u8>, p: int)
    requires
        0 <= p <= b.len(),
        b.len() <= usize::MAX,
    ensures
        token_at(b, p) matches Ok((t, q)) ==> {
            &&& p <= t.position <= q <= b.len()
            &&& t.kind == KindV::Other(TokenKind::Eof) <==> t.position == b.len()
            &&& t.kind != KindV::Other(TokenKind::Eof) ==> t.position < q
        },
{
    trivia_end_bounds(b, p);
    if let Ok(q) = trivia_end(b, p) {
        kind_at_bounds(b, q);
    }
}

/// All tokens from position `p` on, the last of them the end of the source.
pub open spec fn lex(b: Seq<u8>, p: int) -> Result<Seq<TokenV>, ErrorView>
    decreases b.len() - p,
{
    if p < 0 || p > b.len() || b.len() > usize::MAX {
        Ok(Seq::empty())
    } else {
        proof {
            token_at_bounds(b, p);
        }
        match token_at(b, p) {
            Err(e) => Err(e),
            Ok((t, q)) => if t.kind == KindV::Other(TokenKind::Eof) {
                Ok(seq![t])
            } else {
                match lex(b, q) {
                    Err(e) => Err(e),
                    Ok(rest) => Ok(seq![t] + rest),
                }
            },
        }
    }
}

/// The tokens of a source: they start at increasing positions, and the end of the source is the
/// last of them and no other.
pub proof fn tokens_are_ordered(b: Seq<u8>, p: int)
    requires
        0 <= p <= b.len(),
        b.len() <= usize::MAX,
    ensures
        lex(b, p) matches Ok(ts) ==> {
            &&& ts.len() > 0
            &&& ts.last().kind == KindV::Other(TokenKind::Eof)
            &&& ts.last().position == b.len()
            &&& forall|i: int|
                0 <= i < ts.len() - 1 ==> (#[trigger] ts[i]).kind != KindV::Other(TokenKind::Eof)
            &&& forall|i: int| 0 <= i < ts.len() ==> p <= (#[trigger] ts[i]).position
            &&& forall|i: int, j: int|
                0 <= i < j < ts.len() ==> (#[trigger] ts[i]).position < (#[trigger] ts[j]).position
        },
    decreases b.len() - p,
{
    token_at_bounds(b, p);
    if let Ok((t, q)) = token_at(b, p) {
        if t.kind != KindV::Other(TokenKind::Eof) {
            tokens_are_ordered(b, q);
            if let Ok(rest) = lex(b, q) {
                let ts = seq![t] + rest;
                assert(ts.last() == rest.last());
                assert forall|i: int| 0 <= i < ts.len() implies p <= (#[trigger] ts[i]).position by {
                    if i > 0 {
                        assert(ts[i] == rest[i - 1]);
                    }
                }
                assert forall|i: int| 0 <= i < ts.len() - 1 implies (#[trigger] ts[i]).kind
                    != KindV::Other(TokenKind::Eof) by {
                    if i > 0 {
                        assert(ts[i] == rest[i - 1]);
                    }
                }
                assert forall|i: int, j: int| 0 <= i < j < ts.len() implies (
                #[trigger] ts[i]).position < (#[trigger] ts[j]).position by {
                    assert(ts[j] == rest[j - 1]);
                    if i > 0 {
                        assert(ts[i] == rest[i - 1]);
                    }
                }
            }
        }
    }
}

/// An identifier or keyword stands in the source as it is spelled: its bytes, from its position
/// on, are the longest run of identifier bytes.
pub proof fn identifiers_are_spelled(b: Seq<u8>, p: int)
    requires
        0 <= p <= b.len(),
        b.len() <= usize::MAX,
    ensures
        token_at(b, p) matches Ok((t, q)) ==> t.kind matches KindV::Ident(name) ==> {
            &&& name == chars_of(b.subrange(t.position as int, q))
            &&& forall|i: int| t.position <= i < q ==> ident_continue(#[trigger] b[i])
            &&& q < b.len() ==> !ident_continue(b[q])
        },
{
    trivia_end_bounds(b, p);
    if let Ok(q) = trivia_end(b, p) {
        kind_at_bounds(b, q);
        if q < b.len() && ident_start(b[q]) {
            run_end_bounds(b, q, Class::Ident);
        }
    }
}

// ── The lexer ────────────────────────────────────────────────────────────────

/// Splits a source text into tokens.
pub fn tokenize(input: &str) -> (r: CompilerResult<Vec<Token>>)
    ensures
        match lex(input.spec_bytes(), 0) {
            Ok(ts) => r matches Ok(v) && tokens_view(v@) == ts,
            Err(e) => r matches Err(x) && x@ == e,
        },
        r matches Ok(v) ==> ends_with_eof(v@),
{
    let lexer = Lexer::new(input);
    let ghost bytes = input.spec_bytes();
    let tokens = lexer.tokenize()?;
    proof {
        let ts = tokens_view(tokens@);
        tokens_are_ordered(bytes, 0);
        assert(ts[ts.len() - 1] == tokens@[ts.len() - 1].view());
    }
    Ok(tokens)
}

/// Whether the end of the source is the last of some tokens.
pub open spec fn ends_with_eof(tokens: Seq<Token>) -> bool {
    tokens.len() > 0 && tokens.last().kind is Eof
}

/// After a character of one byte, another starts.
proof fn boundary_after(bytes: Seq<u8>, p: int)
    requires
        valid_utf8(bytes),
        0 <= p < bytes.len(),
        bytes[p] < 128,
    ensures
        is_char_boundary(bytes, p + 1),
    decreases bytes.len(),
{
    is_char_boundary_iff_not_is_continuation_byte(bytes, p);
    let rest = pop_first_scalar(bytes);
    if p == 0 {
        assert(is_char_boundary(rest, 0));
    } else {
        let n = length_of_first_scalar(bytes);
        assert(is_char_boundary(rest, p - n));
        assert(p >= n) by {
            if p < n {
                reveal_with_fuel(is_char_boundary, 2);
            }
        }
        assert(rest[p - n] == bytes[p]);
        boundary_after(rest, p - n);
    }
}

struct Lexer<'a> {
    input: &'a str,
    bytes: &'a [u8],
    position: usize,
}

impl<'a> Lexer<'a> {
    spec fn wf(self) -> bool {
        self.position <= self.bytes@.len() <= usize::MAX && self.bytes@ == self.input.spec_bytes()
    }

    fn new(input: &'a str) -> (r: Self)
        ensures
            r.wf(),
            r.bytes@ == input.spec_bytes(),
            r.position == 0,
    {
        let bytes = input.as_bytes();
        assert(bytes.len() <= usize::MAX);
        Lexer { input, bytes, position: 0 }
    }

    fn tokenize(self) -> (r: CompilerResult<Vec<Token>>)
        requires
            self.wf(),
        ensures
            match lex(self.bytes@, self.position as int) {
                Ok(ts) => r matches Ok(v) && tokens_view(v@) == ts,
                Err(e) => r matches Err(x) && x@ == e,
            },
    {
        let mut lexer = self;
        let mut tokens: Vec<Token> = Vec::new();
        let ghost whole = lex(self.bytes@, self.position as int);
        loop
            invariant
                lexer.wf(),
                lexer.bytes@ == self.bytes@,
                lexer.bytes@.len() <= usize::MAX,
                whole == lex(self.bytes@, self.position as int),
                match lex(lexer.bytes@, lexer.position as int) {
                    Ok(rest) => whole == Ok::<Seq<TokenV>, ErrorView>(tokens_view(tokens@) + rest),
                    Err(e) => whole == Err::<Seq<TokenV>, ErrorView>(e),
                },
            decreases lexer.bytes@.len() - lexer.position,
        {
            let ghost before = lexer.position;
            let ghost done = tokens_view(tokens@);
            proof {
                token_at_bounds(lexer.bytes@, lexer.position as int);
            }
            let token = lexer.next_token()?;
            let is_eof = matches!(token.kind, TokenKind::Eof);
            let ghost t = token.view();
            tokens.push(token);
            assert(tokens_view(tokens@) =~= done.push(t));
            if is_eof {
                assert(tokens_view(tokens@) =~= done + seq![t]);
                return Ok(tokens);
            }
            proof {
                if let Ok(rest) = lex(lexer.bytes@, lexer.position as int) {
                    assert(done + (seq![t] + rest) =~= done.push(t) + rest);
                }
            }
        }
    }

    fn next_token(&mut self) -> (r: CompilerResult<Token>)
        requires
            old(self).wf(),
        ensures
            final(self).wf(),
            final(self).bytes@ == old(self).bytes@,
            match token_at(old(self).bytes@, old(self).position as int) {
                Ok((t, q)) => r matches Ok(x) && x.view() == t && final(self).position == q,
                Err(e) => r matches Err(x) && x@ == e,
            },
    {
        self.skip_trivia()?;
        let position = self.position;
        proof {
            kind_at_bounds(self.bytes@, position as int);
        }
        let kind = self.next_kind()?;
        Ok(Token { kind, position })
    }

    fn next_kind(&mut self) -> (r: CompilerResult<TokenKind>)
        requires
            old(self).wf(),
        ensures
            final(self).wf(),
            final(self).bytes@ == old(self).bytes@,
            match kind_at(old(self).bytes@, old(self).position as int) {
                (Ok(k), q) => r matches Ok(x) && x.view() == k && final(self).position == q,
                (Err(e), _) => r matches Err(x) && x@ == e,
            },
    {
        let position = self.position;
        let c = match self.peek() {
            None => return Ok(TokenKind::Eof),
            Some(c) => c,
        };
        if let Some(kind) = single_kind(c) {
            self.position = self.position + 1;
            return Ok(kind);
        }
        if c == 33 {
            Ok(self.take_pair(61, TokenKind::NotEq, TokenKind::Bang))
        } else if c == 60 {
            Ok(self.take_pair(61, TokenKind::LessEq, TokenKind::Less))
        } else if c == 62 {
            Ok(self.take_pair(61, TokenKind::GreaterEq, TokenKind::Greater))
        } else if c == 61 {
            Ok(self.take_pair(61, TokenKind::EqEq, TokenKind::Eq))
        } else if c == 38 {
            self.position = self.position + 1;
            if self.consume_if(38) {
                Ok(TokenKind::AndAnd)
            } else {
                Err(fail_at(position, "unexpected '&'"))
            }
        } else if c == 124 {
            self.position = self.position + 1;
            if self.consume_if(124) {
                Ok(TokenKind::OrOr)
            } else {
                Err(fail_at(position, "unexpected '|'"))
            }
        } else if c == 34 {
            self.lex_string(position)
        } else if is_ident_start(c) {
            Ok(self.lex_ident_or_keyword(position))
        } else if is_ascii_digit(c) {
            self.lex_number(position)
        } else {
            let mut shown = String::new();
            shown.push(c as char);
            assert(shown@ =~= seq![c as char]);
            Err(CompilerError::at(position, cat3("unexpected character '", shown.as_str(), "'")))
        }
    }

    /// Takes one byte, or two where the second is `second`.
    fn take_pair(&mut self, second: u8, two: TokenKind, one: TokenKind) -> (r: TokenKind)
        requires
            old(self).wf(),
            old(self).position < old(self).bytes@.len(),
            two.view() == KindV::Other(two),
            one.view() == KindV::Other(one),
        ensures
            final(self).wf(),
            final(self).bytes@ == old(self).bytes@,
            one_or_two(old(self).bytes@, old(self).position as int, second, two, one) == (
                Ok::<KindV, ErrorView>(r.view()),
                final(self).position as int,
            ),
    {
        self.position = self.position + 1;
        if self.consume_if(second) {
            two
        } else {
            one
        }
    }

    #[verifier::loop_isolation(false)]
    fn skip_trivia(&mut self) -> (r: CompilerResult<()>)
        requires
            old(self).wf(),
        ensures
            final(self).wf(),
            final(self).bytes@ == old(self).bytes@,
            match trivia_end(old(self).bytes@, old(self).position as int) {
                Ok(q) => r is Ok && final(self).position == q,
                Err(e) => r matches Err(x) && x@ == e,
            },
    {
        let ghost b = self.bytes@;
        let ghost start = self.position as int;
        loop
            invariant
                self.wf(),
                self.bytes@ == b,
                trivia_end(b, start) == trivia_end(b, self.position as int),
            decreases b.len() - self.position,
        {
            proof {
                run_end_bounds(b, self.position as int, Class::Space);
            }
            self.skip_run(Class::Space);
            if self.peek() == Some(47u8) && self.peek_next() == Some(47u8) {
                proof {
                    run_end_bounds(b, self.position + 2, Class::Line);
                }
                self.position = self.position + 2;
                self.skip_run(Class::Line);
            } else if self.peek() == Some(47u8) && self.peek_next() == Some(42u8) {
                let comment = self.position;
                proof {
                    comment_end_bounds(b, self.position + 2);
                }
                self.position = self.position + 2;
                if !self.skip_comment() {
                    return Err(fail_at(comment, "unterminated block comment"));
                }
            } else {
                break;
            }
        }
        Ok(())
    }

    /// Moves past the next `*/`; `false` where there is none.
    #[verifier::loop_isolation(false)]
    fn skip_comment(&mut self) -> (r: bool)
        requires
            old(self).wf(),
        ensures
            final(self).wf(),
            final(self).bytes@ == old(self).bytes@,
            match comment_end(old(self).bytes@, old(self).position as int) {
                Some(q) => r && final(self).position == q,
                None => !r,
            },
    {
        let ghost b = self.bytes@;
        let ghost start = self.position as int;
        while self.position < self.bytes.len()
            invariant
                self.wf(),
                self.bytes@ == b,
                comment_end(b, start) == comment_end(b, self.position as int),
            decreases b.len() - self.position,
        {
            if self.peek() == Some(42u8) && self.peek_next() == Some(47u8) {
                self.position = self.position + 2;
                return true;
            }
            self.position = self.position + 1;
        }
        false
    }

    /// Moves past a run of bytes of a class.
    fn skip_run(&mut self, class: Class)
        requires
            old(self).wf(),
        ensures
            final(self).wf(),
            final(self).bytes@ == old(self).bytes@,
            final(self).position == run_end(old(self).bytes@, old(self).position as int, class),
    {
        let ghost b = self.bytes@;
        let ghost start = self.position as int;
        while self.position < self.bytes.len() && byte_in_class(&class, self.bytes[self.position])
            invariant
                self.wf(),
                self.bytes@ == b,
                run_end(b, start, class) == run_end(b, self.position as int, class),
            decreases b.len() - self.position,
        {
            self.position = self.position + 1;
        }
    }

    /// The text of the bytes from `start` up to the current position.
    fn text_from(&self, start: usize) -> (r: String)
        requires
            self.wf(),
            start <= self.position,
        ensures
            r@ == chars_of(self.bytes@.subrange(start as int, self.position as int)),
    {
        let mut s = String::new();
        let mut i: usize = start;
        while i < self.position
            invariant
                self.wf(),
                start <= i <= self.position,
                s@ == chars_of(self.bytes@.subrange(start as int, i as int)),
            decreases self.position - i,
        {
            let c = self.bytes[i];
            s.push(c as char);
            i = i + 1;
            assert(s@ =~= chars_of(self.bytes@.subrange(start as int, i as int)));
        }
        s
    }

    /// The text between the quote at `start` and the one at the current position.
    fn quoted_from(&self, start: usize) -> (r: String)
        requires
            self.wf(),
            start < self.position,
            byte_is(self.bytes@, start as int, 34),
            byte_is(self.bytes@, self.position as int, 34),
        ensures
            r@ == decode_utf8(self.bytes@.subrange(start + 1, self.position as int)),
    {
        let ghost all = self.bytes@;
        proof {
            encode_utf8_valid_utf8(self.input@);
            is_char_boundary_iff_not_is_continuation_byte(all, self.position as int);
        }
        let (first, _) = self.input.split_at(self.position);
        proof {
            encode_utf8_valid_utf8(first@);
            assert(first.spec_bytes()[start as int] == all[start as int]);
            boundary_after(first.spec_bytes(), start as int);
        }
        let (_, text) = first.split_at(start + 1);
        proof {
            encode_utf8_decode_utf8(text@);
            assert(text.spec_bytes() =~= all.subrange(start + 1, self.position as int));
        }
        text.to_owned()
    }

    fn lex_string(&mut self, start: usize) -> (r: CompilerResult<TokenKind>)
        requires
            old(self).wf(),
            start == old(self).position,
            byte_is(old(self).bytes@, start as int, 34),
        ensures
            final(self).wf(),
            final(self).bytes@ == old(self).bytes@,
            match kind_at(old(self).bytes@, start as int) {
                (Ok(k), q) => r matches Ok(x) && x.view() == k && final(self).position == q,
                (Err(e), _) => r matches Err(x) && x@ == e,
            },
    {
        self.position = self.position + 1;
        proof {
            run_end_bounds(self.bytes@, self.position as int, Class::Quoted);
        }
        self.skip_run(Class::Quoted);
        if self.peek() == Some(34u8) {
            let text = self.quoted_from(start);
            self.position = self.position + 1;
            Ok(TokenKind::StrLiteral(text))
        } else {
            Err(fail_at(start, "unterminated string literal"))
        }
    }

    fn lex_ident_or_keyword(&mut self, start: usize) -> (r: TokenKind)
        requires
            old(self).wf(),
            start == old(self).position,
        ensures
            final(self).wf(),
            final(self).bytes@ == old(self).bytes@,
            final(self).position == run_end(old(self).bytes@, start as int, Class::Ident),
            r.view() == word_kind(
                chars_of(old(self).bytes@.subrange(start as int, final(self).position as int)),
            ),
    {
        proof {
            run_end_bounds(self.bytes@, self.position as int, Class::Ident);
        }
        self.skip_run(Class::Ident);
        let word = self.text_from(start);
        let w = word.as_str();
        if str_eq(w, "int") {
            TokenKind::KwInt
        } else if str_eq(w, "return") {
            TokenKind::KwReturn
        } else if str_eq(w, "const") {
            TokenKind::KwConst
        } else if str_eq(w, "if") {
            TokenKind::KwIf
        } else if str_eq(w, "else") {
            TokenKind::KwElse
        } else if str_eq(w, "while") {
            TokenKind::KwWhile
        } else if str_eq(w, "break") {
            TokenKind::KwBreak
        } else if str_eq(w, "continue") {
            TokenKind::KwContinue
        } else if str_eq(w, "void") {
            TokenKind::KwVoid
        } else if str_eq(w, "asm") {
            TokenKind::KwAsm
        } else {
            TokenKind::Ident(word)
        }
    }

    fn lex_number(&mut self, start: usize) -> (r: CompilerResult<TokenKind>)
        requires
            old(self).wf(),
            start == old(self).position,
            start < old(self).bytes@.len(),
            is_digit(old(self).bytes@[start as int]),
        ensures
            final(self).wf(),
            final(self).bytes@ == old(self).bytes@,
            match number_at(old(self).bytes@, start as int) {
                (Ok(k), q) => r matches Ok(x) && x.view() == k && final(self).position == q,
                (Err(e), _) => r matches Err(x) && x@ == e,
            },
    {
        let ghost b = self.bytes@;
        if self.bytes[start] == 48 {
            self.position = self.position + 1;
            match self.peek() {
                Some(c) => {
                    if c == 120 || c == 88 {
                        self.position = self.position + 1;
                        let digits_start = self.position;
                        proof {
                            run_end_bounds(b, digits_start as int, Class::HexDigit);
                        }
                        self.skip_run(Class::HexDigit);
                        if digits_start == self.position {
                            return Err(fail_at(start, "expected hexadecimal digits"));
                        }
                        return self.parse_int(start, 16, digits_start);
                    } else if is_ascii_digit(c) {
                        proof {
                            run_end_bounds(b, start + 1, Class::Digit);
                        }
                        let octal = self.skip_octal_digits();
                        if !octal {
                            return Err(fail_at(start, "invalid octal literal"));
                        }
                        return self.parse_int(start, 8, start + 1);
                    } else {
                        return Ok(TokenKind::IntLiteral(0));
                    }
                },
                None => {
                    return Ok(TokenKind::IntLiteral(0));
                },
            }
        }
        proof {
            run_end_bounds(b, start as int, Class::Digit);
        }
        self.skip_run(Class::Digit);
        self.parse_int(start, 10, start)
    }

    /// Moves past a run of digits; `false` where one of them is not octal.
    #[verifier::loop_isolation(false)]
    fn skip_octal_digits(&mut self) -> (r: bool)
        requires
            old(self).wf(),
        ensures
            final(self).wf(),
            final(self).bytes@ == old(self).bytes@,
            final(self).position == run_end(
                old(self).bytes@,
                old(self).position as int,
                Class::Digit,
            ),
            r == !(exists|i: int|
                old(self).position <= i < final(self).position && #[trigger] old(self).bytes@[i]
                    >= 56),
    {
        let start = self.position;
        proof {
            run_end_bounds(self.bytes@, self.position as int, Class::Digit);
        }
        self.skip_run(Class::Digit);
        let mut i: usize = start;
        while i < self.position
            invariant
                self.wf(),
                start <= i <= self.position,
                forall|j: int| start <= j < i ==> #[trigger] self.bytes@[j] < 56,
            decreases self.position - i,
        {
            if self.bytes[i] >= 56 {
                return false;
            }
            i = i + 1;
        }
        true
    }

    /// The literal whose digits are the bytes from `digits` up to the current position.
    fn parse_int(&self, position: usize, radix: u64, digits: usize) -> (r: CompilerResult<
        TokenKind,
    >)
        requires
            self.wf(),
            digits <= self.position,
            2 <= radix <= 16,
        ensures
            match literal(
                self.bytes@,
                position as int,
                digits as int,
                self.position as int,
                radix as nat,
            ) {
                Ok(k) => r matches Ok(x) && x.view() == k,
                Err(e) => r matches Err(x) && x@ == e,
            },
    {
        let mut value: u64 = 0;
        let mut i: usize = digits;
        let mut fits = true;
        while i < self.position
            invariant
                self.wf(),
                digits <= i <= self.position,
                2 <= radix <= 16,
                fits <==> radix_value(self.bytes@, digits as int, i as int, radix as nat)
                    <= u32::MAX,
                fits ==> value == radix_value(
                    self.bytes@,
                    digits as int,
                    i as int,
                    radix as nat,
                ),
            decreases self.position - i,
        {
            let ghost v = radix_value(self.bytes@, digits as int, i as int, radix as nat);
            assert(v * radix >= v) by (nonlinear_arith)
                requires
                    radix >= 2,
                    v >= 0,
            ;
            if fits {
                assert(value * radix <= 0xffff_ffff * 16) by (nonlinear_arith)
                    requires
                        value <= 0xffff_ffff,
                        radix <= 16,
                ;
                value = value * radix + byte_value(self.bytes[i]);
                if value > 0xffff_ffff {
                    fits = false;
                }
            }
            i = i + 1;
        }
        if fits {
            Ok(TokenKind::IntLiteral(to_i32(value)))
        } else {
            Err(fail_at(position, "integer literal out of range"))
        }
    }

    fn peek(&self) -> (r: Option<u8>)
        requires
            self.wf(),
        ensures
            r == (if self.position < self.bytes@.len() {
                Some(self.bytes@[self.position as int])
            } else {
                None
            }),
    {
        if self.position < self.bytes.len() {
            Some(self.bytes[self.position])
        } else {
            None
        }
    }

    fn peek_next(&self) -> (r: Option<u8>)
        requires
            self.wf(),
        ensures
            r == (if self.position + 1 < self.bytes@.len() {
                Some(self.bytes@[self.position + 1])
            } else {
                None
            }),
    {
        if self.position < self.bytes.len() && self.position + 1 < self.bytes.len() {
            Some(self.bytes[self.position + 1])
        } else {
            None
        }
    }

    fn consume_if(&mut self, expected: u8) -> (r: bool)
        requires
            old(self).wf(),
        ensures
            final(self).wf(),
            final(self).bytes@ == old(self).bytes@,
            r == byte_is(old(self).bytes@, old(self).position as int, expected),
            final(self).position == (if r {
                old(self).position + 1
            } else {
                old(self).position as int
            }),
    {
        if self.peek() == Some(expected) {
            self.position = self.position + 1;
            true
        } else {
            false
        }
    }
}

fn byte_in_class(class: &Class, b: u8) -> (r: bool)
    ensures
        r == in_class(*class, b),
{
    match class {
        Class::Space => is_ascii_space(b),
        Class::Line => b != 10,
        Class::Digit => is_ascii_digit(b),
        Class::HexDigit => is_ascii_hex_digit(b),
        Class::Ident => is_ident_continue(b),
        Class::Quoted => b != 34 && b != 10,
    }
}

/// The kind that one byte is by itself.
fn single_kind(c: u8) -> (r: Option<TokenKind>)
    ensures
        r == single(c),
        r matches Some(k) ==> k.view() == KindV::Other(k),
{
    if c == 40 {
        Some(TokenKind::LParen)
    } else if c == 41 {
        Some(TokenKind::RParen)
    } else if c == 123 {
        Some(TokenKind::LBrace)
    } else if c == 125 {
        Some(TokenKind::RBrace)
    } else if c == 91 {
        Some(TokenKind::LBracket)
    } else if c == 93 {
        Some(TokenKind::RBracket)
    } else if c == 59 {
        Some(TokenKind::Semicolon)
    } else if c == 44 {
        Some(TokenKind::Comma)
    } else if c == 43 {
        Some(TokenKind::Plus)
    } else if c == 45 {
        Some(TokenKind::Minus)
    } else if c == 42 {
        Some(TokenKind::Star)
    } else if c == 47 {
        Some(TokenKind::Slash)
    } else if c == 37 {
        Some(TokenKind::Percent)
    } else {
        None
    }
}

fn byte_value(b: u8) -> (r: u64)
    ensures
        r == digit_value(b),
        r <= 15,
{
    if 48 <= b && b <= 57 {
        (b - 48) as u64
    } else if 65 <= b && b <= 70 {
        (b - 55) as u64
    } else if 97 <= b && b <= 102 {
        (b - 87) as u64
    } else {
        0
    }
}

fn to_i32(v: u64) -> (r: i32)
    requires
        v <= u32::MAX,
    ensures
        r == wrap_i32(v as nat),
{
    if v < 0x8000_0000 {
        v as i32
    } else {
        (v as i64 - 0x1_0000_0000i64) as i32
    }
}

} // verus!
