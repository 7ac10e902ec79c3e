//! How tokens stand in a source text.
//!
//! A table of spellings says what each token without text looks like. Against it, a source text is
//! its tokens in order, each as long as it can be, with nothing but white space and comments before
//! each of them.

use crate::lexer::{self, KindV, TokenKind, TokenV};
use vstd::prelude::*;
use vstd::utf8::decode_utf8;

verus! {

// ── Spellings ────────────────────────────────────────────────────────────────

/// How a token is spelled, where it has a single spelling.
pub open spec fn spelling(k: TokenKind) -> Option<Seq<char>> {
    match k {
        TokenKind::KwInt => Some("int"@),
        TokenKind::KwReturn => Some("return"@),
        TokenKind::KwConst => Some("const"@),
        TokenKind::KwIf => Some("if"@),
        TokenKind::KwElse => Some("else"@),
        TokenKind::KwWhile => Some("while"@),
        TokenKind::KwBreak => Some("break"@),
        TokenKind::KwContinue => Some("continue"@),
        TokenKind::KwVoid => Some("void"@),
        TokenKind::KwAsm => Some("asm"@),
        TokenKind::LBracket => Some("["@),
        TokenKind::RBracket => Some("]"@),
        TokenKind::LParen => Some("("@),
        TokenKind::RParen => Some(")"@),
        TokenKind::LBrace => Some("{"@),
        TokenKind::RBrace => Some("}"@),
        TokenKind::Semicolon => Some(";"@),
        TokenKind::Comma => Some(","@),
        TokenKind::Plus => Some("+"@),
        TokenKind::Minus => Some("-"@),
        TokenKind::Star => Some("*"@),
        TokenKind::Slash => Some("/"@),
        TokenKind::Percent => Some("%"@),
        TokenKind::Bang => Some("!"@),
        TokenKind::Less => Some("<"@),
        TokenKind::Greater => Some(">"@),
        TokenKind::LessEq => Some("<="@),
        TokenKind::GreaterEq => Some(">="@),
        TokenKind::EqEq => Some("=="@),
        TokenKind::Eq => Some("="@),
        TokenKind::NotEq => Some("!="@),
        TokenKind::AndAnd => Some("&&"@),
        TokenKind::OrOr => Some("||"@),
        _ => None,
    }
}

/// The characters of the bytes from one position to another.
pub open spec fn text(b: Seq<u8>, p: int, q: int) -> Seq<char> {
    Seq::new((q - p) as nat, |i: int| b[p + i] as char)
}

/// Whether the bytes from one position to another are the spelling of a token.
pub open spec fn spells(b: Seq<u8>, p: int, q: int, k: TokenKind) -> bool {
    0 <= p <= q <= b.len() && spelling(k) == Some(text(b, p, q))
}

/// Whether a character may stand in a name.
pub open spec fn in_name(c: char) -> bool {
    c == '_' || 'a' <= c <= 'z' || 'A' <= c <= 'Z' || '0' <= c <= '9'
}

/// Whether a text is a name: letters, digits and underscores, the first of them no digit, and no
/// keyword.
pub open spec fn is_name(s: Seq<char>) -> bool {
    &&& s.len() > 0
    &&& !('0' <= s[0] <= '9')
    &&& forall|i: int| 0 <= i < s.len() ==> in_name(#[trigger] s[i])
    &&& forall|k: TokenKind| #[trigger] spelling(k) != Some(s)
}

// ── Numerals ─────────────────────────────────────────────────────────────────

/// The value of a digit in bases up to sixteen.
pub open spec fn digit(c: char) -> Option<int> {
    if '0' <= c <= '9' {
        Some(c as int - '0' as int)
    } else if 'a' <= c <= 'f' {
        Some(c as int - 'a' as int + 10)
    } else if 'A' <= c <= 'F' {
        Some(c as int - 'A' as int + 10)
    } else {
        None
    }
}

/// Whether all characters of a text are digits of a base.
pub open spec fn digits(s: Seq<char>, base: int) -> bool {
    forall|i: int| 0 <= i < s.len() ==> (digit(#[trigger] s[i]) matches Some(d) && d < base)
}

/// The number that digits of a base denote.
pub open spec fn number(s: Seq<char>, base: int) -> int
    decreases s.len(),
{
    if s.len() == 0 {
        0
    } else {
        number(s.drop_last(), base) * base + digit(s.last())->0
    }
}

/// Whether a text is a numeral: the base that its beginning says, and the digits that follow.
pub open spec fn is_numeral(s: Seq<char>, from: int, base: int) -> bool {
    &&& 0 <= from <= s.len()
    &&& digits(s.skip(from), base)
    &&& if base == 16 {
        from == 2 && s.len() > 2 && s[0] == '0' && (s[1] == 'x' || s[1] == 'X')
    } else if base == 8 {
        from == 1 && s[0] == '0'
    } else {
        base == 10 && from == 0 && s.len() > 0 && s[0] != '0'
    }
}

/// Whether an integer is the number that a numeral denotes, in two's complement of 32 bits.
pub open spec fn denotes(s: Seq<char>, n: i32) -> bool {
    exists|from: int, base: int| #[trigger]
        is_numeral(s, from, base) && 0 <= number(s.skip(from), base) <= u32::MAX && n == if number(
            s.skip(from),
            base,
        ) <= i32::MAX {
            number(s.skip(from), base)
        } else {
            number(s.skip(from), base) - 0x1_0000_0000
        }
}

// ── White space and comments ─────────────────────────────────────────────────

/// Whether the bytes from one position to another are a comment up to the end of its line.
pub open spec fn line_comment(b: Seq<u8>, p: int, q: int) -> bool {
    &&& 0 <= p && p + 2 <= q <= b.len()
    &&& text(b, p, p + 2) == "//"@
    &&& forall|i: int| p <= i < q ==> #[trigger] b[i] as char != '\n'
    &&& q < b.len() ==> b[q] as char == '\n'
}

/// Whether the bytes from one position to another are a comment up to the first `*/`.
pub open spec fn block_comment(b: Seq<u8>, p: int, q: int) -> bool {
    &&& 0 <= p && p + 4 <= q <= b.len()
    &&& text(b, p, p + 2) == "/*"@
    &&& text(b, q - 2, q) == "*/"@
    &&& forall|i: int| p + 2 <= i < q - 2 ==> #[trigger] text(b, i, i + 2) != "*/"@
}

/// Whether a character is white space.
pub open spec fn blank(c: char) -> bool {
    c == ' ' || c == '\t' || c == '\n' || c == '\r' || c as int == 12
}

/// Whether the bytes from one position to another are white space and comments.
pub open spec fn skipped(b: Seq<u8>, p: int, q: int) -> bool
    decreases q - p,
{
    ||| 0 <= p == q <= b.len()
    ||| 0 <= p < q <= b.len() && blank(b[p] as char) && skipped(b, p + 1, q)
    ||| exists|r: int| p < r <= q && #[trigger] line_comment(b, p, r) && skipped(b, r, q)
    ||| exists|r: int| p < r <= q && #[trigger] block_comment(b, p, r) && skipped(b, r, q)
}

// ── Tokens ───────────────────────────────────────────────────────────────────

/// Whether a token stands at its position and ends at another.
pub open spec fn stands(b: Seq<u8>, t: TokenV, q: int) -> bool {
    let p = t.position as int;
    &&& 0 <= p <= q <= b.len()
    &&& match t.kind {
        KindV::Ident(name) => name == text(b, p, q) && is_name(name),
        KindV::Str(s) => {
            &&& p + 2 <= q
            &&& b[p] as char == '"' && b[q - 1] as char == '"'
            &&& forall|i: int|
                p < i < q - 1 ==> #[trigger] b[i] as char != '"' && b[i] as char != '\n'
            &&& s == decode_utf8(b.subrange(p + 1, q - 1))
        },
        KindV::Other(TokenKind::IntLiteral(n)) => denotes(text(b, p, q), n),
        KindV::Other(TokenKind::Eof) => p == b.len(),
        KindV::Other(k) => spells(b, p, q, k),
    }
}

/// Whether a token that ends at a position could not be longer: no longer spelling or numeral fits,
/// and no name goes on.
pub open spec fn is_whole(b: Seq<u8>, t: TokenV, q: int) -> bool {
    let p = t.position as int;
    &&& forall|k: TokenKind, r: int| #[trigger]
        spells(b, p, r, k) ==> r <= q
    &&& forall|r: int, from: int, base: int|
        p <= r <= b.len() && #[trigger] is_numeral(text(b, p, r), from, base) ==> r <= q
    &&& p < b.len() && in_name(b[p] as char) && !('0' <= b[p] as char <= '9') && q < b.len()
        ==> !in_name(b[q] as char)
    &&& text(b, p, q) == "/"@ && q < b.len() ==> b[q] as char != '/' && b[q] as char != '*'
}

/// Where the token before one ends, from the ends of all.
pub open spec fn end_before(ends: Seq<int>, i: int) -> int {
    if i <= 0 {
        0
    } else {
        ends[i - 1]
    }
}

/// Whether a source text is a list of tokens that end at given positions.
pub open spec fn consists_of(b: Seq<u8>, ts: Seq<TokenV>, ends: Seq<int>) -> bool {
    &&& ts.len() > 0 && ends.len() == ts.len()
    &&& ts.last().kind == KindV::Other(TokenKind::Eof)
    &&& forall|i: int|
        #![trigger ts[i]]
        #![trigger ends[i]]
        0 <= i < ts.len() ==> {
            &&& skipped(b, end_before(ends, i), ts[i].position as int)
            &&& stands(b, ts[i], ends[i])
            &&& is_whole(b, ts[i], ends[i])
            &&& ts[i].kind == KindV::Other(TokenKind::Eof) ==> i == ts.len() - 1
        }
}

// ── What the lexer finds ─────────────────────────────────────────────────────

/// The characters of the spellings.
proof fn spellings_spelled_out()
    ensures
        "["@ =~= seq!['['] && "]"@ =~= seq![']'] && "("@ =~= seq!['('] && ")"@ =~= seq![')'],
        "{"@ =~= seq!['{'] && "}"@ =~= seq!['}'] && ";"@ =~= seq![';'] && ","@ =~= seq![','],
        "+"@ =~= seq!['+'] && "-"@ =~= seq!['-'] && "*"@ =~= seq!['*'] && "/"@ =~= seq!['/'],
        "%"@ =~= seq!['%'] && "!"@ =~= seq!['!'] && "<"@ =~= seq!['<'] && ">"@ =~= seq!['>'],
        "="@ =~= seq!['='] && "<="@ =~= seq!['<', '='] && ">="@ =~= seq!['>', '='],
        "=="@ =~= seq!['=', '='] && "!="@ =~= seq!['!', '='] && "&&"@ =~= seq!['&', '&'],
        "||"@ =~= seq!['|', '|'] && "//"@ =~= seq!['/', '/'] && "/*"@ =~= seq!['/', '*'],
        "*/"@ =~= seq!['*', '/'],
        "int"@ =~= seq!['i', 'n', 't'] && "if"@ =~= seq!['i', 'f'],
        "return"@ =~= seq!['r', 'e', 't', 'u', 'r', 'n'],
        "const"@ =~= seq!['c', 'o', 'n', 's', 't'] && "else"@ =~= seq!['e', 'l', 's', 'e'],
        "while"@ =~= seq!['w', 'h', 'i', 'l', 'e'] && "break"@ =~= seq!['b', 'r', 'e', 'a', 'k'],
        "continue"@ =~= seq!['c', 'o', 'n', 't', 'i', 'n', 'u', 'e'],
        "void"@ =~= seq!['v', 'o', 'i', 'd'] && "asm"@ =~= seq!['a', 's', 'm'],
{
    reveal_strlit("[");
    reveal_strlit("]");
    reveal_strlit("(");
    reveal_strlit(")");
    reveal_strlit("{");
    reveal_strlit("}");
    reveal_strlit(";");
    reveal_strlit(",");
    reveal_strlit("+");
    reveal_strlit("-");
    reveal_strlit("*");
    reveal_strlit("/");
    reveal_strlit("%");
    reveal_strlit("!");
    reveal_strlit("<");
    reveal_strlit(">");
    reveal_strlit("=");
    reveal_strlit("<=");
    reveal_strlit(">=");
    reveal_strlit("==");
    reveal_strlit("!=");
    reveal_strlit("&&");
    reveal_strlit("||");
    reveal_strlit("//");
    reveal_strlit("/*");
    reveal_strlit("*/");
    reveal_strlit("int");
    reveal_strlit("if");
    reveal_strlit("return");
    reveal_strlit("const");
    reveal_strlit("else");
    reveal_strlit("while");
    reveal_strlit("break");
    reveal_strlit("continue");
    reveal_strlit("void");
    reveal_strlit("asm");
}

/// What is known of a spelling without looking at all of its characters: a keyword is made of
/// letters, any other spelling of one or two characters that are no letters.
proof fn spelling_form(k: TokenKind, s: Seq<char>)
    requires
        spelling(k) == Some(s),
    ensures
        s.len() > 0,
        in_name(s[0]) ==> !('0' <= s[0] <= '9') && forall|i: int|
            0 <= i < s.len() ==> in_name(#[trigger] s[i]),
        !in_name(s[0]) ==> s.len() <= 2,
        s[0] != '"' && !('0' <= s[0] <= '9'),
        s.len() >= 2 && !in_name(s[0]) ==> {
            ||| s[1] == '=' && (s[0] == '<' || s[0] == '>' || s[0] == '=' || s[0] == '!')
            ||| s[1] == '&' && s[0] == '&'
            ||| s[1] == '|' && s[0] == '|'
        },
        s.len() == 1 ==> s[0] != '&' && s[0] != '|',
{
    spellings_spelled_out();
}

/// The two ways to take the characters of some bytes agree.
proof fn text_is_chars(b: Seq<u8>, p: int, q: int)
    requires
        0 <= p <= q <= b.len(),
    ensures
        text(b, p, q) == lexer::chars_of(b.subrange(p, q)),
{
    assert(text(b, p, q) =~= lexer::chars_of(b.subrange(p, q)));
}

proof fn spaces_are_skipped(b: Seq<u8>, p: int, r: int, q: int)
    requires
        0 <= p <= r <= q <= b.len(),
        forall|i: int| p <= i < r ==> lexer::is_space(#[trigger] b[i]),
        skipped(b, r, q),
    ensures
        skipped(b, p, q),
    decreases r - p,
{
    if p < r {
        spaces_are_skipped(b, p + 1, r, q);
        assert(lexer::is_space(b[p]));
    }
}

proof fn comment_ends_first(b: Seq<u8>, p: int)
    requires
        0 <= p <= b.len(),
    ensures
        lexer::comment_end(b, p) matches Some(q) ==> {
            &&& p + 2 <= q <= b.len()
            &&& text(b, q - 2, q) == "*/"@
            &&& forall|i: int| p <= i < q - 2 ==> #[trigger] text(b, i, i + 2) != "*/"@
        },
    decreases b.len() - p,
{
    spellings_spelled_out();
    lexer::comment_end_bounds(b, p);
    if p < b.len() {
        if b[p] == 42 && lexer::byte_is(b, p + 1, 47) {
            assert(text(b, p, p + 2) =~= "*/"@);
        } else {
            comment_ends_first(b, p + 1);
            if let Some(q) = lexer::comment_end(b, p + 1) {
                assert forall|i: int| p <= i < q - 2 implies #[trigger] text(b, i, i + 2)
                    != "*/"@ by {
                    if i == p {
                        assert(text(b, p, p + 2)[0] == b[p] as char);
                        assert(text(b, p, p + 2)[1] == b[p + 1] as char);
                    }
                }
            }
        }
    }
}

/// What the lexer passes over is white space and comments.
proof fn trivia_is_skipped(b: Seq<u8>, p: int)
    requires
        0 <= p <= b.len(),
    ensures
        lexer::trivia_end(b, p) matches Ok(q) ==> p <= q <= b.len() && skipped(b, p, q),
    decreases b.len() - p,
{
    lexer::trivia_end_bounds(b, p);
    lexer::run_end_bounds(b, p, lexer::Class::Space);
    let s = lexer::run_end(b, p, lexer::Class::Space);
    assert forall|i: int| p <= i < s implies lexer::is_space(#[trigger] b[i]) by {
        assert(lexer::in_class(lexer::Class::Space, b[i]));
    }
    if let Ok(q) = lexer::trivia_end(b, p) {
        spellings_spelled_out();
        if lexer::byte_is(b, s, 47) && lexer::byte_is(b, s + 1, 47) {
            lexer::run_end_bounds(b, s + 2, lexer::Class::Line);
            let r = lexer::run_end(b, s + 2, lexer::Class::Line);
            trivia_is_skipped(b, r);
            assert(text(b, s, s + 2) =~= "//"@);
            assert forall|i: int| s <= i < r implies #[trigger] b[i] as char != '\n' by {
                if i >= s + 2 {
                    assert(lexer::in_class(lexer::Class::Line, b[i]));
                }
            }
            assert(line_comment(b, s, r));
            assert(skipped(b, s, q));
        } else if lexer::byte_is(b, s, 47) && lexer::byte_is(b, s + 1, 42) {
            comment_ends_first(b, s + 2);
            let r = lexer::comment_end(b, s + 2)->0;
            trivia_is_skipped(b, r);
            assert(text(b, s, s + 2) =~= "/*"@);
            assert(block_comment(b, s, r));
            assert(skipped(b, s, q));
        } else {
            assert(q == s);
            assert(skipped(b, s, q));
        }
        spaces_are_skipped(b, p, s, q);
    }
}

proof fn digits_denote(b: Seq<u8>, from: int, to: int, base: nat)
    requires
        0 <= from <= to <= b.len(),
        digits(text(b, from, to), base as int),
    ensures
        number(text(b, from, to), base as int) == lexer::radix_value(b, from, to, base),
    decreases to - from,
{
    let s = text(b, from, to);
    if from < to {
        assert(s.drop_last() =~= text(b, from, to - 1));
        assert forall|i: int| 0 <= i < to - 1 - from implies (digit(
            #[trigger] text(b, from, to - 1)[i],
        ) matches Some(d) && d < base) by {
            assert(text(b, from, to - 1)[i] == s[i]);
        }
        digits_denote(b, from, to - 1, base);
        assert(digit(s[s.len() - 1]) is Some);
    }
}

/// A numeral that the lexer reads stands for its number, and could not be longer.
#[verifier::rlimit(40)]
#[verifier::spinoff_prover]
proof fn numerals_stand(b: Seq<u8>, p: int)
    requires
        0 <= p < b.len(),
        lexer::is_digit(b[p]),
        lexer::number_at(b, p).0 is Ok,
    ensures
        p < lexer::number_at(b, p).1 <= b.len(),
        lexer::number_at(b, p).0 matches Ok(KindV::Other(TokenKind::IntLiteral(n))) && denotes(
            text(b, p, lexer::number_at(b, p).1),
            n,
        ),
        forall|r: int, from: int, base: int|
            p <= r <= b.len() && #[trigger] is_numeral(text(b, p, r), from, base) ==> r
                <= lexer::number_at(b, p).1,
{
    lexer::number_at_bounds(b, p);
    let q = lexer::number_at(b, p).1;
    let s = text(b, p, q);
    if b[p] == 48 && (lexer::byte_is(b, p + 1, 120) || lexer::byte_is(b, p + 1, 88)) {
        lexer::run_end_bounds(b, p + 2, lexer::Class::HexDigit);
        assert(s.skip(2) =~= text(b, p + 2, q));
        assert forall|i: int| 0 <= i < s.skip(2).len() implies (digit(#[trigger] s.skip(2)[i])
            matches Some(d) && d < 16) by {
            assert(lexer::in_class(lexer::Class::HexDigit, b[p + 2 + i]));
        }
        digits_denote(b, p + 2, q, 16);
        assert(is_numeral(s, 2, 16));
        assert forall|r: int, from: int, base: int|
            p <= r <= b.len() && #[trigger] is_numeral(text(b, p, r), from, base) implies r <= q by {
            let l = text(b, p, r);
            if r > q {
                assert(l[0] == '0');
                if base == 16 {
                    assert(l.skip(2)[q - p - 2] == b[q] as char);
                } else {
                    assert(base == 8);
                    assert(l.skip(1)[0] == b[p + 1] as char);
                }
            }
        }
    } else if b[p] == 48 {
        if p + 1 < b.len() && lexer::is_digit(b[p + 1]) {
            lexer::run_end_bounds(b, p + 1, lexer::Class::Digit);
        }
        assert(s.skip(1) =~= text(b, p + 1, q));
        assert forall|i: int| 0 <= i < s.skip(1).len() implies (digit(#[trigger] s.skip(1)[i])
            matches Some(d) && d < 8) by {
            assert(lexer::in_class(lexer::Class::Digit, b[p + 1 + i]));
            assert(b[p + 1 + i] < 56);
        }
        digits_denote(b, p + 1, q, 8);
        assert(s[0] == '0');
        assert(is_numeral(s, 1, 8));
        if q == p + 1 {
            assert(number(s.skip(1), 8) == 0);
        }
        assert forall|r: int, from: int, base: int|
            p <= r <= b.len() && #[trigger] is_numeral(text(b, p, r), from, base) implies r <= q by {
            let l = text(b, p, r);
            if r > q {
                assert(l[0] == '0');
                assert(l[1] == b[p + 1] as char);
                if base == 8 {
                    assert(l.skip(1)[q - p - 1] == b[q] as char);
                }
            }
        }
    } else {
        lexer::run_end_bounds(b, p, lexer::Class::Digit);
        assert(s.skip(0) =~= text(b, p, q));
        assert forall|i: int| 0 <= i < s.skip(0).len() implies (digit(#[trigger] s.skip(0)[i])
            matches Some(d) && d < 10) by {
            assert(lexer::in_class(lexer::Class::Digit, b[p + i]));
        }
        digits_denote(b, p, q, 10);
        assert(s[0] == b[p] as char);
        assert(is_numeral(s, 0, 10));
        assert forall|r: int, from: int, base: int|
            p <= r <= b.len() && #[trigger] is_numeral(text(b, p, r), from, base) implies r <= q by {
            let l = text(b, p, r);
            if r > q {
                assert(l[0] == b[p] as char);
                assert(l.skip(0)[q - p] == b[q] as char);
            }
        }
    }
}

/// A word that the lexer reads stands as it is spelled.
proof fn words_stand(b: Seq<u8>, p: int, t: TokenV)
    requires
        0 <= p < b.len() <= usize::MAX,
        lexer::ident_start(b[p]),
        t.position == p,
        lexer::kind_at(b, p).0 == Ok::<KindV, crate::error::ErrorView>(t.kind),
    ensures
        stands(b, t, lexer::kind_at(b, p).1),
        is_whole(b, t, lexer::kind_at(b, p).1),
{
    lexer::run_end_bounds(b, p, lexer::Class::Ident);
    let q = lexer::run_end(b, p, lexer::Class::Ident);
    assert(lexer::single(b[p]) is None);
    assert(lexer::kind_at(b, p).1 == q);
    text_is_chars(b, p, q);
    let s = text(b, p, q);
    assert(s[0] == b[p] as char);
    assert forall|i: int| 0 <= i < s.len() implies in_name(#[trigger] s[i]) by {
        assert(lexer::in_class(lexer::Class::Ident, b[p + i]));
    }
    assert(t.kind == lexer::word_kind(s));
    if t.kind is Ident {
        assert forall|k: TokenKind| #[trigger] spelling(k) != Some(s) by {
            spellings_spelled_out();
            assert(in_name(s[0]));
        }
    }
    assert(q < b.len() ==> !in_name(b[q] as char));
    assert forall|k: TokenKind, r: int| #[trigger] spells(b, p, r, k) implies r <= q by {
        spelling_form(k, text(b, p, r));
        if r > q {
            assert(text(b, p, r)[0] == b[p] as char);
            assert(text(b, p, r)[q - p] == b[q] as char);
        }
    }
    assert forall|r: int, from: int, base: int|
        p <= r <= b.len() && #[trigger] is_numeral(text(b, p, r), from, base) implies r <= q by {
        let l = text(b, p, r);
        if r > q {
            assert(l[0] == b[p] as char);
            if base == 10 {
                assert(digit(l.skip(0)[0]) is Some);
            }
        }
    }
    assert(s != "/"@) by {
        spellings_spelled_out();
    }
}

/// A token of one or two characters that are no letters stands as it is spelled.
#[verifier::rlimit(60)]
#[verifier::spinoff_prover]
proof fn signs_stand(b: Seq<u8>, p: int, t: TokenV)
    requires
        0 <= p < b.len() <= usize::MAX,
        !lexer::ident_start(b[p]),
        !lexer::is_digit(b[p]),
        b[p] != 34,
        b[p] == 47 ==> !lexer::byte_is(b, p + 1, 47) && !lexer::byte_is(b, p + 1, 42),
        t.position == p,
        lexer::kind_at(b, p).0 == Ok::<KindV, crate::error::ErrorView>(t.kind),
    ensures
        stands(b, t, lexer::kind_at(b, p).1),
        is_whole(b, t, lexer::kind_at(b, p).1),
{
    lexer::kind_at_bounds(b, p);
    let q = lexer::kind_at(b, p).1;
    spellings_spelled_out();
    let s = text(b, p, q);
    assert(p < q <= p + 2);
    assert(s[0] == b[p] as char);
    assert(q == p + 2 ==> s[1] == b[p + 1] as char);
    assert(t.kind is Other);
    let k = t.kind->Other_0;
    assert(spelling(k) is Some);
    assert(spelling(k)->0 =~= s);
    assert forall|k: TokenKind, r: int| #[trigger] spells(b, p, r, k) implies r <= q by {
        let l = text(b, p, r);
        spelling_form(k, l);
        if r > q {
            assert(l[0] == b[p] as char);
            assert(l[1] == b[p + 1] as char);
        }
    }
    assert forall|r: int, from: int, base: int|
        p <= r <= b.len() && #[trigger] is_numeral(text(b, p, r), from, base) implies r <= q by {
        let l = text(b, p, r);
        if r > q {
            assert(l[0] == b[p] as char);
            if base == 10 {
                assert(digit(l.skip(0)[0]) is Some);
            }
        }
    }
    assert(s == "/"@ ==> b[p] == 47) by {
        if s == "/"@ {
            assert(s[0] == '/');
        }
    }
}

/// A string literal that the lexer reads stands between its quotes.
proof fn strings_stand(b: Seq<u8>, p: int, t: TokenV)
    requires
        0 <= p < b.len() <= usize::MAX,
        b[p] == 34,
        t.position == p,
        lexer::kind_at(b, p).0 == Ok::<KindV, crate::error::ErrorView>(t.kind),
    ensures
        stands(b, t, lexer::kind_at(b, p).1),
        is_whole(b, t, lexer::kind_at(b, p).1),
{
    lexer::run_end_bounds(b, p + 1, lexer::Class::Quoted);
    let q = lexer::kind_at(b, p).1;
    assert(lexer::single(34u8) is None);
    assert forall|i: int| p < i < q - 1 implies #[trigger] b[i] as char != '"' && b[i] as char
        != '\n' by {
        assert(lexer::in_class(lexer::Class::Quoted, b[i]));
    }
    assert forall|k: TokenKind, r: int| #[trigger] spells(b, p, r, k) implies r <= q by {
        spelling_form(k, text(b, p, r));
        if r > q {
            assert(text(b, p, r)[0] == b[p] as char);
        }
    }
    assert forall|r: int, from: int, base: int|
        p <= r <= b.len() && #[trigger] is_numeral(text(b, p, r), from, base) implies r <= q by {
        let l = text(b, p, r);
        if r > q {
            assert(l[0] == b[p] as char);
            if base == 10 {
                assert(digit(l.skip(0)[0]) is Some);
            }
        }
    }
    assert(text(b, p, q) != "/"@) by {
        spellings_spelled_out();
        assert(text(b, p, q)[0] == '"');
    }
}

/// The first token that the lexer finds stands in the source, after nothing but white space and
/// comments, and could not be longer.
pub proof fn token_stands(b: Seq<u8>, p: int)
    requires
        0 <= p <= b.len() <= usize::MAX,
    ensures
        lexer::token_at(b, p) matches Ok((t, q)) ==> skipped(b, p, t.position as int) && stands(
            b,
            t,
            q,
        ) && is_whole(b, t, q),
{
    trivia_is_skipped(b, p);
    if let Ok((t, q)) = lexer::token_at(b, p) {
        let s = lexer::trivia_end(b, p)->Ok_0;
        lexer::kind_at_bounds(b, s);
        if s == b.len() {
            assert forall|k: TokenKind, r: int| #[trigger] spells(b, s, r, k) implies r <= q by {}
            assert forall|r: int, from: int, base: int|
                s <= r <= b.len() && #[trigger] is_numeral(text(b, s, r), from, base) implies r
                <= q by {}
        } else if lexer::ident_start(b[s]) {
            words_stand(b, s, t);
        } else if lexer::is_digit(b[s]) {
            assert(lexer::single(b[s]) is None);
            assert(lexer::kind_at(b, s) == lexer::number_at(b, s));
            numerals_stand(b, s);
            assert forall|k: TokenKind, r: int| #[trigger] spells(b, s, r, k) implies r <= q by {
                spelling_form(k, text(b, s, r));
                if r > q {
                    assert(text(b, s, r)[0] == b[s] as char);
                }
            }
            assert(text(b, s, q) != "/"@) by {
                spellings_spelled_out();
                assert(text(b, s, q)[0] == b[s] as char);
            }
        } else if b[s] == 34 {
            strings_stand(b, s, t);
        } else {
            slash_is_no_comment(b, p);
            signs_stand(b, s, t);
        }
    }
}

/// Where the lexer stops passing over comments, none starts.
proof fn slash_is_no_comment(b: Seq<u8>, p: int)
    requires
        0 <= p <= b.len(),
    ensures
        lexer::trivia_end(b, p) matches Ok(q) ==> lexer::byte_is(b, q, 47) ==> !lexer::byte_is(
            b,
            q + 1,
            47,
        ) && !lexer::byte_is(b, q + 1, 42),
    decreases b.len() - p,
{
    lexer::run_end_bounds(b, p, lexer::Class::Space);
    let s = lexer::run_end(b, p, lexer::Class::Space);
    if lexer::byte_is(b, s, 47) && lexer::byte_is(b, s + 1, 47) {
        lexer::run_end_bounds(b, s + 2, lexer::Class::Line);
        slash_is_no_comment(b, lexer::run_end(b, s + 2, lexer::Class::Line));
    } else if lexer::byte_is(b, s, 47) && lexer::byte_is(b, s + 1, 42) {
        lexer::comment_end_bounds(b, s + 2);
        if let Some(r) = lexer::comment_end(b, s + 2) {
            slash_is_no_comment(b, r);
        }
    }
}

/// The tokens from a position on, each of which stands in the source, and their ends.
proof fn tokens_stand_from(b: Seq<u8>, p: int) -> (ends: Seq<int>)
    requires
        0 <= p <= b.len() <= usize::MAX,
    ensures
        lexer::lex(b, p) matches Ok(ts) ==> {
            &&& ts.len() > 0 && ends.len() == ts.len()
            &&& ts.last().kind == KindV::Other(TokenKind::Eof)
            &&& forall|i: int|
                #![trigger ts[i]]
                0 <= i < ts.len() ==> {
                    &&& skipped(
                        b,
                        if i == 0 {
                            p
                        } else {
                            ends[i - 1]
                        },
                        ts[i].position as int,
                    )
                    &&& stands(b, ts[i], ends[i])
                    &&& is_whole(b, ts[i], ends[i])
                    &&& ts[i].kind == KindV::Other(TokenKind::Eof) ==> i == ts.len() - 1
                }
        },
    decreases b.len() - p,
{
    lexer::token_at_bounds(b, p);
    token_stands(b, p);
    match lexer::token_at(b, p) {
        Err(_) => Seq::empty(),
        Ok((t, q)) => if t.kind == KindV::Other(TokenKind::Eof) {
            seq![q]
        } else {
            let more = tokens_stand_from(b, q);
            let ends = seq![q] + more;
            if let Ok(rest) = lexer::lex(b, q) {
                let ts = seq![t] + rest;
                assert(ts.last() == rest.last());
                assert forall|i: int|
                    #![trigger ts[i]]
                    0 <= i < ts.len() implies {
                    &&& skipped(
                        b,
                        if i == 0 {
                            p
                        } else {
                            ends[i - 1]
                        },
                        ts[i].position as int,
                    )
                    &&& stands(b, ts[i], ends[i])
                    &&& is_whole(b, ts[i], ends[i])
                    &&& ts[i].kind == KindV::Other(TokenKind::Eof) ==> i == ts.len() - 1
                } by {
                    if i > 0 {
                        assert(ts[i] == rest[i - 1]);
                        assert(ends[i] == more[i - 1]);
                        if i > 1 {
                            assert(ends[i - 1] == more[i - 2]);
                        }
                    }
                }
            }
            ends
        },
    }
}

/// A source text is the tokens that the lexer splits it into: each stands at its position as it is
/// spelled and could not be longer, and nothing but white space and comments is between them.
pub proof fn source_is_its_tokens(b: Seq<u8>) -> (ends: Seq<int>)
    requires
        b.len() <= usize::MAX,
    ensures
        lexer::lex(b, 0) matches Ok(ts) ==> consists_of(b, ts, ends),
{
    tokens_stand_from(b, 0)
}

} // verus!
