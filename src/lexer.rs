use vstd::prelude::*;
use crate::ast::{Location, SchemaParseError, SchemaParseErrorKind};
use crate::text::{chars_of, dec_text, digit_char, push_char};

verus! {

/// The tokens of the schema language.
#[derive(Debug, Clone, PartialEq, Eq)]
pub enum TokenKind {
    Ident(String),
    Number(usize),
    Colon,
    Comma,
    LBracket,
    RBracket,
    LAngleBracket,
    RAngleBracket,
    LBrace,
    RBrace,
    Plus,
}

/// A token and the offset just past its last byte.
#[derive(Debug, Clone, PartialEq, Eq)]
pub struct Token {
    pub kind: TokenKind,
    pub pos: usize,
}

pub open spec fn is_alpha(b: u8) -> bool {
    (65 <= b <= 90) || (97 <= b <= 122)
}

pub open spec fn is_digit(b: u8) -> bool {
    48 <= b <= 57
}

pub open spec fn is_ident_byte(b: u8) -> bool {
    is_alpha(b) || is_digit(b) || b == 95
}

/// The text that a token is made of.
pub open spec fn token_text(k: TokenKind) -> Seq<char> {
    match k {
        TokenKind::Ident(s) => s@,
        TokenKind::Number(n) => dec_text(n as nat),
        TokenKind::Colon => seq![':'],
        TokenKind::Comma => seq![','],
        TokenKind::LBracket => seq!['['],
        TokenKind::RBracket => seq![']'],
        TokenKind::LAngleBracket => seq!['<'],
        TokenKind::RAngleBracket => seq!['>'],
        TokenKind::LBrace => seq!['{'],
        TokenKind::RBrace => seq!['}'],
        TokenKind::Plus => seq!['+'],
    }
}

/// An identifier starts with a letter and goes on with letters, digits
/// and underscores.
pub open spec fn is_ident_text(s: Seq<char>) -> bool {
    &&& s.len() > 0
    &&& ('A' <= s[0] <= 'Z' || 'a' <= s[0] <= 'z')
    &&& forall|i: int|
        0 <= i < s.len() ==> ('A' <= #[trigger] s[i] <= 'Z' || 'a' <= s[i] <= 'z' || '0' <= s[i]
            <= '9' || s[i] == '_')
}

/// Whether a byte is a one-byte token.
pub open spec fn is_symbol(b: u8) -> bool {
    b == 58 || b == 44 || b == 91 || b == 93 || b == 60 || b == 62 || b == 123 || b == 125 || b
        == 43
}

/// Whether the run of digits at `pos` spells a number above `usize::MAX`.
pub open spec fn digits_overflow(input: Seq<u8>, pos: nat) -> bool {
    exists|j: int|
        pos < j <= input.len() && (forall|k: int| pos <= k < j ==> is_digit(#[trigger] input[k]))
            && dec_value(input.subrange(pos as int, j)) > usize::MAX
}

/// The value of a run of decimal digits.
pub open spec fn dec_value(b: Seq<u8>) -> nat
    decreases b.len(),
{
    if b.len() == 0 {
        0
    } else {
        dec_value(b.drop_last()) * 10 + (b.last() - 48) as nat
    }
}

/// What the lexer finds at `pos` of `input`: nothing at the end, else a
/// token spanning `pos..t.pos` whose text is that of the bytes there, or an
/// unknown-token error that starts at `pos`.
pub open spec fn lex_result_ok(
    input: Seq<u8>,
    pos: nat,
    r: Option<Result<Token, SchemaParseError>>,
) -> bool {
    if pos >= input.len() {
        r is None
    } else {
        match r {
            None => false,
            Some(Ok(t)) => {
                &&& pos < t.pos <= input.len()
                &&& chars_of(input.subrange(pos as int, t.pos as int)) == token_text(t.kind)
                &&& (t.kind matches TokenKind::Ident(s) ==> is_ident_text(s@))
                &&& (t.kind is Ident ==> t.pos == input.len() || !is_ident_byte(input[t.pos as int]))
                &&& (t.kind is Number ==> t.pos == input.len() || !is_digit(input[t.pos as int]))
                &&& (t.kind matches TokenKind::Number(n) ==> n >= 1)
            },
            Some(Err(e)) => {
                &&& e.kind == SchemaParseErrorKind::UnknownToken
                &&& e.location.0 == pos
                &&& pos < e.location.1 <= input.len()
                &&& !is_alpha(input[pos as int])
                &&& !is_symbol(input[pos as int])
                &&& (49 <= input[pos as int] <= 57 ==> digits_overflow(input, pos))
                &&& (!(49 <= input[pos as int] <= 57) ==> e.location.1 == pos + 1)
            },
        }
    }
}

proof fn lemma_chars_of_extend(input: Seq<u8>, a: int, b: int)
    requires
        0 <= a <= b < input.len(),
    ensures
        chars_of(input.subrange(a, b + 1)) == chars_of(input.subrange(a, b)).push(input[b] as char),
{
    assert(chars_of(input.subrange(a, b + 1)) =~= chars_of(input.subrange(a, b)).push(
        input[b] as char,
    ));
}

/// Reads the identifier that starts at `pos`.
fn lex_ident(input: &[u8], pos: usize) -> (t: Token)
    requires
        pos < input@.len(),
        is_alpha(input@[pos as int]),
    ensures
        pos < t.pos <= input@.len(),
        t.kind matches TokenKind::Ident(s) && is_ident_text(s@),
        chars_of(input@.subrange(pos as int, t.pos as int)) == token_text(t.kind),
        t.pos == input@.len() || !is_ident_byte(input@[t.pos as int]),
{
    let mut s = String::new();
    let mut i = pos;
    while i < input.len() && (is_alpha_byte(input[i]) || is_digit_byte(input[i]) || input[i] == 95)
        invariant
            pos <= i <= input@.len(),
            i == pos || s@.len() > 0,
            s@ == chars_of(input@.subrange(pos as int, i as int)),
            s@.len() == i - pos,
            is_alpha(input@[pos as int]),
            forall|j: int| pos <= j < i ==> is_ident_byte(#[trigger] input@[j]),
        decreases input@.len() - i,
    {
        proof {
            lemma_chars_of_extend(input@, pos as int, i as int);
        }
        push_char(&mut s, input[i] as char);
        i = i + 1;
    }
    proof {
        assert forall|j: int| 0 <= j < s@.len() implies ('A' <= #[trigger] s@[j] <= 'Z' || 'a'
            <= s@[j] <= 'z' || '0' <= s@[j] <= '9' || s@[j] == '_') by {
            assert(s@[j] == input@[pos + j] as char);
            assert(is_ident_byte(input@[pos + j]));
        }
        assert(s@[0] == input@[pos as int] as char);
    }
    Token { kind: TokenKind::Ident(s), pos: i }
}

/// Reads the number that starts at `pos`, or fails where it does not fit
/// in `usize`.
fn lex_number(input: &[u8], pos: usize) -> (r: Result<Token, SchemaParseError>)
    requires
        pos < input@.len(),
        49 <= input@[pos as int] <= 57,
    ensures
        lex_result_ok(input@, pos as nat, Some(r)),
{
    let mut n: usize = (input[pos] - 48) as usize;
    let mut i = pos + 1;
    proof {
        assert(chars_of(input@.subrange(pos as int, i as int)) =~= seq![input@[pos as int] as char]);
        assert(dec_text(n as nat) == seq![digit_char(n as nat)]);
    }
    proof {
        let one = input@.subrange(pos as int, i as int);
        assert(one.drop_last() =~= Seq::<u8>::empty());
        assert(dec_value(one.drop_last()) == 0);
        assert(dec_value(one) == (input@[pos as int] - 48) as nat);
    }
    while i < input.len() && is_digit_byte(input[i])
        invariant
            pos < i <= input@.len(),
            n >= 1,
            dec_text(n as nat) == chars_of(input@.subrange(pos as int, i as int)),
            n == dec_value(input@.subrange(pos as int, i as int)),
            49 <= input@[pos as int] <= 57,
            forall|k: int| pos <= k < i ==> is_digit(#[trigger] input@[k]),
        decreases input@.len() - i,
    {
        let d = (input[i] - 48) as usize;
        proof {
            assert(input@.subrange(pos as int, i + 1).drop_last() =~= input@.subrange(pos as int, i as int));
        }
        if n > (usize::MAX - d) / 10 {
            proof {
                assert(n * 10 + d > usize::MAX) by (nonlinear_arith)
                    requires
                        n > (usize::MAX - d) / 10,
                        d <= 9,
                ;
                assert(dec_value(input@.subrange(pos as int, i + 1)) > usize::MAX);
                assert(digits_overflow(input@, pos as nat));
            }
            let mut j = i + 1;
            while j < input.len() && is_digit_byte(input[j])
                invariant
                    i < j <= input@.len(),
                    pos < i,
                    49 <= input@[pos as int] <= 57,
                decreases input@.len() - j,
            {
                j = j + 1;
            }
            return Err(
                SchemaParseError {
                    kind: SchemaParseErrorKind::UnknownToken,
                    location: Location(pos, j),
                },
            );
        }
        proof {
            lemma_chars_of_extend(input@, pos as int, i as int);
            lemma_dec_text_step(n as nat, d as nat);
        }
        n = n * 10 + d;
        i = i + 1;
    }
    Ok(Token { kind: TokenKind::Number(n), pos: i })
}

proof fn lemma_dec_text_step(n: nat, d: nat)
    requires
        n >= 1,
        d < 10,
    ensures
        dec_text(n * 10 + d) == dec_text(n).push(digit_char(d)),
{
    assert((n * 10 + d) / 10 == n) by (nonlinear_arith)
        requires
            d < 10,
    ;
    assert((n * 10 + d) % 10 == d) by (nonlinear_arith)
        requires
            d < 10,
    ;
    assert(n * 10 + d >= 10) by (nonlinear_arith)
        requires
            n >= 1,
    ;
}

fn is_alpha_byte(b: u8) -> (r: bool)
    ensures
        r == is_alpha(b),
{
    (65 <= b && b <= 90) || (97 <= b && b <= 122)
}

fn is_digit_byte(b: u8) -> (r: bool)
    ensures
        r == is_digit(b),
{
    48 <= b && b <= 57
}

/// The token of one symbol byte, if it is one.
fn symbol_kind(b: u8) -> (r: Option<TokenKind>)
    ensures
        r matches Some(k) ==> token_text(k) == seq![b as char] && !(k is Ident) && !(k is Number),
        r is None ==> !is_symbol(b),
{
    if b == 58 {
        Some(TokenKind::Colon)
    } else if b == 44 {
        Some(TokenKind::Comma)
    } else if b == 91 {
        Some(TokenKind::LBracket)
    } else if b == 93 {
        Some(TokenKind::RBracket)
    } else if b == 60 {
        Some(TokenKind::LAngleBracket)
    } else if b == 62 {
        Some(TokenKind::RAngleBracket)
    } else if b == 123 {
        Some(TokenKind::LBrace)
    } else if b == 125 {
        Some(TokenKind::RBrace)
    } else if b == 43 {
        Some(TokenKind::Plus)
    } else {
        None
    }
}

/// The token that starts at `pos` of `input`: `None` at the end.
pub fn lex_at(input: &[u8], pos: usize) -> (r: Option<Result<Token, SchemaParseError>>)
    ensures
        lex_result_ok(input@, pos as nat, r),
{
    if pos >= input.len() {
        return None;
    }
    let b = input[pos];
    if is_alpha_byte(b) {
        Some(Ok(lex_ident(input, pos)))
    } else if 49 <= b && b <= 57 {
        Some(lex_number(input, pos))
    } else {
        match symbol_kind(b) {
            Some(kind) => {
                proof {
                    assert(chars_of(input@.subrange(pos as int, pos + 1)) =~= seq![b as char]);
                }
                Some(Ok(Token { kind, pos: pos + 1 }))
            },
            None => Some(
                Err(
                    SchemaParseError {
                        kind: SchemaParseErrorKind::UnknownToken,
                        location: Location(pos, pos + 1),
                    },
                ),
            ),
        }
    }
}

/// A cursor that cuts schema text into tokens.
pub struct SchemaLexer<'b> {
    input: &'b [u8],
    pos: usize,
}

impl<'b> SchemaLexer<'b> {
    pub closed spec fn input(&self) -> Seq<u8> {
        self.input@
    }

    pub closed spec fn position(&self) -> nat {
        self.pos as nat
    }

    pub fn new(input: &'b [u8]) -> (r: Self)
        ensures
            r.input() == input@,
            r.position() == 0,
    {
        SchemaLexer { input, pos: 0 }
    }

    /// The next token, `None` at the end of the input. After an error the
    /// cursor stays where it was.
    pub fn next(&mut self) -> (r: Option<Result<Token, SchemaParseError>>)
        ensures
            final(self).input() == old(self).input(),
            lex_result_ok(old(self).input(), old(self).position(), r),
            r matches Some(Ok(t)) ==> final(self).position() == t.pos,
            !(r matches Some(Ok(_))) ==> final(self).position() == old(self).position(),
    {
        let r = lex_at(self.input, self.pos);
        if let Some(Ok(t)) = &r {
            self.pos = t.pos;
        }
        r
    }
}

} // verus!
