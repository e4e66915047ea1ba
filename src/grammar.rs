use vstd::prelude::*;
use crate::ast::{field_text, field_texts, Ast, AstKind, Len};
use crate::lexer::{
    dec_value, digits_overflow, is_alpha, is_digit, is_ident_byte, is_ident_text, is_symbol,
    lex_result_ok, token_text, Token, TokenKind,
};
use crate::ast::SchemaParseError;
use crate::text::{chars_of, dec_text, digit_char, join};

verus! {

/// A field name: an identifier, or empty where `empty_ok`.
pub open spec fn name_ok(s: Seq<char>, empty_ok: bool) -> bool {
    is_ident_text(s) || (empty_ok && s.len() == 0)
}

/// A tree that schema text can spell: identifiers for names (or empty
/// names where `empty_ok`) and variable lengths, lengths of at least one,
/// element nodes named `[]`, and no empty struct.
pub open spec fn kind_ok(k: AstKind, empty_ok: bool) -> bool
    decreases k, 0int, 0int,
{
    match k {
        AstKind::NStr(n) => n >= 1,
        AstKind::Struct(children) => children@.len() > 0 && fields_ok(children, 0, empty_ok),
        AstKind::Array(len, elem) => wf_len(len) && elem.name@ == "[]"@ && kind_ok(
            elem.kind,
            empty_ok,
        ),
        _ => true,
    }
}

pub open spec fn wf_len(len: Len) -> bool {
    match len {
        Len::Fixed(n) => n >= 1,
        Len::Variable(s) => is_ident_text(s@),
        Len::Unlimited => true,
    }
}

/// The fields `i..` are well formed.
pub open spec fn fields_ok(children: Vec<Ast>, i: int, empty_ok: bool) -> bool
    decreases children, 0int, children@.len() - i,
{
    if i < 0 || i >= children@.len() {
        true
    } else {
        name_ok(children@[i].name@, empty_ok) && kind_ok(children@[i].kind, empty_ok) && fields_ok(
            children,
            i + 1,
            empty_ok,
        )
    }
}

/// A well-formed root: an unnamed struct of well-formed fields.
pub open spec fn root_ok(a: Ast, empty_ok: bool) -> bool {
    &&& a.name@.len() == 0
    &&& a.kind matches AstKind::Struct(children) && children@.len() > 0 && fields_ok(
        children,
        0,
        empty_ok,
    )
}

/// A tree that strict schema text spells: every name an identifier.
pub open spec fn wf_kind(k: AstKind) -> bool {
    kind_ok(k, false)
}

pub open spec fn wf_fields(children: Vec<Ast>, i: int) -> bool {
    fields_ok(children, i, false)
}

pub open spec fn wf_root(a: Ast) -> bool {
    root_ok(a, false)
}

/// The names that the arrays of a tree take their lengths from.
pub open spec fn var_names(k: AstKind) -> Set<Seq<char>>
    decreases k, 0int, 0int,
{
    match k {
        AstKind::Struct(children) => var_names_fields(children, 0),
        AstKind::Array(len, elem) => match len {
            Len::Variable(s) => set![s@] + var_names(elem.kind),
            _ => var_names(elem.kind),
        },
        _ => Set::empty(),
    }
}

pub open spec fn var_names_fields(children: Vec<Ast>, i: int) -> Set<Seq<char>>
    decreases children, 0int, children@.len() - i,
{
    if i < 0 || i >= children@.len() {
        Set::empty()
    } else {
        var_names(children@[i].kind) + var_names_fields(children, i + 1)
    }
}

/// Adding a well-formed field at the end keeps a list well formed and adds
/// its variable names.
pub proof fn lemma_fields_push(v: Vec<Ast>, v2: Vec<Ast>, x: Ast, e: bool, i: int)
    requires
        v2@ == v@.push(x),
        0 <= i <= v@.len(),
        fields_ok(v, i, e),
        name_ok(x.name@, e),
        kind_ok(x.kind, e),
    ensures
        fields_ok(v2, i, e),
        var_names_fields(v2, i) == var_names_fields(v, i) + var_names(x.kind),
    decreases v@.len() - i,
{
    if i == v@.len() {
        assert(v2@[i] == x);
        assert(fields_ok(v2, i + 1, e));
        assert(var_names_fields(v2, i + 1) =~= Set::<Seq<char>>::empty());
        assert(var_names_fields(v, i) =~= Set::<Seq<char>>::empty());
        assert(var_names_fields(v2, i) =~= var_names_fields(v, i) + var_names(x.kind));
    } else {
        assert(v2@[i] == v@[i]);
        lemma_fields_push(v, v2, x, e, i + 1);
        assert(var_names_fields(v2, i) =~= var_names_fields(v, i) + var_names(x.kind));
    }
}

/// `t` is written in `input` from `p` on.
pub open spec fn text_at(input: Seq<u8>, p: int, t: Seq<char>) -> bool {
    0 <= p && p + t.len() <= input.len() && chars_of(input.subrange(p, p + t.len())) == t
}

/// What may follow a type: the end, a comma or a closing bracket.
pub open spec fn follows(input: Seq<u8>, q: int) -> bool {
    q == input.len() || (0 <= q < input.len() && (input[q] == 44 || input[q] == 93))
}

/// What may follow a field list: the end or a closing bracket.
pub open spec fn list_follows(input: Seq<u8>, q: int) -> bool {
    q == input.len() || (0 <= q < input.len() && input[q] == 93)
}

pub proof fn lemma_wf_field(children: Vec<Ast>, i: int, j: int)
    requires
        0 <= i <= j < children@.len(),
        fields_ok(children, i, false),
    ensures
        is_ident_text(children@[j].name@),
        kind_ok(children@[j].kind, false),
        fields_ok(children, j, false),
    decreases j - i,
{
    if i < j {
        lemma_wf_field(children, i + 1, j);
    }
}

pub proof fn lemma_text_split(input: Seq<u8>, p: int, a: Seq<char>, b: Seq<char>)
    requires
        text_at(input, p, a + b),
    ensures
        text_at(input, p, a),
        text_at(input, p + a.len(), b),
{
    let whole = input.subrange(p, p + a.len() + b.len());
    assert(input.subrange(p, p + a.len()) =~= whole.subrange(0, a.len() as int));
    assert(input.subrange(p + a.len(), p + a.len() + b.len()) =~= whole.subrange(
        a.len() as int,
        whole.len() as int,
    ));
    assert(chars_of(whole.subrange(0, a.len() as int)) =~= (a + b).subrange(0, a.len() as int));
    assert((a + b).subrange(0, a.len() as int) =~= a);
    assert(chars_of(whole.subrange(a.len() as int, whole.len() as int)) =~= (a + b).subrange(
        a.len() as int,
        (a + b).len() as int,
    ));
    assert((a + b).subrange(a.len() as int, (a + b).len() as int) =~= b);
}

pub proof fn lemma_text_byte(input: Seq<u8>, p: int, t: Seq<char>, i: int)
    requires
        text_at(input, p, t),
        0 <= i < t.len(),
    ensures
        input[p + i] as char == t[i],
{
    assert(chars_of(input.subrange(p, p + t.len()))[i] == input[p + i] as char);
}

/// A run of identifier bytes that the lexer took whole ends where the
/// written identifier ends.
pub proof fn lemma_ident_extent(input: Seq<u8>, p: int, len: int, tp: int)
    requires
        0 <= p,
        p + len <= input.len(),
        tp <= input.len(),
        p < tp,
        0 < len,
        forall|k: int| p <= k < p + len ==> is_ident_byte(#[trigger] input[k]),
        p + len == input.len() || !is_ident_byte(input[p + len]),
        forall|k: int| p <= k < tp ==> is_ident_byte(#[trigger] input[k]),
        tp == input.len() || !is_ident_byte(input[tp]),
    ensures
        tp == p + len,
{
    if tp < p + len {
        assert(is_ident_byte(input[tp]));
    } else if tp > p + len {
        assert(is_ident_byte(input[p + len]));
    }
}

/// The same for a run of digits.
pub proof fn lemma_digit_extent(input: Seq<u8>, p: int, len: int, tp: int)
    requires
        0 <= p,
        p + len <= input.len(),
        tp <= input.len(),
        p < tp,
        0 < len,
        forall|k: int| p <= k < p + len ==> is_digit(#[trigger] input[k]),
        p + len == input.len() || !is_digit(input[p + len]),
        forall|k: int| p <= k < tp ==> is_digit(#[trigger] input[k]),
        tp == input.len() || !is_digit(input[tp]),
    ensures
        tp == p + len,
{
    if tp < p + len {
        assert(is_digit(input[tp]));
    } else if tp > p + len {
        assert(is_digit(input[p + len]));
    }
}

/// Digits of a number: each is `0`..`9`, and the first is no `0` when the
/// number is positive.
pub proof fn lemma_dec_text_digits(n: nat)
    ensures
        dec_text(n).len() > 0,
        forall|i: int| 0 <= i < dec_text(n).len() ==> '0' <= #[trigger] dec_text(n)[i] <= '9',
        n >= 1 ==> dec_text(n)[0] != '0',
    decreases n,
{
    if n >= 10 {
        lemma_dec_text_digits(n / 10);
        assert(dec_text(n) == dec_text(n / 10).push(digit_char(n % 10)));
    }
}

/// Bytes that spell the digits of `n` have the value `n`, and no prefix of
/// them has a larger one.
pub proof fn lemma_dec_value_text(b: Seq<u8>, n: nat)
    requires
        chars_of(b) == dec_text(n),
    ensures
        dec_value(b) == n,
        forall|j: int| 0 <= j <= b.len() ==> dec_value(#[trigger] b.subrange(0, j)) <= n,
    decreases n,
{
    lemma_dec_text_digits(n);
    assert(b.len() == dec_text(n).len());
    if n < 10 {
        assert(b.drop_last() =~= Seq::<u8>::empty());
        assert(chars_of(b)[0] == b[0] as char);
        assert(b[0] as char == digit_char(n));
        assert(b[0] == n + 48);
        assert(dec_value(b) == dec_value(b.drop_last()) * 10 + (b.last() - 48) as nat);
        assert forall|j: int| 0 <= j <= b.len() implies dec_value(#[trigger] b.subrange(0, j)) <= n by {
            if j == 0 {
                assert(b.subrange(0, 0) =~= Seq::<u8>::empty());
            } else {
                assert(b.subrange(0, j) =~= b);
            }
        }
    } else {
        let d = b.drop_last();
        assert(dec_text(n) == dec_text(n / 10).push(digit_char(n % 10)));
        assert(chars_of(d) =~= chars_of(b).drop_last());
        assert(chars_of(b).drop_last() =~= dec_text(n / 10));
        lemma_dec_value_text(d, n / 10);
        assert(chars_of(b)[b.len() - 1] == b.last() as char);
        assert(b.last() as char == digit_char(n % 10));
        assert(b.last() == n % 10 + 48);
        assert forall|j: int| 0 <= j <= b.len() implies dec_value(#[trigger] b.subrange(0, j)) <= n by {
            if j == b.len() {
                assert(b.subrange(0, j) =~= b);
            } else {
                assert(b.subrange(0, j) =~= d.subrange(0, j));
            }
        }
    }
}

/// Whether a character is a one-byte token.
pub open spec fn is_symbol_char(c: char) -> bool {
    c == ':' || c == ',' || c == '[' || c == ']' || c == '<' || c == '>' || c == '{' || c == '}'
        || c == '+'
}

/// Where a symbol is written, the lexer finds exactly that symbol.
pub proof fn lemma_lex_symbol(
    input: Seq<u8>,
    pos: int,
    c: char,
    r: Option<Result<Token, SchemaParseError>>,
)
    requires
        0 <= pos,
        text_at(input, pos, seq![c]),
        is_symbol_char(c),
        lex_result_ok(input, pos as nat, r),
    ensures
        r matches Some(Ok(t)) && t.pos == pos + 1 && token_text(t.kind) == seq![c] && !(
        t.kind is Ident) && !(t.kind is Number),
{
    lemma_text_byte(input, pos, seq![c], 0);
    let b = input[pos];
    assert(b as char == c);
    assert(is_symbol(b));
    assert(!is_alpha(b));
    match r {
        Some(Ok(t)) => {
            let tt = chars_of(input.subrange(pos, t.pos as int));
            assert(tt[0] == b as char);
            match t.kind {
                TokenKind::Ident(s) => {
                    assert(s@[0] == c);
                },
                TokenKind::Number(n) => {
                    lemma_dec_text_digits(n as nat);
                    assert(dec_text(n as nat)[0] == c);
                },
                _ => {
                    assert(tt.len() == 1);
                },
            }
        },
        _ => {},
    }
}

/// Where an identifier is written and not followed by another identifier
/// byte, the lexer finds exactly that identifier.
pub proof fn lemma_lex_ident(
    input: Seq<u8>,
    pos: int,
    w: Seq<char>,
    r: Option<Result<Token, SchemaParseError>>,
)
    requires
        0 <= pos,
        text_at(input, pos, w),
        is_ident_text(w),
        pos + w.len() == input.len() || !is_ident_byte(input[pos + w.len()]),
        lex_result_ok(input, pos as nat, r),
    ensures
        r matches Some(Ok(t)) && t.pos == pos + w.len() && (t.kind matches TokenKind::Ident(s) && s@
            == w),
{
    assert forall|k: int| pos <= k < pos + w.len() implies is_ident_byte(#[trigger] input[k]) by {
        lemma_text_byte(input, pos, w, k - pos);
    }
    lemma_text_byte(input, pos, w, 0);
    let b = input[pos];
    assert(is_alpha(b));
    match r {
        Some(Ok(t)) => {
            let tt = chars_of(input.subrange(pos, t.pos as int));
            assert(tt[0] == b as char);
            match t.kind {
                TokenKind::Ident(s) => {
                    assert forall|k: int| pos <= k < t.pos implies is_ident_byte(#[trigger] input[k]) by {
                        assert(tt[k - pos] == input[k] as char);
                        assert(s@[k - pos] == input[k] as char);
                    }
                    lemma_ident_extent(input, pos, w.len() as int, t.pos as int);
                },
                TokenKind::Number(n) => {
                    lemma_dec_text_digits(n as nat);
                    assert(dec_text(n as nat)[0] == b as char);
                },
                _ => {
                    assert(token_text(t.kind)[0] == b as char);
                },
            }
        },
        _ => {},
    }
}

/// Where the digits of `n >= 1` are written and not followed by another
/// digit, the lexer finds exactly the number `n`.
pub proof fn lemma_lex_number(
    input: Seq<u8>,
    pos: int,
    n: usize,
    r: Option<Result<Token, SchemaParseError>>,
)
    requires
        0 <= pos,
        n >= 1,
        text_at(input, pos, dec_text(n as nat)),
        pos + dec_text(n as nat).len() == input.len() || !is_digit(input[pos + dec_text(n as nat).len()]),
        lex_result_ok(input, pos as nat, r),
    ensures
        r matches Some(Ok(t)) && t.pos == pos + dec_text(n as nat).len() && t.kind == TokenKind::Number(n),
{
    let w = dec_text(n as nat);
    let len = w.len() as int;
    lemma_dec_text_digits(n as nat);
    assert forall|k: int| pos <= k < pos + len implies is_digit(#[trigger] input[k]) by {
        lemma_text_byte(input, pos, w, k - pos);
    }
    lemma_text_byte(input, pos, w, 0);
    let b = input[pos];
    assert(49 <= b <= 57);
    let run = input.subrange(pos, pos + len);
    lemma_dec_value_text(run, n as nat);
    match r {
        Some(Ok(t)) => {
            let tt = chars_of(input.subrange(pos, t.pos as int));
            assert(tt[0] == b as char);
            match t.kind {
                TokenKind::Number(m) => {
                    lemma_dec_text_digits(m as nat);
                    assert forall|k: int| pos <= k < t.pos implies is_digit(#[trigger] input[k]) by {
                        assert(tt[k - pos] == input[k] as char);
                        assert(dec_text(m as nat)[k - pos] == input[k] as char);
                    }
                    lemma_digit_extent(input, pos, len, t.pos as int);
                    lemma_dec_value_text(run, m as nat);
                },
                TokenKind::Ident(s) => {
                    assert(s@[0] == b as char);
                },
                _ => {
                    assert(token_text(t.kind)[0] == b as char);
                },
            }
        },
        Some(Err(e)) => {
            assert(digits_overflow(input, pos as nat));
            let j = choose|j: int|
                pos < j <= input.len() && (forall|k: int| pos <= k < j ==> is_digit(#[trigger] input[k]))
                    && dec_value(input.subrange(pos, j)) > usize::MAX;
            if j > pos + len {
                assert(is_digit(input[pos + len]));
            }
            assert(run.subrange(0, j - pos) =~= input.subrange(pos, j));
        },
        None => {},
    }
}

/// The text after the first `i + 1` fields of a list of `n`.
pub open spec fn tail_after(s: Seq<Ast>, i: int, n: int) -> Seq<char>
    decreases n - i,
{
    if n <= i + 1 {
        Seq::empty()
    } else {
        tail_after(s, i, n - 1) + seq![','] + field_text(s[n - 1])
    }
}

/// The text of the fields of a list.
pub open spec fn list_text(s: Seq<Ast>) -> Seq<char> {
    join(field_texts(s), seq![','])
}

pub proof fn lemma_list_push(s: Seq<Ast>, i: int)
    requires
        1 <= i < s.len(),
    ensures
        list_text(s.subrange(0, i + 1)) == list_text(s.subrange(0, i)) + seq![','] + field_text(s[i]),
{
    assert(field_texts(s.subrange(0, i + 1)).drop_last() =~= field_texts(s.subrange(0, i)));
}

/// The text of a list is that of its first `i + 1` fields, then a tail that
/// is empty or starts with a comma.
pub proof fn lemma_list_split(s: Seq<Ast>, i: int, n: int)
    requires
        0 <= i < n <= s.len(),
    ensures
        list_text(s.subrange(0, n)) == list_text(s.subrange(0, i + 1)) + tail_after(s, i, n),
        tail_after(s, i, n).len() == 0 || tail_after(s, i, n)[0] == ',',
        n == i + 1 ==> tail_after(s, i, n).len() == 0,
    decreases n - i,
{
    if n > i + 1 {
        lemma_list_split(s, i, n - 1);
        lemma_list_push(s, n - 1);
        assert(s.subrange(0, n).subrange(0, n - 1) =~= s.subrange(0, n - 1));
        assert(list_text(s.subrange(0, n)) =~= list_text(s.subrange(0, i + 1)) + tail_after(s, i, n));
    } else {
        assert(tail_after(s, i, n) =~= Seq::<char>::empty());
        assert(list_text(s.subrange(0, i + 1)) + tail_after(s, i, n) =~= list_text(s.subrange(0, i + 1)));
    }
}

/// Which symbol token a one-character text is.
pub proof fn lemma_symbol_kind(k: TokenKind, c: char)
    requires
        !(k is Ident),
        !(k is Number),
        token_text(k) == seq![c],
    ensures
        c == ':' ==> k == TokenKind::Colon,
        c == ',' ==> k == TokenKind::Comma,
        c == '[' ==> k == TokenKind::LBracket,
        c == ']' ==> k == TokenKind::RBracket,
        c == '<' ==> k == TokenKind::LAngleBracket,
        c == '>' ==> k == TokenKind::RAngleBracket,
        c == '{' ==> k == TokenKind::LBrace,
        c == '}' ==> k == TokenKind::RBrace,
        c == '+' ==> k == TokenKind::Plus,
{
    assert(token_text(k)[0] == c);
}

} // verus!
