use vstd::prelude::*;
use vstd::string::StringSliceAdditionalSpecFns;
use crate::ast::{
    fields_join, len_text, field_text, field_texts, name_text, scalar_width, schema_text, type_text, Ast, AstKind, Len,
    Location, Schema, SchemaParseError, SchemaParseErrorKind,
};
use crate::grammar::{
    follows, is_symbol_char, lemma_lex_ident, lemma_lex_number, lemma_lex_symbol, lemma_list_push,
    lemma_list_split, lemma_symbol_kind, lemma_text_byte, lemma_text_split, lemma_wf_field,
    fields_ok, kind_ok, lemma_fields_push, list_follows, list_text, name_ok, root_ok, tail_after,
    text_at, var_names, var_names_fields, wf_fields, wf_kind, wf_root,
};
use crate::lexer::{
    digits_overflow, is_alpha, is_digit, is_ident_byte, is_symbol, lex_at, lex_result_ok, token_text, is_ident_text, Token,
    TokenKind,
};
use crate::text::dec_text;
use crate::options::{DataReaderOptions, ALLOW_EMPTY_FIELD_NAME, ALLOW_STR_INSTEAD_OF_NSTR, ALLOW_TRAILING_COMMA};
use crate::param::ParamStack;
use crate::text::{chars_of, join, str_eq};

verus! {

/// Options under which the text of a parsed schema is exactly its input:
/// no trailing comma and no `STR` standing for `NSTR`.
pub open spec fn is_strict(options: DataReaderOptions) -> bool {
    !options.has(ALLOW_TRAILING_COMMA) && !options.has(ALLOW_STR_INSTEAD_OF_NSTR)
}

/// Whether the options accept fields with empty names.
pub open spec fn empty_names(options: DataReaderOptions) -> bool {
    options.has(ALLOW_EMPTY_FIELD_NAME)
}

/// The span `loc` of `input` is a token, where it is not empty.
pub open spec fn location_ok(input: Seq<u8>, loc: Location) -> bool {
    loc.0 < loc.1 ==> loc.1 <= input.len() && exists|k: TokenKind|
        #[trigger] token_text(k) == span_text(input, loc.0 as nat, loc.1 as nat)
}

/// What a parse error says of the input: an early end is the zero-width
/// point at the end; an unknown token is a byte that starts no token (or a
/// run of digits too large for `usize`); an unknown builtin type is an
/// identifier that names none; an unexpected token is the span of a token.
pub open spec fn parse_error_ok(input: Seq<u8>, e: SchemaParseError) -> bool {
    let (l0, l1) = (e.location.0 as int, e.location.1 as int);
    match e.kind {
        SchemaParseErrorKind::UnexpectedEof => l0 == input.len() && l1 == input.len(),
        SchemaParseErrorKind::UnknownToken => {
            &&& l0 < l1 <= input.len()
            &&& !is_alpha(input[l0])
            &&& !is_symbol(input[l0])
            &&& (49 <= input[l0] <= 57 ==> digits_overflow(input, l0 as nat))
            &&& (!(49 <= input[l0] <= 57) ==> l1 == l0 + 1)
        },
        SchemaParseErrorKind::UnknownBuiltinType => {
            &&& l0 < l1 <= input.len()
            &&& is_ident_text(span_text(input, l0 as nat, l1 as nat))
            &&& forall|k: AstKind|
                (scalar_width(k) is Some || k is Str) ==> #[trigger] type_text(k) != span_text(
                    input,
                    l0 as nat,
                    l1 as nat,
                )
        },
        SchemaParseErrorKind::UnexpectedToken => {
            &&& l0 < l1 <= input.len()
            &&& exists|k: TokenKind| #[trigger]
                token_text(k) == span_text(input, l0 as nat, l1 as nat)
        },
    }
}

/// The characters of `input` between two offsets.
pub open spec fn span_text(input: Seq<u8>, a: nat, b: nat) -> Seq<char> {
    chars_of(input.subrange(a as int, b as int))
}

proof fn lemma_span_concat(input: Seq<u8>, a: nat, b: nat, c: nat)
    requires
        a <= b <= c <= input.len(),
    ensures
        span_text(input, a, c) == span_text(input, a, b) + span_text(input, b, c),
{
    assert(input.subrange(a as int, c as int) =~= input.subrange(a as int, b as int)
        + input.subrange(b as int, c as int));
    assert(span_text(input, a, c) =~= span_text(input, a, b) + span_text(input, b, c));
}

proof fn lemma_ident_not_element_name(s: Seq<char>)
    requires
        is_ident_text(s) || s.len() == 0,
    ensures
        s != "[]"@,
{
    reveal_strlit("[]");
    if s.len() > 0 {
        assert(s[0] != '[');
    }
}

/// A recursive-descent parser over a cursor into the schema text.
struct SchemaParser<'b> {
    input: &'b [u8],
    /// End of the last token taken.
    pos: usize,
    /// Span of the last token taken.
    location: Location,
    params: ParamStack,
    options: DataReaderOptions,
}

impl<'b> SchemaParser<'b> {
    spec fn inv(&self) -> bool {
        &&& self.pos <= self.input@.len()
        &&& location_ok(self.input@, self.location)
        &&& self.params@.level == 0
        &&& forall|k: Seq<char>| #[trigger]
            self.params@.stacks.contains_key(k) ==> self.params@.stacks[k].len() == 0
    }

    fn new(input: &'b [u8], options: DataReaderOptions) -> (r: Self)
        ensures
            r.inv(),
            r.pos == 0,
            r.input == input,
            r.options == options,
            r.params@.stacks.dom() == Set::<Seq<char>>::empty(),
    {
        SchemaParser { input, pos: 0, location: Location(0, 0), params: ParamStack::new(), options }
    }

    fn err_unexpected_eof(&self) -> (e: SchemaParseError)
        requires
            self.pos == self.input@.len(),
        ensures
            e.kind == SchemaParseErrorKind::UnexpectedEof,
            e.location == Location(self.pos, self.pos),
            parse_error_ok(self.input@, e),
    {
        SchemaParseError {
            kind: SchemaParseErrorKind::UnexpectedEof,
            location: Location(self.pos, self.pos),
        }
    }

    fn err_unexpected_token(&self) -> (e: SchemaParseError)
        requires
            self.inv(),
            self.location.0 < self.location.1,
        ensures
            parse_error_ok(self.input@, e),
            e.kind == SchemaParseErrorKind::UnexpectedToken,
            e.location == self.location,
    {
        SchemaParseError { kind: SchemaParseErrorKind::UnexpectedToken, location: self.location }
    }

    /// Takes the next token; the end of the input is an error.
    fn next_token(&mut self) -> (r: Result<Token, SchemaParseError>)
        requires
            old(self).inv(),
        ensures
            r matches Err(e) ==> parse_error_ok(old(self).input@, e),
            final(self).inv(),
            final(self).input == old(self).input,
            final(self).options == old(self).options,
            final(self).params == old(self).params,
            final(self).pos >= old(self).pos,
            r matches Ok(t) ==> {
                &&& t.pos == final(self).pos > old(self).pos
                &&& span_text(final(self).input@, old(self).pos as nat, t.pos as nat) == token_text(
                    t.kind,
                )
                &&& final(self).location == Location(old(self).pos, t.pos)
                &&& (t.kind matches TokenKind::Ident(s) ==> is_ident_text(s@))
                &&& lex_result_ok(old(self).input@, old(self).pos as nat, Some(Ok(t)))
            },
            r is Err ==> exists|lr: Option<Result<Token, SchemaParseError>>|
                #[trigger] lex_result_ok(old(self).input@, old(self).pos as nat, lr) && !(
                lr matches Some(Ok(_))),
    {
        let lr = lex_at(self.input, self.pos);
        assert(lex_result_ok(self.input@, self.pos as nat, lr));
        match lr {
            None => Err(self.err_unexpected_eof()),
            Some(Err(e)) => Err(e),
            Some(Ok(t)) => {
                self.location = Location(self.pos, t.pos);
                self.pos = t.pos;
                Ok(t)
            },
        }
    }

    /// Whether the input ends here or a `]` comes next.
    fn at_list_end(&self) -> (r: bool)
        requires
            self.inv(),
        ensures
            self.pos >= self.input@.len() ==> r,
            self.pos < self.input@.len() && self.input@[self.pos as int] == 93 ==> r,
            self.pos < self.input@.len() && (self.input@[self.pos as int] == 44 || is_alpha(
                self.input@[self.pos as int],
            )) ==> !r,
    {
        let lr = lex_at(self.input, self.pos);
        proof {
            if self.pos < self.input@.len() {
                let b = self.input@[self.pos as int];
                assert(chars_of(self.input@.subrange(self.pos as int, self.pos + 1)) =~= seq![b as char]);
                if b == 93 {
                    lemma_lex_symbol(self.input@, self.pos as int, ']', lr);
                    lemma_symbol_kind(lr->0->Ok_0.kind, ']');
                } else if b == 44 {
                    lemma_lex_symbol(self.input@, self.pos as int, ',', lr);
                    lemma_symbol_kind(lr->0->Ok_0.kind, ',');
                } else if is_alpha(b) {
                    if lr is Some && lr->0 is Ok {
                        let tp = lr->0->Ok_0.pos;
                        assert(chars_of(self.input@.subrange(self.pos as int, tp as int))[0] == b as char);
                    }
                }
            }
        }
        match lr {
            None => true,
            Some(Ok(t)) => matches!(t.kind, TokenKind::RBracket),
            Some(Err(_)) => false,
        }
    }

    /// Takes a token that must be `symbol`.
    fn consume_symbol(&mut self, symbol: TokenKind) -> (r: Result<(), SchemaParseError>)
        requires
            old(self).inv(),
            !(symbol is Ident),
            !(symbol is Number),
        ensures
            r matches Err(e) ==> parse_error_ok(old(self).input@, e),
            final(self).inv(),
            final(self).input == old(self).input,
            final(self).options == old(self).options,
            final(self).params == old(self).params,
            final(self).pos >= old(self).pos,
            r is Ok ==> final(self).pos > old(self).pos && span_text(
                final(self).input@,
                old(self).pos as nat,
                final(self).pos as nat,
            ) == token_text(symbol),
            text_at(old(self).input@, old(self).pos as int, token_text(symbol)) ==> (r is Ok
                && final(self).pos == old(self).pos + 1),
    {
        let ghost pos0 = self.pos as int;
        let ghost expected = text_at(self.input@, pos0, token_text(symbol));
        proof {
            if expected {
                assert(token_text(symbol).len() == 1);
                assert(is_symbol_char(token_text(symbol)[0]));
                assert(token_text(symbol) =~= seq![token_text(symbol)[0]]);
            }
        }
        let t = match self.next_token() {
            Ok(t) => t,
            Err(e) => {
                proof {
                    if expected {
                        let lr = choose|lr: Option<Result<Token, SchemaParseError>>|
                            #[trigger] lex_result_ok(self.input@, pos0 as nat, lr) && !(lr matches Some(Ok(_)));
                        lemma_lex_symbol(self.input@, pos0, token_text(symbol)[0], lr);
                    }
                }
                return Err(e);
            },
        };
        proof {
            if expected {
                lemma_lex_symbol(self.input@, pos0, token_text(symbol)[0], Some(Ok(t)));
            }
        }
        if !same_symbol(&t.kind, &symbol) {
            return Err(self.err_unexpected_token());
        }
        Ok(())
    }

    /// Takes a number token.
    fn consume_number(&mut self, Ghost(exp): Ghost<Option<usize>>) -> (r: Result<usize, SchemaParseError>)
        requires
            old(self).inv(),
            exp matches Some(n) ==> n >= 1 && text_at(old(self).input@, old(self).pos as int, dec_text(n as nat))
                && (old(self).pos + dec_text(n as nat).len() == old(self).input@.len() || !is_digit(
                old(self).input@[old(self).pos + dec_text(n as nat).len()],
            )),
        ensures
            r matches Err(e) ==> parse_error_ok(old(self).input@, e),
            final(self).inv(),
            final(self).input == old(self).input,
            final(self).options == old(self).options,
            final(self).params == old(self).params,
            final(self).pos >= old(self).pos,
            r matches Ok(n) ==> final(self).pos > old(self).pos && span_text(
                final(self).input@,
                old(self).pos as nat,
                final(self).pos as nat,
            ) == token_text(TokenKind::Number(n)),
            exp matches Some(n) ==> r == Ok::<usize, SchemaParseError>(n) && final(self).pos
                == old(self).pos + dec_text(n as nat).len(),
            r matches Ok(n) ==> n >= 1,
    {
        let ghost pos0 = self.pos as int;
        let t = match self.next_token() {
            Ok(t) => t,
            Err(e) => {
                proof {
                    if exp is Some {
                        let lr = choose|lr: Option<Result<Token, SchemaParseError>>|
                            #[trigger] lex_result_ok(self.input@, pos0 as nat, lr) && !(lr matches Some(Ok(_)));
                        lemma_lex_number(self.input@, pos0, exp->0, lr);
                    }
                }
                return Err(e);
            },
        };
        proof {
            if exp is Some {
                lemma_lex_number(self.input@, pos0, exp->0, Some(Ok(t)));
            }
        }
        match t.kind {
            TokenKind::Number(n) => Ok(n),
            _ => Err(self.err_unexpected_token()),
        }
    }

    /// Parses `name:type`.
    fn parse_field(&mut self, Ghost(exp): Ghost<Option<Ast>>) -> (r: Result<Ast, SchemaParseError>)
        requires
            old(self).inv(),
            exp matches Some(a) ==> is_ident_text(a.name@) && wf_kind(a.kind) && text_at(
                old(self).input@,
                old(self).pos as int,
                field_text(a),
            ) && follows(old(self).input@, old(self).pos + field_text(a).len()),
        ensures
            r matches Err(e) ==> parse_error_ok(old(self).input@, e),
            final(self).inv(),
            final(self).input == old(self).input,
            final(self).options == old(self).options,
            final(self).pos >= old(self).pos,
            r matches Ok(a) ==> {
                &&& final(self).pos > old(self).pos
                &&& a.name@ != "[]"@
                &&& is_strict(final(self).options) ==> span_text(
                    final(self).input@,
                    old(self).pos as nat,
                    final(self).pos as nat,
                ) == field_text(a)
            },
            exp matches Some(a) ==> r is Ok && final(self).pos == old(self).pos + field_text(a).len(),
            r matches Ok(a) ==> name_ok(a.name@, empty_names(old(self).options)) && kind_ok(
                a.kind,
                empty_names(old(self).options),
            ) && final(self).params@.stacks.dom() == old(self).params@.stacks.dom() + var_names(
                a.kind,
            ),
        decreases old(self).input@.len() - old(self).pos, 1nat,
    {
        let start = self.pos;
        let ghost input = self.input@;
        proof {
            if exp is Some {
                let a = exp->0;
                lemma_ident_not_element_name(a.name@);
                assert(field_text(a) =~= a.name@ + (seq![':'] + type_text(a.kind)));
                lemma_text_split(input, start as int, a.name@, seq![':'] + type_text(a.kind));
                lemma_text_split(input, start + a.name@.len(), seq![':'], type_text(a.kind));
                lemma_text_byte(input, start + a.name@.len(), seq![':'], 0);
            }
        }
        let t = match self.next_token() {
            Ok(t) => t,
            Err(e) => {
                proof {
                    if exp is Some {
                        let lr = choose|lr: Option<Result<Token, SchemaParseError>>|
                            #[trigger] lex_result_ok(input, start as nat, lr) && !(lr matches Some(Ok(_)));
                        lemma_lex_ident(input, start as int, exp->0.name@, lr);
                    }
                }
                return Err(e);
            },
        };
        proof {
            if exp is Some {
                lemma_lex_ident(input, start as int, exp->0.name@, Some(Ok(t)));
            }
        }
        let name = match t.kind {
            TokenKind::Ident(s) => {
                self.consume_symbol(TokenKind::Colon)?;
                s
            },
            TokenKind::Colon => {
                if !self.options.contains(DataReaderOptions(ALLOW_EMPTY_FIELD_NAME)) {
                    return Err(self.err_unexpected_token());
                }
                String::new()
            },
            _ => {
                return Err(self.err_unexpected_token());
            },
        };
        let mid = self.pos;
        let kind = self.parse_type(Ghost(
            match exp {
                Some(a) => Some(a.kind),
                None => None,
            },
        ))?;
        proof {
            lemma_ident_not_element_name(name@);
            if is_strict(self.options) {
                lemma_span_concat(self.input@, start as nat, mid as nat, self.pos as nat);
                if name@.len() > 0 {
                    lemma_span_concat(self.input@, start as nat, t.pos as nat, mid as nat);
                }
                assert(name_text(name@) == name@ + seq![':']);
            }
        }
        Ok(Ast { kind, name })
    }

    /// Parses fields separated by commas, up to the end of the input or a
    /// `]`, which is left for the caller.
    fn parse_field_list(&mut self, Ghost(exp): Ghost<Option<Vec<Ast>>>) -> (r: Result<
        Vec<Ast>,
        SchemaParseError,
    >)
        requires
            old(self).inv(),
            exp matches Some(ch) ==> ch@.len() > 0 && wf_fields(ch, 0) && text_at(
                old(self).input@,
                old(self).pos as int,
                list_text(ch@),
            ) && list_follows(old(self).input@, old(self).pos + list_text(ch@).len()),
        ensures
            r matches Err(e) ==> parse_error_ok(old(self).input@, e),
            final(self).inv(),
            final(self).input == old(self).input,
            final(self).options == old(self).options,
            final(self).pos >= old(self).pos,
            r matches Ok(v) ==> {
                &&& final(self).pos > old(self).pos
                &&& v@.len() > 0
                &&& is_strict(final(self).options) ==> span_text(
                    final(self).input@,
                    old(self).pos as nat,
                    final(self).pos as nat,
                ) == join(field_texts(v@), seq![','])
            },
            exp matches Some(ch) ==> r is Ok && final(self).pos == old(self).pos + list_text(
                ch@,
            ).len(),
            r matches Ok(v) ==> fields_ok(v, 0, empty_names(old(self).options))
                && final(self).params@.stacks.dom() == old(self).params@.stacks.dom()
                + var_names_fields(v, 0),
        decreases old(self).input@.len() - old(self).pos, 2nat,
    {
        let start = self.pos;
        let ghost input = self.input@;
        let ghost s: Seq<Ast> = match exp {
            Some(ch) => ch@,
            None => Seq::empty(),
        };
        let ghost n = s.len() as int;
        proof {
            if exp is Some {
                assert(s.subrange(0, n) =~= s);
                lemma_wf_field(exp->0, 0, 0);
                lemma_list_split(s, 0, n);
                assert(list_text(s.subrange(0, 1)) == field_text(s[0]));
                lemma_text_split(input, start as int, field_text(s[0]), tail_after(s, 0, n));
                if tail_after(s, 0, n).len() > 0 {
                    lemma_text_byte(input, start + field_text(s[0]).len(), tail_after(s, 0, n), 0);
                }
            }
        }
        let first = self.parse_field(Ghost(
            if exp is Some {
                Some(s[0])
            } else {
                None
            },
        ))?;
        let ghost e = empty_names(self.options);
        let ghost dom0 = old(self).params@.stacks.dom();
        let mut members: Vec<Ast> = Vec::new();
        let ghost m0 = members;
        let ghost f0 = first;
        members.push(first);
        let ghost mut i: int = 1;
        proof {
            assert(field_texts(members@) =~= seq![field_text(members@[0])]);
            lemma_fields_push(m0, members, f0, e, 0);
            assert(var_names_fields(m0, 0) =~= Set::<Seq<char>>::empty());
            assert(self.params@.stacks.dom() =~= dom0 + var_names_fields(members, 0));
        }
        loop
            invariant
                self.inv(),
                self.input == old(self).input,
                self.options == old(self).options,
                input == self.input@,
                self.pos > start,
                start == old(self).pos,
                members@.len() > 0,
                is_strict(self.options) ==> span_text(self.input@, start as nat, self.pos as nat)
                    == join(field_texts(members@), seq![',']),
                e == empty_names(self.options),
                dom0 == old(self).params@.stacks.dom(),
                fields_ok(members, 0, e),
                self.params@.stacks.dom() == dom0 + var_names_fields(members, 0),
                exp is Some ==> {
                    &&& s == exp->0@
                    &&& n == s.len()
                    &&& 1 <= i <= n
                    &&& wf_fields(exp->0, 0)
                    &&& text_at(input, start as int, list_text(s))
                    &&& list_follows(input, start + list_text(s).len())
                    &&& self.pos == start + list_text(s.subrange(0, i)).len()
                },
            ensures
                exp is Some ==> i == n,
            decreases self.input@.len() - self.pos,
        {
            let ghost pos_i = self.pos as int;
            proof {
                if exp is Some {
                    assert(s.subrange(0, n) =~= s);
                }
                if exp is Some && i < n {
                    lemma_list_split(s, i, n);
                    lemma_list_push(s, i);
                    lemma_wf_field(exp->0, 0, i);
                    let rest = seq![','] + field_text(s[i]) + tail_after(s, i, n);
                    assert(list_text(s) =~= list_text(s.subrange(0, i)) + rest);
                    lemma_text_split(input, start as int, list_text(s.subrange(0, i)), rest);
                    lemma_text_byte(input, pos_i, rest, 0);
                }
            }
            if self.at_list_end() {
                break;
            }
            proof {
                if exp is Some && i == n {
                    assert(self.pos == start + list_text(s).len());
                    assert(false);
                }
            }
            let comma_start = self.pos;
            let t = match self.next_token() {
                Ok(t) => t,
                Err(e) => {
                    proof {
                        if exp is Some {
                            let lr = choose|lr: Option<Result<Token, SchemaParseError>>|
                                #[trigger] lex_result_ok(input, pos_i as nat, lr) && !(lr matches Some(Ok(_)));
                            let rest = seq![','] + field_text(s[i]) + tail_after(s, i, n);
                            assert(rest =~= seq![','] + (field_text(s[i]) + tail_after(s, i, n)));
                            lemma_text_split(input, pos_i, seq![','], field_text(s[i]) + tail_after(s, i, n));
                            lemma_lex_symbol(input, pos_i, ',', lr);
                        }
                    }
                    return Err(e);
                },
            };
            let ghost field_pos = self.pos as int;
            proof {
                if exp is Some {
                    let rest = seq![','] + field_text(s[i]) + tail_after(s, i, n);
                    assert(rest =~= seq![','] + (field_text(s[i]) + tail_after(s, i, n)));
                    lemma_text_split(input, pos_i, seq![','], field_text(s[i]) + tail_after(s, i, n));
                    lemma_lex_symbol(input, pos_i, ',', Some(Ok(t)));
                    lemma_symbol_kind(t.kind, ',');
                    lemma_text_split(input, pos_i + 1, field_text(s[i]), tail_after(s, i, n));
                    let a = s[i];
                    lemma_wf_field(exp->0, 0, i);
                    lemma_ident_not_element_name(a.name@);
                    assert(field_text(a) == a.name@ + seq![':'] + type_text(a.kind));
                    lemma_text_byte(input, pos_i + 1, field_text(a), 0);
                    assert(field_text(a)[0] == a.name@[0]);
                    if tail_after(s, i, n).len() > 0 {
                        lemma_text_byte(input, pos_i + 1 + field_text(a).len(), tail_after(s, i, n), 0);
                    }
                }
            }
            if !matches!(t.kind, TokenKind::Comma) {
                return Err(self.err_unexpected_token());
            }
            if self.options.contains(DataReaderOptions(ALLOW_TRAILING_COMMA)) && self.at_list_end() {
                break;
            }
            let field_start = self.pos;
            let field = self.parse_field(Ghost(
                if exp is Some {
                    Some(s[i])
                } else {
                    None
                },
            ))?;
            let ghost before = members@;
            let ghost mv = members;
            let ghost fx = field;
            members.push(field);
            proof {
                lemma_fields_push(mv, members, fx, e, 0);
                assert(self.params@.stacks.dom() =~= dom0 + var_names_fields(members, 0));
                if is_strict(self.options) {
                    lemma_span_concat(self.input@, start as nat, comma_start as nat, field_start as nat);
                    lemma_span_concat(self.input@, start as nat, field_start as nat, self.pos as nat);
                    assert(field_texts(members@).drop_last() =~= field_texts(before));
                    assert(join(field_texts(members@), seq![',']) == join(field_texts(before), seq![','])
                        + seq![','] + field_text(field));
                }
                if exp is Some {
                    i = i + 1;
                }
            }
        }
        proof {
            if exp is Some {
                assert(s.subrange(0, n) =~= s);
            }
        }
        Ok(members)
    }

    /// Parses the type after the colon of a field.
    #[verifier::rlimit(100)]
    fn parse_type(&mut self, Ghost(exp): Ghost<Option<AstKind>>) -> (r: Result<AstKind, SchemaParseError>)
        requires
            old(self).inv(),
            exp matches Some(k) ==> wf_kind(k) && text_at(
                old(self).input@,
                old(self).pos as int,
                type_text(k),
            ) && follows(old(self).input@, old(self).pos + type_text(k).len()),
        ensures
            r matches Err(e) ==> parse_error_ok(old(self).input@, e),
            final(self).inv(),
            final(self).input == old(self).input,
            final(self).options == old(self).options,
            final(self).pos >= old(self).pos,
            r matches Ok(k) ==> {
                &&& final(self).pos > old(self).pos
                &&& is_strict(final(self).options) ==> span_text(
                    final(self).input@,
                    old(self).pos as nat,
                    final(self).pos as nat,
                ) == type_text(k)
            },
            exp matches Some(k) ==> r is Ok && final(self).pos == old(self).pos + type_text(k).len(),
            r matches Ok(k) ==> kind_ok(k, empty_names(old(self).options))
                && final(self).params@.stacks.dom() == old(self).params@.stacks.dom() + var_names(k),
        decreases old(self).input@.len() - old(self).pos, 0nat,
    {
        let start = self.pos;
        let ghost input = self.input@;
        let ghost head: char = if exp is Some { type_text(exp->0)[0] } else { ' ' };
        let t = match self.next_token() {
            Ok(t) => t,
            Err(e) => {
                proof {
                    if exp is Some {
                        let lr = choose|lr: Option<Result<Token, SchemaParseError>>|
                            #[trigger] lex_result_ok(input, start as nat, lr) && !(lr matches Some(Ok(_)));
                        lemma_type_token(exp->0, input, start as int, lr);
                    }
                }
                return Err(e);
            },
        };
        proof {
            if exp is Some {
                lemma_type_token(exp->0, input, start as int, Some(Ok(t)));
            }
        }
        let after_first = self.pos;
        match t.kind {
            TokenKind::Ident(s) => {
                match builtin_kind(&s) {
                    Some(k) => {
                        assert(is_strict(self.options) ==> span_text(self.input@, start as nat, self.pos as nat) == type_text(k));
                        Ok(k)
                    },
                    None => Err(
                        SchemaParseError {
                            kind: SchemaParseErrorKind::UnknownBuiltinType,
                            location: self.location,
                        },
                    ),
                }
            },
            TokenKind::LBracket => {
                let ghost ech: Option<Vec<Ast>> = match exp {
                    Some(AstKind::Struct(ch)) => Some(ch),
                    _ => None,
                };
                proof {
                    if exp is Some {
                        let k = exp->0;
                        lemma_struct_text(k);
                        let ch = k->Struct_0;
                        assert(type_text(k) =~= seq!['['] + (list_text(ch@) + seq![']']));
                        lemma_text_split(input, start as int, seq!['['], list_text(ch@) + seq![']']);
                        lemma_text_split(input, start + 1, list_text(ch@), seq![']']);
                        lemma_text_byte(input, start + 1 + list_text(ch@).len(), seq![']'], 0);
                    }
                }
                let members = self.parse_field_list(Ghost(ech))?;
                let close_start = self.pos;
                self.consume_symbol(TokenKind::RBracket)?;
                let kind = AstKind::Struct(members);
                proof {
                    if is_strict(self.options) {
                        lemma_span_concat(self.input@, start as nat, after_first as nat, close_start as nat);
                        lemma_span_concat(self.input@, start as nat, close_start as nat, self.pos as nat);
                        lemma_struct_text(kind);
                    }
                }
                assert(is_strict(self.options) ==> span_text(self.input@, start as nat, self.pos as nat) == type_text(kind));
                Ok(kind)
            },
            TokenKind::LAngleBracket => {
                let ghost en: Option<usize> = match exp {
                    Some(AstKind::NStr(n)) => Some(n),
                    _ => None,
                };
                proof {
                    if exp is Some {
                        let k = exp->0;
                        let m = k->NStr_0;
                        reveal_strlit(">NSTR");
                        reveal_strlit("NSTR");
                        lemma_nstr_text(input, start as int, m);
                    }
                }
                let n = self.consume_number(Ghost(en))?;
                let mid = self.pos;
                self.consume_symbol(TokenKind::RAngleBracket)?;
                let kw_start = self.pos;
                let kw = match self.next_token() {
                    Ok(t) => t,
                    Err(e) => {
                        proof {
                            if exp is Some {
                                let lr = choose|lr: Option<Result<Token, SchemaParseError>>|
                                    #[trigger] lex_result_ok(input, kw_start as nat, lr) && !(lr matches Some(Ok(_)));
                                lemma_lex_ident(input, kw_start as int, "NSTR"@, lr);
                            }
                        }
                        return Err(e);
                    },
                };
                proof {
                    if exp is Some {
                        lemma_lex_ident(input, kw_start as int, "NSTR"@, Some(Ok(kw)));
                    }
                }
                let accepted = match &kw.kind {
                    TokenKind::Ident(w) => str_eq(w.as_str(), "NSTR") || (self.options.contains(
                        DataReaderOptions(ALLOW_STR_INSTEAD_OF_NSTR),
                    ) && str_eq(w.as_str(), "STR")),
                    _ => false,
                };
                if !accepted {
                    return Err(self.err_unexpected_token());
                }
                proof {
                    if is_strict(self.options) {
                        reveal_strlit(">NSTR");
                        reveal_strlit("NSTR");
                        lemma_span_concat(self.input@, start as nat, after_first as nat, mid as nat);
                        lemma_span_concat(self.input@, start as nat, mid as nat, kw_start as nat);
                        lemma_span_concat(self.input@, start as nat, kw_start as nat, self.pos as nat);
                        assert(type_text(AstKind::NStr(n)) =~= seq!['<'] + token_text(TokenKind::Number(n)) + seq!['>'] + "NSTR"@);
                    }
                }
                assert(is_strict(self.options) ==> span_text(self.input@, start as nat, self.pos as nat) == type_text(AstKind::NStr(n)));
                Ok(AstKind::NStr(n))
            },
            TokenKind::LBrace => {
                let len_start = self.pos;
                proof {
                    if exp is Some {
                        lemma_array_text(exp->0, input, start as int);
                    }
                }
                let lt = match self.next_token() {
                    Ok(t) => t,
                    Err(e) => {
                        proof {
                            if exp is Some {
                                let lr = choose|lr: Option<Result<Token, SchemaParseError>>|
                                    #[trigger] lex_result_ok(input, len_start as nat, lr) && !(lr matches Some(Ok(_)));
                                lemma_len_token(exp->0, input, start as int, lr);
                            }
                        }
                        return Err(e);
                    },
                };
                proof {
                    if exp is Some {
                        lemma_len_token(exp->0, input, start as int, Some(Ok(lt)));
                    }
                }
                let len = match lt.kind {
                    TokenKind::Number(n) => Len::Fixed(n),
                    TokenKind::Ident(s) => {
                        self.params.add_entry(s.as_str());
                        Len::Variable(s)
                    },
                    _ => {
                        return Err(self.err_unexpected_token());
                    },
                };
                let mid = self.pos;
                self.consume_symbol(TokenKind::RBrace)?;
                let elem_start = self.pos;
                let elem = self.parse_type(Ghost(
                    match exp {
                        Some(AstKind::Array(_, e)) => Some(e.kind),
                        _ => None,
                    },
                ))?;
                proof {
                    if is_strict(self.options) {
                        lemma_span_concat(self.input@, start as nat, after_first as nat, mid as nat);
                        lemma_span_concat(self.input@, start as nat, mid as nat, elem_start as nat);
                        lemma_span_concat(self.input@, start as nat, elem_start as nat, self.pos as nat);
                        assert(span_text(self.input@, start as nat, elem_start as nat) =~= len_text(len));
                    }
                }
                let r = AstKind::Array(len, Box::new(Ast { kind: elem, name: element_name() }));
                assert(is_strict(self.options) ==> span_text(self.input@, start as nat, self.pos as nat) == type_text(r));
                Ok(r)
            },
            TokenKind::Plus => {
                proof {
                    if exp is Some {
                        let k = exp->0;
                        let e = k->Array_1;
                        assert(type_text(k) =~= seq!['+'] + type_text(e.kind));
                        lemma_text_split(input, start as int, seq!['+'], type_text(e.kind));
                    }
                }
                let elem = self.parse_type(Ghost(
                    match exp {
                        Some(AstKind::Array(_, e)) => Some(e.kind),
                        _ => None,
                    },
                ))?;
                proof {
                    if is_strict(self.options) {
                        lemma_span_concat(self.input@, start as nat, after_first as nat, self.pos as nat);
                    }
                }
                let r = AstKind::Array(Len::Unlimited, Box::new(Ast { kind: elem, name: element_name() }));
                assert(is_strict(self.options) ==> span_text(self.input@, start as nat, self.pos as nat) == type_text(r));
                Ok(r)
            },
            _ => Err(self.err_unexpected_token()),
        }
    }
}

/// Parses schema text. Under strict options the one-line text of the
/// result is exactly the input.
pub fn parse_with(input: &[u8], options: DataReaderOptions) -> (r: Result<Schema, SchemaParseError>)
    ensures
        r matches Ok(s) ==> {
            &&& s.ast.name@ == Seq::<char>::empty()
            &&& s.ast.kind is Struct
            &&& s.ast.kind->Struct_0@.len() > 0
            &&& s.params@.level == 0
            &&& forall|k: Seq<char>| #[trigger]
                s.params@.stacks.contains_key(k) ==> s.params@.stacks[k].len() == 0
        },
        is_strict(options) ==> (r matches Ok(s) ==> schema_text(s.ast) == chars_of(input@)),
        (exists|a: Ast| #[trigger] wf_root(a) && schema_text(a) == chars_of(input@)) ==> r is Ok,
        r matches Ok(s) ==> root_ok(s.ast, empty_names(options)) && s.params@.stacks.dom()
            == var_names(s.ast.kind),
        r matches Err(e) ==> parse_error_ok(input@, e),
{
    let mut parser = SchemaParser::new(input, options);
    let ghost well_formed = exists|a: Ast| #[trigger] wf_root(a) && schema_text(a) == chars_of(input@);
    let ghost exp: Option<Vec<Ast>> = if well_formed {
        let a = choose|a: Ast| #[trigger] wf_root(a) && schema_text(a) == chars_of(input@);
        Some(a.kind->Struct_0)
    } else {
        None
    };
    proof {
        if well_formed {
            let ch = exp->0;
            assert(input@.subrange(0, input@.len() as int) =~= input@);
            assert(list_text(ch@) == chars_of(input@));
            assert(text_at(input@, 0, list_text(ch@)));
        }
    }
    let members = match parser.parse_field_list(Ghost(exp)) {
        Ok(m) => m,
        Err(e) => {
            return Err(e);
        },
    };
    let tail = lex_at(input, parser.pos);
    proof {
        if well_formed {
            assert(parser.pos == input@.len());
        }
    }
    match tail {
        None => {},
        Some(Ok(_)) => {
            match parser.next_token() {
                Ok(_) => {
                    return Err(parser.err_unexpected_token());
                },
                Err(e) => {
                    return Err(e);
                },
            }
        },
        Some(Err(e)) => {
            return Err(e);
        },
    }
    proof {
        assert(input@.subrange(0, input@.len() as int) =~= input@);
    }
    let ast = Ast { kind: AstKind::Struct(members), name: String::new() };
    proof {
        assert(Set::<Seq<char>>::empty() + var_names_fields(members, 0) =~= var_names(ast.kind));
    }
    Ok(Schema { ast, params: parser.params })
}

/// Parses schema text with no leniency.
pub fn parse(text: &str) -> (r: Result<Schema, SchemaParseError>)
    ensures
        r matches Ok(s) ==> schema_text(s.ast) == chars_of(text.spec_bytes()),
        (exists|a: Ast| #[trigger] wf_root(a) && schema_text(a) == chars_of(text.spec_bytes()))
            ==> r is Ok,
        r matches Err(e) ==> parse_error_ok(text.spec_bytes(), e),
        r matches Ok(s) ==> wf_root(s.ast) && s.params@.stacks.dom() == var_names(s.ast.kind)
            && s.params@.level == 0 && (forall|k: Seq<char>| #[trigger]
            s.params@.stacks.contains_key(k) ==> s.params@.stacks[k].len() == 0),
{
    proof {
        assert(0u32 & ALLOW_TRAILING_COMMA == 0 && 0u32 & ALLOW_STR_INSTEAD_OF_NSTR == 0
            && 0u32 & ALLOW_EMPTY_FIELD_NAME == 0) by (bit_vector);
    }
    parse_with(text.as_bytes(), DataReaderOptions(0))
}

impl std::str::FromStr for Schema {
    type Err = SchemaParseError;

    fn from_str(s: &str) -> Result<Schema, SchemaParseError> {
        parse(s)
    }
}

pub(crate) proof fn lemma_fields_join(children: Vec<Ast>, n: int)
    requires
        1 <= n <= children@.len(),
    ensures
        fields_join(children, n) == join(field_texts(children@.subrange(0, n)), seq![',']),
    decreases n,
{
    let parts = field_texts(children@.subrange(0, n));
    if n > 1 {
        lemma_fields_join(children, n - 1);
        assert(parts.drop_last() =~= field_texts(children@.subrange(0, n - 1)));
    }
}

/// The first token of the text of a well-formed kind.
proof fn lemma_type_token(k: AstKind, input: Seq<u8>, pos: int, lr: Option<Result<Token, SchemaParseError>>)
    requires
        0 <= pos,
        wf_kind(k),
        text_at(input, pos, type_text(k)),
        follows(input, pos + type_text(k).len()),
        lex_result_ok(input, pos as nat, lr),
    ensures
        lr matches Some(Ok(t)) && {
            &&& (scalar_width(k) is Some || k is Str) ==> (t.kind matches TokenKind::Ident(w) && w@
                == type_text(k) && t.pos == pos + type_text(k).len())
            &&& k is NStr ==> t.kind == TokenKind::LAngleBracket && t.pos == pos + 1
            &&& k is Struct ==> t.kind == TokenKind::LBracket && t.pos == pos + 1
            &&& (k matches AstKind::Array(Len::Unlimited, _)) ==> t.kind == TokenKind::Plus && t.pos
                == pos + 1
            &&& (k is Array && !(k matches AstKind::Array(Len::Unlimited, _))) ==> t.kind
                == TokenKind::LBrace && t.pos == pos + 1
        },
{
    let tt = type_text(k);
    match k {
        AstKind::NStr(_) | AstKind::Struct(_) | AstKind::Array(_, _) => {
            let c = tt[0];
            assert(tt =~= seq![c] + tt.subrange(1, tt.len() as int));
            lemma_text_split(input, pos, seq![c], tt.subrange(1, tt.len() as int));
            lemma_lex_symbol(input, pos, c, lr);
            lemma_symbol_kind(lr->0->Ok_0.kind, c);
        },
        _ => {
            reveal_strlit("INT8");
            reveal_strlit("INT16");
            reveal_strlit("INT32");
            reveal_strlit("UINT8");
            reveal_strlit("UINT16");
            reveal_strlit("UINT32");
            reveal_strlit("FLOAT32");
            reveal_strlit("FLOAT64");
            reveal_strlit("STR");
            assert(is_ident_text(tt));
            if pos + tt.len() < input.len() {
                assert(!is_ident_byte(input[pos + tt.len()]));
            }
            lemma_lex_ident(input, pos, tt, lr);
        },
    }
}

/// Where `<m>NSTR` is written: the digits, `>` and the keyword in turn.
proof fn lemma_nstr_text(input: Seq<u8>, pos: int, m: usize)
    requires
        0 <= pos,
        m >= 1,
        text_at(input, pos, type_text(AstKind::NStr(m))),
        follows(input, pos + type_text(AstKind::NStr(m)).len()),
    ensures
        text_at(input, pos + 1, dec_text(m as nat)),
        !is_digit(input[pos + 1 + dec_text(m as nat).len()]),
        pos + 1 + dec_text(m as nat).len() < input.len(),
        text_at(input, pos + 1 + dec_text(m as nat).len(), seq!['>']),
        text_at(input, pos + 2 + dec_text(m as nat).len(), "NSTR"@),
        pos + 2 + dec_text(m as nat).len() + 4 == input.len() || !is_ident_byte(
            input[pos + 2 + dec_text(m as nat).len() + 4],
        ),
        type_text(AstKind::NStr(m)).len() == dec_text(m as nat).len() + 6,
{
    reveal_strlit(">NSTR");
    reveal_strlit("NSTR");
    let d = dec_text(m as nat);
    let tt = type_text(AstKind::NStr(m));
    assert(tt =~= seq!['<'] + (d + (seq!['>'] + "NSTR"@)));
    lemma_text_split(input, pos, seq!['<'], d + (seq!['>'] + "NSTR"@));
    lemma_text_split(input, pos + 1, d, seq!['>'] + "NSTR"@);
    lemma_text_split(input, pos + 1 + d.len(), seq!['>'], "NSTR"@);
    lemma_text_byte(input, pos + 1 + d.len(), seq!['>'], 0);
}

/// Where `{len}type` is written: the length, `}` and the element in turn.
proof fn lemma_array_text(k: AstKind, input: Seq<u8>, pos: int)
    requires
        0 <= pos,
        wf_kind(k),
        k matches AstKind::Array(l, _) && !(l is Unlimited),
        text_at(input, pos, type_text(k)),
        follows(input, pos + type_text(k).len()),
    ensures
        ({
            let l = k->Array_0;
            let e = k->Array_1;
            let ln = match l {
                Len::Fixed(n) => dec_text(n as nat),
                Len::Variable(s) => s@,
                Len::Unlimited => Seq::empty(),
            };
            &&& text_at(input, pos + 1, ln)
            &&& pos + 1 + ln.len() < input.len()
            &&& input[pos + 1 + ln.len()] == 125
            &&& text_at(input, pos + 1 + ln.len(), seq!['}'])
            &&& wf_kind(e.kind)
            &&& text_at(input, pos + 2 + ln.len(), type_text(e.kind))
            &&& follows(input, pos + 2 + ln.len() + type_text(e.kind).len())
            &&& type_text(k).len() == 2 + ln.len() + type_text(e.kind).len()
        }),
{
    let l = k->Array_0;
    let e = k->Array_1;
    let ln = match l {
        Len::Fixed(n) => dec_text(n as nat),
        Len::Variable(s) => s@,
        Len::Unlimited => Seq::empty(),
    };
    let et = type_text(e.kind);
    assert(len_text(l) =~= seq!['{'] + ln + seq!['}']);
    assert(type_text(k) =~= seq!['{'] + (ln + (seq!['}'] + et)));
    lemma_text_split(input, pos, seq!['{'], ln + (seq!['}'] + et));
    lemma_text_split(input, pos + 1, ln, seq!['}'] + et);
    lemma_text_split(input, pos + 1 + ln.len(), seq!['}'], et);
    lemma_text_byte(input, pos + 1 + ln.len(), seq!['}'], 0);
}

/// The length token of a well-formed array is its number or its name.
proof fn lemma_len_token(k: AstKind, input: Seq<u8>, pos: int, lr: Option<Result<Token, SchemaParseError>>)
    requires
        0 <= pos,
        wf_kind(k),
        k matches AstKind::Array(l, _) && !(l is Unlimited),
        text_at(input, pos, type_text(k)),
        follows(input, pos + type_text(k).len()),
        lex_result_ok(input, (pos + 1) as nat, lr),
    ensures
        lr matches Some(Ok(t)) && match k->Array_0 {
            Len::Fixed(n) => t.kind == TokenKind::Number(n) && t.pos == pos + 1 + dec_text(
                n as nat,
            ).len(),
            Len::Variable(s) => (t.kind matches TokenKind::Ident(w) && w@ == s@) && t.pos == pos + 1
                + s@.len(),
            Len::Unlimited => true,
        },
{
    lemma_array_text(k, input, pos);
    match k->Array_0 {
        Len::Fixed(n) => {
            lemma_lex_number(input, pos + 1, n, lr);
        },
        Len::Variable(s) => {
            lemma_lex_ident(input, pos + 1, s@, lr);
        },
        Len::Unlimited => {},
    }
}

proof fn lemma_struct_text(k: AstKind)
    requires
        k is Struct,
        k->Struct_0@.len() > 0,
    ensures
        type_text(k) == seq!['['] + join(field_texts(k->Struct_0@), seq![',']) + seq![']'],
{
    let children = k->Struct_0;
    lemma_fields_join(children, children@.len() as int);
    assert(children@.subrange(0, children@.len() as int) =~= children@);
}

/// The name of an array's element node.
fn element_name() -> (r: String)
    ensures
        r@ == "[]"@,
{
    String::from_str("[]")
}

/// Whether two symbol tokens are the same symbol.
fn same_symbol(a: &TokenKind, b: &TokenKind) -> (r: bool)
    requires
        !(b is Ident),
        !(b is Number),
    ensures
        r ==> token_text(*a) == token_text(*b),
        !(a is Ident) && !(a is Number) && token_text(*a) == token_text(*b) ==> r,
{
    proof {
        if !(a is Ident) && !(a is Number) && token_text(*a) == token_text(*b) {
            assert(token_text(*a)[0] == token_text(*b)[0]);
        }
    }
    match (a, b) {
        (TokenKind::Colon, TokenKind::Colon) => true,
        (TokenKind::Comma, TokenKind::Comma) => true,
        (TokenKind::LBracket, TokenKind::LBracket) => true,
        (TokenKind::RBracket, TokenKind::RBracket) => true,
        (TokenKind::LAngleBracket, TokenKind::LAngleBracket) => true,
        (TokenKind::RAngleBracket, TokenKind::RAngleBracket) => true,
        (TokenKind::LBrace, TokenKind::LBrace) => true,
        (TokenKind::RBrace, TokenKind::RBrace) => true,
        (TokenKind::Plus, TokenKind::Plus) => true,
        _ => false,
    }
}

/// The builtin kind that a keyword names.
fn builtin_kind(s: &String) -> (r: Option<AstKind>)
    ensures
        r matches Some(k) ==> type_text(k) == s@ && (scalar_width(k) is Some || k is Str),
        forall|k: AstKind|
            (scalar_width(k) is Some || k is Str) && #[trigger] type_text(k) == s@ ==> r is Some,
{
    let w = s.as_str();
    if str_eq(w, "INT8") {
        Some(AstKind::Int8)
    } else if str_eq(w, "INT16") {
        Some(AstKind::Int16)
    } else if str_eq(w, "INT32") {
        Some(AstKind::Int32)
    } else if str_eq(w, "UINT8") {
        Some(AstKind::UInt8)
    } else if str_eq(w, "UINT16") {
        Some(AstKind::UInt16)
    } else if str_eq(w, "UINT32") {
        Some(AstKind::UInt32)
    } else if str_eq(w, "FLOAT32") {
        Some(AstKind::Float32)
    } else if str_eq(w, "FLOAT64") {
        Some(AstKind::Float64)
    } else if str_eq(w, "STR") {
        Some(AstKind::Str)
    } else {
        assert forall|k: AstKind|
            (scalar_width(k) is Some || k is Str) && #[trigger] type_text(k) == s@ implies false by {
            match k {
                AstKind::Int8 | AstKind::Int16 | AstKind::Int32 | AstKind::UInt8 | AstKind::UInt16
                | AstKind::UInt32 | AstKind::Float32 | AstKind::Float64 | AstKind::Str => {},
                _ => {},
            }
        }
        None
    }
}

} // verus!
