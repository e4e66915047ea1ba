use vstd::prelude::*;
use crate::ast::{Ast, AstKind, Len, Schema};
use crate::param::{
    clear_scope_spec, create_scope_spec, get_value_spec, push_value_spec, ParamStack, ParamsView,
};
use crate::text::{push_char, push_signed, signed_text};
use crate::walker::{read_spec, BufWalker, DecodeError, Number, Value, ValueSpec};

verus! {

/// One unit of JSON output: a character, or a float that the caller
/// writes in decimal from its bit pattern.
#[derive(Debug, Clone, Copy, PartialEq, Eq, Structural)]
pub enum JsonPiece {
    /// A character, by its Unicode scalar value.
    Char(u32),
    Float32(u32),
    Float64(u64),
}

/// Whether JSON output is compact or indented.
#[derive(Debug, Clone, Copy, PartialEq, Eq, Structural)]
pub enum JsonFormattingStyle {
    /// No whitespace at all.
    Minimal,
    /// Two spaces of indent per level and a newline after each member.
    Pretty,
}

/// The escape of one character in a JSON string.
pub open spec fn escape_char(c: char) -> Seq<char> {
    if c == '\u{8}' {
        seq!['\\', 'b']
    } else if c == '\t' {
        seq!['\\', 't']
    } else if c == '\n' {
        seq!['\\', 'n']
    } else if c == '\u{c}' {
        seq!['\\', 'f']
    } else if c == '\r' {
        seq!['\\', 'r']
    } else if (c as u32) < 0x20 || (c as u32) == 0x7f {
        seq!['\\', 'u', '0', '0', hex_upper((c as u32 / 16) as nat), hex_upper((c as u32 % 16) as nat)]
    } else if c == '"' {
        seq!['\\', '"']
    } else if c == '\\' {
        seq!['\\', '\\']
    } else {
        seq![c]
    }
}

/// The upper-case hexadecimal digit of `d < 16`.
pub open spec fn hex_upper(d: nat) -> char {
    if d < 10 {
        ((d + 48) as u8) as char
    } else {
        ((d + 55) as u8) as char
    }
}

/// A text with every character escaped for a JSON string.
pub open spec fn escape_text(s: Seq<char>) -> Seq<char>
    decreases s.len(),
{
    if s.len() == 0 {
        Seq::empty()
    } else {
        escape_text(s.drop_last()) + escape_char(s.last())
    }
}

fn hex_digit(d: u32) -> (c: char)
    requires
        d < 16,
    ensures
        c == hex_upper(d as nat),
{
    if d < 10 {
        ((d as u8) + 48) as char
    } else {
        ((d as u8) + 55) as char
    }
}

/// Appends the JSON escape of one character.
fn push_escaped(out: &mut String, c: char)
    ensures
        final(out)@ == old(out)@ + escape_char(c),
{
    let ghost start = out@;
    let code = c as u32;
    if code == 8 {
        push_char(out, '\\');
        push_char(out, 'b');
    } else if code == 9 {
        push_char(out, '\\');
        push_char(out, 't');
    } else if code == 10 {
        push_char(out, '\\');
        push_char(out, 'n');
    } else if code == 12 {
        push_char(out, '\\');
        push_char(out, 'f');
    } else if code == 13 {
        push_char(out, '\\');
        push_char(out, 'r');
    } else if code < 0x20 || code == 0x7f {
        push_char(out, '\\');
        push_char(out, 'u');
        push_char(out, '0');
        push_char(out, '0');
        push_char(out, hex_digit(code / 16));
        push_char(out, hex_digit(code % 16));
    } else if c == '"' {
        push_char(out, '\\');
        push_char(out, '"');
    } else if c == '\\' {
        push_char(out, '\\');
        push_char(out, '\\');
    } else {
        push_char(out, c);
    }
    assert(out@ =~= start + escape_char(c));
}

/// Escapes a text for use inside a JSON string: control characters
/// (U+0000 to U+001F and U+007F) as `\b`, `\t`, `\n`, `\f`, `\r` or
/// `\u00XX`, and `"` and `\` with a backslash; every other character stays.
pub fn json_escape_str(input: &str) -> (r: String)
    ensures
        r@ == escape_text(input@),
{
    let n = input.unicode_len();
    let mut out = String::new();
    let mut i: usize = 0;
    proof {
        assert(input@.subrange(0, 0) =~= Seq::<char>::empty());
    }
    while i < n
        invariant
            n == input@.len(),
            i <= n,
            out@ == escape_text(input@.subrange(0, i as int)),
        decreases n - i,
    {
        let c = input.get_char(i);
        push_escaped(&mut out, c);
        proof {
            assert(input@.subrange(0, i + 1).drop_last() =~= input@.subrange(0, i as int));
        }
        i = i + 1;
    }
    proof {
        assert(input@.subrange(0, n as int) =~= input@);
    }
    out
}

/// Characters as output pieces.
pub open spec fn char_pieces(s: Seq<char>) -> Seq<JsonPiece>
    decreases s.len(),
{
    if s.len() == 0 {
        Seq::empty()
    } else {
        char_pieces(s.drop_last()).push(JsonPiece::Char(s.last() as u32))
    }
}

pub open spec fn newline(style: JsonFormattingStyle) -> Seq<JsonPiece> {
    if style == JsonFormattingStyle::Pretty {
        seq![JsonPiece::Char('\n' as u32)]
    } else {
        Seq::empty()
    }
}

pub open spec fn colon_space(style: JsonFormattingStyle) -> Seq<JsonPiece> {
    if style == JsonFormattingStyle::Pretty {
        seq![JsonPiece::Char(' ' as u32)]
    } else {
        Seq::empty()
    }
}

/// Two spaces per level when pretty.
pub open spec fn indent(style: JsonFormattingStyle, depth: nat) -> Seq<JsonPiece> {
    if style == JsonFormattingStyle::Pretty {
        Seq::new(2 * depth, |i: int| JsonPiece::Char(' ' as u32))
    } else {
        Seq::empty()
    }
}

/// The JSON text of a number.
pub open spec fn number_pieces(n: Number) -> Seq<JsonPiece> {
    match n {
        Number::Int8(v) => char_pieces(signed_text(v as int)),
        Number::Int16(v) => char_pieces(signed_text(v as int)),
        Number::Int32(v) => char_pieces(signed_text(v as int)),
        Number::UInt8(v) => char_pieces(signed_text(v as int)),
        Number::UInt16(v) => char_pieces(signed_text(v as int)),
        Number::UInt32(v) => char_pieces(signed_text(v as int)),
        Number::Float32(b) => seq![JsonPiece::Float32(b)],
        Number::Float64(b) => seq![JsonPiece::Float64(b)],
    }
}

/// A JSON string of the text.
pub open spec fn string_pieces(s: Seq<char>) -> Seq<JsonPiece> {
    char_pieces(seq!['"'] + escape_text(s) + seq!['"'])
}

pub open spec fn value_pieces(v: ValueSpec) -> Seq<JsonPiece> {
    match v {
        ValueSpec::Number(n) => number_pieces(n),
        ValueSpec::Text(s) => string_pieces(s),
        _ => Seq::empty(),
    }
}

/// The length that a decoded value stands for: a non-negative integer.
pub open spec fn param_value(v: ValueSpec) -> Option<usize> {
    match v {
        ValueSpec::Number(Number::Int8(x)) => if x >= 0 { Some(x as usize) } else { None },
        ValueSpec::Number(Number::Int16(x)) => if x >= 0 { Some(x as usize) } else { None },
        ValueSpec::Number(Number::Int32(x)) => if x >= 0 { Some(x as usize) } else { None },
        ValueSpec::Number(Number::UInt8(x)) => Some(x as usize),
        ValueSpec::Number(Number::UInt16(x)) => Some(x as usize),
        ValueSpec::Number(Number::UInt32(x)) => Some(x as usize),
        _ => None,
    }
}


/// What decoding one node gives: its JSON pieces and the state after it.
pub type DecResult = Result<(Seq<JsonPiece>, nat, ParamsView), DecodeError>;

/// Whether a container at `depth` may open one more level.
pub open spec fn room_for_level(depth: nat, p: ParamsView) -> bool {
    depth + 1 < usize::MAX && p.level + 1 < usize::MAX
}

/// Decodes `node` from `buf` at `pos` with parameters `p`, writing JSON at
/// indent level `depth`.
pub open spec fn dec_node(
    node: Ast,
    buf: Seq<u8>,
    style: JsonFormattingStyle,
    depth: nat,
    pos: nat,
    p: ParamsView,
) -> DecResult
    decreases node, 0int, 0int,
{
    match node.kind {
        AstKind::Struct(children) => {
            if !room_for_level(depth, p) {
                Err(DecodeError::NestingTooDeep)
            } else {
                match dec_fields(children, 0, buf, style, depth + 1, pos, create_scope_spec(p)) {
                    Err(e) => Err(e),
                    Ok((o, pos2, p2)) => Ok(
                        (
                            seq![JsonPiece::Char('{' as u32)] + newline(style) + o + indent(style, depth)
                                + seq![JsonPiece::Char('}' as u32)],
                            pos2,
                            clear_scope_spec(p2),
                        ),
                    ),
                }
            }
        },
        AstKind::Array(len, elem) => {
            if !room_for_level(depth, p) {
                Err(DecodeError::NestingTooDeep)
            } else {
                match array_inner(len, *elem, buf, style, depth + 1, pos, p) {
                    Err(e) => Err(e),
                    Ok((o, pos2, p2)) => Ok(
                        (
                            seq![JsonPiece::Char('[' as u32)] + newline(style) + o + newline(style)
                                + indent(style, depth) + seq![JsonPiece::Char(']' as u32)],
                            pos2,
                            p2,
                        ),
                    ),
                }
            }
        },
        _ => match read_spec(node.kind, buf, pos) {
            None => Err(DecodeError::Truncated),
            Some((v, pos2)) => {
                if p.stacks.contains_key(node.name@) {
                    match param_value(v) {
                        Some(x) => Ok((value_pieces(v), pos2, push_value_spec(p, node.name@, x))),
                        None => Err(DecodeError::InvalidParameterValue(node.name)),
                    }
                } else {
                    Ok((value_pieces(v), pos2, p))
                }
            },
        },
    }
}

/// Decodes the elements of an array: as many as its length says, at
/// indent level `depth`.
pub open spec fn array_inner(
    len: Len,
    elem: Ast,
    buf: Seq<u8>,
    style: JsonFormattingStyle,
    depth: nat,
    pos: nat,
    p: ParamsView,
) -> DecResult
    decreases elem, 2int, 0int,
{
    match len {
        Len::Fixed(n) => dec_elems(elem, n as nat, 0, buf, style, depth, pos, p),
        Len::Variable(s) => match get_value_spec(p, s@) {
            Some(n) => dec_elems(elem, n as nat, 0, buf, style, depth, pos, p),
            None => Err(DecodeError::UnresolvedParameter(s)),
        },
        Len::Unlimited => dec_unlimited(elem, true, buf, style, depth, pos, p),
    }
}

/// Decodes the fields `i..` of a struct, each as `"name":value`.
pub open spec fn dec_fields(
    children: Vec<Ast>,
    i: int,
    buf: Seq<u8>,
    style: JsonFormattingStyle,
    depth: nat,
    pos: nat,
    p: ParamsView,
) -> DecResult
    decreases children, 0int, children@.len() - i,
{
    if i < 0 || i >= children@.len() {
        Ok((Seq::empty(), pos, p))
    } else {
        let child = children@[i];
        let head = indent(style, depth) + string_pieces(child.name@) + seq![JsonPiece::Char(':' as u32)]
            + colon_space(style);
        match dec_node(child, buf, style, depth, pos, p) {
            Err(e) => Err(e),
            Ok((o, pos1, p1)) => {
                let sep = if i + 1 < children@.len() {
                    seq![JsonPiece::Char(',' as u32)]
                } else {
                    Seq::empty()
                } + newline(style);
                match dec_fields(children, i + 1, buf, style, depth, pos1, p1) {
                    Err(e) => Err(e),
                    Ok((rest, pos2, p2)) => Ok((head + o + sep + rest, pos2, p2)),
                }
            },
        }
    }
}

/// Decodes the elements `i..n` of an array of known length.
pub open spec fn dec_elems(
    elem: Ast,
    n: nat,
    i: nat,
    buf: Seq<u8>,
    style: JsonFormattingStyle,
    depth: nat,
    pos: nat,
    p: ParamsView,
) -> DecResult
    decreases elem, 1int, n - i,
{
    if i >= n {
        Ok((Seq::empty(), pos, p))
    } else {
        match dec_node(elem, buf, style, depth, pos, p) {
            Err(e) => Err(e),
            Ok((o, pos1, p1)) => {
                let sep = if i + 1 < n {
                    seq![JsonPiece::Char(',' as u32)] + newline(style)
                } else {
                    Seq::empty()
                };
                match dec_elems(elem, n, i + 1, buf, style, depth, pos1, p1) {
                    Err(e) => Err(e),
                    Ok((rest, pos2, p2)) => Ok((indent(style, depth) + o + sep + rest, pos2, p2)),
                }
            },
        }
    }
}

/// Decodes elements until the buffer is used up; an element that takes no
/// bytes stops the decode with an error.
pub open spec fn dec_unlimited(
    elem: Ast,
    first: bool,
    buf: Seq<u8>,
    style: JsonFormattingStyle,
    depth: nat,
    pos: nat,
    p: ParamsView,
) -> DecResult
    decreases elem, 1int, buf.len() - pos,
{
    if pos >= buf.len() {
        Ok((Seq::empty(), pos, p))
    } else {
        match dec_node(elem, buf, style, depth, pos, p) {
            Err(e) => Err(e),
            Ok((o, pos1, p1)) => {
                if pos1 <= pos || pos1 > buf.len() {
                    Err(DecodeError::StalledArray)
                } else {
                    let sep = if first {
                        Seq::empty()
                    } else {
                        seq![JsonPiece::Char(',' as u32)] + newline(style)
                    };
                    match dec_unlimited(elem, false, buf, style, depth, pos1, p1) {
                        Err(e) => Err(e),
                        Ok((rest, pos2, p2)) => Ok((sep + indent(style, depth) + o + rest, pos2, p2)),
                    }
                }
            },
        }
    }
}


/// Whether an outcome of an exec decode is the one a spec result describes:
/// the same error, or success with `o` appended, the state moved to
/// `(pos, p)` and the scope level kept.
pub open spec fn result_matches(
    spec: DecResult,
    out0: Seq<JsonPiece>,
    out1: Seq<JsonPiece>,
    pos1: nat,
    p1: ParamsView,
    level0: nat,
    r: Result<(), DecodeError>,
) -> bool {
    match spec {
        Ok((o, pos, p)) => {
            &&& r is Ok
            &&& out1 == out0 + o
            &&& pos1 == pos
            &&& p1 == p
            &&& p.level == level0
        },
        Err(e) => r == Err::<(), DecodeError>(e),
    }
}

/// A loop has written `acc` so far, and `cur` is what the rest decodes to:
/// the whole result is `acc` followed by `cur`'s output, or `cur`'s error.
pub open spec fn tracks(total: DecResult, acc: Seq<JsonPiece>, cur: DecResult) -> bool {
    match cur {
        Ok((rest, pf, ppf)) => total == Ok::<(Seq<JsonPiece>, nat, ParamsView), DecodeError>(
            (acc + rest, pf, ppf),
        ),
        Err(e) => total == Err::<(Seq<JsonPiece>, nat, ParamsView), DecodeError>(e),
    }
}

pub open spec fn field_step(
    children: Vec<Ast>,
    i: int,
    style: JsonFormattingStyle,
    depth: nat,
    o: Seq<JsonPiece>,
) -> Seq<JsonPiece> {
    indent(style, depth) + string_pieces(children@[i].name@) + seq![JsonPiece::Char(':' as u32)]
        + colon_space(style) + o + (if i + 1 < children@.len() {
        seq![JsonPiece::Char(',' as u32)]
    } else {
        Seq::empty()
    } + newline(style))
}

pub open spec fn elem_step(n: nat, i: nat, style: JsonFormattingStyle, depth: nat, o: Seq<JsonPiece>) -> Seq<JsonPiece> {
    indent(style, depth) + o + (if i + 1 < n {
        seq![JsonPiece::Char(',' as u32)] + newline(style)
    } else {
        Seq::empty()
    })
}

pub open spec fn unlimited_step(first: bool, style: JsonFormattingStyle, depth: nat, o: Seq<JsonPiece>) -> Seq<JsonPiece> {
    (if first {
        Seq::empty()
    } else {
        seq![JsonPiece::Char(',' as u32)] + newline(style)
    }) + indent(style, depth) + o
}

proof fn lemma_fields_step(
    children: Vec<Ast>,
    i: int,
    buf: Seq<u8>,
    style: JsonFormattingStyle,
    depth: nat,
    pos: nat,
    p: ParamsView,
    total: DecResult,
    acc: Seq<JsonPiece>,
)
    requires
        0 <= i < children@.len(),
        tracks(total, acc, dec_fields(children, i, buf, style, depth, pos, p)),
        dec_node(children@[i], buf, style, depth, pos, p) is Ok,
    ensures
        ({
            let (o, pos1, p1) = dec_node(children@[i], buf, style, depth, pos, p)->Ok_0;
            tracks(total, acc + field_step(children, i, style, depth, o), dec_fields(children, i + 1, buf, style, depth, pos1, p1))
        }),
{
    let (o, pos1, p1) = dec_node(children@[i], buf, style, depth, pos, p)->Ok_0;
    let step = field_step(children, i, style, depth, o);
    match dec_fields(children, i + 1, buf, style, depth, pos1, p1) {
        Ok((rest, pf, ppf)) => {
            assert(acc + (step + rest) =~= (acc + step) + rest);
            let head = indent(style, depth) + string_pieces(children@[i].name@) + seq![JsonPiece::Char(':' as u32)]
                + colon_space(style);
            let sep = if i + 1 < children@.len() {
                seq![JsonPiece::Char(',' as u32)]
            } else {
                Seq::empty()
            } + newline(style);
            assert(head + o + sep + rest =~= step + rest);
        },
        Err(e) => {},
    }
}

proof fn lemma_elems_step(
    elem: Ast,
    n: nat,
    i: nat,
    buf: Seq<u8>,
    style: JsonFormattingStyle,
    depth: nat,
    pos: nat,
    p: ParamsView,
    total: DecResult,
    acc: Seq<JsonPiece>,
)
    requires
        i < n,
        tracks(total, acc, dec_elems(elem, n, i, buf, style, depth, pos, p)),
        dec_node(elem, buf, style, depth, pos, p) is Ok,
    ensures
        ({
            let (o, pos1, p1) = dec_node(elem, buf, style, depth, pos, p)->Ok_0;
            tracks(total, acc + elem_step(n, i, style, depth, o), dec_elems(elem, n, i + 1, buf, style, depth, pos1, p1))
        }),
{
    let (o, pos1, p1) = dec_node(elem, buf, style, depth, pos, p)->Ok_0;
    let step = elem_step(n, i, style, depth, o);
    match dec_elems(elem, n, i + 1, buf, style, depth, pos1, p1) {
        Ok((rest, pf, ppf)) => {
            assert(acc + (step + rest) =~= (acc + step) + rest);
            let sep = if i + 1 < n {
                seq![JsonPiece::Char(',' as u32)] + newline(style)
            } else {
                Seq::empty()
            };
            assert(indent(style, depth) + o + sep + rest =~= step + rest);
        },
        Err(e) => {},
    }
}

proof fn lemma_unlimited_step(
    elem: Ast,
    first: bool,
    buf: Seq<u8>,
    style: JsonFormattingStyle,
    depth: nat,
    pos: nat,
    p: ParamsView,
    total: DecResult,
    acc: Seq<JsonPiece>,
)
    requires
        pos < buf.len(),
        tracks(total, acc, dec_unlimited(elem, first, buf, style, depth, pos, p)),
        dec_node(elem, buf, style, depth, pos, p) is Ok,
        pos < dec_node(elem, buf, style, depth, pos, p)->Ok_0.1 <= buf.len(),
    ensures
        ({
            let (o, pos1, p1) = dec_node(elem, buf, style, depth, pos, p)->Ok_0;
            tracks(total, acc + unlimited_step(first, style, depth, o), dec_unlimited(elem, false, buf, style, depth, pos1, p1))
        }),
{
    let (o, pos1, p1) = dec_node(elem, buf, style, depth, pos, p)->Ok_0;
    let step = unlimited_step(first, style, depth, o);
    match dec_unlimited(elem, false, buf, style, depth, pos1, p1) {
        Ok((rest, pf, ppf)) => {
            assert(acc + (step + rest) =~= (acc + step) + rest);
        },
        Err(e) => {},
    }
}

proof fn lemma_lit_concat(a: Seq<char>, b: Seq<char>)
    ensures
        char_pieces(a + b) == char_pieces(a) + char_pieces(b),
    decreases b.len(),
{
    if b.len() == 0 {
        assert(a + b =~= a);
        assert(char_pieces(a) + char_pieces(b) =~= char_pieces(a));
    } else {
        lemma_lit_concat(a, b.drop_last());
        assert((a + b).drop_last() =~= a + b.drop_last());
        assert((a + b).last() == b.last());
        assert(char_pieces(b) == char_pieces(b.drop_last()).push(JsonPiece::Char(b.last() as u32)));
        assert(char_pieces(a + b) == char_pieces(a + b.drop_last()).push(JsonPiece::Char(b.last() as u32)));
        assert(char_pieces(a) + char_pieces(b) =~= (char_pieces(a) + char_pieces(b.drop_last())).push(
            JsonPiece::Char(b.last() as u32),
        ));
    }
}

proof fn lemma_lit_one(c: char)
    ensures
        char_pieces(seq![c]) == seq![JsonPiece::Char(c as u32)],
{
    assert(seq![c].drop_last() =~= Seq::<char>::empty());
    assert(char_pieces(seq![c].drop_last()) =~= Seq::<JsonPiece>::empty());
    assert(char_pieces(seq![c]) =~= seq![JsonPiece::Char(c as u32)]);
}

fn emit(out: &mut Vec<JsonPiece>, c: char)
    ensures
        final(out)@ == old(out)@ + char_pieces(seq![c]),
        final(out)@ == old(out)@.push(JsonPiece::Char(c as u32)),
{
    out.push(JsonPiece::Char(c as u32));
    proof {
        lemma_lit_one(c);
    }
    assert(out@ =~= old(out)@ + char_pieces(seq![c]));
}

fn emit_str(out: &mut Vec<JsonPiece>, s: &str)
    ensures
        final(out)@ == old(out)@ + char_pieces(s@),
{
    let n = s.unicode_len();
    let ghost start = out@;
    let mut i: usize = 0;
    assert(s@.subrange(0, 0) =~= Seq::<char>::empty());
    assert(out@ =~= start + char_pieces(s@.subrange(0, 0)));
    while i < n
        invariant
            n == s@.len(),
            i <= n,
            out@ == start + char_pieces(s@.subrange(0, i as int)),
        decreases n - i,
    {
        let ghost before = out@;
        out.push(JsonPiece::Char(s.get_char(i) as u32));
        proof {
            assert(s@.subrange(0, i + 1).drop_last() =~= s@.subrange(0, i as int));
        }
        assert(out@ =~= start + char_pieces(s@.subrange(0, i + 1)));
        i = i + 1;
    }
    assert(s@.subrange(0, n as int) =~= s@);
}

fn emit_newline(out: &mut Vec<JsonPiece>, style: JsonFormattingStyle)
    ensures
        final(out)@ == old(out)@ + newline(style),
{
    if style == JsonFormattingStyle::Pretty {
        out.push(JsonPiece::Char('\n' as u32));
    }
    assert(out@ =~= old(out)@ + newline(style));
}

fn emit_colon_space(out: &mut Vec<JsonPiece>, style: JsonFormattingStyle)
    ensures
        final(out)@ == old(out)@ + colon_space(style),
{
    if style == JsonFormattingStyle::Pretty {
        out.push(JsonPiece::Char(' ' as u32));
    }
    assert(out@ =~= old(out)@ + colon_space(style));
}

fn emit_indent(out: &mut Vec<JsonPiece>, style: JsonFormattingStyle, depth: usize)
    ensures
        final(out)@ == old(out)@ + indent(style, depth as nat),
{
    let ghost start = out@;
    if style == JsonFormattingStyle::Pretty {
        let mut i: usize = 0;
        while i < depth
            invariant
                i <= depth,
                out@ == start + Seq::new(2 * i as nat, |j: int| JsonPiece::Char(' ' as u32)),
            decreases depth - i,
        {
            out.push(JsonPiece::Char(' ' as u32));
            out.push(JsonPiece::Char(' ' as u32));
            assert(out@ =~= start + Seq::new(2 * (i + 1) as nat, |j: int| JsonPiece::Char(' ' as u32)));
            i = i + 1;
        }
    }
    assert(out@ =~= start + indent(style, depth as nat));
}

/// Writes a JSON string.
fn emit_string(out: &mut Vec<JsonPiece>, s: &str)
    ensures
        final(out)@ == old(out)@ + string_pieces(s@),
{
    let ghost start = out@;
    let escaped = json_escape_str(s);
    emit(out, '"');
    emit_str(out, escaped.as_str());
    emit(out, '"');
    proof {
        lemma_lit_concat(seq!['"'] + escape_text(s@), seq!['"']);
        lemma_lit_concat(seq!['"'], escape_text(s@));
    }
    assert(out@ =~= start + string_pieces(s@));
}

fn emit_signed(out: &mut Vec<JsonPiece>, n: i64)
    requires
        n > i64::MIN,
    ensures
        final(out)@ == old(out)@ + char_pieces(signed_text(n as int)),
{
    let mut s = String::new();
    push_signed(&mut s, n);
    emit_str(out, s.as_str());
}

fn emit_number(out: &mut Vec<JsonPiece>, n: Number)
    ensures
        final(out)@ == old(out)@ + number_pieces(n),
{
    match n {
        Number::Int8(v) => emit_signed(out, v as i64),
        Number::Int16(v) => emit_signed(out, v as i64),
        Number::Int32(v) => emit_signed(out, v as i64),
        Number::UInt8(v) => emit_signed(out, v as i64),
        Number::UInt16(v) => emit_signed(out, v as i64),
        Number::UInt32(v) => emit_signed(out, v as i64),
        Number::Float32(b) => {
            out.push(JsonPiece::Float32(b));
            assert(out@ =~= old(out)@ + number_pieces(n));
        },
        Number::Float64(b) => {
            out.push(JsonPiece::Float64(b));
            assert(out@ =~= old(out)@ + number_pieces(n));
        },
    }
}

/// The length that a decoded value stands for, if it is a non-negative
/// integer.
fn param_value_of(v: &Value) -> (r: Option<usize>)
    ensures
        forall|s: ValueSpec| v.spec_eq(s) ==> r == param_value(s),
{
    match v {
        Value::Number(Number::Int8(x)) => if *x >= 0 { Some(*x as usize) } else { None },
        Value::Number(Number::Int16(x)) => if *x >= 0 { Some(*x as usize) } else { None },
        Value::Number(Number::Int32(x)) => if *x >= 0 { Some(*x as usize) } else { None },
        Value::Number(Number::UInt8(x)) => Some(*x as usize),
        Value::Number(Number::UInt16(x)) => Some(*x as usize),
        Value::Number(Number::UInt32(x)) => Some(*x as usize),
        _ => None,
    }
}

/// Walks a schema and a buffer together and writes the decoded record as
/// JSON, resolving array lengths through its parameter table.
pub struct JsonSerializer<'b> {
    walker: BufWalker<'b>,
    params: ParamStack,
    rule: JsonFormattingStyle,
}

impl<'b> JsonSerializer<'b> {
    pub closed spec fn buf(&self) -> Seq<u8> {
        self.walker.buf()
    }

    pub closed spec fn position(&self) -> nat {
        self.walker.position()
    }

    pub closed spec fn params(&self) -> ParamsView {
        self.params@
    }

    pub closed spec fn style(&self) -> JsonFormattingStyle {
        self.rule
    }

    /// A serializer at the start of `buf`, with its own parameter table.
    pub fn new(buf: &'b [u8], params: ParamStack, rule: JsonFormattingStyle) -> (r: Self)
        ensures
            r.buf() == buf@,
            r.position() == 0,
            r.params() == params@,
            r.style() == rule,
    {
        JsonSerializer { walker: BufWalker::new(buf), params, rule }
    }

    /// Decodes `node` and appends its JSON to `out`, as `dec_node` says.
    pub fn visit(&mut self, out: &mut Vec<JsonPiece>, node: &Ast, depth: usize) -> (r: Result<
        (),
        DecodeError,
    >)
        ensures
            final(self).buf() == old(self).buf(),
            final(self).style() == old(self).style(),
            result_matches(dec_node(*node, old(self).buf(), old(self).style(), depth as nat, old(self).position(), old(self).params()), old(out)@, final(out)@, final(self).position(), final(self).params(), old(self).params().level, r),
        decreases *node, 1int, 0int,
    {
        match &node.kind {
            AstKind::Struct(children) => self.visit_struct(out, node, children, depth),
            AstKind::Array(len, elem) => self.visit_array(out, node, len, elem, depth),
            _ => self.visit_builtin(out, node),
        }
    }

    fn visit_struct(
        &mut self,
        out: &mut Vec<JsonPiece>,
        node: &Ast,
        children: &Vec<Ast>,
        depth: usize,
    ) -> (r: Result<(), DecodeError>)
        requires
            node.kind == AstKind::Struct(*children),
        ensures
            final(self).buf() == old(self).buf(),
            final(self).style() == old(self).style(),
            result_matches(dec_node(*node, old(self).buf(), old(self).style(), depth as nat, old(self).position(), old(self).params()), old(out)@, final(out)@, final(self).position(), final(self).params(), old(self).params().level, r),
        decreases *node, 0int, 0int,
    {
        if depth >= usize::MAX - 1 || self.params.level() >= usize::MAX - 1 {
            return Err(DecodeError::NestingTooDeep);
        }
        let style = self.rule;
        let d1 = depth + 1;
        let ghost out0 = out@;
        emit(out, '{');
        emit_newline(out, style);
        self.params.create_scope();
        let ghost p1 = self.params@;
        let ghost total = dec_fields(*children, 0, self.buf(), style, d1 as nat, self.position(), p1);
        let ghost base = out@;
        let ghost mut acc: Seq<JsonPiece> = Seq::empty();
        let mut i: usize = 0;
        proof {
            assert(base + acc =~= base);
            assert(out@ =~= out0 + seq![JsonPiece::Char('{' as u32)] + newline(style));
        }
        while i < children.len()
            invariant
                i <= children@.len(),
                d1 == depth + 1,
                d1 < usize::MAX,
                style == self.rule,
                self.buf() == old(self).buf(),
                self.rule == old(self).rule,
                self.params@.level == p1.level,
                p1 == create_scope_spec(old(self).params()),
                room_for_level(depth as nat, old(self).params()),
                node.kind == AstKind::Struct(*children),
                out@ == base + acc,
                out0 == old(out)@,
                base == out0 + seq![JsonPiece::Char('{' as u32)] + newline(style),
                total == dec_fields(*children, 0, old(self).buf(), old(self).style(), d1 as nat, old(self).position(), p1),
                tracks(total, acc, dec_fields(*children, i as int, self.buf(), style, d1 as nat, self.position(), self.params@)),
            decreases children@.len() - i,
        {
            let child = &children[i];
            let ghost before = out@;
            let ghost pos_i = self.position();
            let ghost par_i = self.params@;
            let ghost res = dec_node(*child, self.buf(), style, d1 as nat, pos_i, par_i);
            emit_indent(out, style, d1);
            emit_string(out, child.name.as_str());
            emit(out, ':');
            emit_colon_space(out, style);
            let ghost mid = out@;
            proof {
                assert(decreases_to!(*node => node.kind));
                assert(decreases_to!(node.kind => node.kind->Struct_0));
                assert(decreases_to!(*children => children@[i as int]));
            }
            let r = self.visit(out, child, d1);
            if let Err(e) = r {
                return Err(e);
            }
            let ghost after_child = out@;
            if i + 1 < children.len() {
                emit(out, ',');
            }
            emit_newline(out, style);
            proof {
                let o = res->Ok_0.0;
                lemma_fields_step(*children, i as int, self.buf(), style, d1 as nat, pos_i, par_i, total, acc);
                assert(out@ =~= base + (acc + field_step(*children, i as int, style, d1 as nat, o)));
                acc = acc + field_step(*children, i as int, style, d1 as nat, o);
            }
            i = i + 1;
        }
        self.params.clear_scope();
        emit_indent(out, style, depth);
        emit(out, '}');
        proof {
            assert(acc + Seq::<JsonPiece>::empty() =~= acc);
            assert(out@ =~= out0 + (seq![JsonPiece::Char('{' as u32)] + newline(style) + acc + indent(style, depth as nat) + seq![JsonPiece::Char('}' as u32)]));
        }
        Ok(())
    }

    #[verifier::rlimit(60)]
    fn visit_array(
        &mut self,
        out: &mut Vec<JsonPiece>,
        node: &Ast,
        len: &Len,
        elem: &Box<Ast>,
        depth: usize,
    ) -> (r: Result<(), DecodeError>)
        requires
            node.kind == AstKind::Array(*len, *elem),
        ensures
            final(self).buf() == old(self).buf(),
            final(self).style() == old(self).style(),
            result_matches(dec_node(*node, old(self).buf(), old(self).style(), depth as nat, old(self).position(), old(self).params()), old(out)@, final(out)@, final(self).position(), final(self).params(), old(self).params().level, r),
        decreases *node, 0int, 0int,
    {
        if depth >= usize::MAX - 1 || self.params.level() >= usize::MAX - 1 {
            return Err(DecodeError::NestingTooDeep);
        }
        let style = self.rule;
        let d1 = depth + 1;
        let ghost out0 = out@;
        emit(out, '[');
        emit_newline(out, style);
        let ghost base = out@;
        let ghost pos0 = self.position();
        let ghost p0 = self.params@;
        let ghost inner_spec = array_inner(*len, **elem, self.buf(), style, d1 as nat, pos0, p0);
        assert(dec_node(*node, self.buf(), style, depth as nat, pos0, p0) == match inner_spec {
            Err(e) => Err(e),
            Ok((o, pos2, p2)) => Ok::<(Seq<JsonPiece>, nat, ParamsView), DecodeError>(
                (
                    seq![JsonPiece::Char('[' as u32)] + newline(style) + o + newline(style)
                        + indent(style, depth as nat) + seq![JsonPiece::Char(']' as u32)],
                    pos2,
                    p2,
                ),
            ),
        });
        match len {
            Len::Fixed(n) => {
                self.visit_elems(out, elem, *n, d1)?;
            },
            Len::Variable(s) => {
                match self.params.get_value(s.as_str()) {
                    Some(n) => {
                        self.visit_elems(out, elem, n, d1)?;
                    },
                    None => {
                        return Err(DecodeError::UnresolvedParameter(s.clone()));
                    },
                }
            },
            Len::Unlimited => {
                self.visit_unlimited(out, elem, d1)?;
            },
        }
        let ghost inner = inner_spec->Ok_0.0;
        proof {
            assert(inner_spec is Ok);
            assert(out@ =~= base + inner);
        }
        emit_newline(out, style);
        emit_indent(out, style, depth);
        emit(out, ']');
        proof {
            assert(out@ =~= out0 + (seq![JsonPiece::Char('[' as u32)] + newline(style) + inner + newline(style) + indent(style, depth as nat) + seq![JsonPiece::Char(']' as u32)]));
        }
        Ok(())
    }

    fn visit_elems(&mut self, out: &mut Vec<JsonPiece>, elem: &Ast, n: usize, depth: usize) -> (r: Result<(), DecodeError>)
        ensures
            final(self).buf() == old(self).buf(),
            final(self).style() == old(self).style(),
            result_matches(dec_elems(*elem, n as nat, 0, old(self).buf(), old(self).style(), depth as nat, old(self).position(), old(self).params()), old(out)@, final(out)@, final(self).position(), final(self).params(), old(self).params().level, r),
        decreases *elem, 2int, 0int,
    {
        let style = self.rule;
        let ghost total = dec_elems(*elem, n as nat, 0, self.buf(), style, depth as nat, self.position(), self.params@);
        let ghost base = out@;
        let ghost level0 = self.params@.level;
        let ghost mut acc: Seq<JsonPiece> = Seq::empty();
        let mut i: usize = 0;
        proof {
            assert(base + acc =~= base);
        }
        while i < n
            invariant
                i <= n,
                style == self.rule,
                self.buf() == old(self).buf(),
                self.rule == old(self).rule,
                self.params@.level == level0,
                level0 == old(self).params().level,
                out@ == base + acc,
                base == old(out)@,
                total == dec_elems(*elem, n as nat, 0, old(self).buf(), old(self).style(), depth as nat, old(self).position(), old(self).params()),
                tracks(total, acc, dec_elems(*elem, n as nat, i as nat, self.buf(), style, depth as nat, self.position(), self.params@)),
            decreases n - i,
        {
            let ghost pos_i = self.position();
            let ghost par_i = self.params@;
            let ghost res = dec_node(*elem, self.buf(), style, depth as nat, pos_i, par_i);
            emit_indent(out, style, depth);
            let ghost mid = out@;
            let r = self.visit(out, elem, depth);
            if let Err(e) = r {
                return Err(e);
            }
            let ghost after_child = out@;
            if i + 1 < n {
                emit(out, ',');
                emit_newline(out, style);
            }
            proof {
                let o = res->Ok_0.0;
                lemma_elems_step(*elem, n as nat, i as nat, self.buf(), style, depth as nat, pos_i, par_i, total, acc);
                assert(out@ =~= base + (acc + elem_step(n as nat, i as nat, style, depth as nat, o)));
                acc = acc + elem_step(n as nat, i as nat, style, depth as nat, o);
            }
            i = i + 1;
        }
        proof {
            assert(acc + Seq::<JsonPiece>::empty() =~= acc);
        }
        Ok(())
    }

    fn visit_unlimited(&mut self, out: &mut Vec<JsonPiece>, elem: &Ast, depth: usize) -> (r: Result<(), DecodeError>)
        ensures
            final(self).buf() == old(self).buf(),
            final(self).style() == old(self).style(),
            result_matches(dec_unlimited(*elem, true, old(self).buf(), old(self).style(), depth as nat, old(self).position(), old(self).params()), old(out)@, final(out)@, final(self).position(), final(self).params(), old(self).params().level, r),
        decreases *elem, 2int, 0int,
    {
        let style = self.rule;
        let ghost total = dec_unlimited(*elem, true, self.buf(), style, depth as nat, self.position(), self.params@);
        let ghost base = out@;
        let ghost level0 = self.params@.level;
        let ghost mut acc: Seq<JsonPiece> = Seq::empty();
        let mut first = true;
        let len = self.walker.len();
        proof {
            assert(base + acc =~= base);
        }
        while self.walker.pos() < len
            invariant
                style == self.rule,
                len == self.buf().len(),
                self.buf() == old(self).buf(),
                self.rule == old(self).rule,
                self.params@.level == level0,
                level0 == old(self).params().level,
                out@ == base + acc,
                base == old(out)@,
                total == dec_unlimited(*elem, true, old(self).buf(), old(self).style(), depth as nat, old(self).position(), old(self).params()),
                tracks(total, acc, dec_unlimited(*elem, first, self.buf(), style, depth as nat, self.position(), self.params@)),
            decreases len - self.position(),
        {
            let start = self.walker.pos();
            let ghost par_i = self.params@;
            let ghost res = dec_node(*elem, self.buf(), style, depth as nat, start as nat, par_i);
            let ghost before = out@;
            if !first {
                emit(out, ',');
                emit_newline(out, style);
            }
            emit_indent(out, style, depth);
            let ghost mid = out@;
            let r = self.visit(out, elem, depth);
            if let Err(e) = r {
                return Err(e);
            }
            let end = self.walker.pos();
            if end <= start || end > len {
                return Err(DecodeError::StalledArray);
            }
            proof {
                let o = res->Ok_0.0;
                lemma_unlimited_step(*elem, first, self.buf(), style, depth as nat, start as nat, par_i, total, acc);
                assert(out@ =~= base + (acc + unlimited_step(first, style, depth as nat, o)));
                acc = acc + unlimited_step(first, style, depth as nat, o);
            }
            first = false;
        }
        proof {
            assert(acc + Seq::<JsonPiece>::empty() =~= acc);
        }
        Ok(())
    }

    fn visit_builtin(&mut self, out: &mut Vec<JsonPiece>, node: &Ast) -> (r: Result<
        (),
        DecodeError,
    >)
        requires
            !(node.kind is Struct),
            !(node.kind is Array),
        ensures
            final(self).buf() == old(self).buf(),
            final(self).style() == old(self).style(),
            result_matches(dec_node(*node, old(self).buf(), old(self).style(), 0, old(self).position(), old(self).params()), old(out)@, final(out)@, final(self).position(), final(self).params(), old(self).params().level, r),
    {
        let value = self.walker.read(node)?;
        let name = node.name.as_str();
        if self.params.contains(name) {
            match param_value_of(&value) {
                Some(x) => {
                    self.params.push_value(name, x);
                },
                None => {
                    return Err(DecodeError::InvalidParameterValue(node.name.clone()));
                },
            }
        }
        match &value {
            Value::Number(n) => emit_number(out, *n),
            Value::String(s) => emit_string(out, s.as_str()),
            _ => {},
        }
        Ok(())
    }
}

/// A schema and a buffer to be shown as JSON.
pub struct JsonDisplay<'s, 'b> {
    schema: &'s Schema,
    buf: &'b [u8],
    rule: JsonFormattingStyle,
}

impl<'s, 'b> JsonDisplay<'s, 'b> {
    pub closed spec fn schema(&self) -> &'s Schema {
        self.schema
    }

    pub closed spec fn buf(&self) -> Seq<u8> {
        self.buf@
    }

    pub closed spec fn style(&self) -> JsonFormattingStyle {
        self.rule
    }

    pub fn new(schema: &'s Schema, buf: &'b [u8], rule: JsonFormattingStyle) -> (r: Self)
        ensures
            r.schema() == schema,
            r.buf() == buf@,
            r.style() == rule,
    {
        JsonDisplay { schema, buf, rule }
    }

    /// Decodes the whole buffer against the schema, from offset zero with a
    /// fresh copy of the schema's parameters, and gives the JSON pieces.
    pub fn render(&self) -> (r: Result<Vec<JsonPiece>, DecodeError>)
        ensures
            match dec_node(self.schema().ast, self.buf(), self.style(), 0, 0, self.schema().params@) {
                Ok((o, _, _)) => r matches Ok(v) && v@ == o,
                Err(e) => r == Err::<Vec<JsonPiece>, DecodeError>(e),
            },
    {
        let mut serializer = JsonSerializer::new(self.buf, self.schema.params.duplicate(), self.rule);
        let mut out: Vec<JsonPiece> = Vec::new();
        match serializer.visit(&mut out, &self.schema.ast, 0) {
            Ok(()) => {
                assert(out@ =~= Seq::<JsonPiece>::empty() + out@);
                Ok(out)
            },
            Err(e) => Err(e),
        }
    }
}

/// Whether a piece is a character.
pub open spec fn is_text_piece(p: JsonPiece) -> bool {
    p matches JsonPiece::Char(c) && exists|ch: char| #[trigger] code_of(ch) == c
}

/// The Unicode scalar value of a character.
pub open spec fn code_of(ch: char) -> u32 {
    ch as u32
}

/// The text of JSON pieces that hold no float; `None` where one does.
pub fn pieces_text(pieces: &Vec<JsonPiece>) -> (r: Option<String>)
    ensures
        r matches Some(s) ==> char_pieces(s@) == pieces@,
        r is None ==> exists|i: int| 0 <= i < pieces@.len() && !is_text_piece(pieces@[i]),
{
    let mut s = String::new();
    let mut i: usize = 0;
    while i < pieces.len()
        invariant
            i <= pieces@.len(),
            char_pieces(s@) == pieces@.subrange(0, i as int),
        decreases pieces@.len() - i,
    {
        match pieces[i] {
            JsonPiece::Char(c) => {
                match char_of(c) {
                    Some(ch) => {
                        let ghost before = s@;
                        push_char(&mut s, ch);
                        proof {
                            assert(s@.drop_last() =~= before);
                            assert(pieces@.subrange(0, i + 1) =~= pieces@.subrange(0, i as int).push(pieces@[i as int]));
                        }
                    },
                    None => {
                        assert(!is_text_piece(pieces@[i as int]));
                        return None;
                    },
                }
            },
            _ => {
                assert(!is_text_piece(pieces@[i as int]));
                return None;
            },
        }
        i = i + 1;
    }
    assert(pieces@.subrange(0, pieces@.len() as int) =~= pieces@);
    Some(s)
}

/// Relies on `char::from_u32`: the character of a Unicode scalar value.
#[verifier::external_body]
fn char_of(c: u32) -> (r: Option<char>)
    ensures
        r matches Some(ch) ==> ch as u32 == c,
        r is None ==> forall|ch: char| #[trigger] code_of(ch) != c,
{
    char::from_u32(c)
}

} // verus!
