use vstd::prelude::*;
use crate::ast::{SchemaParseError, SchemaParseErrorKind};
use crate::text::chars_of;

verus! {

/// How many bytes of context an excerpt shows on each side of an error.
pub const MARGIN: usize = 32;

impl SchemaParseErrorKind {
    /// A short human-readable reason.
    pub fn short_reason(&self) -> (r: &'static str)
        ensures
            r@ == reason_text(*self),
    {
        match self {
            SchemaParseErrorKind::UnexpectedEof => "unexpected end of the schema statement reached",
            SchemaParseErrorKind::UnexpectedToken => "unexpected token found",
            SchemaParseErrorKind::UnknownBuiltinType => "unknown built type found",
            SchemaParseErrorKind::UnknownToken => "unknown token found",
        }
    }
}

pub open spec fn reason_text(k: SchemaParseErrorKind) -> Seq<char> {
    match k {
        SchemaParseErrorKind::UnexpectedEof => "unexpected end of the schema statement reached"@,
        SchemaParseErrorKind::UnexpectedToken => "unexpected token found"@,
        SchemaParseErrorKind::UnknownBuiltinType => "unknown built type found"@,
        SchemaParseErrorKind::UnknownToken => "unknown token found"@,
    }
}

/// The part of the schema text around an error, and where to put the
/// carets under it.
pub struct ErrorExcerpt {
    /// Whether text before the excerpt was left out.
    pub cut_before: bool,
    /// Whether text after the excerpt was left out.
    pub cut_after: bool,
    /// The excerpt, one character per byte.
    pub text: String,
    /// Columns from the excerpt's start to the first caret.
    pub offset: usize,
    /// Number of carets.
    pub carets: usize,
}

/// The span marked under an error: one column past the end for an early
/// end of input, else the error's range (never shorter than empty).
pub open spec fn marked_span(e: SchemaParseError) -> (nat, nat) {
    let s = e.location.0 as nat;
    if e.kind == SchemaParseErrorKind::UnexpectedEof {
        (s, s + 1)
    } else if e.location.1 >= e.location.0 {
        (s, e.location.1 as nat)
    } else {
        (s, s)
    }
}

pub open spec fn min_nat(a: nat, b: nat) -> nat {
    if a <= b { a } else { b }
}

/// The excerpt bounds: up to `MARGIN` bytes either side of the span, within
/// the text.
pub open spec fn excerpt_bounds(e: SchemaParseError, len: nat) -> (nat, nat) {
    let (s, t) = marked_span(e);
    let end = min_nat((t + MARGIN) as nat, len);
    let start = if s >= MARGIN { (s - MARGIN) as nat } else { 0 };
    (min_nat(start, end), end)
}

/// Cuts the text around an error for display.
pub fn error_excerpt(e: &SchemaParseError, schema: &[u8]) -> (r: ErrorExcerpt)
    requires
        e.location.0 < usize::MAX - 2 * MARGIN,
        e.location.1 < usize::MAX - 2 * MARGIN,
    ensures
        ({
            let (s, t) = marked_span(*e);
            let (a, b) = excerpt_bounds(*e, schema@.len());
            &&& r.text@ == chars_of(schema@.subrange(a as int, b as int))
            &&& r.cut_before == (a > 0)
            &&& r.cut_after == (b < schema@.len())
            &&& r.offset == s - a
            &&& r.carets == t - s
        }),
{
    let s = e.location.0;
    let t = if matches!(e.kind, SchemaParseErrorKind::UnexpectedEof) {
        s + 1
    } else if e.location.1 >= s {
        e.location.1
    } else {
        s
    };
    let end = if t + MARGIN <= schema.len() { t + MARGIN } else { schema.len() };
    let start0 = if s >= MARGIN { s - MARGIN } else { 0 };
    let start = if start0 <= end { start0 } else { end };
    let mut text = String::new();
    let mut i = start;
    proof {
        assert(chars_of(schema@.subrange(start as int, start as int)) =~= Seq::<char>::empty());
    }
    while i < end
        invariant
            start <= i <= end,
            end <= schema@.len(),
            text@ == chars_of(schema@.subrange(start as int, i as int)),
        decreases end - i,
    {
        crate::text::push_char(&mut text, schema[i] as char);
        proof {
            assert(chars_of(schema@.subrange(start as int, i + 1)) =~= chars_of(
                schema@.subrange(start as int, i as int),
            ).push(schema@[i as int] as char));
        }
        i = i + 1;
    }
    ErrorExcerpt {
        cut_before: start > 0,
        cut_after: end < schema.len(),
        text,
        offset: if s >= start { s - start } else { 0 },
        carets: t - s,
    }
}

} // verus!
