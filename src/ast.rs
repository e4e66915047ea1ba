use vstd::prelude::*;
use crate::param::ParamStack;
use crate::text::{dec_text, join};

verus! {

/// A parsed schema: the tree of fields and the table of the parameters
/// that array lengths refer to.
#[derive(Debug, PartialEq, Eq)]
pub struct Schema {
    pub ast: Ast,
    pub params: ParamStack,
}

/// One field of a schema: its name and what it holds. The root is named
/// with the empty string, and the element of an array with `[]`.
#[derive(Debug, PartialEq, Eq)]
pub struct Ast {
    pub kind: AstKind,
    pub name: String,
}

/// What a field holds.
#[derive(Debug, PartialEq, Eq)]
pub enum AstKind {
    Int8,
    Int16,
    Int32,
    UInt8,
    UInt16,
    UInt32,
    Float32,
    Float64,
    /// Text ended by a NUL byte.
    Str,
    /// Text of a fixed number of bytes.
    NStr(usize),
    Struct(Vec<Ast>),
    Array(Len, Box<Ast>),
}

/// The number of elements of an array.
#[derive(Debug, PartialEq, Eq)]
pub enum Len {
    Fixed(usize),
    /// The value of the named parameter when the array is decoded.
    Variable(String),
    /// As many elements as the buffer holds.
    Unlimited,
}

/// How many bytes a field takes in a buffer.
#[derive(Debug, PartialEq, Eq, Structural)]
pub enum Size {
    /// Always this many bytes.
    Known(usize),
    /// Depends on the bytes (text ended by a NUL).
    Unknown,
    /// Depends on the children or the length of the field.
    Undefined,
}

/// The kinds of failure in parsing a schema.
#[derive(Debug, Clone, Copy, PartialEq, Eq, Structural)]
pub enum SchemaParseErrorKind {
    UnexpectedEof,
    UnexpectedToken,
    UnknownBuiltinType,
    UnknownToken,
}

/// A half-open range of byte offsets in the schema text.
#[derive(Debug, Clone, Copy, PartialEq, Eq, Structural)]
pub struct Location(pub usize, pub usize);

/// A failure in parsing a schema, with the place where it happened.
#[derive(Debug, Clone, Copy, PartialEq, Eq, Structural)]
pub struct SchemaParseError {
    pub kind: SchemaParseErrorKind,
    pub location: Location,
}

/// The byte width of a fixed-width scalar kind.
pub open spec fn scalar_width(k: AstKind) -> Option<nat> {
    match k {
        AstKind::Int8 | AstKind::UInt8 => Some(1),
        AstKind::Int16 | AstKind::UInt16 => Some(2),
        AstKind::Int32 | AstKind::UInt32 | AstKind::Float32 => Some(4),
        AstKind::Float64 => Some(8),
        _ => None,
    }
}

/// The size class of a node.
pub open spec fn size_spec(k: AstKind) -> Size {
    match k {
        AstKind::Str => Size::Unknown,
        AstKind::NStr(n) => Size::Known(n),
        AstKind::Struct(_) | AstKind::Array(_, _) => Size::Undefined,
        _ => Size::Known(scalar_width(k).unwrap() as usize),
    }
}

impl Ast {
    /// How many bytes this field takes, where the field alone decides.
    pub fn size(&self) -> (r: Size)
        ensures
            r == size_spec(self.kind),
    {
        match self.kind {
            AstKind::Int8 => Size::Known(1),
            AstKind::Int16 => Size::Known(2),
            AstKind::Int32 => Size::Known(4),
            AstKind::UInt8 => Size::Known(1),
            AstKind::UInt16 => Size::Known(2),
            AstKind::UInt32 => Size::Known(4),
            AstKind::Float32 => Size::Known(4),
            AstKind::Float64 => Size::Known(8),
            AstKind::Str => Size::Unknown,
            AstKind::NStr(n) => Size::Known(n),
            AstKind::Struct(_) => Size::Undefined,
            AstKind::Array(_, _) => Size::Undefined,
        }
    }
}

/// The number of bytes a tree of fixed-size fields takes: `None` where a
/// field has no fixed size (a NUL-ended text, an array whose length is not
/// written in the schema) or the total does not fit in `usize`.
pub open spec fn fixed_size(k: AstKind) -> Option<usize>
    decreases k, 0int, 0int,
{
    match k {
        AstKind::Str => None,
        AstKind::NStr(n) => Some(n),
        AstKind::Struct(children) => fixed_size_fields(children, 0),
        AstKind::Array(len, elem) => match (len, fixed_size(elem.kind)) {
            (Len::Fixed(n), Some(s)) => if n * s <= usize::MAX {
                Some((n * s) as usize)
            } else {
                None
            },
            _ => None,
        },
        _ => Some(scalar_width(k).unwrap() as usize),
    }
}

/// The summed fixed sizes of the fields `i..`.
pub open spec fn fixed_size_fields(children: Vec<Ast>, i: int) -> Option<usize>
    decreases children, 0int, children@.len() - i,
{
    if i < 0 || i >= children@.len() {
        Some(0)
    } else {
        match (fixed_size(children@[i].kind), fixed_size_fields(children, i + 1)) {
            (Some(a), Some(b)) => if a + b <= usize::MAX {
                Some((a + b) as usize)
            } else {
                None
            },
            _ => None,
        }
    }
}

impl Ast {
    /// The number of bytes this tree takes when every field in it has a
    /// fixed size.
    pub fn fixed_size(&self) -> (r: Option<usize>)
        ensures
            r == fixed_size(self.kind),
    {
        kind_fixed_size(&self.kind)
    }
}

fn kind_fixed_size(k: &AstKind) -> (r: Option<usize>)
    ensures
        r == fixed_size(*k),
    decreases *k, 1int, 0int,
{
    match k {
        AstKind::Str => None,
        AstKind::NStr(n) => Some(*n),
        AstKind::Struct(children) => {
            let mut total: usize = 0;
            let mut i = children.len();
            while i > 0
                invariant
                    i <= children@.len(),
                    *k == AstKind::Struct(*children),
                    fixed_size_fields(*children, i as int) == Some(total),
                    fixed_size(*k) == fixed_size_fields(*children, 0),
                decreases i,
            {
                i = i - 1;
                proof {
                    assert(decreases_to!(*k => k->Struct_0));
                    assert(decreases_to!(*children => children@[i as int]));
                }
                match kind_fixed_size(&children[i].kind) {
                    Some(a) => {
                        if a > usize::MAX - total {
                            proof {
                                lemma_fields_none(*children, i as int);
                            }
                            return None;
                        }
                        total = a + total;
                    },
                    None => {
                        proof {
                            lemma_fields_none(*children, i as int);
                        }
                        return None;
                    },
                }
            }
            Some(total)
        },
        AstKind::Array(len, elem) => match len {
            Len::Fixed(n) => match kind_fixed_size(&elem.kind) {
                Some(s) => n.checked_mul(s),
                None => None,
            },
            _ => None,
        },
        AstKind::Int8 | AstKind::UInt8 => Some(1),
        AstKind::Int16 | AstKind::UInt16 => Some(2),
        AstKind::Int32 | AstKind::UInt32 | AstKind::Float32 => Some(4),
        AstKind::Float64 => Some(8),
    }
}

/// Once the fields from `i` on have no size, neither do those from an
/// earlier field on.
proof fn lemma_fields_none(children: Vec<Ast>, i: int)
    requires
        0 <= i < children@.len(),
        fixed_size_fields(children, i) is None,
    ensures
        fixed_size_fields(children, 0) is None,
    decreases i,
{
    if i > 0 {
        lemma_fields_none(children, i - 1);
    }
}

/// The keyword of a builtin kind.
pub open spec fn builtin_text(k: AstKind) -> Seq<char> {
    match k {
        AstKind::Int8 => "INT8"@,
        AstKind::Int16 => "INT16"@,
        AstKind::Int32 => "INT32"@,
        AstKind::UInt8 => "UINT8"@,
        AstKind::UInt16 => "UINT16"@,
        AstKind::UInt32 => "UINT32"@,
        AstKind::Float32 => "FLOAT32"@,
        AstKind::Float64 => "FLOAT64"@,
        _ => "STR"@,
    }
}

/// How an array length is written.
pub open spec fn len_text(len: Len) -> Seq<char> {
    match len {
        Len::Fixed(n) => seq!['{'] + dec_text(n as nat) + seq!['}'],
        Len::Variable(s) => seq!['{'] + s@ + seq!['}'],
        Len::Unlimited => seq!['+'],
    }
}

/// The name part of a field: `name:`, or nothing for an array element.
pub open spec fn name_text(name: Seq<char>) -> Seq<char> {
    if name == "[]"@ {
        Seq::empty()
    } else {
        name + seq![':']
    }
}

/// How a kind is written in the schema language.
pub open spec fn type_text(k: AstKind) -> Seq<char>
    decreases k, 0int,
{
    match k {
        AstKind::NStr(n) => seq!['<'] + dec_text(n as nat) + ">NSTR"@,
        AstKind::Struct(children) => seq!['['] + fields_join(children, children@.len() as int)
            + seq![']'],
        AstKind::Array(len, elem) => len_text(len) + type_text(elem.kind),
        _ => builtin_text(k),
    }
}

/// The first `n` fields of `children`, written and joined by commas.
pub open spec fn fields_join(children: Vec<Ast>, n: int) -> Seq<char>
    decreases children, n,
{
    if n <= 0 || n > children@.len() {
        Seq::empty()
    } else if n == 1 {
        name_text(children@[0].name@) + type_text(children@[0].kind)
    } else {
        fields_join(children, n - 1) + seq![','] + name_text(children@[n - 1].name@) + type_text(
            children@[n - 1].kind,
        )
    }
}

/// The text of one field.
pub open spec fn field_text(a: Ast) -> Seq<char> {
    name_text(a.name@) + type_text(a.kind)
}

/// The texts of a list of fields.
pub open spec fn field_texts(s: Seq<Ast>) -> Seq<Seq<char>> {
    Seq::new(s.len(), |i: int| field_text(s[i]))
}

/// The one-line schema text of a root node: its fields joined by commas,
/// with no brackets around them.
pub open spec fn schema_text(root: Ast) -> Seq<char> {
    match root.kind {
        AstKind::Struct(children) => join(field_texts(children@), seq![',']),
        _ => field_text(root),
    }
}

} // verus!
