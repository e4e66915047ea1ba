use vstd::prelude::*;
use crate::text::chars_of;
use crate::ast::{scalar_width, size_spec, Ast, AstKind, Len, Size};

verus! {

/// A decoded scalar. Floats are kept as their IEEE-754 bit patterns.
#[derive(Debug, Clone, Copy, PartialEq, Eq, Structural)]
pub enum Number {
    Int8(i8),
    Int16(i16),
    Int32(i32),
    UInt8(u8),
    UInt16(u16),
    UInt32(u32),
    Float32(u32),
    Float64(u64),
}

/// A decoded value: a scalar, a text, or an (initially empty) container.
#[derive(Debug, PartialEq, Eq)]
pub enum Value {
    Number(Number),
    String(String),
    Struct(Vec<Value>),
    Array(Vec<Value>),
}

/// Why decoding a buffer failed.
#[derive(Debug, Clone, PartialEq, Eq)]
pub enum DecodeError {
    /// The buffer ended before the value did.
    Truncated,
    /// An array length names a parameter with no value in scope.
    UnresolvedParameter(String),
    /// A parameter field holds a value that is no length: a negative
    /// number, a float or a text.
    InvalidParameterValue(String),
    /// An element of an unlimited array took no bytes, so the array would
    /// never end.
    StalledArray,
    /// Containers nest deeper than a level counter can count.
    NestingTooDeep,
}

/// The unsigned big-endian number that the bytes spell.
pub open spec fn be_nat(b: Seq<u8>) -> nat
    decreases b.len(),
{
    if b.len() == 0 {
        0
    } else {
        be_nat(b.drop_last()) * 256 + b.last() as nat
    }
}

/// `256` to the power `i`.
pub open spec fn pow256(i: nat) -> nat
    decreases i,
{
    if i == 0 {
        1
    } else {
        256 * pow256((i - 1) as nat)
    }
}

/// The two's-complement reading of an unsigned value `v` of `bits` bits.
pub open spec fn to_signed(v: nat, bits: nat) -> int {
    if v >= pow256((bits / 8) as nat) / 2 {
        v - pow256((bits / 8) as nat)
    } else {
        v as int
    }
}

/// The number of a scalar kind whose bytes are `b` (of the kind's width).
pub open spec fn number_of(k: AstKind, b: Seq<u8>) -> Number {
    let v = be_nat(b);
    match k {
        AstKind::Int8 => Number::Int8(to_signed(v, 8) as i8),
        AstKind::Int16 => Number::Int16(to_signed(v, 16) as i16),
        AstKind::Int32 => Number::Int32(to_signed(v, 32) as i32),
        AstKind::UInt8 => Number::UInt8(v as u8),
        AstKind::UInt16 => Number::UInt16(v as u16),
        AstKind::UInt32 => Number::UInt32(v as u32),
        AstKind::Float32 => Number::Float32(v as u32),
        _ => Number::Float64(v as u64),
    }
}

/// The offset of the first NUL byte at or after `pos`.
pub open spec fn nul_index(buf: Seq<u8>, pos: nat) -> Option<nat>
    decreases buf.len() - pos,
{
    if pos >= buf.len() {
        None
    } else if buf[pos as int] == 0 {
        Some(pos)
    } else {
        nul_index(buf, pos + 1)
    }
}

/// Where a cursor at `pos` ends after stepping over one node, without
/// going into a container.
pub open spec fn skip_spec(k: AstKind, buf: Seq<u8>, pos: nat) -> Option<nat> {
    match size_spec(k) {
        Size::Known(n) => if pos + n <= buf.len() {
            Some(pos + n as nat)
        } else {
            None
        },
        Size::Unknown => match nul_index(buf, pos) {
            Some(i) => Some(i + 1),
            None => None,
        },
        Size::Undefined => Some(pos),
    }
}

/// What reading a node at `pos` yields, and where the cursor ends.
pub open spec fn read_spec(k: AstKind, buf: Seq<u8>, pos: nat) -> Option<(ValueSpec, nat)> {
    match k {
        AstKind::Str => match nul_index(buf, pos) {
            Some(i) => Some(
                (ValueSpec::Text(lossy_text(buf.subrange(pos as int, i as int))), i + 1),
            ),
            None => None,
        },
        AstKind::NStr(n) => if pos + n <= buf.len() {
            Some((ValueSpec::Text(lossy_text(buf.subrange(pos as int, (pos + n) as int))), pos + n as nat))
        } else {
            None
        },
        AstKind::Struct(_) => Some((ValueSpec::EmptyStruct, pos)),
        AstKind::Array(_, _) => Some((ValueSpec::EmptyArray, pos)),
        _ => {
            let w = scalar_width(k).unwrap();
            if pos + w <= buf.len() {
                Some((ValueSpec::Number(number_of(k, buf.subrange(pos as int, (pos + w) as int))), pos + w))
            } else {
                None
            }
        },
    }
}

/// What a read gives, as plain values.
pub enum ValueSpec {
    Number(Number),
    Text(Seq<char>),
    EmptyStruct,
    EmptyArray,
}

impl Value {
    /// Whether this value is what `v` describes.
    pub open spec fn spec_eq(&self, v: ValueSpec) -> bool {
        match (*self, v) {
            (Value::Number(a), ValueSpec::Number(b)) => a == b,
            (Value::String(a), ValueSpec::Text(b)) => a@ == b,
            (Value::Struct(a), ValueSpec::EmptyStruct) => a@.len() == 0,
            (Value::Array(a), ValueSpec::EmptyArray) => a@.len() == 0,
            _ => false,
        }
    }
}

/// Where a cursor at `pos` ends after stepping over a whole tree, its
/// children and the elements of its fixed-length arrays included; `None`
/// where the buffer ends first or an array's length is not in the schema.
pub open spec fn skip_tree_spec(k: AstKind, buf: Seq<u8>, pos: nat) -> Option<nat>
    decreases k, 0int, 0int,
{
    match k {
        AstKind::Struct(children) => skip_fields_spec(children, 0, buf, pos),
        AstKind::Array(len, elem) => match len {
            Len::Fixed(n) => skip_elems_spec(*elem, n as nat, buf, pos),
            _ => None,
        },
        _ => skip_spec(k, buf, pos),
    }
}

pub open spec fn skip_fields_spec(children: Vec<Ast>, i: int, buf: Seq<u8>, pos: nat) -> Option<nat>
    decreases children, 0int, children@.len() - i,
{
    if i < 0 || i >= children@.len() {
        Some(pos)
    } else {
        match skip_tree_spec(children@[i].kind, buf, pos) {
            None => None,
            Some(q) => skip_fields_spec(children, i + 1, buf, q),
        }
    }
}

/// Steps over `n` more elements.
pub open spec fn skip_elems_spec(elem: Ast, n: nat, buf: Seq<u8>, pos: nat) -> Option<nat>
    decreases elem, 1int, n,
{
    if n == 0 {
        Some(pos)
    } else {
        match skip_tree_spec(elem.kind, buf, pos) {
            None => None,
            Some(q) => skip_elems_spec(elem, (n - 1) as nat, buf, q),
        }
    }
}

/// The name of what `String::from_utf8_lossy` makes of some bytes.
pub uninterp spec fn lossy_text(b: Seq<u8>) -> Seq<char>;

/// Relies on `String::from_utf8_lossy`: the text that the bytes encode,
/// with U+FFFD for each invalid sequence; a function of the bytes alone.
/// Valid UTF-8 comes back unchanged, so ASCII bytes give one character
/// each.
#[verifier::external_body]
fn utf8_lossy(b: &[u8]) -> (r: String)
    ensures
        r@ == lossy_text(b@),
        (forall|i: int| 0 <= i < b@.len() ==> #[trigger] b@[i] < 128) ==> r@ == chars_of(b@),
{
    String::from_utf8_lossy(b).into_owned()
}

proof fn lemma_be_step(b: Seq<u8>, i: int)
    requires
        0 <= i < b.len(),
    ensures
        be_nat(b.subrange(0, i + 1)) == be_nat(b.subrange(0, i)) * 256 + b[i],
{
    assert(b.subrange(0, i + 1).drop_last() =~= b.subrange(0, i));
}

proof fn lemma_pow256_bound(i: nat)
    requires
        i < 8,
    ensures
        pow256(i + 1) == 256 * pow256(i),
        256 * pow256(i) <= 0x1_0000_0000_0000_0000,
{
    reveal_with_fuel(pow256, 9);
    if i == 0 {
    } else if i == 1 {
    } else if i == 2 {
    } else if i == 3 {
    } else if i == 4 {
    } else if i == 5 {
    } else if i == 6 {
    } else {
    }
}

proof fn lemma_pow_step(v: nat, d: nat, p: nat)
    requires
        v < p,
        d < 256,
    ensures
        v * 256 + d < 256 * p,
{
    assert(v * 256 + d < 256 * p) by (nonlinear_arith)
        requires
            v < p,
            d < 256,
    ;
}

/// A cursor over a byte buffer that decodes values node by node.
pub struct BufWalker<'w> {
    buf: &'w [u8],
    pos: usize,
}

impl<'w> BufWalker<'w> {
    pub closed spec fn buf(&self) -> Seq<u8> {
        self.buf@
    }

    pub closed spec fn position(&self) -> nat {
        self.pos as nat
    }

    /// A cursor at the start of `buf`.
    pub fn new(buf: &'w [u8]) -> (r: Self)
        ensures
            r.buf() == buf@,
            r.position() == 0,
    {
        BufWalker { buf, pos: 0 }
    }

    /// The current offset.
    pub fn pos(&self) -> (r: usize)
        ensures
            r == self.position(),
    {
        self.pos
    }

    /// Moves the cursor to `pos`.
    pub fn set_pos(&mut self, pos: usize)
        ensures
            final(self).buf() == old(self).buf(),
            final(self).position() == pos,
    {
        self.pos = pos;
    }

    /// The length of the buffer.
    pub fn len(&self) -> (r: usize)
        ensures
            r == self.buf().len(),
    {
        self.buf.len()
    }

    /// Whether the cursor stands at the end of the buffer.
    pub fn reached_end(&self) -> (r: bool)
        ensures
            r == (self.position() == self.buf().len()),
    {
        self.pos == self.buf.len()
    }

    /// Reads `w` bytes as an unsigned big-endian number.
    fn read_be(&mut self, w: usize) -> (r: Result<u64, DecodeError>)
        requires
            1 <= w <= 8,
        ensures
            final(self).buf() == old(self).buf(),
            r matches Ok(v) ==> {
                &&& old(self).position() + w <= old(self).buf().len()
                &&& final(self).position() == old(self).position() + w
                &&& v == be_nat(
                    old(self).buf().subrange(
                        old(self).position() as int,
                        old(self).position() + w,
                    ),
                )
                &&& v < pow256(w as nat)
            },
            r is Err ==> old(self).position() + w > old(self).buf().len() && final(self).position()
                == old(self).position() && r == Err::<u64, DecodeError>(DecodeError::Truncated),
    {
        if self.pos > self.buf.len() || self.buf.len() - self.pos < w {
            return Err(DecodeError::Truncated);
        }
        let ghost b = self.buf@.subrange(self.pos as int, self.pos + w);
        let len = self.buf.len();
        let mut v: u64 = 0;
        let mut i: usize = 0;
        proof {
            assert(b.subrange(0, 0) =~= Seq::<u8>::empty());
        }
        while i < w
            invariant
                1 <= w <= 8,
                i <= w,
                self.pos + w <= self.buf@.len(),
                len == self.buf@.len(),
                b == self.buf@.subrange(self.pos as int, self.pos + w),
                v == be_nat(b.subrange(0, i as int)),
                v < pow256(i as nat),
            decreases w - i,
        {
            let d = self.buf[self.pos + i];
            proof {
                assert(d == b[i as int]);
                lemma_be_step(b, i as int);
                lemma_pow_step(v as nat, d as nat, pow256(i as nat));
                lemma_pow256_bound(i as nat);
            }
            v = v * 256 + d as u64;
            i = i + 1;
        }
        proof {
            assert(b.subrange(0, w as int) =~= b);
        }
        self.pos = self.pos + w;
        Ok(v)
    }

    /// Reads the scalar of kind `k` at the cursor, big-endian.
    pub fn read_number(&mut self, k: &AstKind) -> (r: Result<Number, DecodeError>)
        requires
            scalar_width(*k) is Some,
        ensures
            final(self).buf() == old(self).buf(),
            ({
                let w = scalar_width(*k).unwrap();
                let p = old(self).position();
                if p + w <= old(self).buf().len() {
                    &&& r == Ok::<Number, DecodeError>(
                        number_of(*k, old(self).buf().subrange(p as int, (p + w) as int)),
                    )
                    &&& final(self).position() == p + w
                } else {
                    &&& r == Err::<Number, DecodeError>(DecodeError::Truncated)
                    &&& final(self).position() == p
                }
            }),
    {
        proof {
            reveal_with_fuel(pow256, 5);
        }
        match k {
            AstKind::Int8 => {
                let v = self.read_be(1)?;
                let n: i8 = if v >= 128 {
                    (v as i16 - 256) as i8
                } else {
                    v as i8
                };
                Ok(Number::Int8(n))
            },
            AstKind::Int16 => {
                let v = self.read_be(2)?;
                let n: i16 = if v >= 32768 {
                    (v as i32 - 65536) as i16
                } else {
                    v as i16
                };
                Ok(Number::Int16(n))
            },
            AstKind::Int32 => {
                let v = self.read_be(4)?;
                let n: i32 = if v >= 0x8000_0000 {
                    (v as i64 - 0x1_0000_0000) as i32
                } else {
                    v as i32
                };
                Ok(Number::Int32(n))
            },
            AstKind::UInt8 => {
                let v = self.read_be(1)?;
                Ok(Number::UInt8(v as u8))
            },
            AstKind::UInt16 => {
                let v = self.read_be(2)?;
                Ok(Number::UInt16(v as u16))
            },
            AstKind::UInt32 => {
                let v = self.read_be(4)?;
                Ok(Number::UInt32(v as u32))
            },
            AstKind::Float32 => {
                let v = self.read_be(4)?;
                Ok(Number::Float32(v as u32))
            },
            _ => {
                let v = self.read_be(8)?;
                Ok(Number::Float64(v))
            },
        }
    }

    /// Reads the bytes up to the next NUL and steps past the NUL; the NUL
    /// is not part of the result.
    pub fn read_str(&mut self) -> (r: Result<Vec<u8>, DecodeError>)
        ensures
            final(self).buf() == old(self).buf(),
            match nul_index(old(self).buf(), old(self).position()) {
                Some(i) => (r matches Ok(b) && b@ == old(self).buf().subrange(
                    old(self).position() as int,
                    i as int,
                ) && final(self).position() == i + 1),
                None => r == Err::<Vec<u8>, DecodeError>(DecodeError::Truncated)
                    && final(self).position() == old(self).position(),
            },
    {
        if self.pos > self.buf.len() {
            return Err(DecodeError::Truncated);
        }
        let start = self.pos;
        let mut out: Vec<u8> = Vec::new();
        let mut i = self.pos;
        proof {
            assert(out@ =~= self.buf@.subrange(start as int, i as int));
        }
        while i < self.buf.len()
            invariant
                start == self.pos,
                start == old(self).position(),
                self.buf@ == old(self).buf(),
                start <= i <= self.buf@.len(),
                nul_index(self.buf@, start as nat) == nul_index(self.buf@, i as nat),
                out@ == self.buf@.subrange(start as int, i as int),
            decreases self.buf@.len() - i,
        {
            if self.buf[i] == 0 {
                self.pos = i + 1;
                return Ok(out);
            }
            out.push(self.buf[i]);
            proof {
                assert(out@ =~= self.buf@.subrange(start as int, i + 1));
            }
            i = i + 1;
        }
        Err(DecodeError::Truncated)
    }

    /// Reads exactly `n` bytes.
    pub fn read_nstr(&mut self, n: usize) -> (r: Result<Vec<u8>, DecodeError>)
        ensures
            final(self).buf() == old(self).buf(),
            old(self).position() + n <= old(self).buf().len() ==> (r matches Ok(b) && b@
                == old(self).buf().subrange(
                old(self).position() as int,
                old(self).position() + n,
            ) && final(self).position() == old(self).position() + n),
            old(self).position() + n > old(self).buf().len() ==> r == Err::<Vec<u8>, DecodeError>(
                DecodeError::Truncated,
            ) && final(self).position() == old(self).position(),
    {
        if self.pos > self.buf.len() || self.buf.len() - self.pos < n {
            return Err(DecodeError::Truncated);
        }
        let len = self.buf.len();
        let mut out: Vec<u8> = Vec::new();
        let mut i: usize = 0;
        proof {
            assert(out@ =~= self.buf@.subrange(self.pos as int, self.pos as int));
        }
        while i < n
            invariant
                self.pos + n <= self.buf@.len(),
                len == self.buf@.len(),
                self.buf@ == old(self).buf(),
                self.pos == old(self).position(),
                i <= n,
                out@ == self.buf@.subrange(self.pos as int, self.pos + i),
            decreases n - i,
        {
            out.push(self.buf[self.pos + i]);
            proof {
                assert(out@ =~= self.buf@.subrange(self.pos as int, self.pos + i + 1));
            }
            i = i + 1;
        }
        self.pos = self.pos + n;
        Ok(out)
    }

    /// Steps over the NUL-ended text at the cursor.
    pub fn skip_str(&mut self) -> (r: Result<(), DecodeError>)
        ensures
            final(self).buf() == old(self).buf(),
            match nul_index(old(self).buf(), old(self).position()) {
                Some(i) => r is Ok && final(self).position() == i + 1,
                None => r is Err && final(self).position() == old(self).position(),
            },
    {
        let mut i = self.pos;
        while i < self.buf.len()
            invariant
                old(self).position() <= i,
                self.pos == old(self).position(),
                self.buf@ == old(self).buf(),
                nul_index(self.buf@, self.pos as nat) == nul_index(self.buf@, i as nat),
            decreases self.buf@.len() - i,
        {
            if self.buf[i] == 0 {
                self.pos = i + 1;
                return Ok(());
            }
            i = i + 1;
        }
        Err(DecodeError::Truncated)
    }

    /// Steps over one node: its size where it is known, a NUL-ended text,
    /// or nothing for a container, whose children the caller walks.
    pub fn skip(&mut self, node: &Ast) -> (r: Result<(), DecodeError>)
        ensures
            final(self).buf() == old(self).buf(),
            match skip_spec(node.kind, old(self).buf(), old(self).position()) {
                Some(p) => r is Ok && final(self).position() == p,
                None => r is Err && final(self).position() == old(self).position(),
            },
    {
        match node.size() {
            Size::Known(n) => {
                if self.pos > self.buf.len() || self.buf.len() - self.pos < n {
                    return Err(DecodeError::Truncated);
                }
                self.pos = self.pos + n;
                Ok(())
            },
            Size::Unknown => self.skip_str(),
            Size::Undefined => Ok(()),
        }
    }

    /// Steps over a whole tree: its children, and each element of its
    /// fixed-length arrays; an array of any other length is refused as
    /// unresolved.
    pub fn skip_tree(&mut self, node: &Ast) -> (r: Result<(), DecodeError>)
        ensures
            final(self).buf() == old(self).buf(),
            match skip_tree_spec(node.kind, old(self).buf(), old(self).position()) {
                Some(p) => r is Ok && final(self).position() == p,
                None => r is Err,
            },
        decreases node.kind, 1int, 0int,
    {
        match &node.kind {
            AstKind::Struct(children) => {
                let mut i: usize = 0;
                while i < children.len()
                    invariant
                        i <= children@.len(),
                        node.kind == AstKind::Struct(*children),
                        self.buf() == old(self).buf(),
                        skip_tree_spec(node.kind, old(self).buf(), old(self).position())
                            == skip_fields_spec(*children, i as int, self.buf(), self.position()),
                    decreases children@.len() - i,
                {
                    proof {
                        assert(decreases_to!(node.kind => node.kind->Struct_0));
                        assert(decreases_to!(*children => children@[i as int]));
                        assert(decreases_to!(children@[i as int] => children@[i as int].kind));
                    }
                    self.skip_tree(&children[i])?;
                    i = i + 1;
                }
                Ok(())
            },
            AstKind::Array(len, elem) => match len {
                Len::Fixed(n) => {
                    let mut k: usize = *n;
                    while k > 0
                        invariant
                            k <= *n,
                            node.kind == AstKind::Array(*len, *elem),
                            self.buf() == old(self).buf(),
                            skip_tree_spec(node.kind, old(self).buf(), old(self).position())
                                == skip_elems_spec(**elem, k as nat, self.buf(), self.position()),
                        decreases k,
                    {
                        proof {
                            assert(decreases_to!(node.kind => node.kind->Array_1));
                            assert(decreases_to!(**elem => elem.kind));
                        }
                        self.skip_tree(elem)?;
                        k = k - 1;
                    }
                    Ok(())
                },
                Len::Variable(s) => Err(DecodeError::UnresolvedParameter(s.clone())),
                Len::Unlimited => Err(DecodeError::StalledArray),
            },
            _ => self.skip(node),
        }
    }

    /// Reads the value of one node: a scalar or a text, or an empty
    /// container that the caller fills.
    pub fn read(&mut self, node: &Ast) -> (r: Result<Value, DecodeError>)
        ensures
            final(self).buf() == old(self).buf(),
            read_spec(node.kind, old(self).buf(), old(self).position()) matches Some((v, p)) ==> (r
                is Ok && r->Ok_0.spec_eq(v) && final(self).position() == p),
            read_spec(node.kind, old(self).buf(), old(self).position()) is None ==> r
                == Err::<Value, DecodeError>(DecodeError::Truncated),
    {
        match &node.kind {
            AstKind::Str => {
                let b = self.read_str()?;
                Ok(Value::String(utf8_lossy(b.as_slice())))
            },
            AstKind::NStr(n) => {
                let b = self.read_nstr(*n)?;
                Ok(Value::String(utf8_lossy(b.as_slice())))
            },
            AstKind::Struct(_) => Ok(Value::Struct(Vec::new())),
            AstKind::Array(_, _) => Ok(Value::Array(Vec::new())),
            _ => {
                let n = self.read_number(&node.kind)?;
                Ok(Value::Number(n))
            },
        }
    }
}

} // verus!
