use vstd::prelude::*;
use crate::ast::{Ast, Schema};
use crate::grammar::wf_root;
use crate::error::Error;
use crate::options::{DataReaderOptions, ENABLE_READING_BODY, IGNORE_DATA_SIZE_FIELD};
use crate::parser::{is_strict, parse_with};
use crate::ast::schema_text;
use crate::text::chars_of;

verus! {

/// The offset just past the first `WN\n` at or after `i`.
pub open spec fn magic_from(input: Seq<u8>, i: nat) -> Option<nat>
    decreases input.len() - i,
{
    if i + 3 > input.len() {
        None
    } else if input[i as int] == 87 && input[i + 1int] == 78 && input[i + 2int] == 10 {
        Some(i + 3)
    } else {
        magic_from(input, i + 1)
    }
}

/// The offset of the first newline at or after `i`.
pub open spec fn newline_from(input: Seq<u8>, i: nat) -> Option<nat>
    decreases input.len() - i,
{
    if i >= input.len() {
        None
    } else if input[i as int] == 10 {
        Some(i)
    } else {
        newline_from(input, i + 1)
    }
}

/// The logical header line at `p`: physical lines ending in a backslash
/// are joined with the next one, the backslash and newline left out.
/// Gives the line's bytes and the offset after it; `None` where the input
/// ends before a newline.
pub open spec fn logical_line(input: Seq<u8>, p: nat) -> Option<(Seq<u8>, nat)>
    decreases input.len() - p,
{
    match newline_from(input, p) {
        None => None,
        Some(j) => {
            if j > p && input[j - 1int] == 92 {
                if j + 1 > input.len() {
                    None
                } else {
                    match logical_line(input, j + 1) {
                        None => None,
                        Some((rest, next)) => Some(
                            (input.subrange(p as int, j - 1int) + rest, next),
                        ),
                    }
                }
            } else {
                Some((input.subrange(p as int, j as int), j + 1))
            }
        },
    }
}

/// The offset of the first `=` at or after `i` in `line`.
pub open spec fn eq_from(line: Seq<u8>, i: nat) -> Option<nat>
    decreases line.len() - i,
{
    if i >= line.len() {
        None
    } else if line[i as int] == 61 {
        Some(i)
    } else {
        eq_from(line, i + 1)
    }
}

/// A line split at its first `=` into key and value.
pub open spec fn split_field(line: Seq<u8>) -> Option<(Seq<u8>, Seq<u8>)> {
    match eq_from(line, 0) {
        None => None,
        Some(k) => Some((line.subrange(0, k as int), line.subrange(k + 1int, line.len() as int))),
    }
}

/// The header fields from `p` on, appended to `acc`, and the offset of the
/// body after the separator `0x04 0x1a`.
pub open spec fn header_from(input: Seq<u8>, p: nat, acc: Seq<(Seq<u8>, Seq<u8>)>) -> Result<
    (Seq<(Seq<u8>, Seq<u8>)>, nat),
    Error,
>
    decreases input.len() - p,
{
    if p + 2 > input.len() {
        Err(Error::HeaderEof)
    } else if input[p as int] == 4 && input[p + 1int] == 26 {
        Ok((acc, p + 2))
    } else {
        match logical_line(input, p) {
            None => Err(Error::HeaderEof),
            Some((line, next)) => match split_field(line) {
                None => Err(Error::InvalidHeaderLine),
                Some(kv) => if next <= p || next > input.len() {
                    Err(Error::HeaderEof)
                } else {
                    header_from(input, next, upsert(acc, kv))
                },
            },
        }
    }
}

/// The position of the first field named `k` from `i` on.
pub open spec fn key_index(s: Seq<(Seq<u8>, Seq<u8>)>, k: Seq<u8>, i: int) -> Option<int>
    decreases s.len() - i,
{
    if i < 0 || i >= s.len() {
        None
    } else if s[i].0 == k {
        Some(i)
    } else {
        key_index(s, k, i + 1)
    }
}

/// The fields with `kv` set: its value replaces that of a field with the
/// same key, else it is added at the end.
pub open spec fn upsert(s: Seq<(Seq<u8>, Seq<u8>)>, kv: (Seq<u8>, Seq<u8>)) -> Seq<
    (Seq<u8>, Seq<u8>),
> {
    match key_index(s, kv.0, 0) {
        Some(i) => s.update(i, kv),
        None => s.push(kv),
    }
}

/// No two fields have the same key.
pub open spec fn keys_distinct(s: Seq<(Seq<u8>, Seq<u8>)>) -> bool {
    forall|i: int, j: int| 0 <= i < j < s.len() ==> s[i].0 != s[j].0
}

proof fn lemma_key_index(s: Seq<(Seq<u8>, Seq<u8>)>, k: Seq<u8>, i: int)
    requires
        0 <= i <= s.len(),
    ensures
        key_index(s, k, i) matches Some(j) ==> i <= j < s.len() && s[j].0 == k,
        key_index(s, k, i) is None ==> forall|j: int| i <= j < s.len() ==> s[j].0 != k,
    decreases s.len() - i,
{
    if i < s.len() {
        lemma_key_index(s, k, i + 1);
    }
}

proof fn lemma_upsert_distinct(s: Seq<(Seq<u8>, Seq<u8>)>, kv: (Seq<u8>, Seq<u8>))
    requires
        keys_distinct(s),
    ensures
        keys_distinct(upsert(s, kv)),
{
    lemma_key_index(s, kv.0, 0);
}

proof fn lemma_header_distinct(input: Seq<u8>, p: nat, acc: Seq<(Seq<u8>, Seq<u8>)>)
    requires
        keys_distinct(acc),
    ensures
        header_from(input, p, acc) matches Ok((f, _)) ==> keys_distinct(f),
    decreases input.len() - p,
{
    if p + 2 > input.len() {
    } else if input[p as int] == 4 && input[p + 1int] == 26 {
    } else {
        match logical_line(input, p) {
            None => {},
            Some((line, next)) => match split_field(line) {
                None => {},
                Some(kv) => if next <= p || next > input.len() {
                } else {
                    lemma_upsert_distinct(acc, kv);
                    lemma_header_distinct(input, next, upsert(acc, kv));
                },
            },
        }
    }
}

/// The value of the last field named `key`: a later line overrides an
/// earlier one.
pub open spec fn lookup(fields: Seq<(Seq<u8>, Seq<u8>)>, key: Seq<u8>) -> Option<Seq<u8>>
    decreases fields.len(),
{
    if fields.len() == 0 {
        None
    } else if fields.last().0 == key {
        Some(fields.last().1)
    } else {
        lookup(fields.drop_last(), key)
    }
}

pub open spec fn is_digit_byte(b: u8) -> bool {
    48 <= b <= 57
}

/// The value of a string of decimal digits.
pub open spec fn digits_value(b: Seq<u8>) -> nat
    decreases b.len(),
{
    if b.len() == 0 {
        0
    } else {
        digits_value(b.drop_last()) * 10 + (b.last() - 48) as nat
    }
}

/// The digits of a `data_size` value, after an optional `+`.
pub open spec fn size_digits(b: Seq<u8>) -> Seq<u8> {
    if b.len() > 0 && b[0] == 43 {
        b.subrange(1, b.len() as int)
    } else {
        b
    }
}

pub open spec fn all_digits(d: Seq<u8>) -> bool {
    forall|i: int| 0 <= i < d.len() ==> is_digit_byte(#[trigger] d[i])
}

/// A `data_size` value: an optional `+`, then one or more decimal digits,
/// whose value fits in `usize`.
pub open spec fn size_value(b: Seq<u8>) -> Option<usize> {
    let d = size_digits(b);
    if d.len() > 0 && all_digits(d) && digits_value(d) <= usize::MAX {
        Some(digits_value(d) as usize)
    } else {
        None
    }
}

/// The name of what gzip-decoding some bytes gives: the decoded bytes, or
/// `None` where the data is not a valid gzip stream.
pub uninterp spec fn gzip_decoded(b: Seq<u8>) -> Option<Seq<u8>>;

/// The name of what bzip2-decoding some bytes gives: the decoded bytes, or
/// `None` where the data is not a valid bzip2 stream.
pub uninterp spec fn bzip2_decoded(b: Seq<u8>) -> Option<Seq<u8>>;

/// Relies on `flate2::read::GzDecoder` read to the end: the result is a
/// function of the compressed bytes alone.
#[verifier::external_body]
fn gunzip(b: &[u8]) -> (r: Result<Vec<u8>, String>)
    ensures
        r is Ok <==> gzip_decoded(b@) is Some,
        r matches Ok(v) ==> v@ == gzip_decoded(b@)->0,
{
    let mut decoded = Vec::new();
    let mut reader = flate2::read::GzDecoder::new(b);
    match std::io::Read::read_to_end(&mut reader, &mut decoded) {
        Ok(_) => Ok(decoded),
        Err(e) => Err(e.to_string()),
    }
}

/// Relies on `bzip2::read::BzDecoder` read to the end: the result is a
/// function of the compressed bytes alone.
#[verifier::external_body]
fn bunzip2(b: &[u8]) -> (r: Result<Vec<u8>, String>)
    ensures
        r is Ok <==> bzip2_decoded(b@) is Some,
        r matches Ok(v) ==> v@ == bzip2_decoded(b@)->0,
{
    let mut decoded = Vec::new();
    let mut reader = bzip2::read::BzDecoder::new(b);
    match std::io::Read::read_to_end(&mut reader, &mut decoded) {
        Ok(_) => Ok(decoded),
        Err(e) => Err(e.to_string()),
    }
}

pub open spec fn format_key() -> Seq<u8> {
    seq![102u8, 111u8, 114u8, 109u8, 97u8, 116u8]
}

pub open spec fn data_size_key() -> Seq<u8> {
    seq![100u8, 97u8, 116u8, 97u8, 95u8, 115u8, 105u8, 122u8, 101u8]
}

pub open spec fn compress_type_key() -> Seq<u8> {
    seq![99u8, 111u8, 109u8, 112u8, 114u8, 101u8, 115u8, 115u8, 95u8, 116u8, 121u8, 112u8, 101u8]
}

pub open spec fn gzip_name() -> Seq<u8> {
    seq![103u8, 122u8, 105u8, 112u8]
}

pub open spec fn bzip2_name() -> Seq<u8> {
    seq![98u8, 122u8, 105u8, 112u8, 50u8]
}

/// The header fields of a container, in the order of their lines.
pub struct FieldMap {
    entries: Vec<(Vec<u8>, Vec<u8>)>,
}

impl View for FieldMap {
    type V = Seq<(Seq<u8>, Seq<u8>)>;

    closed spec fn view(&self) -> Seq<(Seq<u8>, Seq<u8>)> {
        self.entries@.map_values(|e: (Vec<u8>, Vec<u8>)| (e.0@, e.1@))
    }
}

impl FieldMap {
    /// Sets the field `k` to `v`: a field of that key keeps its place and
    /// takes the new value, else the field is added at the end.
    fn set_field(&mut self, k: Vec<u8>, v: Vec<u8>)
        ensures
            final(self)@ == upsert(old(self)@, (k@, v@)),
    {
        let ghost s = self@;
        let mut i: usize = 0;
        while i < self.entries.len()
            invariant
                s == self@,
                s == old(self)@,
                i <= self.entries@.len(),
                key_index(s, k@, 0) == key_index(s, k@, i as int),
            decreases self.entries@.len() - i,
        {
            if bytes_eq(self.entries[i].0.as_slice(), k.as_slice()) {
                assert(s[i as int].0 == k@);
                self.entries.set(i, (k, v));
                assert(self@ =~= upsert(s, (k@, v@)));
                return;
            }
            assert(s[i as int].0 != k@);
            i = i + 1;
        }
        self.entries.push((k, v));
        assert(self@ =~= upsert(s, (k@, v@)));
    }

    /// The `(key, value)` pairs, one per key: where a key comes on several
    /// lines, the last line's value.
    pub fn inner(&self) -> (r: &Vec<(Vec<u8>, Vec<u8>)>)
        ensures
            r@.len() == self@.len(),
            forall|i: int| 0 <= i < r@.len() ==> (#[trigger] r@[i]).0@ == self@[i].0 && r@[i].1@ == self@[i].1,
    {
        &self.entries
    }

    /// The value of the field named `name`.
    pub fn get_field(&self, name: &[u8]) -> (r: Option<&Vec<u8>>)
        ensures
            match lookup(self@, name@) {
                None => r is None,
                Some(v) => r matches Some(x) && x@ == v,
            },
    {
        let mut i = self.entries.len();
        proof {
            assert(self@.subrange(0, i as int) =~= self@);
        }
        while i > 0
            invariant
                i <= self.entries@.len(),
                lookup(self@, name@) == lookup(self@.subrange(0, i as int), name@),
            decreases i,
        {
            proof {
                assert(self@.subrange(0, i as int).drop_last() =~= self@.subrange(0, i - 1));
            }
            if bytes_eq(self.entries[i - 1].0.as_slice(), name) {
                return Some(&self.entries[i - 1].1);
            }
            i = i - 1;
        }
        None
    }
}

fn bytes_eq(a: &[u8], b: &[u8]) -> (r: bool)
    ensures
        r == (a@ == b@),
{
    if a.len() != b.len() {
        return false;
    }
    let mut i: usize = 0;
    while i < a.len()
        invariant
            a@.len() == b@.len(),
            i <= a@.len(),
            forall|j: int| 0 <= j < i ==> a@[j] == b@[j],
        decreases a@.len() - i,
    {
        if a[i] != b[i] {
            return false;
        }
        i = i + 1;
    }
    assert(a@ =~= b@);
    true
}

/// Finds the end of the first `WN\n`; what comes before it is skipped.
fn find_magic(input: &[u8]) -> (r: Result<usize, Error>)
    ensures
        match magic_from(input@, 0) {
            Some(k) => r matches Ok(x) && x as nat == k,
            None => r == Err::<usize, Error>(Error::MagicNotFound),
        },
{
    let mut i: usize = 0;
    while i < input.len() && input.len() - i >= 3
        invariant
            magic_from(input@, 0) == magic_from(input@, i as nat),
        decreases input@.len() - i,
    {
        if input[i] == 87 && input[i + 1] == 78 && input[i + 2] == 10 {
            return Ok(i + 3);
        }
        i = i + 1;
    }
    Err(Error::MagicNotFound)
}

/// Appends `input[a..b]` to `out`.
fn extend_range(out: &mut Vec<u8>, input: &[u8], a: usize, b: usize)
    requires
        a <= b <= input@.len(),
    ensures
        final(out)@ == old(out)@ + input@.subrange(a as int, b as int),
{
    let mut i = a;
    let ghost start = out@;
    while i < b
        invariant
            a <= i <= b,
            b <= input@.len(),
            out@ == start + input@.subrange(a as int, i as int),
        decreases b - i,
    {
        out.push(input[i]);
        proof {
            assert(start + input@.subrange(a as int, i + 1) =~= (start + input@.subrange(
                a as int,
                i as int,
            )).push(input@[i as int]));
        }
        i = i + 1;
    }
}

/// Reads the logical header line at `p`.
fn read_line(input: &[u8], p: usize) -> (r: Option<(Vec<u8>, usize)>)
    ensures
        match logical_line(input@, p as nat) {
            None => r is None,
            Some((l, n)) => r matches Some((v, m)) && v@ == l && m == n,
        },
{
    if p >= input.len() {
        return None;
    }
    let mut acc: Vec<u8> = Vec::new();
    let mut q = p;
    proof {
        assert(acc@ =~= Seq::<u8>::empty());
        match logical_line(input@, p as nat) {
            None => {},
            Some((rest, n)) => {
                assert(acc@ + rest =~= rest);
            },
        }
    }
    loop
        invariant
            p <= q <= input@.len(),
            logical_line(input@, p as nat) == match logical_line(input@, q as nat) {
                None => None,
                Some((rest, n)) => Some((acc@ + rest, n)),
            },
        decreases input@.len() - q,
    {
        let mut j = q;
        while j < input.len() && input[j] != 10
            invariant
                q <= j <= input@.len(),
                newline_from(input@, q as nat) == newline_from(input@, j as nat),
            decreases input@.len() - j,
        {
            j = j + 1;
        }
        if j >= input.len() {
            return None;
        }
        if j > q && input[j - 1] == 92 {
            let ghost before = acc@;
            extend_range(&mut acc, input, q, j - 1);
            proof {
                match logical_line(input@, (j + 1) as nat) {
                    None => {},
                    Some((rest, n)) => {
                        assert(before + (input@.subrange(q as int, j - 1) + rest) =~= acc@ + rest);
                    },
                }
            }
            q = j + 1;
        } else {
            let ghost before = acc@;
            extend_range(&mut acc, input, q, j);
            proof {
                assert(before + input@.subrange(q as int, j as int) =~= acc@);
            }
            return Some((acc, j + 1));
        }
    }
}

/// Splits a line at its first `=`.
fn split_line(line: &Vec<u8>) -> (r: Option<(Vec<u8>, Vec<u8>)>)
    ensures
        match split_field(line@) {
            None => r is None,
            Some((k, v)) => r matches Some((a, b)) && a@ == k && b@ == v,
        },
{
    let mut i: usize = 0;
    while i < line.len() && line[i] != 61
        invariant
            i <= line@.len(),
            eq_from(line@, 0) == eq_from(line@, i as nat),
        decreases line@.len() - i,
    {
        i = i + 1;
    }
    if i >= line.len() {
        return None;
    }
    let mut key: Vec<u8> = Vec::new();
    let mut value: Vec<u8> = Vec::new();
    extend_range(&mut key, line.as_slice(), 0, i);
    extend_range(&mut value, line.as_slice(), i + 1, line.len());
    proof {
        assert(key@ =~= line@.subrange(0, i as int));
        assert(value@ =~= line@.subrange(i + 1, line@.len() as int));
    }
    Some((key, value))
}

/// Reads header lines from `p` up to the separator `0x04 0x1a`; gives the
/// fields and the offset of the body.
fn read_header_fields(input: &[u8], p: usize) -> (r: Result<(FieldMap, usize), Error>)
    ensures
        match header_from(input@, p as nat, Seq::empty()) {
            Ok((f, b)) => r matches Ok((m, q)) && m@ == f && q == b,
            Err(e) => r == Err::<(FieldMap, usize), Error>(e),
        },
        r matches Ok((m, _)) ==> keys_distinct(m@),
{
    proof {
        lemma_header_distinct(input@, p as nat, Seq::empty());
    }
    let mut map = FieldMap { entries: Vec::new() };
    let mut q = p;
    proof {
        assert(map@ =~= Seq::<(Seq<u8>, Seq<u8>)>::empty());
    }
    loop
        invariant
            header_from(input@, p as nat, Seq::empty()) == header_from(input@, q as nat, map@),
            header_from(input@, p as nat, Seq::empty()) matches Ok((f, _)) ==> keys_distinct(f),
        decreases input@.len() - q,
    {
        if q > input.len() || input.len() - q < 2 {
            return Err(Error::HeaderEof);
        }
        if input[q] == 4 && input[q + 1] == 26 {
            return Ok((map, q + 2));
        }
        match read_line(input, q) {
            None => {
                return Err(Error::HeaderEof);
            },
            Some((line, next)) => match split_line(&line) {
                None => {
                    return Err(Error::InvalidHeaderLine);
                },
                Some((k, v)) => {
                    if next <= q || next > input.len() {
                        return Err(Error::HeaderEof);
                    }
                    map.set_field(k, v);
                    q = next;
                },
            },
        }
    }
}

/// Parses a `data_size` value.
fn parse_size(b: &Vec<u8>) -> (r: Option<usize>)
    ensures
        r == size_value(b@),
{
    let start: usize = if b.len() > 0 && b[0] == 43 { 1 } else { 0 };
    let ghost d = b@.subrange(start as int, b@.len() as int);
    proof {
        if start == 0 {
            assert(d =~= b@);
        }
        assert(d == size_digits(b@));
    }
    if start >= b.len() {
        return None;
    }
    let mut k = start;
    while k < b.len()
        invariant
            start <= k <= b@.len(),
            d == b@.subrange(start as int, b@.len() as int),
            d == size_digits(b@),
            forall|j: int| 0 <= j < k - start ==> is_digit_byte(#[trigger] d[j]),
        decreases b@.len() - k,
    {
        if b[k] < 48 || b[k] > 57 {
            proof {
                assert(d[k - start] == b@[k as int]);
                assert(!is_digit_byte(d[k - start]));
                assert(!all_digits(d));
            }
            return None;
        }
        proof {
            assert(d[k - start] == b@[k as int]);
        }
        k = k + 1;
    }
    let mut v: usize = 0;
    let mut i = start;
    proof {
        assert(d.subrange(0, 0) =~= Seq::<u8>::empty());
    }
    while i < b.len()
        invariant
            start <= i <= b@.len(),
            d == b@.subrange(start as int, b@.len() as int),
            d == size_digits(b@),
            v == digits_value(d.subrange(0, i - start)),
            forall|j: int| 0 <= j < d.len() ==> is_digit_byte(#[trigger] d[j]),
        decreases b@.len() - i,
    {
        let c = b[i];
        proof {
            assert(d[i - start] == c);
            assert(d.subrange(0, i + 1 - start).drop_last() =~= d.subrange(0, i - start));
        }
        if v > (usize::MAX - (c - 48) as usize) / 10 {
            proof {
                lemma_digits_grow(d, (i + 1 - start) as int);
                let cd = (c - 48) as usize;
                assert(v * 10 + cd > usize::MAX) by (nonlinear_arith)
                    requires
                        v > (usize::MAX - cd) / 10,
                        cd <= 9,
                ;
                assert(digits_value(d) > usize::MAX);
            }
            return None;
        }
        v = v * 10 + (c - 48) as usize;
        i = i + 1;
    }
    proof {
        assert(d.subrange(0, d.len() as int) =~= d);
    }
    Some(v)
}

/// The body bytes before decompression: all the rest where the size
/// field is ignored, else its first `size` bytes; `None` where fewer are
/// there.
pub open spec fn raw_body(rest: Seq<u8>, size: nat, ignore: bool) -> Option<Seq<u8>> {
    if ignore {
        Some(rest)
    } else if rest.len() < size {
        None
    } else {
        Some(rest.subrange(0, size as int))
    }
}

/// What a body read gives: the raw body decoded as `compress` says.
pub open spec fn body_matches(
    raw: Seq<u8>,
    compress: Option<Seq<u8>>,
    r: Result<Vec<u8>, Error>,
) -> bool {
    match compress {
        None => r matches Ok(v) && v@ == raw,
        Some(c) => if c == gzip_name() {
            match gzip_decoded(raw) {
                Some(d) => r matches Ok(v) && v@ == d,
                None => r matches Err(Error::GzipFailed(_)),
            }
        } else if c == bzip2_name() {
            match bzip2_decoded(raw) {
                Some(d) => r matches Ok(v) && v@ == d,
                None => r matches Err(Error::Bzip2Failed(_)),
            }
        } else {
            r matches Err(Error::UnknownCompressType(v)) && v@ == c
        },
    }
}

fn copy_bytes(b: &Vec<u8>) -> (r: Vec<u8>)
    ensures
        r@ == b@,
{
    let mut out: Vec<u8> = Vec::new();
    extend_range(&mut out, b.as_slice(), 0, b.len());
    proof {
        assert(out@ =~= b@);
    }
    out
}

/// Reads the body from `start` on: checks it against `size` unless told to
/// ignore that, then decompresses it as `compress` names.
fn read_body(
    input: &[u8],
    start: usize,
    size: usize,
    compress: Option<&Vec<u8>>,
    ignore: bool,
) -> (r: Result<Vec<u8>, Error>)
    requires
        start <= input@.len(),
    ensures
        ({
            let rest = input@.subrange(start as int, input@.len() as int);
            match raw_body(rest, size as nat, ignore) {
                None => r == Err::<Vec<u8>, Error>(
                    Error::BodyTooShort { read: rest.len() as usize, expected: size },
                ),
                Some(raw) => body_matches(
                    raw,
                    match compress {
                        None => None,
                        Some(c) => Some(c@),
                    },
                    r,
                ),
            }
        }),
{
    let n = input.len() - start;
    let end = if ignore {
        input.len()
    } else {
        if n < size {
            return Err(Error::BodyTooShort { read: n, expected: size });
        }
        start + size
    };
    let mut raw: Vec<u8> = Vec::new();
    extend_range(&mut raw, input, start, end);
    proof {
        let rest = input@.subrange(start as int, input@.len() as int);
        assert(raw@ =~= raw_body(rest, size as nat, ignore)->0);
    }
    match compress {
        None => Ok(raw),
        Some(c) => {
            let gz: Vec<u8> = vec![103u8, 122u8, 105u8, 112u8];
            let bz: Vec<u8> = vec![98u8, 122u8, 105u8, 112u8, 50u8];
            assert(gz@ =~= gzip_name());
            assert(bz@ =~= bzip2_name());
            if bytes_eq(c.as_slice(), gz.as_slice()) {
                match gunzip(raw.as_slice()) {
                    Ok(v) => Ok(v),
                    Err(m) => Err(Error::GzipFailed(m)),
                }
            } else if bytes_eq(c.as_slice(), bz.as_slice()) {
                match bunzip2(raw.as_slice()) {
                    Ok(v) => Ok(v),
                    Err(m) => Err(Error::Bzip2Failed(m)),
                }
            } else {
                Err(Error::UnknownCompressType(copy_bytes(c)))
            }
        },
    }
}

/// The header fields of a container and the offset of its body.
pub open spec fn container_header(input: Seq<u8>) -> Result<(Seq<(Seq<u8>, Seq<u8>)>, nat), Error> {
    match magic_from(input, 0) {
        None => Err(Error::MagicNotFound),
        Some(m) => header_from(input, m, Seq::empty()),
    }
}

/// Reads a container held in memory: the magic line, the header fields,
/// and the body.
pub struct DataReader<'a> {
    inner: &'a [u8],
    options: DataReaderOptions,
}

impl<'a> DataReader<'a> {
    pub closed spec fn input(&self) -> Seq<u8> {
        self.inner@
    }

    pub closed spec fn options(&self) -> DataReaderOptions {
        self.options
    }

    pub fn new(inner: &'a [u8], options: DataReaderOptions) -> (r: Self)
        ensures
            r.input() == inner@,
            r.options() == options,
    {
        DataReader { inner, options }
    }

    /// Reads the container: its schema (the `format` field, parsed with the
    /// leniencies of the options), its header fields, and its body where
    /// body reading is enabled (else an empty body).
    pub fn read(&self) -> (r: Result<(Schema, FieldMap, Vec<u8>), Error>)
        ensures
            container_header(self.input()) matches Err(e) ==> r == Err::<
                (Schema, FieldMap, Vec<u8>),
                Error,
            >(e),
            container_header(self.input()) matches Ok((fields, start)) ==> {
                &&& lookup(fields, format_key()) is None ==> (r matches Err(Error::MissingField(n))
                    && n@ == "format"@)
                &&& r matches Err(Error::Schema(_, t)) ==> lookup(fields, format_key()) == Some(t@)
                &&& (lookup(fields, format_key()) matches Some(f) && exists|a: Ast|
                    #[trigger] wf_root(a) && schema_text(a) == chars_of(f)) ==> !(r matches Err(
                    Error::Schema(_, _),
                ))
                &&& r matches Ok((s, m, body)) ==> {
                    &&& m@ == fields
                    &&& keys_distinct(m@)
                    &&& lookup(fields, format_key()) is Some
                    &&& is_strict(self.options()) ==> schema_text(s.ast) == chars_of(
                        lookup(fields, format_key())->0,
                    )
                    &&& !self.options().has(ENABLE_READING_BODY) ==> body@.len() == 0
                }
                &&& (lookup(fields, format_key()) is Some && !self.options().has(ENABLE_READING_BODY)
                    && !(r matches Err(Error::Schema(_, _)))) ==> r is Ok
                &&& (lookup(fields, format_key()) is Some && self.options().has(ENABLE_READING_BODY)
                    && !(r matches Err(Error::Schema(_, _)))) ==> {
                    match lookup(fields, data_size_key()) {
                        None => r matches Err(Error::MissingField(n)) && n@ == "data_size"@,
                        Some(ds) => match size_value(ds) {
                            None => r == Err::<(Schema, FieldMap, Vec<u8>), Error>(
                                Error::InvalidDataSize,
                            ),
                            Some(size) => {
                                let rest = self.input().subrange(
                                    start as int,
                                    self.input().len() as int,
                                );
                                match raw_body(
                                    rest,
                                    size as nat,
                                    self.options().has(IGNORE_DATA_SIZE_FIELD),
                                ) {
                                    None => r == Err::<(Schema, FieldMap, Vec<u8>), Error>(
                                        Error::BodyTooShort {
                                            read: rest.len() as usize,
                                            expected: size,
                                        },
                                    ),
                                    Some(raw) => body_matches(
                                        raw,
                                        lookup(fields, compress_type_key()),
                                        match r {
                                            Ok((_, _, b)) => Ok(b),
                                            Err(e) => Err(e),
                                        },
                                    ),
                                }
                            },
                        },
                    }
                }
            },
    {
        let start = match find_magic(self.inner) {
            Ok(k) => k,
            Err(e) => {
                return Err(e);
            },
        };
        let (map, body_start) = match read_header_fields(self.inner, start) {
            Ok(x) => x,
            Err(e) => {
                return Err(e);
            },
        };
        proof {
            reveal_strlit("format");
            reveal_strlit("data_size");
        }
        let format_name: Vec<u8> = vec![102u8, 111u8, 114u8, 109u8, 97u8, 116u8];
        assert(format_name@ =~= format_key());
        let format = match map.get_field(format_name.as_slice()) {
            Some(f) => f,
            None => {
                return Err(Error::MissingField(String::from_str("format")));
            },
        };
        let schema = match parse_with(format.as_slice(), self.options) {
            Ok(s) => s,
            Err(e) => {
                return Err(Error::Schema(e, copy_bytes(format)));
            },
        };
        if !self.options.contains(DataReaderOptions(ENABLE_READING_BODY)) {
            return Ok((schema, map, Vec::new()));
        }
        let size_name: Vec<u8> = vec![100u8, 97u8, 116u8, 97u8, 95u8, 115u8, 105u8, 122u8, 101u8];
        assert(size_name@ =~= data_size_key());
        let size_field = match map.get_field(size_name.as_slice()) {
            Some(f) => f,
            None => {
                return Err(Error::MissingField(String::from_str("data_size")));
            },
        };
        let size = match parse_size(size_field) {
            Some(n) => n,
            None => {
                return Err(Error::InvalidDataSize);
            },
        };
        let compress_name: Vec<u8> = vec![
            99u8,
            111u8,
            109u8,
            112u8,
            114u8,
            101u8,
            115u8,
            115u8,
            95u8,
            116u8,
            121u8,
            112u8,
            101u8,
        ];
        assert(compress_name@ =~= compress_type_key());
        let compress = map.get_field(compress_name.as_slice());
        let ignore = self.options.contains(DataReaderOptions(IGNORE_DATA_SIZE_FIELD));
        proof {
            assert(body_start <= self.inner@.len()) by {
                lemma_header_bound(self.inner@, start as nat, Seq::empty());
            }
        }
        match read_body(self.inner, body_start, size, compress, ignore) {
            Ok(body) => Ok((schema, map, body)),
            Err(e) => Err(e),
        }
    }
}

proof fn lemma_header_bound(input: Seq<u8>, p: nat, acc: Seq<(Seq<u8>, Seq<u8>)>)
    ensures
        header_from(input, p, acc) matches Ok((f, b)) ==> b <= input.len(),
    decreases input.len() - p,
{
    if p + 2 > input.len() {
    } else if input[p as int] == 4 && input[p + 1int] == 26 {
    } else {
        match logical_line(input, p) {
            None => {},
            Some((line, next)) => match split_field(line) {
                None => {},
                Some(kv) => if next <= p || next > input.len() {
                } else {
                    lemma_header_bound(input, next, upsert(acc, kv));
                },
            },
        }
    }
}

/// A longer digit string never has a smaller value.
proof fn lemma_digits_grow(d: Seq<u8>, k: int)
    requires
        0 < k <= d.len(),
        forall|j: int| 0 <= j < d.len() ==> is_digit_byte(#[trigger] d[j]),
    ensures
        digits_value(d) >= digits_value(d.subrange(0, k)),
    decreases d.len(),
{
    if k < d.len() {
        assert(d.drop_last() =~= d.subrange(0, d.len() - 1));
        assert(d.drop_last().subrange(0, k) =~= d.subrange(0, k));
        lemma_digits_grow(d.drop_last(), k);
    } else {
        assert(d.subrange(0, k) =~= d);
    }
}

} // verus!
