use vstd::prelude::*;
use crate::ast::{fixed_size, fixed_size_fields, scalar_width, size_spec, Ast, AstKind, Len, Size};
use crate::json::dec_fields;
use crate::visitor::{count_fields, node_count};
use crate::json::{dec_elems, dec_node, value_pieces, JsonFormattingStyle};
use crate::param::{
    clear_scope_spec, create_scope_spec, levels_bounded, popped, push_value_spec, ParamsView,
};
use crate::walker::{read_spec, DecodeError};

verus! {

/// A node of known size `w` reads exactly `w` bytes.
proof fn lemma_read_known(k: AstKind, w: nat, buf: Seq<u8>, pos: nat)
    requires
        w <= usize::MAX,
        size_spec(k) == Size::Known(w as usize),
        !(k is Struct),
        !(k is Array),
    ensures
        pos + w <= buf.len() ==> (read_spec(k, buf, pos) matches Some((_, q)) && q == pos + w),
        pos + w > buf.len() ==> read_spec(k, buf, pos) is None,
{
    match k {
        AstKind::NStr(m) => {},
        AstKind::Str => {},
        _ => {
            assert(scalar_width(k) is Some);
            assert(scalar_width(k)->0 <= 8);
        },
    }
}

/// Scope isolation: opening a scope, pushing a parameter value in it and
/// closing it again leaves the table as it was, so a sibling decoded next
/// sees none of that value.
pub proof fn lemma_scope_isolation(p: ParamsView, name: Seq<char>, value: usize)
    requires
        levels_bounded(p),
        p.level + 1 <= usize::MAX,
    ensures
        clear_scope_spec(push_value_spec(create_scope_spec(p), name, value)) == p,
{
    let p1 = create_scope_spec(p);
    let p2 = push_value_spec(p1, name, value);
    let p3 = clear_scope_spec(p2);
    assert forall|k: Seq<char>| #[trigger] p.stacks.contains_key(k) implies p3.stacks[k]
        == p.stacks[k] by {
        if k == name {
            assert(p2.stacks[k] == p.stacks[k].push((p1.level as usize, value)));
            assert(p2.stacks[k].drop_last() =~= p.stacks[k]);
            assert(popped(p2.stacks[k], p2.level) == p.stacks[k]);
        } else {
            assert(p2.stacks[k] == p.stacks[k]);
            if p.stacks[k].len() > 0 {
                let j = p.stacks[k].len() - 1;
                assert(p.stacks[k][j].0 <= p.level);
            }
        }
    }
    assert(p3.stacks =~= p.stacks);
}

} // verus!

verus! {

/// No name in the tree of `k` is a registered parameter, so decoding it
/// pushes nothing.
pub open spec fn names_free(k: AstKind, stacks: Map<Seq<char>, Seq<(usize, usize)>>) -> bool
    decreases k, 0int, 0int,
{
    match k {
        AstKind::Struct(children) => names_free_fields(children, 0, stacks),
        AstKind::Array(_, elem) => !stacks.contains_key(elem.name@) && names_free(elem.kind, stacks),
        _ => true,
    }
}

pub open spec fn names_free_fields(
    children: Vec<Ast>,
    i: int,
    stacks: Map<Seq<char>, Seq<(usize, usize)>>,
) -> bool
    decreases children, 0int, children@.len() - i,
{
    if i < 0 || i >= children@.len() {
        true
    } else {
        !stacks.contains_key(children@[i].name@) && names_free(children@[i].kind, stacks)
            && names_free_fields(children, i + 1, stacks)
    }
}

/// Conditions under which a subtree of fixed size decodes by its size
/// alone: no parameter names, scope levels within bounds, and room to nest.
pub open spec fn plain_subtree(k: AstKind, depth: nat, p: ParamsView) -> bool {
    &&& names_free(k, p.stacks)
    &&& levels_bounded(p)
    &&& depth + node_count(k) < usize::MAX
    &&& p.level + node_count(k) < usize::MAX
}

proof fn lemma_scope_round_trip(p: ParamsView)
    requires
        levels_bounded(p),
    ensures
        clear_scope_spec(create_scope_spec(p)) == p,
{
    let p3 = clear_scope_spec(create_scope_spec(p));
    assert forall|k: Seq<char>| #[trigger] p.stacks.contains_key(k) implies p3.stacks[k]
        == p.stacks[k] by {
        if p.stacks[k].len() > 0 {
            let j = p.stacks[k].len() - 1;
            assert(p.stacks[k][j].0 <= p.level);
        }
    }
    assert(p3.stacks =~= p.stacks);
}

proof fn lemma_node_consume(
    node: Ast,
    w: usize,
    buf: Seq<u8>,
    style: JsonFormattingStyle,
    depth: nat,
    pos: nat,
    p: ParamsView,
)
    requires
        fixed_size(node.kind) == Some(w),
        plain_subtree(node.kind, depth, p),
        !p.stacks.contains_key(node.name@),
        pos <= buf.len(),
    ensures
        pos + w <= buf.len() ==> (dec_node(node, buf, style, depth, pos, p) matches Ok((_, q, p2))
            && q == pos + w && p2 == p),
        pos + w > buf.len() ==> dec_node(node, buf, style, depth, pos, p) == Err::<
            (Seq<crate::json::JsonPiece>, nat, ParamsView),
            DecodeError,
        >(DecodeError::Truncated),
    decreases node, 0int, 0int,
{
    match node.kind {
        AstKind::Struct(children) => {
            let p1 = create_scope_spec(p);
            assert(levels_bounded(p1));
            lemma_scope_round_trip(p);
            lemma_fields_consume(children, 0, w, buf, style, depth + 1, pos, p1);
        },
        AstKind::Array(len, elem) => {
            let n = len->Fixed_0;
            let ws = fixed_size(elem.kind)->0;
            lemma_elems_fixed(*elem, ws, n as nat, 0, buf, style, depth + 1, pos, p);
            assert(n * ws == w);
        },
        _ => {
            lemma_read_known(node.kind, w as nat, buf, pos);
            if pos + w <= buf.len() {
                let (v, q) = read_spec(node.kind, buf, pos)->0;
                assert(dec_node(node, buf, style, depth, pos, p) == Ok::<
                    (Seq<crate::json::JsonPiece>, nat, ParamsView),
                    DecodeError,
                >((value_pieces(v), pos + w as nat, p)));
            }
        },
    }
}

proof fn lemma_fields_consume(
    children: Vec<Ast>,
    i: int,
    w: usize,
    buf: Seq<u8>,
    style: JsonFormattingStyle,
    depth: nat,
    pos: nat,
    p: ParamsView,
)
    requires
        0 <= i <= children@.len(),
        fixed_size_fields(children, i) == Some(w),
        names_free_fields(children, i, p.stacks),
        levels_bounded(p),
        depth + count_fields(children, i) < usize::MAX,
        p.level + count_fields(children, i) < usize::MAX,
        pos <= buf.len(),
    ensures
        pos + w <= buf.len() ==> (dec_fields(children, i, buf, style, depth, pos, p) matches Ok(
            (_, q, p2),
        ) && q == pos + w && p2 == p),
        pos + w > buf.len() ==> dec_fields(children, i, buf, style, depth, pos, p) == Err::<
            (Seq<crate::json::JsonPiece>, nat, ParamsView),
            DecodeError,
        >(DecodeError::Truncated),
    decreases children, 0int, children@.len() - i,
{
    if i < children@.len() {
        let c = children@[i];
        let wc = fixed_size(c.kind)->0;
        let wr = fixed_size_fields(children, i + 1)->0;
        assert(plain_subtree(c.kind, depth, p));
        lemma_node_consume(c, wc, buf, style, depth, pos, p);
        if pos + wc <= buf.len() {
            lemma_fields_consume(children, i + 1, wr, buf, style, depth, pos + wc as nat, p);
        }
    }
}

proof fn lemma_elems_fixed(
    elem: Ast,
    w: usize,
    n: nat,
    i: nat,
    buf: Seq<u8>,
    style: JsonFormattingStyle,
    depth: nat,
    pos: nat,
    p: ParamsView,
)
    requires
        fixed_size(elem.kind) == Some(w),
        plain_subtree(elem.kind, depth, p),
        !p.stacks.contains_key(elem.name@),
        i <= n,
        pos <= buf.len(),
    ensures
        pos + (n - i) * w <= buf.len() ==> (dec_elems(elem, n, i, buf, style, depth, pos, p)
            matches Ok((_, q, p2)) && q == pos + (n - i) * w && p2 == p),
        pos + (n - i) * w > buf.len() ==> dec_elems(elem, n, i, buf, style, depth, pos, p)
            == Err::<(Seq<crate::json::JsonPiece>, nat, ParamsView), DecodeError>(
            DecodeError::Truncated,
        ),
    decreases elem, 1int, n - i,
{
    if i < n {
        assert((n - i) * w == w + (n - (i + 1)) * w) by (nonlinear_arith)
            requires
                i < n,
        ;
        assert(w <= (n - i) * w) by (nonlinear_arith)
            requires
                i < n,
        ;
        lemma_node_consume(elem, w, buf, style, depth, pos, p);
        if pos + w <= buf.len() {
            lemma_elems_fixed(elem, w, n, i + 1, buf, style, depth, pos + w as nat, p);
        }
    } else {
        assert((n - i) * w == 0) by (nonlinear_arith)
            requires
                i == n,
        ;
    }
}

/// Fixed sizing: a subtree whose size is fixed (`fixed_size`) and whose
/// names are no parameters takes exactly that many bytes when the buffer
/// holds them, leaving the parameters as they were, and is a truncation
/// error when it does not. For `{N}` arrays this is `N` times the element's
/// size.
pub proof fn lemma_fixed_size_consumed(
    node: Ast,
    buf: Seq<u8>,
    style: JsonFormattingStyle,
    depth: nat,
    pos: nat,
    p: ParamsView,
)
    requires
        fixed_size(node.kind) is Some,
        plain_subtree(node.kind, depth, p),
        !p.stacks.contains_key(node.name@),
        pos <= buf.len(),
    ensures
        ({
            let w = fixed_size(node.kind)->0;
            &&& pos + w <= buf.len() ==> (dec_node(node, buf, style, depth, pos, p) matches Ok(
                (_, q, p2),
            ) && q == pos + w && p2 == p)
            &&& pos + w > buf.len() ==> dec_node(node, buf, style, depth, pos, p) == Err::<
                (Seq<crate::json::JsonPiece>, nat, ParamsView),
                DecodeError,
            >(DecodeError::Truncated)
            &&& (node.kind matches AstKind::Array(Len::Fixed(n), e) ==> w == n * fixed_size(
                e.kind,
            )->0)
        }),
{
    lemma_node_consume(node, fixed_size(node.kind)->0, buf, style, depth, pos, p);
}

} // verus!
