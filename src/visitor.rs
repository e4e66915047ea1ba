use vstd::prelude::*;
use crate::ast::{
    field_texts, fields_join, len_text, name_text, schema_text, type_text, Ast,
    AstKind, Len,
};
use crate::error::Error;
use crate::parser::lemma_fields_join;
use crate::text::{dec_text, push_char, push_decimal, str_eq};

verus! {

/// A traversal of a schema tree: one callback per kind of node, and a
/// dispatch that picks the callback. Each implementor recurses on its own.
pub trait AstVisitor {
    type ResultItem;

    fn visit_struct(&mut self, node: &Ast) -> Result<Self::ResultItem, Error>;

    fn visit_array(&mut self, node: &Ast) -> Result<Self::ResultItem, Error>;

    fn visit_builtin(&mut self, node: &Ast) -> Result<Self::ResultItem, Error>;

    fn visit(&mut self, node: &Ast) -> Result<Self::ResultItem, Error> {
        match node.kind {
            AstKind::Struct(_) => self.visit_struct(node),
            AstKind::Array(_, _) => self.visit_array(node),
            _ => self.visit_builtin(node),
        }
    }
}

/// Appends the characters of `s`.
pub(crate) fn push_str(out: &mut String, s: &str)
    ensures
        final(out)@ == old(out)@ + s@,
{
    let n = s.unicode_len();
    let ghost start = out@;
    let mut i: usize = 0;
    while i < n
        invariant
            n == s@.len(),
            i <= n,
            out@ == start + s@.subrange(0, i as int),
        decreases n - i,
    {
        push_char(out, s.get_char(i));
        assert(out@ =~= start + s@.subrange(0, i + 1));
        i = i + 1;
    }
    assert(s@.subrange(0, n as int) =~= s@);
}

/// Appends the name part of a field: `name:`, or nothing for an array
/// element.
fn write_name(out: &mut String, name: &String)
    ensures
        final(out)@ == old(out)@ + name_text(name@),
{
    if str_eq(name.as_str(), "[]") {
        assert(out@ =~= old(out)@ + name_text(name@));
    } else {
        push_str(out, name.as_str());
        push_char(out, ':');
        assert(out@ =~= old(out)@ + name_text(name@));
    }
}

/// Appends `children[0..n]`, written and joined by commas.
fn write_fields(out: &mut String, children: &Vec<Ast>, kind: &AstKind)
    requires
        *kind == AstKind::Struct(*children),
    ensures
        final(out)@ == old(out)@ + fields_join(*children, children@.len() as int),
    decreases *kind, 0int,
{
    let ghost start = out@;
    let mut i: usize = 0;
    while i < children.len()
        invariant
            i <= children@.len(),
            *kind == AstKind::Struct(*children),
            out@ == start + fields_join(*children, i as int),
        decreases children@.len() - i,
    {
        let ghost before = out@;
        if i > 0 {
            push_char(out, ',');
        }
        let child = &children[i];
        write_name(out, &child.name);
        proof {
            assert(decreases_to!(*kind => kind->Struct_0));
            assert(decreases_to!(*children => children@[i as int]));
            assert(decreases_to!(children@[i as int] => children@[i as int].kind));
        }
        write_type(out, &child.kind);
        proof {
            if i > 0 {
                assert(out@ =~= start + fields_join(*children, i + 1));
            } else {
                assert(out@ =~= start + fields_join(*children, i + 1));
            }
        }
        i = i + 1;
    }
}

/// Appends the schema text of a kind.
pub fn write_type(out: &mut String, kind: &AstKind)
    ensures
        final(out)@ == old(out)@ + type_text(*kind),
    decreases *kind, 1int,
{
    let ghost start = out@;
    match kind {
        AstKind::Int8 => push_str(out, "INT8"),
        AstKind::Int16 => push_str(out, "INT16"),
        AstKind::Int32 => push_str(out, "INT32"),
        AstKind::UInt8 => push_str(out, "UINT8"),
        AstKind::UInt16 => push_str(out, "UINT16"),
        AstKind::UInt32 => push_str(out, "UINT32"),
        AstKind::Float32 => push_str(out, "FLOAT32"),
        AstKind::Float64 => push_str(out, "FLOAT64"),
        AstKind::Str => push_str(out, "STR"),
        AstKind::NStr(n) => {
            push_char(out, '<');
            push_decimal(out, *n as u64);
            push_str(out, ">NSTR");
            assert(out@ =~= start + type_text(*kind));
        },
        AstKind::Struct(children) => {
            push_char(out, '[');
            write_fields(out, children, kind);
            push_char(out, ']');
            assert(out@ =~= start + type_text(*kind));
        },
        AstKind::Array(len, elem) => {
            match len {
                Len::Fixed(n) => {
                    push_char(out, '{');
                    push_decimal(out, *n as u64);
                    push_char(out, '}');
                },
                Len::Variable(s) => {
                    push_char(out, '{');
                    push_str(out, s.as_str());
                    push_char(out, '}');
                },
                Len::Unlimited => {
                    push_char(out, '+');
                },
            }
            assert(out@ =~= start + len_text(*len));
            write_type(out, &elem.kind);
            assert(out@ =~= start + type_text(*kind));
        },
    }
}

/// The one-line schema text of a root node: its fields joined by commas.
pub fn schema_oneline(root: &Ast) -> (r: String)
    ensures
        r@ == schema_text(*root),
{
    let mut out = String::new();
    match &root.kind {
        AstKind::Struct(children) => {
            write_fields(&mut out, children, &root.kind);
            proof {
                if children@.len() > 0 {
                    lemma_fields_join(*children, children@.len() as int);
                    assert(children@.subrange(0, children@.len() as int) =~= children@);
                } else {
                    assert(field_texts(children@) =~= Seq::<Seq<char>>::empty());
                }
            }
        },
        _ => {
            write_name(&mut out, &root.name);
            write_type(&mut out, &root.kind);
        },
    }
    out
}

/// A schema tree shown as one line of schema text.
pub struct SchemaOnelineDisplay<'a>(pub &'a Ast);

impl<'a> SchemaOnelineDisplay<'a> {
    /// The schema text, which parses back to the same tree.
    pub fn to_text(&self) -> (r: String)
        ensures
            r@ == schema_text(*self.0),
    {
        schema_oneline(self.0)
    }
}

/// Collects the one-line text of the nodes it visits.
pub struct SchemaOnelineFormatter {
    pub out: String,
}

impl SchemaOnelineFormatter {
    pub fn new() -> (r: Self)
        ensures
            r.out@ == Seq::<char>::empty(),
    {
        SchemaOnelineFormatter { out: String::new() }
    }
}

impl AstVisitor for SchemaOnelineFormatter {
    type ResultItem = ();

    fn visit_struct(&mut self, node: &Ast) -> (r: Result<(), Error>)
        ensures
            r is Ok,
            node.name@.len() == 0 ==> final(self).out@ == old(self).out@ + schema_text(*node),
            node.name@.len() > 0 ==> final(self).out@ == old(self).out@ + name_text(node.name@)
                + type_text(node.kind),
    {
        if node.name.unicode_len() == 0 {
            let text = schema_oneline(node);
            push_str(&mut self.out, text.as_str());
        } else {
            write_name(&mut self.out, &node.name);
            write_type(&mut self.out, &node.kind);
        }
        Ok(())
    }

    fn visit_array(&mut self, node: &Ast) -> (r: Result<(), Error>)
        ensures
            r is Ok,
            final(self).out@ == old(self).out@ + name_text(node.name@) + type_text(node.kind),
    {
        write_name(&mut self.out, &node.name);
        write_type(&mut self.out, &node.kind);
        Ok(())
    }

    fn visit_builtin(&mut self, node: &Ast) -> (r: Result<(), Error>)
        ensures
            r is Ok,
            final(self).out@ == old(self).out@ + name_text(node.name@) + type_text(node.kind),
    {
        write_name(&mut self.out, &node.name);
        write_type(&mut self.out, &node.kind);
        Ok(())
    }
}

/// The number of nodes in a tree: every struct, array and builtin counts
/// one.
pub open spec fn node_count(k: AstKind) -> nat
    decreases k, 0int, 0int,
{
    1 + match k {
        AstKind::Struct(children) => count_fields(children, 0),
        AstKind::Array(_, elem) => node_count(elem.kind),
        _ => 0,
    }
}

/// The node counts of the fields `i..`, summed.
pub open spec fn count_fields(children: Vec<Ast>, i: int) -> nat
    decreases children, 0int, children@.len() - i,
{
    if i < 0 || i >= children@.len() {
        0
    } else {
        node_count(children@[i].kind) + count_fields(children, i + 1)
    }
}

/// Counts the nodes of a tree, to tell how long its display will be.
pub struct FieldCounter(pub usize);

impl FieldCounter {
    pub fn new() -> (r: Self)
        ensures
            r.0 == 0,
    {
        FieldCounter(0)
    }

    /// The number of nodes in the tree of `node`; `None` where it does not
    /// fit in `usize`.
    pub fn count(node: &Ast) -> (r: Option<usize>)
        ensures
            node_count(node.kind) <= usize::MAX ==> r == Some(node_count(node.kind) as usize),
            node_count(node.kind) > usize::MAX ==> r is None,
    {
        kind_count(&node.kind)
    }
}

fn kind_count(k: &AstKind) -> (r: Option<usize>)
    ensures
        node_count(*k) <= usize::MAX ==> r == Some(node_count(*k) as usize),
        node_count(*k) > usize::MAX ==> r is None,
    decreases *k, 1int, 0int,
{
    match k {
        AstKind::Struct(children) => {
            let mut total: usize = 0;
            let mut i = children.len();
            while i > 0
                invariant
                    i <= children@.len(),
                    *k == AstKind::Struct(*children),
                    count_fields(*children, i as int) == total,
                decreases i,
            {
                i = i - 1;
                proof {
                    assert(decreases_to!(*k => k->Struct_0));
                    assert(decreases_to!(*children => children@[i as int]));
                }
                match kind_count(&children[i].kind) {
                    Some(a) => {
                        if a > usize::MAX - total {
                            proof {
                                lemma_count_fields_grow(*children, i as int);
                            }
                            return None;
                        }
                        total = a + total;
                    },
                    None => {
                        proof {
                            lemma_count_fields_grow(*children, i as int);
                        }
                        return None;
                    },
                }
            }
            if total == usize::MAX {
                return None;
            }
            Some(total + 1)
        },
        AstKind::Array(_, elem) => {
            match kind_count(&elem.kind) {
                Some(a) => if a == usize::MAX {
                    None
                } else {
                    Some(a + 1)
                },
                None => None,
            }
        },
        _ => Some(1),
    }
}

/// The node count of a tree, or `usize::MAX` where it does not fit.
fn kind_count_or_max(k: &AstKind) -> (r: usize)
    ensures
        r == if node_count(*k) <= usize::MAX {
            node_count(*k) as usize
        } else {
            usize::MAX
        },
{
    match kind_count(k) {
        Some(n) => n,
        None => usize::MAX,
    }
}

/// A sum over the fields from `0` is at least the sum from `i`.
proof fn lemma_count_fields_grow(children: Vec<Ast>, i: int)
    requires
        0 <= i < children@.len(),
    ensures
        count_fields(children, 0) >= count_fields(children, i),
    decreases i,
{
    if i > 0 {
        lemma_count_fields_grow(children, i - 1);
    }
}

impl AstVisitor for FieldCounter {
    type ResultItem = ();

    fn visit_struct(&mut self, node: &Ast) -> (r: Result<(), Error>)
        ensures
            r is Ok,
            final(self).0 == if old(self).0 + node_count(node.kind) <= usize::MAX {
                (old(self).0 + node_count(node.kind)) as usize
            } else {
                usize::MAX
            },
    {
        match kind_count(&node.kind) {
            Some(n) => {
                self.0 = self.0.saturating_add(n);
            },
            None => {
                self.0 = usize::MAX;
            },
        }
        Ok(())
    }

    fn visit_array(&mut self, node: &Ast) -> (r: Result<(), Error>)
        ensures
            r is Ok,
            final(self).0 == if old(self).0 + node_count(node.kind) <= usize::MAX {
                (old(self).0 + node_count(node.kind)) as usize
            } else {
                usize::MAX
            },
    {
        match kind_count(&node.kind) {
            Some(n) => {
                self.0 = self.0.saturating_add(n);
            },
            None => {
                self.0 = usize::MAX;
            },
        }
        Ok(())
    }

    fn visit_builtin(&mut self, node: &Ast) -> (r: Result<(), Error>)
        ensures
            r is Ok,
            final(self).0 == if old(self).0 + node_count(node.kind) <= usize::MAX {
                (old(self).0 + node_count(node.kind)) as usize
            } else {
                usize::MAX
            },
    {
        self.0 = self.0.saturating_add(kind_count_or_max(&node.kind));
        Ok(())
    }
}

/// One line of the tree view of a schema: the branch glyphs, the shown
/// name and the kind's label. A caller shows it as `prefix name: label`.
pub struct TreeLine {
    pub prefix: String,
    pub name: String,
    pub label: String,
}

impl View for TreeLine {
    type V = (Seq<char>, Seq<char>, Seq<char>);

    open spec fn view(&self) -> (Seq<char>, Seq<char>, Seq<char>) {
        (self.prefix@, self.name@, self.label@)
    }
}

/// The glyphs for a node at the depth `levels.len()`, where each entry says
/// whether the ancestor at that depth (the node itself, last) has a
/// following sibling.
pub open spec fn branch_text(levels: Seq<bool>) -> Seq<char>
    decreases levels.len(),
{
    if levels.len() == 0 {
        Seq::empty()
    } else if levels.len() == 1 {
        if levels[0] {
            "├── "@
        } else {
            "└── "@
        }
    } else {
        (if levels[0] {
            "│   "@
        } else {
            "    "@
        }) + branch_text(levels.drop_first())
    }
}

/// The shown name: `/` for the root, `[index]` for an array element.
pub open spec fn display_name(name: Seq<char>) -> Seq<char> {
    if name.len() == 0 {
        "/"@
    } else if name == "[]"@ {
        "[index]"@
    } else {
        name
    }
}

/// The label of a kind in the tree view.
pub open spec fn label_text(k: AstKind) -> Seq<char> {
    match k {
        AstKind::Struct(_) => "Struct"@,
        AstKind::Array(len, _) => "Array (length: "@ + match len {
            Len::Fixed(n) => "fixed ("@ + dec_text(n as nat) + ")"@,
            Len::Variable(s) => "variable ("@ + s@ + ")"@,
            Len::Unlimited => "unlimited"@,
        } + ")"@,
        _ => type_text(k),
    }
}

/// The lines of the tree view of `node` and its descendants.
pub open spec fn tree_lines(node: Ast, levels: Seq<bool>) -> Seq<(Seq<char>, Seq<char>, Seq<char>)>
    decreases node, 0int, 0int,
{
    seq![(branch_text(levels), display_name(node.name@), label_text(node.kind))] + match node.kind {
        AstKind::Struct(children) => child_lines(children, 0, levels),
        AstKind::Array(_, elem) => tree_lines(*elem, levels.push(false)),
        _ => Seq::empty(),
    }
}

/// The lines of the children `i..`.
pub open spec fn child_lines(children: Vec<Ast>, i: int, levels: Seq<bool>) -> Seq<
    (Seq<char>, Seq<char>, Seq<char>),
>
    decreases children, 0int, children@.len() - i,
{
    if i < 0 || i >= children@.len() {
        Seq::empty()
    } else {
        tree_lines(children@[i], levels.push(i + 1 < children@.len())) + child_lines(
            children,
            i + 1,
            levels,
        )
    }
}

pub open spec fn lines_view(v: Seq<TreeLine>) -> Seq<(Seq<char>, Seq<char>, Seq<char>)> {
    v.map_values(|l: TreeLine| l@)
}

fn branch_string(levels: &Vec<bool>) -> (r: String)
    ensures
        r@ == branch_text(levels@),
{
    let mut out = String::new();
    let n = levels.len();
    let mut i: usize = 0;
    proof {
        assert(levels@.subrange(0, n as int) =~= levels@);
        assert(out@ + branch_text(levels@) =~= branch_text(levels@));
    }
    while i + 1 < n
        invariant
            n == levels@.len(),
            i <= n,
            i + 1 < n || i == 0 || i + 1 == n,
            out@ + branch_text(levels@.subrange(i as int, n as int)) == branch_text(levels@),
        decreases n - i,
    {
        let ghost before = out@;
        if levels[i] {
            push_str(&mut out, "│   ");
        } else {
            push_str(&mut out, "    ");
        }
        proof {
            assert(levels@.subrange(i as int, n as int).drop_first() =~= levels@.subrange(
                i + 1,
                n as int,
            ));
        }
        i = i + 1;
    }
    if n > 0 {
        let ghost before = out@;
        if levels[n - 1] {
            push_str(&mut out, "├── ");
        } else {
            push_str(&mut out, "└── ");
        }
        proof {
            assert(levels@.subrange(i as int, n as int) =~= seq![levels@[n - 1]]);
        }
    } else {
        proof {
            assert(levels@.subrange(0, 0) =~= Seq::<bool>::empty());
        }
    }
    assert(out@ =~= branch_text(levels@));
    out
}

fn display_name_string(name: &String) -> (r: String)
    ensures
        r@ == display_name(name@),
{
    if name.unicode_len() == 0 {
        String::from_str("/")
    } else if str_eq(name.as_str(), "[]") {
        String::from_str("[index]")
    } else {
        name.clone()
    }
}

fn label_string(k: &AstKind) -> (r: String)
    ensures
        r@ == label_text(*k),
{
    let mut out = String::new();
    match k {
        AstKind::Struct(_) => push_str(&mut out, "Struct"),
        AstKind::Array(len, _) => {
            push_str(&mut out, "Array (length: ");
            match len {
                Len::Fixed(n) => {
                    push_str(&mut out, "fixed (");
                    push_decimal(&mut out, *n as u64);
                    push_str(&mut out, ")");
                },
                Len::Variable(s) => {
                    push_str(&mut out, "variable (");
                    push_str(&mut out, s.as_str());
                    push_str(&mut out, ")");
                },
                Len::Unlimited => push_str(&mut out, "unlimited"),
            }
            push_str(&mut out, ")");
            assert(out@ =~= label_text(*k));
        },
        _ => write_type(&mut out, k),
    }
    assert(out@ =~= label_text(*k));
    out
}

fn push_tree_lines(out: &mut Vec<TreeLine>, node: &Ast, levels: &mut Vec<bool>)
    ensures
        lines_view(final(out)@) == lines_view(old(out)@) + tree_lines(*node, old(levels)@),
        final(levels)@ == old(levels)@,
    decreases *node, 1int, 0int,
{
    let ghost start = out@;
    let line = TreeLine {
        prefix: branch_string(levels),
        name: display_name_string(&node.name),
        label: label_string(&node.kind),
    };
    out.push(line);
    proof {
        assert(lines_view(out@) =~= lines_view(start) + seq![(branch_text(levels@), display_name(node.name@), label_text(node.kind))]);
    }
    let ghost mid = out@;
    match &node.kind {
        AstKind::Struct(children) => {
            let mut i: usize = 0;
            let ghost lv = levels@;
            proof {
                assert(lines_view(out@) + child_lines(*children, 0, lv) =~= lines_view(mid) + child_lines(*children, 0, lv));
            }
            while i < children.len()
                invariant
                    i <= children@.len(),
                    node.kind == AstKind::Struct(*children),
                    levels@ == lv,
                    lines_view(out@) + child_lines(*children, i as int, lv) == lines_view(mid) + child_lines(*children, 0, lv),
                decreases children@.len() - i,
            {
                let ghost before = out@;
                levels.push(i + 1 < children.len());
                proof {
                    assert(decreases_to!(node.kind => node.kind->Struct_0));
                    assert(decreases_to!(*children => children@[i as int]));
                }
                push_tree_lines(out, &children[i], levels);
                levels.pop();
                proof {
                    assert(levels@ =~= lv);
                    assert(lines_view(out@) + child_lines(*children, i + 1, lv) =~= lines_view(before) + child_lines(*children, i as int, lv));
                }
                i = i + 1;
            }
            proof {
                assert(lines_view(out@) =~= lines_view(mid) + child_lines(*children, 0, lv));
            }
        },
        AstKind::Array(_, elem) => {
            let ghost lv = levels@;
            levels.push(false);
            proof {
                assert(decreases_to!(node.kind => node.kind->Array_1));
            }
            push_tree_lines(out, elem, levels);
            levels.pop();
            proof {
                assert(levels@ =~= lv);
            }
        },
        _ => {},
    }
    assert(lines_view(out@) =~= lines_view(start) + tree_lines(*node, levels@));
}

/// The tree view of a schema, one line per node, the root first and each
/// node's children below it in order.
pub fn schema_tree_lines(root: &Ast) -> (r: Vec<TreeLine>)
    ensures
        lines_view(r@) == tree_lines(*root, Seq::empty()),
{
    let mut out: Vec<TreeLine> = Vec::new();
    let mut levels: Vec<bool> = Vec::new();
    push_tree_lines(&mut out, root, &mut levels);
    assert(lines_view(out@) =~= tree_lines(*root, Seq::empty()));
    out
}

} // verus!
