use vstd::prelude::*;
use crate::walker::Value;

verus! {

/// Why building a value tree failed.
#[derive(Debug, Clone, Copy, PartialEq, Eq, Structural)]
pub enum TreeError {
    /// The tree was closed already.
    Completed,
    /// The outermost container is still open.
    Incomplete,
    /// No container was ever added.
    Empty,
}

pub open spec fn is_container(v: Value) -> bool {
    v is Struct || v is Array
}

/// The members of a container.
pub open spec fn children(v: Value) -> Seq<Value> {
    match v {
        Value::Struct(xs) => xs@,
        Value::Array(xs) => xs@,
        _ => Seq::empty(),
    }
}

/// `b` is the container `a` with `x` added as its last member.
pub open spec fn appended(a: Value, b: Value, x: Value) -> bool {
    &&& (a is Struct <==> b is Struct)
    &&& (a is Array <==> b is Array)
    &&& children(b) == children(a).push(x)
}

impl Value {
    /// An empty struct.
    pub fn new_struct() -> (r: Value)
        ensures
            r is Struct && children(r).len() == 0,
    {
        Value::Struct(Vec::new())
    }

    /// An empty array.
    pub fn new_array() -> (r: Value)
        ensures
            r is Array && children(r).len() == 0,
    {
        Value::Array(Vec::new())
    }
}

/// Builds a tree of decoded values from a stream of values and container
/// ends: a container opens a level, a scalar joins the open container, and
/// closing a level adds it to the one around it.
pub struct ValueTree {
    heads: Vec<Value>,
    completed: bool,
}

fn add_child(c: Value, x: Value) -> (r: Value)
    requires
        is_container(c),
    ensures
        appended(c, r, x),
{
    match c {
        Value::Struct(mut xs) => {
            xs.push(x);
            Value::Struct(xs)
        },
        Value::Array(mut xs) => {
            xs.push(x);
            Value::Array(xs)
        },
        other => other,
    }
}

impl ValueTree {
    /// The open containers, outermost first.
    pub closed spec fn heads(&self) -> Seq<Value> {
        self.heads@
    }

    pub closed spec fn completed(&self) -> bool {
        self.completed
    }

    pub open spec fn wf(&self) -> bool {
        forall|i: int| 0 <= i < self.heads().len() ==> is_container(#[trigger] self.heads()[i])
    }

    pub fn new() -> (r: Self)
        ensures
            r.wf(),
            r.heads().len() == 0,
            !r.completed(),
    {
        ValueTree { heads: Vec::new(), completed: false }
    }

    /// Adds a value: a container opens a new level, a scalar becomes the
    /// last member of the innermost open container (and is dropped where
    /// none is open).
    pub fn add_value(&mut self, value: Value) -> (r: Result<(), TreeError>)
        requires
            old(self).wf(),
        ensures
            final(self).wf(),
            old(self).completed() ==> r == Err::<(), TreeError>(TreeError::Completed)
                && final(self).heads() == old(self).heads() && final(self).completed(),
            !old(self).completed() ==> r is Ok && !final(self).completed(),
            !old(self).completed() && is_container(value) ==> final(self).heads() == old(
                self,
            ).heads().push(value),
            !old(self).completed() && !is_container(value) && old(self).heads().len() == 0
                ==> final(self).heads() == old(self).heads(),
            !old(self).completed() && !is_container(value) && old(self).heads().len() > 0 ==> {
                &&& final(self).heads().len() == old(self).heads().len()
                &&& final(self).heads().drop_last() == old(self).heads().drop_last()
                &&& appended(old(self).heads().last(), final(self).heads().last(), value)
            },
    {
        if self.completed {
            return Err(TreeError::Completed);
        }
        match value {
            Value::Struct(_) | Value::Array(_) => {
                self.heads.push(value);
            },
            _ => {
                match self.heads.pop() {
                    Some(top) => {
                        let ghost before = self.heads@;
                        self.heads.push(add_child(top, value));
                        assert(self.heads@.drop_last() =~= before);
                    },
                    None => {},
                }
            },
        }
        Ok(())
    }

    /// Closes the innermost open container, which joins the one around it;
    /// closing the outermost one completes the tree.
    pub fn close_value(&mut self) -> (r: Result<(), TreeError>)
        requires
            old(self).wf(),
        ensures
            final(self).wf(),
            old(self).completed() ==> r == Err::<(), TreeError>(TreeError::Completed)
                && final(self).heads() == old(self).heads() && final(self).completed(),
            !old(self).completed() ==> r is Ok,
            !old(self).completed() && old(self).heads().len() == 1 ==> final(self).completed()
                && final(self).heads() == old(self).heads(),
            !old(self).completed() && old(self).heads().len() == 0 ==> !final(self).completed()
                && final(self).heads() == old(self).heads(),
            !old(self).completed() && old(self).heads().len() >= 2 ==> {
                let n = old(self).heads().len() as int;
                &&& !final(self).completed()
                &&& final(self).heads().len() == n - 1
                &&& final(self).heads().drop_last() == old(self).heads().subrange(0, n - 2)
                &&& appended(old(self).heads()[n - 2], final(self).heads().last(), old(self).heads()[n - 1])
            },
    {
        if self.completed {
            return Err(TreeError::Completed);
        }
        if self.heads.len() == 1 {
            self.completed = true;
            return Ok(());
        }
        if let Some(top) = self.heads.pop() {
            if let Some(parent) = self.heads.pop() {
                let ghost rest = self.heads@;
                self.heads.push(add_child(parent, top));
                assert(self.heads@.drop_last() =~= rest);
            }
        }
        Ok(())
    }

    /// The finished tree: its outermost container.
    pub fn get(&self) -> (r: Result<&Value, TreeError>)
        ensures
            !self.completed() ==> r == Err::<&Value, TreeError>(TreeError::Incomplete),
            self.completed() && self.heads().len() == 0 ==> r == Err::<&Value, TreeError>(
                TreeError::Empty,
            ),
            self.completed() && self.heads().len() > 0 ==> (r matches Ok(v) && *v == self.heads()[0]),
    {
        if !self.completed {
            return Err(TreeError::Incomplete);
        }
        if self.heads.len() == 0 {
            return Err(TreeError::Empty);
        }
        Ok(&self.heads[0])
    }
}

} // verus!
