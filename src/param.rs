use vstd::prelude::*;
use crate::text::str_eq;

verus! {

/// One registered parameter name with its stack of `(scope level, value)`.
#[derive(Debug)]
pub struct ParamEntry {
    pub name: String,
    pub stack: Vec<(usize, usize)>,
}

/// A scoped table from array-length parameter names to decoded values.
///
/// Each registered name owns a stack of `(level, value)` pairs; a value is
/// visible from the scope that pushed it and its descendants, and leaves
/// when that scope is cleared.
#[derive(Debug)]
pub struct ParamStack {
    level: usize,
    entries: Vec<ParamEntry>,
}

/// The abstract content of a parameter table.
pub struct ParamsView {
    pub level: nat,
    pub stacks: Map<Seq<char>, Seq<(usize, usize)>>,
}

/// The map that a list of entries with distinct names denotes.
pub open spec fn map_of(s: Seq<(Seq<char>, Seq<(usize, usize)>)>) -> Map<
    Seq<char>,
    Seq<(usize, usize)>,
>
    decreases s.len(),
{
    if s.len() == 0 {
        Map::empty()
    } else {
        map_of(s.drop_last()).insert(s.last().0, s.last().1)
    }
}

/// No entry after the `i`-th has its name.
pub open spec fn last_of_name(s: Seq<(Seq<char>, Seq<(usize, usize)>)>, i: int) -> bool {
    forall|j: int| i < j < s.len() ==> s[j].0 != s[i].0
}

proof fn lemma_map_of_index(s: Seq<(Seq<char>, Seq<(usize, usize)>)>, i: int)
    requires
        last_of_name(s, i),
        0 <= i < s.len(),
    ensures
        map_of(s).contains_key(s[i].0),
        map_of(s)[s[i].0] == s[i].1,
    decreases s.len(),
{
    if i < s.len() - 1 {
        lemma_map_of_index(s.drop_last(), i);
    }
}

proof fn lemma_map_of_absent(s: Seq<(Seq<char>, Seq<(usize, usize)>)>, k: Seq<char>)
    requires
        forall|i: int| 0 <= i < s.len() ==> s[i].0 != k,
    ensures
        !map_of(s).contains_key(k),
    decreases s.len(),
{
    if s.len() > 0 {
        lemma_map_of_absent(s.drop_last(), k);
    }
}

proof fn lemma_map_of_keys(s: Seq<(Seq<char>, Seq<(usize, usize)>)>, k: Seq<char>)
    requires
        map_of(s).contains_key(k),
    ensures
        exists|i: int| 0 <= i < s.len() && s[i].0 == k && last_of_name(s, i),
    decreases s.len(),
{
    if s.last().0 != k {
        lemma_map_of_keys(s.drop_last(), k);
        let i = choose|i: int|
            0 <= i < s.drop_last().len() && s.drop_last()[i].0 == k && last_of_name(s.drop_last(), i);
        assert(last_of_name(s, i)) by {
            assert forall|j: int| i < j < s.len() implies s[j].0 != s[i].0 by {
                if j < s.len() - 1 {
                    assert(s[j] == s.drop_last()[j]);
                }
            }
        }
    } else {
        assert(last_of_name(s, s.len() - 1));
    }
}

proof fn lemma_map_of_update(
    s: Seq<(Seq<char>, Seq<(usize, usize)>)>,
    i: int,
    v: Seq<(usize, usize)>,
)
    requires
        last_of_name(s, i),
        0 <= i < s.len(),
    ensures
        map_of(s.update(i, (s[i].0, v))) == map_of(s).insert(s[i].0, v),
    decreases s.len(),
{
    let t = s.update(i, (s[i].0, v));
    if i == s.len() - 1 {
        assert(t.drop_last() =~= s.drop_last());
        assert(map_of(s.drop_last()).insert(s[i].0, s[i].1).insert(s[i].0, v) =~= map_of(
            s.drop_last(),
        ).insert(s[i].0, v));
    } else {
        lemma_map_of_update(s.drop_last(), i, v);
        assert(t.drop_last() =~= s.drop_last().update(i, (s[i].0, v)));
        assert(map_of(t) =~= map_of(s).insert(s[i].0, v));
    }
}

proof fn lemma_map_of_push(s: Seq<(Seq<char>, Seq<(usize, usize)>)>, e: (Seq<char>, Seq<(usize, usize)>))
    ensures
        map_of(s.push(e)) == map_of(s).insert(e.0, e.1),
{
    assert(s.push(e).drop_last() =~= s);
}

/// The stack after closing the scope `level`: its top leaves if it was
/// pushed at that level.
pub open spec fn popped(st: Seq<(usize, usize)>, level: nat) -> Seq<(usize, usize)> {
    if st.len() > 0 && st.last().0 == level {
        st.drop_last()
    } else {
        st
    }
}

/// Closes the scope at `p.level`.
pub open spec fn clear_scope_spec(p: ParamsView) -> ParamsView {
    ParamsView {
        level: (p.level - 1) as nat,
        stacks: Map::new(|k| p.stacks.contains_key(k), |k| popped(p.stacks[k], p.level)),
    }
}

/// Opens a new scope.
pub open spec fn create_scope_spec(p: ParamsView) -> ParamsView {
    ParamsView { level: p.level + 1, stacks: p.stacks }
}

/// Pushes `value` for `name` at the current level, where `name` is registered.
pub open spec fn push_value_spec(p: ParamsView, name: Seq<char>, value: usize) -> ParamsView {
    if p.stacks.contains_key(name) {
        ParamsView {
            level: p.level,
            stacks: p.stacks.insert(name, p.stacks[name].push((p.level as usize, value))),
        }
    } else {
        p
    }
}

/// The value most recently pushed for `name` and not yet popped.
pub open spec fn get_value_spec(p: ParamsView, name: Seq<char>) -> Option<usize> {
    if p.stacks.contains_key(name) && p.stacks[name].len() > 0 {
        Some(p.stacks[name].last().1)
    } else {
        None
    }
}

/// No stack holds an entry of a level above the current one.
pub open spec fn levels_bounded(p: ParamsView) -> bool {
    forall|k: Seq<char>, j: int|
        p.stacks.contains_key(k) && 0 <= j < p.stacks[k].len() ==> #[trigger] p.stacks[k][j].0
            <= p.level
}

impl View for ParamStack {
    type V = ParamsView;

    closed spec fn view(&self) -> ParamsView {
        ParamsView { level: self.level as nat, stacks: map_of(self.entry_seq()) }
    }
}

impl ParamStack {
    pub closed spec fn entry_seq(&self) -> Seq<(Seq<char>, Seq<(usize, usize)>)> {
        self.entries@.map_values(|e: ParamEntry| (e.name@, e.stack@))
    }

    /// An empty table at level zero.
    pub fn new() -> (r: Self)
        ensures
            r.view().level == 0,
            r.view().stacks == Map::<Seq<char>, Seq<(usize, usize)>>::empty(),
    {
        let r = ParamStack { level: 0, entries: Vec::new() };
        assert(r.entry_seq() =~= Seq::empty());
        r
    }

    fn find(&self, name: &str) -> (r: Option<usize>)
        ensures
            r is Some ==> r->0 < self.entries@.len() && self.entries@[r->0 as int].name@ == name@
                && forall|j: int|
                r->0 < j < self.entries@.len() ==> self.entries@[j].name@ != name@,
            r is None ==> forall|i: int|
                0 <= i < self.entries@.len() ==> self.entries@[i].name@ != name@,
    {
        let mut i: usize = self.entries.len();
        while i > 0
            invariant
                i <= self.entries@.len(),
                forall|j: int| i <= j < self.entries@.len() ==> self.entries@[j].name@ != name@,
            decreases i,
        {
            i = i - 1;
            if str_eq(self.entries[i].name.as_str(), name) {
                return Some(i);
            }
        }
        None
    }

    /// A separate table with the same content, for one decode to change.
    pub fn duplicate(&self) -> (r: Self)
        ensures
            r@ == self@,
    {
        let mut entries: Vec<ParamEntry> = Vec::new();
        let mut i: usize = 0;
        while i < self.entries.len()
            invariant
                i <= self.entries@.len(),
                entries@.len() == i,
                forall|j: int| 0 <= j < i ==> (#[trigger] entries@[j]).name@ == self.entries@[j].name@
                    && entries@[j].stack@ == self.entries@[j].stack@,
            decreases self.entries@.len() - i,
        {
            let e = &self.entries[i];
            let mut stack: Vec<(usize, usize)> = Vec::new();
            let mut k: usize = 0;
            while k < e.stack.len()
                invariant
                    k <= e.stack@.len(),
                    stack@ == e.stack@.subrange(0, k as int),
                decreases e.stack@.len() - k,
            {
                stack.push(e.stack[k]);
                assert(stack@ =~= e.stack@.subrange(0, k + 1));
                k = k + 1;
            }
            assert(stack@ =~= e.stack@);
            entries.push(ParamEntry { name: e.name.clone(), stack });
            i = i + 1;
        }
        let r = ParamStack { level: self.level, entries };
        assert(r.entry_seq() =~= self.entry_seq());
        r
    }

    /// The current scope level.
    pub fn level(&self) -> (r: usize)
        ensures
            r == self@.level,
    {
        self.level
    }

    /// Whether `name` is registered.
    pub fn contains(&self, name: &str) -> (r: bool)
        ensures
            r == self.view().stacks.contains_key(name@),
    {
        match self.find(name) {
            Some(i) => {
                proof {
                    lemma_map_of_index(self.entry_seq(), i as int);
                }
                true
            },
            None => {
                proof {
                    lemma_map_of_absent(self.entry_seq(), name@);
                }
                false
            },
        }
    }

    /// Registers `name` with an empty stack, dropping any stack it had.
    pub fn add_entry(&mut self, name: &str)
        ensures
            final(self).view().level == old(self).view().level,
            final(self).view().stacks == old(self).view().stacks.insert(name@, Seq::empty()),
    {
        let ghost s0 = self.entry_seq();
        match self.find(name) {
            Some(i) => {
                self.entries.set(i, ParamEntry { name: name.to_string(), stack: Vec::new() });
                proof {
                    assert(self.entry_seq() =~= s0.update(i as int, (s0[i as int].0, Seq::empty())));
                    lemma_map_of_update(s0, i as int, Seq::empty());
                }
            },
            None => {
                self.entries.push(ParamEntry { name: name.to_string(), stack: Vec::new() });
                proof {
                    assert(self.entry_seq() =~= s0.push((name@, Seq::empty())));
                    lemma_map_of_push(s0, (name@, Seq::empty()));
                }
            },
        }
    }

    /// Opens a scope one level deeper.
    pub fn create_scope(&mut self)
        requires
            old(self).view().level < usize::MAX,
        ensures
            final(self).view() == create_scope_spec(old(self).view()),
    {
        self.level = self.level + 1;
    }

    /// Closes the current scope: every stack whose top was pushed at the
    /// closing level loses that top.
    pub fn clear_scope(&mut self)
        requires
            old(self).view().level > 0,
        ensures
            final(self).view() == clear_scope_spec(old(self).view()),
    {
        let ghost s0 = self.entry_seq();
        let level = self.level;
        let mut i: usize = 0;
        while i < self.entries.len()
            invariant
                self.level == level,
                i <= self.entries@.len(),
                self.entries@.len() == s0.len(),
                forall|j: int| 0 <= j < s0.len() ==> (#[trigger] self.entries@[j]).name@ == s0[j].0,
                forall|j: int|
                    0 <= j < i ==> (#[trigger] self.entries@[j]).stack@ == popped(
                        s0[j].1,
                        level as nat,
                    ),
                forall|j: int| i <= j < s0.len() ==> (#[trigger] self.entries@[j]).stack@ == s0[j].1,
            decreases s0.len() - i,
        {
            let n = self.entries[i].stack.len();
            if n > 0 && self.entries[i].stack[n - 1].0 == level {
                self.entries[i].stack.pop();
            }
            i = i + 1;
        }
        self.level = level - 1;
        proof {
            let s1 = self.entry_seq();
            assert forall|j: int| 0 <= j < s1.len() implies #[trigger] s1[j] == (
                s0[j].0,
                popped(s0[j].1, level as nat),
            ) by {
                assert(self.entries@[j].name@ == s0[j].0);
            }
            assert forall|k: Seq<char>| #[trigger] map_of(s1).contains_key(k) == map_of(
                s0,
            ).contains_key(k) by {
                if map_of(s1).contains_key(k) {
                    lemma_map_of_keys(s1, k);
                    let j = choose|j: int| 0 <= j < s1.len() && s1[j].0 == k && last_of_name(s1, j);
                    assert(last_of_name(s0, j)) by {
                        assert forall|l: int| j < l < s0.len() implies s0[l].0 != s0[j].0 by {
                            assert(s1[l].0 == s0[l].0);
                        }
                    }
                    lemma_map_of_index(s0, j);
                } else if map_of(s0).contains_key(k) {
                    lemma_map_of_keys(s0, k);
                    let j = choose|j: int| 0 <= j < s0.len() && s0[j].0 == k && last_of_name(s0, j);
                    assert(last_of_name(s1, j)) by {
                        assert forall|l: int| j < l < s1.len() implies s1[l].0 != s1[j].0 by {
                            assert(s1[l].0 == s0[l].0);
                        }
                    }
                    lemma_map_of_index(s1, j);
                }
            }
            assert forall|k: Seq<char>| #[trigger] map_of(s1).contains_key(k) implies map_of(s1)[k]
                == popped(map_of(s0)[k], level as nat) by {
                lemma_map_of_keys(s1, k);
                let j = choose|j: int| 0 <= j < s1.len() && s1[j].0 == k && last_of_name(s1, j);
                assert(last_of_name(s0, j)) by {
                    assert forall|l: int| j < l < s0.len() implies s0[l].0 != s0[j].0 by {
                        assert(s1[l].0 == s0[l].0);
                    }
                }
                lemma_map_of_index(s0, j);
                lemma_map_of_index(s1, j);
            }
            assert(map_of(s1) =~= clear_scope_spec(old(self).view()).stacks);
        }
    }

    /// The whole stack of `name`, oldest entry first.
    pub fn stack(&self, name: &str) -> (r: Option<&Vec<(usize, usize)>>)
        ensures
            self@.stacks.contains_key(name@) ==> (r matches Some(v) && v@ == self@.stacks[name@]),
            !self@.stacks.contains_key(name@) ==> r is None,
    {
        match self.find(name) {
            Some(i) => {
                proof {
                    lemma_map_of_index(self.entry_seq(), i as int);
                }
                Some(&self.entries[i].stack)
            },
            None => {
                proof {
                    lemma_map_of_absent(self.entry_seq(), name@);
                }
                None
            },
        }
    }

    /// The value most recently pushed for `name`, if any is left.
    pub fn get_value(&self, name: &str) -> (r: Option<usize>)
        ensures
            r == get_value_spec(self.view(), name@),
    {
        match self.find(name) {
            Some(i) => {
                proof {
                    lemma_map_of_index(self.entry_seq(), i as int);
                }
                let n = self.entries[i].stack.len();
                if n > 0 {
                    Some(self.entries[i].stack[n - 1].1)
                } else {
                    None
                }
            },
            None => {
                proof {
                    lemma_map_of_absent(self.entry_seq(), name@);
                }
                None
            },
        }
    }

    /// Pushes `value` for `name` at the current level; `None` where `name`
    /// is not registered, and the table is then unchanged.
    pub fn push_value(&mut self, name: &str, value: usize) -> (r: Option<()>)
        ensures
            r is Some == old(self).view().stacks.contains_key(name@),
            final(self).view() == push_value_spec(old(self).view(), name@, value),
    {
        let ghost s0 = self.entry_seq();
        match self.find(name) {
            Some(i) => {
                let level = self.level;
                self.entries[i].stack.push((level, value));
                proof {
                    lemma_map_of_index(s0, i as int);
                    assert(self.entry_seq() =~= s0.update(
                        i as int,
                        (s0[i as int].0, s0[i as int].1.push((level, value))),
                    ));
                    lemma_map_of_update(s0, i as int, s0[i as int].1.push((level, value)));
                }
                Some(())
            },
            None => {
                proof {
                    lemma_map_of_absent(s0, name@);
                }
                None
            },
        }
    }
}

/// Compares two stacks entry by entry.
fn stacks_eq(a: &Vec<(usize, usize)>, b: &Vec<(usize, usize)>) -> (r: bool)
    ensures
        r == (a@ == b@),
{
    if a.len() != b.len() {
        return false;
    }
    let mut i: usize = 0;
    while i < a.len()
        invariant
            a@.len() == b@.len(),
            i <= a@.len(),
            forall|j: int| 0 <= j < i ==> a@[j] == b@[j],
        decreases a@.len() - i,
    {
        if a[i].0 != b[i].0 || a[i].1 != b[i].1 {
            return false;
        }
        i = i + 1;
    }
    assert(a@ =~= b@);
    true
}

impl ParamStack {
    /// Whether every name of `self` is in `other` with the same stack.
    fn covered_by(&self, other: &ParamStack) -> (r: bool)
        ensures
            r == (forall|k: Seq<char>|
                #[trigger] self.view().stacks.contains_key(k) ==> other.view().stacks.contains_key(k)
                    && other.view().stacks[k] == self.view().stacks[k]),
    {
        let ghost s = self.entry_seq();
        let ghost t = other.entry_seq();
        let mut i: usize = 0;
        while i < self.entries.len()
            invariant
                s == self.entry_seq(),
                t == other.entry_seq(),
                i <= self.entries@.len(),
                forall|j: int|
                    0 <= j < i ==> map_of(t).contains_key(#[trigger] s[j].0) && map_of(t)[s[j].0]
                        == map_of(s)[s[j].0],
            decreases self.entries@.len() - i,
        {
            let name = self.entries[i].name.as_str();
            assert(s[i as int].0 == name@);
            let ki = match self.find(name) {
                Some(ki) => ki,
                None => {
                    return false;
                },
            };
            proof {
                lemma_map_of_index(s, ki as int);
            }
            match other.find(name) {
                Some(j) => {
                    proof {
                        lemma_map_of_index(t, j as int);
                    }
                    if !stacks_eq(&self.entries[ki].stack, &other.entries[j].stack) {
                        assert(self.view().stacks.contains_key(name@));
                        return false;
                    }
                },
                None => {
                    proof {
                        lemma_map_of_absent(t, name@);
                        assert(self.view().stacks.contains_key(name@));
                    }
                    return false;
                },
            }
            i = i + 1;
        }
        proof {
            assert forall|k: Seq<char>| #[trigger] map_of(s).contains_key(k) implies map_of(
                t,
            ).contains_key(k) && map_of(t)[k] == map_of(s)[k] by {
                lemma_map_of_keys(s, k);
            }
        }
        true
    }
}

impl PartialEq for ParamStack {
    fn eq(&self, other: &ParamStack) -> (r: bool) {
        if self.level != other.level {
            return false;
        }
        let r = self.covered_by(other) && other.covered_by(self);
        proof {
            if r {
                assert(self.view().stacks =~= other.view().stacks);
            }
        }
        r
    }
}

impl Eq for ParamStack {

}

impl vstd::std_specs::cmp::PartialEqSpecImpl for ParamStack {
    open spec fn obeys_eq_spec() -> bool {
        true
    }

    open spec fn eq_spec(&self, other: &ParamStack) -> bool {
        self.view() == other.view()
    }
}

} // verus!
