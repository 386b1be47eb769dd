use vstd::prelude::*;

verus! {

/// A mapping from variable names to their current values.
#[derive(Debug)]
pub struct Env {
    entries: Vec<(String, i64)>,
}

/// The mapping that a list of entries stands for: a later entry overrides an earlier one.
pub open spec fn entries_map(s: Seq<(String, i64)>) -> Map<Seq<char>, i64>
    decreases s.len(),
{
    if s.len() == 0 {
        Map::empty()
    } else {
        entries_map(s.drop_last()).insert(s.last().0@, s.last().1)
    }
}

/// The value of `k` in `m`, if it has one.
pub open spec fn lookup(m: Map<Seq<char>, i64>, k: Seq<char>) -> Option<i64> {
    if m.contains_key(k) {
        Some(m[k])
    } else {
        None
    }
}

/// Entries after position `j` do not change what `k` maps to.
proof fn lemma_suffix_without_key(s: Seq<(String, i64)>, j: int, k: Seq<char>)
    requires
        0 <= j <= s.len(),
        forall|m: int| j <= m < s.len() ==> (#[trigger] s[m]).0@ != k,
    ensures
        lookup(entries_map(s), k) == lookup(entries_map(s.take(j)), k),
    decreases s.len() - j,
{
    if j < s.len() {
        assert(s.drop_last().take(j) =~= s.take(j));
        lemma_suffix_without_key(s.drop_last(), j, k);
    } else {
        assert(s.take(j) =~= s);
    }
}

/// Overwriting the last entry for a key is inserting into the mapping.
proof fn lemma_update_last(s: Seq<(String, i64)>, j: int, e: (String, i64))
    requires
        0 <= j < s.len(),
        s[j].0@ == e.0@,
        forall|m: int| j < m < s.len() ==> (#[trigger] s[m]).0@ != e.0@,
    ensures
        entries_map(s.update(j, e)) == entries_map(s).insert(e.0@, e.1),
    decreases s.len(),
{
    if j == s.len() - 1 {
        assert(s.update(j, e).drop_last() =~= s.drop_last());
        assert(entries_map(s.update(j, e)) =~= entries_map(s).insert(e.0@, e.1));
    } else {
        assert(s.update(j, e).drop_last() =~= s.drop_last().update(j, e));
        lemma_update_last(s.drop_last(), j, e);
        assert(entries_map(s.update(j, e)) =~= entries_map(s).insert(e.0@, e.1));
    }
}

impl View for Env {
    type V = Map<Seq<char>, i64>;

    closed spec fn view(&self) -> Map<Seq<char>, i64> {
        entries_map(self.entries@)
    }
}

impl Env {
    /// An environment with no variables.
    pub fn new() -> (r: Env)
        ensures
            r@ == Map::<Seq<char>, i64>::empty(),
    {
        let r = Env { entries: Vec::new() };
        assert(r@ == entries_map(r.entries@));
        r
    }

    /// The position of the last entry for `name`.
    fn find(&self, name: &String) -> (r: Option<usize>)
        ensures
            match r {
                Some(j) => j < self.entries@.len() && self.entries@[j as int].0@ == name@
                    && forall|m: int| j < m < self.entries@.len() ==> (#[trigger] self.entries@[m]).0@ != name@,
                None => forall|m: int| 0 <= m < self.entries@.len() ==> (#[trigger] self.entries@[m]).0@ != name@,
            },
    {
        let mut j = self.entries.len();
        while j > 0
            invariant
                j <= self.entries@.len(),
                forall|m: int| j <= m < self.entries@.len() ==> (#[trigger] self.entries@[m]).0@ != name@,
            decreases j,
        {
            if self.entries[j - 1].0 == *name {
                return Some(j - 1);
            }
            j = j - 1;
        }
        None
    }

    /// The current value of `name`.
    pub fn get(&self, name: &String) -> (r: Option<i64>)
        ensures
            r == lookup(self@, name@),
    {
        let ghost s = self.entries@;
        match self.find(name) {
            Some(j) => {
                proof {
                    lemma_suffix_without_key(s, j + 1, name@);
                    assert(s.take(j + 1).drop_last() =~= s.take(j as int));
                }
                Some(self.entries[j].1)
            },
            None => {
                proof {
                    lemma_suffix_without_key(s, 0, name@);
                    assert(s.take(0) =~= Seq::<(String, i64)>::empty());
                }
                None
            },
        }
    }

    /// Gives `name` the value `value`, adding the variable if it is new.
    pub fn set(&mut self, name: String, value: i64)
        ensures
            final(self)@ == old(self)@.insert(name@, value),
    {
        match self.find(&name) {
            Some(j) => {
                proof {
                    lemma_update_last(self.entries@, j as int, (name, value));
                }
                self.entries.set(j, (name, value));
            },
            None => {
                let ghost s = self.entries@;
                self.entries.push((name, value));
                assert(self.entries@.drop_last() =~= s);
            },
        }
    }
}

} // verus!
