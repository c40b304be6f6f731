//! A map keyed by names (character sequences), kept as a list of entries in
//! insertion order; a later entry for a name replaces the earlier ones.
use vstd::prelude::*;

use crate::text::chars_eq;

verus! {

/// The map that a list of entries denotes: later entries win.
pub open spec fn entries_map<V: View>(e: Seq<(Vec<char>, V)>) -> Map<Seq<char>, V::V>
    decreases e.len(),
{
    if e.len() == 0 {
        Map::empty()
    } else {
        entries_map(e.drop_last()).insert(e.last().0@, e.last().1@)
    }
}

/// Entries after position `j` that do not mention `k` do not change what the
/// map says of `k`.
proof fn lemma_entries_suffix<V: View>(e: Seq<(Vec<char>, V)>, j: int, k: Seq<char>)
    requires
        0 <= j <= e.len(),
        forall|t: int| j <= t < e.len() ==> e[t].0@ != k,
    ensures
        entries_map(e).contains_key(k) == entries_map(e.take(j)).contains_key(k),
        entries_map(e).contains_key(k) ==> entries_map(e)[k] == entries_map(e.take(j))[k],
    decreases e.len(),
{
    if j < e.len() {
        assert(e.drop_last().take(j) =~= e.take(j));
        lemma_entries_suffix(e.drop_last(), j, k);
    } else {
        assert(e.take(j) =~= e);
    }
}

pub struct NameMap<V> {
    pub entries: Vec<(Vec<char>, V)>,
}

impl<V: View> View for NameMap<V> {
    type V = Map<Seq<char>, V::V>;

    open spec fn view(&self) -> Map<Seq<char>, V::V> {
        entries_map(self.entries@)
    }
}

impl<V: View> NameMap<V> {
    pub fn new() -> (m: Self)
        ensures
            m@ == Map::<Seq<char>, V::V>::empty(),
    {
        NameMap { entries: Vec::new() }
    }

    pub fn insert(&mut self, k: Vec<char>, v: V)
        ensures
            final(self)@ == old(self)@.insert(k@, v@),
    {
        let ghost old_e = self.entries@;
        self.entries.push((k, v));
        assert(self.entries@.drop_last() =~= old_e);
    }

    /// The index of the entry that holds `k`'s value, if `k` is in the map.
    pub fn find(&self, k: &Vec<char>) -> (r: Option<usize>)
        ensures
            match r {
                Some(i) => {
                    &&& self@.contains_key(k@)
                    &&& i < self.entries@.len()
                    &&& self.entries@[i as int].0@ == k@
                    &&& self@[k@] == self.entries@[i as int].1@
                },
                None => !self@.contains_key(k@),
            },
    {
        let mut j = self.entries.len();
        while j > 0
            invariant
                j <= self.entries@.len(),
                forall|t: int| j <= t < self.entries@.len() ==> self.entries@[t].0@ != k@,
            decreases j,
        {
            if chars_eq(&self.entries[j - 1].0, k) {
                proof {
                    lemma_entries_suffix(self.entries@, j as int, k@);
                    let pre = self.entries@.take(j as int);
                    assert(pre.drop_last() =~= self.entries@.take(j - 1));
                    assert(pre.last() == self.entries@[j - 1]);
                }
                return Some(j - 1);
            }
            j = j - 1;
        }
        proof {
            lemma_entries_suffix(self.entries@, 0, k@);
            assert(self.entries@.take(0) =~= Seq::<(Vec<char>, V)>::empty());
        }
        None
    }

    pub fn get(&self, k: &Vec<char>) -> (r: Option<&V>)
        ensures
            match r {
                Some(v) => self@.contains_key(k@) && v@ == self@[k@],
                None => !self@.contains_key(k@),
            },
    {
        match self.find(k) {
            Some(i) => Some(&self.entries[i].1),
            None => None,
        }
    }

    pub fn contains_key(&self, k: &Vec<char>) -> (r: bool)
        ensures
            r == self@.contains_key(k@),
    {
        self.find(k).is_some()
    }
}

impl NameMap<Vec<char>> {
    /// Inserts every entry of `other`, in order.
    pub fn insert_all(&mut self, other: &NameMap<Vec<char>>)
        ensures
            final(self)@ == old(self)@.union_prefer_right(other@),
    {
        let mut i: usize = 0;
        assert(other.entries@.take(0) =~= Seq::<(Vec<char>, Vec<char>)>::empty());
        assert(old(self)@.union_prefer_right(Map::empty()) =~= old(self)@);
        while i < other.entries.len()
            invariant
                i <= other.entries@.len(),
                self@ == old(self)@.union_prefer_right(entries_map(other.entries@.take(i as int))),
            decreases other.entries@.len() - i,
        {
            let k = other.entries[i].0.clone();
            let v = other.entries[i].1.clone();
            let ghost e = other.entries@[i as int];
            let ghost before = self@;
            assert(other.entries@.take(i + 1).drop_last() =~= other.entries@.take(i as int));
            self.insert(k, v);
            assert(self@ =~= old(self)@.union_prefer_right(
                entries_map(other.entries@.take(i + 1)),
            ));
            i = i + 1;
        }
        assert(other.entries@.take(other.entries@.len() as int) =~= other.entries@);
    }
}

/// A set of names.
pub struct NameSet {
    pub names: Vec<Vec<char>>,
}

pub open spec fn names_set(v: Seq<Vec<char>>) -> Set<Seq<char>> {
    v.map_values(|x: Vec<char>| x@).to_set()
}

impl View for NameSet {
    type V = Set<Seq<char>>;

    open spec fn view(&self) -> Set<Seq<char>> {
        names_set(self.names@)
    }
}

impl NameSet {
    pub fn new() -> (s: Self)
        ensures
            s@ == Set::<Seq<char>>::empty(),
    {
        let s = NameSet { names: Vec::new() };
        assert(s@ =~= Set::<Seq<char>>::empty());
        s
    }

    pub fn contains(&self, k: &Vec<char>) -> (r: bool)
        ensures
            r == self@.contains(k@),
    {
        let mut i: usize = 0;
        while i < self.names.len()
            invariant
                i <= self.names@.len(),
                forall|j: int| 0 <= j < i ==> self.names@[j]@ != k@,
            decreases self.names@.len() - i,
        {
            if chars_eq(&self.names[i], k) {
                assert(self.names@.map_values(|x: Vec<char>| x@)[i as int] == k@);
                return true;
            }
            i = i + 1;
        }
        assert(!self.names@.map_values(|x: Vec<char>| x@).contains(k@));
        false
    }

    /// Adds a name; a name already present stays once.
    pub fn insert(&mut self, k: Vec<char>)
        ensures
            final(self)@ == old(self)@.insert(k@),
    {
        if !self.contains(&k) {
            let ghost before = self.names@;
            self.names.push(k);
            assert(self.names@.map_values(|x: Vec<char>| x@) =~= before.map_values(
                |x: Vec<char>| x@,
            ).push(k@));
            proof {
                before.map_values(|x: Vec<char>| x@).lemma_push_to_set_commute(k@);
            }
        } else {
            assert(old(self)@.insert(k@) =~= old(self)@);
        }
    }
}

} // verus!
