//! A table from names to sets of session ids.
//!
//! The hub keeps two of them: the chat rooms and the key-prefix listeners.
//! Names are strings, so the table is a vector of named sets whose names are
//! pairwise distinct; its view is the map from each name to its set.

use crate::prefix::starts_with;
use std::collections::HashSet;
use vstd::prelude::*;

verus! {

broadcast use vstd::std_specs::hash::group_hash_axioms;

/// One named set of session ids.
pub struct NamedSet {
    pub name: String,
    pub members: HashSet<u128>,
}

/// Names pairwise distinct.
pub open spec fn names_distinct(sets: Seq<NamedSet>) -> bool {
    forall|i: int, j: int|
        0 <= i < sets.len() && 0 <= j < sets.len() && i != j ==> #[trigger] sets[i].name@
            != #[trigger] sets[j].name@
}

/// Whether some entry of `sets` carries the name `name`.
pub open spec fn has_name(sets: Seq<NamedSet>, name: Seq<char>) -> bool {
    exists|i: int| 0 <= i < sets.len() && #[trigger] sets[i].name@ == name
}

/// The map from each name to the members of the entry that carries it.
pub open spec fn table_map(sets: Seq<NamedSet>) -> Map<Seq<char>, Set<u128>> {
    Map::new(
        |name: Seq<char>| has_name(sets, name),
        |name: Seq<char>| sets[choose|i: int| 0 <= i < sets.len() && #[trigger] sets[i].name@ == name].members@,
    )
}

/// The members of the set named `name`, or the empty set where there is none.
pub open spec fn members_or_empty(m: Map<Seq<char>, Set<u128>>, name: Seq<char>) -> Set<u128> {
    if m.dom().contains(name) {
        m[name]
    } else {
        Set::empty()
    }
}

/// The members of every set of `m` whose name is a prefix of `key`.
pub open spec fn under_prefixes(m: Map<Seq<char>, Set<u128>>, key: Seq<char>) -> Set<u128> {
    Set::new(|id: u128| exists|name: Seq<char>| #[trigger] m.dom().contains(name) && name.is_prefix_of(key) && m[name].contains(id))
}

/// The members of the first `n` entries whose names are prefixes of `key`.
spec fn gathered(sets: Seq<NamedSet>, key: Seq<char>, n: int) -> Set<u128> {
    Set::new(|id: u128| exists|j: int| 0 <= j < n && sets[j].name@.is_prefix_of(key) && #[trigger] sets[j].members@.contains(id))
}

/// The part of `m` whose sets hold `id`.
pub open spec fn holding(m: Map<Seq<char>, Set<u128>>, id: u128) -> Map<Seq<char>, Set<u128>> {
    m.restrict(m.dom().filter(|name: Seq<char>| m[name].contains(id)))
}

/// `names` lists every name of `m` once, and nothing else.
pub open spec fn lists_each_name_once(names: Seq<String>, m: Map<Seq<char>, Set<u128>>) -> bool {
    &&& forall|k: int| 0 <= k < names.len() ==> m.dom().contains(#[trigger] names[k]@)
    &&& forall|name: Seq<char>|
        m.dom().contains(name) ==> exists|k: int| 0 <= k < names.len() && #[trigger] names[k]@ == name
    &&& forall|a: int, b: int|
        0 <= a < names.len() && 0 <= b < names.len() && a != b ==> #[trigger] names[a]@
            != #[trigger] names[b]@
}

/// The elements of a set of ids, each once.
pub fn elements(set: &HashSet<u128>) -> (res: Vec<u128>)
    ensures
        res@.to_set() == set@,
        res@.no_duplicates(),
{
    let mut res: Vec<u128> = Vec::new();
    let ghost keys = vstd::std_specs::iter::IteratorSpec::remaining(&vstd::std_specs::hash::spec_hash_keys_iter(set)).unref();
    for x in it: set.iter()
        invariant
            it.seq().unref() == keys,
            it.index() == res@.len(),
            res@ == keys.take(res@.len() as int),
    {
        proof {
            assert(keys.take(res@.len() + 1int) =~= keys.take(res@.len() as int).push(*x));
        }
        res.push(*x);
    }
    proof {
        assert(keys.take(res@.len() as int) =~= keys);
    }
    res
}

/// A table of named sets of session ids.
pub struct NamedSets {
    sets: Vec<NamedSet>,
}

impl View for NamedSets {
    type V = Map<Seq<char>, Set<u128>>;

    closed spec fn view(&self) -> Map<Seq<char>, Set<u128>> {
        table_map(self.sets@)
    }
}

/// The entry at `i` is the one that the map reads under its name.
proof fn lemma_table_map_at(sets: Seq<NamedSet>, i: int)
    requires
        names_distinct(sets),
        0 <= i < sets.len(),
    ensures
        table_map(sets).dom().contains(sets[i].name@),
        table_map(sets)[sets[i].name@] == sets[i].members@,
{
    let name = sets[i].name@;
    assert(has_name(sets, name));
    let j = choose|j: int| 0 <= j < sets.len() && #[trigger] sets[j].name@ == name;
    assert(sets[j].name@ == sets[i].name@);
}

/// Replacing an entry by one of the same name replaces the set under that name.
proof fn lemma_table_map_update(sets: Seq<NamedSet>, i: int, entry: NamedSet)
    requires
        names_distinct(sets),
        0 <= i < sets.len(),
        entry.name@ == sets[i].name@,
    ensures
        names_distinct(sets.update(i, entry)),
        table_map(sets.update(i, entry)) == table_map(sets).insert(entry.name@, entry.members@),
{
    let new_sets = sets.update(i, entry);
    assert forall|a: int, b: int|
        0 <= a < new_sets.len() && 0 <= b < new_sets.len() && a != b implies #[trigger] new_sets[a].name@
        != #[trigger] new_sets[b].name@ by {
        assert(new_sets[a].name@ == sets[a].name@);
        assert(new_sets[b].name@ == sets[b].name@);
    }
    let lhs = table_map(new_sets);
    let rhs = table_map(sets).insert(entry.name@, entry.members@);
    assert forall|name: Seq<char>| lhs.dom().contains(name) <==> rhs.dom().contains(name) by {
        if has_name(new_sets, name) {
            let j = choose|j: int| 0 <= j < new_sets.len() && #[trigger] new_sets[j].name@ == name;
            assert(sets[j].name@ == name);
        }
        if has_name(sets, name) {
            let j = choose|j: int| 0 <= j < sets.len() && #[trigger] sets[j].name@ == name;
            assert(new_sets[j].name@ == name);
        }
        if name == entry.name@ {
            assert(new_sets[i].name@ == name);
        }
    }
    assert forall|name: Seq<char>| lhs.dom().contains(name) implies lhs[name] == rhs[name] by {
        let j = choose|j: int| 0 <= j < new_sets.len() && #[trigger] new_sets[j].name@ == name;
        lemma_table_map_at(new_sets, j);
        if j != i {
            lemma_table_map_at(sets, j);
        }
    }
    assert(lhs =~= rhs);
}

/// Appending an entry under a new name adds that name with its set.
proof fn lemma_table_map_push(sets: Seq<NamedSet>, entry: NamedSet)
    requires
        names_distinct(sets),
        !table_map(sets).dom().contains(entry.name@),
    ensures
        names_distinct(sets.push(entry)),
        table_map(sets.push(entry)) == table_map(sets).insert(entry.name@, entry.members@),
{
    let new_sets = sets.push(entry);
    let last = sets.len() as int;
    assert forall|a: int, b: int|
        0 <= a < new_sets.len() && 0 <= b < new_sets.len() && a != b implies #[trigger] new_sets[a].name@
        != #[trigger] new_sets[b].name@ by {
        if a < last && b < last {
            assert(new_sets[a] == sets[a]);
            assert(new_sets[b] == sets[b]);
        } else if a < last {
            assert(new_sets[a] == sets[a]);
            assert(sets[a].name@ == sets[a].name@);
            if sets[a].name@ == entry.name@ {
                assert(has_name(sets, entry.name@));
            }
        } else {
            assert(new_sets[b] == sets[b]);
            if sets[b].name@ == entry.name@ {
                assert(has_name(sets, entry.name@));
            }
        }
    }
    let lhs = table_map(new_sets);
    let rhs = table_map(sets).insert(entry.name@, entry.members@);
    assert forall|name: Seq<char>| lhs.dom().contains(name) <==> rhs.dom().contains(name) by {
        if has_name(new_sets, name) {
            let j = choose|j: int| 0 <= j < new_sets.len() && #[trigger] new_sets[j].name@ == name;
            if j < last {
                assert(new_sets[j] == sets[j]);
                assert(has_name(sets, name));
            }
        }
        if has_name(sets, name) {
            let j = choose|j: int| 0 <= j < sets.len() && #[trigger] sets[j].name@ == name;
            assert(new_sets[j] == sets[j]);
            assert(has_name(new_sets, name));
        }
        if name == entry.name@ {
            assert(new_sets[last].name@ == name);
        }
    }
    assert forall|name: Seq<char>| lhs.dom().contains(name) implies lhs[name] == rhs[name] by {
        let j = choose|j: int| 0 <= j < new_sets.len() && #[trigger] new_sets[j].name@ == name;
        lemma_table_map_at(new_sets, j);
        if j < last {
            assert(new_sets[j] == sets[j]);
            lemma_table_map_at(sets, j);
        }
    }
    assert(lhs =~= rhs);
}

impl NamedSets {
    /// The table keeps its names pairwise distinct.
    pub closed spec fn wf(&self) -> bool {
        names_distinct(self.sets@)
    }

    /// An empty table.
    pub fn new() -> (res: Self)
        ensures
            res.wf(),
            res@ == Map::<Seq<char>, Set<u128>>::empty(),
    {
        let res = NamedSets { sets: Vec::new() };
        assert(res@ =~= Map::<Seq<char>, Set<u128>>::empty());
        res
    }

    /// The position of the entry named `name`.
    fn find(&self, name: &String) -> (res: Option<usize>)
        requires
            self.wf(),
        ensures
            match res {
                Some(i) => i < self.sets@.len() && self.sets@[i as int].name@ == name@,
                None => !self@.dom().contains(name@),
            },
    {
        let mut i: usize = 0;
        while i < self.sets.len()
            invariant
                i <= self.sets@.len(),
                forall|j: int| 0 <= j < i ==> #[trigger] self.sets@[j].name@ != name@,
            decreases self.sets@.len() - i,
        {
            if self.sets[i].name == *name {
                return Some(i);
            }
            i = i + 1;
        }
        None
    }

    /// The members of the set named `name`, if the table has one.
    pub fn members(&self, name: &String) -> (res: Option<&HashSet<u128>>)
        requires
            self.wf(),
        ensures
            res is Some <==> self@.dom().contains(name@),
            res matches Some(s) ==> s@ == self@[name@],
    {
        match self.find(name) {
            Some(i) => {
                proof {
                    lemma_table_map_at(self.sets@, i as int);
                }
                Some(&self.sets[i].members)
            },
            None => None,
        }
    }
    /// Adds `id` to the set named `name`, creating that set if the table has none.
    pub fn add_member(&mut self, name: &String, id: u128)
        requires
            old(self).wf(),
        ensures
            final(self).wf(),
            final(self)@ == old(self)@.insert(name@, members_or_empty(old(self)@, name@).insert(id)),
    {
        match self.find(name) {
            Some(i) => {
                let ghost old_sets = self.sets@;
                proof {
                    lemma_table_map_at(old_sets, i as int);
                }
                let entry = &mut self.sets[i];
                entry.members.insert(id);
                proof {
                    lemma_table_map_update(old_sets, i as int, self.sets@[i as int]);
                }
            },
            None => {
                let mut members: HashSet<u128> = HashSet::new();
                members.insert(id);
                let entry = NamedSet { name: name.clone(), members };
                proof {
                    lemma_table_map_push(self.sets@, entry);
                }
                self.sets.push(entry);
            },
        }
    }

    /// Makes `members` the set named `name`, in place of any set of that name.
    pub fn set_members(&mut self, name: &String, members: HashSet<u128>)
        requires
            old(self).wf(),
        ensures
            final(self).wf(),
            final(self)@ == old(self)@.insert(name@, members@),
    {
        let entry = NamedSet { name: name.clone(), members };
        match self.find(name) {
            Some(i) => {
                proof {
                    lemma_table_map_update(self.sets@, i as int, entry);
                }
                self.sets.set(i, entry);
            },
            None => {
                proof {
                    lemma_table_map_push(self.sets@, entry);
                }
                self.sets.push(entry);
            },
        }
    }
    /// Takes `id` out of every set of the table; the names stay. Returns the
    /// names of the sets that held `id`, each once.
    pub fn remove_everywhere(&mut self, id: u128) -> (res: Vec<String>)
        requires
            old(self).wf(),
        ensures
            final(self).wf(),
            final(self)@ == old(self)@.map_values(|members: Set<u128>| members.remove(id)),
            lists_each_name_once(res@, holding(old(self)@, id)),
    {
        let ghost old_sets = self.sets@;
        let ghost old_map = self@;
        let mut res: Vec<String> = Vec::new();
        let ghost mut idx: Seq<int> = Seq::empty();
        let mut i: usize = 0;
        while i < self.sets.len()
            invariant
                names_distinct(old_sets),
                self.sets@.len() == old_sets.len(),
                i <= old_sets.len(),
                forall|j: int| 0 <= j < old_sets.len() ==> #[trigger] self.sets@[j].name@ == old_sets[j].name@,
                forall|j: int| 0 <= j < i ==> #[trigger] self.sets@[j].members@ == old_sets[j].members@.remove(id),
                forall|j: int| i <= j < old_sets.len() ==> #[trigger] self.sets@[j].members@ == old_sets[j].members@,
                idx.len() == res@.len(),
                forall|k: int| 0 <= k < idx.len() ==> 0 <= #[trigger] idx[k] < i
                    && res@[k]@ == old_sets[idx[k]].name@ && old_sets[idx[k]].members@.contains(id),
                forall|a: int, b: int| 0 <= a < b < idx.len() ==> #[trigger] idx[a] < #[trigger] idx[b],
                forall|j: int| 0 <= j < i && #[trigger] old_sets[j].members@.contains(id)
                    ==> exists|k: int| 0 <= k < idx.len() && idx[k] == j,
            decreases old_sets.len() - i,
        {
            let ghost old_idx = idx;
            let ghost before_sets = self.sets@;
            let entry = &mut self.sets[i];
            let held = entry.members.remove(&id);
            assert(self.sets@ == before_sets.update(i as int, self.sets@[i as int]));
            assert(self.sets@[i as int].name@ == old_sets[i as int].name@);
            if held {
                res.push(self.sets[i].name.clone());
                proof {
                    idx = idx.push(i as int);
                }
            }
            proof {
                assert forall|j: int| 0 <= j < old_sets.len() implies #[trigger] self.sets@[j].name@ == old_sets[j].name@ by {
                    if j != i {
                        assert(self.sets@[j] == before_sets[j]);
                        assert(before_sets[j].name@ == old_sets[j].name@);
                    }
                }
                assert forall|j: int| 0 <= j < i + 1 && #[trigger] old_sets[j].members@.contains(id)
                    implies exists|k: int| 0 <= k < idx.len() && idx[k] == j by {
                    if j == i {
                        assert(idx[idx.len() - 1] == j);
                    } else {
                        let k = choose|k: int| 0 <= k < old_idx.len() && old_idx[k] == j;
                        assert(idx[k] == j);
                    }
                }
            }
            i = i + 1;
        }
        proof {
            assert forall|k: int| 0 <= k < res@.len() implies holding(old_map, id).dom().contains(#[trigger] res@[k]@) by {
                lemma_table_map_at(old_sets, idx[k]);
            }
            assert forall|name: Seq<char>| holding(old_map, id).dom().contains(name) implies exists|k: int|
                0 <= k < res@.len() && #[trigger] res@[k]@ == name by {
                let j = choose|j: int| 0 <= j < old_sets.len() && #[trigger] old_sets[j].name@ == name;
                lemma_table_map_at(old_sets, j);
                assert(old_sets[j].members@.contains(id));
                let k = choose|k: int| 0 <= k < idx.len() && idx[k] == j;
                assert(res@[k]@ == name);
            }
            assert forall|a: int, b: int|
                0 <= a < res@.len() && 0 <= b < res@.len() && a != b implies #[trigger] res@[a]@
                != #[trigger] res@[b]@ by {
                if a < b {
                    assert(idx[a] < idx[b]);
                } else {
                    assert(idx[b] < idx[a]);
                }
            }
        }
        proof {
            let new_sets = self.sets@;
            assert forall|a: int, b: int|
                0 <= a < new_sets.len() && 0 <= b < new_sets.len() && a != b implies #[trigger] new_sets[a].name@
                != #[trigger] new_sets[b].name@ by {
                assert(new_sets[a].name@ == old_sets[a].name@);
                assert(new_sets[b].name@ == old_sets[b].name@);
            }
            let lhs = table_map(new_sets);
            let rhs = table_map(old_sets).map_values(|members: Set<u128>| members.remove(id));
            assert forall|name: Seq<char>| lhs.dom().contains(name) <==> rhs.dom().contains(name) by {
                if has_name(new_sets, name) {
                    let j = choose|j: int| 0 <= j < new_sets.len() && #[trigger] new_sets[j].name@ == name;
                    assert(old_sets[j].name@ == name);
                }
                if has_name(old_sets, name) {
                    let j = choose|j: int| 0 <= j < old_sets.len() && #[trigger] old_sets[j].name@ == name;
                    assert(new_sets[j].name@ == name);
                }
            }
            assert forall|name: Seq<char>| lhs.dom().contains(name) implies lhs[name] == rhs[name] by {
                let j = choose|j: int| 0 <= j < new_sets.len() && #[trigger] new_sets[j].name@ == name;
                lemma_table_map_at(new_sets, j);
                assert(old_sets[j].name@ == name);
                lemma_table_map_at(old_sets, j);
            }
            assert(lhs =~= rhs);
        }
        res
    }

    /// The members of every set whose name is a prefix of `key`.
    pub fn members_under_prefixes(&self, key: &str) -> (res: HashSet<u128>)
        requires
            self.wf(),
        ensures
            res@ == under_prefixes(self@, key@),
    {
        let ghost sets = self.sets@;
        let mut res: HashSet<u128> = HashSet::new();
        let mut i: usize = 0;
        while i < self.sets.len()
            invariant
                sets == self.sets@,
                i <= sets.len(),
                res@ == gathered(sets, key@, i as int),
            decreases sets.len() - i,
        {
            let entry = &self.sets[i];
            let ghost before = res@;
            if starts_with(key, entry.name.as_str()) {
                let ids = elements(&entry.members);
                let mut k: usize = 0;
                while k < ids.len()
                    invariant
                        k <= ids@.len(),
                        res@ == before + ids@.take(k as int).to_set(),
                    decreases ids@.len() - k,
                {
                    proof {
                        assert(ids@.take(k + 1int) == ids@.take(k as int).push(ids@[k as int]));
                        ids@.take(k as int).lemma_push_to_set_commute(ids@[k as int]);
                    }
                    res.insert(ids[k]);
                    proof {
                        assert(res@ =~= before + ids@.take(k + 1int).to_set());
                    }
                    k = k + 1;
                }
                proof {
                    assert(ids@.take(ids@.len() as int) =~= ids@);
                    assert forall|id: u128| res@.contains(id) <==> gathered(sets, key@, i + 1int).contains(id) by {
                        if gathered(sets, key@, i + 1int).contains(id) {
                            let j = choose|j: int| 0 <= j < i + 1 && sets[j].name@.is_prefix_of(key@) && #[trigger] sets[j].members@.contains(id);
                            if j < i {
                                assert(before.contains(id));
                            }
                        }
                        if before.contains(id) {
                            let j = choose|j: int| 0 <= j < i && sets[j].name@.is_prefix_of(key@) && #[trigger] sets[j].members@.contains(id);
                            assert(0 <= j < i + 1);
                        }
                        if entry.members@.contains(id) {
                            assert(sets[i as int].members@.contains(id));
                        }
                    }
                    assert(res@ =~= gathered(sets, key@, i + 1int));
                }
            } else {
                proof {
                    assert forall|id: u128| res@.contains(id) <==> gathered(sets, key@, i + 1int).contains(id) by {
                        if gathered(sets, key@, i + 1int).contains(id) {
                            let j = choose|j: int| 0 <= j < i + 1 && sets[j].name@.is_prefix_of(key@) && #[trigger] sets[j].members@.contains(id);
                            assert(j != i);
                        }
                        if before.contains(id) {
                            let j = choose|j: int| 0 <= j < i && sets[j].name@.is_prefix_of(key@) && #[trigger] sets[j].members@.contains(id);
                            assert(0 <= j < i + 1);
                        }
                    }
                    assert(res@ =~= gathered(sets, key@, i + 1int));
                }
            }
            i = i + 1;
        }
        proof {
            assert forall|id: u128| res@.contains(id) <==> under_prefixes(self@, key@).contains(id) by {
                if res@.contains(id) {
                    let j = choose|j: int| 0 <= j < sets.len() && sets[j].name@.is_prefix_of(key@) && #[trigger] sets[j].members@.contains(id);
                    lemma_table_map_at(sets, j);
                    assert(self@.dom().contains(sets[j].name@));
                }
                if under_prefixes(self@, key@).contains(id) {
                    let name = choose|name: Seq<char>| #[trigger] self@.dom().contains(name) && name.is_prefix_of(key@) && self@[name].contains(id);
                    let j = choose|j: int| 0 <= j < sets.len() && #[trigger] sets[j].name@ == name;
                    lemma_table_map_at(sets, j);
                    assert(sets[j].members@.contains(id));
                }
            }
            assert(res@ =~= under_prefixes(self@, key@));
        }
        res
    }

    /// The names of the table, each once.
    pub fn names(&self) -> (res: Vec<String>)
        requires
            self.wf(),
        ensures
            lists_each_name_once(res@, self@),
    {
        let mut res: Vec<String> = Vec::new();
        let mut i: usize = 0;
        while i < self.sets.len()
            invariant
                i <= self.sets@.len(),
                res@.len() == i,
                forall|k: int| 0 <= k < i ==> #[trigger] res@[k]@ == self.sets@[k].name@,
            decreases self.sets@.len() - i,
        {
            res.push(self.sets[i].name.clone());
            i = i + 1;
        }
        proof {
            assert forall|k: int| 0 <= k < res@.len() implies self@.dom().contains(#[trigger] res@[k]@) by {
                lemma_table_map_at(self.sets@, k);
            }
            assert forall|name: Seq<char>| self@.dom().contains(name) implies exists|k: int|
                0 <= k < res@.len() && #[trigger] res@[k]@ == name by {
                let j = choose|j: int| 0 <= j < self.sets@.len() && #[trigger] self.sets@[j].name@ == name;
                assert(res@[j]@ == name);
            }
            assert forall|a: int, b: int|
                0 <= a < res@.len() && 0 <= b < res@.len() && a != b implies #[trigger] res@[a]@
                != #[trigger] res@[b]@ by {
                assert(res@[a]@ == self.sets@[a].name@);
                assert(res@[b]@ == self.sets@[b].name@);
            }
        }
        res
    }
}

} // verus!
