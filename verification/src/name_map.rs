//! Maps whose keys are strings and whose entries keep the order in which they
//! came.

use vstd::prelude::*;

use crate::plain::Plain;
use crate::text::same_text;

verus! {

/// What stands under a key, if anything.
pub open spec fn entry<K, V>(map: Map<K, V>, key: K) -> Option<V> {
    if map.contains_key(key) {
        Some(map[key])
    } else {
        None
    }
}

/// Maps with the same entries are the same.
pub proof fn lemma_same_entries<K, V>(a: Map<K, V>, b: Map<K, V>)
    requires
        forall|key: K| entry(a, key) == #[trigger] entry(b, key),
    ensures
        a == b,
{
    assert forall|key: K| #[trigger] a.contains_key(key) <==> b.contains_key(key) by {
        assert(entry(a, key) == entry(b, key));
    }
    assert forall|key: K| #[trigger] a.contains_key(key) implies a[key] == b[key] by {
        assert(entry(a, key) == entry(b, key));
    }
}

/// A map from names to values. No name occurs twice.
#[derive(Debug)]
pub struct NameMap<V> {
    entries: Vec<(String, V)>,
}

impl<V> NameMap<V> {
    #[verifier::type_invariant]
    spec fn distinct(self) -> bool {
        distinct_names(self.entries@)
    }

    /// The names in the order of the entries.
    pub closed spec fn names(self) -> Seq<Seq<char>> {
        names_of(self.entries@)
    }
}

spec fn names_of<V>(entries: Seq<(String, V)>) -> Seq<Seq<char>> {
    Seq::new(entries.len(), |i: int| entries[i].0@)
}

spec fn distinct_names<V>(entries: Seq<(String, V)>) -> bool {
    forall|i: int, j: int|
        0 <= i < j < entries.len() ==> (#[trigger] entries[i]).0@ != (#[trigger] entries[j]).0@
}

spec fn map_of<V: DeepView>(entries: Seq<(String, V)>) -> Map<Seq<char>, V::V> {
    Map::new(
        |name: Seq<char>| names_of(entries).contains(name),
        |name: Seq<char>| entries[names_of(entries).index_of(name)].1.deep_view(),
    )
}

proof fn lemma_entry<V: DeepView>(entries: Seq<(String, V)>, i: int)
    requires
        distinct_names(entries),
        0 <= i < entries.len(),
    ensures
        map_of(entries).contains_key(entries[i].0@),
        map_of(entries)[entries[i].0@] == entries[i].1.deep_view(),
{
    let names = names_of(entries);
    assert(names[i] == entries[i].0@);
}

impl<V: DeepView> View for NameMap<V> {
    type V = Map<Seq<char>, V::V>;

    closed spec fn view(&self) -> Map<Seq<char>, V::V> {
        map_of(self.entries@)
    }
}

impl<V: DeepView> DeepView for NameMap<V> {
    type V = Map<Seq<char>, V::V>;

    open spec fn deep_view(&self) -> Map<Seq<char>, V::V> {
        self@
    }
}

impl<V: DeepView> NameMap<V> {
    /// A map without entries.
    pub fn new() -> (map: Self)
        ensures
            map@ == Map::<Seq<char>, V::V>::empty(),
            map.names() == Seq::<Seq<char>>::empty(),
    {
        NameMap { entries: Vec::new() }
    }

    /// The number of entries.
    pub fn len(&self) -> (len: usize)
        ensures
            len == self.names().len(),
            len == self@.dom().len(),
            self@.dom().finite(),
            self.names().no_duplicates(),
            self@.dom() == self.names().to_set(),
    {
        proof {
            use_type_invariant(self);
            self.names().unique_seq_to_set();
        }
        self.entries.len()
    }

    /// Whether the map has no entry.
    pub fn is_empty(&self) -> (empty: bool)
        ensures
            empty == (self@ == Map::<Seq<char>, V::V>::empty()),
            empty == (self@.dom().len() == 0),
    {
        let len: usize = self.len();
        proof {
            if len == 0 {
                assert(self@ =~= Map::<Seq<char>, V::V>::empty());
            }
        }
        len == 0
    }

    fn position(&self, name: &str) -> (found: Option<usize>)
        ensures
            match found {
                Some(i) => i < self.entries@.len() && self.entries@[i as int].0@ == name@,
                None => !names_of(self.entries@).contains(name@),
            },
    {
        let mut i: usize = 0;
        while i < self.entries.len()
            invariant
                i <= self.entries@.len(),
                forall|j: int| 0 <= j < i ==> (#[trigger] self.entries@[j]).0@ != name@,
            decreases self.entries@.len() - i,
        {
            if same_text(self.entries[i].0.as_str(), name) {
                return Some(i);
            }
            i += 1;
        }
        None
    }

    /// The value under a name.
    pub fn get(&self, name: &str) -> (value: Option<&V>)
        ensures
            match value {
                Some(value) => self@.contains_key(name@) && value.deep_view() == self@[name@],
                None => !self@.contains_key(name@),
            },
    {
        proof {
            use_type_invariant(self);
        }
        match self.position(name) {
            Some(i) => {
                proof {
                    lemma_entry(self.entries@, i as int);
                }
                Some(&self.entries[i].1)
            },
            None => None,
        }
    }

    /// Whether there is a value under a name.
    pub fn contains_key(&self, name: &str) -> (yes: bool)
        ensures
            yes == self@.contains_key(name@),
    {
        self.get(name).is_some()
    }

    /// The name of an entry.
    pub fn name_at(&self, i: usize) -> (name: &String)
        requires
            i < self.names().len(),
        ensures
            name@ == self.names()[i as int],
            self@.contains_key(name@),
    {
        proof {
            use_type_invariant(self);
            lemma_entry(self.entries@, i as int);
        }
        &self.entries[i].0
    }

    /// The value of an entry.
    pub fn value_at(&self, i: usize) -> (value: &V)
        requires
            i < self.names().len(),
        ensures
            value.deep_view() == self@[self.names()[i as int]],
    {
        proof {
            use_type_invariant(self);
            lemma_entry(self.entries@, i as int);
        }
        &self.entries[i].1
    }

    /// Puts a value under a name, in place of one that stood there.
    pub fn insert(&mut self, name: String, value: V)
        ensures
            final(self)@ == old(self)@.insert(name@, value.deep_view()),
            old(self)@.contains_key(name@) ==> final(self).names() == old(self).names(),
            !old(self)@.contains_key(name@) ==> final(self).names() == old(self).names().push(
                name@,
            ),
    {
        proof {
            use_type_invariant(&*self);
        }
        let found = self.position(name.as_str());
        let mut entries: Vec<(String, V)> = Vec::new();
        std::mem::swap(&mut entries, &mut self.entries);
        let ghost before = entries@;
        match found {
            Some(i) => {
                entries.set(i, (name, value));
                proof {
                    lemma_entry(before, i as int);
                    lemma_replaced(before, entries@, i as int);
                }
            },
            None => {
                entries.push((name, value));
                proof {
                    assert(entries@.drop_last() =~= before);
                    lemma_pushed(before, entries@);
                }
            },
        }
        self.entries = entries;
    }

    /// Puts another value in an entry.
    pub fn set_value_at(&mut self, i: usize, value: V)
        requires
            i < old(self).names().len(),
        ensures
            final(self).names() == old(self).names(),
            final(self)@ == old(self)@.insert(old(self).names()[i as int], value.deep_view()),
    {
        proof {
            use_type_invariant(&*self);
        }
        let mut entries: Vec<(String, V)> = Vec::new();
        std::mem::swap(&mut entries, &mut self.entries);
        let ghost before = entries@;
        let name = entries[i].0.clone();
        entries.set(i, (name, value));
        proof {
            lemma_replaced(before, entries@, i as int);
        }
        self.entries = entries;
    }

    /// Takes the entry with a name away.
    pub fn remove(&mut self, name: &str)
        ensures
            final(self)@ == old(self)@.remove(name@),
    {
        proof {
            use_type_invariant(&*self);
        }
        match self.position(name) {
            Some(i) => {
                let mut entries: Vec<(String, V)> = Vec::new();
                std::mem::swap(&mut entries, &mut self.entries);
                let ghost before = entries@;
                let _gone = entries.remove(i);
                proof {
                    lemma_removed(before, entries@, i as int);
                }
                self.entries = entries;
            },
            None => {},
        }
    }
}

impl<V: Plain> Plain for NameMap<V> {
    fn same(&self, other: &Self) -> (same: bool) {
        let len: usize = self.len();
        if len != other.len() {
            return false;
        }
        let mut i: usize = 0;
        while i < len
            invariant
                i <= len,
                len == self.names().len(),
                forall|j: int|
                    0 <= j < i ==> other@.contains_key(#[trigger] self.names()[j])
                        && other@[self.names()[j]] == self@[self.names()[j]],
            decreases len - i,
        {
            let name = self.name_at(i);
            match other.get(name.as_str()) {
                Some(value) => {
                    if !value.same(self.value_at(i)) {
                        return false;
                    }
                },
                None => {
                    return false;
                },
            }
            i += 1;
        }
        proof {
            vstd::set_lib::lemma_subset_equality(self@.dom(), other@.dom());
            assert(self@ =~= other@);
        }
        true
    }

    fn duplicate(&self) -> (copy: Self) {
        let len: usize = self.len();
        let mut copy: NameMap<V> = NameMap::new();
        let mut i: usize = 0;
        while i < len
            invariant
                i <= len,
                len == self.names().len(),
                self.names().no_duplicates(),
                self@.dom() == self.names().to_set(),
                forall|name: Seq<char>| #[trigger]
                    copy@.contains_key(name) <==> (exists|j: int|
                        0 <= j < i && self.names()[j] == name),
                forall|name: Seq<char>| #[trigger]
                    copy@.contains_key(name) ==> copy@[name] == self@[name],
            decreases len - i,
        {
            let name = self.name_at(i).clone();
            copy.insert(name, self.value_at(i).duplicate());
            i += 1;
        }
        proof {
            assert(copy@ =~= self@);
        }
        copy
    }
}

/// One more entry of a list is taken.
pub proof fn lemma_taken<T>(list: Seq<T>, i: int)
    requires
        0 <= i < list.len(),
    ensures
        forall|x: T|
            list.take(i + 1).contains(x) <==> #[trigger] list.take(i).contains(x) || x == list[i],
{
    let part = list.take(i);
    let more = list.take(i + 1);
    assert forall|x: T| more.contains(x) <==> #[trigger] part.contains(x) || x == list[i] by {
        assert(more[i] == list[i]);
    }
}

/// All entries of a list are taken.
pub proof fn lemma_all_taken<T>(list: Seq<T>, i: int)
    requires
        i == list.len(),
    ensures
        forall|x: T| #[trigger] list.take(i).contains(x) <==> list.to_set().contains(x),
{
    assert(list.take(i) =~= list);
}

proof fn lemma_replaced<V: DeepView>(before: Seq<(String, V)>, after: Seq<(String, V)>, i: int)
    requires
        distinct_names(before),
        0 <= i < before.len(),
        after == before.update(i, after[i]),
        after[i].0@ == before[i].0@,
    ensures
        distinct_names(after),
        map_of(after) == map_of(before).insert(after[i].0@, after[i].1.deep_view()),
{
    assert(names_of(after) =~= names_of(before));
    lemma_entry(before, i);
}

proof fn lemma_pushed<V: DeepView>(before: Seq<(String, V)>, after: Seq<(String, V)>)
    requires
        distinct_names(before),
        after.len() == before.len() + 1,
        after.drop_last() == before,
        !names_of(before).contains(after.last().0@),
    ensures
        distinct_names(after),
        map_of(after) == map_of(before).insert(after.last().0@, after.last().1.deep_view()),
{
    let n = before.len() as int;
    assert forall|a: int| 0 <= a < n implies (#[trigger] before[a]).0@ != after[n].0@ by {
        assert(names_of(before)[a] == before[a].0@);
    }
    assert(distinct_names(after)) by {
        assert forall|a: int, b: int| 0 <= a < b < after.len() implies (#[trigger] after[a]).0@
            != (#[trigger] after[b]).0@ by {
            assert(after[a] == before[a]);
            if b < n {
                assert(after[b] == before[b]);
            }
        }
    }
    let target = map_of(before).insert(after.last().0@, after.last().1.deep_view());
    assert forall|name: Seq<char>|
        #[trigger] map_of(after).contains_key(name) <==> target.contains_key(name) by {
        if map_of(after).contains_key(name) {
            let k = names_of(after).index_of(name);
            if k < n {
                assert(names_of(before)[k] == name);
            }
        }
        if names_of(before).contains(name) {
            let k = names_of(before).index_of(name);
            assert(names_of(after)[k] == name);
        }
        assert(names_of(after)[n] == after[n].0@);
    }
}

proof fn lemma_removed<V: DeepView>(before: Seq<(String, V)>, after: Seq<(String, V)>, i: int)
    requires
        distinct_names(before),
        0 <= i < before.len(),
        after == before.remove(i),
    ensures
        distinct_names(after),
        map_of(after) == map_of(before).remove(before[i].0@),
{
    let target = map_of(before).remove(before[i].0@);
    assert forall|name: Seq<char>|
        #[trigger] map_of(after).contains_key(name) <==> target.contains_key(name) by {
        if map_of(after).contains_key(name) {
            let k = names_of(after).index_of(name);
            let x = if k < i { k } else { k + 1 };
            assert(names_of(before)[x] == name);
        }
        if target.contains_key(name) {
            let k = names_of(before).index_of(name);
            let x = if k < i { k } else { k - 1 };
            assert(names_of(after)[x] == name);
        }
    }
}

} // verus!
