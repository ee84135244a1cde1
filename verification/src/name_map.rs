//! Maps keyed by names, kept in name order.
use crate::style_model::Name;
use crate::text::{
    chars_less, lemma_chars_less_asymmetric, lemma_chars_less_irreflexive,
    lemma_chars_less_total, lemma_chars_less_transitive,
};
use vstd::prelude::*;

verus! {

/// Keys strictly increasing in code-point order.
pub open spec fn names_sorted<V>(s: Seq<(Name, V)>) -> bool {
    forall|i: int, j: int| 0 <= i < j < s.len() ==> chars_less(#[trigger] s[i].0@, #[trigger] s[j].0@)
}

/// The map described by a list of entries; later entries replace earlier ones.
pub open spec fn entries_map<V>(s: Seq<(Name, V)>) -> Map<Seq<char>, V>
    decreases s.len(),
{
    if s.len() == 0 {
        Map::empty()
    } else {
        entries_map(s.drop_last()).insert(s.last().0@, s.last().1)
    }
}

/// Whether some entry has key `k`.
pub open spec fn has_key<V>(s: Seq<(Name, V)>, k: Seq<char>) -> bool {
    exists|i: int| 0 <= i < s.len() && #[trigger] s[i].0@ == k
}

pub proof fn lemma_entries_map_domain<V>(s: Seq<(Name, V)>, k: Seq<char>)
    ensures
        entries_map(s).contains_key(k) <==> has_key(s, k),
    decreases s.len(),
{
    if s.len() > 0 {
        lemma_entries_map_domain(s.drop_last(), k);
        if has_key(s.drop_last(), k) {
            let i = choose|i: int| 0 <= i < s.drop_last().len() && #[trigger] s.drop_last()[i].0@ == k;
            assert(s[i].0@ == k);
        }
        if has_key(s, k) && s.last().0@ != k {
            let i = choose|i: int| 0 <= i < s.len() && #[trigger] s[i].0@ == k;
            assert(s.drop_last()[i].0@ == k);
        }
    }
}

pub proof fn lemma_entries_map_value<V>(s: Seq<(Name, V)>, i: int)
    requires
        names_sorted(s),
        0 <= i < s.len(),
    ensures
        entries_map(s).contains_key(s[i].0@),
        entries_map(s)[s[i].0@] == s[i].1,
    decreases s.len(),
{
    if i < s.len() - 1 {
        assert(chars_less(s[i].0@, s[s.len() - 1].0@));
        lemma_chars_less_irreflexive(s[i].0@);
        lemma_entries_map_value(s.drop_last(), i);
    }
}

/// Maps keyed by names whose entries are kept in name order.
#[derive(Debug, PartialEq, Eq)]
pub struct NameMap<V> {
    entries: Vec<(Name, V)>,
}

impl<V> View for NameMap<V> {
    type V = Map<Seq<char>, V>;

    closed spec fn view(&self) -> Map<Seq<char>, V> {
        entries_map(self.entries@)
    }
}

impl<V> NameMap<V> {
    #[verifier::type_invariant]
    closed spec fn inv(self) -> bool {
        names_sorted(self.entries@)
    }

    /// The entries in name order.
    pub closed spec fn ordered(&self) -> Seq<(Name, V)> {
        self.entries@
    }

    /// The entries are in strictly increasing name order and describe the map.
    pub fn check_ordered(&self)
        ensures
            names_sorted(self.ordered()),
            self@ == entries_map(self.ordered()),
            forall|k: Seq<char>| #[trigger] self@.contains_key(k) <==> has_key(self.ordered(), k),
            forall|i: int|
                0 <= i < self.ordered().len() ==> #[trigger] self@[self.ordered()[i].0@]
                    == self.ordered()[i].1,
    {
        proof {
        use_type_invariant(self);
        assert forall|k: Seq<char>| #[trigger] self@.contains_key(k) <==> has_key(
            self.ordered(),
            k,
        ) by {
            lemma_entries_map_domain(self.entries@, k);
        }
        assert forall|i: int| 0 <= i < self.ordered().len() implies #[trigger] self@[self.ordered()[i].0@]
            == self.ordered()[i].1 by {
            lemma_entries_map_value(self.entries@, i);
        }
        }
    }

    /// Creates an empty map.
    pub fn new() -> (r: NameMap<V>)
        ensures
            r@ == Map::<Seq<char>, V>::empty(),
            r.ordered().len() == 0,
    {
        NameMap { entries: Vec::new() }
    }

    /// Returns the number of entries.
    pub fn len(&self) -> (r: usize)
        ensures
            r == self.ordered().len(),
            r == self@.len(),
    {
        proof {
            use_type_invariant(self);
            lemma_sorted_map_len(self.entries@);
        }
        self.entries.len()
    }

    /// Returns whether the map is empty.
    pub fn is_empty(&self) -> (r: bool)
        ensures
            r == (self@.len() == 0),
    {
        self.len() == 0
    }

    /// Returns the entries in name order.
    pub fn entries(&self) -> (r: &[(Name, V)])
        ensures
            r@ == self.ordered(),
    {
        self.entries.as_slice()
    }

    /// Finds the position of `name`, or where it would be inserted.
    fn position(&self, name: &Name) -> (r: (usize, bool))
        ensures
            r.0 <= self.ordered().len(),
            r.1 ==> r.0 < self.ordered().len() && self.ordered()[r.0 as int].0@ == name@,
            !r.1 ==> !has_key(self.ordered(), name@),
            forall|j: int| 0 <= j < r.0 ==> chars_less(#[trigger] self.ordered()[j].0@, name@),
            forall|j: int|
                r.0 <= j < self.ordered().len() ==> !chars_less(#[trigger] self.ordered()[j].0@, name@),
    {
        proof {
            use_type_invariant(self);
        }
        let mut k: usize = 0;
        while k < self.entries.len() && self.entries[k].0.less(name)
            invariant
                k <= self.entries@.len(),
                names_sorted(self.entries@),
                forall|j: int| 0 <= j < k ==> chars_less(#[trigger] self.entries@[j].0@, name@),
            decreases self.entries@.len() - k,
        {
            k = k + 1;
        }
        proof {
            assert forall|j: int| k <= j < self.entries@.len() implies !chars_less(
                #[trigger] self.entries@[j].0@,
                name@,
            ) by {
                if chars_less(self.entries@[j].0@, name@) && j > k {
                    lemma_chars_less_transitive(self.entries@[k as int].0@, self.entries@[j].0@, name@);
                }
            }
        }
        let found = k < self.entries.len() && self.entries[k].0.same(name);
        proof {
            if !found {
                if has_key(self.entries@, name@) {
                    let i = choose|i: int| 0 <= i < self.entries@.len() && #[trigger] self.entries@[i].0@ == name@;
                    lemma_chars_less_irreflexive(name@);
                    if i > k {
                        assert(chars_less(self.entries@[k as int].0@, self.entries@[i].0@));
                        lemma_chars_less_total(self.entries@[k as int].0@, name@);
                        lemma_chars_less_asymmetric(self.entries@[k as int].0@, name@);
                    }
                }
            }
        }
        (k, found)
    }

    /// Returns the value stored under `name`.
    pub fn get(&self, name: &Name) -> (r: Option<&V>)
        ensures
            match r {
                Some(v) => self@.contains_key(name@) && *v == self@[name@],
                None => !self@.contains_key(name@),
            },
    {
        self.check_ordered();
        let (k, found) = self.position(name);
        if found {
            Some(&self.entries[k].1)
        } else {
            None
        }
    }

    /// Returns whether `name` has an entry.
    pub fn contains_key(&self, name: &Name) -> (r: bool)
        ensures
            r == self@.contains_key(name@),
    {
        self.check_ordered();
        let (_, found) = self.position(name);
        found
    }

    /// Adds or replaces the entry for `name`, returning the replaced value.
    pub fn insert(&mut self, name: Name, value: V) -> (r: Option<V>)
        ensures
            final(self)@ == old(self)@.insert(name@, value),
            match r {
                Some(v) => old(self)@.contains_key(name@) && v == old(self)@[name@],
                None => !old(self)@.contains_key(name@),
            },
    {
        self.check_ordered();
        let (k, found) = self.position(&name);
        let ghost before = self.entries@;
        let mut entries: Vec<(Name, V)> = Vec::new();
        std::mem::swap(&mut entries, &mut self.entries);
        if found {
            let previous = entries.remove(k);
            entries.insert(k, (name, value));
            proof {
                let after = entries@;
                assert(after =~= before.update(k as int, (name, value)));
                assert(names_sorted(after));
                lemma_replace_map(before, k as int, name, value);
            }
            self.entries = entries;
            Some(previous.1)
        } else {
            entries.insert(k, (name, value));
            proof {
                let after = entries@;
                assert(after =~= before.insert(k as int, (name, value)));
                assert forall|i: int, j: int| 0 <= i < j < after.len() implies chars_less(
                    #[trigger] after[i].0@,
                    #[trigger] after[j].0@,
                ) by {
                    if j == k {
                    } else if i == k {
                        assert(after[j] == before[j - 1]);
                        lemma_chars_less_total(before[j - 1].0@, name@);
                        assert(!has_key(before, name@) ==> before[j - 1].0@ != name@);
                    }
                }
                lemma_insert_map(before, k as int, name, value);
            }
            self.entries = entries;
            None
        }
    }

    /// Builds a map from entries; a later entry replaces an earlier one with the same name.
    pub fn from_entries(entries: Vec<(Name, V)>) -> (r: NameMap<V>)
        ensures
            r@ == entries_map(entries@),
    {
        let mut r = NameMap::new();
        let mut rest = entries;
        let ghost initial = rest@;
        let count = rest.len();
        let mut taken: usize = 0;
        while rest.len() > 0
            invariant
                taken + rest@.len() == count,
                initial.len() == count,
                rest@ == initial.subrange(taken as int, count as int),
                r@ == entries_map(initial.subrange(0, taken as int)),
            decreases rest@.len(),
        {
            let (name, value) = rest.remove(0);
            r.insert(name, value);
            proof {
                let prefix = initial.subrange(0, taken + 1);
                assert(prefix.drop_last() =~= initial.subrange(0, taken as int));
            }
            taken = taken + 1;
        }
        assert(initial.subrange(0, count as int) =~= initial);
        r
    }
}

pub proof fn lemma_sorted_map_len<V>(s: Seq<(Name, V)>)
    requires
        names_sorted(s),
    ensures
        entries_map(s).len() == s.len(),
        entries_map(s).dom().finite(),
    decreases s.len(),
{
    if s.len() > 0 {
        lemma_sorted_map_len(s.drop_last());
        lemma_entries_map_domain(s.drop_last(), s.last().0@);
        if has_key(s.drop_last(), s.last().0@) {
            let i = choose|i: int| 0 <= i < s.drop_last().len() && #[trigger] s.drop_last()[i].0@ == s.last().0@;
            assert(chars_less(s[i].0@, s[s.len() - 1].0@));
            lemma_chars_less_irreflexive(s.last().0@);
        }
    }
}

proof fn lemma_replace_map<V>(s: Seq<(Name, V)>, k: int, name: Name, value: V)
    requires
        names_sorted(s),
        0 <= k < s.len(),
        s[k].0@ == name@,
    ensures
        entries_map(s.update(k, (name, value))) == entries_map(s).insert(name@, value),
{
    let t = s.update(k, (name, value));
    assert(names_sorted(t));
    assert forall|key: Seq<char>| #[trigger] entries_map(t).contains_key(key) <==> entries_map(
        s,
    ).insert(name@, value).contains_key(key) by {
        lemma_entries_map_domain(t, key);
        lemma_entries_map_domain(s, key);
        if has_key(s, key) {
            let i = choose|i: int| 0 <= i < s.len() && #[trigger] s[i].0@ == key;
            assert(t[i].0@ == key);
        }
        if has_key(t, key) {
            let i = choose|i: int| 0 <= i < t.len() && #[trigger] t[i].0@ == key;
            assert(s[i].0@ == key);
        }
    }
    assert forall|key: Seq<char>| #[trigger] entries_map(t).contains_key(key) implies entries_map(
        t,
    )[key] == entries_map(s).insert(name@, value)[key] by {
        lemma_entries_map_domain(t, key);
        let i = choose|i: int| 0 <= i < t.len() && #[trigger] t[i].0@ == key;
        lemma_entries_map_value(t, i);
        if i != k {
            lemma_entries_map_value(s, i);
            assert(s[i].0@ != name@) by {
                if i < k {
                    assert(chars_less(s[i].0@, s[k].0@));
                } else {
                    assert(chars_less(s[k].0@, s[i].0@));
                }
                lemma_chars_less_irreflexive(name@);
            }
        }
    }
    assert(entries_map(t) =~= entries_map(s).insert(name@, value));
}

proof fn lemma_insert_map<V>(s: Seq<(Name, V)>, k: int, name: Name, value: V)
    requires
        names_sorted(s),
        names_sorted(s.insert(k, (name, value))),
        0 <= k <= s.len(),
    ensures
        entries_map(s.insert(k, (name, value))) == entries_map(s).insert(name@, value),
{
    let t = s.insert(k, (name, value));
    assert forall|key: Seq<char>| #[trigger] entries_map(t).contains_key(key) <==> entries_map(
        s,
    ).insert(name@, value).contains_key(key) by {
        lemma_entries_map_domain(t, key);
        lemma_entries_map_domain(s, key);
        assert(t[k].0@ == name@);
        if has_key(s, key) {
            let i = choose|i: int| 0 <= i < s.len() && #[trigger] s[i].0@ == key;
            if i < k {
                assert(t[i].0@ == key);
            } else {
                assert(t[i + 1].0@ == key);
            }
        }
        if has_key(t, key) {
            let i = choose|i: int| 0 <= i < t.len() && #[trigger] t[i].0@ == key;
            if i < k {
                assert(s[i].0@ == key);
            } else if i > k {
                assert(s[i - 1].0@ == key);
            }
        }
    }
    assert forall|key: Seq<char>| #[trigger] entries_map(t).contains_key(key) implies entries_map(
        t,
    )[key] == entries_map(s).insert(name@, value)[key] by {
        lemma_entries_map_domain(t, key);
        let i = choose|i: int| 0 <= i < t.len() && #[trigger] t[i].0@ == key;
        lemma_entries_map_value(t, i);
        if i != k {
            assert(t[i].0@ != name@) by {
                if i < k {
                    assert(chars_less(t[i].0@, t[k].0@));
                } else {
                    assert(chars_less(t[k].0@, t[i].0@));
                }
                lemma_chars_less_irreflexive(name@);
            }
            if i < k {
                lemma_entries_map_value(s, i);
            } else {
                lemma_entries_map_value(s, i - 1);
            }
        }
    }
    assert(entries_map(t) =~= entries_map(s).insert(name@, value));
}

} // verus!
