//! Maps keyed by segment paths (token paths, source paths), kept in path order.
use crate::token_path::TokenPath;
use crate::text::{
    lemma_segs_less_asymmetric, lemma_segs_less_irreflexive, lemma_segs_less_total,
    lemma_segs_less_transitive, segs_less,
};
use vstd::prelude::*;

verus! {

/// Keys strictly increasing in path order.
pub open spec fn paths_sorted<K: SegmentKey, V>(s: Seq<(K, V)>) -> bool {
    forall|i: int, j: int| 0 <= i < j < s.len() ==> segs_less(#[trigger] s[i].0@, #[trigger] s[j].0@)
}

/// The map described by a list of entries; later entries replace earlier ones.
pub open spec fn path_entries_map<K: SegmentKey, V>(s: Seq<(K, V)>) -> Map<Seq<Seq<char>>, V>
    decreases s.len(),
{
    if s.len() == 0 {
        Map::empty()
    } else {
        path_entries_map(s.drop_last()).insert(s.last().0@, s.last().1)
    }
}

/// Whether some entry has key `k`.
pub open spec fn has_path<K: SegmentKey, V>(s: Seq<(K, V)>, k: Seq<Seq<char>>) -> bool {
    exists|i: int| 0 <= i < s.len() && #[trigger] s[i].0@ == k
}

pub proof fn lemma_path_entries_map_domain<K: SegmentKey, V>(s: Seq<(K, V)>, k: Seq<Seq<char>>)
    ensures
        path_entries_map(s).contains_key(k) <==> has_path(s, k),
    decreases s.len(),
{
    if s.len() > 0 {
        lemma_path_entries_map_domain(s.drop_last(), k);
        if has_path(s.drop_last(), k) {
            let i = choose|i: int| 0 <= i < s.drop_last().len() && #[trigger] s.drop_last()[i].0@ == k;
            assert(s[i].0@ == k);
        }
        if has_path(s, k) && s.last().0@ != k {
            let i = choose|i: int| 0 <= i < s.len() && #[trigger] s[i].0@ == k;
            assert(s.drop_last()[i].0@ == k);
        }
    }
}

pub proof fn lemma_path_entries_map_value<K: SegmentKey, V>(s: Seq<(K, V)>, i: int)
    requires
        paths_sorted(s),
        0 <= i < s.len(),
    ensures
        path_entries_map(s).contains_key(s[i].0@),
        path_entries_map(s)[s[i].0@] == s[i].1,
    decreases s.len(),
{
    if i < s.len() - 1 {
        assert(segs_less(s[i].0@, s[s.len() - 1].0@));
        lemma_segs_less_irreflexive(s[i].0@);
        lemma_path_entries_map_value(s.drop_last(), i);
    }
}

/// A key made of path segments, compared segment by segment.
pub trait SegmentKey: View<V = Seq<Seq<char>>> + Sized {
    /// Whether `self` sorts before `other`.
    fn key_less(&self, other: &Self) -> (r: bool)
        ensures
            r == segs_less(self@, other@),
    ;

    /// Whether the two keys are the same path.
    fn key_same(&self, other: &Self) -> (r: bool)
        ensures
            r == (self@ == other@),
    ;
}

impl SegmentKey for TokenPath {
    fn key_less(&self, other: &TokenPath) -> (r: bool) {
        self.less(other)
    }

    fn key_same(&self, other: &TokenPath) -> (r: bool) {
        self.same(other)
    }
}

/// Maps keyed by segment paths whose entries are kept in path order.
#[derive(Debug, PartialEq, Eq)]
pub struct KeyedMap<K: SegmentKey, V> {
    entries: Vec<(K, V)>,
}

impl<K: SegmentKey, V> View for KeyedMap<K, V> {
    type V = Map<Seq<Seq<char>>, V>;

    closed spec fn view(&self) -> Map<Seq<Seq<char>>, V> {
        path_entries_map(self.entries@)
    }
}

impl<K: SegmentKey, V> KeyedMap<K, V> {
    #[verifier::type_invariant]
    closed spec fn inv(self) -> bool {
        paths_sorted(self.entries@)
    }

    /// The entries in path order.
    pub closed spec fn ordered(&self) -> Seq<(K, V)> {
        self.entries@
    }

    /// The entries are in strictly increasing name order and describe the map.
    pub fn check_ordered(&self)
        ensures
            paths_sorted(self.ordered()),
            self@ == path_entries_map(self.ordered()),
            forall|k: Seq<Seq<char>>| #[trigger] self@.contains_key(k) <==> has_path(self.ordered(), k),
            forall|i: int|
                0 <= i < self.ordered().len() ==> #[trigger] self@[self.ordered()[i].0@]
                    == self.ordered()[i].1,
    {
        proof {
        use_type_invariant(self);
        assert forall|k: Seq<Seq<char>>| #[trigger] self@.contains_key(k) <==> has_path(
            self.ordered(),
            k,
        ) by {
            lemma_path_entries_map_domain(self.entries@, k);
        }
        assert forall|i: int| 0 <= i < self.ordered().len() implies #[trigger] self@[self.ordered()[i].0@]
            == self.ordered()[i].1 by {
            lemma_path_entries_map_value(self.entries@, i);
        }
        }
    }

    /// Creates an empty map.
    pub fn new() -> (r: KeyedMap<K, V>)
        ensures
            r@ == Map::<Seq<Seq<char>>, V>::empty(),
            r.ordered().len() == 0,
    {
        KeyedMap { entries: Vec::new() }
    }

    /// Returns the number of entries.
    pub fn len(&self) -> (r: usize)
        ensures
            r == self.ordered().len(),
            r == self@.len(),
    {
        proof {
            use_type_invariant(self);
            lemma_sorted_path_map_len(self.entries@);
        }
        self.entries.len()
    }

    /// Returns whether the map is empty.
    pub fn is_empty(&self) -> (r: bool)
        ensures
            r == (self@.len() == 0),
    {
        self.len() == 0
    }

    /// Returns the entries in path order.
    pub fn entries(&self) -> (r: &[(K, V)])
        ensures
            r@ == self.ordered(),
    {
        self.entries.as_slice()
    }

    /// Takes the entries in path order.
    pub fn into_entries(self) -> (r: Vec<(K, V)>)
        ensures
            r@ == self.ordered(),
    {
        self.entries
    }

    /// Finds the position of `path`, or where it would be inserted.
    fn position(&self, name: &K) -> (r: (usize, bool))
        ensures
            r.0 <= self.ordered().len(),
            r.1 ==> r.0 < self.ordered().len() && self.ordered()[r.0 as int].0@ == name@,
            !r.1 ==> !has_path(self.ordered(), name@),
            forall|j: int| 0 <= j < r.0 ==> segs_less(#[trigger] self.ordered()[j].0@, name@),
            forall|j: int|
                r.0 <= j < self.ordered().len() ==> !segs_less(#[trigger] self.ordered()[j].0@, name@),
    {
        proof {
            use_type_invariant(self);
        }
        let mut k: usize = 0;
        while k < self.entries.len() && self.entries[k].0.key_less(name)
            invariant
                k <= self.entries@.len(),
                paths_sorted(self.entries@),
                forall|j: int| 0 <= j < k ==> segs_less(#[trigger] self.entries@[j].0@, name@),
            decreases self.entries@.len() - k,
        {
            k = k + 1;
        }
        proof {
            assert forall|j: int| k <= j < self.entries@.len() implies !segs_less(
                #[trigger] self.entries@[j].0@,
                name@,
            ) by {
                if segs_less(self.entries@[j].0@, name@) && j > k {
                    lemma_segs_less_transitive(self.entries@[k as int].0@, self.entries@[j].0@, name@);
                }
            }
        }
        let found = k < self.entries.len() && self.entries[k].0.key_same(name);
        proof {
            if !found {
                if has_path(self.entries@, name@) {
                    let i = choose|i: int| 0 <= i < self.entries@.len() && #[trigger] self.entries@[i].0@ == name@;
                    lemma_segs_less_irreflexive(name@);
                    if i > k {
                        assert(segs_less(self.entries@[k as int].0@, self.entries@[i].0@));
                        lemma_segs_less_total(self.entries@[k as int].0@, name@);
                        lemma_segs_less_asymmetric(self.entries@[k as int].0@, name@);
                    }
                }
            }
        }
        (k, found)
    }

    /// Returns the value stored under `path`.
    pub fn get(&self, name: &K) -> (r: Option<&V>)
        ensures
            match r {
                Some(v) => self@.contains_key(name@) && *v == self@[name@],
                None => !self@.contains_key(name@),
            },
    {
        self.check_ordered();
        let (k, found) = self.position(name);
        if found {
            Some(&self.entries[k].1)
        } else {
            None
        }
    }

    /// Returns whether `path` has an entry.
    pub fn contains_key(&self, name: &K) -> (r: bool)
        ensures
            r == self@.contains_key(name@),
    {
        self.check_ordered();
        let (_, found) = self.position(name);
        found
    }

    /// Adds or replaces the entry for `path`, returning the replaced value.
    pub fn insert(&mut self, name: K, value: V) -> (r: Option<V>)
        ensures
            final(self)@ == old(self)@.insert(name@, value),
            match r {
                Some(v) => old(self)@.contains_key(name@) && v == old(self)@[name@],
                None => !old(self)@.contains_key(name@),
            },
    {
        self.check_ordered();
        let (k, found) = self.position(&name);
        let ghost before = self.entries@;
        let mut entries: Vec<(K, V)> = Vec::new();
        std::mem::swap(&mut entries, &mut self.entries);
        if found {
            let previous = entries.remove(k);
            entries.insert(k, (name, value));
            proof {
                let after = entries@;
                assert(after =~= before.update(k as int, (name, value)));
                assert(paths_sorted(after));
                lemma_replace_path_map(before, k as int, name, value);
            }
            self.entries = entries;
            Some(previous.1)
        } else {
            entries.insert(k, (name, value));
            proof {
                let after = entries@;
                assert(after =~= before.insert(k as int, (name, value)));
                assert forall|i: int, j: int| 0 <= i < j < after.len() implies segs_less(
                    #[trigger] after[i].0@,
                    #[trigger] after[j].0@,
                ) by {
                    if j == k {
                    } else if i == k {
                        assert(after[j] == before[j - 1]);
                        lemma_segs_less_total(before[j - 1].0@, name@);
                        assert(!has_path(before, name@) ==> before[j - 1].0@ != name@);
                    }
                }
                lemma_insert_path_map(before, k as int, name, value);
            }
            self.entries = entries;
            None
        }
    }

    /// Builds a map from entries; a later entry replaces an earlier one with the same path.
    pub fn from_entries(entries: Vec<(K, V)>) -> (r: KeyedMap<K, V>)
        ensures
            r@ == path_entries_map(entries@),
    {
        let mut r = KeyedMap::new();
        let mut rest = entries;
        let ghost initial = rest@;
        let count = rest.len();
        let mut taken: usize = 0;
        while rest.len() > 0
            invariant
                taken + rest@.len() == count,
                initial.len() == count,
                rest@ == initial.subrange(taken as int, count as int),
                r@ == path_entries_map(initial.subrange(0, taken as int)),
            decreases rest@.len(),
        {
            let (name, value) = rest.remove(0);
            r.insert(name, value);
            proof {
                let prefix = initial.subrange(0, taken + 1);
                assert(prefix.drop_last() =~= initial.subrange(0, taken as int));
            }
            taken = taken + 1;
        }
        assert(initial.subrange(0, count as int) =~= initial);
        r
    }
}

pub proof fn lemma_sorted_path_map_len<K: SegmentKey, V>(s: Seq<(K, V)>)
    requires
        paths_sorted(s),
    ensures
        path_entries_map(s).len() == s.len(),
        path_entries_map(s).dom().finite(),
    decreases s.len(),
{
    if s.len() > 0 {
        lemma_sorted_path_map_len(s.drop_last());
        lemma_path_entries_map_domain(s.drop_last(), s.last().0@);
        if has_path(s.drop_last(), s.last().0@) {
            let i = choose|i: int| 0 <= i < s.drop_last().len() && #[trigger] s.drop_last()[i].0@ == s.last().0@;
            assert(segs_less(s[i].0@, s[s.len() - 1].0@));
            lemma_segs_less_irreflexive(s.last().0@);
        }
    }
}

proof fn lemma_replace_path_map<K: SegmentKey, V>(s: Seq<(K, V)>, k: int, name: K, value: V)
    requires
        paths_sorted(s),
        0 <= k < s.len(),
        s[k].0@ == name@,
    ensures
        path_entries_map(s.update(k, (name, value))) == path_entries_map(s).insert(name@, value),
{
    let t = s.update(k, (name, value));
    assert(paths_sorted(t));
    assert forall|key: Seq<Seq<char>>| #[trigger] path_entries_map(t).contains_key(key) <==> path_entries_map(
        s,
    ).insert(name@, value).contains_key(key) by {
        lemma_path_entries_map_domain(t, key);
        lemma_path_entries_map_domain(s, key);
        if has_path(s, key) {
            let i = choose|i: int| 0 <= i < s.len() && #[trigger] s[i].0@ == key;
            assert(t[i].0@ == key);
        }
        if has_path(t, key) {
            let i = choose|i: int| 0 <= i < t.len() && #[trigger] t[i].0@ == key;
            assert(s[i].0@ == key);
        }
    }
    assert forall|key: Seq<Seq<char>>| #[trigger] path_entries_map(t).contains_key(key) implies path_entries_map(
        t,
    )[key] == path_entries_map(s).insert(name@, value)[key] by {
        lemma_path_entries_map_domain(t, key);
        let i = choose|i: int| 0 <= i < t.len() && #[trigger] t[i].0@ == key;
        lemma_path_entries_map_value(t, i);
        if i != k {
            lemma_path_entries_map_value(s, i);
            assert(s[i].0@ != name@) by {
                if i < k {
                    assert(segs_less(s[i].0@, s[k].0@));
                } else {
                    assert(segs_less(s[k].0@, s[i].0@));
                }
                lemma_segs_less_irreflexive(name@);
            }
        }
    }
    assert(path_entries_map(t) =~= path_entries_map(s).insert(name@, value));
}

proof fn lemma_insert_path_map<K: SegmentKey, V>(s: Seq<(K, V)>, k: int, name: K, value: V)
    requires
        paths_sorted(s),
        paths_sorted(s.insert(k, (name, value))),
        0 <= k <= s.len(),
    ensures
        path_entries_map(s.insert(k, (name, value))) == path_entries_map(s).insert(name@, value),
{
    let t = s.insert(k, (name, value));
    assert forall|key: Seq<Seq<char>>| #[trigger] path_entries_map(t).contains_key(key) <==> path_entries_map(
        s,
    ).insert(name@, value).contains_key(key) by {
        lemma_path_entries_map_domain(t, key);
        lemma_path_entries_map_domain(s, key);
        assert(t[k].0@ == name@);
        if has_path(s, key) {
            let i = choose|i: int| 0 <= i < s.len() && #[trigger] s[i].0@ == key;
            if i < k {
                assert(t[i].0@ == key);
            } else {
                assert(t[i + 1].0@ == key);
            }
        }
        if has_path(t, key) {
            let i = choose|i: int| 0 <= i < t.len() && #[trigger] t[i].0@ == key;
            if i < k {
                assert(s[i].0@ == key);
            } else if i > k {
                assert(s[i - 1].0@ == key);
            }
        }
    }
    assert forall|key: Seq<Seq<char>>| #[trigger] path_entries_map(t).contains_key(key) implies path_entries_map(
        t,
    )[key] == path_entries_map(s).insert(name@, value)[key] by {
        lemma_path_entries_map_domain(t, key);
        let i = choose|i: int| 0 <= i < t.len() && #[trigger] t[i].0@ == key;
        lemma_path_entries_map_value(t, i);
        if i != k {
            assert(t[i].0@ != name@) by {
                if i < k {
                    assert(segs_less(t[i].0@, t[k].0@));
                } else {
                    assert(segs_less(t[k].0@, t[i].0@));
                }
                lemma_segs_less_irreflexive(name@);
            }
            if i < k {
                lemma_path_entries_map_value(s, i);
            } else {
                lemma_path_entries_map_value(s, i - 1);
            }
        }
    }
    assert(path_entries_map(t) =~= path_entries_map(s).insert(name@, value));
}

/// Maps keyed by token paths.
pub type PathMap<V> = KeyedMap<TokenPath, V>;

} // verus!
