//! The flags of a command: a map from flag keys to flag values.
use vstd::prelude::*;

verus! {

/// The map that a list of key/value pairs denotes when they are inserted in
/// order: a later pair overwrites an earlier one with the same key.
pub open spec fn map_of(e: Seq<(Seq<char>, Seq<char>)>) -> Map<Seq<char>, Seq<char>>
    decreases e.len(),
{
    if e.len() == 0 {
        Map::empty()
    } else {
        map_of(e.drop_last()).insert(e.last().0, e.last().1)
    }
}

/// No key occurs twice in the list.
pub open spec fn keys_distinct(e: Seq<(Seq<char>, Seq<char>)>) -> bool {
    forall|i: int, j: int| 0 <= i < j < e.len() ==> #[trigger] e[i].0 != #[trigger] e[j].0
}

proof fn lemma_map_of_index(e: Seq<(Seq<char>, Seq<char>)>, i: int)
    requires
        keys_distinct(e),
        0 <= i < e.len(),
    ensures
        map_of(e).contains_key(e[i].0),
        map_of(e)[e[i].0] == e[i].1,
    decreases e.len(),
{
    if i < e.len() - 1 {
        let d = e.drop_last();
        assert(d[i] == e[i]);
        assert(keys_distinct(d)) by {
            assert forall|a: int, b: int| 0 <= a < b < d.len() implies d[a].0 != d[b].0 by {
                assert(d[a] == e[a] && d[b] == e[b]);
            }
        }
        lemma_map_of_index(d, i);
        assert(e[i].0 != e[e.len() - 1].0);
    }
}

proof fn lemma_map_of_absent(e: Seq<(Seq<char>, Seq<char>)>, k: Seq<char>)
    requires
        forall|i: int| 0 <= i < e.len() ==> #[trigger] e[i].0 != k,
    ensures
        !map_of(e).contains_key(k),
    decreases e.len(),
{
    if e.len() > 0 {
        let d = e.drop_last();
        assert forall|i: int| 0 <= i < d.len() implies #[trigger] d[i].0 != k by {
            assert(d[i] == e[i]);
        }
        lemma_map_of_absent(d, k);
        assert(e[e.len() - 1].0 != k);
    }
}

proof fn lemma_map_of_present(e: Seq<(Seq<char>, Seq<char>)>, k: Seq<char>)
    requires
        map_of(e).contains_key(k),
    ensures
        exists|i: int| 0 <= i < e.len() && #[trigger] e[i].0 == k,
{
    if forall|i: int| 0 <= i < e.len() ==> #[trigger] e[i].0 != k {
        lemma_map_of_absent(e, k);
    }
}

proof fn lemma_map_of_len(e: Seq<(Seq<char>, Seq<char>)>)
    requires
        keys_distinct(e),
    ensures
        map_of(e).dom().finite(),
        map_of(e).dom().len() == e.len(),
    decreases e.len(),
{
    if e.len() > 0 {
        let d = e.drop_last();
        assert(keys_distinct(d)) by {
            assert forall|a: int, b: int| 0 <= a < b < d.len() implies d[a].0 != d[b].0 by {
                assert(d[a] == e[a] && d[b] == e[b]);
            }
        }
        lemma_map_of_len(d);
        assert forall|i: int| 0 <= i < d.len() implies #[trigger] d[i].0 != e.last().0 by {
            assert(d[i] == e[i]);
        }
        lemma_map_of_absent(d, e.last().0);
    }
}

proof fn lemma_map_of_update(e: Seq<(Seq<char>, Seq<char>)>, i: int, v: Seq<char>)
    requires
        keys_distinct(e),
        0 <= i < e.len(),
    ensures
        map_of(e.update(i, (e[i].0, v))) == map_of(e).insert(e[i].0, v),
    decreases e.len(),
{
    let u = e.update(i, (e[i].0, v));
    let d = e.drop_last();
    if i == e.len() - 1 {
        assert(u.drop_last() =~= d);
        assert(map_of(u) =~= map_of(e).insert(e[i].0, v));
    } else {
        assert(keys_distinct(d)) by {
            assert forall|a: int, b: int| 0 <= a < b < d.len() implies d[a].0 != d[b].0 by {
                assert(d[a] == e[a] && d[b] == e[b]);
            }
        }
        assert(d[i] == e[i]);
        lemma_map_of_update(d, i, v);
        assert(u.drop_last() =~= d.update(i, (e[i].0, v)));
        assert(e[i].0 != e.last().0);
        assert(map_of(u) =~= map_of(e).insert(e[i].0, v));
    }
}

/// Flag keys mapped to flag values; each key occurs once.
#[derive(Debug)]
pub struct FlagMap {
    entries: Vec<(String, String)>,
}

impl FlagMap {
    /// The pairs in the order in which their keys were first inserted.
    pub closed spec fn entry_views(&self) -> Seq<(Seq<char>, Seq<char>)> {
        self.entries@.map_values(|p: (String, String)| (p.0@, p.1@))
    }

    #[verifier::type_invariant]
    closed spec fn well_formed(&self) -> bool {
        keys_distinct(self.entry_views())
    }

    /// A map with no flags.
    pub fn new() -> (r: FlagMap)
        ensures
            r@ == Map::<Seq<char>, Seq<char>>::empty(),
    {
        let r = FlagMap { entries: Vec::new() };
        assert(r.entry_views() =~= Seq::empty());
        r
    }

    /// The number of keys.
    pub fn len(&self) -> (r: usize)
        ensures
            r == self@.len(),
    {
        proof {
            use_type_invariant(self);
            lemma_map_of_len(self.entry_views());
        }
        self.entries.len()
    }

    /// Whether the map holds no key.
    pub fn is_empty(&self) -> (r: bool)
        ensures
            r == (self@ == Map::<Seq<char>, Seq<char>>::empty()),
    {
        proof {
            use_type_invariant(self);
            lemma_map_of_len(self.entry_views());
            if self.entry_views().len() > 0 {
                lemma_map_of_index(self.entry_views(), 0);
            }
        }
        let r = self.entries.len() == 0;
        assert(r ==> self.entry_views() =~= Seq::empty());
        r
    }

    /// The value stored under `key`, if any.
    pub fn get(&self, key: &str) -> (r: Option<&String>)
        ensures
            match r {
                Some(v) => self@.contains_key(key@) && v@ == self@[key@],
                None => !self@.contains_key(key@),
            },
    {
        proof {
            use_type_invariant(self);
        }
        let k = key.to_owned();
        let mut i: usize = 0;
        while i < self.entries.len()
            invariant
                i <= self.entries@.len(),
                k@ == key@,
                keys_distinct(self.entry_views()),
                forall|j: int| 0 <= j < i ==> #[trigger] self.entry_views()[j].0 != key@,
            decreases self.entries.len() - i,
        {
            if self.entries[i].0 == k {
                proof {
                    lemma_map_of_index(self.entry_views(), i as int);
                }
                return Some(&self.entries[i].1);
            }
            i = i + 1;
        }
        proof {
            lemma_map_of_absent(self.entry_views(), key@);
        }
        None
    }

    /// Stores `value` under `key`, replacing the value stored there before.
    pub fn insert(&mut self, key: String, value: String)
        ensures
            final(self)@ == old(self)@.insert(key@, value@),
    {
        proof {
            use_type_invariant(&*self);
        }
        let mut i: usize = 0;
        while i < self.entries.len()
            invariant
                *self == *old(self),
                i <= self.entries@.len(),
                keys_distinct(self.entry_views()),
                forall|j: int| 0 <= j < i ==> #[trigger] self.entry_views()[j].0 != key@,
            decreases self.entries.len() - i,
        {
            if self.entries[i].0 == key {
                let ghost e = self.entry_views();
                proof {
                    lemma_map_of_update(e, i as int, value@);
                }
                let mut entries = self.copy_entries();
                entries.set(i, (key, value));
                proof {
                    let n = entries@.map_values(|p: (String, String)| (p.0@, p.1@));
                    assert(n =~= e.update(i as int, (e[i as int].0, value@)));
                    assert forall|a: int, b: int| 0 <= a < b < n.len() implies n[a].0 != n[b].0 by {
                        assert(n[a].0 == e[a].0 && n[b].0 == e[b].0);
                    }
                }
                *self = FlagMap { entries };
                assert(self.entry_views() =~= e.update(i as int, (e[i as int].0, value@)));
                assert(e[i as int].0 == key@);
                assert(self@ == map_of(e).insert(key@, value@));
                return;
            }
            i = i + 1;
        }
        let ghost e = self.entry_views();
        proof {
            lemma_map_of_absent(e, key@);
        }
        let mut entries = self.copy_entries();
        entries.push((key, value));
        proof {
            let n = entries@.map_values(|p: (String, String)| (p.0@, p.1@));
            assert(n =~= e.push((key@, value@)));
            assert forall|a: int, b: int| 0 <= a < b < n.len() implies n[a].0 != n[b].0 by {
                assert(n[a].0 == e[a].0);
                if b < e.len() {
                    assert(n[b].0 == e[b].0);
                }
            }
        }
        *self = FlagMap { entries };
        assert(self.entry_views().drop_last() =~= e);
        assert(self.entry_views().last() == (key@, value@));
        assert(self@ == map_of(e).insert(key@, value@));
    }

    /// Each key of the map with its value, every key once.
    pub fn pairs(&self) -> (r: Vec<(String, String)>)
        ensures
            r@.len() == self@.len(),
            forall|i: int|
                0 <= i < r@.len() ==> self@.contains_key(#[trigger] r@[i].0@) && self@[r@[i].0@]
                    == r@[i].1@,
            forall|i: int, j: int| 0 <= i < j < r@.len() ==> #[trigger] r@[i].0@ != #[trigger] r@[j].0@,
            forall|k: Seq<char>| #[trigger]
                self@.contains_key(k) ==> exists|i: int| 0 <= i < r@.len() && r@[i].0@ == k,
    {
        proof {
            use_type_invariant(self);
            lemma_map_of_len(self.entry_views());
        }
        let r = self.copy_entries();
        proof {
            let e = self.entry_views();
            assert forall|i: int| 0 <= i < r@.len() implies self@.contains_key(
                #[trigger] r@[i].0@,
            ) && self@[r@[i].0@] == r@[i].1@ by {
                assert(e[i] == (r@[i].0@, r@[i].1@));
                lemma_map_of_index(e, i);
            }
            assert forall|i: int, j: int| 0 <= i < j < r@.len() implies #[trigger] r@[i].0@
                != #[trigger] r@[j].0@ by {
                assert(e[i].0 == r@[i].0@ && e[j].0 == r@[j].0@);
            }
            assert forall|k: Seq<char>| #[trigger] self@.contains_key(k) implies exists|i: int|
                0 <= i < r@.len() && r@[i].0@ == k by {
                lemma_map_of_present(e, k);
                let j = choose|j: int| 0 <= j < e.len() && #[trigger] e[j].0 == k;
                assert(r@[j].0@ == k);
            }
        }
        r
    }

    /// A copy of the stored pairs.
    fn copy_entries(&self) -> (r: Vec<(String, String)>)
        ensures
            r@ == self.entries@,
    {
        let mut r: Vec<(String, String)> = Vec::new();
        let mut i: usize = 0;
        while i < self.entries.len()
            invariant
                i <= self.entries@.len(),
                r@ == self.entries@.take(i as int),
            decreases self.entries.len() - i,
        {
            let k = self.entries[i].0.clone();
            let v = self.entries[i].1.clone();
            r.push((k, v));
            i = i + 1;
            assert(r@ =~= self.entries@.take(i as int));
        }
        assert(r@ =~= self.entries@);
        r
    }

    /// Whether every key of `self` is stored in `other` with the same value.
    fn included_in(&self, other: &FlagMap) -> (r: bool)
        ensures
            r == self@.submap_of(other@),
    {
        proof {
            use_type_invariant(self);
        }
        let mut i: usize = 0;
        while i < self.entries.len()
            invariant
                i <= self.entries@.len(),
                keys_distinct(self.entry_views()),
                forall|j: int|
                    0 <= j < i ==> other@.contains_key(#[trigger] self.entry_views()[j].0)
                        && other@[self.entry_views()[j].0] == self.entry_views()[j].1,
            decreases self.entries.len() - i,
        {
            let same = match other.get(self.entries[i].0.as_str()) {
                Some(w) => *w == self.entries[i].1,
                None => false,
            };
            if !same {
                proof {
                    lemma_map_of_index(self.entry_views(), i as int);
                }
                return false;
            }
            i = i + 1;
        }
        proof {
            assert forall|k: Seq<char>| #[trigger] self@.contains_key(k) implies other@.contains_key(
                k,
            ) && self@[k] == other@[k] by {
                lemma_map_of_present(self.entry_views(), k);
                let j = choose|j: int| 0 <= j < self.entry_views().len() && #[trigger] self.entry_views()[j].0 == k;
                lemma_map_of_index(self.entry_views(), j);
            }
        }
        true
    }
}

impl View for FlagMap {
    type V = Map<Seq<char>, Seq<char>>;

    closed spec fn view(&self) -> Map<Seq<char>, Seq<char>> {
        map_of(self.entry_views())
    }
}

impl PartialEq for FlagMap {
    fn eq(&self, other: &FlagMap) -> (r: bool) {
        let r = self.included_in(other) && other.included_in(self);
        proof {
            if self@.submap_of(other@) && other@.submap_of(self@) {
                assert forall|k: Seq<char>| self@.dom().contains(k) == other@.dom().contains(k) by {
                    if self@.dom().contains(k) {
                        assert(other@.dom().contains(k));
                    }
                    if other@.dom().contains(k) {
                        assert(self@.dom().contains(k));
                    }
                }
                assert(self@.dom() =~= other@.dom());
                assert(self@ =~= other@);
            }
        }
        r
    }
}

impl vstd::std_specs::cmp::PartialEqSpecImpl for FlagMap {
    open spec fn obeys_eq_spec() -> bool {
        true
    }

    open spec fn eq_spec(&self, other: &FlagMap) -> bool {
        self@ == other@
    }
}

} // verus!
