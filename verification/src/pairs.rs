//! The metadata of a node: values by key, each key once, in the order of
//! the keys.

use vstd::prelude::*;
use vstd::string::*;
use crate::text::{
    lemma_precedes_irreflexive,
    lemma_precedes_transitive,
    order_of,
    precedes,
    Order,
};

verus! {

/// A map from key to value. The pairs are kept in the order of their keys,
/// so that a map is always listed in the same way, whatever the order in
/// which its keys came in.
#[derive(Debug)]
pub struct MetadataPairs {
    entries: Vec<(String, String)>,
}

/// The key of the pair at position `i`.
spec fn key_at(entries: Seq<(String, String)>, i: int) -> Seq<char> {
    entries[i].0@
}

/// The value of the pair at position `i`.
spec fn value_at(entries: Seq<(String, String)>, i: int) -> Seq<char> {
    entries[i].1@
}

/// Some pair has the key `k`.
spec fn holds(entries: Seq<(String, String)>, k: Seq<char>) -> bool {
    exists|i: int| 0 <= i < entries.len() && key_at(entries, i) == k
}

/// The position of a pair with the key `k`.
spec fn position(entries: Seq<(String, String)>, k: Seq<char>) -> int {
    choose|i: int| 0 <= i < entries.len() && key_at(entries, i) == k
}

/// No two pairs have the same key.
spec fn distinct(entries: Seq<(String, String)>) -> bool {
    forall|i: int, j: int|
        0 <= i < j < entries.len() ==> key_at(entries, i) != key_at(entries, j)
}

/// The pairs stand in the order of their keys.
spec fn sorted(entries: Seq<(String, String)>) -> bool {
    forall|i: int, j: int|
        0 <= i < j < entries.len() ==> precedes(key_at(entries, i), key_at(entries, j))
}

/// Pairs in the order of their keys have distinct keys.
proof fn lemma_sorted_distinct(entries: Seq<(String, String)>)
    requires
        sorted(entries),
    ensures
        distinct(entries),
{
    assert forall|i: int, j: int| 0 <= i < j < entries.len() implies key_at(entries, i) != key_at(
        entries,
        j,
    ) by {
        lemma_precedes_irreflexive(key_at(entries, i), key_at(entries, j));
    }
}

/// The map that the pairs make up.
spec fn map_of(entries: Seq<(String, String)>) -> Map<Seq<char>, Seq<char>> {
    Map::new(
        |k: Seq<char>| holds(entries, k),
        |k: Seq<char>| value_at(entries, position(entries, k)),
    )
}

/// In pairs with distinct keys, the pair at `i` gives the value of its key.
proof fn lemma_entry(entries: Seq<(String, String)>, i: int)
    requires
        distinct(entries),
        0 <= i < entries.len(),
    ensures
        map_of(entries).contains_key(key_at(entries, i)),
        map_of(entries)[key_at(entries, i)] == value_at(entries, i),
{
    let k = key_at(entries, i);
    assert(holds(entries, k));
    let p = position(entries, k);
    assert(p == i) by {
        if p < i {
            assert(key_at(entries, p) != key_at(entries, i));
        } else if i < p {
            assert(key_at(entries, i) != key_at(entries, p));
        }
    }
}

impl View for MetadataPairs {
    type V = Map<Seq<char>, Seq<char>>;

    closed spec fn view(&self) -> Map<Seq<char>, Seq<char>> {
        map_of(self.entries@)
    }
}

impl MetadataPairs {
    #[verifier::type_invariant]
    spec fn valid(&self) -> bool {
        sorted(self.entries@)
    }

    /// The map without keys.
    pub fn new() -> (r: MetadataPairs)
        ensures
            r@ == Map::<Seq<char>, Seq<char>>::empty(),
    {
        let r = MetadataPairs { entries: Vec::new() };
        assert(r@ =~= Map::<Seq<char>, Seq<char>>::empty());
        r
    }

    /// The position of the pair with the key `key`, or else the position
    /// where such a pair belongs.
    fn locate(&self, key: &String) -> (r: (usize, bool))
        ensures
            r.0 <= self.entries@.len(),
            forall|j: int| 0 <= j < r.0 ==> precedes(key_at(self.entries@, j), key@),
            r.1 ==> r.0 < self.entries@.len() && key_at(self.entries@, r.0 as int) == key@,
            !r.1 ==> !holds(self.entries@, key@) && (r.0 < self.entries@.len() ==> precedes(
                key@,
                key_at(self.entries@, r.0 as int),
            )),
    {
        proof {
            use_type_invariant(self);
        }
        let mut i: usize = 0;
        while i < self.entries.len()
            invariant
                i <= self.entries@.len(),
                sorted(self.entries@),
                forall|j: int| 0 <= j < i ==> precedes(key_at(self.entries@, j), key@),
            decreases self.entries@.len() - i,
        {
            match order_of(self.entries[i].0.as_str(), key.as_str()) {
                Order::Before => {},
                Order::Same => {
                    return (i, true);
                },
                Order::After => {
                    proof {
                        let at = key_at(self.entries@, i as int);
                        assert forall|j: int| 0 <= j < self.entries@.len() implies key_at(
                            self.entries@,
                            j,
                        ) != key@ by {
                            let other = key_at(self.entries@, j);
                            if j < i {
                                lemma_precedes_irreflexive(other, key@);
                            } else if j == i {
                                lemma_precedes_irreflexive(key@, other);
                            } else {
                                lemma_precedes_transitive(key@, at, other);
                                lemma_precedes_irreflexive(key@, other);
                            }
                        }
                    }
                    return (i, false);
                },
            }
            i += 1;
        }
        proof {
            assert forall|j: int| 0 <= j < self.entries@.len() implies key_at(self.entries@, j)
                != key@ by {
                lemma_precedes_irreflexive(key_at(self.entries@, j), key@);
            }
        }
        (i, false)
    }

    /// Sets the value of `key` to `value`, and gives back the value that it
    /// had, if it had one. The other keys keep their values.
    pub fn insert(&mut self, key: String, value: String) -> (r: Option<String>)
        ensures
            final(self)@ == old(self)@.insert(key@, value@),
            match r {
                Some(v) => old(self)@.contains_key(key@) && old(self)@[key@] == v@,
                None => !old(self)@.contains_key(key@),
            },
    {
        proof {
            use_type_invariant(&*self);
            lemma_sorted_distinct(self.entries@);
        }
        let ghost before = self.entries@;
        let (i, found) = self.locate(&key);
        let mut entries: Vec<(String, String)> = Vec::new();
        std::mem::swap(&mut self.entries, &mut entries);
        if found {
            let had = entries[i].1.clone();
            proof {
                lemma_entry(before, i as int);
            }
            entries.set(i, (key, value));
            proof {
                let now = entries@;
                assert forall|a: int, b: int| 0 <= a < b < now.len() implies precedes(
                    key_at(now, a),
                    key_at(now, b),
                ) by {
                    assert(key_at(now, a) == key_at(before, a));
                    assert(key_at(now, b) == key_at(before, b));
                }
                lemma_sorted_distinct(now);
            }
            self.entries = entries;
            proof {
                let now = self.entries@;
                assert forall|k: Seq<char>| holds(now, k) <==> holds(before, k) by {
                    if holds(before, k) {
                        let p = position(before, k);
                        assert(key_at(now, p) == k);
                    }
                    if holds(now, k) {
                        let p = position(now, k);
                        assert(key_at(before, p) == k);
                    }
                }
                assert forall|k: Seq<char>| holds(now, k) implies map_of(now)[k] == map_of(
                    before,
                ).insert(key@, value@)[k] by {
                    let p = position(now, k);
                    lemma_entry(now, p);
                    if p != i {
                        assert(key_at(before, p) == k);
                        lemma_entry(before, p);
                    }
                }
                assert(map_of(now) =~= map_of(before).insert(key@, value@));
            }
            Some(had)
        } else {
            entries.insert(i, (key, value));
            proof {
                let now = entries@;
                assert(key_at(now, i as int) == key@);
                assert forall|a: int, b: int| 0 <= a < b < now.len() implies precedes(
                    key_at(now, a),
                    key_at(now, b),
                ) by {
                    if b < i {
                        assert(key_at(now, a) == key_at(before, a));
                        assert(key_at(now, b) == key_at(before, b));
                    } else if b == i {
                        assert(key_at(now, a) == key_at(before, a));
                    } else if a < i {
                        assert(key_at(now, a) == key_at(before, a));
                        assert(key_at(now, b) == key_at(before, b - 1));
                    } else if a == i {
                        assert(key_at(now, b) == key_at(before, b - 1));
                        if b - 1 > i {
                            lemma_precedes_transitive(
                                key@,
                                key_at(before, i as int),
                                key_at(before, b - 1),
                            );
                        }
                    } else {
                        assert(key_at(now, a) == key_at(before, a - 1));
                        assert(key_at(now, b) == key_at(before, b - 1));
                    }
                }
                lemma_sorted_distinct(now);
            }
            self.entries = entries;
            proof {
                let now = self.entries@;
                assert forall|k: Seq<char>| holds(now, k) <==> (holds(before, k) || k == key@) by {
                    if holds(before, k) {
                        let p = position(before, k);
                        if p < i {
                            assert(key_at(now, p) == k);
                        } else {
                            assert(key_at(now, p + 1) == k);
                        }
                    }
                    if holds(now, k) {
                        let p = position(now, k);
                        if p < i {
                            assert(key_at(before, p) == k);
                        } else if p > i {
                            assert(key_at(before, p - 1) == k);
                        }
                    }
                }
                assert forall|k: Seq<char>| holds(now, k) implies map_of(now)[k] == map_of(
                    before,
                ).insert(key@, value@)[k] by {
                    let p = position(now, k);
                    lemma_entry(now, p);
                    if p < i {
                        assert(key_at(before, p) == k);
                        lemma_entry(before, p);
                    } else if p > i {
                        assert(key_at(before, p - 1) == k);
                        lemma_entry(before, p - 1);
                    }
                }
                assert(map_of(now) =~= map_of(before).insert(key@, value@));
            }
            None
        }
    }

    /// The value of `key`, if it has one.
    pub fn get(&self, key: &str) -> (r: Option<&String>)
        ensures
            match r {
                Some(v) => self@.contains_key(key@) && self@[key@] == v@,
                None => !self@.contains_key(key@),
            },
    {
        proof {
            use_type_invariant(self);
            lemma_sorted_distinct(self.entries@);
        }
        let k = key.to_owned();
        let (i, found) = self.locate(&k);
        if found {
            proof {
                lemma_entry(self.entries@, i as int);
            }
            Some(&self.entries[i].1)
        } else {
            None
        }
    }

    /// Whether the map has no keys.
    pub fn is_empty(&self) -> (r: bool)
        ensures
            r == (self@ == Map::<Seq<char>, Seq<char>>::empty()),
    {
        proof {
            if self.entries@.len() > 0 {
                assert(holds(self.entries@, key_at(self.entries@, 0)));
                assert(self@.contains_key(key_at(self.entries@, 0)));
            } else {
                assert(self@ =~= Map::<Seq<char>, Seq<char>>::empty());
            }
        }
        self.entries.len() == 0
    }

    /// The pairs of the map, each key once, in the order of the keys.
    pub fn entries(&self) -> (r: &Vec<(String, String)>)
        ensures
            forall|i: int|
                0 <= i < r@.len() ==> self@.contains_key(#[trigger] r@[i].0@) && self@[r@[i].0@]
                    == r@[i].1@,
            forall|k: Seq<char>|
                self@.contains_key(k) ==> exists|i: int| 0 <= i < r@.len() && #[trigger] r@[i].0@
                    == k,
            forall|i: int, j: int| 0 <= i < j < r@.len() ==> precedes(r@[i].0@, r@[j].0@),
    {
        proof {
            use_type_invariant(self);
            lemma_sorted_distinct(self.entries@);
            assert forall|i: int| 0 <= i < self.entries@.len() implies self@.contains_key(
                #[trigger] self.entries@[i].0@,
            ) && self@[self.entries@[i].0@] == self.entries@[i].1@ by {
                lemma_entry(self.entries@, i);
            }
            assert forall|k: Seq<char>| self@.contains_key(k) implies exists|i: int|
                0 <= i < self.entries@.len() && #[trigger] self.entries@[i].0@ == k by {
                let p = position(self.entries@, k);
                assert(key_at(self.entries@, p) == k);
            }
            assert forall|i: int, j: int| 0 <= i < j < self.entries@.len() implies precedes(
                self.entries@[i].0@,
                self.entries@[j].0@,
            ) by {
                assert(precedes(key_at(self.entries@, i), key_at(self.entries@, j)));
            }
        }
        &self.entries
    }

    /// Whether every key of this map has the same value in `other`.
    fn within(&self, other: &MetadataPairs) -> (r: bool)
        ensures
            r == (forall|k: Seq<char>| #[trigger]
                self@.contains_key(k) ==> other@.contains_key(k) && other@[k] == self@[k]),
    {
        proof {
            use_type_invariant(self);
            use_type_invariant(other);
            lemma_sorted_distinct(self.entries@);
            lemma_sorted_distinct(other.entries@);
        }
        let mut i: usize = 0;
        while i < self.entries.len()
            invariant
                i <= self.entries@.len(),
                distinct(self.entries@),
                distinct(other.entries@),
                forall|j: int|
                    0 <= j < i ==> other@.contains_key(#[trigger] key_at(self.entries@, j))
                        && other@[key_at(self.entries@, j)] == value_at(self.entries@, j),
            decreases self.entries@.len() - i,
        {
            proof {
                lemma_entry(self.entries@, i as int);
            }
            let ghost k = key_at(self.entries@, i as int);
            let (at, found) = other.locate(&self.entries[i].0);
            if found {
                proof {
                    lemma_entry(other.entries@, at as int);
                }
                if !(other.entries[at].1 == self.entries[i].1) {
                    assert(self@.contains_key(k) && other@[k] != self@[k]);
                    return false;
                }
            } else {
                assert(self@.contains_key(k) && !other@.contains_key(k));
                return false;
            }
            i += 1;
        }
        proof {
            assert forall|k: Seq<char>| #[trigger] self@.contains_key(k) implies other@.contains_key(
                k,
            ) && other@[k] == self@[k] by {
                let p = position(self.entries@, k);
                assert(key_at(self.entries@, p) == k);
                lemma_entry(self.entries@, p);
            }
        }
        true
    }
}

impl Clone for MetadataPairs {
    fn clone(&self) -> (r: Self)
        ensures
            r@ == self@,
    {
        proof {
            use_type_invariant(self);
            lemma_sorted_distinct(self.entries@);
        }
        let mut entries: Vec<(String, String)> = Vec::new();
        let mut i: usize = 0;
        while i < self.entries.len()
            invariant
                i <= self.entries@.len(),
                entries@.len() == i,
                forall|j: int|
                    0 <= j < i ==> key_at(entries@, j) == key_at(self.entries@, j) && value_at(
                        entries@,
                        j,
                    ) == value_at(self.entries@, j),
            decreases self.entries@.len() - i,
        {
            let ghost copied = entries@;
            let key = self.entries[i].0.clone();
            let value = self.entries[i].1.clone();
            entries.push((key, value));
            assert forall|j: int| 0 <= j < i + 1 implies key_at(entries@, j) == key_at(
                self.entries@,
                j,
            ) && value_at(entries@, j) == value_at(self.entries@, j) by {
                if j < i {
                    assert(key_at(entries@, j) == key_at(copied, j));
                    assert(value_at(entries@, j) == value_at(copied, j));
                }
            }
            i += 1;
        }
        proof {
            let a = self.entries@;
            let b = entries@;
            assert forall|x: int, y: int| 0 <= x < y < b.len() implies precedes(
                key_at(b, x),
                key_at(b, y),
            ) by {
                assert(precedes(key_at(a, x), key_at(a, y)));
            }
            lemma_sorted_distinct(b);
            assert forall|k: Seq<char>| holds(a, k) <==> holds(b, k) by {
                if holds(a, k) {
                    assert(key_at(b, position(a, k)) == k);
                }
                if holds(b, k) {
                    assert(key_at(a, position(b, k)) == k);
                }
            }
            assert forall|k: Seq<char>| holds(a, k) implies map_of(a)[k] == map_of(b)[k] by {
                let p = position(a, k);
                lemma_entry(a, p);
                assert(key_at(b, p) == k);
                lemma_entry(b, p);
            }
            assert(map_of(a) =~= map_of(b));
        }
        MetadataPairs { entries }
    }
}

impl PartialEq for MetadataPairs {
    /// Two maps are equal when they hold the same keys with the same values.
    fn eq(&self, other: &MetadataPairs) -> (r: bool) {
        let r = self.within(other) && other.within(self);
        proof {
            if r {
                assert(self@ =~= other@);
            }
        }
        r
    }
}

impl vstd::std_specs::cmp::PartialEqSpecImpl for MetadataPairs {
    open spec fn obeys_eq_spec() -> bool {
        true
    }

    open spec fn eq_spec(&self, other: &MetadataPairs) -> bool {
        self@ == other@
    }
}

} // verus!
