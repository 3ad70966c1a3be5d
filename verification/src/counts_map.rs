//! A map from string keys to [`SampleCounts`], kept in ascending key order.
//!
//! Keys are ordered lexicographically by character, which is the order of
//! `String` in std (UTF-8 preserves the order of code points).
//!
//! The map is a sorted vector with a ghost model rather than a std
//! `BTreeMap<String, _>`: vstd's specification of `BTreeMap` holds only for
//! key types that obey its comparison laws (`key_obeys_cmp_spec`), and vstd
//! establishes that for no `String` comparison, so with `String` keys the
//! map's contents could not be tied to what an insert or a lookup does. Here the key order
//! is a spec function on the characters of the keys (`key_lt`), proved to
//! be a strict total order, and every operation is proved against the model.

use vstd::prelude::*;

use crate::model::{counts_add_fits, counts_sum, zero_counts, SampleCounts};
use crate::text::chars_of;

verus! {

/// `a` and `b` agree before position `i`, and at `i` either `a` ends while
/// `b` goes on, or the character of `a` is the smaller one.
pub open spec fn key_lt_at(a: Seq<char>, b: Seq<char>, i: int) -> bool {
    &&& 0 <= i <= a.len()
    &&& i <= b.len()
    &&& forall|j: int| 0 <= j < i ==> a[j] == b[j]
    &&& if i == a.len() {
        i < b.len()
    } else {
        i < b.len() && (a[i] as u32) < (b[i] as u32)
    }
}

/// Lexicographic order on character sequences.
pub open spec fn key_lt(a: Seq<char>, b: Seq<char>) -> bool {
    exists|i: int| #[trigger] key_lt_at(a, b, i)
}

/// Keys in strictly ascending order (so none occurs twice).
pub open spec fn keys_ascending(keys: Seq<Seq<char>>) -> bool {
    forall|i: int, j: int| 0 <= i < j < keys.len() ==> key_lt(#[trigger] keys[i], #[trigger] keys[j])
}

pub proof fn lemma_key_lt_irreflexive(a: Seq<char>)
    ensures
        !key_lt(a, a),
{
}

pub proof fn lemma_key_lt_transitive(a: Seq<char>, b: Seq<char>, c: Seq<char>)
    requires
        key_lt(a, b),
        key_lt(b, c),
    ensures
        key_lt(a, c),
{
    let i = choose|i: int| key_lt_at(a, b, i);
    let j = choose|j: int| key_lt_at(b, c, j);
    if i <= j {
        if i == j {
            assert(key_lt_at(a, c, i));
        } else {
            assert(key_lt_at(a, c, i));
        }
    } else {
        assert(key_lt_at(a, c, j));
    }
}

pub proof fn lemma_key_lt_asymmetric(a: Seq<char>, b: Seq<char>)
    requires
        key_lt(a, b),
    ensures
        !key_lt(b, a),
{
    if key_lt(b, a) {
        lemma_key_lt_transitive(a, b, a);
    }
}

/// The outcome of comparing two keys.
#[derive(Debug, Clone, Copy, PartialEq, Eq, Structural)]
pub enum KeyOrder {
    Less,
    Equal,
    Greater,
}

/// Compares two strings lexicographically by character.
pub fn compare_keys(a: &str, b: &str) -> (r: KeyOrder)
    ensures
        (r == KeyOrder::Less) <==> key_lt(a@, b@),
        (r == KeyOrder::Equal) <==> a@ == b@,
        (r == KeyOrder::Greater) <==> key_lt(b@, a@),
{
    let av = chars_of(a);
    let bv = chars_of(b);
    let mut i: usize = 0;
    while i < av.len() && i < bv.len() && av[i] == bv[i]
        invariant
            av@ == a@,
            bv@ == b@,
            i <= av@.len(),
            i <= bv@.len(),
            forall|j: int| 0 <= j < i ==> a@[j] == b@[j],
        decreases av@.len() - i,
    {
        i = i + 1;
    }
    if i == av.len() && i == bv.len() {
        assert(a@ =~= b@);
        proof {
            lemma_key_lt_irreflexive(a@);
        }
        KeyOrder::Equal
    } else if i == av.len() || (i < bv.len() && (av[i] as u32) < (bv[i] as u32)) {
        assert(key_lt_at(a@, b@, i as int));
        proof {
            lemma_key_lt_asymmetric(a@, b@);
        }
        KeyOrder::Less
    } else {
        proof {
            if i < av.len() && i < bv.len() {
                vstd::utf8::char_u32_cast(a@[i as int], a@[i as int] as u32);
                vstd::utf8::char_u32_cast(b@[i as int], b@[i as int] as u32);
            }
        }
        assert(key_lt_at(b@, a@, i as int));
        proof {
            lemma_key_lt_asymmetric(b@, a@);
        }
        KeyOrder::Greater
    }
}

/// Whether two strings hold the same characters.
pub fn same_text(a: &str, b: &str) -> (r: bool)
    ensures
        r == (a@ == b@),
{
    compare_keys(a, b) == KeyOrder::Equal
}

/// String-keyed counts, ascending by key.
pub struct CountsMap {
    entries: Vec<(String, SampleCounts)>,
    model: Ghost<Map<Seq<char>, SampleCounts>>,
}

impl View for CountsMap {
    type V = Map<Seq<char>, SampleCounts>;

    closed spec fn view(&self) -> Map<Seq<char>, SampleCounts> {
        self.model@
    }
}

impl CountsMap {
    /// The keys in the order in which the map holds them.
    pub closed spec fn ordered_keys(&self) -> Seq<Seq<char>> {
        self.entries@.map_values(|e: (String, SampleCounts)| e.0@)
    }

    #[verifier::type_invariant]
    closed spec fn inv(self) -> bool {
        &&& keys_ascending(self.ordered_keys())
        &&& forall|i: int|
            0 <= i < self.entries@.len() ==> {
                &&& self.model@.contains_key(#[trigger] self.entries@[i].0@)
                &&& self.model@[self.entries@[i].0@] == self.entries@[i].1
            }
        &&& forall|k: Seq<char>| #[trigger]
            self.model@.contains_key(k) ==> self.ordered_keys().contains(k)
    }

    /// An empty map.
    pub fn new() -> (m: CountsMap)
        ensures
            m@ == Map::<Seq<char>, SampleCounts>::empty(),
            m.ordered_keys() == Seq::<Seq<char>>::empty(),
    {
        let m = CountsMap { entries: Vec::new(), model: Ghost(Map::empty()) };
        assert(m.ordered_keys() =~= Seq::<Seq<char>>::empty());
        m
    }

    /// The number of keys; also states that `ordered_keys` lists exactly the
    /// keys of the map, ascending.
    pub fn len(&self) -> (n: usize)
        ensures
            n == self.ordered_keys().len(),
            keys_ascending(self.ordered_keys()),
            forall|k: Seq<char>| self@.contains_key(k) <==> self.ordered_keys().contains(k),
            n == self@.dom().len(),
    {
        proof {
            use_type_invariant(self);
        }
        let n = self.entries.len();
        proof {
            self.lemma_dom_is_keys();
        }
        n
    }

    proof fn lemma_dom_is_keys(&self)
        requires
            self.inv(),
        ensures
            self@.dom() == self.ordered_keys().to_set(),
            self@.dom().len() == self.ordered_keys().len(),
    {
        let ks = self.ordered_keys();
        assert forall|k: Seq<char>| self@.contains_key(k) <==> ks.to_set().contains(k) by {
            if ks.contains(k) {
                let i = choose|i: int| 0 <= i < ks.len() && ks[i] == k;
                assert(self.entries@[i].0@ == k);
            }
        }
        assert(self@.dom() =~= ks.to_set());
        assert forall|i: int, j: int| 0 <= i < ks.len() && 0 <= j < ks.len() && i != j implies ks[i]
            != ks[j] by {
            if i < j {
                assert(key_lt(ks[i], ks[j]));
            } else {
                assert(key_lt(ks[j], ks[i]));
            }
        }
        assert(ks.no_duplicates());
        ks.unique_seq_to_set();
    }

    /// The `i`-th entry in ascending key order.
    pub fn entry(&self, i: usize) -> (r: (&String, &SampleCounts))
        requires
            i < self.ordered_keys().len(),
        ensures
            r.0@ == self.ordered_keys()[i as int],
            self@.contains_key(r.0@),
            *r.1 == self@[r.0@],
    {
        proof {
            use_type_invariant(self);
        }
        let e = &self.entries[i];
        (&e.0, &e.1)
    }

    /// Where `key` is, or where it would go: `(i, true)` when the key at `i`
    /// is `key`; `(i, false)` when every key before `i` is smaller and every
    /// key from `i` on is greater.
    fn find_slot(&self, key: &str) -> (r: (usize, bool))
        ensures
            r.0 <= self.ordered_keys().len(),
            r.1 ==> r.0 < self.ordered_keys().len() && self.ordered_keys()[r.0 as int] == key@,
            !r.1 ==> forall|j: int| 0 <= j < r.0 ==> key_lt(#[trigger] self.ordered_keys()[j], key@),
            !r.1 ==> forall|j: int|
                r.0 <= j < self.ordered_keys().len() ==> key_lt(key@, #[trigger] self.ordered_keys()[j]),
    {
        proof {
            use_type_invariant(self);
        }
        let n = self.entries.len();
        let mut i: usize = 0;
        while i < n
            invariant
                n == self.entries@.len(),
                i <= n,
                keys_ascending(self.ordered_keys()),
                forall|j: int| 0 <= j < i ==> key_lt(#[trigger] self.ordered_keys()[j], key@),
            decreases n - i,
        {
            match compare_keys(self.entries[i].0.as_str(), key) {
                KeyOrder::Less => {
                    i = i + 1;
                },
                KeyOrder::Equal => {
                    return (i, true);
                },
                KeyOrder::Greater => {
                    proof {
                        assert forall|j: int| i <= j < self.ordered_keys().len() implies key_lt(
                            key@,
                            #[trigger] self.ordered_keys()[j],
                        ) by {
                            if j > i {
                                assert(key_lt(self.ordered_keys()[i as int], self.ordered_keys()[j]));
                                lemma_key_lt_transitive(
                                    key@,
                                    self.ordered_keys()[i as int],
                                    self.ordered_keys()[j],
                                );
                            }
                        }
                    }
                    return (i, false);
                },
            }
        }
        (i, false)
    }

    /// The counts stored under `key`, if any.
    pub fn get(&self, key: &str) -> (r: Option<&SampleCounts>)
        ensures
            match r {
                Some(c) => self@.contains_key(key@) && *c == self@[key@],
                None => !self@.contains_key(key@),
            },
    {
        proof {
            use_type_invariant(self);
        }
        let (i, found) = self.find_slot(key);
        if found {
            Some(&self.entries[i].1)
        } else {
            proof {
                if self@.contains_key(key@) {
                    let ks = self.ordered_keys();
                    let j = choose|j: int| 0 <= j < ks.len() && ks[j] == key@;
                    if j < i {
                        lemma_key_lt_irreflexive(key@);
                    } else {
                        lemma_key_lt_irreflexive(key@);
                    }
                }
            }
            None
        }
    }

    /// Stores `value` under `key`, replacing what was there.
    pub fn insert(&mut self, key: String, value: SampleCounts)
        ensures
            final(self)@ == old(self)@.insert(key@, value),
    {
        proof {
            use_type_invariant(&*self);
        }
        let (i, found) = self.find_slot(key.as_str());
        let ghost old_keys = self.ordered_keys();
        let ghost new_model = self.model@.insert(key@, value);
        let mut taken = CountsMap::new();
        std::mem::swap(&mut taken, self);
        let CountsMap { mut entries, model: _ } = taken;
        if found {
            let ghost old_entries = entries@;
            entries.set(i, (key, value));
            proof {
                assert(entries@.map_values(|e: (String, SampleCounts)| e.0@) =~= old_keys);
                assert forall|j: int| 0 <= j < entries@.len() implies {
                    &&& new_model.contains_key(#[trigger] entries@[j].0@)
                    &&& new_model[entries@[j].0@] == entries@[j].1
                } by {
                    if j != i {
                        assert(entries@[j] == old_entries[j]);
                        assert(old_keys[j] == old_entries[j].0@);
                        if j < i {
                            assert(key_lt(old_keys[j], old_keys[i as int]));
                        } else {
                            assert(key_lt(old_keys[i as int], old_keys[j]));
                        }
                        lemma_key_lt_irreflexive(key@);
                    }
                }
                assert forall|k: Seq<char>| #[trigger] new_model.contains_key(k) implies old_keys.contains(
                    k,
                ) by {
                    if k == key@ {
                        assert(old_keys[i as int] == k);
                    }
                }
            }
            *self = CountsMap { entries, model: Ghost(new_model) };
        } else {
            let ghost old_entries = entries@;
            entries.insert(i, (key, value));
            let ghost new_keys = entries@.map_values(|e: (String, SampleCounts)| e.0@);
            proof {
                assert(new_keys =~= old_keys.insert(i as int, key@));
                assert forall|a: int, b: int| 0 <= a < b < new_keys.len() implies key_lt(
                    #[trigger] new_keys[a],
                    #[trigger] new_keys[b],
                ) by {
                    if b < i {
                    } else if a < i && b == i {
                    } else if a < i && b > i {
                        assert(new_keys[b] == old_keys[b - 1]);
                    } else if a == i {
                        assert(new_keys[b] == old_keys[b - 1]);
                    } else {
                        assert(new_keys[a] == old_keys[a - 1]);
                        assert(new_keys[b] == old_keys[b - 1]);
                    }
                }
                assert forall|j: int| 0 <= j < entries@.len() implies {
                    &&& new_model.contains_key(#[trigger] entries@[j].0@)
                    &&& new_model[entries@[j].0@] == entries@[j].1
                } by {
                    if j < i {
                        assert(entries@[j] == old_entries[j]);
                        assert(key_lt(old_keys[j], key@));
                    } else if j > i {
                        assert(entries@[j] == old_entries[j - 1]);
                        assert(key_lt(key@, old_keys[j - 1]));
                    }
                }
                assert forall|k: Seq<char>| #[trigger] new_model.contains_key(k) implies new_keys.contains(
                    k,
                ) by {
                    if k == key@ {
                        assert(new_keys[i as int] == k);
                    } else {
                        let j = choose|j: int| 0 <= j < old_keys.len() && old_keys[j] == k;
                        if j < i {
                            assert(new_keys[j] == k);
                        } else {
                            assert(new_keys[j + 1] == k);
                        }
                    }
                }
            }
            *self = CountsMap { entries, model: Ghost(new_model) };
        }
    }
}

} // verus!
