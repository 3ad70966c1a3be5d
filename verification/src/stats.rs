//! Accumulation of per-sample counts over a whole run: globally, by entity
//! type and by language.

use vstd::prelude::*;

use crate::counts_map::{key_lt, lemma_key_lt_irreflexive, CountsMap};
use crate::model::{counts_add_fits, counts_sum, zero_counts, SampleCounts};

verus! {

/// The counts stored under `k`, or zero counts when there are none.
pub open spec fn counts_or_zero(m: Map<Seq<char>, SampleCounts>, k: Seq<char>) -> SampleCounts {
    if m.contains_key(k) {
        m[k]
    } else {
        zero_counts()
    }
}

/// `acc` with the counts of `add` summed in, key by key.
pub open spec fn merge_counts(
    acc: Map<Seq<char>, SampleCounts>,
    add: Map<Seq<char>, SampleCounts>,
) -> Map<Seq<char>, SampleCounts> {
    Map::new(
        |k: Seq<char>| acc.contains_key(k) || add.contains_key(k),
        |k: Seq<char>|
            if add.contains_key(k) {
                counts_sum(counts_or_zero(acc, k), add[k])
            } else {
                acc[k]
            },
    )
}

/// Adding `add` into `acc` key by key overflows no count.
pub open spec fn merge_fits(acc: Map<Seq<char>, SampleCounts>, add: Map<Seq<char>, SampleCounts>) -> bool {
    forall|k: Seq<char>| #[trigger] add.contains_key(k) ==> counts_add_fits(counts_or_zero(acc, k), add[k])
}

/// Adds `c` field by field into `acc`.
pub fn add_to(acc: &mut SampleCounts, c: &SampleCounts)
    requires
        counts_add_fits(*old(acc), *c),
    ensures
        *final(acc) == counts_sum(*old(acc), *c),
{
    acc.tp_strict = acc.tp_strict + c.tp_strict;
    acc.fp_strict = acc.fp_strict + c.fp_strict;
    acc.fn_strict = acc.fn_strict + c.fn_strict;
    acc.tp_relaxed = acc.tp_relaxed + c.tp_relaxed;
    acc.fp_relaxed = acc.fp_relaxed + c.fp_relaxed;
    acc.fn_relaxed = acc.fn_relaxed + c.fn_relaxed;
}

/// What a [`Stats`] holds: the global counts and the counts by entity type
/// and by language.
pub struct StatsView {
    pub global: SampleCounts,
    pub by_type: Map<Seq<char>, SampleCounts>,
    pub by_lang: Map<Seq<char>, SampleCounts>,
}

/// The accumulated counts of a run.
pub struct Stats {
    global: SampleCounts,
    by_type: CountsMap,
    by_lang: CountsMap,
}

impl View for Stats {
    type V = StatsView;

    closed spec fn view(&self) -> StatsView {
        StatsView { global: self.global, by_type: self.by_type@, by_lang: self.by_lang@ }
    }
}

/// Adding one sample's counts overflows no count.
pub open spec fn add_fits(
    s: StatsView,
    counts: SampleCounts,
    by_type: Map<Seq<char>, SampleCounts>,
    lang: Seq<char>,
) -> bool {
    &&& counts_add_fits(s.global, counts)
    &&& merge_fits(s.by_type, by_type)
    &&& counts_add_fits(counts_or_zero(s.by_lang, lang), counts)
}

/// The state after adding one sample's counts: `counts` into the global
/// counts and into the counts of `lang`, and `by_type` into the counts by
/// type.
pub open spec fn after_add(
    s: StatsView,
    counts: SampleCounts,
    by_type: Map<Seq<char>, SampleCounts>,
    lang: Seq<char>,
) -> StatsView {
    StatsView {
        global: counts_sum(s.global, counts),
        by_type: merge_counts(s.by_type, by_type),
        by_lang: s.by_lang.insert(lang, counts_sum(counts_or_zero(s.by_lang, lang), counts)),
    }
}

impl CountsMap {
    /// Adds `c` into the counts under `key`, starting from zero counts when
    /// the key is absent.
    pub fn add_to_key(&mut self, key: &str, c: &SampleCounts)
        requires
            counts_add_fits(counts_or_zero(old(self)@, key@), *c),
        ensures
            final(self)@ == old(self)@.insert(key@, counts_sum(counts_or_zero(old(self)@, key@), *c)),
    {
        let mut acc = self.get_or_zero(key);
        add_to(&mut acc, c);
        self.insert(key.to_string(), acc);
    }
}

/// Whether the field-wise sum of `a` and `b` fits in `usize`.
pub fn counts_fit(a: &SampleCounts, b: &SampleCounts) -> (r: bool)
    ensures
        r == counts_add_fits(*a, *b),
{
    a.tp_strict <= usize::MAX - b.tp_strict && a.fp_strict <= usize::MAX - b.fp_strict
        && a.fn_strict <= usize::MAX - b.fn_strict && a.tp_relaxed <= usize::MAX - b.tp_relaxed
        && a.fp_relaxed <= usize::MAX - b.fp_relaxed && a.fn_relaxed <= usize::MAX - b.fn_relaxed
}

impl CountsMap {
    /// The counts under `key`, or zero counts.
    pub fn get_or_zero(&self, key: &str) -> (c: SampleCounts)
        ensures
            c == counts_or_zero(self@, key@),
    {
        match self.get(key) {
            Some(v) => *v,
            None => SampleCounts::default(),
        }
    }
}

impl Stats {
    /// Whether adding one sample's counts would overflow no count.
    pub fn can_add(&self, counts: &SampleCounts, by_type: &CountsMap, lang: &str) -> (r: bool)
        ensures
            r == add_fits(self@, *counts, by_type@, lang@),
    {
        if !counts_fit(&self.global, counts) {
            return false;
        }
        if !counts_fit(&self.by_lang.get_or_zero(lang), counts) {
            return false;
        }
        let n = by_type.len();
        let ghost keys = by_type.ordered_keys();
        let mut i: usize = 0;
        while i < n
            invariant
                n == keys.len(),
                keys == by_type.ordered_keys(),
                forall|k: Seq<char>| by_type@.contains_key(k) <==> keys.contains(k),
                i <= n,
                forall|j: int|
                    0 <= j < i ==> counts_add_fits(
                        counts_or_zero(self.by_type@, #[trigger] keys[j]),
                        by_type@[keys[j]],
                    ),
            decreases n - i,
        {
            let (etype, type_counts) = by_type.entry(i);
            if !counts_fit(&self.by_type.get_or_zero(etype.as_str()), type_counts) {
                return false;
            }
            i = i + 1;
        }
        proof {
            assert forall|k: Seq<char>| #[trigger] by_type@.contains_key(k) implies counts_add_fits(
                counts_or_zero(self.by_type@, k),
                by_type@[k],
            ) by {
                assert(keys.contains(k));
                let j = choose|j: int| 0 <= j < keys.len() && keys[j] == k;
                assert(counts_add_fits(counts_or_zero(self.by_type@, keys[j]), by_type@[keys[j]]));
            }
        }
        true
    }

    /// No counts yet.
    pub fn new() -> (s: Stats)
        ensures
            s@.global == zero_counts(),
            s@.by_type == Map::<Seq<char>, SampleCounts>::empty(),
            s@.by_lang == Map::<Seq<char>, SampleCounts>::empty(),
    {
        Stats { global: SampleCounts::default(), by_type: CountsMap::new(), by_lang: CountsMap::new() }
    }

    /// Adds the counts of one sample in language `lang`.
    pub fn add(&mut self, counts: &SampleCounts, by_type: &CountsMap, lang: &str)
        requires
            add_fits(old(self)@, *counts, by_type@, lang@),
        ensures
            final(self)@ == after_add(old(self)@, *counts, by_type@, lang@),
    {
        let ghost old_view = self@;
        add_to(&mut self.global, counts);
        let n = by_type.len();
        let ghost old_types = self.by_type@;
        let ghost keys = by_type.ordered_keys();
        proof {
            assert forall|a: int, b: int| 0 <= a < b < keys.len() implies keys[a] != keys[b] by {
                assert(key_lt(keys[a], keys[b]));
                lemma_key_lt_irreflexive(keys[a]);
            }
            assert(keys.take(0).to_set() =~= Set::<Seq<char>>::empty());
            assert(merge_counts(old_types, by_type@.restrict(Set::<Seq<char>>::empty())) =~= old_types);
        }
        let mut i: usize = 0;
        while i < n
            invariant
                old_view == old(self)@,
                self@.global == counts_sum(old_view.global, *counts),
                self@.by_lang == old_view.by_lang,
                old_types == old_view.by_type,
                add_fits(old_view, *counts, by_type@, lang@),
                n == keys.len(),
                keys == by_type.ordered_keys(),
                keys_distinct(keys),
                forall|k: Seq<char>| by_type@.contains_key(k) <==> keys.contains(k),
                i <= n,
                merge_fits(old_types, by_type@),
                self.by_type@ == merge_counts(old_types, by_type@.restrict(keys.take(i as int).to_set())),
            decreases n - i,
        {
            let (etype, type_counts) = by_type.entry(i);
            let ghost before = self.by_type@;
            proof {
                let done = keys.take(i as int).to_set();
                assert(!done.contains(keys[i as int])) by {
                    if done.contains(keys[i as int]) {
                        let j = choose|j: int| 0 <= j < i && #[trigger] keys.take(i as int)[j] == keys[i as int];
                        assert(keys[j] == keys[i as int]);
                    }
                }
                assert(counts_or_zero(before, etype@) == counts_or_zero(old_types, etype@));
            }
            self.by_type.add_to_key(etype.as_str(), type_counts);
            proof {
                let done = keys.take(i as int).to_set();
                let done2 = keys.take(i + 1).to_set();
                assert(keys.take(i + 1) =~= keys.take(i as int).push(keys[i as int]));
                assert forall|k: Seq<char>| done2.contains(k) <==> done.insert(keys[i as int]).contains(k) by {
                    if done2.contains(k) {
                        let j = choose|j: int| 0 <= j < i + 1 && #[trigger] keys.take(i + 1)[j] == k;
                        if j < i {
                            assert(keys.take(i as int)[j] == k);
                        }
                    }
                    if done.contains(k) {
                        let j = choose|j: int| 0 <= j < i && #[trigger] keys.take(i as int)[j] == k;
                        assert(keys.take(i + 1)[j] == k);
                    }
                    if k == keys[i as int] {
                        assert(keys.take(i + 1)[i as int] == k);
                    }
                }
                assert(done2 =~= done.insert(keys[i as int]));
                assert(self.by_type@ =~= merge_counts(old_types, by_type@.restrict(done2)));
            }
            i = i + 1;
        }
        proof {
            assert(keys.take(n as int) =~= keys);
            assert(by_type@.restrict(keys.to_set()) =~= by_type@);
        }
        self.by_lang.add_to_key(lang, counts);
    }

    /// The global counts.
    pub fn global(&self) -> (c: SampleCounts)
        ensures
            c == self@.global,
    {
        self.global
    }

    /// The counts by entity type.
    pub fn by_type(&self) -> (m: &CountsMap)
        ensures
            m@ == self@.by_type,
    {
        &self.by_type
    }

    /// The counts by language.
    pub fn by_lang(&self) -> (m: &CountsMap)
        ensures
            m@ == self@.by_lang,
    {
        &self.by_lang
    }
}

/// No key occurs twice.
pub open spec fn keys_distinct(keys: Seq<Seq<char>>) -> bool {
    forall|i: int, j: int| 0 <= i < j < keys.len() ==> keys[i] != keys[j]
}

/// The order in which samples are added does not matter: adding two samples
/// in either order gives the same counts (wherever neither order overflows).
pub proof fn law_add_order_irrelevant(
    s: StatsView,
    c1: SampleCounts,
    t1: Map<Seq<char>, SampleCounts>,
    l1: Seq<char>,
    c2: SampleCounts,
    t2: Map<Seq<char>, SampleCounts>,
    l2: Seq<char>,
)
    requires
        add_fits(s, c1, t1, l1),
        add_fits(after_add(s, c1, t1, l1), c2, t2, l2),
    ensures
        add_fits(s, c2, t2, l2),
        add_fits(after_add(s, c2, t2, l2), c1, t1, l1),
        after_add(after_add(s, c1, t1, l1), c2, t2, l2) == after_add(after_add(s, c2, t2, l2), c1, t1, l1),
{
    let a = after_add(s, c1, t1, l1);
    let b = after_add(s, c2, t2, l2);
    let ab = after_add(a, c2, t2, l2);
    let ba = after_add(b, c1, t1, l1);
    assert forall|k: Seq<char>| #[trigger] t2.contains_key(k) implies counts_add_fits(
        counts_or_zero(s.by_type, k),
        t2[k],
    ) by {
        assert(counts_add_fits(counts_or_zero(a.by_type, k), t2[k]));
    }
    assert forall|k: Seq<char>| #[trigger] t1.contains_key(k) implies counts_add_fits(
        counts_or_zero(b.by_type, k),
        t1[k],
    ) by {
        assert(counts_add_fits(counts_or_zero(s.by_type, k), t1[k]));
        if t2.contains_key(k) {
            assert(counts_add_fits(counts_or_zero(a.by_type, k), t2[k]));
        }
    }
    if l1 == l2 {
        assert(counts_add_fits(counts_or_zero(s.by_lang, l2), c2));
    } else {
        assert(counts_or_zero(a.by_lang, l2) == counts_or_zero(s.by_lang, l2));
        assert(counts_or_zero(b.by_lang, l1) == counts_or_zero(s.by_lang, l1));
    }
    assert(ab.by_type =~= ba.by_type) by {
        assert forall|k: Seq<char>| ab.by_type.contains_key(k) implies ab.by_type[k] == ba.by_type[k] by {
            if t1.contains_key(k) {
                assert(counts_add_fits(counts_or_zero(s.by_type, k), t1[k]));
            }
            if t2.contains_key(k) {
                assert(counts_add_fits(counts_or_zero(a.by_type, k), t2[k]));
            }
        }
    }
    assert(ab.by_lang =~= ba.by_lang);
}

} // verus!
