//! The frequency table: a mapping from character-sequence keys to positive
//! occurrence counts.
//!
//! The table is modelled by the sequence of its (key, count) pairs, with two
//! invariants: keys are pairwise distinct and every stored count is at least
//! one.  `spec_count` gives the count of a key, zero when the key is absent;
//! all contracts of the two counting passes are stated over it.

use vstd::prelude::*;

verus! {

/// Does a count pass the threshold under the given policy?  Strict keeps
/// only counts greater than the threshold; inclusive keeps counts greater
/// than or equal to it.
pub open spec fn spec_passes(c: nat, threshold: usize, strict: bool) -> bool {
    if strict {
        c > threshold
    } else {
        c >= threshold
    }
}

/// Sum of the counts of the entries of `s` whose key is `key`.
pub open spec fn seq_count(s: Seq<(Seq<char>, usize)>, key: Seq<char>) -> nat
    decreases s.len(),
{
    if s.len() == 0 {
        0
    } else {
        (if s[0].0 == key {
            s[0].1 as nat
        } else {
            0
        }) + seq_count(s.drop_first(), key)
    }
}

/// Sum of all counts of `s`.
pub open spec fn seq_total(s: Seq<(Seq<char>, usize)>) -> nat
    decreases s.len(),
{
    if s.len() == 0 {
        0
    } else {
        s[0].1 as nat + seq_total(s.drop_first())
    }
}

/// Sum of the counts of the entries whose key is `key`, restricted to the
/// entries that pass the threshold.
pub open spec fn seq_kept_count(
    s: Seq<(Seq<char>, usize)>,
    key: Seq<char>,
    threshold: usize,
    strict: bool,
) -> nat
    decreases s.len(),
{
    if s.len() == 0 {
        0
    } else {
        (if s[0].0 == key && spec_passes(s[0].1 as nat, threshold, strict) {
            s[0].1 as nat
        } else {
            0
        }) + seq_kept_count(s.drop_first(), key, threshold, strict)
    }
}

/// Some entry of `s` has key `key`.
pub open spec fn seq_has(s: Seq<(Seq<char>, usize)>, key: Seq<char>) -> bool {
    exists|i: int| 0 <= i < s.len() && s[i].0 == key
}

/// No two entries of `s` share a key.
pub open spec fn distinct_keys(s: Seq<(Seq<char>, usize)>) -> bool {
    forall|i: int, j: int| 0 <= i < j < s.len() ==> s[i].0 != s[j].0
}

/// Every count of `s` is at least one.
pub open spec fn counts_positive(s: Seq<(Seq<char>, usize)>) -> bool {
    forall|i: int| 0 <= i < s.len() ==> #[trigger] s[i].1 >= 1
}

pub proof fn lemma_count_push(s: Seq<(Seq<char>, usize)>, p: (Seq<char>, usize), key: Seq<char>)
    ensures
        seq_count(s.push(p), key) == seq_count(s, key) + (if p.0 == key {
            p.1 as nat
        } else {
            0
        }),
        seq_total(s.push(p)) == seq_total(s) + p.1,
    decreases s.len(),
{
    if s.len() == 0 {
        assert(s.push(p)[0] == p);
        assert(s.push(p).drop_first() =~= Seq::<(Seq<char>, usize)>::empty());
        assert(seq_count(s.push(p).drop_first(), key) == 0);
        assert(seq_total(s.push(p).drop_first()) == 0);
    } else {
        assert(s.push(p)[0] == s[0]);
        assert(s.push(p).drop_first() =~= s.drop_first().push(p));
        lemma_count_push(s.drop_first(), p, key);
    }
}

pub proof fn lemma_count_update(s: Seq<(Seq<char>, usize)>, i: int, v: usize, key: Seq<char>)
    requires
        0 <= i < s.len(),
    ensures
        seq_count(s.update(i, (s[i].0, v)), key) + (if s[i].0 == key {
            s[i].1 as nat
        } else {
            0
        }) == seq_count(s, key) + (if s[i].0 == key {
            v as nat
        } else {
            0
        }),
        seq_total(s.update(i, (s[i].0, v))) + s[i].1 == seq_total(s) + v,
    decreases s.len(),
{
    let t = s.update(i, (s[i].0, v));
    if i == 0 {
        assert(t.drop_first() =~= s.drop_first());
    } else {
        assert(t.drop_first() =~= s.drop_first().update(i - 1, (s.drop_first()[i - 1].0, v)));
        lemma_count_update(s.drop_first(), i - 1, v, key);
    }
}

pub proof fn lemma_count_le_total(s: Seq<(Seq<char>, usize)>, key: Seq<char>)
    ensures
        seq_count(s, key) <= seq_total(s),
    decreases s.len(),
{
    if s.len() > 0 {
        lemma_count_le_total(s.drop_first(), key);
    }
}

pub proof fn lemma_count_absent(s: Seq<(Seq<char>, usize)>, key: Seq<char>)
    requires
        forall|j: int| 0 <= j < s.len() ==> s[j].0 != key,
    ensures
        seq_count(s, key) == 0,
    decreases s.len(),
{
    if s.len() > 0 {
        assert(forall|j: int|
            0 <= j < s.drop_first().len() ==> s.drop_first()[j].0 != key);
        lemma_count_absent(s.drop_first(), key);
    }
}

pub proof fn lemma_count_unique(s: Seq<(Seq<char>, usize)>, i: int)
    requires
        distinct_keys(s),
        0 <= i < s.len(),
    ensures
        seq_count(s, s[i].0) == s[i].1,
    decreases s.len(),
{
    if i == 0 {
        assert(forall|j: int|
            0 <= j < s.drop_first().len() ==> s.drop_first()[j].0 != s[0].0);
        lemma_count_absent(s.drop_first(), s[0].0);
    } else {
        lemma_count_unique(s.drop_first(), i - 1);
    }
}

/// Restricting a table with distinct keys to the entries that pass the
/// threshold keeps exactly the passing counts.
pub proof fn lemma_kept_count(
    s: Seq<(Seq<char>, usize)>,
    key: Seq<char>,
    threshold: usize,
    strict: bool,
)
    requires
        distinct_keys(s),
    ensures
        seq_kept_count(s, key, threshold, strict) == if spec_passes(
            seq_count(s, key),
            threshold,
            strict,
        ) && seq_count(s, key) > 0 {
            seq_count(s, key)
        } else {
            0
        },
    decreases s.len(),
{
    if s.len() > 0 {
        lemma_kept_count(s.drop_first(), key, threshold, strict);
        if s[0].0 == key {
            assert(forall|j: int|
                0 <= j < s.drop_first().len() ==> s.drop_first()[j].0 != key);
            lemma_count_absent(s.drop_first(), key);
        }
    }
}

/// A sequence of entries with distinct keys and positive counts holds a key
/// exactly when its count is nonzero.
pub proof fn lemma_has_iff_count(s: Seq<(Seq<char>, usize)>, key: Seq<char>)
    requires
        distinct_keys(s),
        counts_positive(s),
    ensures
        seq_has(s, key) <==> seq_count(s, key) > 0,
{
    if seq_has(s, key) {
        let i = choose|i: int| 0 <= i < s.len() && s[i].0 == key;
        lemma_count_unique(s, i);
    } else {
        assert(forall|j: int| 0 <= j < s.len() ==> s[j].0 != key);
        lemma_count_absent(s, key);
    }
}

/// Removing the first element of `b` from the concatenation `a + b` keeps
/// keys distinct and counts positive.
pub proof fn lemma_wf_drop_middle(a: Seq<(Seq<char>, usize)>, b: Seq<(Seq<char>, usize)>)
    requires
        b.len() > 0,
        distinct_keys(a + b),
        counts_positive(a + b),
    ensures
        distinct_keys(a + b.drop_first()),
        counts_positive(a + b.drop_first()),
{
    let w = a + b.drop_first();
    let v = a + b;
    assert(forall|x: int|
        0 <= x < w.len() ==> w[x] == (if x < a.len() {
            v[x]
        } else {
            v[x + 1]
        }));
    assert forall|i: int, j: int| 0 <= i < j < w.len() implies w[i].0 != w[j].0 by {
        let i2: int = if i < a.len() { i } else { i + 1 };
        let j2: int = if j < a.len() { j } else { j + 1 };
        assert(v[i2].0 != v[j2].0);
    }
    assert forall|i: int| 0 <= i < w.len() implies #[trigger] w[i].1 >= 1 by {
        let i2: int = if i < a.len() { i } else { i + 1 };
        assert(v[i2].1 >= 1);
    }
}

/// Compares two keys character by character.
pub fn keys_equal(a: &Vec<char>, b: &Vec<char>) -> (r: bool)
    ensures
        r == (a@ == b@),
{
    if a.len() != b.len() {
        return false;
    }
    let mut i: usize = 0;
    while i < a.len()
        invariant
            a@.len() == b@.len(),
            i <= a@.len(),
            forall|k: int| 0 <= k < i ==> a@[k] == b@[k],
        decreases a@.len() - i,
    {
        if a[i] != b[i] {
            return false;
        }
        i = i + 1;
    }
    proof {
        assert(a@ =~= b@);
    }
    true
}

/// The (key, count) pairs a sequence of entries holds, as mathematical
/// values.
pub open spec fn entry_views(s: Seq<(Vec<char>, usize)>) -> Seq<(Seq<char>, usize)> {
    s.map_values(|e: (Vec<char>, usize)| (e.0@, e.1))
}

/// A mapping from character-sequence keys to positive occurrence counts.
pub struct FrequencyTable {
    entries: Vec<(Vec<char>, usize)>,
}

impl FrequencyTable {
    /// The (key, count) pairs the table holds, as mathematical values.
    pub closed spec fn pairs(&self) -> Seq<(Seq<char>, usize)> {
        entry_views(self.entries@)
    }

    /// Well-formedness: keys are distinct and all counts are positive.
    pub open spec fn wf(&self) -> bool {
        distinct_keys(self.pairs()) && counts_positive(self.pairs())
    }

    /// The count recorded for `key`; zero when the key is absent.
    pub open spec fn spec_count(&self, key: Seq<char>) -> nat {
        seq_count(self.pairs(), key)
    }

    /// Whether the table holds an entry for `key`.
    pub open spec fn spec_contains(&self, key: Seq<char>) -> bool {
        seq_has(self.pairs(), key)
    }

    /// Sum of all counts in the table.
    pub open spec fn total(&self) -> nat {
        seq_total(self.pairs())
    }

    /// No single count exceeds the sum of all counts.
    pub proof fn lemma_count_bounded(&self, key: Seq<char>)
        ensures
            self.spec_count(key) <= self.total(),
    {
        lemma_count_le_total(self.pairs(), key);
    }

    /// Creates an empty table.
    pub fn new() -> (t: FrequencyTable)
        ensures
            t.wf(),
            t.pairs() == Seq::<(Seq<char>, usize)>::empty(),
            t.total() == 0,
            forall|k: Seq<char>| t.spec_count(k) == 0,
    {
        let t = FrequencyTable { entries: Vec::new() };
        proof {
            assert(t.pairs() =~= Seq::<(Seq<char>, usize)>::empty());
        }
        t
    }

    /// Finds the position of `key` among the entries, if it is present.
    #[verifier::loop_isolation(false)]
    fn find_index(&self, key: &Vec<char>) -> (r: Option<usize>)
        ensures
            match r {
                Some(i) => i < self.pairs().len() && self.pairs()[i as int].0 == key@,
                None => forall|j: int| 0 <= j < self.pairs().len() ==> self.pairs()[j].0 != key@,
            },
    {
        let mut i: usize = 0;
        while i < self.entries.len()
            invariant
                i <= self.entries@.len(),
                forall|j: int| 0 <= j < i ==> self.pairs()[j].0 != key@,
            decreases self.entries@.len() - i,
        {
            if keys_equal(&self.entries[i].0, key) {
                return Some(i);
            }
            i = i + 1;
        }
        None
    }

    /// Looks a key up; absent keys report zero.
    pub fn get(&self, key: &Vec<char>) -> (c: usize)
        requires
            self.wf(),
        ensures
            c as nat == self.spec_count(key@),
    {
        match self.find_index(key) {
            Some(i) => {
                proof {
                    lemma_count_unique(self.pairs(), i as int);
                }
                self.entries[i].1
            },
            None => {
                proof {
                    lemma_count_absent(self.pairs(), key@);
                }
                0
            },
        }
    }

    /// Adds `by` occurrences of `key`, inserting the key when absent.
    pub fn increment_by(&mut self, key: Vec<char>, by: usize)
        requires
            old(self).wf(),
            by >= 1,
            old(self).spec_count(key@) + by <= usize::MAX,
        ensures
            final(self).wf(),
            final(self).spec_count(key@) == old(self).spec_count(key@) + by,
            forall|k: Seq<char>|
                k != key@ ==> final(self).spec_count(k) == old(self).spec_count(k),
            final(self).total() == old(self).total() + by,
    {
        let ghost s = self.pairs();
        match self.find_index(&key) {
            Some(i) => {
                proof {
                    lemma_count_unique(s, i as int);
                }
                let cur = self.entries[i].1;
                self.entries[i] = (key, cur + by);
                proof {
                    assert(self.pairs() =~= s.update(i as int, (s[i as int].0, (cur + by) as usize)));
                    lemma_count_update(s, i as int, (cur + by) as usize, key@);
                    assert forall|k: Seq<char>| k != key@ implies seq_count(self.pairs(), k)
                        == seq_count(s, k) by {
                        lemma_count_update(s, i as int, (cur + by) as usize, k);
                    }
                }
            },
            None => {
                proof {
                    lemma_count_absent(s, key@);
                }
                self.entries.push((key, by));
                proof {
                    assert(self.pairs() =~= s.push((key@, by)));
                    lemma_count_push(s, (key@, by), key@);
                    assert forall|k: Seq<char>| k != key@ implies seq_count(self.pairs(), k)
                        == seq_count(s, k) by {
                        lemma_count_push(s, (key@, by), k);
                    }
                }
            },
        }
    }

    /// Removes every entry whose count does not pass the threshold under the
    /// given policy; passing entries keep their count unchanged.
    #[verifier::loop_isolation(false)]
    fn retain_core(&mut self, threshold: usize, strict: bool)
        requires
            old(self).wf(),
        ensures
            final(self).wf(),
            forall|k: Seq<char>|
                final(self).spec_count(k) == if spec_passes(
                    old(self).spec_count(k),
                    threshold,
                    strict,
                ) {
                    old(self).spec_count(k)
                } else {
                    0
                },
            forall|k: Seq<char>|
                final(self).spec_contains(k) <==> old(self).spec_contains(k) && spec_passes(
                    old(self).spec_count(k),
                    threshold,
                    strict,
                ),
    {
        let ghost orig = self.pairs();
        let mut kept: Vec<(Vec<char>, usize)> = Vec::new();
        proof {
            assert(kept@.map_values(|e: (Vec<char>, usize)| (e.0@, e.1)) =~= Seq::<(
                Seq<char>,
                usize,
            )>::empty());
            assert(Seq::<(Seq<char>, usize)>::empty() + orig =~= orig);
        }
        while self.entries.len() > 0
            invariant
                distinct_keys(
                    kept@.map_values(|e: (Vec<char>, usize)| (e.0@, e.1)) + self.pairs(),
                ),
                counts_positive(
                    kept@.map_values(|e: (Vec<char>, usize)| (e.0@, e.1)) + self.pairs(),
                ),
                forall|k: Seq<char>|
                    seq_count(kept@.map_values(|e: (Vec<char>, usize)| (e.0@, e.1)), k)
                        + seq_kept_count(self.pairs(), k, threshold, strict) == seq_kept_count(
                        orig,
                        k,
                        threshold,
                        strict,
                    ),
            decreases self.entries@.len(),
        {
            let ghost kp = kept@.map_values(|e: (Vec<char>, usize)| (e.0@, e.1));
            let ghost rem = self.pairs();
            let e = self.entries.remove(0);
            proof {
                assert(self.pairs() =~= rem.drop_first());
                assert(rem[0] == (e.0@, e.1));
            }
            if (strict && e.1 > threshold) || (!strict && e.1 >= threshold) {
                kept.push(e);
                proof {
                    let kp2 = kept@.map_values(|ee: (Vec<char>, usize)| (ee.0@, ee.1));
                    assert(kp2 =~= kp.push((e.0@, e.1)));
                    assert(kp2 + rem.drop_first() =~= kp + rem);
                    assert forall|k: Seq<char>|
                        seq_count(kp2, k) + seq_kept_count(self.pairs(), k, threshold, strict)
                            == seq_kept_count(orig, k, threshold, strict) by {
                        lemma_count_push(kp, (e.0@, e.1), k);
                    }
                }
            } else {
                proof {
                    lemma_wf_drop_middle(kp, rem);
                }
            }
        }
        proof {
            assert(kept@.map_values(|e: (Vec<char>, usize)| (e.0@, e.1)) + self.pairs()
                =~= kept@.map_values(|e: (Vec<char>, usize)| (e.0@, e.1)));
        }
        self.entries = kept;
        proof {
            assert forall|k: Seq<char>|
                seq_count(self.pairs(), k) == if spec_passes(
                    seq_count(orig, k),
                    threshold,
                    strict,
                ) {
                    seq_count(orig, k)
                } else {
                    0
                } by {
                lemma_kept_count(orig, k, threshold, strict);
            }
            assert forall|k: Seq<char>|
                self.spec_contains(k) <==> (old(self).spec_contains(k) && spec_passes(
                    old(self).spec_count(k),
                    threshold,
                    strict,
                )) by {
                lemma_has_iff_count(self.pairs(), k);
                lemma_has_iff_count(orig, k);
                assert(seq_count(self.pairs(), k) == if spec_passes(
                    seq_count(orig, k),
                    threshold,
                    strict,
                ) {
                    seq_count(orig, k)
                } else {
                    0
                });
            }
        }
    }

    /// Keeps only the entries whose count is strictly greater than the
    /// threshold.
    pub fn retain_above(&mut self, threshold: usize)
        requires
            old(self).wf(),
        ensures
            final(self).wf(),
            forall|k: Seq<char>|
                final(self).spec_count(k) == if old(self).spec_count(k) > threshold {
                    old(self).spec_count(k)
                } else {
                    0
                },
            forall|k: Seq<char>|
                final(self).spec_contains(k) <==> old(self).spec_contains(k) && old(
                    self,
                ).spec_count(k) > threshold,
    {
        self.retain_core(threshold, true);
    }

    /// Keeps only the entries whose count is at least the threshold.
    pub fn retain_at_least(&mut self, threshold: usize)
        requires
            old(self).wf(),
        ensures
            final(self).wf(),
            forall|k: Seq<char>|
                final(self).spec_count(k) == if old(self).spec_count(k) >= threshold {
                    old(self).spec_count(k)
                } else {
                    0
                },
            forall|k: Seq<char>|
                final(self).spec_contains(k) <==> old(self).spec_contains(k) && old(
                    self,
                ).spec_count(k) >= threshold,
    {
        self.retain_core(threshold, false);
    }

    /// Surrenders the table's entries, for ranking.
    pub fn into_entries(self) -> (v: Vec<(Vec<char>, usize)>)
        ensures
            entry_views(v@) == self.pairs(),
    {
        self.entries
    }

    /// Adds every count of `other` into this table.  Returns `false`, leaving
    /// this table well-formed but only partially merged, in the (practically
    /// unreachable) case that a combined count would not fit in `usize`.
    #[verifier::loop_isolation(false)]
    pub fn absorb(&mut self, other: FrequencyTable) -> (ok: bool)
        requires
            old(self).wf(),
            other.wf(),
        ensures
            final(self).wf(),
            ok ==> forall|k: Seq<char>|
                final(self).spec_count(k) == old(self).spec_count(k) + other.spec_count(k),
            !ok ==> exists|k: Seq<char>|
                old(self).spec_count(k) + other.spec_count(k) > usize::MAX,
    {
        let mut rest = other;
        while rest.entries.len() > 0
            invariant
                self.wf(),
                counts_positive(rest.pairs()),
                forall|k: Seq<char>|
                    #[trigger] self.spec_count(k) + seq_count(rest.pairs(), k) == old(
                        self,
                    ).spec_count(k) + other.spec_count(k),
            decreases rest.entries@.len(),
        {
            let ghost rem = rest.pairs();
            let e = rest.entries.remove(0);
            proof {
                assert(rest.pairs() =~= rem.drop_first());
                assert(rem[0] == (e.0@, e.1));
            }
            let cur = self.get(&e.0);
            if e.1 > usize::MAX - cur {
                proof {
                    assert(seq_count(rem, e.0@) == e.1 + seq_count(rest.pairs(), e.0@));
                    assert(old(self).spec_count(e.0@) + other.spec_count(e.0@) > usize::MAX);
                }
                return false;
            }
            self.increment_by(e.0, e.1);
        }
        true
    }

    /// Records one more occurrence of `key`.
    pub fn increment(&mut self, key: Vec<char>)
        requires
            old(self).wf(),
            old(self).spec_count(key@) < usize::MAX,
        ensures
            final(self).wf(),
            final(self).spec_count(key@) == old(self).spec_count(key@) + 1,
            forall|k: Seq<char>|
                k != key@ ==> final(self).spec_count(k) == old(self).spec_count(k),
            final(self).total() == old(self).total() + 1,
    {
        self.increment_by(key, 1);
    }
}

} // verus!
