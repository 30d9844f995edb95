//! Laws of the counting pipeline, stated and proved over the same spec
//! functions the executable contracts use.
//!
//! The central one is order-independence of pass-1 aggregation: the group
//! counts of a corpus are the sum of its lines' counts over any split, and
//! are unchanged by any reordering of the lines — so a parallel run that
//! counts chunks of lines separately and merges the tables yields exactly
//! the sequential counts, whatever the degree of parallelism.

use vstd::prelude::*;

use crate::accept::spec_accepted;
use crate::accept::spec_is_ideograph;
use crate::scan::best_idx;
use crate::scan::cand_key;
use crate::scan::completes_at;
use crate::scan::corpus_gram_count;
use crate::scan::lemma_best_idx;
use crate::scan::line_gram_count;
use crate::scan::window_len;
use crate::scan::winner;
use crate::settings::lemma_extra_contains;
use crate::settings::spec_extra_set;
use crate::table::FrequencyTable;

verus! {

/// With an extra set built from raw input, a character is accepted exactly
/// when it is ideographic or the raw input holds it: discarding the
/// ideographs from the extra set never narrows acceptance, because the
/// ideographic branch already covers them.
pub proof fn lemma_acceptance_with_built_extra(input: Seq<char>, c: char)
    ensures
        spec_accepted(c, spec_extra_set(input)) <==> (spec_is_ideograph(c) || input.contains(c)),
{
    lemma_extra_contains(input, c);
}

/// Length of the maximal run of accepted characters ending at position `j`.
pub open spec fn run_len(line: Seq<char>, extra: Seq<char>, j: int) -> int
    decreases j,
{
    if j <= 0 {
        0
    } else if !spec_accepted(line[j - 1], extra) {
        0
    } else {
        run_len(line, extra, j - 1) + 1
    }
}

proof fn lemma_window_len_is_capped_run(line: Seq<char>, extra: Seq<char>, n: int, j: int)
    requires
        n >= 1,
        j >= 0,
    ensures
        window_len(line, extra, n, 1, j) == if run_len(line, extra, j) < n {
            run_len(line, extra, j)
        } else {
            n - 1
        },
    decreases j,
{
    if j > 0 {
        lemma_window_len_is_capped_run(line, extra, n, j - 1);
    }
}

proof fn lemma_run_len_bounds(line: Seq<char>, extra: Seq<char>, j: int)
    requires
        j >= 0,
    ensures
        0 <= run_len(line, extra, j) <= j,
    decreases j,
{
    if j > 0 {
        lemma_run_len_bounds(line, extra, j - 1);
    }
}

proof fn lemma_run_len_accepted(line: Seq<char>, extra: Seq<char>, j: int, m: int)
    requires
        j >= 0,
        m >= 0,
    ensures
        run_len(line, extra, j) >= m <==> (m <= j && forall|k: int|
            j - m <= k < j ==> spec_accepted(#[trigger] line[k], extra)),
    decreases m,
{
    lemma_run_len_bounds(line, extra, j);
    if m == 0 || j == 0 {
    } else {
        lemma_run_len_accepted(line, extra, j - 1, m - 1);
        if spec_accepted(line[j - 1], extra) {
            if run_len(line, extra, j) >= m {
                assert forall|k: int| j - m <= k < j implies spec_accepted(
                    #[trigger] line[k],
                    extra,
                ) by {
                    if k < j - 1 {
                        assert((j - 1) - (m - 1) <= k < j - 1);
                    }
                }
            }
            if m <= j && (forall|k: int|
                j - m <= k < j ==> spec_accepted(#[trigger] line[k], extra)) {
                assert forall|k: int| (j - 1) - (m - 1) <= k < j - 1 implies spec_accepted(
                    #[trigger] line[k],
                    extra,
                ) by {
                    assert(j - m <= k < j);
                }
            }
        } else {
            if m <= j && (forall|k: int|
                j - m <= k < j ==> spec_accepted(#[trigger] line[k], extra)) {
                assert(spec_accepted(line[j - 1], extra));
            }
        }
    }
}

/// Maximal overlap: a width-`n` window completes at position `j` exactly
/// when `j` reaches at least `n` and the last `n` characters up to `j` are
/// all accepted — so pass 1 counts every valid offset.
pub proof fn lemma_maximal_overlap(line: Seq<char>, extra: Seq<char>, n: int, j: int)
    requires
        n >= 1,
    ensures
        completes_at(line, extra, n, 1, j) <==> (n <= j <= line.len()
            && forall|k: int| j - n <= k < j ==> spec_accepted(#[trigger] line[k], extra)),
{
    if j >= 1 {
        lemma_window_len_is_capped_run(line, extra, n, j - 1);
        lemma_run_len_accepted(line, extra, j - 1, n - 1);
        if completes_at(line, extra, n, 1, j) {
            assert forall|k: int| j - n <= k < j implies spec_accepted(
                #[trigger] line[k],
                extra,
            ) by {
                if k < j - 1 {
                    assert((j - 1) - (n - 1) <= k < j - 1);
                }
            }
        }
    }
}

/// Group counts over the first `i` lines depend on those lines alone.
proof fn lemma_counts_agree(
    s1: Seq<Seq<char>>,
    s2: Seq<Seq<char>>,
    extra: Seq<char>,
    n: int,
    key: Seq<char>,
    i: int,
)
    requires
        i <= s1.len(),
        i <= s2.len(),
        forall|k: int| 0 <= k < i ==> s1[k] == s2[k],
    ensures
        corpus_gram_count(s1, extra, n, key, i) == corpus_gram_count(s2, extra, n, key, i),
    decreases i,
{
    if i > 0 {
        lemma_counts_agree(s1, s2, extra, n, key, i - 1);
    }
}

/// Splitting the corpus anywhere splits the group counts: the count over a
/// concatenation is the sum of the counts over the parts.
pub proof fn lemma_counts_concat(
    a: Seq<Seq<char>>,
    b: Seq<Seq<char>>,
    extra: Seq<char>,
    n: int,
    key: Seq<char>,
)
    ensures
        corpus_gram_count(a + b, extra, n, key, (a + b).len() as int) == corpus_gram_count(
            a,
            extra,
            n,
            key,
            a.len() as int,
        ) + corpus_gram_count(b, extra, n, key, b.len() as int),
    decreases b.len(),
{
    if b.len() == 0 {
        assert(a + b =~= a);
    } else {
        let ab = a + b;
        let ab2 = a + b.drop_last();
        assert(ab[ab.len() - 1] == b.last());
        assert(forall|k: int| 0 <= k < ab2.len() ==> ab[k] == ab2[k]);
        lemma_counts_agree(ab, ab2, extra, n, key, ab2.len() as int);
        lemma_counts_concat(a, b.drop_last(), extra, n, key);
        assert(forall|k: int| 0 <= k < b.len() - 1 ==> b[k] == b.drop_last()[k]);
        lemma_counts_agree(b, b.drop_last(), extra, n, key, b.len() - 1);
    }
}

/// Taking one line out: the corpus count is that line's count plus the
/// count of the rest.
pub proof fn lemma_counts_remove(
    s: Seq<Seq<char>>,
    extra: Seq<char>,
    n: int,
    key: Seq<char>,
    j: int,
)
    requires
        0 <= j < s.len(),
    ensures
        corpus_gram_count(s, extra, n, key, s.len() as int) == line_gram_count(
            s[j],
            extra,
            n,
            key,
            s[j].len() as int,
        ) + corpus_gram_count(s.remove(j), extra, n, key, s.len() - 1),
{
    let a = s.subrange(0, j);
    let rest = s.subrange(j + 1, s.len() as int);
    let mid = seq![s[j]] + rest;
    assert(s =~= a + mid);
    lemma_counts_concat(a, mid, extra, n, key);
    lemma_counts_concat(seq![s[j]], rest, extra, n, key);
    assert(seq![s[j]][0] == s[j]);
    assert(corpus_gram_count(seq![s[j]], extra, n, key, 0) == 0);
    assert(corpus_gram_count(seq![s[j]], extra, n, key, 1) == line_gram_count(
        s[j],
        extra,
        n,
        key,
        s[j].len() as int,
    ));
    assert(s.remove(j) =~= a + rest);
    lemma_counts_concat(a, rest, extra, n, key);
}

/// Reordering the corpus's lines in any way leaves every group count
/// unchanged: pass-1 aggregation is order-independent.
pub proof fn lemma_counts_permutation(
    s1: Seq<Seq<char>>,
    s2: Seq<Seq<char>>,
    extra: Seq<char>,
    n: int,
    key: Seq<char>,
)
    requires
        s1.to_multiset() == s2.to_multiset(),
    ensures
        corpus_gram_count(s1, extra, n, key, s1.len() as int) == corpus_gram_count(
            s2,
            extra,
            n,
            key,
            s2.len() as int,
        ),
    decreases s1.len(),
{
    broadcast use vstd::seq_lib::group_to_multiset_ensures;

    if s1.len() == 0 {
        assert(s1.to_multiset().len() == s1.len());
        assert(s2.to_multiset().len() == s2.len());
        assert(s2.len() == 0);
    } else {
        let l = s1[0];
        assert(s1.contains(l));
        assert(s2.to_multiset().count(l) > 0);
        assert(s2.contains(l));
        let j = choose|j: int| 0 <= j < s2.len() && s2[j] == l;
        assert(s1.remove(0).to_multiset() =~= s1.to_multiset().remove(l));
        assert(s2.remove(j).to_multiset() =~= s2.to_multiset().remove(l));
        lemma_counts_permutation(s1.remove(0), s2.remove(j), extra, n, key);
        lemma_counts_remove(s1, extra, n, key, 0);
        lemma_counts_remove(s2, extra, n, key, j);
    }
}

/// Running pass 1 twice over the same corpus gives identical counts: the
/// contract pins every count, so two results agree on every key.
pub proof fn lemma_pass1_deterministic(
    lines: Seq<Seq<char>>,
    extra: Seq<char>,
    n: int,
    t1: FrequencyTable,
    t2: FrequencyTable,
)
    requires
        forall|k: Seq<char>|
            t1.spec_count(k) == corpus_gram_count(lines, extra, n, k, lines.len() as int),
        forall|k: Seq<char>|
            t2.spec_count(k) == corpus_gram_count(lines, extra, n, k, lines.len() as int),
    ensures
        forall|k: Seq<char>| t1.spec_count(k) == t2.spec_count(k),
{
}

/// Word-induction tie-break: when the candidate at offset `i` carries the
/// maximal filtered frequency and a later offset `j` ties with it, the
/// selected offset is no later than `i` — the leftmost maximum wins.
pub proof fn lemma_tie_prefers_leftmost(
    g: FrequencyTable,
    w: Seq<char>,
    n: int,
    i: int,
    j: int,
)
    requires
        0 <= i < j < n,
        g.spec_count(cand_key(w, n, i)) == g.spec_count(cand_key(w, n, j)),
        forall|k: int|
            0 <= k < n ==> g.spec_count(#[trigger] cand_key(w, n, k)) <= g.spec_count(
                cand_key(w, n, i),
            ),
        g.spec_count(cand_key(w, n, i)) > 0,
    ensures
        winner(g, w, n) == Some(cand_key(w, n, best_idx(g, w, n, n))),
        best_idx(g, w, n, n) <= i,
{
    lemma_best_idx(g, w, n, n);
    let b = best_idx(g, w, n, n);
    assert(g.spec_count(cand_key(w, n, b)) >= g.spec_count(cand_key(w, n, i)));
    if b > i {
        assert(g.spec_count(cand_key(w, n, i)) < g.spec_count(cand_key(w, n, b)));
        assert(false);
    }
}

/// Ranking is idempotent on the pairs: each ranking step preserves the
/// multiset of (text, count) pairs, so ranking again still yields exactly
/// the source table's pairs, with their counts unchanged.
pub proof fn lemma_rank_idempotent(
    t: FrequencyTable,
    r1: Seq<(Seq<char>, usize)>,
    r2: Seq<(Seq<char>, usize)>,
)
    requires
        r1.to_multiset() == t.pairs().to_multiset(),
        r2.to_multiset() == r1.to_multiset(),
    ensures
        r2.to_multiset() == t.pairs().to_multiset(),
{
}

} // verus!
