//! The two counting passes: group counting (pass 1) and word induction
//! (pass 2).
//!
//! A corpus is a sequence of lines, each a sequence of characters.  Lines are
//! independent units of work: a window never spans two lines, so per-line
//! results simply add up, whatever order the lines are processed in (see the
//! lemmas in `laws`).  Pass 1 slides a width-`n` window over every line and
//! counts each completed window; pass 2 slides a width-`2n-1` window and, for
//! each completed window, tallies the most frequent length-`n` candidate
//! according to the filtered group table.

use std::collections::VecDeque;

use vstd::prelude::*;

use crate::accept::accepted;
use crate::scan::best_idx;
use crate::scan::cand_key;
use crate::scan::completes_at;
use crate::scan::corpus_gram_count;
use crate::scan::corpus_gram_total;
use crate::scan::corpus_word_count;
use crate::scan::corpus_word_total;
use crate::scan::lemma_best_idx;
use crate::scan::lemma_corpus_total_le_chars;
use crate::scan::lemma_corpus_word_total_le_chars;
use crate::scan::lemma_line_totals_le;
use crate::scan::lemma_line_word_totals_le;
use crate::scan::lemma_total_chars_mono;
use crate::scan::line_gram_count;
use crate::scan::line_gram_total;
use crate::scan::line_word_count;
use crate::scan::line_word_total;
use crate::scan::total_chars;
use crate::scan::window_len;
use crate::scan::winner;
use crate::table::FrequencyTable;

verus! {

/// The corpus a sequence of lines holds, as mathematical values.
pub open spec fn corpus_view(lines: Seq<Vec<char>>) -> Seq<Seq<char>> {
    lines.map_values(|l: Vec<char>| l@)
}

/// Checks that the corpus holds at most `usize::MAX` characters in total, the
/// machine limit under which no count can overflow.
#[verifier::loop_isolation(false)]
pub fn corpus_fits(lines: &Vec<Vec<char>>) -> (r: bool)
    ensures
        r == (total_chars(corpus_view(lines@), lines@.len() as int) <= usize::MAX),
{
    let mut sum: usize = 0;
    let mut i: usize = 0;
    while i < lines.len()
        invariant
            i <= lines@.len(),
            sum as nat == total_chars(corpus_view(lines@), i as int),
        decreases lines@.len() - i,
    {
        match sum.checked_add(lines[i].len()) {
            Some(s) => {
                sum = s;
            },
            None => {
                proof {
                    lemma_total_chars_mono(corpus_view(lines@), i as int + 1, lines@.len() as int);
                }
                return false;
            },
        }
        i = i + 1;
    }
    true
}

/// Copies the characters currently in the window, oldest first.
#[verifier::loop_isolation(false)]
fn window_key(window: &VecDeque<char>, upto: usize) -> (key: Vec<char>)
    requires
        upto <= window@.len(),
    ensures
        key@ == window@.subrange(0, upto as int),
{
    let mut key: Vec<char> = Vec::new();
    let mut q: usize = 0;
    while q < upto
        invariant
            q <= upto,
            key@ == window@.subrange(0, q as int),
        decreases upto - q,
    {
        key.push(window[q]);
        proof {
            assert(window@.subrange(0, q as int).push(window@[q as int]) =~= window@.subrange(
                0,
                q as int + 1,
            ));
        }
        q = q + 1;
    }
    key
}

/// Pass 1 over a single line: every completed width-`n` window adds one
/// occurrence of its key to `groups`.
#[verifier::loop_isolation(false)]
fn count_line_groups(line: &Vec<char>, n: usize, extra: &Vec<char>, groups: &mut FrequencyTable)
    requires
        n >= 1,
        old(groups).wf(),
        old(groups).total() + line@.len() <= usize::MAX,
    ensures
        final(groups).wf(),
        forall|key: Seq<char>|
            final(groups).spec_count(key) == old(groups).spec_count(key) + line_gram_count(
                line@,
                extra@,
                n as int,
                key,
                line@.len() as int,
            ),
        final(groups).total() == old(groups).total() + line_gram_total(
            line@,
            extra@,
            n as int,
            line@.len() as int,
        ),
{
    let mut window: VecDeque<char> = VecDeque::new();
    let mut j: usize = 0;
    while j < line.len()
        invariant
            j <= line@.len(),
            groups.wf(),
            window@.len() == window_len(line@, extra@, n as int, 1, j as int),
            window@.len() <= j as int,
            window@ == line@.subrange(j - window@.len(), j as int),
            forall|key: Seq<char>|
                #[trigger] groups.spec_count(key) == old(groups).spec_count(key) + line_gram_count(
                    line@,
                    extra@,
                    n as int,
                    key,
                    j as int,
                ),
            groups.total() == old(groups).total() + line_gram_total(line@, extra@, n as int, j as int),
        decreases line@.len() - j,
    {
        let c = line[j];
        if accepted(c, extra) {
            let ghost wl = window@.len() as int;
            window.push_back(c);
            proof {
                assert(line@.subrange(j - wl, j as int).push(line@[j as int]) =~= line@.subrange(
                    j - wl,
                    j as int + 1,
                ));
            }
            if window.len() == n {
                let key = window_key(&window, n);
                proof {
                    assert(completes_at(line@, extra@, n as int, 1, j as int + 1));
                    assert(key@ =~= line@.subrange(j as int + 1 - n, j as int + 1));
                    lemma_line_totals_le(line@, extra@, n as int, j as int);
                    groups.lemma_count_bounded(key@);
                }
                groups.increment(key);
                window.pop_front();
                proof {
                    assert(window@ =~= line@.subrange(j as int + 1 - (n - 1), j as int + 1));
                }
            } else {
                proof {
                    assert(!completes_at(line@, extra@, n as int, 1, j as int + 1));
                }
            }
        } else {
            window.clear();
            proof {
                assert(window@ =~= line@.subrange(j as int + 1, j as int + 1));
            }
        }
        j = j + 1;
    }
}

/// Pass 1: counts every completed width-`n` window of accepted characters
/// across the whole corpus.
#[verifier::loop_isolation(false)]
pub fn count_groups(lines: &Vec<Vec<char>>, n: usize, extra: &Vec<char>) -> (groups: FrequencyTable)
    requires
        n >= 1,
        total_chars(corpus_view(lines@), lines@.len() as int) <= usize::MAX,
    ensures
        groups.wf(),
        forall|key: Seq<char>|
            groups.spec_count(key) == corpus_gram_count(
                corpus_view(lines@),
                extra@,
                n as int,
                key,
                lines@.len() as int,
            ),
        groups.total() == corpus_gram_total(
            corpus_view(lines@),
            extra@,
            n as int,
            lines@.len() as int,
        ),
{
    let mut groups = FrequencyTable::new();
    let mut i: usize = 0;
    while i < lines.len()
        invariant
            i <= lines@.len(),
            groups.wf(),
            forall|key: Seq<char>|
                #[trigger] groups.spec_count(key) == corpus_gram_count(
                    corpus_view(lines@),
                    extra@,
                    n as int,
                    key,
                    i as int,
                ),
            groups.total() == corpus_gram_total(corpus_view(lines@), extra@, n as int, i as int),
        decreases lines@.len() - i,
    {
        proof {
            lemma_corpus_total_le_chars(corpus_view(lines@), extra@, n as int, i as int);
            lemma_total_chars_mono(corpus_view(lines@), i as int + 1, lines@.len() as int);
        }
        count_line_groups(&lines[i], n, extra, &mut groups);
        i = i + 1;
    }
    groups
}

/// Pass 2 over a single line: every completed width-`2n-1` window tallies
/// the winning length-`n` candidate, when one has nonzero filtered frequency.
#[verifier::loop_isolation(false)]
fn count_line_words(
    line: &Vec<char>,
    n: usize,
    extra: &Vec<char>,
    groups: &FrequencyTable,
    words: &mut FrequencyTable,
)
    requires
        n >= 1,
        n <= usize::MAX / 2,
        groups.wf(),
        old(words).wf(),
        old(words).total() + line@.len() <= usize::MAX,
    ensures
        final(words).wf(),
        forall|key: Seq<char>|
            final(words).spec_count(key) == old(words).spec_count(key) + line_word_count(
                *groups,
                line@,
                extra@,
                n as int,
                key,
                line@.len() as int,
            ),
        final(words).total() == old(words).total() + line_word_total(
            *groups,
            line@,
            extra@,
            n as int,
            line@.len() as int,
        ),
{
    let r = 2 * n - 1;
    let mut window: VecDeque<char> = VecDeque::new();
    let mut j: usize = 0;
    while j < line.len()
        invariant
            j <= line@.len(),
            words.wf(),
            window@.len() == window_len(line@, extra@, r as int, n as int, j as int),
            window@.len() <= j as int,
            window@ == line@.subrange(j - window@.len(), j as int),
            forall|key: Seq<char>|
                #[trigger] words.spec_count(key) == old(words).spec_count(key) + line_word_count(
                    *groups,
                    line@,
                    extra@,
                    n as int,
                    key,
                    j as int,
                ),
            words.total() == old(words).total() + line_word_total(
                *groups,
                line@,
                extra@,
                n as int,
                j as int,
            ),
        decreases line@.len() - j,
    {
        let c = line[j];
        if accepted(c, extra) {
            let ghost wl = window@.len() as int;
            window.push_back(c);
            proof {
                assert(line@.subrange(j - wl, j as int).push(line@[j as int]) =~= line@.subrange(
                    j - wl,
                    j as int + 1,
                ));
            }
            if window.len() == r {
                let ghost w = window@;
                proof {
                    assert(completes_at(line@, extra@, r as int, n as int, j as int + 1));
                    assert(w == line@.subrange(j as int + 1 - r, j as int + 1));
                }
                let mut max_word: Vec<char> = Vec::new();
                let mut max_freq: usize = 0;
                let mut t: usize = 0;
                while t < n
                    invariant
                        t <= n,
                        window@ == w.subrange(t as int, r as int),
                        max_freq as nat == (if t >= 1 {
                            groups.spec_count(cand_key(w, n as int, best_idx(*groups, w, n as int, t as int)))
                        } else {
                            0
                        }),
                        max_freq > 0 ==> t >= 1 && max_word@ == cand_key(
                            w,
                            n as int,
                            best_idx(*groups, w, n as int, t as int),
                        ),
                    decreases n - t,
                {
                    let cand = window_key(&window, n);
                    proof {
                        assert(cand@ =~= cand_key(w, n as int, t as int));
                    }
                    window.pop_front();
                    proof {
                        assert(window@ =~= w.subrange(t as int + 1, r as int));
                    }
                    let freq = groups.get(&cand);
                    proof {
                        if t >= 1 {
                            lemma_best_idx(*groups, w, n as int, t as int);
                        }
                    }
                    if freq > max_freq {
                        max_word = cand;
                        max_freq = freq;
                    }
                    t = t + 1;
                }
                proof {
                    assert(window@ =~= line@.subrange(j as int + 1 - (n - 1), j as int + 1));
                    lemma_best_idx(*groups, w, n as int, n as int);
                }
                if max_freq > 0 {
                    proof {
                        assert(winner(*groups, w, n as int) == Some(max_word@));
                        lemma_line_word_totals_le(*groups, line@, extra@, n as int, j as int);
                        words.lemma_count_bounded(max_word@);
                    }
                    words.increment(max_word);
                } else {
                    proof {
                        assert(winner(*groups, w, n as int) is None);
                    }
                }
            } else {
                proof {
                    assert(!completes_at(line@, extra@, r as int, n as int, j as int + 1));
                }
            }
        } else {
            window.clear();
            proof {
                assert(window@ =~= line@.subrange(j as int + 1, j as int + 1));
            }
        }
        j = j + 1;
    }
}

/// Pass 2: induces words across the whole corpus against the filtered group
/// table `groups`.  For each completed width-`2n-1` window the `n`
/// overlapping length-`n` candidates are compared by their count in
/// `groups` (absent candidates count zero); the leftmost candidate of
/// maximal nonzero count is tallied.
#[verifier::loop_isolation(false)]
pub fn count_words(
    lines: &Vec<Vec<char>>,
    n: usize,
    extra: &Vec<char>,
    groups: &FrequencyTable,
) -> (words: FrequencyTable)
    requires
        n >= 1,
        n <= usize::MAX / 2,
        groups.wf(),
        total_chars(corpus_view(lines@), lines@.len() as int) <= usize::MAX,
    ensures
        words.wf(),
        forall|key: Seq<char>|
            words.spec_count(key) == corpus_word_count(
                *groups,
                corpus_view(lines@),
                extra@,
                n as int,
                key,
                lines@.len() as int,
            ),
        words.total() == corpus_word_total(
            *groups,
            corpus_view(lines@),
            extra@,
            n as int,
            lines@.len() as int,
        ),
{
    let mut words = FrequencyTable::new();
    let mut i: usize = 0;
    while i < lines.len()
        invariant
            i <= lines@.len(),
            words.wf(),
            forall|key: Seq<char>|
                #[trigger] words.spec_count(key) == corpus_word_count(
                    *groups,
                    corpus_view(lines@),
                    extra@,
                    n as int,
                    key,
                    i as int,
                ),
            words.total() == corpus_word_total(
                *groups,
                corpus_view(lines@),
                extra@,
                n as int,
                i as int,
            ),
        decreases lines@.len() - i,
    {
        proof {
            lemma_corpus_word_total_le_chars(*groups, corpus_view(lines@), extra@, n as int, i as int);
            lemma_total_chars_mono(corpus_view(lines@), i as int + 1, lines@.len() as int);
        }
        count_line_words(&lines[i], n, extra, groups, &mut words);
        i = i + 1;
    }
    words
}

} // verus!
