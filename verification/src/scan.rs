//! The mathematical model of the windowed scanner and of the two counting
//! passes.
//!
//! A scan walks a line left to right with a bounded window of accepted
//! characters.  An accepted character is appended; a rejected character
//! clears the window.  When the window reaches its capacity `cap` it
//! completes: the pass consumes it and removes `pop` characters from its
//! front (one for group counting, `n` for word induction).  `window_len`
//! gives the window's length after the first `j` characters, and
//! `completes_at` says whether processing character `j` completes a window;
//! the completed window is then the last `cap` characters of the prefix.

use vstd::prelude::*;

use crate::accept::spec_accepted;
use crate::table::FrequencyTable;

verus! {

/// Length of the scanner's window after the first `j` characters of `line`.
pub open spec fn window_len(line: Seq<char>, extra: Seq<char>, cap: int, pop: int, j: int) -> int
    decreases j,
{
    if j <= 0 {
        0
    } else if !spec_accepted(line[j - 1], extra) {
        0
    } else if window_len(line, extra, cap, pop, j - 1) + 1 == cap {
        cap - pop
    } else {
        window_len(line, extra, cap, pop, j - 1) + 1
    }
}

/// Processing character `j` (one-based) completes a window of width `cap`.
pub open spec fn completes_at(line: Seq<char>, extra: Seq<char>, cap: int, pop: int, j: int) -> bool {
    0 < j <= line.len() && spec_accepted(line[j - 1], extra) && window_len(
        line,
        extra,
        cap,
        pop,
        j - 1,
    ) + 1 == cap
}

/// Number of width-`n` windows completed within the first `j` characters of
/// `line` whose characters spell `key`.
pub open spec fn line_gram_count(
    line: Seq<char>,
    extra: Seq<char>,
    n: int,
    key: Seq<char>,
    j: int,
) -> nat
    decreases j,
{
    if j <= 0 {
        0
    } else {
        line_gram_count(line, extra, n, key, j - 1) + (if completes_at(line, extra, n, 1, j)
            && line.subrange(j - n, j) == key {
            1nat
        } else {
            0
        })
    }
}

/// Number of width-`n` windows completed within the first `j` characters of
/// `line`.
pub open spec fn line_gram_total(line: Seq<char>, extra: Seq<char>, n: int, j: int) -> nat
    decreases j,
{
    if j <= 0 {
        0
    } else {
        line_gram_total(line, extra, n, j - 1) + (if completes_at(line, extra, n, 1, j) {
            1nat
        } else {
            0
        })
    }
}

/// Group count of `key` over the first `i` lines of the corpus.
pub open spec fn corpus_gram_count(
    lines: Seq<Seq<char>>,
    extra: Seq<char>,
    n: int,
    key: Seq<char>,
    i: int,
) -> nat
    decreases i,
{
    if i <= 0 {
        0
    } else {
        corpus_gram_count(lines, extra, n, key, i - 1) + line_gram_count(
            lines[i - 1],
            extra,
            n,
            key,
            lines[i - 1].len() as int,
        )
    }
}

/// Total number of completed width-`n` windows over the first `i` lines.
pub open spec fn corpus_gram_total(lines: Seq<Seq<char>>, extra: Seq<char>, n: int, i: int) -> nat
    decreases i,
{
    if i <= 0 {
        0
    } else {
        corpus_gram_total(lines, extra, n, i - 1) + line_gram_total(
            lines[i - 1],
            extra,
            n,
            lines[i - 1].len() as int,
        )
    }
}

/// Total number of characters in the first `i` lines of the corpus.
pub open spec fn total_chars(lines: Seq<Seq<char>>, i: int) -> nat
    decreases i,
{
    if i <= 0 {
        0
    } else {
        total_chars(lines, i - 1) + lines[i - 1].len()
    }
}

pub proof fn lemma_line_totals_le(line: Seq<char>, extra: Seq<char>, n: int, j: int)
    requires
        j >= 0,
    ensures
        line_gram_total(line, extra, n, j) <= j,
    decreases j,
{
    if j > 0 {
        lemma_line_totals_le(line, extra, n, j - 1);
    }
}

pub proof fn lemma_corpus_total_le_chars(lines: Seq<Seq<char>>, extra: Seq<char>, n: int, i: int)
    ensures
        corpus_gram_total(lines, extra, n, i) <= total_chars(lines, i),
    decreases i,
{
    if i > 0 {
        lemma_corpus_total_le_chars(lines, extra, n, i - 1);
        lemma_line_totals_le(lines[i - 1], extra, n, lines[i - 1].len() as int);
    }
}

pub proof fn lemma_total_chars_mono(lines: Seq<Seq<char>>, i: int, i2: int)
    requires
        i <= i2,
    ensures
        total_chars(lines, i) <= total_chars(lines, i2),
    decreases i2 - i,
{
    if i < i2 {
        lemma_total_chars_mono(lines, i, i2 - 1);
    }
}

/// The length-`n` candidate of window `w` at offset `i`.
pub open spec fn cand_key(w: Seq<char>, n: int, i: int) -> Seq<char> {
    w.subrange(i, i + n)
}

/// The offset of the winning candidate among the first `i` candidates of
/// window `w`: the earliest offset whose filtered frequency no later offset
/// strictly exceeds.
pub open spec fn best_idx(g: FrequencyTable, w: Seq<char>, n: int, i: int) -> int
    decreases i,
{
    if i <= 1 {
        0
    } else if g.spec_count(cand_key(w, n, i - 1)) > g.spec_count(
        cand_key(w, n, best_idx(g, w, n, i - 1)),
    ) {
        i - 1
    } else {
        best_idx(g, w, n, i - 1)
    }
}

/// The induced word of a completed width-`2n-1` window `w`, if any: the
/// candidate at the winning offset, provided its filtered frequency is
/// nonzero.
pub open spec fn winner(g: FrequencyTable, w: Seq<char>, n: int) -> Option<Seq<char>> {
    let b = best_idx(g, w, n, n);
    if g.spec_count(cand_key(w, n, b)) > 0 {
        Some(cand_key(w, n, b))
    } else {
        None
    }
}

/// The winning offset lies among the first `i` offsets, carries the maximal
/// frequency of those, and every earlier offset has a strictly smaller
/// frequency — the leftmost maximum is selected.
pub proof fn lemma_best_idx(g: FrequencyTable, w: Seq<char>, n: int, i: int)
    requires
        i >= 1,
    ensures
        0 <= best_idx(g, w, n, i) < i,
        forall|k: int|
            0 <= k < i ==> g.spec_count(#[trigger] cand_key(w, n, k)) <= g.spec_count(
                cand_key(w, n, best_idx(g, w, n, i)),
            ),
        forall|k: int|
            0 <= k < best_idx(g, w, n, i) ==> g.spec_count(#[trigger] cand_key(w, n, k))
                < g.spec_count(cand_key(w, n, best_idx(g, w, n, i))),
    decreases i,
{
    if i > 1 {
        lemma_best_idx(g, w, n, i - 1);
    }
}

/// Number of word-induction decisions for `key` within the first `j`
/// characters of `line`, against the filtered group table `g`.
pub open spec fn line_word_count(
    g: FrequencyTable,
    line: Seq<char>,
    extra: Seq<char>,
    n: int,
    key: Seq<char>,
    j: int,
) -> nat
    decreases j,
{
    if j <= 0 {
        0
    } else {
        line_word_count(g, line, extra, n, key, j - 1) + (if completes_at(
            line,
            extra,
            2 * n - 1,
            n,
            j,
        ) && winner(g, line.subrange(j - (2 * n - 1), j), n) == Some(key) {
            1nat
        } else {
            0
        })
    }
}

/// Number of word-induction decisions that emitted any word within the first
/// `j` characters of `line`.
pub open spec fn line_word_total(
    g: FrequencyTable,
    line: Seq<char>,
    extra: Seq<char>,
    n: int,
    j: int,
) -> nat
    decreases j,
{
    if j <= 0 {
        0
    } else {
        line_word_total(g, line, extra, n, j - 1) + (if completes_at(line, extra, 2 * n - 1, n, j)
            && winner(g, line.subrange(j - (2 * n - 1), j), n) is Some {
            1nat
        } else {
            0
        })
    }
}

/// Induced-word count of `key` over the first `i` lines of the corpus.
pub open spec fn corpus_word_count(
    g: FrequencyTable,
    lines: Seq<Seq<char>>,
    extra: Seq<char>,
    n: int,
    key: Seq<char>,
    i: int,
) -> nat
    decreases i,
{
    if i <= 0 {
        0
    } else {
        corpus_word_count(g, lines, extra, n, key, i - 1) + line_word_count(
            g,
            lines[i - 1],
            extra,
            n,
            key,
            lines[i - 1].len() as int,
        )
    }
}

/// Total number of induced words over the first `i` lines of the corpus.
pub open spec fn corpus_word_total(
    g: FrequencyTable,
    lines: Seq<Seq<char>>,
    extra: Seq<char>,
    n: int,
    i: int,
) -> nat
    decreases i,
{
    if i <= 0 {
        0
    } else {
        corpus_word_total(g, lines, extra, n, i - 1) + line_word_total(
            g,
            lines[i - 1],
            extra,
            n,
            lines[i - 1].len() as int,
        )
    }
}

pub proof fn lemma_line_word_totals_le(
    g: FrequencyTable,
    line: Seq<char>,
    extra: Seq<char>,
    n: int,
    j: int,
)
    requires
        j >= 0,
    ensures
        line_word_total(g, line, extra, n, j) <= j,
    decreases j,
{
    if j > 0 {
        lemma_line_word_totals_le(g, line, extra, n, j - 1);
    }
}

pub proof fn lemma_corpus_word_total_le_chars(
    g: FrequencyTable,
    lines: Seq<Seq<char>>,
    extra: Seq<char>,
    n: int,
    i: int,
)
    ensures
        corpus_word_total(g, lines, extra, n, i) <= total_chars(lines, i),
    decreases i,
{
    if i > 0 {
        lemma_corpus_word_total_le_chars(g, lines, extra, n, i - 1);
        lemma_line_word_totals_le(g, lines[i - 1], extra, n, lines[i - 1].len() as int);
    }
}

} // verus!
