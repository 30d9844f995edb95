//! The ranker and the output renderer.
//!
//! Ranking orders a frequency table's (text, count) pairs by descending
//! count, preserving the multiset of pairs exactly; the sort is an insertion
//! sort, which keeps the incoming order among equal counts.  Rendering turns
//! a ranked sequence into the output text: one `text<TAB>count<NEWLINE>` line
//! per pair, counts in decimal.

use vstd::prelude::*;

use crate::table::entry_views;
use crate::table::FrequencyTable;

verus! {

/// The (text, count) pairs of a ranked sequence, as mathematical values.
pub open spec fn ranked_views(s: Seq<(String, usize)>) -> Seq<(Seq<char>, usize)> {
    s.map_values(|p: (String, usize)| (p.0@, p.1))
}

/// The decimal digit character for `d`.
pub open spec fn spec_digit(d: int) -> char
    recommends
        0 <= d <= 9,
{
    ((48 + d) as u8) as char
}

/// The decimal rendering of `v`, most significant digit first, no leading
/// zeros (a single zero for zero).
pub open spec fn spec_digits(v: int) -> Seq<char>
    recommends
        v >= 0,
    decreases v,
{
    if v < 10 {
        seq![spec_digit(v)]
    } else {
        spec_digits(v / 10).push(spec_digit(v % 10))
    }
}

/// The rendered output text for a ranked sequence: for each pair in order,
/// its text, a tab, its count in decimal, and a newline.
pub open spec fn render_pairs(s: Seq<(Seq<char>, usize)>) -> Seq<char>
    decreases s.len(),
{
    if s.len() == 0 {
        Seq::<char>::empty()
    } else {
        s[0].0 + seq!['\t'] + spec_digits(s[0].1 as int) + seq!['\n'] + render_pairs(
            s.drop_first(),
        )
    }
}

pub proof fn lemma_render_concat(a: Seq<(Seq<char>, usize)>, b: Seq<(Seq<char>, usize)>)
    ensures
        render_pairs(a + b) == render_pairs(a) + render_pairs(b),
    decreases a.len(),
{
    if a.len() == 0 {
        assert(a + b =~= b);
        assert(render_pairs(a) + render_pairs(b) =~= render_pairs(b));
    } else {
        assert((a + b)[0] == a[0]);
        assert((a + b).drop_first() =~= a.drop_first() + b);
        lemma_render_concat(a.drop_first(), b);
        assert(render_pairs(a + b) =~= render_pairs(a) + render_pairs(b));
    }
}

/// Relies on `String::from_iter` over `char`: collecting characters yields
/// the string of exactly those characters, in order.
#[verifier::external_body]
fn string_from_chars(chars: &Vec<char>) -> (s: String)
    ensures
        s@ == chars@,
{
    chars.iter().collect()
}

/// Relies on `str::chars`: iterating a string's characters yields exactly
/// its character sequence, in order.
#[verifier::external_body]
fn chars_of(s: &str) -> (v: Vec<char>)
    ensures
        v@ == s@,
{
    s.chars().collect()
}

/// The subsequence of pairs carrying count `c`, in their incoming order.
pub open spec fn with_count(s: Seq<(Seq<char>, usize)>, c: usize) -> Seq<(Seq<char>, usize)> {
    s.filter(|p: (Seq<char>, usize)| p.1 == c)
}

proof fn lemma_filter_none(s: Seq<(Seq<char>, usize)>, c: usize)
    requires
        forall|m: int| 0 <= m < s.len() ==> (#[trigger] s[m]).1 != c,
    ensures
        with_count(s, c) == Seq::<(Seq<char>, usize)>::empty(),
    decreases s.len(),
{
    reveal(Seq::filter);
    if s.len() > 0 {
        assert(forall|m: int|
            0 <= m < s.drop_last().len() ==> (#[trigger] s.drop_last()[m]).1 != c);
        lemma_filter_none(s.drop_last(), c);
    }
}

/// Sorts the entries by descending count with an insertion sort.  The
/// multiset of (text, count) pairs is preserved, and the sort is stable:
/// for every count, the pairs carrying it keep their incoming order.
#[verifier::loop_isolation(false)]
fn sort_entries(v: &mut Vec<(Vec<char>, usize)>)
    ensures
        entry_views(final(v)@).to_multiset() == entry_views(old(v)@).to_multiset(),
        forall|a: int, b: int|
            0 <= a < b < final(v)@.len() ==> final(v)@[a].1 >= final(v)@[b].1,
        forall|c: usize|
            #[trigger] with_count(entry_views(final(v)@), c) == with_count(
                entry_views(old(v)@),
                c,
            ),
{
    let mut i: usize = 1;
    while i < v.len()
        invariant
            i >= 1,
            forall|a: int, b: int| 0 <= a < b < i && b < v@.len() ==> v@[a].1 >= v@[b].1,
            entry_views(v@).to_multiset() == entry_views(old(v)@).to_multiset(),
            forall|c: usize|
                #[trigger] with_count(entry_views(v@), c) == with_count(entry_views(old(v)@), c),
        decreases v@.len() - i,
    {
        let count = v[i].1;
        let mut j: usize = i;
        while j > 0 && v[j - 1].1 < count
            invariant
                j <= i,
                forall|m: int| j <= m < i ==> v@[m].1 < count,
            decreases j,
        {
            j = j - 1;
        }
        if j < i {
            let ghost s = v@;
            let x = v.remove(i);
            v.insert(j, x);
            proof {
                let nv = v@;
                assert(nv =~= s.remove(i as int).insert(j as int, x));
                assert(forall|m: int| 0 <= m < j ==> nv[m] == s[m]);
                assert(nv[j as int] == x);
                assert(forall|m: int| j < m <= i ==> nv[m] == s[m - 1]);
                assert(forall|m: int| i < m < nv.len() ==> nv[m] == s[m]);
                assert forall|a: int, b: int|
                    0 <= a < b < i + 1 && b < nv.len() implies nv[a].1 >= nv[b].1 by {
                    if b == j {
                        assert(nv[a] == s[a]);
                        assert(s[a].1 >= s[j - 1].1);
                    }
                }
                broadcast use vstd::seq_lib::to_multiset_remove;
                broadcast use vstd::seq_lib::to_multiset_insert;
                broadcast use vstd::seq_lib::to_multiset_contains;

                let es = entry_views(s);
                assert(entry_views(s.remove(i as int)) =~= es.remove(i as int));
                assert(entry_views(nv) =~= entry_views(s.remove(i as int)).insert(
                    j as int,
                    (x.0@, x.1),
                ));
                assert(es.contains(es[i as int]));
                assert(entry_views(nv).to_multiset() =~= es.to_multiset());

                let env = entry_views(nv);
                let aa = es.subrange(0, j as int);
                let bb = es.subrange(j as int, i as int);
                let xx = seq![es[i as int]];
                let cc = es.subrange(i as int + 1, es.len() as int);
                assert(es =~= aa + bb + xx + cc);
                assert(env =~= aa + xx + bb + cc);
                assert forall|c: usize|
                    #[trigger] with_count(env, c) == with_count(es, c) by {
                    broadcast use vstd::seq_lib::group_filter_ensures;

                    let pc = |p: (Seq<char>, usize)| p.1 == c;
                    assert(es.filter(pc) == aa.filter(pc) + bb.filter(pc) + xx.filter(pc)
                        + cc.filter(pc));
                    assert(env.filter(pc) == aa.filter(pc) + xx.filter(pc) + bb.filter(pc)
                        + cc.filter(pc));
                    if c == x.1 {
                        assert(forall|m: int| 0 <= m < bb.len() ==> (#[trigger] bb[m]).1 != c);
                        lemma_filter_none(bb, c);
                    } else {
                        assert(xx[0].1 != c);
                        lemma_filter_none(xx, c);
                    }
                    assert(env.filter(pc) =~= es.filter(pc));
                }
            }
        }
        i = i + 1;
    }
}

/// Ranks a frequency table: its (text, count) pairs sorted by descending
/// count.  The multiset of pairs is exactly that of the table, and the sort
/// is stable: for every count, the pairs carrying it keep the table's order.
pub fn sort_words(words: FrequencyTable) -> (ranked: Vec<(String, usize)>)
    ensures
        ranked_views(ranked@).to_multiset() == words.pairs().to_multiset(),
        forall|a: int, b: int|
            0 <= a < b < ranked@.len() ==> ranked@[a].1 >= ranked@[b].1,
        forall|c: usize|
            #[trigger] with_count(ranked_views(ranked@), c) == with_count(words.pairs(), c),
{
    let ghost p = words.pairs();
    let mut entries = words.into_entries();
    sort_entries(&mut entries);
    let mut out: Vec<(String, usize)> = Vec::new();
    let mut i: usize = 0;
    #[verifier::loop_isolation(false)]
    while i < entries.len()
        invariant
            i <= entries@.len(),
            out@.len() == i,
            forall|m: int| 0 <= m < i ==> (#[trigger] out@[m].0)@ == entries@[m].0@,
            forall|m: int| 0 <= m < i ==> (#[trigger] out@[m].1) == entries@[m].1,
        decreases entries@.len() - i,
    {
        let text = string_from_chars(&entries[i].0);
        let count = entries[i].1;
        out.push((text, count));
        i = i + 1;
    }
    proof {
        assert(ranked_views(out@) =~= entry_views(entries@));
        assert forall|a: int, b: int|
            0 <= a < b < out@.len() implies out@[a].1 >= out@[b].1 by {
            assert(out@[a].1 == entries@[a].1);
            assert(out@[b].1 == entries@[b].1);
        }
    }
    out
}

/// Renders a ranked sequence as the output text: one tab-separated line per
/// pair, counts in decimal, each line ended by a newline.
fn push_digits(v: usize, out: &mut Vec<char>)
    ensures
        final(out)@ == old(out)@ + spec_digits(v as int),
    decreases v,
{
    if v < 10 {
        out.push((48 + v as u8) as char);
        proof {
            assert(final(out)@ =~= old(out)@ + spec_digits(v as int));
        }
    } else {
        push_digits(v / 10, out);
        out.push((48 + (v % 10) as u8) as char);
        proof {
            assert(final(out)@ =~= old(out)@ + spec_digits(v as int));
        }
    }
}

/// Renders the ranked pairs as the complete output text.
#[verifier::loop_isolation(false)]
pub fn render_results(ranked: &Vec<(String, usize)>) -> (out: String)
    ensures
        out@ == render_pairs(ranked_views(ranked@)),
{
    let ghost rv = ranked_views(ranked@);
    let mut buf: Vec<char> = Vec::new();
    let mut i: usize = 0;
    while i < ranked.len()
        invariant
            i <= ranked@.len(),
            buf@ == render_pairs(rv.subrange(0, i as int)),
        decreases ranked@.len() - i,
    {
        let mut chunk = chars_of(ranked[i].0.as_str());
        buf.append(&mut chunk);
        buf.push('\t');
        push_digits(ranked[i].1, &mut buf);
        buf.push('\n');
        proof {
            let one = seq![rv[i as int]];
            assert(one[0] == rv[i as int]);
            assert(one.drop_first() =~= Seq::<(Seq<char>, usize)>::empty());
            assert(render_pairs(one.drop_first()) == Seq::<char>::empty());
            assert(render_pairs(one) =~= rv[i as int].0 + seq!['\t'] + spec_digits(
                rv[i as int].1 as int,
            ) + seq!['\n']);
            lemma_render_concat(rv.subrange(0, i as int), one);
            assert(rv.subrange(0, i as int) + one =~= rv.subrange(0, i as int + 1));
            assert(buf@ =~= render_pairs(rv.subrange(0, i as int + 1)));
        }
        i = i + 1;
    }
    proof {
        assert(rv.subrange(0, rv.len() as int) =~= rv);
    }
    string_from_chars(&buf)
}

} // verus!
