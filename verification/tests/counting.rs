use word_induct::counter::{corpus_fits, count_groups, count_words};
use word_induct::rank::{render_results, sort_words};
use word_induct::table::FrequencyTable;

fn chars(s: &str) -> Vec<char> {
    s.chars().collect()
}

fn corpus(lines: &[&str]) -> Vec<Vec<char>> {
    lines.iter().map(|l| chars(l)).collect()
}

#[test]
fn groups_of_repeated_line() {
    // "abcabcabc" at width 2: windows ab bc ca ab bc ca ab bc.
    let lines = corpus(&["abcabcabc"]);
    let extra = chars("abc");
    assert!(corpus_fits(&lines));
    let groups = count_groups(&lines, 2, &extra);
    assert_eq!(groups.get(&chars("ab")), 3);
    assert_eq!(groups.get(&chars("bc")), 3);
    assert_eq!(groups.get(&chars("ca")), 2);
    assert_eq!(groups.get(&chars("aa")), 0);
    assert_eq!(groups.get(&chars("abc")), 0);
}

#[test]
fn group_counts_sum_to_window_total() {
    // 9 accepted characters in one run, width 2: 8 completed windows.
    let lines = corpus(&["abcabcabc"]);
    let extra = chars("abc");
    let groups = count_groups(&lines, 2, &extra);
    let ranked = sort_words(groups);
    let total: usize = ranked.iter().map(|p| p.1).sum();
    assert_eq!(total, 8);
}

#[test]
fn rejected_character_clears_window() {
    // The space is not accepted: no window spans it.
    let lines = corpus(&["ab cd"]);
    let extra = chars("abcd");
    let groups = count_groups(&lines, 2, &extra);
    assert_eq!(groups.get(&chars("ab")), 1);
    assert_eq!(groups.get(&chars("cd")), 1);
    assert_eq!(groups.get(&chars("b ")), 0);
    assert_eq!(groups.get(&chars(" c")), 0);
    assert_eq!(groups.get(&chars("bc")), 0);
}

#[test]
fn ideographs_accepted_without_extra_set() {
    let lines = corpus(&["汉字汉字"]);
    let extra: Vec<char> = Vec::new();
    let groups = count_groups(&lines, 2, &extra);
    assert_eq!(groups.get(&chars("汉字")), 2);
    assert_eq!(groups.get(&chars("字汉")), 1);
}

#[test]
fn width_one_counts_single_characters() {
    let lines = corpus(&["aab"]);
    let extra = chars("ab");
    let groups = count_groups(&lines, 1, &extra);
    assert_eq!(groups.get(&chars("a")), 2);
    assert_eq!(groups.get(&chars("b")), 1);
}

#[test]
fn counts_deterministic_across_runs() {
    let lines = corpus(&["abcabcabc", "bcabca", "xyz abc"]);
    let extra = chars("abcxyz");
    let first = count_groups(&lines, 2, &extra);
    let second = count_groups(&lines, 2, &extra);
    for key in ["ab", "bc", "ca", "xy", "yz", "z ", "zz"] {
        assert_eq!(first.get(&chars(key)), second.get(&chars(key)));
    }
}

#[test]
fn split_and_merge_matches_whole() {
    // Counting two halves separately and merging the tables equals one
    // sequential pass, whatever the split.
    let all = corpus(&["abcabc", "cabcab", "bca"]);
    let extra = chars("abc");
    let whole = count_groups(&all, 2, &extra);
    let first = corpus(&["abcabc"]);
    let rest = corpus(&["cabcab", "bca"]);
    let mut merged = count_groups(&first, 2, &extra);
    let part = count_groups(&rest, 2, &extra);
    assert!(merged.absorb(part));
    for key in ["ab", "bc", "ca", "aa"] {
        assert_eq!(merged.get(&chars(key)), whole.get(&chars(key)));
    }
}

#[test]
fn line_order_does_not_change_counts() {
    let extra = chars("abc");
    let one = count_groups(&corpus(&["abcab", "bcb", "ca"]), 2, &extra);
    let two = count_groups(&corpus(&["ca", "abcab", "bcb"]), 2, &extra);
    for key in ["ab", "bc", "ca", "cb", "bb"] {
        assert_eq!(one.get(&chars(key)), two.get(&chars(key)));
    }
}

#[test]
fn threshold_policies_agree_at_zero() {
    // Both policies keep every key with count >= 1 at threshold zero.
    let lines = corpus(&["abcabcabc"]);
    let extra = chars("abc");
    let strict = {
        let mut t = count_groups(&lines, 2, &extra);
        t.retain_above(0);
        t
    };
    let inclusive = {
        let mut t = count_groups(&lines, 2, &extra);
        t.retain_at_least(0);
        t
    };
    for key in ["ab", "bc", "ca"] {
        assert_eq!(strict.get(&chars(key)), inclusive.get(&chars(key)));
        assert!(strict.get(&chars(key)) >= 1);
    }
}

#[test]
fn threshold_policies_diverge_at_boundary() {
    // "ca" has count exactly 2: kept by >=, dropped by >.
    let lines = corpus(&["abcabcabc"]);
    let extra = chars("abc");
    let mut strict = count_groups(&lines, 2, &extra);
    let mut inclusive = count_groups(&lines, 2, &extra);
    strict.retain_above(2);
    inclusive.retain_at_least(2);
    assert_eq!(strict.get(&chars("ca")), 0);
    assert_eq!(inclusive.get(&chars("ca")), 2);
    assert_eq!(strict.get(&chars("ab")), 3);
    assert_eq!(inclusive.get(&chars("ab")), 3);
}

#[test]
fn filter_keeps_counts_unchanged() {
    let lines = corpus(&["abcabcabc"]);
    let extra = chars("abc");
    let mut t = count_groups(&lines, 2, &extra);
    t.retain_above(2);
    assert_eq!(t.get(&chars("ab")), 3);
    assert_eq!(t.get(&chars("bc")), 3);
    assert_eq!(t.get(&chars("ca")), 0);
}

#[test]
fn induction_picks_most_frequent_candidate() {
    // Groups from "ababab bc": ab:2, ba:2? no — windows: ab ba ab ba ab, then bc.
    let lines = corpus(&["ababab bc"]);
    let extra = chars("abc");
    let mut groups = count_groups(&lines, 2, &extra);
    groups.retain_above(0);
    // Induce over "aba" windows: candidates "ab" (count 3) and "ba" (count 2).
    let words = count_words(&lines, 2, &extra, &groups);
    assert!(words.get(&chars("ab")) > 0);
}

#[test]
fn induction_tie_prefers_leftmost() {
    // One line "abc": groups ab:1, bc:1 — a tie at the maximum.  The window
    // "abc" offers candidates "ab" and "bc"; the leftmost wins.
    let lines = corpus(&["abc"]);
    let extra = chars("abc");
    let mut groups = count_groups(&lines, 2, &extra);
    groups.retain_above(0);
    let words = count_words(&lines, 2, &extra, &groups);
    assert_eq!(words.get(&chars("ab")), 1);
    assert_eq!(words.get(&chars("bc")), 0);
}

#[test]
fn induction_later_candidate_wins_when_strictly_more_frequent() {
    let mut groups = FrequencyTable::new();
    groups.increment_by("ab".chars().collect(), 1);
    groups.increment_by("bc".chars().collect(), 2);
    let lines = corpus(&["abc"]);
    let extra = chars("abc");
    let words = count_words(&lines, 2, &extra, &groups);
    assert_eq!(words.get(&chars("bc")), 1);
    assert_eq!(words.get(&chars("ab")), 0);
}

#[test]
fn merging_reports_overflow() {
    let mut a = FrequencyTable::new();
    a.increment_by(chars("ab"), usize::MAX);
    let mut b = FrequencyTable::new();
    b.increment_by(chars("ab"), 1);
    assert!(!a.absorb(b));
}

#[test]
fn induction_emits_nothing_without_frequent_groups() {
    // An empty filtered table gives every candidate frequency zero.
    let lines = corpus(&["abcabc"]);
    let extra = chars("abc");
    let groups = FrequencyTable::new();
    let words = count_words(&lines, 2, &extra, &groups);
    assert_eq!(words.get(&chars("ab")), 0);
    assert_eq!(words.get(&chars("bc")), 0);
    assert_eq!(words.get(&chars("ca")), 0);
}

#[test]
fn induction_decisions_once_per_n_characters() {
    // n=2, window width 3.  Line "aaaa": decision at "aaa" (chars 1-3),
    // then the window refills and no second window completes.
    let lines = corpus(&["aaaa"]);
    let extra = chars("a");
    let mut groups = count_groups(&lines, 2, &extra);
    groups.retain_above(0);
    let words = count_words(&lines, 2, &extra, &groups);
    assert_eq!(words.get(&chars("aa")), 1);
    // Two more characters bring a second decision.
    let lines2 = corpus(&["aaaaaa"]);
    let words2 = count_words(&lines2, 2, &extra, &groups);
    assert_eq!(words2.get(&chars("aa")), 2);
}

#[test]
fn ranking_orders_by_descending_count() {
    let mut t = FrequencyTable::new();
    t.increment_by(chars("言"), 3);
    t.increment_by(chars("词"), 5);
    t.increment_by(chars("语"), 4);
    let ranked = sort_words(t);
    let texts: Vec<&str> = ranked.iter().map(|p| p.0.as_str()).collect();
    let counts: Vec<usize> = ranked.iter().map(|p| p.1).collect();
    assert_eq!(texts, vec!["词", "语", "言"]);
    assert_eq!(counts, vec![5, 4, 3]);
}

#[test]
fn ranking_twice_preserves_pairs() {
    let mut t = FrequencyTable::new();
    t.increment_by(chars("ab"), 2);
    t.increment_by(chars("cd"), 2);
    t.increment_by(chars("ef"), 1);
    let once = sort_words(t);
    let mut rebuilt = FrequencyTable::new();
    for (text, count) in &once {
        rebuilt.increment_by(text.chars().collect(), *count);
    }
    let twice = sort_words(rebuilt);
    let mut a: Vec<(String, usize)> = once.clone();
    let mut b: Vec<(String, usize)> = twice.clone();
    a.sort();
    b.sort();
    assert_eq!(a, b);
}

#[test]
fn rendering_is_byte_exact() {
    let ranked: Vec<(String, usize)> = vec![
        ("词".to_string(), 5),
        ("语".to_string(), 5),
        ("言".to_string(), 3),
    ];
    let out = render_results(&ranked);
    assert_eq!(out, "词\t5\n语\t5\n言\t3\n");
}

#[test]
fn rendering_multi_digit_counts() {
    let ranked: Vec<(String, usize)> = vec![("ab".to_string(), 1205), ("c".to_string(), 0)];
    let out = render_results(&ranked);
    assert_eq!(out, "ab\t1205\nc\t0\n");
}

#[test]
fn empty_corpus_yields_empty_table() {
    let lines: Vec<Vec<char>> = Vec::new();
    let extra = chars("abc");
    let groups = count_groups(&lines, 2, &extra);
    let ranked = sort_words(groups);
    assert!(ranked.is_empty());
    let out = render_results(&ranked);
    assert_eq!(out, "");
}
