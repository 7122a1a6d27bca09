use mole::hint::{generate_labels, HintMatcher, MatchState};

fn alphabet(s: &str) -> Vec<char> {
    s.chars().collect()
}

fn no_label_is_prefix_of_another(labels: &[String]) -> bool {
    for (i, a) in labels.iter().enumerate() {
        for (j, b) in labels.iter().enumerate() {
            if i != j && b.starts_with(a.as_str()) {
                return false;
            }
        }
    }
    true
}

#[test]
fn few_targets_get_single_keys() {
    let labels = generate_labels(&alphabet("abc"), 3);
    assert_eq!(labels, vec!["a", "b", "c"]);
}

#[test]
fn many_targets_extend_to_two_keys() {
    let labels = generate_labels(&alphabet("ab"), 4);
    // 2 single chars can't cover 4, so all become 2-char.
    assert_eq!(labels.len(), 4);
    assert!(labels.iter().all(|l| l.len() == 2));
    assert!(no_label_is_prefix_of_another(&labels));
}

#[test]
fn labels_are_unique_and_prefix_free_across_sizes() {
    let ab = alphabet("asdfghjkl");
    for count in [1usize, 5, 9, 10, 50, 81, 200, 730] {
        let labels = generate_labels(&ab, count);
        assert_eq!(labels.len(), count, "count {count}");
        let set: std::collections::HashSet<_> = labels.iter().collect();
        assert_eq!(set.len(), count, "labels not unique at count {count}");
        assert!(
            no_label_is_prefix_of_another(&labels),
            "prefix collision at count {count}"
        );
    }
}

#[test]
fn zero_targets_is_empty() {
    assert!(generate_labels(&alphabet("ab"), 0).is_empty());
}

#[test]
fn matcher_selects_on_full_label() {
    let mut m = HintMatcher::new(vec!["aa".into(), "ab".into(), "ba".into()]);
    assert_eq!(m.push('a'), MatchState::Pending);
    assert_eq!(m.candidates(), vec![0, 1]);
    assert_eq!(m.push('b'), MatchState::Selected(1));
}

#[test]
fn matcher_rejects_dead_end_without_consuming() {
    let mut m = HintMatcher::new(vec!["aa".into(), "ab".into()]);
    assert_eq!(m.push('a'), MatchState::Pending);
    assert_eq!(m.push('z'), MatchState::NoMatch);
    // 'z' was not recorded, so we can still finish from "a".
    assert_eq!(m.typed(), "a");
    assert_eq!(m.push('a'), MatchState::Selected(0));
}

#[test]
fn single_char_label_selects_immediately() {
    let mut m = HintMatcher::new(vec!["a".into(), "b".into()]);
    assert_eq!(m.push('b'), MatchState::Selected(1));
}

#[test]
fn backspace_reopens_candidates() {
    let mut m = HintMatcher::new(vec!["aa".into(), "ab".into()]);
    m.push('a');
    m.push('a');
    m.pop();
    assert_eq!(m.candidates(), vec![0, 1]);
}

#[test]
fn a_partly_used_level_mixes_lengths() {
    let labels = generate_labels(&alphabet("abc"), 4);
    assert_eq!(labels, vec!["b", "c", "aa", "ab"]);
}

#[test]
fn labels_come_shortest_first_and_differ_by_one_at_most() {
    for count in 1..300 {
        let labels = generate_labels(&alphabet("asd"), count);
        let lens: Vec<usize> = labels.iter().map(|l| l.len()).collect();
        assert!(lens.windows(2).all(|w| w[0] <= w[1]));
        assert!(lens[count - 1] <= lens[0] + 1);
        // As short as the number of targets allows.
        let mut longest: u32 = 1;
        while 3usize.pow(longest) < count {
            longest += 1;
        }
        assert_eq!(lens[count - 1], longest as usize);
    }
}

#[test]
fn typing_any_label_selects_it() {
    let labels = generate_labels(&alphabet("asdf"), 40);
    for (i, l) in labels.iter().enumerate() {
        let mut m = HintMatcher::new(labels.clone());
        let n = l.chars().count();
        for (k, c) in l.chars().enumerate() {
            let state = m.push(c);
            if k + 1 < n {
                assert_eq!(state, MatchState::Pending);
            } else {
                assert_eq!(state, MatchState::Selected(i));
            }
        }
        assert_eq!(m.typed(), l);
    }
}

#[test]
fn backspace_undoes_a_key_and_is_harmless_when_empty() {
    let mut m = HintMatcher::new(vec!["aa".into(), "ab".into()]);
    m.pop();
    assert_eq!(m.typed(), "");
    m.push('a');
    m.pop();
    assert_eq!(m.typed(), "");
    assert_eq!(m.labels(), &["aa".to_string(), "ab".to_string()]);
}

#[test]
fn labels_may_use_any_characters() {
    let labels = generate_labels(&alphabet("\u{e9}\u{3b1}"), 3);
    assert_eq!(labels, vec!["\u{3b1}", "\u{e9}\u{e9}", "\u{e9}\u{3b1}"]);
    let mut m = HintMatcher::new(labels);
    assert_eq!(m.push('\u{e9}'), MatchState::Pending);
    assert_eq!(m.push('\u{3b1}'), MatchState::Selected(2));
}

/// The least total of `count` prefix-free strings over `n` letters, by splitting
/// the targets among the first letters in every way.
fn least_total(n: usize, count: usize, memo: &mut Vec<Option<usize>>) -> usize {
    // One target needs no further key; several need one each, and are shared out
    // among the letters.
    if count <= 1 {
        return 0;
    }
    if let Some(t) = memo[count] {
        return t;
    }
    // best[k]: the least total of k targets over the letters used so far.
    let mut best: Vec<usize> = vec![0; 1];
    best.resize(count + 1, usize::MAX);
    for _ in 0..n {
        let mut next = best.clone();
        for have in 0..=count {
            if best[have] == usize::MAX {
                continue;
            }
            for more in 1..=(count - have).min(count - 1) {
                let t = best[have] + more + least_total(n, more, memo);
                next[have + more] = next[have + more].min(t);
            }
        }
        best = next;
    }
    memo[count] = Some(best[count]);
    best[count]
}

#[test]
fn no_labels_are_shorter_all_together() {
    for letters in ["ab", "abc", "asdfghjkl"] {
        let ab = alphabet(letters);
        let mut memo = vec![None; 41];
        for count in 2..=40 {
            let total: usize = generate_labels(&ab, count).iter().map(|l| l.len()).sum();
            assert_eq!(total, least_total(ab.len(), count, &mut memo), "{letters} {count}");
        }
    }
}

#[test]
fn labels_are_spelled_in_the_alphabet() {
    let ab = alphabet("as\u{e9}");
    for count in [1, 3, 4, 50] {
        for l in generate_labels(&ab, count) {
            assert!(l.chars().all(|c| ab.contains(&c)));
        }
    }
}
