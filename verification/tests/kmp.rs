use argline::arg::Kmp;

fn hits(pattern: &str, text: &str) -> Vec<bool> {
    let mut k = Kmp::new(pattern);
    text.chars().map(|c| k.step(c)).collect()
}

#[test]
fn fresh_matcher_has_matched_only_the_empty_pattern() {
    assert!(!Kmp::new("ab").is_matched());
    assert!(Kmp::new("").is_matched());
}

#[test]
fn step_reports_each_end_of_an_occurrence() {
    assert_eq!(hits("ab", "abab"), vec![false, true, false, true]);
    assert_eq!(hits("aa", "aaaa"), vec![false, true, true, true]);
    assert_eq!(hits("aab", "aaab"), vec![false, false, false, true]);
    assert_eq!(hits("abab", "abababx"), vec![false, false, false, true, false, true, false]);
    assert_eq!(hits("abcabd", "abcabcabd"), vec![false, false, false, false, false, false, false, false, true]);
}

#[test]
fn step_agrees_with_ends_with_on_every_prefix() {
    let patterns = ["a", "ab", "aba", "abab", "aabaa", "é|é", "'''", "])}"];
    let text = "abaababaabaa é|é|é ''''' ])})}])}abab";
    for p in patterns {
        let mut k = Kmp::new(p);
        let mut fed = String::new();
        for c in text.chars() {
            fed.push(c);
            assert_eq!(k.step(c), fed.ends_with(p), "{:?} in {:?}", p, fed);
            assert_eq!(k.is_matched(), fed.ends_with(p));
        }
    }
}

#[test]
fn empty_pattern_matches_after_every_step() {
    assert_eq!(hits("", "xyz"), vec![true, true, true]);
}

#[test]
fn clear_forgets_what_was_fed() {
    let mut k = Kmp::new("ab");
    assert!(!k.step('a'));
    k.clear();
    assert!(!k.is_matched());
    assert!(!k.step('b'));
    assert!(!k.step('a'));
    assert!(k.step('b'));
    assert!(k.is_matched());
    k.clear();
    assert!(!k.is_matched());
}

#[test]
fn as_ref_gives_the_pattern_back() {
    assert_eq!(Kmp::new("|)").as_ref(), "|)");
}
