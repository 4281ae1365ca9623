use regex::helper::{safe_add, SafeAdd};
use regex::is_match;

#[test]
fn test_safe_add() {
    let n: usize = 10;
    assert_eq!(Some(30), n.safe_add(&20));

    let n: usize = !0; // 2^64 - 1 (64 bits CPU)
    assert_eq!(None, n.safe_add(&1));

    let mut n: usize = 10;
    assert!(safe_add(&mut n, &20, || ()).is_ok());

    let mut n: usize = !0;
    assert!(safe_add(&mut n, &1, || ()).is_err());
}

#[test]
fn test_matching() {
    // parse errors
    assert!(is_match("+b", "bbb", true).is_err());
    assert!(is_match("*b", "bbb", true).is_err());
    assert!(is_match("|b", "bbb", true).is_err());
    assert!(is_match("?b", "bbb", true).is_err());

    // parse succeeds, match succeeds
    assert!(is_match("abc|def", "def", true).unwrap());
    assert!(is_match("(abc)*", "abcabc", true).unwrap());
    assert!(is_match("(ab|cd)+", "abcdcd", true).unwrap());
    assert!(is_match("abc?", "ab", true).unwrap());
    assert!(is_match("((((a*)*)*)*)", "aaaaaaaaa", true).unwrap());
    assert!(is_match("(a*)*b", "aaaaaaaaab", true).unwrap());
    assert!(is_match("(a*)*b", "b", true).unwrap());
    assert!(is_match("a**b", "aaaaaaaaab", true).unwrap());
    assert!(is_match("a**b", "b", true).unwrap());

    // parse succeeds, match fails
    assert!(!is_match("abc|def", "efa", true).unwrap());
    assert!(!is_match("(ab|cd)+", "", true).unwrap());
    assert!(!is_match("abc?", "acb", true).unwrap());
}

#[test]
fn test_matching_breadth_first() {
    assert!(is_match("+b", "bbb", false).is_err());
    assert!(is_match("*b", "bbb", false).is_err());
    assert!(is_match("|b", "bbb", false).is_err());
    assert!(is_match("?b", "bbb", false).is_err());

    assert!(is_match("abc|def", "def", false).unwrap());
    assert!(is_match("(abc)*", "abcabc", false).unwrap());
    assert!(is_match("(ab|cd)+", "abcdcd", false).unwrap());
    assert!(is_match("abc?", "ab", false).unwrap());
    assert!(is_match("((((a*)*)*)*)", "aaaaaaaaa", false).unwrap());
    assert!(is_match("(a*)*b", "aaaaaaaaab", false).unwrap());
    assert!(is_match("(a*)*b", "b", false).unwrap());
    assert!(is_match("a**b", "aaaaaaaaab", false).unwrap());
    assert!(is_match("a**b", "b", false).unwrap());

    assert!(!is_match("abc|def", "efa", false).unwrap());
    assert!(!is_match("(ab|cd)+", "", false).unwrap());
    assert!(!is_match("abc?", "acb", false).unwrap());
}

#[test]
fn test_strategies_agree() {
    let patterns = [
        "abc|def",
        "(abc)*",
        "(ab|cd)+",
        "abc?",
        "((((a*)*)*)*)",
        "(a*)*b",
        "a**b",
        "a(b|c)*d",
        "(a|b)(c|d)e?",
    ];
    let inputs = ["", "a", "b", "ab", "abc", "abcd", "acd", "abbbcd", "def", "efa", "acb", "bde"];
    for p in patterns.iter() {
        for s in inputs.iter() {
            let depth = is_match(p, s, true).unwrap();
            let breadth = is_match(p, s, false).unwrap();
            assert_eq!(depth, breadth, "strategies disagree on {} vs {}", p, s);
        }
    }
}

#[test]
fn test_prefix_match_semantics() {
    // a match is anchored at the start but need not consume all input
    assert!(is_match("ab", "abcdef", true).unwrap());
    assert!(is_match("ab", "abcdef", false).unwrap());
    assert!(!is_match("ab", "xab", true).unwrap());
    assert!(!is_match("ab", "xab", false).unwrap());
    assert!(is_match("a*", "bbb", true).unwrap()); // zero repetitions match a prefix of anything
}

#[test]
fn test_escapes() {
    assert!(is_match("a\\+", "a+", true).unwrap());
    assert!(is_match("a\\+", "a+", false).unwrap());
    assert!(!is_match("a\\+", "aa", true).unwrap());
    assert!(is_match("\\\\", "\\", true).unwrap());
    assert!(is_match("\\(a\\)", "(a)", true).unwrap());
    assert!(is_match("\\|", "|", false).unwrap());
}

#[test]
fn test_pathological_pattern_breadth_first() {
    // n repetitions of `a?` followed by n literal `a`s, against n `a`s: the
    // breadth-first strategy stays polynomial on this family
    let n = 25;
    let mut pattern = String::new();
    for _ in 0..n {
        pattern.push_str("a?");
    }
    let input = "a".repeat(n);
    pattern.push_str(&input);
    assert!(is_match(&pattern, &input, false).unwrap());
    let short = "a".repeat(n - 1);
    assert!(!is_match(&pattern, &short, false).unwrap());
}

#[test]
fn test_pathological_pattern_small_depth_first() {
    // small enough for the exponential strategy, and both must agree
    let n = 10;
    let mut pattern = String::new();
    for _ in 0..n {
        pattern.push_str("a?");
    }
    let input = "a".repeat(n);
    pattern.push_str(&input);
    assert!(is_match(&pattern, &input, true).unwrap());
    assert_eq!(
        is_match(&pattern, &input, true).unwrap(),
        is_match(&pattern, &input, false).unwrap()
    );
}
