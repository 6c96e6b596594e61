use the_algorithms_rust::{is_subsequence, word_break};

#[test]
fn test() {
    assert_eq!(is_subsequence(String::from("abc"), String::from("ahbgdc")), true);
    assert_eq!(is_subsequence(String::from("axc"), String::from("ahbgdc")), false);
}

#[test]
fn subsequence_edge_cases() {
    assert!(is_subsequence(String::new(), String::new()));
    assert!(is_subsequence(String::new(), String::from("abc")));
    assert!(!is_subsequence(String::from("a"), String::new()));
    assert!(is_subsequence(String::from("ace"), String::from("abcde")));
    assert!(!is_subsequence(String::from("aec"), String::from("abcde")));
    assert!(!is_subsequence(String::from("aa"), String::from("a")));
}

#[test]
fn typical_cases() {
    assert!(word_break("applepenapple", vec!["apple", "pen"]));
    assert!(!word_break(
        "catsandog",
        vec!["cats", "dog", "sand", "and", "cat"]
    ));
    assert!(word_break("cars", vec!["car", "ca", "rs"]));
}

#[test]
fn edge_cases() {
    assert!(!word_break("abc", vec![]));
    assert!(word_break("a", vec!["a"]));
}

#[test]
fn repeated_words() {
    assert!(word_break("aabb", vec!["a", "b"]));
    assert!(word_break("aaaaaaa", vec!["a", "aa", "aaa"]));
}

#[test]
fn no_solution() {
    assert!(!word_break("abcdef", vec!["ab", "abc", "cd"]));
    assert!(!word_break("xyz", vec!["a", "b", "c"]));
}

#[test]
fn long_string() {
    let long_string = "a".repeat(100);
    let words = vec!["a", "aa", "aaa", "aaaa"];
    assert!(word_break(&long_string, words));
}

#[test]
fn word_break_empty_string_and_empty_words() {
    assert!(word_break("", vec![]));
    assert!(!word_break("ab", vec![""]));
    assert!(word_break("ab", vec!["", "ab"]));
}
