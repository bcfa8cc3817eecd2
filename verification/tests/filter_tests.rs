use wordlist::{cleanup, is_accepted};

#[test]
fn accepts_plain_words() {
    assert!(is_accepted("the"));
    assert!(is_accepted("cat"));
    assert!(is_accepted("wordlist"));
}

#[test]
fn rejects_short_tokens() {
    assert!(!is_accepted(""));
    assert!(!is_accepted("a"));
    assert!(!is_accepted("aa"));
    assert!(!is_accepted("on"));
}

#[test]
fn rejects_non_alphabetic_tokens() {
    assert!(!is_accepted("a1b"));
    assert!(!is_accepted("abc3"));
    assert!(!is_accepted("don't"));
    assert!(!is_accepted("ab-cd"));
}

#[test]
fn accepts_runs_of_two() {
    assert!(is_accepted("aabbaa"));
    assert!(is_accepted("bookkeeper"));
}

#[test]
fn rejects_runs_of_three_or_more() {
    assert!(!is_accepted("aaab"));
    assert!(!is_accepted("baaa"));
    assert!(!is_accepted("matttt"));
    assert!(!is_accepted("aaa"));
}

#[test]
fn accepts_accented_letters() {
    assert!(is_accepted("déjà"));
    assert!(is_accepted("naïve"));
}

#[test]
fn cleanup_keeps_exactly_the_words() {
    let input: Vec<String> = vec![
        String::from("the"),
        String::from("on"),
        String::from("a1b"),
        String::from("aaab"),
        String::from("aabbaa"),
    ];
    let out = cleanup(input);
    assert_eq!(out, vec![String::from("the"), String::from("aabbaa")]);
}

#[test]
fn cleanup_of_empty_is_empty() {
    let out = cleanup(Vec::new());
    assert!(out.is_empty());
}
