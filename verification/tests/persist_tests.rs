use wordlist::{render_wordlist, split_lines, str_lt};

#[test]
fn render_writes_one_word_per_line() {
    let words = vec![String::from("cat"), String::from("sat")];
    assert_eq!(render_wordlist(&words), "cat\nsat\n");
}

#[test]
fn render_of_empty_wordlist_is_empty() {
    assert_eq!(render_wordlist(&Vec::new()), "");
}

#[test]
fn split_reads_newline_terminated_lines() {
    assert_eq!(
        split_lines("cat\nsat\n"),
        vec![String::from("cat"), String::from("sat")]
    );
}

#[test]
fn split_accepts_a_missing_final_newline() {
    assert_eq!(
        split_lines("cat\nsat"),
        vec![String::from("cat"), String::from("sat")]
    );
}

#[test]
fn split_of_empty_text_is_empty() {
    assert!(split_lines("").is_empty());
}

#[test]
fn split_keeps_blank_interior_lines() {
    assert_eq!(
        split_lines("a\n\nb"),
        vec![String::from("a"), String::from(""), String::from("b")]
    );
}

#[test]
fn render_then_split_roundtrips() {
    let words = vec![
        String::from("apple"),
        String::from("banana"),
        String::from("cherry"),
    ];
    assert_eq!(split_lines(&render_wordlist(&words)), words);
}

#[test]
fn str_lt_orders_by_code_point() {
    assert!(str_lt("abc", "abd"));
    assert!(str_lt("ab", "abc"));
    assert!(str_lt("", "a"));
    assert!(!str_lt("b", "a"));
    assert!(!str_lt("abc", "abc"));
    assert!(str_lt("Zoo", "apple"));
}
