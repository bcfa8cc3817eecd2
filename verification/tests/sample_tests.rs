use wordlist::{join, sample_words, SampleError};

#[test]
fn sampling_empty_wordlist_fails() {
    let words: Vec<String> = Vec::new();
    assert_eq!(sample_words(&words, 3), Err(SampleError::WordlistEmpty));
    assert_eq!(sample_words(&words, 0), Err(SampleError::WordlistEmpty));
}

#[test]
fn sampling_zero_words_is_empty() {
    let words = vec![String::from("alpha"), String::from("beta")];
    let picked = sample_words(&words, 0).unwrap();
    assert!(picked.is_empty());
    assert_eq!(join(&picked), "");
}

#[test]
fn sample_has_requested_count_from_the_wordlist() {
    let words = vec![
        String::from("alpha"),
        String::from("beta"),
        String::from("gamma"),
    ];
    let picked = sample_words(&words, 25).unwrap();
    assert_eq!(picked.len(), 25);
    for w in &picked {
        assert!(words.contains(w));
    }
}

#[test]
fn sampling_single_word_list() {
    let words = vec![String::from("only")];
    let picked = sample_words(&words, 4).unwrap();
    assert_eq!(picked, vec![
        String::from("only"),
        String::from("only"),
        String::from("only"),
        String::from("only"),
    ]);
}

#[test]
fn join_separates_with_single_spaces() {
    let words = vec![
        String::from("one"),
        String::from("two"),
        String::from("three"),
    ];
    assert_eq!(join(&words), "one two three");
}

#[test]
fn join_of_one_word_has_no_separator() {
    assert_eq!(join(&vec![String::from("solo")]), "solo");
}

#[test]
fn join_of_nothing_is_empty() {
    assert_eq!(join(&Vec::new()), "");
}
