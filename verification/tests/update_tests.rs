use wordlist::{render_wordlist, sort_dedup, str_lt, tokenize, update_wordlist};

#[test]
fn example_scenario() {
    let blobs = vec![String::from("The cat sat on the mattttt")];
    let words = update_wordlist(&blobs);
    assert_eq!(
        words,
        vec![String::from("cat"), String::from("sat"), String::from("the")]
    );
    assert_eq!(render_wordlist(&words), "cat\nsat\nthe\n");
}

#[test]
fn update_is_idempotent_byte_for_byte() {
    let input = String::from("The cat sat on the mattttt, again and again!");
    let first = update_wordlist(&vec![input.clone()]);
    let persisted = render_wordlist(&first);
    // A second run reads the same input plus the persisted wordlist.
    let second = update_wordlist(&vec![input, persisted.clone()]);
    assert_eq!(render_wordlist(&second), persisted);
    // And a run over the persisted wordlist alone reproduces it too.
    let third = update_wordlist(&vec![persisted.clone()]);
    assert_eq!(render_wordlist(&third), persisted);
}

#[test]
fn update_removes_duplicates() {
    let blobs = vec![String::from("dog cat dog cat dog")];
    let words = update_wordlist(&blobs);
    assert_eq!(words, vec![String::from("cat"), String::from("dog")]);
    for i in 0..words.len() {
        for j in 0..words.len() {
            if i != j {
                assert_ne!(words[i], words[j]);
            }
        }
    }
}

#[test]
fn update_sorts_lexicographically() {
    let blobs = vec![String::from("zebra yak apple mango banana")];
    let words = update_wordlist(&blobs);
    assert_eq!(
        words,
        vec![
            String::from("apple"),
            String::from("banana"),
            String::from("mango"),
            String::from("yak"),
            String::from("zebra"),
        ]
    );
    for i in 1..words.len() {
        assert!(str_lt(&words[i - 1], &words[i]));
    }
}

#[test]
fn update_lowercases_before_filtering() {
    // If lowercasing were skipped, "CAT" and "cat" would both survive.
    let blobs = vec![String::from("CAT cat Cat")];
    let words = update_wordlist(&blobs);
    assert_eq!(words, vec![String::from("cat")]);
}

#[test]
fn update_merges_several_blobs() {
    let blobs = vec![String::from("delta echo"), String::from("alpha echo")];
    let words = update_wordlist(&blobs);
    assert_eq!(
        words,
        vec![
            String::from("alpha"),
            String::from("delta"),
            String::from("echo"),
        ]
    );
}

#[test]
fn update_handles_punctuation_and_accents() {
    let blobs = vec![String::from("Don't stop; Déjà vu!")];
    let words = update_wordlist(&blobs);
    // "don't" holds an apostrophe, "vu" is too short; both are rejected.
    assert_eq!(words, vec![String::from("déjà"), String::from("stop")]);
}

#[test]
fn tokenize_splits_on_unicode_word_boundaries() {
    let blobs = vec![String::from("one, two... three!")];
    let tokens = tokenize(&blobs);
    assert_eq!(
        tokens,
        vec![String::from("one"), String::from("two"), String::from("three")]
    );
}

#[test]
fn sort_dedup_orders_and_dedups() {
    let input = vec![
        String::from("pear"),
        String::from("fig"),
        String::from("pear"),
        String::from("apricot"),
        String::from("fig"),
    ];
    let out = sort_dedup(&input);
    assert_eq!(
        out,
        vec![String::from("apricot"), String::from("fig"), String::from("pear")]
    );
}

#[test]
fn update_of_nothing_is_empty() {
    let words = update_wordlist(&Vec::new());
    assert!(words.is_empty());
    assert_eq!(render_wordlist(&words), "");
}
