use ik_rs::trie::Trie;

#[test]
fn trie_exist() {
    let mut trie = Trie::new();
    trie.insert("Test");
    trie.insert("Tea");
    trie.insert("Background");
    trie.insert("Back");
    trie.insert("Brown");
    trie.insert("申艳超");
    trie.insert("blues小站");

    assert_eq!(false, trie.exist("Testing"));
    assert_eq!(true, trie.exist("Brown"));
    assert_eq!(true, trie.exist("申艳超"));
    assert_eq!(false, trie.exist("申超"));
}

#[test]
fn trie_search() {
    let mut trie = Trie::new();
    trie.insert("Test");
    trie.insert("Tea");
    trie.insert("Background");
    trie.insert("Back");
    trie.insert("Brown");

    let hits = trie.match_word(&String::from("申艳超"));
    assert_eq!(0, hits.len());
    let hits = trie.match_word(&String::from("Tea"));
    for hit in hits.iter() {
        println!("{:?}", hit);
    }
}

#[test]
fn trie_match_finds_every_inserted_word() {
    let words = vec!["Test", "Tea", "Background", "Back", "Brown", "申艳超"];
    let mut trie = Trie::new();
    for w in words.iter() {
        trie.insert(w);
    }
    for w in words.iter() {
        let n = w.chars().count();
        let hits = trie.match_word(w);
        assert!(hits
            .iter()
            .any(|h| h.is_match() && h.pos.start == 0 && h.pos.end == n));
    }
}

#[test]
fn trie_match_reports_inner_words_and_prefixes() {
    let mut trie = Trie::new();
    trie.insert("Back");
    trie.insert("Background");
    let hits = trie.match_word("Backgrounds");
    // an inner MATCH for "Back", and a MATCH for "Background" that still
    // has no continuation toward "Backgrounds"
    assert_eq!(hits.len(), 2);
    assert!(hits[0].is_match());
    assert_eq!(hits[0].pos.start..hits[0].pos.end, 0..4);
    assert!(hits[0].is_prefix());
    assert!(hits[1].is_match());
    assert_eq!(hits[1].pos.start..hits[1].pos.end, 0..10);
    assert!(!hits[1].is_prefix());
}

#[test]
fn trie_match_prefix_only_hit() {
    let mut trie = Trie::new();
    trie.insert("Background");
    let hits = trie.match_word("Back");
    assert_eq!(hits.len(), 1);
    assert!(!hits[0].is_match());
    assert!(hits[0].is_prefix());
    assert_eq!(hits[0].pos.start..hits[0].pos.end, 0..4);
}

#[test]
fn trie_match_out_of_range_window_is_empty() {
    let mut trie = Trie::new();
    trie.insert("Tea");
    let hits = trie.match_word_with_offset("Tea", 1, 5);
    assert_eq!(0, hits.len());
}

#[test]
fn trie_insert_delete_exist() {
    let mut trie = Trie::new();
    trie.insert("словарь");
    assert_eq!(true, trie.exist("словарь"));
    assert_eq!(1, trie.size());
    trie.delete("словарь");
    assert_eq!(false, trie.exist("словарь"));
    assert_eq!(0, trie.size());
}

#[test]
fn trie_insert_idempotent() {
    let mut trie = Trie::new();
    trie.insert("Tea");
    trie.insert("Tea");
    assert_eq!(1, trie.size());
    assert!(trie.exist("Tea"));
}

#[test]
fn trie_delete_keeps_other_words() {
    let mut trie = Trie::new();
    trie.insert("Back");
    trie.insert("Background");
    trie.delete("Back");
    assert!(!trie.exist("Back"));
    assert!(trie.exist("Background"));
}

#[test]
fn trie_empty_word_is_no_op() {
    let mut trie = Trie::new();
    trie.insert("");
    assert_eq!(0, trie.size());
    assert!(!trie.exist(""));
}

#[test]
fn trie_size_counts_newly_created_final_nodes() {
    let mut trie = Trie::new();
    trie.insert("Background");
    assert_eq!(1, trie.size());
    // the whole path already exists, so no node is created and the size
    // counter stays, though the word still becomes terminal
    trie.insert("Back");
    assert_eq!(1, trie.size());
    assert!(trie.exist("Back"));
    assert!(trie.exist("Background"));
}

#[test]
fn trie_delete_counts_existing_paths() {
    let mut trie = Trie::new();
    trie.insert("Background");
    trie.insert("Tea");
    assert_eq!(2, trie.size());
    // "Back" is an existing path even though it is not a word, so the
    // counter drops while both words stay
    trie.delete("Back");
    assert_eq!(1, trie.size());
    assert!(trie.exist("Background"));
    assert!(trie.exist("Tea"));
    // a path that does not exist changes nothing
    trie.delete("Brown");
    assert_eq!(1, trie.size());
}
