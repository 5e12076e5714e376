use ik_rs::dictionary::Dictionary;

#[test]
fn test_dictionary() {
    let mut dictionary = Dictionary::new();
    dictionary.add_words(vec!["一夕之间", "万般皆下品唯有读书高", "张三"]);
    let mut words = Vec::new();
    words.push("abcd");
    words.push("blues");
    dictionary.add_words(words);

    let vec_exist = vec!["一夕之间", "ab", "万般皆下品唯有读书高", "张三", "张"];
    for word in vec_exist {
        let hits = dictionary.match_in_main_dict(word);
        assert_eq!(true, hits.len() > 0);
    }
}

#[test]
fn test_disable_words() {
    let mut dictionary = Dictionary::new();
    dictionary.add_words(vec!["abcd", "blues"]);
    dictionary.disable_words(vec!["abcd"]);
    let hits = dictionary.match_in_main_dict("abcd");
    assert!(!hits.iter().any(|h| h.is_match() && h.pos.end == 4));
    let hits = dictionary.match_in_main_dict("blues");
    assert!(hits.iter().any(|h| h.is_match() && h.pos.end == 5));
}

#[test]
fn test_is_stop_word_exact_range() {
    let mut dictionary = Dictionary::new();
    dictionary.add_stop_words(vec!["的", "了"]);
    let text = "的确";
    assert_eq!(true, dictionary.is_stop_word(text, 0, 1));
    // the whole range is not itself a stop word, a prefix is not enough
    assert_eq!(false, dictionary.is_stop_word(text, 0, 2));
    assert_eq!(false, dictionary.is_stop_word(text, 1, 1));
    // out of range windows are never stop words
    assert_eq!(false, dictionary.is_stop_word(text, 1, 5));
}

#[test]
fn test_quantifier_dict_separate_from_main() {
    let mut dictionary = Dictionary::new();
    dictionary.add_quantifier_words(vec!["公里"]);
    let hits = dictionary.match_in_quantifier_dict("公里", 0, 2);
    assert!(hits.iter().any(|h| h.is_match() && h.pos.end == 2));
    let hits = dictionary.match_in_main_dict("公里");
    assert_eq!(0, hits.len());
}
