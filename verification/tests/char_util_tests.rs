use ik_rs::char_util::CharType;
use ik_rs::char_util::regularize;
use ik_rs::char_util::regularize_str;
use ik_rs::char_util::utf8_from;
use ik_rs::char_util::utf8_len;
use ik_rs::char_util::utf8_slice;
use ik_rs::char_util::utf8_till;

#[test]
fn test_char_types() {
    assert_eq!(CharType::from('0'), CharType::ARABIC);
    assert_eq!(CharType::from('9'), CharType::ARABIC);
    assert_eq!(CharType::from('a'), CharType::ENGLISH);
    assert_eq!(CharType::from('Z'), CharType::ENGLISH);
    assert_eq!(CharType::from('中'), CharType::CHINESE);
    assert_eq!(CharType::from('㐀'), CharType::CHINESE);
    assert_eq!(CharType::from('가'), CharType::OtherCjk);
    assert_eq!(CharType::from('ひ'), CharType::OtherCjk);
    assert_eq!(CharType::from('カ'), CharType::OtherCjk);
    assert_eq!(CharType::from('！'), CharType::OtherCjk);
    assert_eq!(CharType::from('!'), CharType::USELESS);
    assert_eq!(CharType::from(' '), CharType::USELESS);
}

#[test]
fn test_regularize_chars() {
    // the full-width space becomes a plain space
    assert_eq!(regularize('\u{3000}'), ' ');
    // full-width ASCII becomes half-width, folded to lower case
    assert_eq!(regularize('Ａ'), 'a');
    assert_eq!(regularize('ｚ'), 'z');
    assert_eq!(regularize('１'), '1');
    // upper case becomes lower case
    assert_eq!(regularize('Q'), 'q');
    // everything else passes through
    assert_eq!(regularize('中'), '中');
    assert_eq!(regularize('x'), 'x');
}

#[test]
fn test_regularize_str_keeps_char_count() {
    let inputs = vec!["Ｈello， 世界！", "ＡＢＣ１２３", "平凡の世界"];
    for input in inputs {
        let out = regularize_str(input);
        assert_eq!(input.chars().count(), out.chars().count());
    }
    assert_eq!(regularize_str("Ｈello， 世界！"), "hello, 世界!");
}

#[test]
fn test_regularize_idempotent() {
    let inputs = vec!["Ｈello， 世界！", "ABC xyz 123", "中国有960万平方公里的国土"];
    for input in inputs {
        let once = regularize_str(input);
        let twice = regularize_str(once.as_str());
        assert_eq!(once, twice);
    }
}

#[test]
fn test_utf8_slices() {
    let s = "张三说的确实在理";
    assert_eq!(utf8_len(s), 8);
    assert_eq!(utf8_slice(s, 0, 2), "张三");
    assert_eq!(utf8_slice(s, 3, 5), "的确");
    // the end is clipped to the character count
    assert_eq!(utf8_slice(s, 6, 100), "在理");
    // reversed or out-of-range bounds give the empty string
    assert_eq!(utf8_slice(s, 5, 3), "");
    assert_eq!(utf8_slice(s, 9, 12), "");
    assert_eq!(utf8_from(s, 6), "在理");
    assert_eq!(utf8_till(s, 2), "张三");
}
