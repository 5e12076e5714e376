use ik_rs::hit::Hit;
use ik_rs::lexeme::Lexeme;
use ik_rs::lexeme::LexemeType;

#[test]
fn test_lexeme_accessors() {
    let l = Lexeme::new(3..7, LexemeType::CNWORD);
    assert_eq!(l.begin_pos(), 3);
    assert_eq!(l.end_pos(), 7);
    assert_eq!(l.len(), 4);
    assert_eq!(l.lexeme_text(), "");
}

#[test]
fn test_lexeme_parse_text() {
    let mut l = Lexeme::new(2..4, LexemeType::CNWORD);
    l.parse_lexeme_text("张三说的确实在理");
    assert_eq!(l.lexeme_text(), "说的");
}

#[test]
fn test_lexeme_append() {
    let mut a = Lexeme::new(0..3, LexemeType::ARABIC);
    let b = Lexeme::new(3..5, LexemeType::COUNT);
    assert!(a.append(&b, LexemeType::CQUAN));
    assert_eq!(a.begin_pos(), 0);
    assert_eq!(a.end_pos(), 5);
    assert_eq!(a.lexeme_type, LexemeType::CQUAN);
    // ranges that do not meet exactly never merge
    let c = Lexeme::new(6..7, LexemeType::COUNT);
    assert!(!a.append(&c, LexemeType::CQUAN));
    assert_eq!(a.end_pos(), 5);
}

#[test]
fn test_lexeme_order() {
    let a = Lexeme::new(0..3, LexemeType::CNWORD);
    let b = Lexeme::new(0..2, LexemeType::CNWORD);
    let c = Lexeme::new(1..2, LexemeType::CNWORD);
    // ascending begin; on a tie the longer lexeme comes first
    assert!(a < b);
    assert!(b < c);
    assert!(a < c);
    assert!(a == Lexeme::new(0..3, LexemeType::CNCHAR));
}

#[test]
fn test_type_strings() {
    assert_eq!(LexemeType::ENGLISH.as_str(), "ENGLISH");
    assert_eq!(LexemeType::ARABIC.as_str(), "ARABIC");
    assert_eq!(LexemeType::LETTER.as_str(), "LETTER");
    assert_eq!(LexemeType::CNWORD.as_str(), "CN_WORD");
    assert_eq!(LexemeType::CNCHAR.as_str(), "CN_CHAR");
    assert_eq!(LexemeType::OtherCJK.as_str(), "OtherCjk");
    assert_eq!(LexemeType::COUNT.as_str(), "COUNT");
    assert_eq!(LexemeType::CNUM.as_str(), "TYPE_CNUM");
    assert_eq!(LexemeType::CQUAN.as_str(), "TYPE_CQUAN");
    assert_eq!(LexemeType::UNKNOWN.as_str(), "UNKNOWN");
}

#[test]
fn test_hit_flags() {
    let mut hit = Hit::new_with_pos(2..5);
    assert!(!hit.is_match());
    assert!(!hit.is_prefix());
    hit.set_match();
    assert!(hit.is_match());
    assert!(!hit.is_prefix());
    hit.set_prefix();
    assert!(hit.is_match());
    assert!(hit.is_prefix());
    assert_eq!(hit.length(), 3);
    let p = hit.pos();
    assert_eq!((p.start, p.end), (2, 5));
}
