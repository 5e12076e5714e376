use ik_rs::lexeme::Lexeme;
use ik_rs::lexeme::LexemeType;
use ik_rs::ordered_linked_list::OrderedLinkedList;

#[test]
fn test_compiling() {}

#[test]
fn test_insert() {
    let mut list = OrderedLinkedList::new();
    list.insert(Lexeme::new(1..2, LexemeType::CNUM));
    list.insert(Lexeme::new(0..1, LexemeType::COUNT));
}

#[test]
fn test_insert_keeps_order() {
    let mut list = OrderedLinkedList::new();
    list.insert(Lexeme::new(2..4, LexemeType::CNWORD));
    list.insert(Lexeme::new(0..2, LexemeType::CNWORD));
    list.insert(Lexeme::new(0..3, LexemeType::CNWORD));
    assert_eq!(list.length(), 3);
    // ascending begin, the longer lexeme first on a tie
    let first = list.get(0).unwrap();
    assert_eq!((first.begin_pos(), first.end_pos()), (0, 3));
    let second = list.get(1).unwrap();
    assert_eq!((second.begin_pos(), second.end_pos()), (0, 2));
    let third = list.get(2).unwrap();
    assert_eq!((third.begin_pos(), third.end_pos()), (2, 4));
}

#[test]
fn test_insert_drops_positional_duplicate() {
    let mut list = OrderedLinkedList::new();
    list.insert(Lexeme::new(0..2, LexemeType::COUNT));
    list.insert(Lexeme::new(0..2, LexemeType::CNWORD));
    assert_eq!(list.length(), 1);
    // the first arrival keeps its type
    let kept = list.get(0).unwrap();
    assert_eq!(kept.lexeme_type, LexemeType::COUNT);
}

#[test]
fn test_pop_and_peek() {
    let mut list = OrderedLinkedList::new();
    list.insert(Lexeme::new(3..5, LexemeType::CNWORD));
    list.insert(Lexeme::new(1..2, LexemeType::CNWORD));
    assert_eq!(list.peek_front().unwrap().begin_pos(), 1);
    assert_eq!(list.peek_back().unwrap().begin_pos(), 3);
    assert_eq!(list.head_node(), Some(0));
    assert_eq!(list.tail_node(), Some(1));
    let front = list.pop_front().unwrap();
    assert_eq!(front.begin_pos(), 1);
    let back = list.pop_back().unwrap();
    assert_eq!(back.begin_pos(), 3);
    assert!(list.empty());
    assert!(list.pop_front().is_none());
}

#[test]
fn test_contains() {
    let mut list = OrderedLinkedList::new();
    list.insert(Lexeme::new(0..1, LexemeType::CNCHAR));
    assert!(list.contains(&Lexeme::new(0..1, LexemeType::CNWORD)));
    assert!(!list.contains(&Lexeme::new(0..2, LexemeType::CNCHAR)));
}

#[test]
fn test_clear() {
    let mut list = OrderedLinkedList::new();
    list.insert(Lexeme::new(0..1, LexemeType::CNCHAR));
    list.insert(Lexeme::new(1..2, LexemeType::CNCHAR));
    list.insert(Lexeme::new(2..3, LexemeType::CNCHAR));
    assert_eq!(list.length(), 3);
    list.clear();
    assert_eq!(list.length(), 0);
}
