use ik_rs::dictionary::Dictionary;
use ik_rs::ik_segmenter::IKSegmenter;
use ik_rs::ik_segmenter::TokenMode;

fn make_dict() -> Dictionary {
    let mut dict = Dictionary::new();
    dict.add_words(vec![
        "张三",
        "说的",
        "的确",
        "的",
        "确实",
        "实在",
        "在理",
        "中华人民共和国",
        "中华人民",
        "中华",
        "华人",
        "人民共和国",
        "人民",
        "共和国",
        "共和",
        "感觉",
        "并且",
        "且不",
        "悲伤",
        "结婚",
        "和尚",
        "尚未",
        "未结",
        "中国",
        "国有",
        "有",
        "平方公里",
        "平方",
        "方公里",
        "公里",
        "国土",
    ]);
    dict.add_quantifier_words(vec!["平方公里"]);
    dict
}

fn make_ik() -> IKSegmenter {
    IKSegmenter::new(make_dict())
}

fn assert_search_token(ik: &mut IKSegmenter, text: &str, expect: Vec<&str>) {
    let tokens = ik.tokenize(text, TokenMode::SEARCH);
    let mut token_texts = Vec::new();
    for token in tokens.iter() {
        token_texts.push(token.lexeme_text());
    }
    assert_eq!(expect, token_texts);
}

fn assert_index_token(ik: &mut IKSegmenter, text: &str, expect: Vec<&str>) {
    let tokens = ik.tokenize(text, TokenMode::INDEX);
    let mut token_texts = Vec::new();
    for token in tokens.iter() {
        token_texts.push(token.lexeme_text());
    }
    assert_eq!(expect, token_texts);
}

fn get_input_texts() -> Vec<&'static str> {
    vec![
        "张三说的确实在理",
        "中华人民共和国",
        "zhiyi.shen@gmail.com",
        "我感觉很happy,并且不悲伤!",
        "结婚的和尚未结婚的",
        "中国有960万平方公里的国土",
        "我的年纪是十八",
    ]
}

#[test]
fn ik_segmenter_test_index_segment() {
    let mut ik = make_ik();
    let texts = get_input_texts();
    for text in texts.iter() {
        let tokens = ik.tokenize(text, TokenMode::INDEX);
        for token in tokens.iter() {
            println!("{:?}", token.lexeme_text());
        }
        println!("{}", "----------------------")
    }
}

#[test]
fn ik_segmenter_test_search_segment() {
    let mut ik = make_ik();
    let texts = get_input_texts();
    for text in texts {
        let tokens = ik.tokenize(text, TokenMode::SEARCH);
        for token in tokens.iter() {
            println!("{:?}", token.lexeme_text());
        }
        println!("{}", "----------------------")
    }
}

#[test]
fn test_index_segment() {
    let mut ik = make_ik();
    assert_index_token(
        &mut ik,
        "张三说的确实在理",
        vec!["张三", "三", "说的", "的确", "的", "确实", "实在", "在理"],
    );
    assert_index_token(
        &mut ik,
        "中华人民共和国",
        vec![
            "中华人民共和国",
            "中华人民",
            "中华",
            "华人",
            "人民共和国",
            "人民",
            "共和国",
            "共和",
            "国",
        ],
    );
    assert_index_token(
        &mut ik,
        "zhiyi.shen@gmail.com",
        vec!["zhiyi.shen@gmail.com", "zhiyi", "shen", "gmail", "com"],
    );
    assert_index_token(
        &mut ik,
        "我感觉很happy,并且不悲伤!",
        vec!["我", "感觉", "很", "happy", "并且", "且不", "悲伤"],
    );
    assert_index_token(
        &mut ik,
        "结婚的和尚未结婚的",
        vec!["结婚", "的", "和尚", "尚未", "未结", "结婚", "的"],
    );
    assert_index_token(
        &mut ik,
        "中国有960万平方公里的国土",
        vec![
            "中国",
            "国有",
            "有",
            "960",
            "万",
            "平方公里",
            "平方",
            "方公里",
            "公里",
            "的",
            "国土",
        ],
    );
}

#[test]
fn test_search_segment() {
    let mut ik = make_ik();
    assert_search_token(
        &mut ik,
        "张三说的确实在理",
        vec!["张三", "说的", "确实", "在理"],
    );
    assert_search_token(&mut ik, "中华人民共和国", vec!["中华人民共和国"]);
    assert_search_token(&mut ik, "zhiyi.shen@gmail.com", vec!["zhiyi.shen@gmail.com"]);
    assert_search_token(
        &mut ik,
        "我感觉很happy,并且不悲伤!",
        vec!["我", "感觉", "很", "happy", "并", "且不", "悲伤"],
    );
    assert_search_token(
        &mut ik,
        "结婚的和尚未结婚的",
        vec!["结婚", "的", "和尚", "未", "结婚", "的"],
    );
    assert_search_token(
        &mut ik,
        "中国有960万平方公里的国土",
        vec!["中国", "有", "960万平方公里", "的", "国土"],
    );
}

#[test]
fn test_token_positions_and_types() {
    let mut ik = make_ik();
    let tokens = ik.tokenize("中国有960万平方公里的国土", TokenMode::SEARCH);
    let expect = vec![
        (0usize, 2usize, "CN_WORD"),
        (2, 3, "CN_WORD"),
        (3, 11, "TYPE_CQUAN"),
        (11, 12, "CN_WORD"),
        (12, 14, "CN_WORD"),
    ];
    assert_eq!(tokens.len(), expect.len());
    for (token, (begin, end, tname)) in tokens.iter().zip(expect.iter()) {
        assert_eq!(token.begin_pos(), *begin);
        assert_eq!(token.end_pos(), *end);
        assert_eq!(token.len(), *end - *begin);
        assert_eq!(token.lexeme_type.as_str(), *tname);
    }
}

#[test]
fn test_stop_word_filtered() {
    let mut dict = make_dict();
    dict.add_stop_words(vec!["的"]);
    let mut ik = IKSegmenter::new(dict);
    assert_search_token(
        &mut ik,
        "张三说的确实在理",
        vec!["张三", "说的", "确实", "在理"],
    );
    assert_search_token(
        &mut ik,
        "结婚的和尚未结婚的",
        vec!["结婚", "和尚", "未", "结婚"],
    );
}

#[test]
fn test_full_width_and_upper_case_input() {
    let mut dict = Dictionary::new();
    dict.add_words(vec!["hello"]);
    let mut ik = IKSegmenter::new(dict);
    let tokens = ik.tokenize("ＨＥＬＬＯ", TokenMode::SEARCH);
    let mut token_texts = Vec::new();
    for token in tokens.iter() {
        token_texts.push(token.lexeme_text());
    }
    assert_eq!(vec!["hello"], token_texts);
}

#[test]
fn test_empty_input() {
    let mut ik = make_ik();
    let tokens = ik.tokenize("", TokenMode::SEARCH);
    assert_eq!(tokens.len(), 0);
    let tokens = ik.tokenize("", TokenMode::INDEX);
    assert_eq!(tokens.len(), 0);
}

#[test]
fn test_useless_only_input() {
    let mut ik = make_ik();
    let tokens = ik.tokenize("!!! ???", TokenMode::SEARCH);
    assert_eq!(tokens.len(), 0);
}

#[test]
fn test_unknown_chinese_falls_back_to_single_chars() {
    let mut ik = IKSegmenter::new(Dictionary::new());
    let tokens = ik.tokenize("你好", TokenMode::SEARCH);
    let mut token_texts = Vec::new();
    for token in tokens.iter() {
        token_texts.push(token.lexeme_text());
    }
    assert_eq!(vec!["你", "好"], token_texts);
    for token in tokens.iter() {
        assert_eq!(token.lexeme_type.as_str(), "CN_CHAR");
    }
}

#[test]
fn test_every_dictionary_word_occurrence_reaches_index_output() {
    let mut ik = make_ik();
    let text = "张三说的确实在理";
    let tokens = ik.tokenize(text, TokenMode::INDEX);
    for word in ["张三", "说的", "的确", "的", "确实", "实在", "在理"] {
        let found = tokens.iter().any(|t| t.lexeme_text() == word);
        assert!(found, "missing {}", word);
    }
}

#[test]
fn test_mixed_letter_run() {
    let mut ik = IKSegmenter::new(Dictionary::new());
    assert_search_token(&mut ik, "windows2000", vec!["windows2000"]);
    assert_index_token(&mut ik, "windows2000", vec!["windows2000", "windows", "2000"]);
}
