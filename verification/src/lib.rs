pub mod char_util;
pub mod cjk_segmenter;
pub mod cn_quantifier_segmenter;
pub mod configuration;
pub mod default_config;
pub mod dictionary;
pub mod hit;
pub mod ik_arbitrator;
pub mod ik_segmenter;
pub mod letter_segmentor;
pub mod lexeme;
pub mod lexeme_path;
pub mod ordered_linked_list;
pub mod segmentor;
pub mod trie;
