use ik_rs::configuration::Configuration;
use ik_rs::default_config::DefaultConfig;

fn make_config() -> DefaultConfig {
    DefaultConfig::new(
        String::from("dict/"),
        String::from("main.dic"),
        String::from("quantifier.dic"),
        String::from("stopword.dic"),
        vec![String::from("ext_one.dic"), String::from("ext_two.dic")],
        vec![String::from("ext_stopword.dic")],
    )
}

#[test]
pub fn test_config() {
    let config = make_config();
    println!("{:?}", config);
    println!("{}", config.get_main_dictionary());
    println!("{}", config.get_quantifier_dictionary());
    println!("{:?}", config.get_ext_dictionaries());
    println!("{:?}", config.get_ext_stop_word_dictionaries());
}

#[test]
fn test_config_paths() {
    let config = make_config();
    assert_eq!(config.get_main_dictionary(), "dict/main.dic");
    assert_eq!(config.get_quantifier_dictionary(), "dict/quantifier.dic");
    assert_eq!(
        config.get_ext_dictionaries(),
        vec![String::from("dict/ext_one.dic"), String::from("dict/ext_two.dic")]
    );
    assert_eq!(
        config.get_ext_stop_word_dictionaries(),
        vec![String::from("dict/stopword.dic"), String::from("dict/ext_stopword.dic")]
    );
}
