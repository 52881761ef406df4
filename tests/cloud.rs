use chatgraph::cloud::WordCloud;
use chatgraph::database::Database;

#[test]
fn test_data_test_wordcloud() {
    assert_eq!(WordCloud::from_str("").unwrap(), WordCloud::new(""));
    assert_eq!(WordCloud::from_str("Hello, how are you?").unwrap(), WordCloud::new("hello how are you"));
    assert_eq!(WordCloud::from_str("fine, thanks!").unwrap(), WordCloud::new("fine thanks"));
}

#[test]
fn test_database_test_wordcloud() {
    assert_eq!(WordCloud::from_str("").unwrap(), WordCloud::new(""));
    assert_eq!(WordCloud::from_str("Hello, how are you?").unwrap(), WordCloud::new("hello how are you"));
    assert_eq!(WordCloud::from_str("fine, thanks!").unwrap(), WordCloud::new("fine thanks"));
}

#[test]
fn normalizing_twice_changes_nothing() {
    for t in ["Hello,  World!", "(Fine) -- thanks?", "", "  spaced   out  ", "ÉCOLE d'été"] {
        let once = WordCloud::normalize(t);
        let twice = WordCloud::normalize(&once.as_string());
        assert_eq!(once, twice);
        assert_eq!(once.as_string(), twice.as_string());
    }
}

#[test]
fn punctuation_case_and_spacing_do_not_count() {
    let a = WordCloud::normalize("How are you?");
    let b = WordCloud::normalize("  how ARE   you ");
    let c = WordCloud::normalize("you, are: how!");
    assert_eq!(a, b);
    assert_eq!(a, c);
    assert_ne!(a, WordCloud::normalize("how are we"));
}

#[test]
fn normalize_lowercases_and_strips() {
    assert_eq!(WordCloud::normalize("HeLLo, (World)!").as_string(), "hello world");
    assert_eq!(WordCloud::normalize("x - y").as_string(), "x y");
    assert_eq!(WordCloud::new("A  b").as_string(), "A b");
    assert_eq!(WordCloud::normalize("ÀB").as_string(), "àb");
}

#[test]
fn repeated_words_do_not_count() {
    assert_eq!(WordCloud::new("a a b"), WordCloud::new("b a"));
    assert_ne!(WordCloud::new("a"), WordCloud::new(""));
}

#[test]
fn same_cloud_same_phrase() {
    let mut g = Database::new();
    let before = g.phrases.len();
    let i = g.insert_texts_at("fine, thanks!", vec!["fine, thanks!".to_string()]);
    let j = g.insert_texts_at("fine thanks", vec!["fine thanks".to_string()]);
    assert!(i.is_some());
    assert_eq!(i, j);
    assert_eq!(g.phrases.len(), before + 1);
    assert_eq!(g.phrases[i.unwrap()].texts, vec!["fine, thanks!".to_string(), "fine thanks".to_string()]);
}

#[test]
fn no_text_still_makes_the_phrase() {
    let mut g = Database::new();
    g.updated("p");
    assert_eq!(g.insert_texts_at("new", Vec::new()), Some(1));
    assert_eq!(g.phrases.len(), 2);
    assert!(g.phrases[1].texts.is_empty());
    assert!(g.find_cloud(&WordCloud::new("new")).is_some());
    assert_eq!(g.manager.peers[0].1.texts, vec![(1, 0)]);
    assert_eq!(g.insert_texts_at("", Vec::new()), Some(0));
    assert_eq!(g.insert_texts_at("NEW!", Vec::new()), Some(1));
    assert_eq!(g.manager.peers[0].1.texts, vec![(1, 0)]);
}
