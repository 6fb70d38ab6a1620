use dht_lens::search::build_name_ngram;

#[test]
fn builds_cjk_ngrams_and_ascii_tokens() {
    let value = build_name_ngram("周杰伦演唱会.2024.1080p", 4096);
    assert!(value.contains("周杰"));
    assert!(value.contains("周杰伦"));
    assert!(value.contains("2024"));
    assert!(value.contains("1080p"));
}

#[test]
fn ngram_text_is_exact() {
    assert_eq!(build_name_ngram("Hello World hello", 100), "hello world");
    assert_eq!(build_name_ngram("周杰伦", 100), "周杰 杰伦 周杰伦");
    assert_eq!(build_name_ngram("ab周杰x", 100), "ab 周杰 x");
}

#[test]
fn ngram_text_stops_at_the_byte_limit() {
    assert_eq!(build_name_ngram("alpha beta gamma", 10), "alpha beta");
    assert_eq!(build_name_ngram("alpha beta gamma", 9), "alpha");
    assert_eq!(build_name_ngram("alpha", 4), "");
    // each CJK character takes three bytes
    assert_eq!(build_name_ngram("周杰伦", 6), "周杰");
}

#[test]
fn a_larger_budget_only_appends_words() {
    let name = "alpha beta gamma";
    let small = build_name_ngram(name, 10);
    let large = build_name_ngram(name, 100);
    assert_eq!(large, "alpha beta gamma");
    assert!(large.starts_with(&format!("{} ", small)));
    assert_eq!(build_name_ngram(name, 16), large);
}

#[test]
fn indexing_an_index_gives_it_back() {
    for (name, budget) in [("周杰伦演唱会.2024.1080p", 4096), ("Hello World hello", 100), ("ab周杰x", 7), ("alpha beta gamma", 10)] {
        let once = build_name_ngram(name, budget);
        assert_eq!(build_name_ngram(&once, budget), once);
    }
}
