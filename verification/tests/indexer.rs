use doc_indexer::InMemoryIndex;

const INDEX: &str = "test-index";
const DOC_CN: &str = "doc-cn";
const DOC_EN: &str = "doc-en";

#[test]
fn pinyin_highlight_uses_original_positions() {
    let mut index = InMemoryIndex::default();
    index.add_doc(INDEX, DOC_CN, "你好世界", true);

    let direct = index.get_matches(INDEX, DOC_CN, "你好");
    assert!(
        !direct.is_empty(),
        "expected direct chinese match to have positions"
    );

    let pinyin = index.get_matches(INDEX, DOC_CN, "nihao");
    assert_eq!(pinyin, direct);
}

#[test]
fn removing_doc_cleans_aux_indices() {
    let mut index = InMemoryIndex::default();
    index.add_doc(INDEX, DOC_EN, "token removal check", true);

    index.remove_doc(INDEX, DOC_EN);

    if let Some(term_dict) = index.term_dict.get(INDEX) {
        assert!(
            !term_dict.contains("token"),
            "term_dict should drop removed terms"
        );
    }

    if let Some(ngram_index) = index.ngram_index.get(INDEX) {
        let still_contains = ngram_index
            .values()
            .iter()
            .any(|terms| terms.iter().any(|term| term == "token"));
        assert!(!still_contains, "ngrams should remove term entries");
    }
}
