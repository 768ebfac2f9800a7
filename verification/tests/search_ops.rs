use doc_indexer::fuzzy::{add_term_to_ngrams, remove_term_from_ngrams, trigram_candidates, trigram_hits_fit};
use doc_indexer::search::{
    fuzzy_term, is_ascii_alpha_query, plan_query, PostingSelector, QueryPlan, SearchStage,
};
use doc_indexer::text::tokenize;
use doc_indexer::{InMemoryIndex, SearchMode, StrMap, StrSet, TermPosting};

const INDEX: &str = "test-index";
const DOC_CN: &str = "doc-cn";
const DOC_EN: &str = "doc-en";

fn stages(query: &str, mode: SearchMode) -> Vec<SearchStage> {
    match plan_query(query, mode) {
        QueryPlan::Ranked(_, stages) => stages,
        QueryPlan::AllDocs => panic!("expected a ranked plan"),
    }
}

#[test]
fn empty_and_star_queries_list_every_document() {
    assert!(matches!(plan_query("*", SearchMode::Auto), QueryPlan::AllDocs));
    assert!(matches!(plan_query("", SearchMode::Exact), QueryPlan::AllDocs));
    assert!(matches!(plan_query("**", SearchMode::Auto), QueryPlan::Ranked(_, _)));
    let mut index = InMemoryIndex::new();
    index.add_doc(INDEX, "a", "x", true);
    index.add_doc(INDEX, "b", "y", false);
    let mut ids = index.doc_ids(INDEX);
    ids.sort();
    assert_eq!(ids, vec!["a".to_string(), "b".to_string()]);
    assert!(index.doc_ids("missing").is_empty());
}

#[test]
fn search_stages_follow_the_mode() {
    let original = SearchStage::Bm25(PostingSelector::Original);
    let full = SearchStage::Bm25(PostingSelector::PinyinFull);
    let initials = SearchStage::Bm25(PostingSelector::PinyinInitials);
    assert_eq!(stages("nihao", SearchMode::Auto), vec![original, full, initials, SearchStage::Fuzzy]);
    assert_eq!(stages("你好", SearchMode::Auto), vec![original]);
    assert_eq!(stages("nihao", SearchMode::Exact), vec![original]);
    assert_eq!(stages("nihao", SearchMode::Pinyin), vec![full, initials]);
    assert!(stages("你好", SearchMode::Pinyin).is_empty());
    assert_eq!(stages("go", SearchMode::Fuzzy), vec![SearchStage::Fuzzy]);
    assert!(stages("go2", SearchMode::Fuzzy).is_empty());
    assert!(stages("?!", SearchMode::Auto).is_empty());
}

#[test]
fn ascii_letter_queries_are_recognised() {
    assert!(is_ascii_alpha_query(&tokenize("Hello world")));
    assert!(!is_ascii_alpha_query(&tokenize("hello 42")));
    assert!(!is_ascii_alpha_query(&tokenize("你好")));
    assert!(!is_ascii_alpha_query(&tokenize("")));
}

#[test]
fn exact_scoring_input_reads_terms_as_written() {
    let mut index = InMemoryIndex::new();
    index.add_doc(INDEX, DOC_EN, "nihao greeting", true);
    index.add_doc(INDEX, DOC_CN, "你好世界", true);
    let query = tokenize("nihao");

    let exact = index.bm25_input(INDEX, &query, PostingSelector::Original).unwrap();
    assert_eq!(exact.doc_count, 2);
    assert_eq!(exact.total_len, 5);
    assert_eq!(exact.candidates, vec![(DOC_EN.to_string(), 2)]);
    assert_eq!(exact.terms.len(), 1);
    assert_eq!(exact.terms[0].0, "nihao");
    assert_eq!(exact.terms[0].1.get(DOC_EN), Some(&1));

    let pinyin = index.bm25_input(INDEX, &query, PostingSelector::PinyinFull).unwrap();
    assert_eq!(pinyin.candidates, vec![(DOC_CN.to_string(), 3)]);

    let initials = index.bm25_input(INDEX, &tokenize("nh"), PostingSelector::PinyinInitials).unwrap();
    assert_eq!(initials.candidates, vec![(DOC_CN.to_string(), 3)]);
}

#[test]
fn scoring_input_needs_every_term_in_one_document() {
    let mut index = InMemoryIndex::new();
    index.add_doc(INDEX, "a", "red apple", true);
    index.add_doc(INDEX, "b", "green apple", true);
    let both = index.bm25_input(INDEX, &tokenize("apple red"), PostingSelector::Original).unwrap();
    assert_eq!(both.candidates, vec![("a".to_string(), 2)]);
    assert!(index.bm25_input(INDEX, &tokenize("red green"), PostingSelector::Original).is_none());
    assert!(index.bm25_input(INDEX, &tokenize("purple"), PostingSelector::Original).is_none());
    assert!(index.bm25_input(INDEX, &tokenize("apple"), PostingSelector::PinyinFull).is_none());
    assert!(index.bm25_input("missing", &tokenize("apple"), PostingSelector::Original).is_none());
    assert!(index.bm25_input(INDEX, &Vec::new(), PostingSelector::Original).is_none());
}

#[test]
fn selector_picks_a_non_empty_list() {
    let mut posting = TermPosting::new();
    assert!(PostingSelector::Original.map(&posting).is_none());
    posting.pinyin_full.insert("d".to_string(), 3);
    assert_eq!(PostingSelector::PinyinFull.map(&posting).unwrap().get("d"), Some(&3));
    assert!(PostingSelector::PinyinInitials.map(&posting).is_none());
}

#[test]
fn fuzzy_input_takes_trigram_candidates() {
    let mut index = InMemoryIndex::new();
    index.add_doc(INDEX, DOC_EN, "fuzzy search handles typos", true);
    let query = tokenize("fuzze");
    let input = index.fuzzy_input(INDEX, &query).unwrap();
    assert_eq!(input.doc_count, 1);
    assert_eq!(input.total_len, 4);
    assert_eq!(input.terms.len(), 1);
    assert_eq!(input.terms[0].term, "fuzze");
    assert!(input.terms[0].from_trigrams);
    assert_eq!(input.terms[0].candidates, vec!["fuzzy".to_string()]);
    assert!(index.fuzzy_input(INDEX, &tokenize("fuzz9")).is_none());
    assert!(index.fuzzy_input("missing", &query).is_none());
}

#[test]
fn fuzzy_input_takes_the_dictionary_for_short_terms() {
    let mut index = InMemoryIndex::new();
    index.add_doc(INDEX, DOC_EN, "go go", true);
    let input = index.fuzzy_input(INDEX, &tokenize("go")).unwrap();
    assert!(!input.terms[0].from_trigrams);
    assert_eq!(input.terms[0].candidates, vec!["go".to_string()]);
    let posting = index.written_posting(INDEX, "go").unwrap();
    assert_eq!(posting.listed, 1);
    assert_eq!(posting.docs, vec![(DOC_EN.to_string(), 2, 2)]);
    assert!(index.written_posting(INDEX, "gone").is_none());
}

#[test]
fn written_posting_ignores_pinyin_lists() {
    let mut index = InMemoryIndex::new();
    index.add_doc(INDEX, DOC_CN, "你好世界", true);
    assert!(index.written_posting(INDEX, "nihao").is_none());
    let posting = index.written_posting(INDEX, "你好").unwrap();
    assert_eq!(posting.docs, vec![(DOC_CN.to_string(), 1, 3)]);
}

#[test]
fn trigram_candidates_rank_by_shared_trigrams() {
    let mut grams: StrMap<Vec<String>> = StrMap::new();
    add_term_to_ngrams(&mut grams, "hello");
    add_term_to_ngrams(&mut grams, "help");
    add_term_to_ngrams(&mut grams, "yellow");
    add_term_to_ngrams(&mut grams, "zzz");
    assert!(trigram_hits_fit(&grams, "hello"));
    assert_eq!(
        trigram_candidates(&grams, "hello"),
        vec!["hello".to_string(), "yellow".to_string(), "help".to_string()]
    );
    assert!(trigram_candidates(&grams, "qqq").is_empty());
}

#[test]
fn at_most_twenty_trigram_candidates() {
    let mut grams: StrMap<Vec<String>> = StrMap::new();
    for i in 0..30 {
        add_term_to_ngrams(&mut grams, &format!("abc{i:02}"));
    }
    assert_eq!(trigram_candidates(&grams, "abc").len(), 20);
}

#[test]
fn fuzzy_term_without_trigrams_lists_the_dictionary() {
    let grams: StrMap<Vec<String>> = StrMap::new();
    let mut dict = StrSet::new();
    dict.insert("ab".to_string());
    dict.insert("cd".to_string());
    let t = fuzzy_term(&grams, &dict, "ax");
    assert!(!t.from_trigrams);
    let mut c = t.candidates.clone();
    c.sort();
    assert_eq!(c, vec!["ab".to_string(), "cd".to_string()]);
}

#[test]
fn adding_a_term_lists_it_under_each_trigram_once() {
    let mut grams: StrMap<Vec<String>> = StrMap::new();
    add_term_to_ngrams(&mut grams, "banana");
    add_term_to_ngrams(&mut grams, "banana");
    assert_eq!(grams.len(), 3);
    assert_eq!(grams.get("ana"), Some(&vec!["banana".to_string()]));
    add_term_to_ngrams(&mut grams, "ab");
    assert_eq!(grams.len(), 3);
}

#[test]
fn removing_a_term_undoes_adding_it() {
    let mut grams: StrMap<Vec<String>> = StrMap::new();
    add_term_to_ngrams(&mut grams, "token");
    add_term_to_ngrams(&mut grams, "toke");
    remove_term_from_ngrams(&mut grams, "token");
    assert_eq!(grams.len(), 2);
    assert_eq!(grams.get("tok"), Some(&vec!["toke".to_string()]));
    assert!(grams.get("ken").is_none());
    remove_term_from_ngrams(&mut grams, "toke");
    assert!(grams.is_empty());
}
