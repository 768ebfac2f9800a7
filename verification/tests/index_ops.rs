use doc_indexer::highlight::sort_by_start;
use doc_indexer::{DocData, InMemoryIndex, SnapshotData, StrMap, StrSet, TermFrequency, TermPosting};

const INDEX: &str = "notes";

fn freq(original: u32, pinyin_full: u32, pinyin_initials: u32) -> TermFrequency {
    TermFrequency { original, pinyin_full, pinyin_initials }
}

#[test]
fn added_document_reads_back() {
    let mut index = InMemoryIndex::new();
    index.add_doc(INDEX, "a", "Hello world", true);
    assert_eq!(index.get_doc(INDEX, "a"), Some("Hello world".to_string()));
    assert_eq!(index.get_doc(INDEX, "b"), None);
    assert_eq!(index.get_doc("other", "a"), None);
}

#[test]
fn added_document_records_lengths_counts_and_positions() {
    let mut index = InMemoryIndex::new();
    index.add_doc(INDEX, "a", "go go gadget", true);
    let doc = index.docs.get(INDEX).unwrap().get("a").unwrap();
    assert_eq!(doc.doc_len, 3);
    assert_eq!(doc.term_freqs.get("go"), Some(&freq(2, 0, 0)));
    assert_eq!(doc.term_pos.get("go"), Some(&vec![(0, 2), (3, 5)]));
    assert_eq!(doc.term_pos.get("gadget"), Some(&vec![(6, 12)]));
    assert_eq!(index.total_lens.get(INDEX), Some(&3));
    let posting = index.inverted.get(INDEX).unwrap().get("go").unwrap();
    assert_eq!(posting.original.get("a"), Some(&2));
    assert!(posting.pinyin_full.is_empty());
    assert!(index.term_dict.get(INDEX).unwrap().contains("gadget"));
}

#[test]
fn chinese_document_records_pinyin_counts() {
    let mut index = InMemoryIndex::new();
    index.add_doc(INDEX, "cn", "你好世界", true);
    let doc = index.docs.get(INDEX).unwrap().get("cn").unwrap();
    assert_eq!(doc.doc_len, 3);
    assert_eq!(doc.term_freqs.get("你好"), Some(&freq(1, 0, 0)));
    assert_eq!(doc.term_freqs.get("nihao"), Some(&freq(0, 1, 0)));
    assert_eq!(doc.term_freqs.get("nh"), Some(&freq(0, 0, 1)));
    assert_eq!(doc.term_pos.get("nihao"), Some(&vec![(0, 2)]));
    let dict = index.term_dict.get(INDEX).unwrap();
    assert!(dict.contains("你好"));
    assert!(!dict.contains("nihao"));
}

#[test]
fn unindexed_document_is_stored_without_terms() {
    let mut index = InMemoryIndex::new();
    index.add_doc(INDEX, "a", "plain text", false);
    assert_eq!(index.get_doc(INDEX, "a"), Some("plain text".to_string()));
    let doc = index.docs.get(INDEX).unwrap().get("a").unwrap();
    assert_eq!(doc.doc_len, 0);
    assert!(doc.term_pos.is_empty());
    assert!(index.get_matches(INDEX, "a", "plain").is_empty());
}

#[test]
fn replacing_a_document_updates_total_and_postings() {
    let mut index = InMemoryIndex::new();
    index.add_doc(INDEX, "a", "one two three", true);
    index.add_doc(INDEX, "b", "two", true);
    assert_eq!(index.total_lens.get(INDEX), Some(&4));
    index.add_doc(INDEX, "a", "four", true);
    assert_eq!(index.total_lens.get(INDEX), Some(&2));
    let inverted = index.inverted.get(INDEX).unwrap();
    assert!(inverted.get("one").is_none());
    assert_eq!(inverted.get("two").unwrap().original.get("b"), Some(&1));
    assert!(inverted.get("two").unwrap().original.get("a").is_none());
    assert_eq!(inverted.get("four").unwrap().original.get("a"), Some(&1));
    let dict = index.term_dict.get(INDEX).unwrap();
    assert!(!dict.contains("three"));
    assert!(dict.contains("two"));
    assert!(dict.contains("four"));
}

#[test]
fn removing_a_document_twice_is_removing_it_once() {
    let mut index = InMemoryIndex::new();
    index.add_doc(INDEX, "a", "alpha beta", true);
    index.add_doc(INDEX, "b", "beta gamma", true);
    index.remove_doc(INDEX, "a");
    index.remove_doc(INDEX, "a");
    assert_eq!(index.get_doc(INDEX, "a"), None);
    assert_eq!(index.total_lens.get(INDEX), Some(&2));
    let dict = index.term_dict.get(INDEX).unwrap();
    assert!(!dict.contains("alpha"));
    assert!(dict.contains("beta"));
    let beta = index.inverted.get(INDEX).unwrap().get("beta").unwrap();
    assert_eq!(beta.original.len(), 1);
    assert!(index.inverted.get(INDEX).unwrap().get("alpha").is_none());
    let grams = index.ngram_index.get(INDEX).unwrap();
    assert!(grams.get("alp").is_none());
    assert_eq!(grams.get("bet"), Some(&vec!["beta".to_string()]));
}

#[test]
fn removing_an_unknown_document_changes_nothing() {
    let mut index = InMemoryIndex::new();
    index.add_doc(INDEX, "a", "alpha", true);
    index.remove_doc(INDEX, "zzz");
    index.remove_doc("other", "a");
    assert_eq!(index.get_doc(INDEX, "a"), Some("alpha".to_string()));
    assert!(index.deleted.is_empty());
}

#[test]
fn dirty_and_deleted_are_handed_out_once() {
    let mut index = InMemoryIndex::new();
    index.add_doc(INDEX, "a", "first doc", true);
    index.add_doc(INDEX, "b", "second", true);
    index.remove_doc(INDEX, "a");
    let (dirty, deleted) = index.take_dirty_and_deleted();
    assert_eq!(dirty, vec![(INDEX.to_string(), "b".to_string(), "second".to_string(), 1)]);
    assert!(deleted.get(INDEX).unwrap().contains("a"));
    assert_eq!(deleted.get(INDEX).unwrap().len(), 1);
    let (dirty2, deleted2) = index.take_dirty_and_deleted();
    assert!(dirty2.is_empty());
    assert!(deleted2.is_empty());
    assert_eq!(index.get_doc(INDEX, "b"), Some("second".to_string()));
}

#[test]
fn readding_a_deleted_document_clears_its_deletion() {
    let mut index = InMemoryIndex::new();
    index.add_doc(INDEX, "a", "x", true);
    index.remove_doc(INDEX, "a");
    index.add_doc(INDEX, "a", "y", true);
    let (dirty, deleted) = index.take_dirty_and_deleted();
    assert_eq!(dirty, vec![(INDEX.to_string(), "a".to_string(), "y".to_string(), 1)]);
    assert!(!deleted.get(INDEX).unwrap().contains("a"));
}

#[test]
fn matches_are_positions_of_query_terms_in_order() {
    let mut index = InMemoryIndex::new();
    index.add_doc(INDEX, "a", "token removal check token", true);
    assert_eq!(index.get_matches(INDEX, "a", "removal"), vec![(6, 13)]);
    assert_eq!(index.get_matches(INDEX, "a", "check TOKEN"), vec![(0, 5), (14, 19), (20, 25)]);
    assert!(index.get_matches(INDEX, "a", "absent").is_empty());
    assert!(index.get_matches(INDEX, "nope", "token").is_empty());
}

#[test]
fn sorting_by_start_keeps_equal_starts_in_order() {
    assert_eq!(sort_by_start(vec![(5, 6), (1, 9), (5, 2), (0, 1)]), vec![(0, 1), (1, 9), (5, 6), (5, 2)]);
    assert!(sort_by_start(vec![]).is_empty());
}

#[test]
fn snapshot_round_trip_restores_documents_and_terms() {
    let mut index = InMemoryIndex::new();
    index.add_doc(INDEX, "a", "alpha beta", true);
    index.add_doc(INDEX, "cn", "你好", true);
    let snap = index.get_snapshot_data(INDEX).unwrap();
    assert!(index.get_snapshot_data("missing").is_none());

    let mut restored = InMemoryIndex::new();
    restored.load_snapshot(INDEX, snap);
    assert_eq!(restored.get_doc(INDEX, "a"), Some("alpha beta".to_string()));
    assert_eq!(restored.get_doc(INDEX, "cn"), Some("你好".to_string()));
    assert_eq!(restored.total_lens.get(INDEX), Some(&3));
    let dict = restored.term_dict.get(INDEX).unwrap();
    assert!(dict.contains("alpha") && dict.contains("beta") && dict.contains("你好"));
    assert_eq!(dict.len(), 3);
    let posting = restored.inverted.get(INDEX).unwrap().get("nihao").unwrap();
    assert_eq!(posting.pinyin_full.get("cn"), Some(&1));
    assert!(posting.original.is_empty());
    assert_eq!(restored.get_matches(INDEX, "cn", "nihao"), vec![(0, 2)]);
}

#[test]
fn loading_a_snapshot_without_dictionary_rebuilds_it() {
    let mut term_pos = StrMap::new();
    term_pos.insert("hello".to_string(), vec![(0, 5)]);
    term_pos.insert("world".to_string(), vec![(6, 11)]);
    let mut term_freqs = StrMap::new();
    term_freqs.insert("hello".to_string(), freq(1, 0, 0));
    term_freqs.insert("world".to_string(), freq(1, 0, 0));
    let mut docs = StrMap::new();
    docs.insert(
        "a".to_string(),
        DocData { content: "hello world".to_string(), doc_len: 2, term_pos, term_freqs },
    );
    let snap = SnapshotData { docs, term_dict: StrSet::new(), ngram_index: StrMap::new() };

    let mut index = InMemoryIndex::new();
    index.load_snapshot(INDEX, snap);
    let dict = index.term_dict.get(INDEX).unwrap();
    assert!(dict.contains("hello") && dict.contains("world"));
    assert_eq!(dict.len(), 2);
    let grams = index.ngram_index.get(INDEX).unwrap();
    assert_eq!(grams.get("wor"), Some(&vec!["world".to_string()]));
    assert_eq!(index.inverted.get(INDEX).unwrap().get("hello").unwrap().original.get("a"), Some(&1));
    assert_eq!(index.total_lens.get(INDEX), Some(&2));
}

#[test]
fn loading_a_document_without_counts_counts_its_positions() {
    let mut term_pos = StrMap::new();
    term_pos.insert("echo".to_string(), vec![(0, 4), (5, 9)]);
    let mut docs = StrMap::new();
    docs.insert(
        "old".to_string(),
        DocData { content: "echo echo".to_string(), doc_len: 2, term_pos, term_freqs: StrMap::new() },
    );
    let snap = SnapshotData { docs, term_dict: StrSet::new(), ngram_index: StrMap::new() };
    let mut index = InMemoryIndex::new();
    index.load_snapshot(INDEX, snap);
    assert_eq!(index.inverted.get(INDEX).unwrap().get("echo").unwrap().original.get("old"), Some(&2));
    assert!(index.term_dict.get(INDEX).unwrap().contains("echo"));
}

#[test]
fn loading_a_snapshot_keeps_its_dictionary_and_trigrams() {
    let mut docs = StrMap::new();
    docs.insert(
        "a".to_string(),
        DocData { content: String::new(), doc_len: 0, term_pos: StrMap::new(), term_freqs: StrMap::new() },
    );
    let mut term_dict = StrSet::new();
    term_dict.insert("saved".to_string());
    let mut ngram_index = StrMap::new();
    ngram_index.insert("sav".to_string(), vec!["saved".to_string()]);
    let snap = SnapshotData { docs, term_dict, ngram_index };
    let mut index = InMemoryIndex::new();
    index.load_snapshot(INDEX, snap);
    assert!(index.term_dict.get(INDEX).unwrap().contains("saved"));
    assert_eq!(index.ngram_index.get(INDEX).unwrap().get("sav"), Some(&vec!["saved".to_string()]));
    assert_eq!(index.total_lens.get(INDEX), Some(&0));
}

#[test]
fn empty_posting_is_empty() {
    let mut p = TermPosting::new();
    assert!(p.is_empty());
    p.pinyin_initials.insert("d".to_string(), 1);
    assert!(!p.is_empty());
    assert!(TermPosting::default().is_empty());
}

#[test]
fn default_index_is_empty() {
    let index = InMemoryIndex::default();
    assert!(index.docs.is_empty());
    assert!(index.term_dict.is_empty());
    assert_eq!(TermFrequency::default(), freq(0, 0, 0));
}

fn dict_terms(index: &InMemoryIndex) -> Vec<String> {
    let mut v = index.term_dict.get(INDEX).map(|d| d.members()).unwrap_or_default();
    v.sort();
    v
}

fn gram_lists(index: &InMemoryIndex) -> Vec<(String, Vec<String>)> {
    let mut v: Vec<(String, Vec<String>)> =
        index.ngram_index.get(INDEX).map(|g| g.entries().clone()).unwrap_or_default();
    v.sort();
    v
}

fn postings(index: &InMemoryIndex) -> Vec<(String, Vec<(String, i64)>)> {
    let mut v: Vec<(String, Vec<(String, i64)>)> = Vec::new();
    if let Some(inv) = index.inverted.get(INDEX) {
        for (term, p) in inv.entries() {
            let mut l: Vec<(String, i64)> = p.original.entries().clone();
            l.sort();
            v.push((term.clone(), l));
        }
    }
    v.sort();
    v
}

#[test]
fn adding_then_removing_a_document_restores_the_index() {
    let mut index = InMemoryIndex::new();
    index.add_doc(INDEX, "a", "alpha beta", true);
    let dict = dict_terms(&index);
    let grams = gram_lists(&index);
    let posts = postings(&index);
    index.add_doc(INDEX, "b", "beta gamma delta alpha", true);
    index.remove_doc(INDEX, "b");
    assert_eq!(dict_terms(&index), dict);
    assert_eq!(gram_lists(&index), grams);
    assert_eq!(postings(&index), posts);
    assert_eq!(index.total_lens.get(INDEX), Some(&2));
    assert!(index.deleted.get(INDEX).unwrap().contains("b"));
}

#[test]
fn total_is_the_sum_of_document_lengths() {
    let mut index = InMemoryIndex::new();
    index.add_doc(INDEX, "a", "one two three", true);
    index.add_doc(INDEX, "b", "four five", true);
    index.add_doc(INDEX, "a", "six", true);
    index.add_doc(INDEX, "c", "not indexed", false);
    index.remove_doc(INDEX, "b");
    let sum: i64 = index.docs.get(INDEX).unwrap().entries().iter().map(|(_, d)| d.doc_len).sum();
    assert_eq!(sum, 1);
    assert_eq!(index.total_lens.get(INDEX), Some(&sum));
}

#[test]
fn every_long_term_is_listed_once_under_each_trigram() {
    let mut index = InMemoryIndex::new();
    index.add_doc(INDEX, "a", "banana bandana", true);
    index.add_doc(INDEX, "b", "banana", true);
    let grams = index.ngram_index.get(INDEX).unwrap();
    assert_eq!(grams.get("ana"), Some(&vec!["banana".to_string(), "bandana".to_string()]));
    assert_eq!(grams.get("ban"), Some(&vec!["banana".to_string(), "bandana".to_string()]));
    assert_eq!(grams.get("nda"), Some(&vec!["bandana".to_string()]));
}
