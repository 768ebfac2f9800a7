//! Adding, removing and reading documents of the in-memory index.
use vstd::prelude::*;
use crate::strmap::{Duplicate, StrMap, StrSet};
use crate::fuzzy::{lists_terms, lemma_with_term_lists, ngram_view, with_term, without_terms, lemma_without_terms_insert, remove_term_from_ngrams, add_term_to_ngrams, names};
use crate::text::{TokenSpec, spec_tokenize, token_views, tokenize};
use crate::docbuild::{build_doc, doc_from_tokens, first_terms};
use crate::highlight::{sort_by_start, stable_sorted_by_start};
use crate::laws::lemma_matches_hold_every_query_term;
use crate::types::{SnapshotData, DocData, DocView, IndexView, InMemoryIndex, PostingView, TermPosting, TermFrequency};

verus! {

/// The value under `k`, or `d`.
pub open spec fn get_or<K, V>(m: Map<K, V>, k: K, d: V) -> V {
    if m.contains_key(k) {
        m[k]
    } else {
        d
    }
}

/// A posting with document `d` taken out of all three lists.
pub open spec fn posting_without(p: PostingView, d: Seq<char>) -> PostingView {
    PostingView {
        original: p.original.remove(d),
        pinyin_full: p.pinyin_full.remove(d),
        pinyin_initials: p.pinyin_initials.remove(d),
    }
}

/// The postings of a named index after document `d` leaves the postings of
/// the terms in `terms`; a posting left with no document goes with its term.
pub open spec fn inverted_without_doc(
    inv: Map<Seq<char>, PostingView>,
    d: Seq<char>,
    terms: Set<Seq<char>>,
) -> Map<Seq<char>, PostingView> {
    Map::new(
        |t: Seq<char>|
            inv.contains_key(t) && !(terms.contains(t) && posting_without(inv[t], d).is_empty()),
        |t: Seq<char>|
            if terms.contains(t) {
                posting_without(inv[t], d)
            } else {
                inv[t]
            },
    )
}

/// The terms of `terms` that are in the dictionary `td` and that no document
/// holds as written any more once `d` is taken out of their postings.
pub open spec fn dropped_terms(
    inv: Map<Seq<char>, PostingView>,
    d: Seq<char>,
    terms: Set<Seq<char>>,
    td: Set<Seq<char>>,
) -> Set<Seq<char>> {
    Set::new(
        |t: Seq<char>|
            terms.contains(t) && inv.contains_key(t) && posting_without(inv[t], d).original
                == Map::<Seq<char>, i64>::empty() && td.contains(t),
    )
}

impl IndexView {
    /// The sum of the document lengths recorded for a named index (0 when
    /// none is recorded).
    pub open spec fn total_of(self, idx: Seq<char>) -> int {
        get_or(self.total_lens, idx, 0i64) as int
    }

    pub open spec fn has_doc(self, idx: Seq<char>, d: Seq<char>) -> bool {
        self.docs.contains_key(idx) && self.docs[idx].contains_key(d)
    }

    /// The length of a stored document, 0 for one not stored.
    pub open spec fn stored_len(self, idx: Seq<char>, d: Seq<char>) -> int {
        if self.has_doc(idx, d) {
            self.docs[idx][d].doc_len as int
        } else {
            0
        }
    }

    /// The index after document `d` leaves the postings of `terms` in the
    /// named index `idx`: a term that no document holds as written any more
    /// leaves the dictionary, and then the trigram lists too.  Nothing changes
    /// where the named index has no postings.
    pub open spec fn drop_doc_terms(self, idx: Seq<char>, d: Seq<char>, terms: Set<Seq<char>>) -> IndexView {
        if !self.inverted.contains_key(idx) {
            self
        } else {
            let inv = self.inverted[idx];
            let inverted = self.inverted.insert(idx, inverted_without_doc(inv, d, terms));
            if self.term_dict.contains_key(idx) {
                let td = self.term_dict[idx];
                let gone = dropped_terms(inv, d, terms, td);
                IndexView {
                    inverted,
                    term_dict: self.term_dict.insert(idx, td.difference(gone)),
                    ngram_index: if self.ngram_index.contains_key(idx) {
                        self.ngram_index.insert(idx, without_terms(self.ngram_index[idx], gone))
                    } else {
                        self.ngram_index
                    },
                    ..self
                }
            } else {
                IndexView { inverted, ..self }
            }
        }
    }

    /// The index after document `d` is recorded with the counts `tf` in the
    /// postings of the named index `idx`.
    pub open spec fn post_doc_spec(self, idx: Seq<char>, d: Seq<char>, tf: Map<Seq<char>, TermFrequency>) -> IndexView {
        IndexView {
            inverted: self.inverted.insert(idx, inverted_with_doc(get_or(self.inverted, idx, Map::empty()), d, tf)),
            ..self
        }
    }

    /// The index after the terms `ts` are entered in the dictionary and the
    /// trigram index of the named index `idx`; nothing changes for no terms.
    pub open spec fn ensure_terms_spec(self, idx: Seq<char>, ts: Seq<Seq<char>>) -> IndexView {
        if ts.len() == 0 {
            self
        } else {
            IndexView {
                term_dict: self.term_dict.insert(idx, get_or(self.term_dict, idx, Set::empty()).union(ts.to_set())),
                ngram_index: self.ngram_index.insert(idx, with_terms(get_or(self.ngram_index, idx, Map::empty()), ts)),
                ..self
            }
        }
    }

    /// Whether `self` is `old` with the dictionary and the trigram index of
    /// the named index `idx` rebuilt from its documents: the dictionary holds
    /// the terms the documents give (see `contributes`) and the trigram index
    /// lists exactly those terms.  Nothing changes where `idx` has no
    /// documents map.
    pub open spec fn rebuilt_from(self, old: IndexView, idx: Seq<char>) -> bool {
        if !old.docs.contains_key(idx) {
            self == old
        } else {
            let terms = aux_terms(old.docs[idx]);
            &&& self.ngram_index.contains_key(idx)
            &&& lists_terms(self.ngram_index[idx], terms)
            &&& self == IndexView {
                term_dict: old.term_dict.insert(idx, terms),
                ngram_index: old.ngram_index.insert(idx, self.ngram_index[idx]),
                ..old
            }
        }
    }

    /// Whether `e` reports a document that is marked dirty and stored, with
    /// its stored content and length.
    pub open spec fn is_dirty_record(self, e: (Seq<char>, Seq<char>, Seq<char>, i64)) -> bool {
        &&& self.dirty.contains_key(e.0)
        &&& self.dirty[e.0].contains(e.1)
        &&& self.has_doc(e.0, e.1)
        &&& e.2 == self.docs[e.0][e.1].content
        &&& e.3 == self.docs[e.0][e.1].doc_len
    }

    /// The index after `text` is stored as document `d` of the named index
    /// `idx`, its tokens (none unless `index`) giving its positions and
    /// counts: a document stored before under that id is first taken out of
    /// the total and the postings; then the new one is stored, its length
    /// added to the total, its counts recorded in the postings, its terms
    /// entered in the dictionary and the trigram index; it is marked dirty
    /// and no longer deleted.
    pub open spec fn add_doc_spec(self, idx: Seq<char>, d: Seq<char>, text: Seq<char>, index: bool) -> IndexView {
        let ts = if index { spec_tokenize(text) } else { Seq::empty() };
        let doc = doc_from_tokens(text, ts);
        let s1 = if self.has_doc(idx, d) {
            let old = self.docs[idx][d];
            IndexView {
                docs: self.docs.insert(idx, self.docs[idx].remove(d)),
                total_lens: self.total_lens.insert(idx, (self.total_of(idx) - old.doc_len) as i64),
                ..self
            }.drop_doc_terms(idx, d, old.term_pos.dom())
        } else {
            self
        };
        let s2 = IndexView {
            docs: s1.docs.insert(idx, get_or(s1.docs, idx, Map::empty()).insert(d, doc)),
            total_lens: s1.total_lens.insert(idx, (s1.total_of(idx) + doc.doc_len) as i64),
            ..s1.post_doc_spec(idx, d, doc.term_freqs)
        };
        let s3 = s2.ensure_terms_spec(idx, first_terms(ts));
        IndexView {
            dirty: s3.dirty.insert(idx, get_or(s3.dirty, idx, Set::empty()).insert(d)),
            deleted: if s3.deleted.contains_key(idx) {
                s3.deleted.insert(idx, s3.deleted[idx].remove(d))
            } else {
                s3.deleted
            },
            ..s3
        }
    }

    /// The index after document `d` of the named index `idx` is removed:
    /// its length leaves the total, its terms leave the postings (see
    /// `drop_doc_terms`), and it is recorded as deleted and no longer dirty.
    /// Nothing changes where no such document is stored.
    pub open spec fn remove_doc_spec(self, idx: Seq<char>, d: Seq<char>) -> IndexView {
        if self.has_doc(idx, d) {
            let old = self.docs[idx][d];
            let s1 = IndexView {
                docs: self.docs.insert(idx, self.docs[idx].remove(d)),
                total_lens: self.total_lens.insert(idx, (self.total_of(idx) - old.doc_len) as i64),
                ..self
            };
            let s2 = s1.drop_doc_terms(idx, d, old.term_pos.dom());
            IndexView {
                deleted: s2.deleted.insert(idx, get_or(s2.deleted, idx, Set::empty()).insert(d)),
                dirty: if s2.dirty.contains_key(idx) {
                    s2.dirty.insert(idx, s2.dirty[idx].remove(d))
                } else {
                    s2.dirty
                },
                ..s2
            }
        } else {
            self
        }
    }
}

/// A document's count in a posting list: recorded where positive, absent
/// otherwise.
pub open spec fn set_count(m: Map<Seq<char>, i64>, d: Seq<char>, c: u32) -> Map<Seq<char>, i64> {
    if c > 0 {
        m.insert(d, c as i64)
    } else {
        m.remove(d)
    }
}

pub open spec fn posting_with(p: PostingView, d: Seq<char>, f: TermFrequency) -> PostingView {
    PostingView {
        original: set_count(p.original, d, f.original),
        pinyin_full: set_count(p.pinyin_full, d, f.pinyin_full),
        pinyin_initials: set_count(p.pinyin_initials, d, f.pinyin_initials),
    }
}

/// The postings of a named index after document `d` is recorded with the
/// counts `tf`: each term of `tf` gets a posting (empty if it had none) with
/// the document's three counts.
pub open spec fn inverted_with_doc(
    inv: Map<Seq<char>, PostingView>,
    d: Seq<char>,
    tf: Map<Seq<char>, TermFrequency>,
) -> Map<Seq<char>, PostingView> {
    Map::new(
        |t: Seq<char>| inv.contains_key(t) || tf.contains_key(t),
        |t: Seq<char>|
            if tf.contains_key(t) {
                posting_with(get_or(inv, t, PostingView::empty()), d, tf[t])
            } else {
                inv[t]
            },
    )
}

/// The trigram index after adding the terms of `ts` in order.
pub open spec fn with_terms(ng: Map<Seq<char>, Seq<Seq<char>>>, ts: Seq<Seq<char>>) -> Map<Seq<char>, Seq<Seq<char>>>
    decreases ts.len(),
{
    if ts.len() == 0 {
        ng
    } else {
        with_term(with_terms(ng, ts.drop_last()), ts.last())
    }
}

/// The abstract form of a dirty document record: index name, document id,
/// content and length.
pub open spec fn dirty_view(e: (String, String, String, i64)) -> (Seq<char>, Seq<char>, Seq<char>, i64) {
    (e.0@, e.1@, e.2@, e.3)
}

/// The ranges that the terms of `ts` have in a document, token by token.
pub open spec fn raw_matches(pos: Map<Seq<char>, Seq<(u32, u32)>>, ts: Seq<TokenSpec>) -> Seq<(u32, u32)>
    decreases ts.len(),
{
    if ts.len() == 0 {
        Seq::empty()
    } else {
        raw_matches(pos, ts.drop_last()) + get_or(pos, ts.last().term, Seq::empty())
    }
}

/// Whether a document gives term `t` to the dictionary when the auxiliary
/// indices are rebuilt: a document without counts gives each term it has
/// positions for; one with counts gives each term it holds as written.
pub open spec fn contributes(doc: DocView, t: Seq<char>) -> bool {
    if doc.term_freqs == Map::<Seq<char>, TermFrequency>::empty() {
        doc.term_pos.contains_key(t)
    } else {
        doc.term_freqs.contains_key(t) && doc.term_freqs[t].original > 0
    }
}

/// The terms that the documents give to the dictionary.
pub open spec fn aux_terms(docs: Map<Seq<char>, DocView>) -> Set<Seq<char>> {
    Set::new(|t: Seq<char>| exists|d: Seq<char>| docs.contains_key(d) && #[trigger] contributes(docs[d], t))
}

/// The sum of the lengths of the documents of `docs` (0 where there are
/// infinitely many).
pub open spec fn sum_lens(docs: Map<Seq<char>, DocView>) -> int
    decreases docs.dom().len(),
{
    if docs.dom().finite() && docs.dom().len() > 0 {
        let d = docs.dom().choose();
        docs[d].doc_len + sum_lens(docs.remove(d))
    } else {
        0
    }
}

/// Taking a document out of a finite map takes its length out of the sum.
pub proof fn lemma_sum_lens_remove(docs: Map<Seq<char>, DocView>, d: Seq<char>)
    requires
        docs.dom().finite(),
        docs.contains_key(d),
    ensures
        sum_lens(docs) == docs[d].doc_len + sum_lens(docs.remove(d)),
    decreases docs.dom().len(),
{
    let c = docs.dom().choose();
    if c != d {
        let dc = docs.remove(c);
        let dd = docs.remove(d);
        lemma_sum_lens_remove(dc, d);
        lemma_sum_lens_remove(dd, c);
        assert(dc.remove(d) =~= dd.remove(c));
    }
}

/// Storing a document in a finite map puts its length in the sum in place
/// of the length of the document stored before under that id.
pub proof fn lemma_sum_lens_insert(docs: Map<Seq<char>, DocView>, d: Seq<char>, v: DocView)
    requires
        docs.dom().finite(),
    ensures
        sum_lens(docs.insert(d, v)) == sum_lens(docs) - (if docs.contains_key(d) { docs[d].doc_len as int } else { 0 })
            + v.doc_len,
{
    let ins = docs.insert(d, v);
    lemma_sum_lens_remove(ins, d);
    assert(ins.remove(d) =~= docs.remove(d));
    if docs.contains_key(d) {
        lemma_sum_lens_remove(docs, d);
    } else {
        assert(docs.remove(d) =~= docs);
    }
}

pub proof fn lemma_sum_lens_empty()
    ensures
        sum_lens(Map::<Seq<char>, DocView>::empty()) == 0,
{
    assert(Map::<Seq<char>, DocView>::empty().dom() =~= Set::<Seq<char>>::empty());
}

pub open spec fn fits_i64(x: int) -> bool {
    i64::MIN <= x <= i64::MAX
}

/// The records for the documents of `ids` that are in `done` and that
/// `docs` stores, under index name `idx`.
pub open spec fn records_of(
    docs: Map<Seq<char>, DocView>,
    idx: Seq<char>,
    ids: Set<Seq<char>>,
    done: Set<Seq<char>>,
) -> Set<(Seq<char>, Seq<char>, Seq<char>, i64)> {
    Set::new(
        |e: (Seq<char>, Seq<char>, Seq<char>, i64)|
            e.0 == idx && ids.contains(e.1) && done.contains(e.1) && docs.contains_key(e.1) && e.2
                == docs[e.1].content && e.3 == docs[e.1].doc_len,
    )
}

pub open spec fn record_views(v: Seq<(String, String, String, i64)>) -> Seq<(Seq<char>, Seq<char>, Seq<char>, i64)> {
    v.map_values(|e: (String, String, String, i64)| dirty_view(e))
}

proof fn lemma_record_push(v: Seq<(String, String, String, i64)>, e: (String, String, String, i64))
    requires
        record_views(v).no_duplicates(),
        !record_views(v).to_set().contains(dirty_view(e)),
    ensures
        record_views(v.push(e)).no_duplicates(),
        record_views(v.push(e)).to_set() == record_views(v).to_set().insert(dirty_view(e)),
{
    assert(record_views(v.push(e)) =~= record_views(v).push(dirty_view(e)));
    record_views(v).lemma_push_to_set_commute(dirty_view(e));
    assert forall|i: int, j: int| 0 <= i < j < record_views(v.push(e)).len() implies record_views(v.push(e))[i]
        != record_views(v.push(e))[j] by {
        if j == v.len() {
            assert(record_views(v).to_set().contains(record_views(v)[i]));
        }
    }
}

/// Appends a record for each member of `ids` that `docs` stores: the index
/// name, the document id, its content and its length.
fn collect_dirty(index_name: &String, ids: &StrSet, docs: &StrMap<DocData>, out: &mut Vec<(String, String, String, i64)>)
    requires
        record_views(old(out)@).no_duplicates(),
        forall|e: (Seq<char>, Seq<char>, Seq<char>, i64)| e.0 == index_name@ ==> !#[trigger] record_views(old(out)@).to_set().contains(e),
    ensures
        record_views(final(out)@).no_duplicates(),
        record_views(final(out)@).to_set() == record_views(old(out)@).to_set().union(
            records_of(docs@, index_name@, ids@, ids@),
        ),
{
    let ghost orig = record_views(out@).to_set();
    let members = ids.members();
    let ghost mut done: Set<Seq<char>> = Set::empty();
    let mut mi: usize = 0;
    while mi < members.len()
        invariant
            mi <= members@.len(),
            forall|j: int| 0 <= j < members@.len() ==> #[trigger] ids@.contains(members@[j]@),
            forall|a: int, b: int| 0 <= a < b < members@.len() ==> members@[a]@ != members@[b]@,
            forall|d: Seq<char>| #[trigger] done.contains(d) <==> exists|j: int| 0 <= j < mi && members@[j]@ == d,
            forall|e: (Seq<char>, Seq<char>, Seq<char>, i64)| e.0 == index_name@ ==> !#[trigger] orig.contains(e),
            record_views(out@).no_duplicates(),
            record_views(out@).to_set() == orig.union(records_of(docs@, index_name@, ids@, done)),
        decreases members@.len() - mi,
    {
        let doc_id = &members[mi];
        let ghost d = doc_id@;
        proof {
            if done.contains(d) {
                let j = choose|j: int| 0 <= j < mi && members@[j]@ == d;
                assert(members@[j]@ != members@[mi as int]@);
            }
        }
        let ghost next = done.insert(d);
        match docs.get(doc_id.as_str()) {
            Some(data) => {
                let rec = (index_name.clone(), doc_id.clone(), data.content.clone(), data.doc_len);
                proof {
                    lemma_record_push(out@, rec);
                }
                out.push(rec);
                assert(orig.union(records_of(docs@, index_name@, ids@, next)) =~= orig.union(
                    records_of(docs@, index_name@, ids@, done),
                ).insert(dirty_view(rec)));
            },
            None => {
                assert(records_of(docs@, index_name@, ids@, next) =~= records_of(docs@, index_name@, ids@, done));
            },
        }
        proof {
            done = next;
        }
        mi = mi + 1;
    }
    proof {
        assert forall|d: Seq<char>| ids@.contains(d) implies #[trigger] done.contains(d) by {
            let j = choose|j: int| 0 <= j < members@.len() && #[trigger] members@[j]@ == d;
        }
        assert(records_of(docs@, index_name@, ids@, done) =~= records_of(docs@, index_name@, ids@, ids@));
    }
}

/// Enters the terms a document gives (see `contributes`) in a dictionary and
/// a trigram index that lists it.
fn add_contributed_terms(doc: &DocData, td: &mut StrSet, ng: &mut StrMap<Vec<String>>)
    requires
        lists_terms(ngram_view(old(ng)@), old(td)@),
    ensures
        final(td)@ == old(td)@.union(Set::new(|t: Seq<char>| contributes(doc@, t))),
        lists_terms(ngram_view(final(ng)@), final(td)@),
{
    let ghost td0 = td@;
    let ghost mut done: Set<Seq<char>> = Set::empty();
    if doc.term_freqs.is_empty() {
        let entries = doc.term_pos.entries();
        let mut i: usize = 0;
        while i < entries.len()
            invariant
                i <= entries@.len(),
                doc@.term_freqs == Map::<Seq<char>, TermFrequency>::empty(),
                forall|j: int| 0 <= j < entries@.len() ==> #[trigger] doc@.term_pos.contains_key(entries@[j].0@),
                forall|t: Seq<char>| #[trigger] doc@.term_pos.contains_key(t) ==> exists|j: int|
                    0 <= j < entries@.len() && #[trigger] entries@[j].0@ == t,
                forall|t: Seq<char>| #[trigger] done.contains(t) <==> exists|j: int| 0 <= j < i && entries@[j].0@ == t,
                td@ == td0.union(done),
                lists_terms(ngram_view(ng@), td@),
            decreases entries@.len() - i,
        {
            let term = &entries[i].0;
            proof {
                lemma_with_term_lists(ngram_view(ng@), td@, term@);
            }
            td.insert(term.clone());
            add_term_to_ngrams(ng, term.as_str());
            proof {
                done = done.insert(term@);
            }
            assert(td@ =~= td0.union(done));
            i = i + 1;
        }
        proof {
            assert forall|t: Seq<char>| #[trigger] done.contains(t) <==> contributes(doc@, t) by {
                if doc@.term_pos.contains_key(t) {
                    let j = choose|j: int| 0 <= j < entries@.len() && #[trigger] entries@[j].0@ == t;
                }
            }
            assert(done =~= Set::new(|t: Seq<char>| contributes(doc@, t)));
        }
    } else {
        let entries = doc.term_freqs.entries();
        let mut i: usize = 0;
        while i < entries.len()
            invariant
                i <= entries@.len(),
                doc@.term_freqs != Map::<Seq<char>, TermFrequency>::empty(),
                forall|j: int| 0 <= j < entries@.len() ==> #[trigger] doc@.term_freqs.contains_key(entries@[j].0@)
                    && doc@.term_freqs[entries@[j].0@] == entries@[j].1@,
                forall|t: Seq<char>| #[trigger] doc@.term_freqs.contains_key(t) ==> exists|j: int|
                    0 <= j < entries@.len() && #[trigger] entries@[j].0@ == t,
                forall|t: Seq<char>| #[trigger] done.contains(t) <==> exists|j: int|
                    0 <= j < i && entries@[j].0@ == t && entries@[j].1.original > 0,
                td@ == td0.union(done),
                lists_terms(ngram_view(ng@), td@),
            decreases entries@.len() - i,
        {
            let term = &entries[i].0;
            let f = entries[i].1;
            if f.original > 0 {
                proof {
                    lemma_with_term_lists(ngram_view(ng@), td@, term@);
                }
                td.insert(term.clone());
                add_term_to_ngrams(ng, term.as_str());
                proof {
                    done = done.insert(term@);
                }
                assert(td@ =~= td0.union(done));
            }
            i = i + 1;
        }
        proof {
            assert forall|t: Seq<char>| #[trigger] done.contains(t) <==> contributes(doc@, t) by {
                if done.contains(t) {
                    let j = choose|j: int| 0 <= j < i && entries@[j].0@ == t && entries@[j].1.original > 0;
                }
                if contributes(doc@, t) {
                    let j = choose|j: int| 0 <= j < entries@.len() && #[trigger] entries@[j].0@ == t;
                }
            }
            assert(done =~= Set::new(|t: Seq<char>| contributes(doc@, t)));
        }
    }
}

impl InMemoryIndex {
    /// The content of a stored document.
    pub fn get_doc(&self, index_name: &str, doc_id: &str) -> (r: Option<String>)
        ensures
            match r {
                Some(c) => self@.has_doc(index_name@, doc_id@) && c@ == self@.docs[index_name@][doc_id@].content,
                None => !self@.has_doc(index_name@, doc_id@),
            },
    {
        match self.docs.get(index_name) {
            Some(docs) => match docs.get(doc_id) {
                Some(d) => Some(d.content.clone()),
                None => None,
            },
            None => None,
        }
    }

    /// Stores `text` as document `doc_id` of the named index, replacing one
    /// stored under that id, and indexes its tokens when `index` holds; see
    /// `add_doc_spec`.
    pub fn add_doc(&mut self, index_name: &str, doc_id: &str, text: &str, index: bool)
        requires
            index ==> spec_tokenize(text@).len() < u32::MAX,
            fits_i64(old(self)@.total_of(index_name@) - old(self)@.stored_len(index_name@, doc_id@)),
            fits_i64(old(self)@.total_of(index_name@) - old(self)@.stored_len(index_name@, doc_id@) + if index {
                spec_tokenize(text@).len() as int
            } else {
                0
            }),
        ensures
            final(self)@ == old(self)@.add_doc_spec(index_name@, doc_id@, text@, index),
    {
        let ghost s0 = self@;
        let ghost idx = index_name@;
        let ghost d = doc_id@;
        let tokens = if index {
            tokenize(text)
        } else {
            Vec::new()
        };
        let ghost ts = token_views(tokens@);
        assert(ts == if index { spec_tokenize(text@) } else { Seq::<TokenSpec>::empty() });
        let (doc_data, original_terms) = build_doc(text, &tokens);
        let doc_len = doc_data.doc_len;
        match self.docs.remove(index_name) {
            Some(mut docs) => {
                match docs.remove(doc_id) {
                    Some(old_data) => {
                        self.docs.insert(index_name.to_owned(), docs);
                        let total = match self.total_lens.get(index_name) {
                            Some(v) => *v,
                            None => 0,
                        };
                        self.total_lens.insert(index_name.to_owned(), total - old_data.doc_len);
                        let ghost sa = self@;
                        assert(sa.docs =~= s0.docs.insert(idx, s0.docs[idx].remove(d)));
                        assert(sa.total_lens =~= s0.total_lens.insert(idx, (s0.total_of(idx) - old_data@.doc_len) as i64));
                        self.remove_doc_terms(index_name, doc_id, &old_data);
                    },
                    None => {
                        assert(docs@ =~= s0.docs[idx]);
                        self.docs.insert(index_name.to_owned(), docs);
                        assert(self@.docs =~= s0.docs);
                    },
                }
            },
            None => {
                assert(self@.docs =~= s0.docs);
            },
        }
        let ghost s1 = self@;
        self.post_doc(index_name, doc_id, &doc_data.term_freqs);
        let mut docs = match self.docs.remove(index_name) {
            Some(m) => m,
            None => StrMap::new(),
        };
        docs.insert(doc_id.to_owned(), doc_data);
        self.docs.insert(index_name.to_owned(), docs);
        let total = match self.total_lens.get(index_name) {
            Some(v) => *v,
            None => 0,
        };
        self.total_lens.insert(index_name.to_owned(), total + doc_len);
        let ghost s2 = self@;
        assert(s2.docs =~= s0.add_doc_spec(idx, d, text@, index).docs);
        self.ensure_original_terms(index_name, original_terms);
        let mut dirty = match self.dirty.remove(index_name) {
            Some(set) => set,
            None => StrSet::new(),
        };
        dirty.insert(doc_id.to_owned());
        self.dirty.insert(index_name.to_owned(), dirty);
        let ghost s3 = self@;
        match self.deleted.remove(index_name) {
            Some(mut deleted) => {
                deleted.remove(doc_id);
                self.deleted.insert(index_name.to_owned(), deleted);
            },
            None => {
                assert(self@.deleted =~= s3.deleted);
            },
        }
        assert(self@.dirty =~= s0.add_doc_spec(idx, d, text@, index).dirty);
        assert(self@.deleted =~= s0.add_doc_spec(idx, d, text@, index).deleted);
    }

    /// Hands out the changes recorded since the last call and forgets them:
    /// one record for each document marked dirty that is stored, and the
    /// documents marked deleted, by index name.
    pub fn take_dirty_and_deleted(&mut self) -> (r: (Vec<(String, String, String, i64)>, StrMap<StrSet>))
        ensures
            final(self)@ == (IndexView { dirty: Map::empty(), deleted: Map::empty(), ..old(self)@ }),
            r.1@ == old(self)@.deleted,
            record_views(r.0@).no_duplicates(),
            record_views(r.0@).to_set() == Set::new(
                |e: (Seq<char>, Seq<char>, Seq<char>, i64)| old(self)@.is_dirty_record(e),
            ),
    {
        let ghost s0 = self@;
        let mut dirty: StrMap<StrSet> = StrMap::new();
        std::mem::swap(&mut self.dirty, &mut dirty);
        let mut deleted: StrMap<StrSet> = StrMap::new();
        std::mem::swap(&mut self.deleted, &mut deleted);
        let mut out: Vec<(String, String, String, i64)> = Vec::new();
        let groups = dirty.entries();
        let ghost mut done: Set<Seq<char>> = Set::empty();
        assert(record_views(out@).to_set() =~= Set::new(
            |e: (Seq<char>, Seq<char>, Seq<char>, i64)| s0.is_dirty_record(e) && done.contains(e.0),
        ));
        let mut gi: usize = 0;
        while gi < groups.len()
            invariant
                gi <= groups@.len(),
                self@.docs == s0.docs,
                dirty@ == s0.dirty,
                forall|j: int| 0 <= j < groups@.len() ==> #[trigger] dirty@.contains_key(groups@[j].0@)
                    && dirty@[groups@[j].0@] == groups@[j].1@,
                forall|a: int, b: int| 0 <= a < b < groups@.len() ==> groups@[a].0@ != groups@[b].0@,
                forall|i: Seq<char>| #[trigger] done.contains(i) <==> exists|j: int| 0 <= j < gi && groups@[j].0@ == i,
                record_views(out@).no_duplicates(),
                record_views(out@).to_set() == Set::new(
                    |e: (Seq<char>, Seq<char>, Seq<char>, i64)| s0.is_dirty_record(e) && done.contains(e.0),
                ),
            decreases groups@.len() - gi,
        {
            let index_name = &groups[gi].0;
            let ids = &groups[gi].1;
            let ghost g = index_name@;
            proof {
                if done.contains(g) {
                    let j = choose|j: int| 0 <= j < gi && groups@[j].0@ == g;
                    assert(groups@[j].0@ != groups@[gi as int].0@);
                }
            }
            let ghost next = done.insert(g);
            let ghost target = Set::new(
                |e: (Seq<char>, Seq<char>, Seq<char>, i64)| s0.is_dirty_record(e) && next.contains(e.0),
            );
            match self.docs.get(index_name.as_str()) {
                Some(docs) => {
                    collect_dirty(index_name, ids, docs, &mut out);
                    assert(record_views(out@).to_set() =~= target);
                },
                None => {
                    assert(record_views(out@).to_set() =~= target);
                },
            }
            proof {
                done = next;
            }
            gi = gi + 1;
        }
        proof {
            assert forall|e: (Seq<char>, Seq<char>, Seq<char>, i64)| s0.is_dirty_record(e) implies #[trigger] done.contains(e.0) by {
                let j = choose|j: int| 0 <= j < groups@.len() && #[trigger] groups@[j].0@ == e.0;
            }
            assert(record_views(out@).to_set() =~= Set::new(
                |e: (Seq<char>, Seq<char>, Seq<char>, i64)| s0.is_dirty_record(e),
            ));
            assert(self@.dirty =~= Map::empty());
            assert(self@.deleted =~= Map::empty());
        }
        (out, deleted)
    }

    /// The character ranges of a stored document that the terms of `query`
    /// were found at, in order of start; none for a document not stored.
    pub fn get_matches(&self, index_name: &str, doc_id: &str, query: &str) -> (r: Vec<(u32, u32)>)
        ensures
            if self@.has_doc(index_name@, doc_id@) {
                stable_sorted_by_start(
                    r@,
                    raw_matches(self@.docs[index_name@][doc_id@].term_pos, spec_tokenize(query@)),
                )
            } else {
                r@.len() == 0
            },
            ({
                let ts = spec_tokenize(query@);
                let pos = self@.docs[index_name@][doc_id@].term_pos;
                self@.has_doc(index_name@, doc_id@) ==> forall|i: int, j: int|
                    0 <= i < ts.len() && pos.contains_key(ts[i].term) && 0 <= j < pos[ts[i].term].len() ==> r@.contains(
                        #[trigger] pos[ts[i].term][j],
                    )
            }),
    {
        let mut matches: Vec<(u32, u32)> = Vec::new();
        match self.docs.get(index_name) {
            Some(docs) => match docs.get(doc_id) {
                Some(doc_data) => {
                    let tokens = tokenize(query);
                    let ghost ts = token_views(tokens@);
                    let ghost pos = doc_data.term_pos@;
                    let mut i: usize = 0;
                    while i < tokens.len()
                        invariant
                            i <= tokens@.len(),
                            ts == token_views(tokens@),
                            pos == doc_data.term_pos@,
                            matches@ == raw_matches(pos, ts.subrange(0, i as int)),
                        decreases tokens@.len() - i,
                    {
                        assert(ts.subrange(0, i + 1).drop_last() =~= ts.subrange(0, i as int));
                        let ghost before = matches@;
                        match doc_data.term_pos.get(tokens[i].term.as_str()) {
                            Some(positions) => {
                                let mut j: usize = 0;
                                while j < positions.len()
                                    invariant
                                        j <= positions@.len(),
                                        matches@ == before + positions@.subrange(0, j as int),
                                    decreases positions@.len() - j,
                                {
                                    matches.push(positions[j]);
                                    assert(before + positions@.subrange(0, j + 1) =~= (before + positions@.subrange(0, j as int)).push(positions@[j as int]));
                                    j = j + 1;
                                }
                                assert(positions@.subrange(0, positions@.len() as int) =~= positions@);
                            },
                            None => {
                                assert(before + Seq::<(u32, u32)>::empty() =~= before);
                            },
                        }
                        i = i + 1;
                    }
                    assert(ts.subrange(0, tokens@.len() as int) =~= ts);
                },
                None => {},
            },
            None => {},
        }
        let r = sort_by_start(matches);
        proof {
            if self@.has_doc(index_name@, doc_id@) {
                lemma_matches_hold_every_query_term(
                    r@,
                    self@.docs[index_name@][doc_id@].term_pos,
                    spec_tokenize(query@),
                );
            }
        }
        r
    }

    /// What is saved of a named index: its documents, its dictionary and its
    /// trigram index (empty where it has none); nothing for a name with no
    /// documents map.
    pub fn get_snapshot_data(&self, index_name: &str) -> (r: Option<SnapshotData>)
        ensures
            match r {
                Some(snap) => {
                    &&& self@.docs.contains_key(index_name@)
                    &&& snap@.docs == self@.docs[index_name@]
                    &&& snap@.term_dict == get_or(self@.term_dict, index_name@, Set::empty())
                    &&& snap@.ngram_index == get_or(self@.ngram_index, index_name@, Map::empty())
                },
                None => !self@.docs.contains_key(index_name@),
            },
    {
        match self.docs.get(index_name) {
            Some(docs) => {
                let term_dict = match self.term_dict.get(index_name) {
                    Some(t) => t.duplicate(),
                    None => StrSet::new(),
                };
                let ngram_index = match self.ngram_index.get(index_name) {
                    Some(n) => n.duplicate(),
                    None => StrMap::new(),
                };
                let snap = SnapshotData { docs: docs.duplicate(), term_dict, ngram_index };
                assert(snap@.ngram_index =~= get_or(self@.ngram_index, index_name@, Map::empty()));
                Some(snap)
            },
            None => None,
        }
    }

    /// Removes a stored document; see `remove_doc_spec`.
    pub fn remove_doc(&mut self, index_name: &str, doc_id: &str)
        requires
            fits_i64(old(self)@.total_of(index_name@) - old(self)@.stored_len(index_name@, doc_id@)),
        ensures
            final(self)@ == old(self)@.remove_doc_spec(index_name@, doc_id@),
    {
        let ghost s0 = self@;
        let ghost idx = index_name@;
        let ghost d = doc_id@;
        let mut docs = match self.docs.remove(index_name) {
            Some(m) => m,
            None => {
                assert(self@.docs =~= s0.docs);
                return;
            },
        };
        match docs.remove(doc_id) {
            None => {
                assert(docs@ =~= s0.docs[idx]);
                self.docs.insert(index_name.to_owned(), docs);
                assert(self@.docs =~= s0.docs);
            },
            Some(old_data) => {
                self.docs.insert(index_name.to_owned(), docs);
                let total = match self.total_lens.get(index_name) {
                    Some(v) => *v,
                    None => 0,
                };
                self.total_lens.insert(index_name.to_owned(), total - old_data.doc_len);
                let ghost s1 = self@;
                assert(s1.docs =~= s0.docs.insert(idx, s0.docs[idx].remove(d)));
                assert(s1.total_lens =~= s0.total_lens.insert(idx, (s0.total_of(idx) - old_data@.doc_len) as i64));
                assert(s1 == IndexView {
                    docs: s0.docs.insert(idx, s0.docs[idx].remove(d)),
                    total_lens: s0.total_lens.insert(idx, (s0.total_of(idx) - old_data@.doc_len) as i64),
                    ..s0
                });
                self.remove_doc_terms(index_name, doc_id, &old_data);
                let ghost s2 = self@;
                let mut deleted = match self.deleted.remove(index_name) {
                    Some(set) => set,
                    None => StrSet::new(),
                };
                deleted.insert(doc_id.to_owned());
                self.deleted.insert(index_name.to_owned(), deleted);
                match self.dirty.remove(index_name) {
                    Some(mut dirty) => {
                        dirty.remove(doc_id);
                        self.dirty.insert(index_name.to_owned(), dirty);
                    },
                    None => {
                        assert(self@.dirty =~= s2.dirty);
                    },
                }
                assert(self@.deleted =~= s0.remove_doc_spec(idx, d).deleted);
                assert(self@.dirty =~= s0.remove_doc_spec(idx, d).dirty);
            },
        }
    }

    /// Records document `doc_id` with counts `freqs` in the postings of the
    /// named index; see `inverted_with_doc`.
    fn post_doc(&mut self, index_name: &str, doc_id: &str, freqs: &StrMap<TermFrequency>)
        ensures
            final(self)@ == old(self)@.post_doc_spec(index_name@, doc_id@, freqs@),
    {
        let ghost s0 = self@;
        let ghost d = doc_id@;
        let mut inverted = match self.inverted.remove(index_name) {
            Some(i) => i,
            None => StrMap::new(),
        };
        let ghost inv0 = inverted@;
        let ghost mid = self@;
        let entries = freqs.entries();
        let ghost mut done: Set<Seq<char>> = Set::empty();
        assert(inv0 =~= inverted_with_doc(inv0, d, freqs@.restrict(done)));
        let mut i: usize = 0;
        while i < entries.len()
            invariant
                i <= entries@.len(),
                d == doc_id@,
                self@ == mid,
                forall|t: Seq<char>| #[trigger] done.contains(t) <==> exists|j: int| 0 <= j < i && entries@[j].0@ == t,
                forall|j: int| 0 <= j < entries@.len() ==> #[trigger] freqs@.contains_key(entries@[j].0@)
                    && freqs@[entries@[j].0@] == entries@[j].1@,
                forall|a: int, b: int| 0 <= a < b < entries@.len() ==> entries@[a].0@ != entries@[b].0@,
                inverted@ == inverted_with_doc(inv0, d, freqs@.restrict(done)),
            decreases entries@.len() - i,
        {
            let term = &entries[i].0;
            let f = entries[i].1;
            let ghost t = term@;
            proof {
                if done.contains(t) {
                    let j = choose|j: int| 0 <= j < i && entries@[j].0@ == t;
                    assert(entries@[j].0@ != entries@[i as int].0@);
                }
            }
            let ghost next = done.insert(t);
            let ghost cur = inverted@;
            let found = inverted.remove(term.as_str());
            let TermPosting { mut original, mut pinyin_full, mut pinyin_initials } = match found {
                Some(e) => e,
                None => TermPosting::new(),
            };
            let ghost base = get_or(cur, t, PostingView::empty());
            if f.original > 0 {
                original.insert(doc_id.to_owned(), f.original as i64);
            } else {
                original.remove(doc_id);
            }
            if f.pinyin_full > 0 {
                pinyin_full.insert(doc_id.to_owned(), f.pinyin_full as i64);
            } else {
                pinyin_full.remove(doc_id);
            }
            if f.pinyin_initials > 0 {
                pinyin_initials.insert(doc_id.to_owned(), f.pinyin_initials as i64);
            } else {
                pinyin_initials.remove(doc_id);
            }
            let entry = TermPosting { original, pinyin_full, pinyin_initials };
            assert(entry@ == posting_with(base, d, f));
            inverted.insert(term.clone(), entry);
            proof {
                assert(freqs@.restrict(next) =~= freqs@.restrict(done).insert(t, f));
                assert(inverted@ =~= inverted_with_doc(inv0, d, freqs@.restrict(next))) by {
                    if done.contains(t) {
                    }
                }
                done = next;
            }
            i = i + 1;
        }
        proof {
            assert forall|t: Seq<char>| freqs@.contains_key(t) implies #[trigger] done.contains(t) by {
                let j = choose|j: int| 0 <= j < entries@.len() && #[trigger] entries@[j].0@ == t;
            }
            assert(freqs@.restrict(done) =~= freqs@);
        }
        self.inverted.insert(index_name.to_owned(), inverted);
        assert(self@.inverted =~= s0.post_doc_spec(index_name@, d, freqs@).inverted);
    }

    /// Rebuilds the dictionary and the trigram index of a named index from
    /// its documents; see `rebuilt_from`.
    pub(crate) fn rebuild_aux_indices(&mut self, index_name: &str)
        ensures
            final(self)@.rebuilt_from(old(self)@, index_name@),
    {
        let ghost s0 = self@;
        let docs = match self.docs.get(index_name) {
            Some(d) => d,
            None => {
                return;
            },
        };
        let mut td = StrSet::new();
        let mut ng: StrMap<Vec<String>> = StrMap::new();
        let entries = docs.entries();
        let ghost mut done: Set<Seq<char>> = Set::empty();
        assert(ngram_view(ng@) =~= Map::empty());
        assert(td@ =~= Set::new(|t: Seq<char>| exists|d: Seq<char>| done.contains(d) && docs@.contains_key(d) && #[trigger] contributes(docs@[d], t)));
        let mut i: usize = 0;
        while i < entries.len()
            invariant
                i <= entries@.len(),
                forall|j: int| 0 <= j < entries@.len() ==> #[trigger] docs@.contains_key(entries@[j].0@)
                    && docs@[entries@[j].0@] == entries@[j].1@,
                forall|d: Seq<char>| #[trigger] docs@.contains_key(d) ==> exists|j: int|
                    0 <= j < entries@.len() && #[trigger] entries@[j].0@ == d,
                forall|d: Seq<char>| #[trigger] done.contains(d) <==> exists|j: int| 0 <= j < i && entries@[j].0@ == d,
                td@ == Set::new(|t: Seq<char>| exists|d: Seq<char>| done.contains(d) && docs@.contains_key(d) && #[trigger] contributes(docs@[d], t)),
                lists_terms(ngram_view(ng@), td@),
            decreases entries@.len() - i,
        {
            let ghost before = td@;
            let ghost dn = entries@[i as int].0@;
            assert(docs@.contains_key(dn) && docs@[dn] == entries@[i as int].1@);
            add_contributed_terms(&entries[i].1, &mut td, &mut ng);
            proof {
                let next = done.insert(dn);
                assert forall|t: Seq<char>| td@.contains(t) <==> (exists|d: Seq<char>| next.contains(d) && docs@.contains_key(d) && #[trigger] contributes(docs@[d], t)) by {
                    if td@.contains(t) && !before.contains(t) {
                        assert(contributes(docs@[dn], t));
                    }
                }
                assert(td@ =~= Set::new(|t: Seq<char>| exists|d: Seq<char>| next.contains(d) && docs@.contains_key(d) && #[trigger] contributes(docs@[d], t)));
                done = next;
            }
            i = i + 1;
        }
        proof {
            assert(td@ =~= aux_terms(docs@)) by {
                assert forall|t: Seq<char>| aux_terms(docs@).contains(t) implies td@.contains(t) by {
                    let d = choose|d: Seq<char>| docs@.contains_key(d) && #[trigger] contributes(docs@[d], t);
                    let j = choose|j: int| 0 <= j < entries@.len() && #[trigger] entries@[j].0@ == d;
                    assert(done.contains(d));
                }
            }
        }
        let ghost ngv = ngram_view(ng@);
        self.term_dict.insert(index_name.to_owned(), td);
        self.ngram_index.insert(index_name.to_owned(), ng);
        assert(self@.ngram_index =~= s0.ngram_index.insert(index_name@, ngv));
    }

    /// Enters `terms` in the dictionary and the trigram index of the named
    /// index; see `ensure_terms_spec`.
    fn ensure_original_terms(&mut self, index_name: &str, terms: Vec<String>)
        ensures
            final(self)@ == old(self)@.ensure_terms_spec(index_name@, names(terms@)),
    {
        let ghost s0 = self@;
        let ghost ts = names(terms@);
        if terms.len() == 0 {
            return;
        }
        let mut td = match self.term_dict.remove(index_name) {
            Some(t) => t,
            None => StrSet::new(),
        };
        let mut ng = match self.ngram_index.remove(index_name) {
            Some(n) => n,
            None => StrMap::new(),
        };
        let ghost td0 = td@;
        let ghost ng0 = ngram_view(ng@);
        assert(ng0 =~= get_or(s0.ngram_index, index_name@, Map::empty()));
        let mut i: usize = 0;
        while i < terms.len()
            invariant
                i <= terms@.len(),
                ts == names(terms@),
                td@ == td0.union(ts.subrange(0, i as int).to_set()),
                ngram_view(ng@) == with_terms(ng0, ts.subrange(0, i as int)),
            decreases terms@.len() - i,
        {
            let ghost pre = ts.subrange(0, i as int);
            assert(ts.subrange(0, i + 1) =~= pre.push(ts[i as int]));
            assert(ts.subrange(0, i + 1).drop_last() =~= pre);
            td.insert(terms[i].clone());
            add_term_to_ngrams(&mut ng, terms[i].as_str());
            assert(td@ =~= td0.union(ts.subrange(0, i + 1).to_set())) by {
                pre.lemma_push_to_set_commute(ts[i as int]);
            }
            i = i + 1;
        }
        assert(ts.subrange(0, terms@.len() as int) =~= ts);
        self.term_dict.insert(index_name.to_owned(), td);
        self.ngram_index.insert(index_name.to_owned(), ng);
        assert(self@.term_dict =~= s0.ensure_terms_spec(index_name@, ts).term_dict);
        assert(self@.ngram_index =~= s0.ensure_terms_spec(index_name@, ts).ngram_index);
    }

    fn remove_doc_terms(&mut self, index_name: &str, doc_id: &str, doc_data: &DocData)
        ensures
            final(self)@ == old(self)@.drop_doc_terms(index_name@, doc_id@, doc_data.term_pos@.dom()),
    {
        let ghost s0 = self@;
        let ghost idx = index_name@;
        let ghost d = doc_id@;
        let mut inverted = match self.inverted.remove(index_name) {
            Some(i) => i,
            None => {
                assert(self@.inverted =~= s0.inverted);
                return;
            },
        };
        let ghost inv0 = inverted@;
        let mut td_opt = self.term_dict.remove(index_name);
        let ghost td0 = get_or(s0.term_dict, idx, Set::empty());
        let mut ng_opt = self.ngram_index.remove(index_name);
        let ghost ng0 = get_or(s0.ngram_index, idx, Map::empty());
        let ghost mid = self@;
        let keys = doc_data.term_pos.entries();
        let ghost mut done: Set<Seq<char>> = Set::empty();
        let mut i: usize = 0;
        while i < keys.len()
            invariant
                i <= keys@.len(),
                d == doc_id@,
                self@ == mid,
                forall|t: Seq<char>| #[trigger] done.contains(t) <==> exists|j: int| 0 <= j < i && keys@[j].0@ == t,
                forall|a: int, b: int| 0 <= a < b < keys@.len() ==> keys@[a].0@ != keys@[b].0@,
                inverted@ == inverted_without_doc(inv0, d, done),
                td_opt is Some <==> s0.term_dict.contains_key(idx),
                ng_opt is Some <==> s0.ngram_index.contains_key(idx),
                td_opt matches Some(td) ==> td@ == td0.difference(dropped_terms(inv0, d, done, td0)),
                ng_opt matches Some(ng) ==> ngram_view(ng@) == if td_opt is Some {
                    without_terms(ng0, dropped_terms(inv0, d, done, td0))
                } else {
                    ng0
                },
            decreases keys@.len() - i,
        {
            let term = &keys[i].0;
            let ghost t = term@;
            proof {
                if done.contains(t) {
                    let j = choose|j: int| 0 <= j < i && keys@[j].0@ == t;
                    assert(keys@[j].0@ != keys@[i as int].0@);
                }
            }
            assert(!done.contains(t));
            let ghost next = done.insert(t);
            let ghost cur_inv = inverted@;
            let ghost gone = dropped_terms(inv0, d, done, td0);
            let ghost gone2 = dropped_terms(inv0, d, next, td0);
            match inverted.remove(term.as_str()) {
                Some(found) => {
                    assert(found@ == inv0[t]);
                    let TermPosting { mut original, mut pinyin_full, mut pinyin_initials } = found;
                    original.remove(doc_id);
                    pinyin_full.remove(doc_id);
                    pinyin_initials.remove(doc_id);
                    let entry = TermPosting { original, pinyin_full, pinyin_initials };
                    assert(entry@ == posting_without(inv0[t], d));
                    let orig_empty = entry.original.is_empty();
                    if orig_empty {
                        match td_opt {
                            Some(ref mut td) => {
                                let was_there = td.remove(term.as_str());
                                if was_there {
                                    match ng_opt {
                                        Some(ref mut ng) => {
                                            proof {
                                                lemma_without_terms_insert(ng0, gone, t);
                                                assert(gone.insert(t) =~= gone2);
                                            }
                                            remove_term_from_ngrams(ng, term.as_str());
                                        },
                                        None => {},
                                    }
                                } else {
                                    assert(gone =~= gone2);
                                }
                                assert(td@ =~= td0.difference(gone2));
                            },
                            None => {},
                        }
                    } else {
                        assert(gone =~= gone2);
                    }
                    if !entry.is_empty() {
                        inverted.insert(term.clone(), entry);
                    }
                },
                None => {
                    assert(gone =~= gone2);
                },
            }
            assert(inverted@ =~= inverted_without_doc(inv0, d, next));
            proof {
                done = next;
            }
            i = i + 1;
        }
        assert(done =~= doc_data.term_pos@.dom());
        self.inverted.insert(index_name.to_owned(), inverted);
        match td_opt {
            Some(td) => {
                self.term_dict.insert(index_name.to_owned(), td);
            },
            None => {},
        }
        match ng_opt {
            Some(ng) => {
                self.ngram_index.insert(index_name.to_owned(), ng);
            },
            None => {},
        }
        assert(self@.inverted =~= s0.drop_doc_terms(idx, d, done).inverted);
        assert(self@.term_dict =~= s0.drop_doc_terms(idx, d, done).term_dict);
        assert(self@.ngram_index =~= s0.drop_doc_terms(idx, d, done).ngram_index);
    }
}

} // verus!
