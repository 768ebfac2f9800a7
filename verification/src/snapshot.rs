//! Restoring a named index from a saved snapshot.
use vstd::prelude::*;
use crate::strmap::StrMap;
use crate::types::{DocData, DocView, IndexView, InMemoryIndex, PostingView, SnapshotData, SnapshotView, TermPosting};
use crate::index::{fits_i64, get_or, lemma_sum_lens_empty, lemma_sum_lens_insert, sum_lens};

verus! {

/// The posting of term `t` over the documents `docs` of a snapshot: a
/// document with positions for `t` is listed with its count as written where
/// it has counts for `t` and that count is positive, and with its number of
/// positions where it has no counts for `t`; under full pinyin and initials
/// with those counts where positive.
pub open spec fn snapshot_posting(docs: Map<Seq<char>, DocView>, t: Seq<char>) -> PostingView {
    PostingView {
        original: Map::new(
            |d: Seq<char>|
                docs.contains_key(d) && docs[d].term_pos.contains_key(t) && (docs[d].term_freqs.contains_key(t)
                    ==> docs[d].term_freqs[t].original > 0),
            |d: Seq<char>|
                if docs[d].term_freqs.contains_key(t) {
                    docs[d].term_freqs[t].original as i64
                } else {
                    docs[d].term_pos[t].len() as i64
                },
        ),
        pinyin_full: Map::new(
            |d: Seq<char>|
                docs.contains_key(d) && docs[d].term_pos.contains_key(t) && docs[d].term_freqs.contains_key(t)
                    && docs[d].term_freqs[t].pinyin_full > 0,
            |d: Seq<char>| docs[d].term_freqs[t].pinyin_full as i64,
        ),
        pinyin_initials: Map::new(
            |d: Seq<char>|
                docs.contains_key(d) && docs[d].term_pos.contains_key(t) && docs[d].term_freqs.contains_key(t)
                    && docs[d].term_freqs[t].pinyin_initials > 0,
            |d: Seq<char>| docs[d].term_freqs[t].pinyin_initials as i64,
        ),
    }
}

/// The postings rebuilt from the documents of a snapshot: every term that
/// some document has positions for gets its posting (possibly empty).
pub open spec fn snapshot_inverted(docs: Map<Seq<char>, DocView>) -> Map<Seq<char>, PostingView> {
    Map::new(
        |t: Seq<char>| exists|d: Seq<char>| docs.contains_key(d) && #[trigger] docs[d].term_pos.contains_key(t),
        |t: Seq<char>| snapshot_posting(docs, t),
    )
}

/// The sum of the document lengths, in the order given.
pub open spec fn len_sum(es: Seq<(Seq<char>, DocView)>) -> int
    decreases es.len(),
{
    if es.len() == 0 {
        0
    } else {
        len_sum(es.drop_last()) + es.last().1.doc_len
    }
}

/// Every partial sum of the document lengths, in the order given, fits in
/// an `i64`.
pub open spec fn sums_fit(es: Seq<(Seq<char>, DocView)>) -> bool {
    forall|k: int| 0 <= k <= es.len() ==> fits_i64(#[trigger] len_sum(es.take(k)))
}

/// A document with its positions cut down to the terms of `q`.
pub open spec fn with_terms_of(doc: DocView, q: Set<Seq<char>>) -> DocView {
    DocView { term_pos: doc.term_pos.restrict(q), ..doc }
}

/// A posting with document `d` of a snapshot entered for term `t`.
pub open spec fn posting_plus(p: PostingView, d: Seq<char>, doc: DocView, t: Seq<char>) -> PostingView {
    if doc.term_freqs.contains_key(t) {
        let f = doc.term_freqs[t];
        PostingView {
            original: if f.original > 0 { p.original.insert(d, f.original as i64) } else { p.original },
            pinyin_full: if f.pinyin_full > 0 { p.pinyin_full.insert(d, f.pinyin_full as i64) } else { p.pinyin_full },
            pinyin_initials: if f.pinyin_initials > 0 {
                p.pinyin_initials.insert(d, f.pinyin_initials as i64)
            } else {
                p.pinyin_initials
            },
        }
    } else {
        PostingView { original: p.original.insert(d, doc.term_pos[t].len() as i64), ..p }
    }
}

proof fn lemma_snapshot_step(
    docs: Map<Seq<char>, DocView>,
    d: Seq<char>,
    doc: DocView,
    q: Set<Seq<char>>,
    t: Seq<char>,
)
    requires
        !docs.contains_key(d),
        !q.contains(t),
        doc.term_pos.contains_key(t),
    ensures
        ({
            let before = snapshot_inverted(docs.insert(d, with_terms_of(doc, q)));
            snapshot_inverted(docs.insert(d, with_terms_of(doc, q.insert(t)))) == before.insert(
                t,
                posting_plus(get_or(before, t, PostingView::empty()), d, doc, t),
            )
        }),
{
    let da = docs.insert(d, with_terms_of(doc, q));
    let db = docs.insert(d, with_terms_of(doc, q.insert(t)));
    let before = snapshot_inverted(da);
    let after = snapshot_inverted(db);
    let base = get_or(before, t, PostingView::empty());
    let expected = before.insert(t, posting_plus(base, d, doc, t));
    assert(db[d].term_pos.contains_key(t));
    assert forall|u: Seq<char>| #![trigger after.contains_key(u)] u != t implies
        (after.contains_key(u) == before.contains_key(u)) && (after.contains_key(u) ==> after[u] == before[u]) by {
        assert forall|e: Seq<char>| #![trigger db[e]] db.contains_key(e) && db[e].term_pos.contains_key(u)
            <==> da.contains_key(e) && da[e].term_pos.contains_key(u) by {
            if e == d {
            }
        }
        if after.contains_key(u) {
            let e = choose|e: Seq<char>| db.contains_key(e) && #[trigger] db[e].term_pos.contains_key(u);
            assert(da.contains_key(e) && da[e].term_pos.contains_key(u));
        }
        if before.contains_key(u) {
            let e = choose|e: Seq<char>| da.contains_key(e) && #[trigger] da[e].term_pos.contains_key(u);
            assert(db.contains_key(e) && db[e].term_pos.contains_key(u));
        }
        assert(snapshot_posting(db, u).original =~= snapshot_posting(da, u).original);
        assert(snapshot_posting(db, u).pinyin_full =~= snapshot_posting(da, u).pinyin_full);
        assert(snapshot_posting(db, u).pinyin_initials =~= snapshot_posting(da, u).pinyin_initials);
    }
    assert(after.contains_key(t));
    assert(!da[d].term_pos.contains_key(t));
    if before.contains_key(t) {
        assert(base == snapshot_posting(da, t));
    } else {
        assert(snapshot_posting(da, t).original =~= Map::empty());
        assert(snapshot_posting(da, t).pinyin_full =~= Map::empty());
        assert(snapshot_posting(da, t).pinyin_initials =~= Map::empty());
        assert forall|e: Seq<char>| da.contains_key(e) implies !(#[trigger] da[e].term_pos.contains_key(t)) by {}
    }
    assert(base == snapshot_posting(da, t)) by {
        if !before.contains_key(t) {
            assert(snapshot_posting(da, t).original =~= Map::empty());
            assert(snapshot_posting(da, t).pinyin_full =~= Map::empty());
            assert(snapshot_posting(da, t).pinyin_initials =~= Map::empty());
        }
    }
    assert(snapshot_posting(db, t).original =~= posting_plus(base, d, doc, t).original);
    assert(snapshot_posting(db, t).pinyin_full =~= posting_plus(base, d, doc, t).pinyin_full);
    assert(snapshot_posting(db, t).pinyin_initials =~= posting_plus(base, d, doc, t).pinyin_initials);
    assert(after =~= expected);
}

proof fn lemma_snapshot_empty_doc(docs: Map<Seq<char>, DocView>, d: Seq<char>, doc: DocView)
    requires
        !docs.contains_key(d),
    ensures
        snapshot_inverted(docs.insert(d, with_terms_of(doc, Set::empty()))) == snapshot_inverted(docs),
{
    let da = docs.insert(d, with_terms_of(doc, Set::empty()));
    assert(da[d].term_pos =~= Map::empty());
    let a = snapshot_inverted(da);
    let b = snapshot_inverted(docs);
    assert forall|u: Seq<char>| #![trigger a.contains_key(u)]
        (a.contains_key(u) == b.contains_key(u)) && (a.contains_key(u) ==> a[u] == b[u]) by {
        if a.contains_key(u) {
            let e = choose|e: Seq<char>| da.contains_key(e) && #[trigger] da[e].term_pos.contains_key(u);
            assert(docs.contains_key(e) && docs[e].term_pos.contains_key(u));
        }
        if b.contains_key(u) {
            let e = choose|e: Seq<char>| docs.contains_key(e) && #[trigger] docs[e].term_pos.contains_key(u);
            assert(da.contains_key(e) && da[e].term_pos.contains_key(u));
        }
        assert(snapshot_posting(da, u).original =~= snapshot_posting(docs, u).original);
        assert(snapshot_posting(da, u).pinyin_full =~= snapshot_posting(docs, u).pinyin_full);
        assert(snapshot_posting(da, u).pinyin_initials =~= snapshot_posting(docs, u).pinyin_initials);
    }
    assert(a =~= b);
}

impl IndexView {
    /// Whether `self` is `old` with the named index `idx` restored from the
    /// snapshot `snap`: the documents are the snapshot's, the postings are
    /// rebuilt from them (see `snapshot_inverted`), the total is the sum of
    /// their lengths; the dictionary and the trigram index are the
    /// snapshot's, or rebuilt from the documents (see `rebuilt_from`) where
    /// the snapshot's dictionary or trigram index is empty.
    pub open spec fn loaded_from(self, old: IndexView, idx: Seq<char>, snap: SnapshotView) -> bool {
        let base = IndexView {
            docs: old.docs.insert(idx, snap.docs),
            inverted: old.inverted.insert(idx, snapshot_inverted(snap.docs)),
            total_lens: old.total_lens.insert(idx, sum_lens(snap.docs) as i64),
            ..old
        };
        if snap.term_dict == Set::<Seq<char>>::empty() || snap.ngram_index == Map::<Seq<char>, Seq<Seq<char>>>::empty() {
            self.rebuilt_from(base, idx)
        } else {
            self == IndexView {
                term_dict: base.term_dict.insert(idx, snap.term_dict),
                ngram_index: base.ngram_index.insert(idx, snap.ngram_index),
                ..base
            }
        }
    }
}

impl InMemoryIndex {
    /// Restores a named index from a snapshot; see `loaded_from`.
    pub fn load_snapshot(&mut self, index_name: &str, snapshot: SnapshotData)
        requires
            sums_fit(snapshot.docs.spec_entries()),
        ensures
            final(self)@.loaded_from(old(self)@, index_name@, snapshot@),
    {
        let ghost s0 = self@;
        let ghost snap = snapshot@;
        let ghost es = snapshot.docs.spec_entries();
        let SnapshotData { docs: snap_docs, term_dict, ngram_index } = snapshot;
        let ghost sd = snap_docs@;
        let mut inverted: StrMap<TermPosting> = StrMap::new();
        let mut total: i64 = 0;
        let entries = snap_docs.entries();
        let ghost mut done: Set<Seq<char>> = Set::empty();
        assert(sd.restrict(done) =~= Map::empty());
        proof {
            lemma_sum_lens_empty();
        }
        assert(inverted@ =~= snapshot_inverted(sd.restrict(done)));
        let mut i: usize = 0;
        while i < entries.len()
            invariant
                i <= entries@.len(),
                sd == snap_docs@,
                entries@.map_values(|e: (String, DocData)| (e.0@, e.1@)) == es,
                sums_fit(es),
                forall|j: int| #![trigger entries@[j]] 0 <= j < entries@.len() ==> sd.contains_key(entries@[j].0@)
                    && sd[entries@[j].0@] == entries@[j].1@,
                forall|a: int, b: int| 0 <= a < b < entries@.len() ==> entries@[a].0@ != entries@[b].0@,
                forall|e: Seq<char>| #[trigger] done.contains(e) <==> exists|j: int| 0 <= j < i && entries@[j].0@ == e,
                total as int == len_sum(es.take(i as int)),
                total as int == sum_lens(sd.restrict(done)),
                sd.dom().finite(),
                inverted@ == snapshot_inverted(sd.restrict(done)),
            decreases entries@.len() - i,
        {
            let doc_id = &entries[i].0;
            let doc = &entries[i].1;
            let ghost d = doc_id@;
            proof {
                if done.contains(d) {
                    let j = choose|j: int| 0 <= j < i && entries@[j].0@ == d;
                    assert(entries@[j].0@ != entries@[i as int].0@);
                }
                assert(es.take(i + 1).drop_last() =~= es.take(i as int));
                assert(es[i as int] == (d, doc@));
                assert(fits_i64(len_sum(es.take(i + 1))));
            }
            total = total + doc.doc_len;
            let ghost dd = sd.restrict(done);
            proof {
                lemma_snapshot_empty_doc(dd, d, doc@);
                assert(dd.dom() =~= sd.dom().intersect(done));
                lemma_sum_lens_insert(dd, d, doc@);
            }
            let terms = doc.term_pos.entries();
            let ghost mut q: Set<Seq<char>> = Set::empty();
            let mut k: usize = 0;
            while k < terms.len()
                invariant
                    k <= terms@.len(),
                    !dd.contains_key(d),
                    d == doc_id@,
                    forall|j: int| #![trigger terms@[j]] 0 <= j < terms@.len() ==> doc@.term_pos.contains_key(terms@[j].0@)
                        && doc@.term_pos[terms@[j].0@] == terms@[j].1@,
                    forall|a: int, b: int| 0 <= a < b < terms@.len() ==> terms@[a].0@ != terms@[b].0@,
                    forall|e: Seq<char>| #[trigger] q.contains(e) <==> exists|j: int| 0 <= j < k && terms@[j].0@ == e,
                    inverted@ == snapshot_inverted(dd.insert(d, with_terms_of(doc@, q))),
                decreases terms@.len() - k,
            {
                let term = &terms[k].0;
                let positions = &terms[k].1;
                let ghost t = term@;
                proof {
                    if q.contains(t) {
                        let j = choose|j: int| 0 <= j < k && terms@[j].0@ == t;
                        assert(terms@[j].0@ != terms@[k as int].0@);
                    }
                    assert(doc@.term_pos.contains_key(t) && doc@.term_pos[t] == positions@);
                    lemma_snapshot_step(dd, d, doc@, q, t);
                }
                let ghost cur = inverted@;
                let TermPosting { mut original, mut pinyin_full, mut pinyin_initials } = match inverted.remove(term.as_str()) {
                    Some(e) => e,
                    None => TermPosting::new(),
                };
                let ghost base = get_or(cur, t, PostingView::empty());
                match doc.term_freqs.get(term.as_str()) {
                    Some(freqs) => {
                        if freqs.original > 0 {
                            original.insert(doc_id.clone(), freqs.original as i64);
                        }
                        if freqs.pinyin_full > 0 {
                            pinyin_full.insert(doc_id.clone(), freqs.pinyin_full as i64);
                        }
                        if freqs.pinyin_initials > 0 {
                            pinyin_initials.insert(doc_id.clone(), freqs.pinyin_initials as i64);
                        }
                    },
                    None => {
                        original.insert(doc_id.clone(), positions.len() as i64);
                    },
                }
                let entry = TermPosting { original, pinyin_full, pinyin_initials };
                assert(entry@ == posting_plus(base, d, doc@, t));
                inverted.insert(term.clone(), entry);
                proof {
                    q = q.insert(t);
                }
                k = k + 1;
            }
            proof {
                assert forall|e: Seq<char>| doc@.term_pos.contains_key(e) implies #[trigger] q.contains(e) by {
                    let j = choose|j: int| 0 <= j < terms@.len() && #[trigger] terms@[j].0@ == e;
                    assert(terms@[j].0@ == e);
                }
                assert(with_terms_of(doc@, q).term_pos =~= doc@.term_pos);
                assert(with_terms_of(doc@, q) == doc@);
                assert(dd.insert(d, doc@) =~= sd.restrict(done.insert(d)));
                done = done.insert(d);
            }
            i = i + 1;
        }
        proof {
            assert(es.take(entries@.len() as int) =~= es);
            assert forall|e: Seq<char>| sd.contains_key(e) implies #[trigger] done.contains(e) by {
                let j = choose|j: int| 0 <= j < entries@.len() && #[trigger] entries@[j].0@ == e;
                assert(entries@[j].0@ == e);
            }
            assert(sd.restrict(done) =~= sd);
        }
        let ghost inv_final = inverted@;
        self.docs.insert(index_name.to_owned(), snap_docs);
        self.inverted.insert(index_name.to_owned(), inverted);
        self.total_lens.insert(index_name.to_owned(), total);
        let ghost base = self@;
        assert(base == IndexView {
            docs: s0.docs.insert(index_name@, snap.docs),
            inverted: s0.inverted.insert(index_name@, snapshot_inverted(snap.docs)),
            total_lens: s0.total_lens.insert(index_name@, sum_lens(snap.docs) as i64),
            ..s0
        });
        proof {
            if snap.ngram_index == Map::<Seq<char>, Seq<Seq<char>>>::empty() {
                assert(ngram_index@.dom() =~= snap.ngram_index.dom());
                assert(ngram_index@ =~= Map::<Seq<char>, Seq<String>>::empty());
            }
            if ngram_index@ == Map::<Seq<char>, Seq<String>>::empty() {
                assert(snap.ngram_index =~= Map::<Seq<char>, Seq<Seq<char>>>::empty());
            }
        }
        if term_dict.is_empty() || ngram_index.is_empty() {
            self.rebuild_aux_indices(index_name);
        } else {
            let ghost ngv = snap.ngram_index;
            self.term_dict.insert(index_name.to_owned(), term_dict);
            self.ngram_index.insert(index_name.to_owned(), ngram_index);
            assert(self@.ngram_index =~= base.ngram_index.insert(index_name@, ngv));
        }
    }
}

} // verus!
