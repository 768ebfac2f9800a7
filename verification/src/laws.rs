//! Properties of the index that relate its operations.
use vstd::prelude::*;
use crate::docbuild::{
    counted, lemma_build_freqs_positive, build_pos, doc_from_tokens, first_terms, full_form, initials_form, lemma_build_keys, lemma_first_terms_counted, push_pos, span,
};
use crate::fuzzy::{
    lists_terms, count_in, lemma_count_contains, lemma_count_filter, lemma_count_push, kept_under, list_or_empty, other_than, touched, with_term, with_term_on, without_term, without_term_on, without_terms,
};
use crate::index::{
    lemma_sum_lens_empty, lemma_sum_lens_insert, lemma_sum_lens_remove, sum_lens, aux_terms, contributes, dropped_terms, fits_i64, get_or, inverted_with_doc, inverted_without_doc, posting_with,
    posting_without, raw_matches, set_count, with_terms,
};
use crate::search::{stages_for, PostingSelector, SearchStage};
use crate::highlight::{stable_sorted_by_start, starts_at};
use crate::snapshot::{snapshot_inverted, snapshot_posting};
use crate::text::{spec_tokenize, trigrams, TokenSpec};
use crate::types::{SearchMode, DocView, IndexView, PostingView, SnapshotView, TermFrequency};

verus! {

/// A document reads back as it was written: after `add_doc` the document is
/// stored with the given text as its content and its number of tokens as its
/// length.
pub proof fn lemma_add_then_get(s: IndexView, idx: Seq<char>, d: Seq<char>, text: Seq<char>, index: bool)
    ensures
        ({
            let t = s.add_doc_spec(idx, d, text, index);
            &&& t.has_doc(idx, d)
            &&& t.docs[idx][d].content == text
            &&& t.docs[idx][d].doc_len == (if index { spec_tokenize(text).len() } else { 0 }) as i64
        }),
{
}

/// Adding a document marks it dirty and not deleted.
pub proof fn lemma_add_marks_dirty(s: IndexView, idx: Seq<char>, d: Seq<char>, text: Seq<char>, index: bool)
    ensures
        ({
            let t = s.add_doc_spec(idx, d, text, index);
            &&& t.dirty.contains_key(idx) && t.dirty[idx].contains(d)
            &&& !(t.deleted.contains_key(idx) && t.deleted[idx].contains(d))
        }),
{
}

/// After `remove_doc` the document is no longer stored; a stored document is
/// marked deleted and not dirty.
pub proof fn lemma_remove_then_absent(s: IndexView, idx: Seq<char>, d: Seq<char>)
    ensures
        !s.remove_doc_spec(idx, d).has_doc(idx, d),
        s.has_doc(idx, d) ==> {
            let t = s.remove_doc_spec(idx, d);
            &&& t.deleted.contains_key(idx) && t.deleted[idx].contains(d)
            &&& !(t.dirty.contains_key(idx) && t.dirty[idx].contains(d))
        },
{
}

/// Removing a document twice is removing it once; removing a document that
/// is not stored changes nothing.
pub proof fn lemma_remove_idempotent(s: IndexView, idx: Seq<char>, d: Seq<char>)
    ensures
        s.remove_doc_spec(idx, d).remove_doc_spec(idx, d) == s.remove_doc_spec(idx, d),
        !s.has_doc(idx, d) ==> s.remove_doc_spec(idx, d) == s,
{
    lemma_remove_then_absent(s, idx, d);
}

/// The recorded total follows the lengths: `add_doc` takes away the length
/// of the document it replaces and adds the new one's; `remove_doc` takes
/// away the removed one's.
pub proof fn lemma_total_follows_lengths(s: IndexView, idx: Seq<char>, d: Seq<char>, text: Seq<char>, index: bool)
    requires
        index ==> spec_tokenize(text).len() < u32::MAX,
        fits_i64(s.total_of(idx) - s.stored_len(idx, d)),
        fits_i64(s.total_of(idx) - s.stored_len(idx, d) + if index { spec_tokenize(text).len() as int } else { 0 }),
    ensures
        s.add_doc_spec(idx, d, text, index).total_of(idx) == s.total_of(idx) - s.stored_len(idx, d) + if index {
            spec_tokenize(text).len() as int
        } else {
            0
        },
        s.remove_doc_spec(idx, d).total_of(idx) == s.total_of(idx) - s.stored_len(idx, d),
{
}

pub open spec fn docs_of(s: IndexView, idx: Seq<char>) -> Map<Seq<char>, DocView> {
    get_or(s.docs, idx, Map::empty())
}

pub open spec fn inv_of(s: IndexView, idx: Seq<char>) -> Map<Seq<char>, PostingView> {
    get_or(s.inverted, idx, Map::empty())
}

pub open spec fn dict_of(s: IndexView, idx: Seq<char>) -> Set<Seq<char>> {
    get_or(s.term_dict, idx, Set::empty())
}

pub open spec fn grams_of(s: IndexView, idx: Seq<char>) -> Map<Seq<char>, Seq<Seq<char>>> {
    get_or(s.ngram_index, idx, Map::empty())
}

/// One of the three counts of a term in a document.
pub open spec fn sel_count(f: TermFrequency, sel: PostingSelector) -> u32 {
    match sel {
        PostingSelector::Original => f.original,
        PostingSelector::PinyinFull => f.pinyin_full,
        PostingSelector::PinyinInitials => f.pinyin_initials,
    }
}

/// The count of term `t` in document `d` of `docs` (0 where either is
/// missing).
pub open spec fn count_of(docs: Map<Seq<char>, DocView>, d: Seq<char>, t: Seq<char>, sel: PostingSelector) -> u32 {
    if docs.contains_key(d) && docs[d].term_freqs.contains_key(t) {
        sel_count(docs[d].term_freqs[t], sel)
    } else {
        0
    }
}

/// A posting list of term `t` (empty where `t` has no posting).
pub open spec fn listed_in(inv: Map<Seq<char>, PostingView>, t: Seq<char>, sel: PostingSelector) -> Map<Seq<char>, i64> {
    if inv.contains_key(t) {
        sel.pick(inv[t])
    } else {
        Map::empty()
    }
}

/// The postings of a named index say what its documents hold: a document is
/// in a posting list of a term just when it counts the term that way, with
/// that count; and each document counts just the terms it has positions for.
pub open spec fn postings_agree(s: IndexView, idx: Seq<char>) -> bool {
    let docs = docs_of(s, idx);
    let inv = inv_of(s, idx);
    &&& forall|d: Seq<char>| #[trigger] docs.contains_key(d) ==> docs[d].term_freqs.dom() == docs[d].term_pos.dom()
    &&& forall|t: Seq<char>, d: Seq<char>, sel: PostingSelector|
        #![trigger listed_in(inv, t, sel).contains_key(d)]
        #![trigger count_of(docs, d, t, sel)]
        (listed_in(inv, t, sel).contains_key(d) <==> count_of(docs, d, t, sel) > 0) && (listed_in(inv, t, sel).contains_key(d)
            ==> listed_in(inv, t, sel)[d] == count_of(docs, d, t, sel) as i64)
}

/// The dictionary of a named index holds just the terms that some posting
/// lists as written.
pub open spec fn dict_agrees(s: IndexView, idx: Seq<char>) -> bool {
    forall|t: Seq<char>| #[trigger] dict_of(s, idx).contains(t) <==> listed_in(inv_of(s, idx), t, PostingSelector::Original)
        != Map::<Seq<char>, i64>::empty()
}

/// Every term in a trigram list of a named index is in its dictionary, has
/// three characters or more, and has that trigram.
pub open spec fn grams_agree(s: IndexView, idx: Seq<char>) -> bool {
    forall|g: Seq<char>, t: Seq<char>|
        #![trigger grams_of(s, idx)[g].contains(t)]
        grams_of(s, idx).contains_key(g) && grams_of(s, idx)[g].contains(t) ==> dict_of(s, idx).contains(t) && t.len() >= 3
            && trigrams(t).contains(g)
}

/// The postings, the dictionary and the trigram lists of a named index
/// agree with its documents.
pub open spec fn agrees(s: IndexView, idx: Seq<char>) -> bool {
    &&& postings_agree(s, idx)
    &&& dict_agrees(s, idx)
    &&& grams_agree(s, idx)
}

/// Every count a document records is positive in one of its three forms,
/// and no posting is empty.
pub open spec fn postings_whole(s: IndexView, idx: Seq<char>) -> bool {
    &&& forall|d: Seq<char>, t: Seq<char>|
        #![trigger docs_of(s, idx)[d].term_freqs.contains_key(t)]
        docs_of(s, idx).contains_key(d) && docs_of(s, idx)[d].term_freqs.contains_key(t) ==> counted(
            docs_of(s, idx)[d].term_freqs[t],
        )
    &&& forall|t: Seq<char>| #[trigger] inv_of(s, idx).contains_key(t) ==> !inv_of(s, idx)[t].is_empty()
}

/// Each term of `terms` of three characters or more is listed exactly once
/// under each of its trigrams.
pub open spec fn listed_once(ng: Map<Seq<char>, Seq<Seq<char>>>, terms: Set<Seq<char>>) -> bool {
    forall|t: Seq<char>, g: Seq<char>|
        #![trigger terms.contains(t), trigrams(t).contains(g)]
        terms.contains(t) && t.len() >= 3 && trigrams(t).contains(g) ==> ng.contains_key(g) && count_in(ng[g], t) == 1
}

/// Every term listed in the trigram index is one of `terms`.
pub open spec fn listed_among(ng: Map<Seq<char>, Seq<Seq<char>>>, terms: Set<Seq<char>>) -> bool {
    forall|g: Seq<char>, t: Seq<char>| #![trigger ng[g].contains(t)] ng.contains_key(g) && ng[g].contains(t) ==> terms.contains(t)
}

/// No trigram has an empty list.
pub open spec fn lists_nonempty(ng: Map<Seq<char>, Seq<Seq<char>>>) -> bool {
    forall|g: Seq<char>| #[trigger] ng.contains_key(g) ==> ng[g].len() > 0
}

/// Each term of the dictionary of three characters or more is listed exactly
/// once under each of its trigrams, and no trigram has an empty list.
pub open spec fn grams_exact(s: IndexView, idx: Seq<char>) -> bool {
    &&& listed_once(grams_of(s, idx), dict_of(s, idx))
    &&& lists_nonempty(grams_of(s, idx))
}

/// The auxiliary structures of a named index agree with its documents:
/// the postings mirror the documents' counts and hold no empty entry, the
/// dictionary holds the terms some document holds as written, and the
/// trigram index lists each of them once under each of its trigrams and
/// nothing else.
pub open spec fn consistent(s: IndexView, idx: Seq<char>) -> bool {
    &&& agrees(s, idx)
    &&& postings_whole(s, idx)
    &&& grams_exact(s, idx)
}

/// The state after a stored document is taken out of the documents and the
/// postings, as `add_doc` and `remove_doc` both do.
pub open spec fn without_doc(s: IndexView, idx: Seq<char>, d: Seq<char>) -> IndexView {
    let old = s.docs[idx][d];
    IndexView {
        docs: s.docs.insert(idx, s.docs[idx].remove(d)),
        total_lens: s.total_lens.insert(idx, (s.total_of(idx) - old.doc_len) as i64),
        ..s
    }.drop_doc_terms(idx, d, old.term_pos.dom())
}

proof fn lemma_listed_without(inv: Map<Seq<char>, PostingView>, d: Seq<char>, k: Set<Seq<char>>, t: Seq<char>, sel: PostingSelector)
    requires
        !k.contains(t) ==> !listed_in(inv, t, sel).contains_key(d),
    ensures
        listed_in(inverted_without_doc(inv, d, k), t, sel) == listed_in(inv, t, sel).remove(d),
{
    let inv1 = inverted_without_doc(inv, d, k);
    if k.contains(t) && inv.contains_key(t) {
        let p = posting_without(inv[t], d);
        if p.is_empty() {
            assert(listed_in(inv, t, sel).remove(d) =~= sel.pick(p));
        }
    } else if !inv.contains_key(t) {
        assert(listed_in(inv, t, sel).remove(d) =~= Map::<Seq<char>, i64>::empty());
    } else {
        assert(listed_in(inv, t, sel).remove(d) =~= listed_in(inv, t, sel));
    }
}

/// Taking a stored document out keeps a consistent named index consistent,
/// and leaves the document in no posting list.
/// Taking a stored document out keeps the postings of a named index in
/// agreement with its documents; every posting list loses just that
/// document.
proof fn lemma_without_doc_postings(s: IndexView, idx: Seq<char>, d: Seq<char>)
    requires
        s.has_doc(idx, d),
        postings_agree(s, idx),
    ensures
        postings_agree(without_doc(s, idx, d), idx),
        forall|t: Seq<char>, sel: PostingSelector| #[trigger] listed_in(inv_of(without_doc(s, idx, d), idx), t, sel)
            == listed_in(inv_of(s, idx), t, sel).remove(d),
        docs_of(without_doc(s, idx, d), idx) == docs_of(s, idx).remove(d),
{
    let s1 = without_doc(s, idx, d);
    let docs = docs_of(s, idx);
    let docs1 = docs_of(s1, idx);
    let inv = inv_of(s, idx);
    let inv1 = inv_of(s1, idx);
    let o = docs[d];
    let k = o.term_pos.dom();
    assert(docs1 =~= docs.remove(d));
    // every posting loses exactly `d`
    assert forall|t: Seq<char>, sel: PostingSelector| #[trigger] listed_in(inv1, t, sel) == listed_in(inv, t, sel).remove(d) by {
        if !k.contains(t) && listed_in(inv, t, sel).contains_key(d) {
            assert(count_of(docs, d, t, sel) > 0);
            assert(o.term_freqs.dom().subset_of(k));
        }
        if s.inverted.contains_key(idx) {
            lemma_listed_without(inv, d, k, t, sel);
        } else {
            assert(listed_in(inv, t, sel) =~= Map::<Seq<char>, i64>::empty());
            assert(listed_in(inv, t, sel).remove(d) =~= Map::<Seq<char>, i64>::empty());
        }
    }
    assert(postings_agree(s1, idx)) by {
        assert forall|t: Seq<char>, e: Seq<char>, sel: PostingSelector|
            #![trigger listed_in(inv1, t, sel).contains_key(e)]
            #![trigger count_of(docs1, e, t, sel)]
            (listed_in(inv1, t, sel).contains_key(e) <==> count_of(docs1, e, t, sel) > 0) && (listed_in(inv1, t, sel).contains_key(e)
                ==> listed_in(inv1, t, sel)[e] == count_of(docs1, e, t, sel) as i64) by {
            assert(listed_in(inv1, t, sel) == listed_in(inv, t, sel).remove(d));
            if e != d {
                assert(count_of(docs1, e, t, sel) == count_of(docs, e, t, sel));
                assert(listed_in(inv, t, sel).contains_key(e) <==> count_of(docs, e, t, sel) > 0);
            }
        }
    }
}

proof fn lemma_without_doc_agrees(s: IndexView, idx: Seq<char>, d: Seq<char>)
    requires
        s.has_doc(idx, d),
        agrees(s, idx),
    ensures
        agrees(without_doc(s, idx, d), idx),
        forall|t: Seq<char>, sel: PostingSelector| !listed_in(inv_of(without_doc(s, idx, d), idx), t, sel).contains_key(d),
        docs_of(without_doc(s, idx, d), idx) == docs_of(s, idx).remove(d),
{
    let s1 = without_doc(s, idx, d);
    let docs = docs_of(s, idx);
    let docs1 = docs_of(s1, idx);
    let inv = inv_of(s, idx);
    let inv1 = inv_of(s1, idx);
    let o = docs[d];
    let k = o.term_pos.dom();
    assert(docs1 =~= docs.remove(d));
    lemma_without_doc_postings(s, idx, d);
    assert(dict_agrees(s1, idx)) by {
        assert forall|t: Seq<char>| #[trigger] dict_of(s1, idx).contains(t) <==> listed_in(inv1, t, PostingSelector::Original)
            != Map::<Seq<char>, i64>::empty() by {
            let lo = listed_in(inv, t, PostingSelector::Original);
            assert(listed_in(inv1, t, PostingSelector::Original) == lo.remove(d));
            assert(dict_of(s, idx).contains(t) <==> lo != Map::<Seq<char>, i64>::empty());
            if lo.remove(d) != Map::<Seq<char>, i64>::empty() {
                assert(lo != Map::<Seq<char>, i64>::empty()) by {
                    if lo == Map::<Seq<char>, i64>::empty() {
                        assert(lo.remove(d) =~= Map::<Seq<char>, i64>::empty());
                    }
                }
            }
            if s.inverted.contains_key(idx) && s.term_dict.contains_key(idx) {
                let td = s.term_dict[idx];
                let gone = dropped_terms(inv, d, k, td);
                assert(dict_of(s1, idx) == td.difference(gone));
                if k.contains(t) && inv.contains_key(t) {
                    assert(posting_without(inv[t], d).original == lo.remove(d));
                } else if !k.contains(t) {
                    assert(!lo.contains_key(d)) by {
                        if lo.contains_key(d) {
                            assert(count_of(docs, d, t, PostingSelector::Original) > 0);
                            assert(o.term_freqs.dom().subset_of(k));
                        }
                    }
                    assert(lo.remove(d) =~= lo);
                } else {
                    assert(lo =~= Map::<Seq<char>, i64>::empty());
                    assert(lo.remove(d) =~= Map::<Seq<char>, i64>::empty());
                }
            } else {
                assert(dict_of(s1, idx) == dict_of(s, idx));
                if lo == Map::<Seq<char>, i64>::empty() {
                    assert(lo.remove(d) =~= Map::<Seq<char>, i64>::empty());
                }
                if !s.inverted.contains_key(idx) {
                    assert(lo =~= Map::<Seq<char>, i64>::empty());
                } else {
                    assert(!dict_of(s, idx).contains(t));
                    assert(lo =~= Map::<Seq<char>, i64>::empty());
                    assert(lo.remove(d) =~= Map::<Seq<char>, i64>::empty());
                }
            }
        }
    }
    assert(grams_agree(s1, idx)) by {
        assert forall|g: Seq<char>, t: Seq<char>|
            #![trigger grams_of(s1, idx)[g].contains(t)]
            grams_of(s1, idx).contains_key(g) && grams_of(s1, idx)[g].contains(t) implies dict_of(s1, idx).contains(t) && t.len() >= 3
                && trigrams(t).contains(g) by {
            if s.inverted.contains_key(idx) && s.term_dict.contains_key(idx) && s.ngram_index.contains_key(idx) {
                let td = s.term_dict[idx];
                let gone = dropped_terms(inv, d, k, td);
                let ng = s.ngram_index[idx];
                assert(grams_of(s1, idx) == without_terms(ng, gone));
                let l = without_terms(ng, gone)[g];
                if touched(g, gone) {
                    ng[g].lemma_filter_contains_rev(kept_under(g, gone), t);
                    let i = choose|i: int| 0 <= i < l.len() && l[i] == t;
                    ng[g].lemma_filter_pred(kept_under(g, gone), i);
                }
                assert(ng[g].contains(t));
                assert(grams_of(s, idx)[g].contains(t));
                if gone.contains(t) {
                    assert(touched(g, gone));
                }
            } else if s.inverted.contains_key(idx) && s.term_dict.contains_key(idx) {
                assert(grams_of(s1, idx) == grams_of(s, idx));
            } else {
                assert(grams_of(s1, idx) == grams_of(s, idx));
                assert(dict_of(s1, idx) == dict_of(s, idx));
            }
        }
    }
}

proof fn lemma_with_terms_members(ng: Map<Seq<char>, Seq<Seq<char>>>, ts: Seq<Seq<char>>, g: Seq<char>, t: Seq<char>)
    requires
        with_terms(ng, ts).contains_key(g),
        with_terms(ng, ts)[g].contains(t),
    ensures
        (ng.contains_key(g) && ng[g].contains(t)) || (ts.contains(t) && t.len() >= 3 && trigrams(t).contains(g)),
    decreases ts.len(),
{
    if ts.len() > 0 {
        let pre = ts.drop_last();
        let w = with_terms(ng, pre);
        let x = ts.last();
        let next = with_term(w, x);
        assert(next == with_terms(ng, ts));
        if x.len() >= 3 && trigrams(x).contains(g) {
            let o = list_or_empty(w, g);
            if t != x {
                if !o.contains(x) {
                    let i = choose|i: int| 0 <= i < o.push(x).len() && o.push(x)[i] == t;
                    assert(o[i] == t);
                }
                assert(w.contains_key(g));
                lemma_with_terms_members(ng, pre, g, t);
                if pre.contains(t) {
                    let i = choose|i: int| 0 <= i < pre.len() && pre[i] == t;
                    assert(ts[i] == t);
                }
            } else {
                assert(ts[ts.len() - 1] == t);
            }
        } else {
            lemma_with_terms_members(ng, pre, g, t);
            if pre.contains(t) {
                let i = choose|i: int| 0 <= i < pre.len() && pre[i] == t;
                assert(ts[i] == t);
            }
        }
    }
}

/// The state after a document not stored is stored with the tokens `ts`,
/// as `add_doc` does.
pub open spec fn with_new_doc(s: IndexView, idx: Seq<char>, d: Seq<char>, text: Seq<char>, ts: Seq<TokenSpec>) -> IndexView {
    let doc = doc_from_tokens(text, ts);
    IndexView {
        docs: s.docs.insert(idx, get_or(s.docs, idx, Map::empty()).insert(d, doc)),
        total_lens: s.total_lens.insert(idx, (s.total_of(idx) + doc.doc_len) as i64),
        ..s.post_doc_spec(idx, d, doc.term_freqs)
    }.ensure_terms_spec(idx, first_terms(ts))
}

/// Storing a document that was not stored keeps a named index consistent.
/// Storing a document that was not stored keeps the postings of a named
/// index in agreement with its documents.
proof fn lemma_with_new_doc_postings(s: IndexView, idx: Seq<char>, d: Seq<char>, text: Seq<char>, ts: Seq<TokenSpec>)
    requires
        postings_agree(s, idx),
        !docs_of(s, idx).contains_key(d),
        ts.len() < u32::MAX,
    ensures
        postings_agree(with_new_doc(s, idx, d, text, ts), idx),
        forall|t: Seq<char>, sel: PostingSelector| #[trigger] listed_in(inv_of(with_new_doc(s, idx, d, text, ts), idx), t, sel)
            == if doc_from_tokens(text, ts).term_freqs.contains_key(t) {
            set_count(listed_in(inv_of(s, idx), t, sel), d, sel_count(doc_from_tokens(text, ts).term_freqs[t], sel))
        } else {
            listed_in(inv_of(s, idx), t, sel)
        },
        forall|t: Seq<char>, sel: PostingSelector| !(#[trigger] listed_in(inv_of(s, idx), t, sel)).contains_key(d),
        docs_of(with_new_doc(s, idx, d, text, ts), idx) == docs_of(s, idx).insert(d, doc_from_tokens(text, ts)),
{
    let s3 = with_new_doc(s, idx, d, text, ts);
    let doc = doc_from_tokens(text, ts);
    let tf = doc.term_freqs;
    let docs = docs_of(s, idx);
    let inv = inv_of(s, idx);
    let docs3 = docs_of(s3, idx);
    let inv3 = inv_of(s3, idx);
    lemma_build_keys(ts);
    lemma_first_terms_counted(ts);
    assert(docs3 =~= docs.insert(d, doc));
    assert(inv3 == inverted_with_doc(inv, d, tf));
    assert forall|t: Seq<char>, sel: PostingSelector| !listed_in(inv, t, sel).contains_key(d) by {
        if listed_in(inv, t, sel).contains_key(d) {
            assert(count_of(docs, d, t, sel) > 0);
        }
    }
    assert forall|t: Seq<char>, sel: PostingSelector| #[trigger] listed_in(inv3, t, sel) == if tf.contains_key(t) {
        set_count(listed_in(inv, t, sel), d, sel_count(tf[t], sel))
    } else {
        listed_in(inv, t, sel)
    } by {
        if tf.contains_key(t) {
            let base = get_or(inv, t, PostingView::empty());
            assert(sel.pick(base) =~= listed_in(inv, t, sel));
            assert(sel.pick(posting_with(base, d, tf[t])) == set_count(sel.pick(base), d, sel_count(tf[t], sel)));
        }
    }
    assert(postings_agree(s3, idx)) by {
        assert forall|e: Seq<char>| #[trigger] docs3.contains_key(e) implies docs3[e].term_freqs.dom() == docs3[e].term_pos.dom() by {
            if e != d {
                assert(docs.contains_key(e));
            }
        }
        assert forall|t: Seq<char>, e: Seq<char>, sel: PostingSelector|
            #![trigger listed_in(inv3, t, sel).contains_key(e)]
            #![trigger count_of(docs3, e, t, sel)]
            (listed_in(inv3, t, sel).contains_key(e) <==> count_of(docs3, e, t, sel) > 0) && (listed_in(inv3, t, sel).contains_key(e)
                ==> listed_in(inv3, t, sel)[e] == count_of(docs3, e, t, sel) as i64) by {
            if e != d {
                assert(count_of(docs3, e, t, sel) == count_of(docs, e, t, sel));
                assert(listed_in(inv, t, sel).contains_key(e) <==> count_of(docs, e, t, sel) > 0);
            }
        }
    }
}

proof fn lemma_with_new_doc_agrees(s: IndexView, idx: Seq<char>, d: Seq<char>, text: Seq<char>, ts: Seq<TokenSpec>)
    requires
        agrees(s, idx),
        !docs_of(s, idx).contains_key(d),
        ts.len() < u32::MAX,
    ensures
        agrees(with_new_doc(s, idx, d, text, ts), idx),
{
    let s3 = with_new_doc(s, idx, d, text, ts);
    let doc = doc_from_tokens(text, ts);
    let tf = doc.term_freqs;
    let docs = docs_of(s, idx);
    let inv = inv_of(s, idx);
    let docs3 = docs_of(s3, idx);
    let inv3 = inv_of(s3, idx);
    lemma_build_keys(ts);
    lemma_first_terms_counted(ts);
    assert(docs3 =~= docs.insert(d, doc));
    assert(inv3 == inverted_with_doc(inv, d, tf));
    lemma_with_new_doc_postings(s, idx, d, text, ts);
    let ft = first_terms(ts);
    assert(dict_agrees(s3, idx)) by {
        assert forall|t: Seq<char>| #[trigger] dict_of(s3, idx).contains(t) <==> listed_in(inv3, t, PostingSelector::Original)
            != Map::<Seq<char>, i64>::empty() by {
            let lo = listed_in(inv, t, PostingSelector::Original);
            let l3 = listed_in(inv3, t, PostingSelector::Original);
            let counted = tf.contains_key(t) && tf[t].original > 0;
            assert(ft.contains(t) <==> counted);
            assert(l3 != Map::<Seq<char>, i64>::empty() <==> (counted || lo != Map::<Seq<char>, i64>::empty())) by {
                if counted {
                    assert(l3.contains_key(d));
                } else if tf.contains_key(t) {
                    assert(lo.remove(d) =~= lo);
                }
            }
            if ft.len() > 0 {
                assert(dict_of(s3, idx) == dict_of(s, idx).union(ft.to_set()));
            } else {
                assert(dict_of(s3, idx) == dict_of(s, idx));
                assert(!counted) by {
                    if counted {
                        assert(ft.contains(t));
                    }
                }
            }
        }
    }
    assert(grams_agree(s3, idx)) by {
        assert forall|g: Seq<char>, t: Seq<char>|
            #![trigger grams_of(s3, idx)[g].contains(t)]
            grams_of(s3, idx).contains_key(g) && grams_of(s3, idx)[g].contains(t) implies dict_of(s3, idx).contains(t) && t.len() >= 3
                && trigrams(t).contains(g) by {
            if ft.len() > 0 {
                assert(grams_of(s3, idx) == with_terms(grams_of(s, idx), ft));
                lemma_with_terms_members(grams_of(s, idx), ft, g, t);
                assert(dict_of(s3, idx) == dict_of(s, idx).union(ft.to_set()));
            } else {
                assert(grams_of(s3, idx) == grams_of(s, idx));
                assert(dict_of(s3, idx) == dict_of(s, idx));
            }
        }
    }
}

proof fn lemma_with_term_exact(ng: Map<Seq<char>, Seq<Seq<char>>>, terms: Set<Seq<char>>, x: Seq<char>)
    requires
        listed_once(ng, terms),
        listed_among(ng, terms),
        lists_nonempty(ng),
    ensures
        listed_once(with_term(ng, x), terms.insert(x)),
        listed_among(with_term(ng, x), terms.insert(x)),
        lists_nonempty(with_term(ng, x)),
{
    let w = with_term(ng, x);
    let t2 = terms.insert(x);
    if x.len() < 3 {
        assert forall|t: Seq<char>, g: Seq<char>|
            #![trigger t2.contains(t), trigrams(t).contains(g)]
            t2.contains(t) && t.len() >= 3 && trigrams(t).contains(g) implies w.contains_key(g) && count_in(w[g], t) == 1 by {
            assert(terms.contains(t));
        }
    } else {
        let gs = trigrams(x);
        assert forall|t: Seq<char>, g: Seq<char>|
            #![trigger t2.contains(t), trigrams(t).contains(g)]
            t2.contains(t) && t.len() >= 3 && trigrams(t).contains(g) implies w.contains_key(g) && count_in(w[g], t) == 1 by {
            let o = list_or_empty(ng, g);
            if gs.contains(g) {
                if o.contains(x) {
                    assert(ng.contains_key(g));
                    assert(terms.contains(x));
                } else {
                    lemma_count_push(o, x, t);
                    if t == x {
                        lemma_count_contains(o, x);
                    } else {
                        assert(terms.contains(t));
                    }
                }
            } else {
                assert(t != x);
                assert(terms.contains(t));
            }
        }
        assert forall|g: Seq<char>, t: Seq<char>| #![trigger w[g].contains(t)] w.contains_key(g) && w[g].contains(t) implies t2.contains(
            t,
        ) by {
            let o = list_or_empty(ng, g);
            if !gs.contains(g) {
                assert(ng.contains_key(g) && ng[g].contains(t));
            } else if o.contains(x) {
                assert(ng.contains_key(g));
                assert(ng[g].contains(t));
            } else if t != x {
                let i = choose|i: int| 0 <= i < o.push(x).len() && o.push(x)[i] == t;
                assert(o[i] == t);
                assert(ng.contains_key(g));
                assert(ng[g].contains(t));
            }
        }
        assert forall|g: Seq<char>| #[trigger] w.contains_key(g) implies w[g].len() > 0 by {
            let o = list_or_empty(ng, g);
            if gs.contains(g) && o.contains(x) {
                let i = choose|i: int| 0 <= i < o.len() && o[i] == x;
            }
        }
    }
}

proof fn lemma_with_terms_exact(ng: Map<Seq<char>, Seq<Seq<char>>>, terms: Set<Seq<char>>, ts: Seq<Seq<char>>)
    requires
        listed_once(ng, terms),
        listed_among(ng, terms),
        lists_nonempty(ng),
    ensures
        listed_once(with_terms(ng, ts), terms.union(ts.to_set())),
        listed_among(with_terms(ng, ts), terms.union(ts.to_set())),
        lists_nonempty(with_terms(ng, ts)),
    decreases ts.len(),
{
    if ts.len() == 0 {
        assert(terms.union(ts.to_set()) =~= terms);
    } else {
        let pre = ts.drop_last();
        lemma_with_terms_exact(ng, terms, pre);
        lemma_with_term_exact(with_terms(ng, pre), terms.union(pre.to_set()), ts.last());
        assert(pre.push(ts.last()) =~= ts);
        pre.lemma_push_to_set_commute(ts.last());
        assert(terms.union(pre.to_set()).insert(ts.last()) =~= terms.union(ts.to_set()));
    }
}

proof fn lemma_without_terms_exact(ng: Map<Seq<char>, Seq<Seq<char>>>, terms: Set<Seq<char>>, gone: Set<Seq<char>>)
    requires
        listed_once(ng, terms),
        lists_nonempty(ng),
    ensures
        listed_once(without_terms(ng, gone), terms.difference(gone)),
        lists_nonempty(without_terms(ng, gone)),
{
    let w = without_terms(ng, gone);
    let t2 = terms.difference(gone);
    assert forall|t: Seq<char>, g: Seq<char>|
        #![trigger t2.contains(t), trigrams(t).contains(g)]
        t2.contains(t) && t.len() >= 3 && trigrams(t).contains(g) implies w.contains_key(g) && count_in(w[g], t) == 1 by {
        assert(terms.contains(t));
        if touched(g, gone) {
            lemma_count_filter(ng[g], kept_under(g, gone), t);
            lemma_count_contains(ng[g].filter(kept_under(g, gone)), t);
            let f = ng[g].filter(kept_under(g, gone));
            let i = choose|i: int| 0 <= i < f.len() && f[i] == t;
        }
    }
}

proof fn lemma_without_doc_whole_postings(s: IndexView, idx: Seq<char>, d: Seq<char>)
    requires
        s.has_doc(idx, d),
        postings_whole(s, idx),
    ensures
        postings_whole(without_doc(s, idx, d), idx),
{
    let s1 = without_doc(s, idx, d);
    assert(docs_of(s1, idx) =~= docs_of(s, idx).remove(d));
    assert forall|e: Seq<char>, t: Seq<char>|
        #![trigger docs_of(s1, idx)[e].term_freqs.contains_key(t)]
        docs_of(s1, idx).contains_key(e) && docs_of(s1, idx)[e].term_freqs.contains_key(t) implies counted(
            docs_of(s1, idx)[e].term_freqs[t],
        ) by {
        assert(docs_of(s, idx).contains_key(e) && docs_of(s, idx)[e] == docs_of(s1, idx)[e]);
    }
    if s.inverted.contains_key(idx) {
        let inv = inv_of(s, idx);
        let k = s.docs[idx][d].term_pos.dom();
        assert(inv_of(s1, idx) == inverted_without_doc(inv, d, k));
        assert forall|t: Seq<char>| #[trigger] inv_of(s1, idx).contains_key(t) implies !inv_of(s1, idx)[t].is_empty() by {
            assert(inv.contains_key(t));
        }
    } else {
        assert(inv_of(s1, idx) == inv_of(s, idx));
    }
}

proof fn lemma_without_doc_whole(s: IndexView, idx: Seq<char>, d: Seq<char>)
    requires
        s.has_doc(idx, d),
        consistent(s, idx),
    ensures
        postings_whole(without_doc(s, idx, d), idx),
        grams_exact(without_doc(s, idx, d), idx),
{
    let s1 = without_doc(s, idx, d);
    lemma_without_doc_whole_postings(s, idx, d);
    if s.inverted.contains_key(idx) && s.term_dict.contains_key(idx) {
        let inv = inv_of(s, idx);
        let k = s.docs[idx][d].term_pos.dom();
        let td = s.term_dict[idx];
        let gone = dropped_terms(inv, d, k, td);
        assert(dict_of(s1, idx) == td.difference(gone));
        if s.ngram_index.contains_key(idx) {
            lemma_without_terms_exact(grams_of(s, idx), td, gone);
            assert(grams_of(s1, idx) == without_terms(grams_of(s, idx), gone));
        } else {
            assert(grams_of(s1, idx) == grams_of(s, idx));
            assert forall|t: Seq<char>, g: Seq<char>|
                #![trigger dict_of(s1, idx).contains(t), trigrams(t).contains(g)]
                dict_of(s1, idx).contains(t) && t.len() >= 3 && trigrams(t).contains(g) implies grams_of(s1, idx).contains_key(g)
                && count_in(grams_of(s1, idx)[g], t) == 1 by {
                assert(dict_of(s, idx).contains(t));
            }
        }
    } else {
        assert(dict_of(s1, idx) == dict_of(s, idx));
        assert(grams_of(s1, idx) == grams_of(s, idx));
    }
}

proof fn lemma_with_new_doc_whole_postings(s: IndexView, idx: Seq<char>, d: Seq<char>, text: Seq<char>, ts: Seq<TokenSpec>)
    requires
        postings_whole(s, idx),
        !docs_of(s, idx).contains_key(d),
        ts.len() < u32::MAX,
    ensures
        postings_whole(with_new_doc(s, idx, d, text, ts), idx),
{
    let s3 = with_new_doc(s, idx, d, text, ts);
    let doc = doc_from_tokens(text, ts);
    let tf = doc.term_freqs;
    let inv = inv_of(s, idx);
    lemma_build_freqs_positive(ts);
    assert(docs_of(s3, idx) =~= docs_of(s, idx).insert(d, doc));
    assert(inv_of(s3, idx) == inverted_with_doc(inv, d, tf));
    assert forall|t: Seq<char>| #[trigger] inv_of(s3, idx).contains_key(t) implies !inv_of(s3, idx)[t].is_empty() by {
        if tf.contains_key(t) {
            let p = posting_with(get_or(inv, t, PostingView::empty()), d, tf[t]);
            if tf[t].original > 0 {
                assert(p.original.contains_key(d));
            } else if tf[t].pinyin_full > 0 {
                assert(p.pinyin_full.contains_key(d));
            } else {
                assert(p.pinyin_initials.contains_key(d));
            }
        }
    }
}

proof fn lemma_with_new_doc_whole(s: IndexView, idx: Seq<char>, d: Seq<char>, text: Seq<char>, ts: Seq<TokenSpec>)
    requires
        consistent(s, idx),
        !docs_of(s, idx).contains_key(d),
        ts.len() < u32::MAX,
    ensures
        postings_whole(with_new_doc(s, idx, d, text, ts), idx),
        grams_exact(with_new_doc(s, idx, d, text, ts), idx),
{
    let s3 = with_new_doc(s, idx, d, text, ts);
    lemma_with_new_doc_whole_postings(s, idx, d, text, ts);
    let ft = first_terms(ts);
    if ft.len() > 0 {
        lemma_with_terms_exact(grams_of(s, idx), dict_of(s, idx), ft);
        assert(grams_of(s3, idx) == with_terms(grams_of(s, idx), ft));
        assert(dict_of(s3, idx) == dict_of(s, idx).union(ft.to_set()));
    } else {
        assert(grams_of(s3, idx) == grams_of(s, idx));
        assert(dict_of(s3, idx) == dict_of(s, idx));
    }
}

/// Taking a stored document out keeps a consistent named index consistent,
/// and leaves the document in no posting list.
proof fn lemma_without_doc_consistent(s: IndexView, idx: Seq<char>, d: Seq<char>)
    requires
        s.has_doc(idx, d),
        consistent(s, idx),
    ensures
        consistent(without_doc(s, idx, d), idx),
        forall|t: Seq<char>, sel: PostingSelector| !listed_in(inv_of(without_doc(s, idx, d), idx), t, sel).contains_key(d),
        docs_of(without_doc(s, idx, d), idx) == docs_of(s, idx).remove(d),
{
    lemma_without_doc_agrees(s, idx, d);
    lemma_without_doc_whole(s, idx, d);
}

/// Storing a document that was not stored keeps a named index consistent.
proof fn lemma_with_new_doc_consistent(s: IndexView, idx: Seq<char>, d: Seq<char>, text: Seq<char>, ts: Seq<TokenSpec>)
    requires
        consistent(s, idx),
        !docs_of(s, idx).contains_key(d),
        ts.len() < u32::MAX,
    ensures
        consistent(with_new_doc(s, idx, d, text, ts), idx),
{
    lemma_with_new_doc_agrees(s, idx, d, text, ts);
    lemma_with_new_doc_whole(s, idx, d, text, ts);
}

/// Two states whose named index `idx` has the same documents, postings,
/// dictionary and trigram lists are consistent there alike.
proof fn lemma_consistent_same_parts(s: IndexView, t: IndexView, idx: Seq<char>)
    requires
        docs_of(s, idx) == docs_of(t, idx),
        inv_of(s, idx) == inv_of(t, idx),
        dict_of(s, idx) == dict_of(t, idx),
        grams_of(s, idx) == grams_of(t, idx),
    ensures
        consistent(s, idx) == consistent(t, idx),
{
}

/// The empty index is consistent in every named index.
pub proof fn lemma_empty_consistent(idx: Seq<char>)
    ensures
        consistent(IndexView::empty(), idx),
{
    let s = IndexView::empty();
    assert forall|t: Seq<char>, sel: PostingSelector| #[trigger] listed_in(inv_of(s, idx), t, sel) == Map::<Seq<char>, i64>::empty() by {
    }
}

/// `add_doc` keeps every named index consistent: the postings, the
/// dictionary and the trigram lists keep agreeing with the documents.
pub proof fn lemma_add_keeps_consistent(s: IndexView, idx2: Seq<char>, idx: Seq<char>, d: Seq<char>, text: Seq<char>, index: bool)
    requires
        consistent(s, idx2),
        index ==> spec_tokenize(text).len() < u32::MAX,
    ensures
        consistent(s.add_doc_spec(idx, d, text, index), idx2),
{
    let t = s.add_doc_spec(idx, d, text, index);
    let ts = if index { spec_tokenize(text) } else { Seq::empty() };
    if idx2 == idx {
        let s1 = if s.has_doc(idx, d) { without_doc(s, idx, d) } else { s };
        if s.has_doc(idx, d) {
            lemma_without_doc_consistent(s, idx, d);
        }
        assert(!docs_of(s1, idx).contains_key(d));
        lemma_with_new_doc_consistent(s1, idx, d, text, ts);
        let s3 = with_new_doc(s1, idx, d, text, ts);
        lemma_consistent_same_parts(s3, t, idx);
    } else {
        let s1 = if s.has_doc(idx, d) { without_doc(s, idx, d) } else { s };
        let s3 = with_new_doc(s1, idx, d, text, ts);
        assert(docs_of(s1, idx2) == docs_of(s, idx2));
        assert(inv_of(s1, idx2) == inv_of(s, idx2));
        assert(dict_of(s1, idx2) == dict_of(s, idx2));
        assert(grams_of(s1, idx2) == grams_of(s, idx2));
        assert(docs_of(t, idx2) == docs_of(s, idx2));
        assert(inv_of(t, idx2) == inv_of(s, idx2));
        assert(dict_of(t, idx2) == dict_of(s, idx2));
        assert(grams_of(t, idx2) == grams_of(s, idx2));
        lemma_consistent_same_parts(s, t, idx2);
    }
}

/// `remove_doc` keeps every named index consistent, and leaves the removed
/// document in no posting list.
pub proof fn lemma_remove_keeps_consistent(s: IndexView, idx2: Seq<char>, idx: Seq<char>, d: Seq<char>)
    requires
        consistent(s, idx2),
    ensures
        consistent(s.remove_doc_spec(idx, d), idx2),
        idx2 == idx ==> forall|t: Seq<char>, sel: PostingSelector|
            !(#[trigger] listed_in(inv_of(s.remove_doc_spec(idx, d), idx), t, sel)).contains_key(d),
{
    let t = s.remove_doc_spec(idx, d);
    if s.has_doc(idx, d) {
        let s1 = without_doc(s, idx, d);
        if idx2 == idx {
            lemma_without_doc_consistent(s, idx, d);
            lemma_consistent_same_parts(s1, t, idx);
            assert(inv_of(s1, idx) == inv_of(t, idx));
        } else {
            assert(docs_of(t, idx2) == docs_of(s, idx2));
            assert(inv_of(t, idx2) == inv_of(s, idx2));
            assert(dict_of(t, idx2) == dict_of(s, idx2));
            assert(grams_of(t, idx2) == grams_of(s, idx2));
            lemma_consistent_same_parts(s, t, idx2);
        }
    } else if idx2 == idx {
        assert forall|tm: Seq<char>, sel: PostingSelector| !(#[trigger] listed_in(inv_of(t, idx), tm, sel)).contains_key(d) by {
            if listed_in(inv_of(s, idx), tm, sel).contains_key(d) {
                assert(count_of(docs_of(s, idx), d, tm, sel) > 0);
            }
        }
    }
}

/// In a consistent named index the dictionary holds just the terms that
/// some stored document holds as written, and a term in a trigram list is
/// one of them.
pub proof fn lemma_dict_is_written_terms(s: IndexView, idx: Seq<char>, t: Seq<char>)
    requires
        consistent(s, idx),
    ensures
        dict_of(s, idx).contains(t) <==> exists|d: Seq<char>| count_of(docs_of(s, idx), d, t, PostingSelector::Original) > 0,
        forall|g: Seq<char>| grams_of(s, idx).contains_key(g) && #[trigger] grams_of(s, idx)[g].contains(t) ==> dict_of(s, idx).contains(t),
{
    let l = listed_in(inv_of(s, idx), t, PostingSelector::Original);
    if dict_of(s, idx).contains(t) {
        assert(l != Map::<Seq<char>, i64>::empty());
        let d = choose|d: Seq<char>| l.contains_key(d);
        if !l.contains_key(d) {
            assert(l =~= Map::<Seq<char>, i64>::empty());
        }
        assert(count_of(docs_of(s, idx), d, t, PostingSelector::Original) > 0);
    }
    if exists|d: Seq<char>| count_of(docs_of(s, idx), d, t, PostingSelector::Original) > 0 {
        let d = choose|d: Seq<char>| count_of(docs_of(s, idx), d, t, PostingSelector::Original) > 0;
        assert(l.contains_key(d));
        assert(l != Map::<Seq<char>, i64>::empty());
    }
}

/// The documents a query can match: in a consistent named index whose
/// postings have every query term, the documents in the selected list of
/// every term are the stored documents that count every term that way.
pub proof fn lemma_common_docs_hold_all_terms(s: IndexView, idx: Seq<char>, ts: Seq<TokenSpec>, sel: PostingSelector)
    requires
        consistent(s, idx),
        s.inverted.contains_key(idx),
        forall|i: int| 0 <= i < ts.len() ==> s.inverted[idx].contains_key(#[trigger] ts[i].term),
    ensures
        s.common_docs(idx, ts, sel) == Set::new(
            |d: Seq<char>| forall|i: int| 0 <= i < ts.len() ==> count_of(docs_of(s, idx), d, #[trigger] ts[i].term, sel) > 0,
        ),
{
    let inv = inv_of(s, idx);
    let docs = docs_of(s, idx);
    assert forall|d: Seq<char>| #[trigger] s.common_docs(idx, ts, sel).contains(d) <==> (forall|i: int|
        0 <= i < ts.len() ==> count_of(docs, d, #[trigger] ts[i].term, sel) > 0) by {
        assert forall|i: int| 0 <= i < ts.len() implies (sel.pick(s.inverted[idx][ts[i].term]).contains_key(d) <==> count_of(docs, d, #[trigger] ts[i].term, sel) > 0) by {
            assert(listed_in(inv, ts[i].term, sel) == sel.pick(s.inverted[idx][ts[i].term]));
            assert(listed_in(inv, ts[i].term, sel).contains_key(d) <==> count_of(docs, d, ts[i].term, sel) > 0);
        }
        if s.common_docs(idx, ts, sel).contains(d) {
            assert forall|i: int| 0 <= i < ts.len() implies count_of(docs, d, #[trigger] ts[i].term, sel) > 0 by {
                assert(sel.pick(s.inverted[idx][ts[i].term]).contains_key(d));
            }
        } else {
            assert(!s.in_lists(idx, ts, ts.len() as int, sel, d));
            let i = choose|i: int| 0 <= i < ts.len() && !sel.pick(s.inverted[idx][ts[i].term]).contains_key(d);
            assert(!(count_of(docs, d, ts[i].term, sel) > 0));
        }
    }
    assert(s.common_docs(idx, ts, sel) =~= Set::new(
        |d: Seq<char>| forall|i: int| 0 <= i < ts.len() ==> count_of(docs, d, #[trigger] ts[i].term, sel) > 0,
    ));
}

/// The posting lists of documents whose counts and positions share their
/// terms: a document is listed under a term just when it counts the term
/// that way, with that count.
pub open spec fn counted_list(docs: Map<Seq<char>, DocView>, t: Seq<char>, sel: PostingSelector) -> Map<Seq<char>, i64> {
    Map::new(|d: Seq<char>| count_of(docs, d, t, sel) > 0, |d: Seq<char>| count_of(docs, d, t, sel) as i64)
}

/// Each document counts just the terms it has positions for.
pub open spec fn docs_whole(docs: Map<Seq<char>, DocView>) -> bool {
    forall|d: Seq<char>| #[trigger] docs.contains_key(d) ==> docs[d].term_freqs.dom() == docs[d].term_pos.dom()
}

proof fn lemma_snapshot_lists(docs: Map<Seq<char>, DocView>, t: Seq<char>, sel: PostingSelector)
    requires
        docs_whole(docs),
    ensures
        listed_in(snapshot_inverted(docs), t, sel) == counted_list(docs, t, sel),
{
    let inv = snapshot_inverted(docs);
    if inv.contains_key(t) {
        assert(sel.pick(snapshot_posting(docs, t)) =~= counted_list(docs, t, sel)) by {
            assert forall|d: Seq<char>| #[trigger] docs.contains_key(d) implies (docs[d].term_pos.contains_key(t)
                <==> docs[d].term_freqs.contains_key(t)) by {
                assert(docs[d].term_freqs.dom().contains(t) == docs[d].term_pos.dom().contains(t));
            }
        }
    } else {
        assert(counted_list(docs, t, sel) =~= Map::<Seq<char>, i64>::empty()) by {
            assert forall|d: Seq<char>| !(#[trigger] counted_list(docs, t, sel).contains_key(d)) by {
                if count_of(docs, d, t, sel) > 0 {
                    assert(docs[d].term_freqs.dom().contains(t));
                    assert(docs[d].term_pos.contains_key(t));
                }
            }
        }
    }
}

proof fn lemma_consistent_lists(s: IndexView, idx: Seq<char>, t: Seq<char>, sel: PostingSelector)
    requires
        consistent(s, idx),
    ensures
        listed_in(inv_of(s, idx), t, sel) == counted_list(docs_of(s, idx), t, sel),
{
    let l = listed_in(inv_of(s, idx), t, sel);
    assert forall|d: Seq<char>| #[trigger] l.contains_key(d) <==> count_of(docs_of(s, idx), d, t, sel) > 0 by {
    }
    assert(l =~= counted_list(docs_of(s, idx), t, sel));
}

proof fn lemma_aux_terms_written(s: IndexView, idx: Seq<char>)
    requires
        consistent(s, idx),
        s.docs.contains_key(idx),
    ensures
        aux_terms(s.docs[idx]) == dict_of(s, idx),
{
    let docs = s.docs[idx];
    assert forall|t: Seq<char>| #[trigger] aux_terms(docs).contains(t) <==> dict_of(s, idx).contains(t) by {
        lemma_dict_is_written_terms(s, idx, t);
        if aux_terms(docs).contains(t) {
            let d = choose|d: Seq<char>| docs.contains_key(d) && #[trigger] contributes(docs[d], t);
            if docs[d].term_freqs == Map::<Seq<char>, TermFrequency>::empty() {
                assert(docs_of(s, idx).contains_key(d));
                assert(docs[d].term_pos.dom().contains(t));
                assert(docs[d].term_freqs.dom().contains(t));
            }
            assert(count_of(docs_of(s, idx), d, t, PostingSelector::Original) > 0);
        }
        if dict_of(s, idx).contains(t) {
            let d = choose|d: Seq<char>| count_of(docs_of(s, idx), d, t, PostingSelector::Original) > 0;
            if docs[d].term_freqs == Map::<Seq<char>, TermFrequency>::empty() {
                assert(!docs[d].term_freqs.contains_key(t));
            }
            assert(contributes(docs[d], t));
        }
    }
    assert(aux_terms(docs) =~= dict_of(s, idx));
}

/// The postings rebuilt from the documents of a consistent named index are
/// its postings.
proof fn lemma_snapshot_inverted_same(s: IndexView, idx: Seq<char>)
    requires
        consistent(s, idx),
        s.docs.contains_key(idx),
    ensures
        snapshot_inverted(s.docs[idx]) == inv_of(s, idx),
{
    let docs = s.docs[idx];
    let a = snapshot_inverted(docs);
    let b = inv_of(s, idx);
    assert(docs_of(s, idx) == docs);
    assert(docs_whole(docs));
    assert forall|tm: Seq<char>| #[trigger] a.contains_key(tm) <==> b.contains_key(tm) by {
        if a.contains_key(tm) {
            let d = choose|d: Seq<char>| docs.contains_key(d) && #[trigger] docs[d].term_pos.contains_key(tm);
            assert(docs[d].term_freqs.dom().contains(tm));
            assert(counted(docs[d].term_freqs[tm]));
            let sel = if docs[d].term_freqs[tm].original > 0 {
                PostingSelector::Original
            } else if docs[d].term_freqs[tm].pinyin_full > 0 {
                PostingSelector::PinyinFull
            } else {
                PostingSelector::PinyinInitials
            };
            assert(count_of(docs, d, tm, sel) > 0);
            assert(listed_in(b, tm, sel).contains_key(d));
        }
        if b.contains_key(tm) {
            assert(!b[tm].is_empty());
            let sel = if b[tm].original != Map::<Seq<char>, i64>::empty() {
                PostingSelector::Original
            } else if b[tm].pinyin_full != Map::<Seq<char>, i64>::empty() {
                PostingSelector::PinyinFull
            } else {
                PostingSelector::PinyinInitials
            };
            let l = listed_in(b, tm, sel);
            assert(l != Map::<Seq<char>, i64>::empty());
            let d = choose|d: Seq<char>| l.contains_key(d);
            if !l.contains_key(d) {
                assert(l =~= Map::<Seq<char>, i64>::empty());
            }
            assert(count_of(docs, d, tm, sel) > 0);
            assert(docs[d].term_freqs.dom().contains(tm));
            assert(docs[d].term_pos.contains_key(tm));
        }
    }
    assert forall|tm: Seq<char>| #[trigger] a.contains_key(tm) implies a[tm] == b[tm] by {
        lemma_snapshot_lists(docs, tm, PostingSelector::Original);
        lemma_snapshot_lists(docs, tm, PostingSelector::PinyinFull);
        lemma_snapshot_lists(docs, tm, PostingSelector::PinyinInitials);
        lemma_consistent_lists(s, idx, tm, PostingSelector::Original);
        lemma_consistent_lists(s, idx, tm, PostingSelector::PinyinFull);
        lemma_consistent_lists(s, idx, tm, PostingSelector::PinyinInitials);
        assert(listed_in(a, tm, PostingSelector::Original) == a[tm].original);
        assert(listed_in(b, tm, PostingSelector::Original) == b[tm].original);
        assert(listed_in(a, tm, PostingSelector::PinyinFull) == a[tm].pinyin_full);
        assert(listed_in(b, tm, PostingSelector::PinyinFull) == b[tm].pinyin_full);
        assert(listed_in(a, tm, PostingSelector::PinyinInitials) == a[tm].pinyin_initials);
        assert(listed_in(b, tm, PostingSelector::PinyinInitials) == b[tm].pinyin_initials);
    }
    assert(a =~= b);
}

/// A snapshot reads back what was saved: loading the snapshot of a
/// consistent named index, as `get_snapshot_data` gives it, into any index
/// restores the same documents, postings, dictionary and trigram lists, and
/// leaves that named index consistent; where the saved total was the sum of
/// the document lengths, the total is restored too.
pub proof fn lemma_snapshot_round_trip(
    s: IndexView,
    u: IndexView,
    t: IndexView,
    idx: Seq<char>,
    snap: SnapshotView,
)
    requires
        consistent(s, idx),
        s.docs.contains_key(idx),
        snap.docs == s.docs[idx],
        snap.term_dict == dict_of(s, idx),
        snap.ngram_index == grams_of(s, idx),
        t.loaded_from(u, idx, snap),
    ensures
        docs_of(t, idx) == docs_of(s, idx),
        inv_of(t, idx) == inv_of(s, idx),
        dict_of(t, idx) == dict_of(s, idx),
        grams_of(t, idx) == grams_of(s, idx),
        lengths_agree(s, idx) ==> t.total_of(idx) == s.total_of(idx),
        consistent(t, idx),
{
    let docs = s.docs[idx];
    assert(docs_of(s, idx) == docs);
    assert(docs_of(t, idx) == docs);
    assert(inv_of(t, idx) == snapshot_inverted(docs));
    lemma_snapshot_inverted_same(s, idx);
    if snap.term_dict == Set::<Seq<char>>::empty() || snap.ngram_index == Map::<Seq<char>, Seq<Seq<char>>>::empty() {
        lemma_aux_terms_written(s, idx);
        assert(dict_of(t, idx) == dict_of(s, idx));
        let ng = t.ngram_index[idx];
        assert(grams_of(t, idx) == ng);
        assert(lists_terms(ng, dict_of(s, idx)));
        if snap.term_dict == Set::<Seq<char>>::empty() {
            assert forall|g: Seq<char>| !(#[trigger] ng.contains_key(g)) by {
                if ng.contains_key(g) {
                    assert(touched(g, dict_of(s, idx)));
                }
            }
            assert forall|g: Seq<char>| !(#[trigger] grams_of(s, idx).contains_key(g)) by {
                if grams_of(s, idx).contains_key(g) {
                    let l = grams_of(s, idx)[g];
                    assert(l.len() > 0);
                    assert(l.contains(l[0]));
                    assert(dict_of(s, idx).contains(l[0]));
                }
            }
        } else {
            assert forall|g: Seq<char>| !(#[trigger] ng.contains_key(g)) by {
                if ng.contains_key(g) {
                    assert(touched(g, dict_of(s, idx)));
                    let x = choose|x: Seq<char>| dict_of(s, idx).contains(x) && x.len() >= 3 && #[trigger] trigrams(x).contains(g);
                    assert(grams_of(s, idx).contains_key(g));
                }
            }
        }
        assert(ng =~= grams_of(s, idx));
    } else {
        assert(dict_of(t, idx) == dict_of(s, idx));
        assert(grams_of(t, idx) == grams_of(s, idx));
    }
    lemma_consistent_same_parts(s, t, idx);
}

/// The recorded total of a named index is the sum of the lengths of its
/// documents, of which there are finitely many.
pub open spec fn lengths_agree(s: IndexView, idx: Seq<char>) -> bool {
    &&& docs_of(s, idx).dom().finite()
    &&& s.total_of(idx) == sum_lens(docs_of(s, idx))
}

/// In the empty index every total is the sum of the lengths.
pub proof fn lemma_empty_lengths(idx: Seq<char>)
    ensures
        lengths_agree(IndexView::empty(), idx),
{
    lemma_sum_lens_empty();
    assert(docs_of(IndexView::empty(), idx) == Map::<Seq<char>, DocView>::empty());
}

/// `add_doc` keeps every total the sum of the lengths of the documents of
/// its named index, also where it replaces a document.
pub proof fn lemma_add_keeps_lengths(s: IndexView, idx2: Seq<char>, idx: Seq<char>, d: Seq<char>, text: Seq<char>, index: bool)
    requires
        lengths_agree(s, idx2),
        index ==> spec_tokenize(text).len() < u32::MAX,
        fits_i64(s.total_of(idx) - s.stored_len(idx, d)),
        fits_i64(s.total_of(idx) - s.stored_len(idx, d) + if index { spec_tokenize(text).len() as int } else { 0 }),
    ensures
        lengths_agree(s.add_doc_spec(idx, d, text, index), idx2),
{
    let t = s.add_doc_spec(idx, d, text, index);
    if idx2 == idx {
        let ts = if index { spec_tokenize(text) } else { Seq::empty() };
        let doc = doc_from_tokens(text, ts);
        lemma_total_follows_lengths(s, idx, d, text, index);
        assert(docs_of(t, idx) =~= docs_of(s, idx).insert(d, doc));
        lemma_sum_lens_insert(docs_of(s, idx), d, doc);
    } else {
        assert(docs_of(t, idx2) == docs_of(s, idx2));
        assert(t.total_of(idx2) == s.total_of(idx2));
    }
}

/// `remove_doc` keeps every total the sum of the lengths of the documents
/// of its named index.
pub proof fn lemma_remove_keeps_lengths(s: IndexView, idx2: Seq<char>, idx: Seq<char>, d: Seq<char>)
    requires
        lengths_agree(s, idx2),
        fits_i64(s.total_of(idx) - s.stored_len(idx, d)),
    ensures
        lengths_agree(s.remove_doc_spec(idx, d), idx2),
{
    let t = s.remove_doc_spec(idx, d);
    if s.has_doc(idx, d) {
        if idx2 == idx {
            assert(docs_of(t, idx) =~= docs_of(s, idx).remove(d));
            lemma_sum_lens_remove(docs_of(s, idx), d);
        } else {
            assert(docs_of(t, idx2) == docs_of(s, idx2));
            assert(t.total_of(idx2) == s.total_of(idx2));
        }
    }
}

/// Loading a snapshot of finitely many documents whose lengths sum to an
/// `i64` makes the total of its named index that sum.
pub proof fn lemma_load_lengths(u: IndexView, t: IndexView, idx: Seq<char>, snap: SnapshotView)
    requires
        t.loaded_from(u, idx, snap),
        snap.docs.dom().finite(),
        fits_i64(sum_lens(snap.docs)),
    ensures
        lengths_agree(t, idx),
{
    assert(docs_of(t, idx) == snap.docs);
}

proof fn lemma_filter_keeps_all(l: Seq<Seq<char>>, term: Seq<char>)
    requires
        !l.contains(term),
    ensures
        l.filter(other_than(term)) == l,
    decreases l.len(),
{
    reveal(Seq::filter);
    if l.len() > 0 {
        let pre = l.drop_last();
        assert(!pre.contains(term)) by {
            if pre.contains(term) {
                let i = choose|i: int| 0 <= i < pre.len() && pre[i] == term;
                assert(l[i] == term);
            }
        }
        lemma_filter_keeps_all(pre, term);
        assert(l.last() != term) by {
            if l.last() == term {
                assert(l[l.len() - 1] == term);
            }
        }
        assert(pre.push(l.last()) =~= l);
    }
}

proof fn lemma_filter_drops_pushed(l: Seq<Seq<char>>, term: Seq<char>)
    ensures
        l.push(term).filter(other_than(term)) == l.filter(other_than(term)),
{
    reveal(Seq::filter);
    assert(l.push(term).drop_last() =~= l);
}

/// Removing a term undoes adding it: where no trigram list is empty and
/// none holds `term`, adding `term` to the trigram index and then removing
/// it gives back the index as it was.
pub proof fn lemma_remove_term_undoes_add(ng: Map<Seq<char>, Seq<Seq<char>>>, term: Seq<char>)
    requires
        forall|g: Seq<char>| #[trigger] ng.contains_key(g) ==> ng[g].len() > 0 && !ng[g].contains(term),
    ensures
        without_term(with_term(ng, term), term) == ng,
{
    if term.len() >= 3 {
        let gs = trigrams(term);
        let w = with_term_on(ng, term, gs);
        let r = without_term_on(w, term, gs);
        assert forall|g: Seq<char>| gs.contains(g) implies #[trigger] w[g].filter(other_than(term)) == list_or_empty(ng, g) by {
            let o = list_or_empty(ng, g);
            if ng.contains_key(g) {
                assert(!o.contains(term));
            }
            assert(w[g] == o.push(term));
            lemma_filter_drops_pushed(o, term);
            lemma_filter_keeps_all(o, term);
        }
        assert forall|g: Seq<char>| #[trigger] r.contains_key(g) <==> ng.contains_key(g) by {
            if gs.contains(g) {
                assert(w[g].filter(other_than(term)) == list_or_empty(ng, g));
            }
        }
        assert(r =~= ng);
    }
}

/// Removing the last document that holds a term as written drops the term
/// from the dictionary and from every trigram list of a consistent named
/// index.
pub proof fn lemma_remove_drops_unheld_term(s: IndexView, idx: Seq<char>, d: Seq<char>, t: Seq<char>)
    requires
        consistent(s, idx),
        forall|e: Seq<char>| e != d ==> count_of(docs_of(s, idx), e, t, PostingSelector::Original) == 0,
    ensures
        !dict_of(s.remove_doc_spec(idx, d), idx).contains(t),
        forall|g: Seq<char>| #[trigger] grams_of(s.remove_doc_spec(idx, d), idx).contains_key(g)
            ==> !grams_of(s.remove_doc_spec(idx, d), idx)[g].contains(t),
{
    let r = s.remove_doc_spec(idx, d);
    lemma_remove_keeps_consistent(s, idx, idx, d);
    assert(docs_of(r, idx) == docs_of(s, idx).remove(d) || docs_of(r, idx) == docs_of(s, idx));
    if !s.has_doc(idx, d) {
        assert(!docs_of(s, idx).contains_key(d));
    }
    assert forall|e: Seq<char>| count_of(docs_of(r, idx), e, t, PostingSelector::Original) == 0 by {
        if e != d {
            assert(count_of(docs_of(s, idx), e, t, PostingSelector::Original) == 0);
        }
    }
    lemma_dict_is_written_terms(r, idx, t);
    assert forall|g: Seq<char>| #[trigger] grams_of(r, idx).contains_key(g) implies !grams_of(r, idx)[g].contains(t) by {
        if grams_of(r, idx)[g].contains(t) {
            assert(dict_of(r, idx).contains(t));
        }
    }
}

/// Whether a token is recorded under key `k`: its term is `k`, or `k` is
/// the full pinyin or the initials of its term.
pub open spec fn recorded_under(t: TokenSpec, k: Seq<char>) -> bool {
    ||| t.term == k
    ||| full_form(t.term) == Some(k)
    ||| initials_form(t.term) == Some(k)
}

proof fn lemma_push_pos_members(
    m: Map<Seq<char>, Seq<(u32, u32)>>,
    term: Seq<char>,
    p: (u32, u32),
    k: Seq<char>,
    x: (u32, u32),
)
    requires
        push_pos(m, term, p).contains_key(k),
        push_pos(m, term, p)[k].contains(x),
    ensures
        (m.contains_key(k) && m[k].contains(x)) || (term == k && x == p),
{
    if term == k {
        let o = if m.contains_key(term) { m[term] } else { Seq::empty() };
        let i = choose|i: int| 0 <= i < o.push(p).len() && o.push(p)[i] == x;
        if i < o.len() {
            assert(o[i] == x);
        }
    }
}

proof fn lemma_position_from_token(ts: Seq<TokenSpec>, k: Seq<char>, x: (u32, u32))
    requires
        build_pos(ts).contains_key(k),
        build_pos(ts)[k].contains(x),
    ensures
        exists|j: int| 0 <= j < ts.len() && recorded_under(ts[j], k) && #[trigger] span(ts[j]) == x,
    decreases ts.len(),
{
    let pre = ts.drop_last();
    let t = ts.last();
    let m0 = build_pos(pre);
    let m1 = push_pos(m0, t.term, span(t));
    let m2 = match full_form(t.term) {
        Some(f) => push_pos(m1, f, span(t)),
        None => m1,
    };
    let from_last = recorded_under(t, k) && x == span(t);
    let in_pre = m0.contains_key(k) && m0[k].contains(x);
    assert(in_pre || from_last) by {
        let in1 = m1.contains_key(k) && m1[k].contains(x);
        let in2 = m2.contains_key(k) && m2[k].contains(x);
        match initials_form(t.term) {
            Some(i) => {
                lemma_push_pos_members(m2, i, span(t), k, x);
            },
            None => {},
        }
        if in2 {
            match full_form(t.term) {
                Some(f) => {
                    lemma_push_pos_members(m1, f, span(t), k, x);
                },
                None => {},
            }
            if in1 {
                lemma_push_pos_members(m0, t.term, span(t), k, x);
            }
        }
    }
    if from_last {
        assert(ts[ts.len() - 1] == t);
    } else {
        lemma_position_from_token(pre, k, x);
        let j = choose|j: int| 0 <= j < pre.len() && recorded_under(pre[j], k) && #[trigger] span(pre[j]) == x;
        assert(ts[j] == pre[j]);
    }
}

/// Every position a document records under a key is the character range of
/// a token of its text that is that key as written or has it as its full
/// pinyin or its initials: matching by pinyin highlights the Chinese text
/// itself.
pub proof fn lemma_positions_are_token_ranges(text: Seq<char>, k: Seq<char>, x: (u32, u32))
    requires
        doc_from_tokens(text, spec_tokenize(text)).term_pos.contains_key(k),
        doc_from_tokens(text, spec_tokenize(text)).term_pos[k].contains(x),
    ensures
        exists|j: int|
            0 <= j < spec_tokenize(text).len() && recorded_under(spec_tokenize(text)[j], k) && #[trigger] span(
                spec_tokenize(text)[j],
            ) == x,
{
    lemma_position_from_token(spec_tokenize(text), k, x);
}

/// `add_doc` with indexing enters the term of every token of the text in
/// the dictionary of its named index.
pub proof fn lemma_add_enters_token_terms(s: IndexView, idx: Seq<char>, d: Seq<char>, text: Seq<char>)
    requires
        spec_tokenize(text).len() < u32::MAX,
    ensures
        forall|i: int|
            0 <= i < spec_tokenize(text).len() ==> dict_of(s.add_doc_spec(idx, d, text, true), idx).contains(
                #[trigger] spec_tokenize(text)[i].term,
            ),
{
    let ts = spec_tokenize(text);
    let ft = first_terms(ts);
    lemma_build_freqs_positive(ts);
    lemma_first_terms_counted(ts);
    assert forall|i: int| 0 <= i < ts.len() implies dict_of(s.add_doc_spec(idx, d, text, true), idx).contains(#[trigger] ts[i].term) by {
        assert(ft.contains(ts[i].term));
        assert(ft.len() > 0);
    }
}

proof fn lemma_filter_all(l: Seq<Seq<char>>, p: spec_fn(Seq<char>) -> bool)
    requires
        forall|i: int| 0 <= i < l.len() ==> p(#[trigger] l[i]),
    ensures
        l.filter(p) == l,
    decreases l.len(),
{
    reveal(Seq::filter);
    if l.len() > 0 {
        let pre = l.drop_last();
        assert forall|i: int| 0 <= i < pre.len() implies p(#[trigger] pre[i]) by {
            assert(pre[i] == l[i]);
        }
        lemma_filter_all(pre, p);
        assert(p(l[l.len() - 1]));
        assert(pre.push(l.last()) =~= l);
    }
}

proof fn lemma_filter_push_dropped(l: Seq<Seq<char>>, x: Seq<char>, p: spec_fn(Seq<char>) -> bool)
    requires
        !p(x),
    ensures
        l.push(x).filter(p) == l.filter(p),
{
    reveal(Seq::filter);
    assert(l.push(x).drop_last() =~= l);
}

/// `w` holds the lists of `g0` and, besides, only terms of `gone`, and
/// no empty list.
pub open spec fn restores_under(w: Map<Seq<char>, Seq<Seq<char>>>, g0: Map<Seq<char>, Seq<Seq<char>>>, gone: Set<Seq<char>>) -> bool {
    &&& forall|g: Seq<char>| #[trigger] list_or_empty(w, g).filter(kept_under(g, gone)) == list_or_empty(g0, g)
    &&& forall|g: Seq<char>, t: Seq<char>|
        #![trigger g0[g].contains(t)]
        g0.contains_key(g) && g0[g].contains(t) ==> w.contains_key(g) && w[g].contains(t)
    &&& lists_nonempty(w)
}

proof fn lemma_with_terms_restorable(
    g0: Map<Seq<char>, Seq<Seq<char>>>,
    terms: Set<Seq<char>>,
    gone: Set<Seq<char>>,
    ts: Seq<Seq<char>>,
)
    requires
        listed_once(g0, terms),
        listed_among(g0, terms),
        lists_nonempty(g0),
        forall|t: Seq<char>| gone.contains(t) ==> !terms.contains(t),
        forall|i: int| 0 <= i < ts.len() ==> terms.contains(#[trigger] ts[i]) || gone.contains(ts[i]),
    ensures
        restores_under(with_terms(g0, ts), g0, gone),
    decreases ts.len(),
{
    if ts.len() == 0 {
        assert forall|g: Seq<char>| #[trigger] list_or_empty(g0, g).filter(kept_under(g, gone)) == list_or_empty(g0, g) by {
            let l = list_or_empty(g0, g);
            assert forall|i: int| 0 <= i < l.len() implies kept_under(g, gone)(#[trigger] l[i]) by {
                assert(g0.contains_key(g));
                assert(g0[g].contains(l[i]));
            }
            lemma_filter_all(l, kept_under(g, gone));
        }
    } else {
        let pre = ts.drop_last();
        let x = ts.last();
        assert forall|i: int| 0 <= i < pre.len() implies terms.contains(#[trigger] pre[i]) || gone.contains(pre[i]) by {
            assert(pre[i] == ts[i]);
        }
        lemma_with_terms_restorable(g0, terms, gone, pre);
        let w0 = with_terms(g0, pre);
        let w = with_terms(g0, ts);
        assert(w == with_term(w0, x));
        assert(terms.contains(x) || gone.contains(x)) by {
            assert(ts[ts.len() - 1] == x);
        }
        if x.len() >= 3 {
            let gs = trigrams(x);
            assert forall|g: Seq<char>| #[trigger] list_or_empty(w, g).filter(kept_under(g, gone)) == list_or_empty(g0, g) by {
                let o = list_or_empty(w0, g);
                assert(list_or_empty(w0, g).filter(kept_under(g, gone)) == list_or_empty(g0, g));
                if gs.contains(g) && !o.contains(x) {
                    if terms.contains(x) {
                        assert(g0.contains_key(g) && count_in(g0[g], x) == 1);
                        lemma_count_contains(g0[g], x);
                        assert(g0[g].contains(x));
                        assert(w0[g].contains(x));
                    }
                    assert(!kept_under(g, gone)(x));
                    lemma_filter_push_dropped(o, x, kept_under(g, gone));
                }
            }
            assert forall|g: Seq<char>, t: Seq<char>|
                #![trigger g0[g].contains(t)]
                g0.contains_key(g) && g0[g].contains(t) implies w.contains_key(g) && w[g].contains(t) by {
                assert(w0.contains_key(g) && w0[g].contains(t));
                let o = list_or_empty(w0, g);
                if gs.contains(g) && !o.contains(x) {
                    let i = choose|i: int| 0 <= i < o.len() && o[i] == t;
                    assert(o.push(x)[i] == t);
                }
            }
            assert forall|g: Seq<char>| #[trigger] w.contains_key(g) implies w[g].len() > 0 by {
                let o = list_or_empty(w0, g);
                if gs.contains(g) && o.contains(x) {
                    let i = choose|i: int| 0 <= i < o.len() && o[i] == x;
                }
            }
        }
    }
}

/// Adding terms each already listed or about to be removed, and then
/// removing those, gives back the trigram index.
proof fn lemma_add_remove_terms(
    g0: Map<Seq<char>, Seq<Seq<char>>>,
    terms: Set<Seq<char>>,
    gone: Set<Seq<char>>,
    ts: Seq<Seq<char>>,
)
    requires
        listed_once(g0, terms),
        listed_among(g0, terms),
        lists_nonempty(g0),
        forall|t: Seq<char>| gone.contains(t) ==> !terms.contains(t),
        forall|i: int| 0 <= i < ts.len() ==> terms.contains(#[trigger] ts[i]) || gone.contains(ts[i]),
    ensures
        without_terms(with_terms(g0, ts), gone) == g0,
{
    lemma_with_terms_restorable(g0, terms, gone, ts);
    let w = with_terms(g0, ts);
    let r = without_terms(w, gone);
    assert forall|g: Seq<char>| #[trigger] r.contains_key(g) == g0.contains_key(g) && (r.contains_key(g) ==> r[g] == g0[g]) by {
        assert(list_or_empty(w, g).filter(kept_under(g, gone)) == list_or_empty(g0, g));
        if !touched(g, gone) {
            assert forall|i: int| 0 <= i < list_or_empty(w, g).len() implies kept_under(g, gone)(#[trigger] list_or_empty(w, g)[i]) by {
                let y = list_or_empty(w, g)[i];
                if !kept_under(g, gone)(y) {
                    assert(touched(g, gone));
                }
            }
            lemma_filter_all(list_or_empty(w, g), kept_under(g, gone));
        }
        if g0.contains_key(g) {
            let l = g0[g];
            assert(l.contains(l[0]));
            assert(w.contains_key(g));
        } else if w.contains_key(g) {
            assert(w[g].len() > 0);
        }
    }
    assert(r =~= g0);
}

/// Removing a document freshly added to a consistent named index gives
/// back that named index: the same documents, postings, total, dictionary
/// and trigram lists; the document is then recorded as deleted and not as
/// dirty.
pub proof fn lemma_add_then_remove_restores(s: IndexView, idx: Seq<char>, d: Seq<char>, text: Seq<char>, index: bool)
    requires
        consistent(s, idx),
        !docs_of(s, idx).contains_key(d),
        index ==> spec_tokenize(text).len() < u32::MAX,
        fits_i64(s.total_of(idx) + if index { spec_tokenize(text).len() as int } else { 0 }),
    ensures
        ({
            let r = s.add_doc_spec(idx, d, text, index).remove_doc_spec(idx, d);
            &&& docs_of(r, idx) == docs_of(s, idx)
            &&& inv_of(r, idx) == inv_of(s, idx)
            &&& r.total_of(idx) == s.total_of(idx)
            &&& dict_of(r, idx) == dict_of(s, idx)
            &&& grams_of(r, idx) == grams_of(s, idx)
            &&& r.deleted.contains_key(idx) && r.deleted[idx].contains(d)
            &&& !(r.dirty.contains_key(idx) && r.dirty[idx].contains(d))
        }),
{
    let ts = if index { spec_tokenize(text) } else { Seq::empty() };
    let doc = doc_from_tokens(text, ts);
    let tf = doc.term_freqs;
    let k = doc.term_pos.dom();
    let ft = first_terms(ts);
    lemma_build_keys(ts);
    lemma_first_terms_counted(ts);
    let docs = docs_of(s, idx);
    let inv = inv_of(s, idx);
    let dict = dict_of(s, idx);
    let a = s.add_doc_spec(idx, d, text, index);
    let r = a.remove_doc_spec(idx, d);
    assert(!s.has_doc(idx, d));
    assert(a.has_doc(idx, d) && a.docs[idx][d] == doc);
    assert(docs_of(a, idx) == docs.insert(d, doc));
    assert(docs_of(r, idx) =~= docs);
    let inv_a = inverted_with_doc(inv, d, tf);
    assert(a.inverted.contains_key(idx) && a.inverted[idx] == inv_a);
    assert(inv_of(r, idx) == inverted_without_doc(inv_a, d, k));
    // the document is in no posting list before it is added
    assert forall|t: Seq<char>, sel: PostingSelector| !(#[trigger] listed_in(inv, t, sel)).contains_key(d) by {
        if listed_in(inv, t, sel).contains_key(d) {
            assert(count_of(docs, d, t, sel) > 0);
        }
    }
    // postings
    assert forall|t: Seq<char>| #[trigger] tf.contains_key(t) implies posting_without(inv_a[t], d) == get_or(
        inv,
        t,
        PostingView::empty(),
    ) by {
        let base = get_or(inv, t, PostingView::empty());
        if inv.contains_key(t) {
            assert(!listed_in(inv, t, PostingSelector::Original).contains_key(d));
            assert(!listed_in(inv, t, PostingSelector::PinyinFull).contains_key(d));
            assert(!listed_in(inv, t, PostingSelector::PinyinInitials).contains_key(d));
        }
        assert(posting_without(inv_a[t], d).original =~= base.original);
        assert(posting_without(inv_a[t], d).pinyin_full =~= base.pinyin_full);
        assert(posting_without(inv_a[t], d).pinyin_initials =~= base.pinyin_initials);
    }
    assert forall|t: Seq<char>| #[trigger] inverted_without_doc(inv_a, d, k).contains_key(t) == inv.contains_key(t) by {
        if tf.contains_key(t) && !inv.contains_key(t) {
            assert(PostingView::empty().is_empty());
        }
    }
    assert(inverted_without_doc(inv_a, d, k) =~= inv);
    // dictionary and trigram lists
    let ins = a.docs[idx].remove(d);
    let a1 = IndexView {
        docs: a.docs.insert(idx, ins),
        total_lens: a.total_lens.insert(idx, (a.total_of(idx) - doc.doc_len) as i64),
        ..a
    };
    assert(r.term_dict == a1.drop_doc_terms(idx, d, k).term_dict);
    assert(r.ngram_index == a1.drop_doc_terms(idx, d, k).ngram_index);
    if a.term_dict.contains_key(idx) {
        let td = a.term_dict[idx];
        let gone = dropped_terms(inv_a, d, k, td);
        assert(td == dict.union(ft.to_set()) || (ft.len() == 0 && td == dict));
        assert forall|t: Seq<char>| #[trigger] gone.contains(t) <==> (ft.contains(t) && !dict.contains(t)) by {
            let lo = listed_in(inv, t, PostingSelector::Original);
            assert(dict.contains(t) <==> lo != Map::<Seq<char>, i64>::empty());
            if tf.contains_key(t) {
                assert(posting_without(inv_a[t], d).original == get_or(inv, t, PostingView::empty()).original);
                assert(get_or(inv, t, PostingView::empty()).original == lo);
            }
            if ft.contains(t) {
                assert(ft.to_set().contains(t));
            }
            if gone.contains(t) && !ft.contains(t) {
                assert(td.contains(t));
                if ft.len() > 0 {
                    assert(dict.contains(t) || ft.to_set().contains(t));
                }
                assert(dict.contains(t));
                assert(lo != Map::<Seq<char>, i64>::empty());
            }
        }
        assert(dict_of(r, idx) == td.difference(gone));
        assert(td.difference(gone) =~= dict);
        if a.ngram_index.contains_key(idx) {
            let ga = a.ngram_index[idx];
            assert(grams_of(r, idx) == without_terms(ga, gone));
            if ft.len() > 0 {
                assert(ga == with_terms(grams_of(s, idx), ft));
                assert forall|i: int| 0 <= i < ft.len() implies dict.contains(#[trigger] ft[i]) || gone.contains(ft[i]) by {
                    assert(ft.contains(ft[i]));
                }
                lemma_add_remove_terms(grams_of(s, idx), dict, gone, ft);
            } else {
                assert(ga == grams_of(s, idx));
                assert(gone =~= Set::<Seq<char>>::empty());
                assert forall|g: Seq<char>| !touched(g, gone) by {
                }
                assert(without_terms(ga, gone) =~= ga);
            }
        } else {
            assert(grams_of(r, idx) == grams_of(s, idx));
        }
    } else {
        assert(dict_of(r, idx) == dict_of(s, idx));
        assert(grams_of(r, idx) == grams_of(s, idx));
    }
}

/// The postings of a named index mirror the counts of its documents and
/// hold no empty entry; each document's counts are positive and under the
/// terms it has positions for.
pub open spec fn postings_mirror(s: IndexView, idx: Seq<char>) -> bool {
    &&& postings_agree(s, idx)
    &&& postings_whole(s, idx)
}

proof fn lemma_mirror_same_parts(s: IndexView, t: IndexView, idx: Seq<char>)
    requires
        docs_of(s, idx) == docs_of(t, idx),
        inv_of(s, idx) == inv_of(t, idx),
    ensures
        postings_mirror(s, idx) == postings_mirror(t, idx),
{
}

/// `add_doc` keeps the postings of every named index mirroring the counts
/// of its documents, whatever the dictionary and the trigram lists hold.
pub proof fn lemma_add_keeps_postings(s: IndexView, idx2: Seq<char>, idx: Seq<char>, d: Seq<char>, text: Seq<char>, index: bool)
    requires
        postings_mirror(s, idx2),
        index ==> spec_tokenize(text).len() < u32::MAX,
    ensures
        postings_mirror(s.add_doc_spec(idx, d, text, index), idx2),
{
    let t = s.add_doc_spec(idx, d, text, index);
    let ts = if index { spec_tokenize(text) } else { Seq::empty() };
    let s1 = if s.has_doc(idx, d) { without_doc(s, idx, d) } else { s };
    let s3 = with_new_doc(s1, idx, d, text, ts);
    if idx2 == idx {
        if s.has_doc(idx, d) {
            lemma_without_doc_postings(s, idx, d);
            lemma_without_doc_whole_postings(s, idx, d);
        }
        lemma_with_new_doc_postings(s1, idx, d, text, ts);
        lemma_with_new_doc_whole_postings(s1, idx, d, text, ts);
        assert(docs_of(s3, idx) == docs_of(t, idx));
        assert(inv_of(s3, idx) == inv_of(t, idx));
        lemma_mirror_same_parts(s3, t, idx);
    } else {
        assert(docs_of(t, idx2) == docs_of(s, idx2));
        assert(inv_of(t, idx2) == inv_of(s, idx2));
        lemma_mirror_same_parts(s, t, idx2);
    }
}

/// `remove_doc` keeps the postings of every named index mirroring the
/// counts of its documents, whatever the dictionary and the trigram lists
/// hold, and leaves the removed document in no posting list.
pub proof fn lemma_remove_keeps_postings(s: IndexView, idx2: Seq<char>, idx: Seq<char>, d: Seq<char>)
    requires
        postings_mirror(s, idx2),
    ensures
        postings_mirror(s.remove_doc_spec(idx, d), idx2),
        idx2 == idx ==> forall|t: Seq<char>, sel: PostingSelector|
            !(#[trigger] listed_in(inv_of(s.remove_doc_spec(idx, d), idx), t, sel)).contains_key(d),
{
    let t = s.remove_doc_spec(idx, d);
    if s.has_doc(idx, d) && idx2 == idx {
        let s1 = without_doc(s, idx, d);
        lemma_without_doc_postings(s, idx, d);
        lemma_without_doc_whole_postings(s, idx, d);
        assert(docs_of(s1, idx) == docs_of(t, idx));
        assert(inv_of(s1, idx) == inv_of(t, idx));
        lemma_mirror_same_parts(s1, t, idx);
    } else if s.has_doc(idx, d) {
        assert(docs_of(t, idx2) == docs_of(s, idx2));
        assert(inv_of(t, idx2) == inv_of(s, idx2));
        lemma_mirror_same_parts(s, t, idx2);
    } else if idx2 == idx {
        assert forall|tm: Seq<char>, sel: PostingSelector| !(#[trigger] listed_in(inv_of(t, idx), tm, sel)).contains_key(d) by {
            if listed_in(inv_of(s, idx), tm, sel).contains_key(d) {
                assert(count_of(docs_of(s, idx), d, tm, sel) > 0);
            }
        }
    }
}

/// Every search mode but pinyin and fuzzy matching begins with BM25 over
/// the terms as written, whatever characters the query holds; exact
/// matching tries that stage alone.
pub proof fn lemma_written_terms_tried_first(mode: SearchMode, ascii_alpha: bool)
    ensures
        mode != SearchMode::Pinyin && mode != SearchMode::Fuzzy ==> stages_for(mode, ascii_alpha).len() > 0 && stages_for(
            mode,
            ascii_alpha,
        )[0] == SearchStage::Bm25(PostingSelector::Original),
        mode == SearchMode::Exact ==> stages_for(mode, ascii_alpha) == seq![SearchStage::Bm25(PostingSelector::Original)],
{
}

proof fn lemma_push_pos_keeps(m: Map<Seq<char>, Seq<(u32, u32)>>, term: Seq<char>, p: (u32, u32), k: Seq<char>, x: (u32, u32))
    requires
        (m.contains_key(k) && m[k].contains(x)) || (term == k && x == p),
    ensures
        push_pos(m, term, p).contains_key(k) && push_pos(m, term, p)[k].contains(x),
{
    let o = if m.contains_key(term) { m[term] } else { Seq::empty() };
    if term == k {
        if x == p {
            assert(o.push(p)[o.len() as int] == p);
        } else {
            let i = choose|i: int| 0 <= i < o.len() && o[i] == x;
            assert(o.push(p)[i] == x);
        }
    }
}

/// Every token has its range recorded under its term, and under its full
/// pinyin and its initials where it has them: each occurrence, not only the
/// first.
pub proof fn lemma_token_positions_recorded(ts: Seq<TokenSpec>, i: int, k: Seq<char>)
    requires
        0 <= i < ts.len(),
        recorded_under(ts[i], k),
    ensures
        build_pos(ts).contains_key(k) && build_pos(ts)[k].contains(span(ts[i])),
    decreases ts.len(),
{
    let pre = ts.drop_last();
    let t = ts.last();
    let x = span(ts[i]);
    let m0 = build_pos(pre);
    let m1 = push_pos(m0, t.term, span(t));
    let m2 = match full_form(t.term) {
        Some(f) => push_pos(m1, f, span(t)),
        None => m1,
    };
    let m3 = build_pos(ts);
    assert(m3 == match initials_form(t.term) {
        Some(g) => push_pos(m2, g, span(t)),
        None => m2,
    });
    let last = i == ts.len() - 1;
    if i < pre.len() {
        assert(pre[i] == ts[i]);
        lemma_token_positions_recorded(pre, i, k);
    } else {
        assert(ts[i] == t);
    }
    let in0 = m0.contains_key(k) && m0[k].contains(x);
    if in0 || (last && t.term == k) {
        lemma_push_pos_keeps(m0, t.term, span(t), k, x);
    }
    let in1 = m1.contains_key(k) && m1[k].contains(x);
    match full_form(t.term) {
        Some(f) => {
            if in1 || (last && f == k) {
                lemma_push_pos_keeps(m1, f, span(t), k, x);
            }
        },
        None => {},
    }
    let in2 = m2.contains_key(k) && m2[k].contains(x);
    match initials_form(t.term) {
        Some(g) => {
            if in2 || (last && g == k) {
                lemma_push_pos_keeps(m2, g, span(t), k, x);
            }
        },
        None => {},
    }
}

/// Every token of an indexed text has its range recorded under its term
/// and under its full pinyin and its initials where it has them: matching
/// by pinyin finds every occurrence of the Chinese text, not only the first.
pub proof fn lemma_token_ranges_recorded(text: Seq<char>, i: int, k: Seq<char>)
    requires
        0 <= i < spec_tokenize(text).len(),
        recorded_under(spec_tokenize(text)[i], k),
    ensures
        doc_from_tokens(text, spec_tokenize(text)).term_pos.contains_key(k),
        doc_from_tokens(text, spec_tokenize(text)).term_pos[k].contains(span(spec_tokenize(text)[i])),
{
    lemma_token_positions_recorded(spec_tokenize(text), i, k);
}

proof fn lemma_raw_matches_members(pos: Map<Seq<char>, Seq<(u32, u32)>>, ts: Seq<TokenSpec>, x: (u32, u32))
    ensures
        raw_matches(pos, ts).contains(x) <==> exists|i: int|
            0 <= i < ts.len() && pos.contains_key(#[trigger] ts[i].term) && pos[ts[i].term].contains(x),
    decreases ts.len(),
{
    if ts.len() > 0 {
        let pre = ts.drop_last();
        let l = get_or(pos, ts.last().term, Seq::empty());
        let a = raw_matches(pos, pre);
        lemma_raw_matches_members(pos, pre, x);
        assert(raw_matches(pos, ts) == a + l);
        if (a + l).contains(x) {
            let j = choose|j: int| 0 <= j < (a + l).len() && (a + l)[j] == x;
            if j < a.len() {
                assert(a[j] == x);
                let i = choose|i: int| 0 <= i < pre.len() && pos.contains_key(#[trigger] pre[i].term) && pos[pre[i].term].contains(x);
                assert(ts[i] == pre[i]);
            } else {
                assert(l[j - a.len()] == x);
                assert(ts[ts.len() - 1] == ts.last());
            }
        }
        if exists|i: int| 0 <= i < ts.len() && pos.contains_key(#[trigger] ts[i].term) && pos[ts[i].term].contains(x) {
            let i = choose|i: int| 0 <= i < ts.len() && pos.contains_key(#[trigger] ts[i].term) && pos[ts[i].term].contains(x);
            if i < pre.len() {
                assert(pre[i] == ts[i]);
                assert(a.contains(x));
                let j = choose|j: int| 0 <= j < a.len() && a[j] == x;
                assert((a + l)[j] == x);
            } else {
                assert(ts[i] == ts.last());
                let j = choose|j: int| 0 <= j < l.len() && l[j] == x;
                assert((a + l)[a.len() + j] == x);
            }
        }
    }
}

/// Highlighting finds every position of every query term and nothing else:
/// where `r` holds the positions a document records under the query's
/// terms, sorted by start (as `get_matches` returns), each range recorded
/// under the term of any query token is in `r`, and each range of `r` is
/// recorded under the term of some query token.
pub proof fn lemma_matches_hold_every_query_term(r: Seq<(u32, u32)>, pos: Map<Seq<char>, Seq<(u32, u32)>>, ts: Seq<TokenSpec>)
    requires
        stable_sorted_by_start(r, raw_matches(pos, ts)),
    ensures
        forall|i: int, j: int|
            0 <= i < ts.len() && pos.contains_key(ts[i].term) && 0 <= j < pos[ts[i].term].len() ==> r.contains(
                #[trigger] pos[ts[i].term][j],
            ),
        forall|x: (u32, u32)|
            r.contains(x) ==> exists|i: int| 0 <= i < ts.len() && pos.contains_key(#[trigger] ts[i].term) && pos[ts[i].term].contains(x),
{
    let raw = raw_matches(pos, ts);
    assert forall|x: (u32, u32)| r.contains(x) <==> raw.contains(x) by {
        let p = starts_at(x.0);
        assert(r.filter(p) == raw.filter(p));
        if r.contains(x) {
            let j = choose|j: int| 0 <= j < r.len() && r[j] == x;
            r.lemma_filter_contains(p, j);
            raw.lemma_filter_contains_rev(p, x);
        }
        if raw.contains(x) {
            let j = choose|j: int| 0 <= j < raw.len() && raw[j] == x;
            raw.lemma_filter_contains(p, j);
            r.lemma_filter_contains_rev(p, x);
        }
        lemma_raw_matches_members(pos, ts, x);
    }
    assert forall|i: int, j: int|
        0 <= i < ts.len() && pos.contains_key(ts[i].term) && 0 <= j < pos[ts[i].term].len() implies r.contains(
            #[trigger] pos[ts[i].term][j],
        ) by {
        let x = pos[ts[i].term][j];
        assert(pos[ts[i].term].contains(x));
        lemma_raw_matches_members(pos, ts, x);
    }
    assert forall|x: (u32, u32)|
        r.contains(x) implies exists|i: int| 0 <= i < ts.len() && pos.contains_key(#[trigger] ts[i].term) && pos[ts[i].term].contains(x) by {
        lemma_raw_matches_members(pos, ts, x);
    }
}

/// A term of `n >= 3` characters has exactly `n - 2` trigrams, the `i`-th
/// being its characters `i..i+3`; a shorter term has none.  Adding a term to
/// the trigram index lists it under every three-character stretch of it,
/// and removing it leaves it under none.
pub proof fn lemma_every_stretch_listed(ng: Map<Seq<char>, Seq<Seq<char>>>, term: Seq<char>)
    ensures
        trigrams(term).len() == if term.len() >= 3 { term.len() - 2 } else { 0 },
        forall|i: int| 0 <= i < trigrams(term).len() ==> #[trigger] trigrams(term)[i] == term.subrange(i, i + 3),
        forall|i: int|
            0 <= i && i + 3 <= term.len() ==> with_term(ng, term).contains_key(#[trigger] term.subrange(i, i + 3))
                && with_term(ng, term)[term.subrange(i, i + 3)].contains(term),
        forall|i: int|
            0 <= i && i + 3 <= term.len() && without_term(ng, term).contains_key(#[trigger] term.subrange(i, i + 3))
                ==> !without_term(ng, term)[term.subrange(i, i + 3)].contains(term),
{
    let gs = trigrams(term);
    assert forall|i: int| 0 <= i && i + 3 <= term.len() implies with_term(ng, term).contains_key(#[trigger] term.subrange(i, i + 3))
        && with_term(ng, term)[term.subrange(i, i + 3)].contains(term) by {
        let g = term.subrange(i, i + 3);
        assert(gs[i] == g);
        assert(gs.contains(g));
        let o = list_or_empty(ng, g);
        if !o.contains(term) {
            assert(o.push(term)[o.len() as int] == term);
        }
    }
    assert forall|i: int|
        0 <= i && i + 3 <= term.len() && without_term(ng, term).contains_key(#[trigger] term.subrange(i, i + 3)) implies !without_term(
        ng,
        term,
    )[term.subrange(i, i + 3)].contains(term) by {
        let g = term.subrange(i, i + 3);
        assert(gs[i] == g);
        assert(gs.contains(g));
        let f = ng[g].filter(other_than(term));
        if f.contains(term) {
            let j = choose|j: int| 0 <= j < f.len() && f[j] == term;
            ng[g].lemma_filter_pred(other_than(term), j);
        }
    }
}

} // verus!

