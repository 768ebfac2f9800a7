//! The parts of searching that decide which documents a query can match and
//! hand out the counts that ranking works on.
use vstd::prelude::*;
use crate::strmap::{Duplicate, StrMap, StrSet};
use crate::text::{
    ascii_alpha_char, chars_of, generate_trigrams, is_ascii_alpha, spec_tokenize, token_views, tokenize, trigrams, Token,
    TokenSpec,
};
use crate::fuzzy::{names, ngram_view, listed, hit_counts, top_ranked, trigram_candidates, FUZZY_MAX_CANDIDATES};
use crate::types::{DocData, DocView, IndexView, InMemoryIndex, PostingView, SearchMode, TermPosting};

verus! {

/// Which of a term's posting lists a search reads.
#[derive(Debug, Clone, Copy, PartialEq, Eq, Structural)]
pub enum PostingSelector {
    Original,
    PinyinFull,
    PinyinInitials,
}

impl PostingSelector {
    pub open spec fn pick(self, p: PostingView) -> Map<Seq<char>, i64> {
        match self {
            PostingSelector::Original => p.original,
            PostingSelector::PinyinFull => p.pinyin_full,
            PostingSelector::PinyinInitials => p.pinyin_initials,
        }
    }

    /// The selected list of a posting, where it is not empty.
    pub fn map<'a>(&self, entry: &'a TermPosting) -> (r: Option<&'a StrMap<i64>>)
        ensures
            match r {
                Some(m) => m@ == self.pick(entry@) && m@ != Map::<Seq<char>, i64>::empty(),
                None => self.pick(entry@) == Map::<Seq<char>, i64>::empty(),
            },
    {
        let m = match self {
            PostingSelector::Original => &entry.original,
            PostingSelector::PinyinFull => &entry.pinyin_full,
            PostingSelector::PinyinInitials => &entry.pinyin_initials,
        };
        if m.is_empty() {
            None
        } else {
            Some(m)
        }
    }
}

/// Every token is made of ASCII letters only, and there is one at least.
pub open spec fn ascii_alpha_query(ts: Seq<TokenSpec>) -> bool {
    ts.len() > 0 && forall|i: int, j: int|
        0 <= i < ts.len() && 0 <= j < ts[i].term.len() ==> is_ascii_alpha(#[trigger] ts[i].term[j])
}

pub fn is_ascii_alpha_query(tokens: &Vec<Token>) -> (r: bool)
    ensures
        r == ascii_alpha_query(token_views(tokens@)),
{
    let ghost ts = token_views(tokens@);
    if tokens.len() == 0 {
        return false;
    }
    let mut i: usize = 0;
    while i < tokens.len()
        invariant
            i <= tokens@.len(),
            ts == token_views(tokens@),
            forall|a: int, j: int| 0 <= a < i && 0 <= j < ts[a].term.len() ==> is_ascii_alpha(#[trigger] ts[a].term[j]),
        decreases tokens@.len() - i,
    {
        let cs = chars_of(tokens[i].term.as_str());
        let mut k: usize = 0;
        while k < cs.len()
            invariant
                k <= cs@.len(),
                i < tokens@.len(),
                ts == token_views(tokens@),
                cs@ == ts[i as int].term,
                forall|j: int| 0 <= j < k ==> is_ascii_alpha(#[trigger] cs@[j]),
            decreases cs@.len() - k,
        {
            if !ascii_alpha_char(cs[k]) {
                assert(!is_ascii_alpha(ts[i as int].term[k as int]));
                return false;
            }
            k = k + 1;
        }
        i = i + 1;
    }
    true
}

/// What ranking a query by BM25 works on.
pub struct ScoringInput {
    /// The number of documents of the named index.
    pub doc_count: usize,
    /// The recorded total of their lengths (0 where none is recorded).
    pub total_len: i64,
    /// Each query term in order, with its selected posting list.
    pub terms: Vec<(String, StrMap<i64>)>,
    /// The stored documents in every selected list, each once, with its
    /// length.
    pub candidates: Vec<(String, i64)>,
}

impl IndexView {
    /// Whether every query term has a non-empty selected posting list in the
    /// named index `idx`, which has postings and documents.
    pub open spec fn all_terms_listed(self, idx: Seq<char>, ts: Seq<TokenSpec>, sel: PostingSelector) -> bool {
        &&& ts.len() > 0
        &&& self.inverted.contains_key(idx)
        &&& self.docs.contains_key(idx)
        &&& forall|i: int| #![trigger ts[i]] 0 <= i < ts.len() ==> self.inverted[idx].contains_key(ts[i].term)
            && sel.pick(self.inverted[idx][ts[i].term]) != Map::<Seq<char>, i64>::empty()
    }

    /// Whether document `d` is in the selected list of each of the first `n`
    /// query terms.
    pub open spec fn in_lists(self, idx: Seq<char>, ts: Seq<TokenSpec>, n: int, sel: PostingSelector, d: Seq<char>) -> bool {
        forall|i: int| #![trigger ts[i]] 0 <= i < n ==> sel.pick(self.inverted[idx][ts[i].term]).contains_key(d)
    }

    /// The documents in the selected list of every query term.
    pub open spec fn common_docs(self, idx: Seq<char>, ts: Seq<TokenSpec>, sel: PostingSelector) -> Set<Seq<char>> {
        Set::new(|d: Seq<char>| self.in_lists(idx, ts, ts.len() as int, sel, d))
    }

    /// Whether BM25 ranking has anything to rank: every term is listed, some
    /// document is in every list, and the named index stores documents.
    pub open spec fn bm25_ready(self, idx: Seq<char>, ts: Seq<TokenSpec>, sel: PostingSelector) -> bool {
        &&& self.all_terms_listed(idx, ts, sel)
        &&& self.common_docs(idx, ts, sel) != Set::<Seq<char>>::empty()
        &&& self.docs[idx].len() > 0
    }
}

/// The keys of a posting list.
fn keys_of(m: &StrMap<i64>) -> (r: StrSet)
    ensures
        r@ == m@.dom(),
{
    let es = m.entries();
    let mut out = StrSet::new();
    let mut i: usize = 0;
    while i < es.len()
        invariant
            i <= es@.len(),
            forall|j: int| #![trigger es@[j]] 0 <= j < es@.len() ==> m@.contains_key(es@[j].0@),
            forall|k: Seq<char>| #[trigger] m@.contains_key(k) ==> exists|j: int| 0 <= j < es@.len() && #[trigger] es@[j].0@ == k,
            out@ == Set::new(|k: Seq<char>| exists|j: int| 0 <= j < i && #[trigger] es@[j].0@ == k),
        decreases es@.len() - i,
    {
        let ghost before = out@;
        out.insert(es[i].0.clone());
        assert(out@ =~= Set::new(|k: Seq<char>| exists|j: int| 0 <= j < i + 1 && #[trigger] es@[j].0@ == k)) by {
            assert(es@[i as int].0@ == es@[i as int].0@);
        }
        i = i + 1;
    }
    assert(out@ =~= m@.dom());
    out
}

/// The members of `c` that are keys of `m`.
fn keep_keys(c: &StrSet, m: &StrMap<i64>) -> (r: StrSet)
    ensures
        r@ == c@.filter(|k: Seq<char>| m@.contains_key(k)),
{
    let ms = c.members();
    let mut out = StrSet::new();
    let mut i: usize = 0;
    while i < ms.len()
        invariant
            i <= ms@.len(),
            forall|j: int| 0 <= j < ms@.len() ==> #[trigger] c@.contains(ms@[j]@),
            forall|k: Seq<char>| #[trigger] c@.contains(k) ==> exists|j: int| 0 <= j < ms@.len() && #[trigger] ms@[j]@ == k,
            out@ == Set::new(|k: Seq<char>| m@.contains_key(k) && exists|j: int| 0 <= j < i && #[trigger] ms@[j]@ == k),
        decreases ms@.len() - i,
    {
        if m.contains_key(ms[i].as_str()) {
            out.insert(ms[i].clone());
        }
        assert(out@ =~= Set::new(|k: Seq<char>| m@.contains_key(k) && exists|j: int| 0 <= j < i + 1 && #[trigger] ms@[j]@ == k)) by {
            assert(ms@[i as int]@ == ms@[i as int]@);
        }
        i = i + 1;
    }
    assert(out@ =~= c@.filter(|k: Seq<char>| m@.contains_key(k)));
    out
}

pub open spec fn candidate_ids(v: Seq<(String, i64)>) -> Seq<Seq<char>> {
    v.map_values(|e: (String, i64)| e.0@)
}

pub open spec fn candidate_views(v: Seq<(String, i64)>) -> Seq<(Seq<char>, i64)> {
    v.map_values(|e: (String, i64)| (e.0@, e.1))
}

/// The members of `ids` that `docs` stores, each with its length.
pub open spec fn stored_lens(docs: Map<Seq<char>, DocView>, ids: Set<Seq<char>>) -> Set<(Seq<char>, i64)> {
    Set::new(|e: (Seq<char>, i64)| ids.contains(e.0) && docs.contains_key(e.0) && e.1 == docs[e.0].doc_len)
}

/// The members of `ids` that `docs` stores, each once, with its length.
fn stored_with_len(ids: &StrSet, docs: &StrMap<DocData>) -> (r: Vec<(String, i64)>)
    ensures
        candidate_ids(r@).no_duplicates(),
        candidate_views(r@).to_set() == stored_lens(docs@, ids@),
{
    let ms = ids.members();
    let mut out: Vec<(String, i64)> = Vec::new();
    let ghost mut done: Set<Seq<char>> = Set::empty();
    let mut k: usize = 0;
    while k < ms.len()
        invariant
            k <= ms@.len(),
            forall|j: int| 0 <= j < ms@.len() ==> #[trigger] ids@.contains(ms@[j]@),
            forall|d: Seq<char>| #[trigger] ids@.contains(d) ==> exists|j: int| 0 <= j < ms@.len() && #[trigger] ms@[j]@ == d,
            forall|a: int, b: int| 0 <= a < b < ms@.len() ==> ms@[a]@ != ms@[b]@,
            forall|d: Seq<char>| #[trigger] done.contains(d) <==> exists|j: int| 0 <= j < k && ms@[j]@ == d,
            candidate_ids(out@).no_duplicates(),
            forall|d: Seq<char>| #[trigger] candidate_ids(out@).contains(d) ==> done.contains(d),
            candidate_views(out@).to_set() == stored_lens(docs@, done),
        decreases ms@.len() - k,
    {
        let d = &ms[k];
        let ghost dv = d@;
        proof {
            if done.contains(dv) {
                let j = choose|j: int| 0 <= j < k && ms@[j]@ == dv;
                assert(ms@[j]@ != ms@[k as int]@);
            }
        }
        let ghost next = done.insert(dv);
        let ghost prev = out@;
        match docs.get(d.as_str()) {
            Some(data) => {
                let e = (d.clone(), data.doc_len);
                out.push(e);
                proof {
                    assert(candidate_ids(out@) =~= candidate_ids(prev).push(dv));
                    assert(candidate_views(out@) =~= candidate_views(prev).push((dv, data.doc_len)));
                    candidate_views(prev).lemma_push_to_set_commute((dv, data.doc_len));
                    assert forall|a: int, b: int| 0 <= a < b < candidate_ids(out@).len() implies candidate_ids(out@)[a]
                        != candidate_ids(out@)[b] by {
                        if b == prev.len() {
                            assert(candidate_ids(prev).contains(candidate_ids(prev)[a]));
                        }
                    }
                    assert forall|x: Seq<char>| #[trigger] candidate_ids(out@).contains(x) implies next.contains(x) by {
                        if x != dv {
                            let j = choose|j: int| 0 <= j < candidate_ids(out@).len() && candidate_ids(out@)[j] == x;
                            assert(j < prev.len());
                            assert(candidate_ids(prev)[j] == x);
                            assert(candidate_ids(prev).contains(x));
                        }
                    }
                    assert(stored_lens(docs@, next) =~= stored_lens(docs@, done).insert((dv, data.doc_len)));
                }
            },
            None => {
                assert(stored_lens(docs@, next) =~= stored_lens(docs@, done));
            },
        }
        proof {
            done = next;
        }
        k = k + 1;
    }
    proof {
        assert forall|d: Seq<char>| ids@.contains(d) implies #[trigger] done.contains(d) by {
            let j = choose|j: int| 0 <= j < ms@.len() && #[trigger] ms@[j]@ == d;
        }
        assert(stored_lens(docs@, done) =~= stored_lens(docs@, ids@));
    }
    out
}

impl InMemoryIndex {
    /// What BM25 ranking of `query_terms` over the selected posting lists of
    /// a named index works on; nothing where there is nothing to rank (see
    /// `bm25_ready`).
    pub fn bm25_input(&self, index_name: &str, query_terms: &Vec<Token>, selector: PostingSelector) -> (r: Option<ScoringInput>)
        ensures
            ({
                let ts = token_views(query_terms@);
                let s = self@;
                let idx = index_name@;
                match r {
                    None => !s.bm25_ready(idx, ts, selector),
                    Some(inp) => {
                        &&& s.bm25_ready(idx, ts, selector)
                        &&& inp.doc_count == s.docs[idx].len()
                        &&& inp.total_len as int == s.total_of(idx)
                        &&& inp.terms@.len() == ts.len()
                        &&& forall|i: int| #![trigger inp.terms@[i]] 0 <= i < ts.len() ==> inp.terms@[i].0@ == ts[i].term
                            && inp.terms@[i].1@ == selector.pick(s.inverted[idx][ts[i].term])
                        &&& candidate_ids(inp.candidates@).no_duplicates()
                        &&& candidate_views(inp.candidates@).to_set() == stored_lens(s.docs[idx], s.common_docs(idx, ts, selector))
                    },
                }
            }),
    {
        let ghost ts = token_views(query_terms@);
        let ghost s = self@;
        let ghost idx = index_name@;
        if query_terms.len() == 0 {
            return None;
        }
        let inverted = match self.inverted.get(index_name) {
            Some(i) => i,
            None => {
                return None;
            },
        };
        let docs = match self.docs.get(index_name) {
            Some(d) => d,
            None => {
                return None;
            },
        };
        let mut terms: Vec<(String, StrMap<i64>)> = Vec::new();
        let mut common = StrSet::new();
        let mut i: usize = 0;
        while i < query_terms.len()
            invariant
                0 < query_terms@.len(),
                i <= query_terms@.len(),
                ts == token_views(query_terms@),
                s == self@,
                idx == index_name@,
                s.inverted.contains_key(idx),
                inverted@ == s.inverted[idx],
                terms@.len() == i,
                forall|j: int| #![trigger ts[j]] 0 <= j < i ==> s.inverted[idx].contains_key(ts[j].term)
                    && selector.pick(s.inverted[idx][ts[j].term]) != Map::<Seq<char>, i64>::empty(),
                forall|j: int| #![trigger terms@[j]] 0 <= j < i ==> terms@[j].0@ == ts[j].term
                    && terms@[j].1@ == selector.pick(s.inverted[idx][ts[j].term]),
                i > 0 ==> common@ == Set::new(|d: Seq<char>| s.in_lists(idx, ts, i as int, selector, d)),
                i > 0 ==> common@ != Set::<Seq<char>>::empty(),
            decreases query_terms@.len() - i,
        {
            let term = &query_terms[i].term;
            let entry = match inverted.get(term.as_str()) {
                Some(e) => e,
                None => {
                    assert(!s.all_terms_listed(idx, ts, selector)) by {
                        assert(ts[i as int].term == term@);
                    }
                    return None;
                },
            };
            let list = match selector.map(entry) {
                Some(l) => l,
                None => {
                    assert(!s.all_terms_listed(idx, ts, selector)) by {
                        assert(ts[i as int].term == term@);
                    }
                    return None;
                },
            };
            let ghost cur = common@;
            if i == 0 {
                common = keys_of(list);
                assert(common@ =~= Set::new(|d: Seq<char>| s.in_lists(idx, ts, 1, selector, d))) by {
                    assert(ts[0].term == term@);
                }
            } else {
                common = keep_keys(&common, list);
                assert(common@ =~= Set::new(|d: Seq<char>| s.in_lists(idx, ts, i + 1, selector, d))) by {
                    assert(ts[i as int].term == term@);
                    assert forall|d: Seq<char>| s.in_lists(idx, ts, i + 1, selector, d) <==> (s.in_lists(idx, ts, i as int, selector, d)
                        && selector.pick(s.inverted[idx][ts[i as int].term]).contains_key(d)) by {
                        if s.in_lists(idx, ts, i + 1, selector, d) {
                            assert forall|j: int| #![trigger ts[j]] 0 <= j < i implies selector.pick(s.inverted[idx][ts[j].term]).contains_key(d) by {
                                assert(0 <= j < i + 1);
                            }
                        }
                    }
                }
            }
            if common.is_empty() {
                assert(s.common_docs(idx, ts, selector) =~= Set::<Seq<char>>::empty()) by {
                    assert forall|d: Seq<char>| !s.common_docs(idx, ts, selector).contains(d) by {
                        if s.in_lists(idx, ts, ts.len() as int, selector, d) {
                            assert forall|j: int| #![trigger ts[j]] 0 <= j < i + 1 implies selector.pick(s.inverted[idx][ts[j].term]).contains_key(d) by {
                                assert(0 <= j < ts.len());
                            }
                            assert(common@.contains(d));
                        }
                    }
                }
                return None;
            }
            terms.push((term.clone(), list.duplicate()));
            assert(ts[i as int].term == term@);
            i = i + 1;
        }
        assert(common@ =~= s.common_docs(idx, ts, selector));
        if docs.len() == 0 {
            return None;
        }
        let total_len = match self.total_lens.get(index_name) {
            Some(v) => *v,
            None => 0,
        };
        let candidates = stored_with_len(&common, docs);
        let doc_count = docs.len();
        Some(ScoringInput { doc_count, total_len, terms, candidates })
    }
}

/// One way of ranking documents that a search tries.
#[derive(Debug, Clone, Copy, PartialEq, Eq, Structural)]
pub enum SearchStage {
    /// BM25 ranking over the selected posting lists of the query terms.
    Bm25(PostingSelector),
    /// Ranking over the terms close in spelling to the query terms.
    Fuzzy,
}

/// The stages a search in `mode` tries, in order: exact matching reads the
/// terms as written; pinyin reads full pinyin, then initials, and only for
/// queries of ASCII letters; fuzzy matching too is only for such queries;
/// automatic search tries exact matching, then, for queries of ASCII
/// letters, pinyin and then fuzzy matching.
pub open spec fn stages_for(mode: SearchMode, ascii_alpha: bool) -> Seq<SearchStage> {
    let pinyin = seq![SearchStage::Bm25(PostingSelector::PinyinFull), SearchStage::Bm25(PostingSelector::PinyinInitials)];
    match mode {
        SearchMode::Exact => seq![SearchStage::Bm25(PostingSelector::Original)],
        SearchMode::Pinyin => if ascii_alpha { pinyin } else { Seq::empty() },
        SearchMode::Fuzzy => if ascii_alpha { seq![SearchStage::Fuzzy] } else { Seq::empty() },
        SearchMode::Auto => if ascii_alpha {
            seq![SearchStage::Bm25(PostingSelector::Original)] + pinyin + seq![SearchStage::Fuzzy]
        } else {
            seq![SearchStage::Bm25(PostingSelector::Original)]
        },
    }
}

/// What a search does with a query.
pub enum QueryPlan {
    /// List every document of the named index, each with score 1: the query
    /// is empty or `*`.
    AllDocs,
    /// Rank the query's tokens by each stage in turn and answer with the
    /// results of the first stage that finds any, or with nothing.
    Ranked(Vec<Token>, Vec<SearchStage>),
}

/// Whether a query asks for every document: it is empty or `*`.
pub open spec fn asks_all(q: Seq<char>) -> bool {
    q.len() == 0 || q == seq!['*']
}

/// How a search in `mode` goes about `query`: every document for an empty
/// query or `*`; otherwise the query's tokens and the stages to try (none
/// where the query has no token).
pub fn plan_query(query: &str, mode: SearchMode) -> (r: QueryPlan)
    ensures
        match r {
            QueryPlan::AllDocs => asks_all(query@),
            QueryPlan::Ranked(tokens, stages) => {
                &&& !asks_all(query@)
                &&& token_views(tokens@) == spec_tokenize(query@)
                &&& stages@ == if tokens@.len() == 0 {
                    Seq::<SearchStage>::empty()
                } else {
                    stages_for(mode, ascii_alpha_query(token_views(tokens@)))
                }
                &&& tokens@.len() > 0 && mode == SearchMode::Exact ==> stages@ == seq![SearchStage::Bm25(PostingSelector::Original)]
                &&& tokens@.len() > 0 && mode == SearchMode::Auto ==> stages@.len() > 0 && stages@[0] == SearchStage::Bm25(
                    PostingSelector::Original,
                )
            },
        },
{
    let cs = chars_of(query);
    if cs.len() == 0 || (cs.len() == 1 && cs[0] == '*') {
        assert(cs@.len() == 1 ==> cs@ =~= seq!['*'] || cs@[0] != '*');
        return QueryPlan::AllDocs;
    }
    assert(query@ != seq!['*']) by {
        if query@ == seq!['*'] {
            assert(cs@[0] == '*');
        }
    }
    let tokens = tokenize(query);
    if tokens.len() == 0 {
        return QueryPlan::Ranked(tokens, Vec::new());
    }
    let ascii = is_ascii_alpha_query(&tokens);
    let mut stages: Vec<SearchStage> = Vec::new();
    match mode {
        SearchMode::Exact => {
            stages.push(SearchStage::Bm25(PostingSelector::Original));
        },
        SearchMode::Pinyin => {
            if ascii {
                stages.push(SearchStage::Bm25(PostingSelector::PinyinFull));
                stages.push(SearchStage::Bm25(PostingSelector::PinyinInitials));
            }
        },
        SearchMode::Fuzzy => {
            if ascii {
                stages.push(SearchStage::Fuzzy);
            }
        },
        SearchMode::Auto => {
            stages.push(SearchStage::Bm25(PostingSelector::Original));
            if ascii {
                stages.push(SearchStage::Bm25(PostingSelector::PinyinFull));
                stages.push(SearchStage::Bm25(PostingSelector::PinyinInitials));
                stages.push(SearchStage::Fuzzy);
            }
        },
    }
    assert(stages@ =~= stages_for(mode, ascii));
    QueryPlan::Ranked(tokens, stages)
}

impl InMemoryIndex {
    /// The ids of the documents of a named index, each once (none where the
    /// name has no documents map).
    pub fn doc_ids(&self, index_name: &str) -> (r: Vec<String>)
        ensures
            names(r@).no_duplicates(),
            names(r@).to_set() == if self@.docs.contains_key(index_name@) {
                self@.docs[index_name@].dom()
            } else {
                Set::<Seq<char>>::empty()
            },
    {
        match self.docs.get(index_name) {
            Some(docs) => {
                let es = docs.entries();
                let mut out: Vec<String> = Vec::new();
                let mut i: usize = 0;
                while i < es.len()
                    invariant
                        i <= es@.len(),
                        forall|j: int| #![trigger es@[j]] 0 <= j < es@.len() ==> docs@.contains_key(es@[j].0@),
                        forall|d: Seq<char>| #[trigger] docs@.contains_key(d) ==> exists|j: int| 0 <= j < es@.len() && #[trigger] es@[j].0@ == d,
                        forall|a: int, b: int| 0 <= a < b < es@.len() ==> es@[a].0@ != es@[b].0@,
                        out@.len() == i,
                        forall|j: int| #![trigger out@[j]] 0 <= j < i ==> out@[j]@ == es@[j].0@,
                    decreases es@.len() - i,
                {
                    out.push(es[i].0.clone());
                    i = i + 1;
                }
                assert forall|a: int, b: int| 0 <= a < b < names(out@).len() implies names(out@)[a] != names(out@)[b] by {
                    assert(out@[a]@ == es@[a].0@);
                    assert(out@[b]@ == es@[b].0@);
                }
                assert forall|d: Seq<char>| #[trigger] names(out@).to_set().contains(d) <==> docs@.contains_key(d) by {
                    if names(out@).to_set().contains(d) {
                        assert(names(out@).contains(d));
                        let j = choose|j: int| 0 <= j < names(out@).len() && names(out@)[j] == d;
                        assert(out@[j]@ == es@[j].0@);
                    }
                    if docs@.contains_key(d) {
                        let j = choose|j: int| 0 <= j < es@.len() && #[trigger] es@[j].0@ == d;
                        assert(names(out@)[j] == d);
                        assert(names(out@).contains(d));
                    }
                }
                assert(names(out@).to_set() =~= docs@.dom());
                out
            },
            None => {
                let out: Vec<String> = Vec::new();
                assert(names(out@).to_set() =~= Set::<Seq<char>>::empty());
                out
            },
        }
    }
}

/// `v` holds each member of `s` once, and nothing else.
pub open spec fn enumerates(v: Seq<String>, s: Set<Seq<char>>) -> bool {
    &&& forall|i: int| 0 <= i < v.len() ==> #[trigger] s.contains(v[i]@)
    &&& forall|k: Seq<char>| #[trigger] s.contains(k) ==> exists|i: int| 0 <= i < v.len() && #[trigger] v[i]@ == k
    &&& forall|i: int, j: int| 0 <= i < j < v.len() ==> v[i]@ != v[j]@
}

/// What fuzzy ranking of one query term works on.
pub struct FuzzyTerm {
    /// The query term.
    pub term: String,
    /// Whether the candidates come from the trigram index (the term has a
    /// trigram) or are the whole dictionary (it has none).
    pub from_trigrams: bool,
    /// The candidate terms, to be kept where close enough in spelling.
    pub candidates: Vec<String>,
}

/// What fuzzy ranking of a query works on.
pub struct FuzzyInput {
    /// The number of documents of the named index.
    pub doc_count: usize,
    /// The recorded total of their lengths (0 where none is recorded).
    pub total_len: i64,
    /// Each query term in order, with its candidates.
    pub terms: Vec<FuzzyTerm>,
}

/// The stored documents a term is listed under as written.
pub struct WrittenPosting {
    /// How many documents the list has.
    pub listed: usize,
    /// The stored documents of the list, each once, with the term's count
    /// and the document's length.
    pub docs: Vec<(String, i64, i64)>,
}

pub open spec fn posting_ids(v: Seq<(String, i64, i64)>) -> Seq<Seq<char>> {
    v.map_values(|e: (String, i64, i64)| e.0@)
}

pub open spec fn posting_views(v: Seq<(String, i64, i64)>) -> Seq<(Seq<char>, i64, i64)> {
    v.map_values(|e: (String, i64, i64)| (e.0@, e.1, e.2))
}

/// The documents of the list `l` that `docs` stores, with their count and
/// length.
pub open spec fn stored_counts(l: Map<Seq<char>, i64>, docs: Map<Seq<char>, DocView>) -> Set<(Seq<char>, i64, i64)> {
    Set::new(|e: (Seq<char>, i64, i64)| l.contains_key(e.0) && l[e.0] == e.1 && docs.contains_key(e.0) && e.2 == docs[e.0].doc_len)
}

/// The candidates of one query term for fuzzy ranking: for a term with
/// trigrams, the terms most often listed under them (see
/// `trigram_candidates`); for a term without, every term of the dictionary.
pub fn fuzzy_term(ngram_index: &StrMap<Vec<String>>, term_dict: &StrSet, term: &str) -> (r: FuzzyTerm)
    requires
        listed(ngram_view(ngram_index@), trigrams(term@)) < usize::MAX,
    ensures
        r.term@ == term@,
        r.from_trigrams == (trigrams(term@).len() > 0),
        r.from_trigrams ==> top_ranked(
            names(r.candidates@),
            hit_counts(ngram_view(ngram_index@), trigrams(term@)),
            FUZZY_MAX_CANDIDATES as nat,
        ),
        !r.from_trigrams ==> enumerates(r.candidates@, term_dict@),
{
    let gs = generate_trigrams(term);
    assert(gs@.map_values(|g: String| g@).len() == gs@.len());
    if gs.len() == 0 {
        let candidates = term_dict.members();
        FuzzyTerm { term: term.to_owned(), from_trigrams: false, candidates }
    } else {
        let candidates = trigram_candidates(ngram_index, term);
        FuzzyTerm { term: term.to_owned(), from_trigrams: true, candidates }
    }
}

impl IndexView {
    /// Whether fuzzy ranking runs: the query is made of ASCII letters, and
    /// the named index has documents, postings, a trigram index and a
    /// dictionary.
    pub open spec fn fuzzy_ready(self, idx: Seq<char>, ts: Seq<TokenSpec>) -> bool {
        &&& ascii_alpha_query(ts)
        &&& self.docs.contains_key(idx)
        &&& self.inverted.contains_key(idx)
        &&& self.ngram_index.contains_key(idx)
        &&& self.term_dict.contains_key(idx)
        &&& self.docs[idx].len() > 0
    }

    /// Whether the entries listed under the trigrams of every query term can
    /// be counted in a `usize`.
    pub open spec fn trigram_hits_fit_all(self, idx: Seq<char>, ts: Seq<TokenSpec>) -> bool {
        self.ngram_index.contains_key(idx) ==> forall|i: int|
            0 <= i < ts.len() ==> listed(self.ngram_index[idx], trigrams(#[trigger] ts[i].term)) < usize::MAX
    }
}

impl InMemoryIndex {
    /// What fuzzy ranking of `query_terms` in a named index works on; nothing
    /// where it does not run (see `fuzzy_ready`).  A term with trigrams takes
    /// as candidates the terms most often listed under them (see
    /// `trigram_candidates`); a term without takes the whole dictionary.
    pub fn fuzzy_input(&self, index_name: &str, query_terms: &Vec<Token>) -> (r: Option<FuzzyInput>)
        requires
            self@.trigram_hits_fit_all(index_name@, token_views(query_terms@)),
        ensures
            ({
                let ts = token_views(query_terms@);
                let s = self@;
                let idx = index_name@;
                match r {
                    None => !s.fuzzy_ready(idx, ts),
                    Some(inp) => {
                        &&& s.fuzzy_ready(idx, ts)
                        &&& inp.doc_count == s.docs[idx].len()
                        &&& inp.total_len as int == s.total_of(idx)
                        &&& inp.terms@.len() == ts.len()
                        &&& forall|i: int| #![trigger inp.terms@[i]] 0 <= i < ts.len() ==> {
                            let ft = inp.terms@[i];
                            &&& ft.term@ == ts[i].term
                            &&& ft.from_trigrams == (trigrams(ts[i].term).len() > 0)
                            &&& ft.from_trigrams ==> top_ranked(
                                names(ft.candidates@),
                                hit_counts(s.ngram_index[idx], trigrams(ts[i].term)),
                                FUZZY_MAX_CANDIDATES as nat,
                            )
                            &&& !ft.from_trigrams ==> enumerates(ft.candidates@, s.term_dict[idx])
                        }
                    },
                }
            }),
    {
        let ghost ts = token_views(query_terms@);
        let ghost s = self@;
        let ghost idx = index_name@;
        if !is_ascii_alpha_query(query_terms) {
            return None;
        }
        let docs = match self.docs.get(index_name) {
            Some(d) => d,
            None => {
                return None;
            },
        };
        if !self.inverted.contains_key(index_name) {
            return None;
        }
        let ngram = match self.ngram_index.get(index_name) {
            Some(n) => n,
            None => {
                return None;
            },
        };
        let dict = match self.term_dict.get(index_name) {
            Some(t) => t,
            None => {
                return None;
            },
        };
        if docs.len() == 0 {
            return None;
        }
        let total_len = match self.total_lens.get(index_name) {
            Some(v) => *v,
            None => 0,
        };
        assert(ngram_view(ngram@) == s.ngram_index[idx]);
        let mut terms: Vec<FuzzyTerm> = Vec::new();
        let mut i: usize = 0;
        while i < query_terms.len()
            invariant
                i <= query_terms@.len(),
                ts == token_views(query_terms@),
                s == self@,
                idx == index_name@,
                s.trigram_hits_fit_all(idx, ts),
                s.ngram_index.contains_key(idx),
                ngram_view(ngram@) == s.ngram_index[idx],
                s.term_dict.contains_key(idx),
                dict@ == s.term_dict[idx],
                terms@.len() == i,
                forall|j: int| #![trigger terms@[j]] 0 <= j < i ==> {
                    let ft = terms@[j];
                    &&& ft.term@ == ts[j].term
                    &&& ft.from_trigrams == (trigrams(ts[j].term).len() > 0)
                    &&& ft.from_trigrams ==> top_ranked(
                        names(ft.candidates@),
                        hit_counts(s.ngram_index[idx], trigrams(ts[j].term)),
                        FUZZY_MAX_CANDIDATES as nat,
                    )
                    &&& !ft.from_trigrams ==> enumerates(ft.candidates@, s.term_dict[idx])
                },
            decreases query_terms@.len() - i,
        {
            let term = &query_terms[i].term;
            assert(ts[i as int].term == term@);
            terms.push(fuzzy_term(ngram, dict, term.as_str()));
            i = i + 1;
        }
        Some(FuzzyInput { doc_count: docs.len(), total_len, terms })
    }

    /// The stored documents that `term` is listed under as written in a
    /// named index; nothing where that list is missing or empty.
    pub fn written_posting(&self, index_name: &str, term: &str) -> (r: Option<WrittenPosting>)
        ensures
            ({
                let s = self@;
                let idx = index_name@;
                let listed_as_written = s.inverted.contains_key(idx) && s.inverted[idx].contains_key(term@)
                    && s.inverted[idx][term@].original != Map::<Seq<char>, i64>::empty();
                match r {
                    None => !listed_as_written,
                    Some(w) => {
                        let l = s.inverted[idx][term@].original;
                        &&& listed_as_written
                        &&& w.listed == l.len()
                        &&& posting_ids(w.docs@).no_duplicates()
                        &&& posting_views(w.docs@).to_set() == stored_counts(
                            l,
                            if s.docs.contains_key(idx) { s.docs[idx] } else { Map::empty() },
                        )
                    },
                }
            }),
    {
        let ghost s = self@;
        let ghost idx = index_name@;
        let inverted = match self.inverted.get(index_name) {
            Some(i) => i,
            None => {
                return None;
            },
        };
        let entry = match inverted.get(term) {
            Some(e) => e,
            None => {
                return None;
            },
        };
        if entry.original.is_empty() {
            return None;
        }
        let ghost l = entry.original@;
        let ghost dm: Map<Seq<char>, DocView> = if s.docs.contains_key(idx) { s.docs[idx] } else { Map::empty() };
        let es = entry.original.entries();
        let mut out: Vec<(String, i64, i64)> = Vec::new();
        let ghost mut done: Set<Seq<char>> = Set::empty();
        let mut k: usize = 0;
        while k < es.len()
            invariant
                k <= es@.len(),
                s == self@,
                idx == index_name@,
                l == entry.original@,
                dm == (if s.docs.contains_key(idx) { s.docs[idx] } else { Map::<Seq<char>, DocView>::empty() }),
                forall|j: int| #![trigger es@[j]] 0 <= j < es@.len() ==> l.contains_key(es@[j].0@) && l[es@[j].0@] == es@[j].1,
                forall|d: Seq<char>| #[trigger] l.contains_key(d) ==> exists|j: int| 0 <= j < es@.len() && #[trigger] es@[j].0@ == d,
                forall|a: int, b: int| 0 <= a < b < es@.len() ==> es@[a].0@ != es@[b].0@,
                forall|d: Seq<char>| #[trigger] done.contains(d) <==> exists|j: int| 0 <= j < k && es@[j].0@ == d,
                posting_ids(out@).no_duplicates(),
                forall|d: Seq<char>| #[trigger] posting_ids(out@).contains(d) ==> done.contains(d),
                posting_views(out@).to_set() == stored_counts(l.restrict(done), dm),
            decreases es@.len() - k,
        {
            let d = &es[k].0;
            let c = es[k].1;
            let ghost dv = d@;
            proof {
                if done.contains(dv) {
                    let j = choose|j: int| 0 <= j < k && es@[j].0@ == dv;
                    assert(es@[j].0@ != es@[k as int].0@);
                }
            }
            let ghost next = done.insert(dv);
            let ghost prev = out@;
            let stored = match self.docs.get(index_name) {
                Some(docs) => match docs.get(d.as_str()) {
                    Some(data) => Some(data.doc_len),
                    None => None,
                },
                None => None,
            };
            match stored {
                Some(len) => {
                    out.push((d.clone(), c, len));
                    proof {
                        let e = (dv, c, len);
                        assert(posting_ids(out@) =~= posting_ids(prev).push(dv));
                        assert(posting_views(out@) =~= posting_views(prev).push(e));
                        posting_views(prev).lemma_push_to_set_commute(e);
                        assert forall|a: int, b: int| 0 <= a < b < posting_ids(out@).len() implies posting_ids(out@)[a]
                            != posting_ids(out@)[b] by {
                            if b == prev.len() {
                                assert(posting_ids(prev).contains(posting_ids(prev)[a]));
                            }
                        }
                        assert forall|x: Seq<char>| #[trigger] posting_ids(out@).contains(x) implies next.contains(x) by {
                            if x != dv {
                                let j = choose|j: int| 0 <= j < posting_ids(out@).len() && posting_ids(out@)[j] == x;
                                assert(j < prev.len());
                                assert(posting_ids(prev)[j] == x);
                                assert(posting_ids(prev).contains(x));
                            }
                        }
                        assert(stored_counts(l.restrict(next), dm) =~= stored_counts(l.restrict(done), dm).insert(e));
                    }
                },
                None => {
                    assert(stored_counts(l.restrict(next), dm) =~= stored_counts(l.restrict(done), dm));
                },
            }
            proof {
                done = next;
            }
            k = k + 1;
        }
        proof {
            assert forall|d: Seq<char>| l.contains_key(d) implies #[trigger] done.contains(d) by {
                let j = choose|j: int| 0 <= j < es@.len() && #[trigger] es@[j].0@ == d;
            }
            assert(l.restrict(done) =~= l);
        }
        Some(WrittenPosting { listed: entry.original.len(), docs: out })
    }
}

} // verus!
