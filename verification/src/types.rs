//! The data kept by the in-memory index, and its abstract form.
use vstd::prelude::*;
use crate::strmap::{Duplicate, StrMap, StrSet};
use crate::fuzzy::ngram_view;

verus! {

/// How a query is matched against the index.
#[derive(Debug, Clone, Copy, PartialEq, Eq, Structural)]
pub enum SearchMode {
    /// Terms as written.
    Exact,
    /// Terms as pinyin of Chinese text.
    Pinyin,
    /// Terms close in spelling to the query's.
    Fuzzy,
    /// Exact, then pinyin, then fuzzy: the first that finds anything.
    Auto,
}

/// How often a term occurs in a document: as written, as the full pinyin of
/// a Chinese term, and as the pinyin initials of one.
#[derive(Debug, Clone, Copy, PartialEq, Eq, Structural)]
pub struct TermFrequency {
    pub original: u32,
    pub pinyin_full: u32,
    pub pinyin_initials: u32,
}

impl View for TermFrequency {
    type V = TermFrequency;

    open spec fn view(&self) -> TermFrequency {
        *self
    }
}

impl TermFrequency {
    pub open spec fn zero() -> TermFrequency {
        TermFrequency { original: 0, pinyin_full: 0, pinyin_initials: 0 }
    }

    pub fn new() -> (r: TermFrequency)
        ensures
            r == TermFrequency::zero(),
    {
        TermFrequency { original: 0, pinyin_full: 0, pinyin_initials: 0 }
    }
}

impl Default for TermFrequency {
    fn default() -> (r: TermFrequency)
        ensures
            r == TermFrequency::zero(),
    {
        TermFrequency::new()
    }
}

/// A stored document.
pub struct DocData {
    pub content: String,
    /// The number of tokens of the content, repeats included.
    pub doc_len: i64,
    /// For each term, the character ranges it was found at.
    pub term_pos: StrMap<Vec<(u32, u32)>>,
    pub term_freqs: StrMap<TermFrequency>,
}

pub struct DocView {
    pub content: Seq<char>,
    pub doc_len: i64,
    pub term_pos: Map<Seq<char>, Seq<(u32, u32)>>,
    pub term_freqs: Map<Seq<char>, TermFrequency>,
}

impl View for DocData {
    type V = DocView;

    open spec fn view(&self) -> DocView {
        DocView {
            content: self.content@,
            doc_len: self.doc_len,
            term_pos: self.term_pos@,
            term_freqs: self.term_freqs@,
        }
    }
}

/// The documents that hold a term, with the term's count in each: as
/// written, as full pinyin, and as pinyin initials.
pub struct TermPosting {
    pub original: StrMap<i64>,
    pub pinyin_full: StrMap<i64>,
    pub pinyin_initials: StrMap<i64>,
}

pub struct PostingView {
    pub original: Map<Seq<char>, i64>,
    pub pinyin_full: Map<Seq<char>, i64>,
    pub pinyin_initials: Map<Seq<char>, i64>,
}

impl View for TermPosting {
    type V = PostingView;

    open spec fn view(&self) -> PostingView {
        PostingView {
            original: self.original@,
            pinyin_full: self.pinyin_full@,
            pinyin_initials: self.pinyin_initials@,
        }
    }
}

impl PostingView {
    pub open spec fn empty() -> PostingView {
        PostingView { original: Map::empty(), pinyin_full: Map::empty(), pinyin_initials: Map::empty() }
    }

    pub open spec fn is_empty(self) -> bool {
        &&& self.original == Map::<Seq<char>, i64>::empty()
        &&& self.pinyin_full == Map::<Seq<char>, i64>::empty()
        &&& self.pinyin_initials == Map::<Seq<char>, i64>::empty()
    }
}

impl TermPosting {
    pub fn new() -> (r: TermPosting)
        ensures
            r@ == PostingView::empty(),
    {
        TermPosting { original: StrMap::new(), pinyin_full: StrMap::new(), pinyin_initials: StrMap::new() }
    }

    /// Whether no document holds the term in any form.
    pub fn is_empty(&self) -> (r: bool)
        ensures
            r == self@.is_empty(),
    {
        self.original.is_empty() && self.pinyin_full.is_empty() && self.pinyin_initials.is_empty()
    }
}

impl Default for TermPosting {
    fn default() -> (r: TermPosting)
        ensures
            r@ == PostingView::empty(),
    {
        TermPosting::new()
    }
}

/// What is saved of one named index.
pub struct SnapshotData {
    pub docs: StrMap<DocData>,
    pub term_dict: StrSet,
    pub ngram_index: StrMap<Vec<String>>,
}

pub struct SnapshotView {
    pub docs: Map<Seq<char>, DocView>,
    pub term_dict: Set<Seq<char>>,
    pub ngram_index: Map<Seq<char>, Seq<Seq<char>>>,
}

impl View for SnapshotData {
    type V = SnapshotView;

    open spec fn view(&self) -> SnapshotView {
        SnapshotView {
            docs: self.docs@,
            term_dict: self.term_dict@,
            ngram_index: ngram_view(self.ngram_index@),
        }
    }
}

impl Duplicate for TermFrequency {
    fn duplicate(&self) -> (r: TermFrequency) {
        *self
    }
}

impl Duplicate for DocData {
    fn duplicate(&self) -> (r: DocData) {
        DocData {
            content: self.content.clone(),
            doc_len: self.doc_len,
            term_pos: self.term_pos.duplicate(),
            term_freqs: self.term_freqs.duplicate(),
        }
    }
}

impl Duplicate for TermPosting {
    fn duplicate(&self) -> (r: TermPosting) {
        TermPosting {
            original: self.original.duplicate(),
            pinyin_full: self.pinyin_full.duplicate(),
            pinyin_initials: self.pinyin_initials.duplicate(),
        }
    }
}

/// An in-memory full-text index holding any number of named indices.
pub struct InMemoryIndex {
    pub docs: StrMap<StrMap<DocData>>,
    pub inverted: StrMap<StrMap<TermPosting>>,
    pub term_dict: StrMap<StrSet>,
    pub ngram_index: StrMap<StrMap<Vec<String>>>,
    pub total_lens: StrMap<i64>,
    pub dirty: StrMap<StrSet>,
    pub deleted: StrMap<StrSet>,
}

/// The abstract form of the index; every map is keyed by the index name.
pub struct IndexView {
    pub docs: Map<Seq<char>, Map<Seq<char>, DocView>>,
    pub inverted: Map<Seq<char>, Map<Seq<char>, PostingView>>,
    pub term_dict: Map<Seq<char>, Set<Seq<char>>>,
    pub ngram_index: Map<Seq<char>, Map<Seq<char>, Seq<Seq<char>>>>,
    pub total_lens: Map<Seq<char>, i64>,
    pub dirty: Map<Seq<char>, Set<Seq<char>>>,
    pub deleted: Map<Seq<char>, Set<Seq<char>>>,
}

impl View for InMemoryIndex {
    type V = IndexView;

    open spec fn view(&self) -> IndexView {
        IndexView {
            docs: self.docs@,
            inverted: self.inverted@,
            term_dict: self.term_dict@,
            ngram_index: self.ngram_index@.map_values(|m: Map<Seq<char>, Seq<String>>| ngram_view(m)),
            total_lens: self.total_lens@,
            dirty: self.dirty@,
            deleted: self.deleted@,
        }
    }
}

impl IndexView {
    pub open spec fn empty() -> IndexView {
        IndexView {
            docs: Map::empty(),
            inverted: Map::empty(),
            term_dict: Map::empty(),
            ngram_index: Map::empty(),
            total_lens: Map::empty(),
            dirty: Map::empty(),
            deleted: Map::empty(),
        }
    }
}

impl InMemoryIndex {
    pub fn new() -> (r: InMemoryIndex)
        ensures
            r@ == IndexView::empty(),
    {
        let r = InMemoryIndex {
            docs: StrMap::new(),
            inverted: StrMap::new(),
            term_dict: StrMap::new(),
            ngram_index: StrMap::new(),
            total_lens: StrMap::new(),
            dirty: StrMap::new(),
            deleted: StrMap::new(),
        };
        assert(r@.ngram_index =~= Map::empty());
        r
    }
}

impl Default for InMemoryIndex {
    fn default() -> (r: InMemoryIndex)
        ensures
            r@ == IndexView::empty(),
    {
        InMemoryIndex::new()
    }
}

} // verus!
