//! Turning the tokens of a text into the positions and counts of a document.
use vstd::prelude::*;
use crate::strmap::StrMap;
use crate::text::{Token, TokenSpec, token_views, has_cjk, pinyin_variants, contains_chinese_chars, build_pinyin_variants};
use crate::types::{DocData, DocView, TermFrequency};
use crate::fuzzy::{names, list_contains};
use crate::laws::{lemma_token_positions_recorded, recorded_under};

verus! {

/// The character range of a token, each end cut to 32 bits.
pub open spec fn span(t: TokenSpec) -> (u32, u32) {
    (t.start as u32, t.end as u32)
}

/// The full pinyin under which a token is also recorded: that of a term
/// holding Chinese characters, where it is not empty.
pub open spec fn full_form(term: Seq<char>) -> Option<Seq<char>> {
    if has_cjk(term) {
        match pinyin_variants(term) {
            Some((f, _i)) => if f.len() > 0 { Some(f) } else { None },
            None => None,
        }
    } else {
        None
    }
}

/// The pinyin initials under which a token is also recorded: those of a
/// term holding Chinese characters, where they are not empty and differ from
/// the full pinyin.
pub open spec fn initials_form(term: Seq<char>) -> Option<Seq<char>> {
    if has_cjk(term) {
        match pinyin_variants(term) {
            Some((f, i)) => if i.len() > 0 && i != f { Some(i) } else { None },
            None => None,
        }
    } else {
        None
    }
}

pub open spec fn push_pos(m: Map<Seq<char>, Seq<(u32, u32)>>, term: Seq<char>, p: (u32, u32)) -> Map<Seq<char>, Seq<(u32, u32)>> {
    m.insert(term, (if m.contains_key(term) { m[term] } else { Seq::empty() }).push(p))
}

/// The positions after one more token: its range under its term, and under
/// its full pinyin and its initials where it has them.
pub open spec fn pos_step(m: Map<Seq<char>, Seq<(u32, u32)>>, t: TokenSpec) -> Map<Seq<char>, Seq<(u32, u32)>> {
    let m1 = push_pos(m, t.term, span(t));
    let m2 = match full_form(t.term) {
        Some(f) => push_pos(m1, f, span(t)),
        None => m1,
    };
    match initials_form(t.term) {
        Some(i) => push_pos(m2, i, span(t)),
        None => m2,
    }
}

pub open spec fn build_pos(ts: Seq<TokenSpec>) -> Map<Seq<char>, Seq<(u32, u32)>>
    decreases ts.len(),
{
    if ts.len() == 0 {
        Map::empty()
    } else {
        pos_step(build_pos(ts.drop_last()), ts.last())
    }
}

pub open spec fn freq_of(m: Map<Seq<char>, TermFrequency>, term: Seq<char>) -> TermFrequency {
    if m.contains_key(term) { m[term] } else { TermFrequency::zero() }
}

pub open spec fn bump_original(m: Map<Seq<char>, TermFrequency>, term: Seq<char>) -> Map<Seq<char>, TermFrequency> {
    let f = freq_of(m, term);
    m.insert(term, TermFrequency { original: (f.original + 1) as u32, ..f })
}

pub open spec fn bump_full(m: Map<Seq<char>, TermFrequency>, term: Seq<char>) -> Map<Seq<char>, TermFrequency> {
    let f = freq_of(m, term);
    m.insert(term, TermFrequency { pinyin_full: (f.pinyin_full + 1) as u32, ..f })
}

pub open spec fn bump_initials(m: Map<Seq<char>, TermFrequency>, term: Seq<char>) -> Map<Seq<char>, TermFrequency> {
    let f = freq_of(m, term);
    m.insert(term, TermFrequency { pinyin_initials: (f.pinyin_initials + 1) as u32, ..f })
}

/// The counts after one more token: one more occurrence of its term as
/// written, and of its full pinyin and initials where it has them.
pub open spec fn freq_step(m: Map<Seq<char>, TermFrequency>, t: TokenSpec) -> Map<Seq<char>, TermFrequency> {
    let m1 = bump_original(m, t.term);
    let m2 = match full_form(t.term) {
        Some(f) => bump_full(m1, f),
        None => m1,
    };
    match initials_form(t.term) {
        Some(i) => bump_initials(m2, i),
        None => m2,
    }
}

pub open spec fn build_freqs(ts: Seq<TokenSpec>) -> Map<Seq<char>, TermFrequency>
    decreases ts.len(),
{
    if ts.len() == 0 {
        Map::empty()
    } else {
        freq_step(build_freqs(ts.drop_last()), ts.last())
    }
}

/// The terms of the tokens, each once, in order of first occurrence.
pub open spec fn first_terms(ts: Seq<TokenSpec>) -> Seq<Seq<char>>
    decreases ts.len(),
{
    if ts.len() == 0 {
        Seq::empty()
    } else {
        let s = first_terms(ts.drop_last());
        if s.contains(ts.last().term) {
            s
        } else {
            s.push(ts.last().term)
        }
    }
}

/// The document stored for a text with the given tokens.
pub open spec fn doc_from_tokens(text: Seq<char>, ts: Seq<TokenSpec>) -> DocView {
    DocView {
        content: text,
        doc_len: ts.len() as i64,
        term_pos: build_pos(ts),
        term_freqs: build_freqs(ts),
    }
}

pub open spec fn counts_below(m: Map<Seq<char>, TermFrequency>, a: int, b: int, c: int) -> bool {
    forall|k: Seq<char>| #[trigger] m.contains_key(k) ==> m[k].original <= a && m[k].pinyin_full <= b
        && m[k].pinyin_initials <= c
}

/// The counts are recorded under the terms that positions are recorded
/// under, and stay below the number of tokens.
pub proof fn lemma_build_keys(ts: Seq<TokenSpec>)
    ensures
        build_freqs(ts).dom() == build_pos(ts).dom(),
        counts_below(build_freqs(ts), ts.len() as int, ts.len() as int, ts.len() as int),
    decreases ts.len(),
{
    if ts.len() > 0 {
        let pre = ts.drop_last();
        lemma_build_keys(pre);
        let t = ts.last();
        let f0 = build_freqs(pre);
        let n = pre.len() as int;
        assert(build_freqs(ts).dom() =~= build_pos(ts).dom());
        let f1 = bump_original(f0, t.term);
        assert(counts_below(f1, n + 1, n, n)) by {
            assert forall|k: Seq<char>| #[trigger] f1.contains_key(k) implies f1[k].original <= n + 1 && f1[k].pinyin_full <= n
                && f1[k].pinyin_initials <= n by {
                if k != t.term {
                    assert(f0.contains_key(k));
                }
            }
        }
        let f2 = match full_form(t.term) {
            Some(f) => bump_full(f1, f),
            None => f1,
        };
        assert(counts_below(f2, n + 1, n + 1, n)) by {
            assert forall|k: Seq<char>| #[trigger] f2.contains_key(k) implies f2[k].original <= n + 1 && f2[k].pinyin_full <= n + 1
                && f2[k].pinyin_initials <= n by {
                if f2 != f1 && k != full_form(t.term)->0 {
                    assert(f1.contains_key(k));
                }
            }
        }
        let f3 = freq_step(f0, t);
        assert(f3 == match initials_form(t.term) {
            Some(i) => bump_initials(f2, i),
            None => f2,
        });
        assert forall|k: Seq<char>| #[trigger] f3.contains_key(k) implies f3[k].original <= n + 1 && f3[k].pinyin_full <= n + 1
            && f3[k].pinyin_initials <= n + 1 by {
            if f3 != f2 && k != initials_form(t.term)->0 {
                assert(f2.contains_key(k));
            }
        }
    }
}

/// The terms of the tokens are the terms counted as written.
/// Some count of a term is positive.
pub open spec fn counted(f: TermFrequency) -> bool {
    f.original > 0 || f.pinyin_full > 0 || f.pinyin_initials > 0
}

/// Every term that a document has counts for has a positive count, and the
/// term of every token is counted as written.
pub proof fn lemma_build_freqs_positive(ts: Seq<TokenSpec>)
    requires
        ts.len() < u32::MAX,
    ensures
        forall|k: Seq<char>| #[trigger] build_freqs(ts).contains_key(k) ==> counted(build_freqs(ts)[k]),
        forall|i: int| 0 <= i < ts.len() ==> build_freqs(ts).contains_key(#[trigger] ts[i].term)
            && build_freqs(ts)[ts[i].term].original > 0,
    decreases ts.len(),
{
    if ts.len() > 0 {
        let pre = ts.drop_last();
        lemma_build_freqs_positive(pre);
        lemma_build_keys(pre);
        let t = ts.last();
        let f0 = build_freqs(pre);
        let n = pre.len() as int;
        let f1 = bump_original(f0, t.term);
        let f2 = match full_form(t.term) {
            Some(f) => bump_full(f1, f),
            None => f1,
        };
        let f3 = build_freqs(ts);
        assert(f3 == match initials_form(t.term) {
            Some(i) => bump_initials(f2, i),
            None => f2,
        });
        assert forall|k: Seq<char>| f1.contains_key(k) implies #[trigger] f1[k].original >= freq_of(f0, k).original
            && f1[k].pinyin_full == freq_of(f0, k).pinyin_full && f1[k].pinyin_initials == freq_of(f0, k).pinyin_initials
            && (k == t.term ==> f1[k].original > 0) by {
            if k == t.term && f0.contains_key(k) {
                assert(f0[k].original <= n);
            }
        }
        assert forall|k: Seq<char>| f2.contains_key(k) implies #[trigger] f2[k].original == freq_of(f1, k).original
            && f2[k].pinyin_full >= freq_of(f1, k).pinyin_full && f2[k].pinyin_initials == freq_of(f1, k).pinyin_initials by {
            match full_form(t.term) {
                Some(f) => {
                    if k == f && f1.contains_key(k) {
                        assert(f1[k].pinyin_full == freq_of(f0, k).pinyin_full);
                        if f0.contains_key(k) {
                            assert(f0[k].pinyin_full <= n);
                        }
                    }
                },
                None => {},
            }
        }
        assert forall|k: Seq<char>| f3.contains_key(k) implies #[trigger] f3[k].original == freq_of(f2, k).original
            && f3[k].pinyin_full == freq_of(f2, k).pinyin_full && f3[k].pinyin_initials >= freq_of(f2, k).pinyin_initials
            && (f3[k].pinyin_initials > 0 || f2.contains_key(k)) by {
            match initials_form(t.term) {
                Some(i) => {
                    if k == i && f2.contains_key(k) {
                        assert(f2[k].pinyin_initials == freq_of(f1, k).pinyin_initials);
                        assert(f1.contains_key(k) ==> f1[k].pinyin_initials == freq_of(f0, k).pinyin_initials);
                        if f0.contains_key(k) {
                            assert(f0[k].pinyin_initials <= n);
                        }
                    }
                },
                None => {},
            }
        }
        assert forall|k: Seq<char>| #[trigger] f3.contains_key(k) implies counted(f3[k]) by {
            if !(f3[k].pinyin_initials > 0) {
                assert(f2.contains_key(k));
                if f2[k].pinyin_full == 0 {
                    assert(f1.contains_key(k)) by {
                        match full_form(t.term) {
                            Some(f) => {
                                if k == f && !f1.contains_key(k) {
                                    assert(f2[k].pinyin_full == 1);
                                }
                            },
                            None => {},
                        }
                    }
                    if k != t.term {
                        assert(f0.contains_key(k));
                        assert(counted(f0[k]));
                    }
                }
            }
        }
        assert forall|i: int| 0 <= i < ts.len() implies f3.contains_key(#[trigger] ts[i].term) && f3[ts[i].term].original > 0 by {
            let k = ts[i].term;
            if i < pre.len() {
                assert(pre[i] == ts[i]);
                assert(f0.contains_key(k) && f0[k].original > 0);
            }
            assert(f1.contains_key(k) && f1[k].original > 0);
            assert(f2.contains_key(k));
        }
    }
}

pub proof fn lemma_first_terms_counted(ts: Seq<TokenSpec>)
    requires
        ts.len() < u32::MAX,
    ensures
        forall|t: Seq<char>| #[trigger] first_terms(ts).contains(t) <==> (build_freqs(ts).contains_key(t)
            && build_freqs(ts)[t].original > 0),
    decreases ts.len(),
{
    if ts.len() > 0 {
        let pre = ts.drop_last();
        lemma_first_terms_counted(pre);
        lemma_build_keys(pre);
        let t = ts.last();
        let f0 = build_freqs(pre);
        let f1 = bump_original(f0, t.term);
        let s0 = first_terms(pre);
        assert forall|u: Seq<char>| #[trigger] first_terms(ts).contains(u) <==> (build_freqs(ts).contains_key(u)
            && build_freqs(ts)[u].original > 0) by {
            assert(f1[t.term].original > 0);
            assert(first_terms(ts).contains(u) <==> (s0.contains(u) || u == t.term)) by {
                if !s0.contains(t.term) {
                    let ps = s0.push(t.term);
                    if ps.contains(u) {
                        let i = choose|i: int| 0 <= i < ps.len() && ps[i] == u;
                        if i < s0.len() {
                            assert(s0[i] == u);
                        }
                    }
                    if s0.contains(u) {
                        let i = choose|i: int| 0 <= i < s0.len() && s0[i] == u;
                        assert(ps[i] == u);
                    }
                    if u == t.term {
                        assert(ps[s0.len() as int] == u);
                    }
                }
            }
        }
    }
}

fn push_position(m: &mut StrMap<Vec<(u32, u32)>>, term: &String, p: (u32, u32))
    ensures
        final(m)@ == push_pos(old(m)@, term@, p),
{
    let mut v = match m.remove(term.as_str()) {
        Some(v) => v,
        None => Vec::new(),
    };
    v.push(p);
    m.insert(term.clone(), v);
    assert(m@ =~= push_pos(old(m)@, term@, p));
}

fn take_freq(m: &mut StrMap<TermFrequency>, term: &String) -> (r: TermFrequency)
    ensures
        r == freq_of(old(m)@, term@),
        final(m)@ == old(m)@.remove(term@),
{
    match m.remove(term.as_str()) {
        Some(f) => f,
        None => TermFrequency::new(),
    }
}

fn add_original(m: &mut StrMap<TermFrequency>, term: &String, Ghost(a): Ghost<int>, Ghost(b): Ghost<int>, Ghost(c): Ghost<int>)
    requires
        counts_below(old(m)@, a, b, c),
        0 <= a < u32::MAX,
        0 <= b,
        0 <= c,
    ensures
        final(m)@ == bump_original(old(m)@, term@),
        counts_below(final(m)@, a + 1, b, c),
{
    let f = take_freq(m, term);
    m.insert(term.clone(), TermFrequency { original: f.original + 1, ..f });
    assert(m@ =~= bump_original(old(m)@, term@));
    assert forall|k: Seq<char>| #[trigger] m@.contains_key(k) implies m@[k].original <= a + 1 && m@[k].pinyin_full <= b + 1 && m@[k].pinyin_initials <= c + 1 by {
        if k != term@ {
            assert(old(m)@.contains_key(k));
        }
    }
}

fn add_full(m: &mut StrMap<TermFrequency>, term: &String, Ghost(a): Ghost<int>, Ghost(b): Ghost<int>, Ghost(c): Ghost<int>)
    requires
        counts_below(old(m)@, a, b, c),
        0 <= b < u32::MAX,
        0 <= a,
        0 <= c,
    ensures
        final(m)@ == bump_full(old(m)@, term@),
        counts_below(final(m)@, a, b + 1, c),
{
    let f = take_freq(m, term);
    m.insert(term.clone(), TermFrequency { pinyin_full: f.pinyin_full + 1, ..f });
    assert(m@ =~= bump_full(old(m)@, term@));
    assert forall|k: Seq<char>| #[trigger] m@.contains_key(k) implies m@[k].original <= a + 1 && m@[k].pinyin_full <= b + 1 && m@[k].pinyin_initials <= c + 1 by {
        if k != term@ {
            assert(old(m)@.contains_key(k));
        }
    }
}

fn add_initials(m: &mut StrMap<TermFrequency>, term: &String, Ghost(a): Ghost<int>, Ghost(b): Ghost<int>, Ghost(c): Ghost<int>)
    requires
        counts_below(old(m)@, a, b, c),
        0 <= c < u32::MAX,
        0 <= a,
        0 <= b,
    ensures
        final(m)@ == bump_initials(old(m)@, term@),
        counts_below(final(m)@, a, b, c + 1),
{
    let f = take_freq(m, term);
    m.insert(term.clone(), TermFrequency { pinyin_initials: f.pinyin_initials + 1, ..f });
    assert(m@ =~= bump_initials(old(m)@, term@));
    assert forall|k: Seq<char>| #[trigger] m@.contains_key(k) implies m@[k].original <= a + 1 && m@[k].pinyin_full <= b + 1 && m@[k].pinyin_initials <= c + 1 by {
        if k != term@ {
            assert(old(m)@.contains_key(k));
        }
    }
}

/// The document for `text` with tokens `tokens`, and the terms of the tokens,
/// each once, in order of first occurrence.
pub fn build_doc(text: &str, tokens: &Vec<Token>) -> (r: (DocData, Vec<String>))
    requires
        tokens@.len() < u32::MAX,
    ensures
        r.0@ == doc_from_tokens(text@, token_views(tokens@)),
        names(r.1@) == first_terms(token_views(tokens@)),
        forall|i: int, k: Seq<char>|
            0 <= i < tokens@.len() && #[trigger] recorded_under(token_views(tokens@)[i], k) ==> r.0@.term_pos.contains_key(k)
                && r.0@.term_pos[k].contains(span(token_views(tokens@)[i])),
{
    let ghost ts = token_views(tokens@);
    let mut pos_map: StrMap<Vec<(u32, u32)>> = StrMap::new();
    let mut freqs: StrMap<TermFrequency> = StrMap::new();
    let mut terms: Vec<String> = Vec::new();
    let mut i: usize = 0;
    while i < tokens.len()
        invariant
            i <= tokens@.len() < u32::MAX,
            ts == token_views(tokens@),
            pos_map@ == build_pos(ts.subrange(0, i as int)),
            freqs@ == build_freqs(ts.subrange(0, i as int)),
            names(terms@) == first_terms(ts.subrange(0, i as int)),
            counts_below(freqs@, i as int, i as int, i as int),
        decreases tokens@.len() - i,
    {
        let tok = &tokens[i];
        let ghost tv = ts[i as int];
        let ghost pre = ts.subrange(0, i as int);
        assert(ts.subrange(0, i + 1).drop_last() =~= pre);
        assert(ts.subrange(0, i + 1).last() == tv);
        let term = &tok.term;
        let p = (tok.start as u32, tok.end as u32);
        assert(p == span(tv));
        push_position(&mut pos_map, term, p);
        add_original(&mut freqs, term, Ghost(i as int), Ghost(i as int), Ghost(i as int));
        if !list_contains(&terms, term) {
            let ghost tv0 = terms@;
            terms.push(term.clone());
            assert(names(terms@) =~= names(tv0).push(term@));
        }
        let ghost full_added = false;
        if contains_chinese_chars(term.as_str()) {
            match build_pinyin_variants(term.as_str()) {
                Some((full, initials)) => {
                    if !full.as_str().is_empty() {
                        push_position(&mut pos_map, &full, p);
                        add_full(&mut freqs, &full, Ghost(i + 1), Ghost(i as int), Ghost(i as int));
                    } else {
                        assert(counts_below(freqs@, i + 1, i + 1, i as int));
                    }
                    if !initials.as_str().is_empty() && initials != full {
                        push_position(&mut pos_map, &initials, p);
                        add_initials(&mut freqs, &initials, Ghost(i + 1), Ghost(i + 1), Ghost(i as int));
                    }
                },
                None => {},
            }
        }
        i = i + 1;
    }
    assert(ts.subrange(0, tokens@.len() as int) =~= ts);
    proof {
        assert forall|j: int, k: Seq<char>| 0 <= j < ts.len() && #[trigger] recorded_under(ts[j], k) implies build_pos(ts).contains_key(k)
            && build_pos(ts)[k].contains(span(ts[j])) by {
            lemma_token_positions_recorded(ts, j, k);
        }
    }
    let doc = DocData { content: text.to_owned(), doc_len: tokens.len() as i64, term_pos: pos_map, term_freqs: freqs };
    (doc, terms)
}

} // verus!
