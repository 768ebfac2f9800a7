//! The trigram index that fuzzy search draws its candidate terms from.
use vstd::prelude::*;
use crate::strmap::StrMap;
use crate::text::{trigrams, generate_trigrams};
use crate::laws::lemma_every_stretch_listed;

verus! {

/// The character sequences of a list of strings.
pub open spec fn names(v: Seq<String>) -> Seq<Seq<char>> {
    v.map_values(|s: String| s@)
}

/// A trigram index seen as a map from trigram to the terms listed under it.
pub open spec fn ngram_view(m: Map<Seq<char>, Seq<String>>) -> Map<Seq<char>, Seq<Seq<char>>> {
    m.map_values(|v: Seq<String>| names(v))
}

/// The predicate "differs from `term`".
pub open spec fn other_than(term: Seq<char>) -> spec_fn(Seq<char>) -> bool {
    |t: Seq<char>| t != term
}

/// The list under a key, or the empty list.
pub open spec fn list_or_empty(ng: Map<Seq<char>, Seq<Seq<char>>>, g: Seq<char>) -> Seq<Seq<char>> {
    if ng.contains_key(g) {
        ng[g]
    } else {
        Seq::empty()
    }
}

/// `term` listed under each trigram of `gs`, once.
pub open spec fn with_term_on(
    ng: Map<Seq<char>, Seq<Seq<char>>>,
    term: Seq<char>,
    gs: Seq<Seq<char>>,
) -> Map<Seq<char>, Seq<Seq<char>>> {
    Map::new(
        |g: Seq<char>| ng.contains_key(g) || gs.contains(g),
        |g: Seq<char>|
            if gs.contains(g) {
                let old = list_or_empty(ng, g);
                if old.contains(term) {
                    old
                } else {
                    old.push(term)
                }
            } else {
                ng[g]
            },
    )
}

/// The index after `term` is added: a term of three characters or more is
/// appended to the list of each of its trigrams that does not hold it yet;
/// a shorter term changes nothing.
pub open spec fn with_term(ng: Map<Seq<char>, Seq<Seq<char>>>, term: Seq<char>) -> Map<
    Seq<char>,
    Seq<Seq<char>>,
> {
    if term.len() < 3 {
        ng
    } else {
        with_term_on(ng, term, trigrams(term))
    }
}

/// `term` taken out of the lists of the trigrams in `gs`; a list left empty
/// goes with its trigram.
pub open spec fn without_term_on(
    ng: Map<Seq<char>, Seq<Seq<char>>>,
    term: Seq<char>,
    gs: Seq<Seq<char>>,
) -> Map<Seq<char>, Seq<Seq<char>>> {
    Map::new(
        |g: Seq<char>|
            ng.contains_key(g) && !(gs.contains(g) && ng[g].filter(other_than(term)).len()
                == 0),
        |g: Seq<char>|
            if gs.contains(g) {
                ng[g].filter(other_than(term))
            } else {
                ng[g]
            },
    )
}

/// The index after `term` is removed: for a term of three characters or
/// more, every copy of it leaves the list of each of its trigrams, and a
/// trigram whose list becomes empty leaves the index; a shorter term changes
/// nothing.
pub open spec fn without_term(ng: Map<Seq<char>, Seq<Seq<char>>>, term: Seq<char>) -> Map<
    Seq<char>,
    Seq<Seq<char>>,
> {
    if term.len() < 3 {
        ng
    } else {
        without_term_on(ng, term, trigrams(term))
    }
}

proof fn lemma_with_term_step(
    ng: Map<Seq<char>, Seq<Seq<char>>>,
    term: Seq<char>,
    pre: Seq<Seq<char>>,
    g: Seq<char>,
)
    ensures
        ({
            let cur = with_term_on(ng, term, pre);
            let old = list_or_empty(cur, g);
            with_term_on(ng, term, pre.push(g)) == cur.insert(
                g,
                if old.contains(term) {
                    old
                } else {
                    old.push(term)
                },
            )
        }),
{
    let cur = with_term_on(ng, term, pre);
    let old = list_or_empty(cur, g);
    let next = with_term_on(ng, term, pre.push(g));
    let v = if old.contains(term) { old } else { old.push(term) };
    assert forall|h: Seq<char>| pre.push(g).contains(h) <==> (pre.contains(h) || h == g) by {
        if pre.push(g).contains(h) {
            let i = choose|i: int| 0 <= i < pre.push(g).len() && pre.push(g)[i] == h;
            if i < pre.len() {
                assert(pre[i] == h);
            }
        }
        if pre.contains(h) {
            let i = choose|i: int| 0 <= i < pre.len() && pre[i] == h;
            assert(pre.push(g)[i] == h);
        }
        if h == g {
            assert(pre.push(g)[pre.len() as int] == h);
        }
    }
    if pre.contains(g) {
        let o = list_or_empty(ng, g);
        if !o.contains(term) {
            assert(o.push(term)[o.len() as int] == term);
        }
    }
    assert(next =~= cur.insert(g, v));
}

/// Filtering twice keeps what both predicates keep.
pub proof fn lemma_filter_filter<A>(s: Seq<A>, p: spec_fn(A) -> bool, q: spec_fn(A) -> bool)
    ensures
        s.filter(p).filter(q) == s.filter(|x: A| p(x) && q(x)),
    decreases s.len(),
{
    reveal(Seq::filter);
    let pq = |x: A| p(x) && q(x);
    if s.len() > 0 {
        lemma_filter_filter(s.drop_last(), p, q);
        let sub = s.drop_last().filter(p);
        if p(s.last()) {
            sub.lemma_filter_push(s.last(), q);
        }
    }
}

proof fn lemma_without_term_step(
    ng: Map<Seq<char>, Seq<Seq<char>>>,
    term: Seq<char>,
    pre: Seq<Seq<char>>,
    g: Seq<char>,
)
    ensures
        ({
            let cur = without_term_on(ng, term, pre);
            let ne = other_than(term);
            without_term_on(ng, term, pre.push(g)) == if cur.contains_key(g) {
                if cur[g].filter(ne).len() == 0 {
                    cur.remove(g)
                } else {
                    cur.insert(g, cur[g].filter(ne))
                }
            } else {
                cur
            }
        }),
{
    let cur = without_term_on(ng, term, pre);
    let ne = other_than(term);
    let next = without_term_on(ng, term, pre.push(g));
    assert forall|h: Seq<char>| pre.push(g).contains(h) <==> (pre.contains(h) || h == g) by {
        if pre.push(g).contains(h) {
            let i = choose|i: int| 0 <= i < pre.push(g).len() && pre.push(g)[i] == h;
            if i < pre.len() {
                assert(pre[i] == h);
            }
        }
        if pre.contains(h) {
            let i = choose|i: int| 0 <= i < pre.len() && pre[i] == h;
            assert(pre.push(g)[i] == h);
        }
        if h == g {
            assert(pre.push(g)[pre.len() as int] == h);
        }
    }
    if ng.contains_key(g) {
        lemma_filter_filter(ng[g], ne, ne);
        assert((|x: Seq<char>| ne(x) && ne(x)) =~= ne);
    }
    let expected = if cur.contains_key(g) {
        if cur[g].filter(ne).len() == 0 {
            cur.remove(g)
        } else {
            cur.insert(g, cur[g].filter(ne))
        }
    } else {
        cur
    };
    assert(next =~= expected);
}

proof fn lemma_names_push(v: Seq<String>, s: String)
    ensures
        names(v.push(s)) == names(v).push(s@),
{
    assert(names(v.push(s)) =~= names(v).push(s@));
}

/// Whether `term` is in the list.
pub fn list_contains(v: &Vec<String>, term: &String) -> (r: bool)
    ensures
        r == names(v@).contains(term@),
{
    let mut i: usize = 0;
    while i < v.len()
        invariant
            i <= v@.len(),
            forall|k: int| 0 <= k < i ==> v@[k]@ != term@,
        decreases v@.len() - i,
    {
        if v[i] == *term {
            assert(names(v@)[i as int] == term@);
            return true;
        }
        i = i + 1;
    }
    proof {
        if names(v@).contains(term@) {
            let k = choose|k: int| 0 <= k < names(v@).len() && names(v@)[k] == term@;
            assert(v@[k]@ == term@);
        }
    }
    false
}

/// The list without any copy of `term`.
fn list_without(v: Vec<String>, term: &String) -> (r: Vec<String>)
    ensures
        names(r@) == names(v@).filter(other_than(term@)),
{
    let ghost pred = other_than(term@);
    let mut out: Vec<String> = Vec::new();
    let mut i: usize = 0;
    while i < v.len()
        invariant
            i <= v@.len(),
            pred == (other_than(term@)),
            names(out@) == names(v@.subrange(0, i as int)).filter(pred),
        decreases v@.len() - i,
    {
        let ghost pre = v@.subrange(0, i as int);
        assert(v@.subrange(0, i + 1) =~= pre.push(v@[i as int]));
        proof {
            lemma_names_push(pre, v@[i as int]);
            names(pre).lemma_filter_push(v@[i as int]@, pred);
        }
        if v[i] != *term {
            let s = v[i].clone();
            proof { lemma_names_push(out@, s); }
            out.push(s);
        }
        i = i + 1;
    }
    assert(v@.subrange(0, v@.len() as int) =~= v@);
    out
}

/// Adds `term` to the trigram index: see `with_term`.
pub fn add_term_to_ngrams(index: &mut StrMap<Vec<String>>, term: &str)
    ensures
        ngram_view(final(index)@) == with_term(ngram_view(old(index)@), term@),
        forall|i: int|
            0 <= i && i + 3 <= term@.len() ==> ngram_view(final(index)@).contains_key(#[trigger] term@.subrange(i, i + 3))
                && ngram_view(final(index)@)[term@.subrange(i, i + 3)].contains(term@),
{
    proof {
        lemma_every_stretch_listed(ngram_view(index@), term@);
    }
    let gs = generate_trigrams(term);
    let ghost ng0 = ngram_view(index@);
    let ghost all = gs@.map_values(|s: String| s@);
    if gs.len() == 0 {
        proof {
            if term@.len() >= 3 {
                assert(all.len() == 0);
            }
        }
        return;
    }
    let owned = term.to_owned();
    let mut k: usize = 0;
    while k < gs.len()
        invariant
            k <= gs@.len(),
            all == gs@.map_values(|s: String| s@),
            all == trigrams(term@),
            owned@ == term@,
            ngram_view(index@) == with_term_on(ng0, term@, all.subrange(0, k as int)),
        decreases gs@.len() - k,
    {
        let g = gs[k].clone();
        let ghost pre = all.subrange(0, k as int);
        let ghost cur = ngram_view(index@);
        let mut list = match index.remove(g.as_str()) {
            Some(l) => l,
            None => Vec::new(),
        };
        assert(names(list@) == list_or_empty(cur, g@));
        if !list_contains(&list, &owned) {
            proof { lemma_names_push(list@, owned); }
            list.push(owned.clone());
        }
        let ghost lv = list@;
        index.insert(g, list);
        proof {
            assert(all.subrange(0, k + 1) =~= pre.push(g@));
            lemma_with_term_step(ng0, term@, pre, g@);
            assert(ngram_view(index@) =~= cur.insert(g@, names(lv)));
        }
        k = k + 1;
    }
    assert(all.subrange(0, gs@.len() as int) =~= all);
}

/// Whether some term of `r` with three characters or more has trigram `g`.
pub open spec fn touched(g: Seq<char>, r: Set<Seq<char>>) -> bool {
    exists|t: Seq<char>| r.contains(t) && t.len() >= 3 && #[trigger] trigrams(t).contains(g)
}

/// The predicate "is not a term of `r` that has trigram `g`".
pub open spec fn kept_under(g: Seq<char>, r: Set<Seq<char>>) -> spec_fn(Seq<char>) -> bool {
    |t: Seq<char>| !(r.contains(t) && t.len() >= 3 && trigrams(t).contains(g))
}

/// The index after every term of `r` is removed (see `without_term`): each
/// trigram of such a term loses the term from its list, and goes if its list
/// becomes empty.
pub open spec fn without_terms(ng: Map<Seq<char>, Seq<Seq<char>>>, r: Set<Seq<char>>) -> Map<
    Seq<char>,
    Seq<Seq<char>>,
> {
    Map::new(
        |g: Seq<char>|
            ng.contains_key(g) && !(touched(g, r) && ng[g].filter(kept_under(g, r)).len() == 0),
        |g: Seq<char>|
            if touched(g, r) {
                ng[g].filter(kept_under(g, r))
            } else {
                ng[g]
            },
    )
}

proof fn lemma_filter_empty<A>(p: spec_fn(A) -> bool)
    ensures
        Seq::<A>::empty().filter(p) == Seq::<A>::empty(),
{
    reveal(Seq::filter);
}

/// Removing the terms of `r` and then `t` is removing the terms of `r` and `t`.
pub proof fn lemma_without_terms_insert(
    ng: Map<Seq<char>, Seq<Seq<char>>>,
    r: Set<Seq<char>>,
    t: Seq<char>,
)
    requires
        !r.contains(t),
    ensures
        without_term(without_terms(ng, r), t) == without_terms(ng, r.insert(t)),
{
    let cur = without_terms(ng, r);
    let r2 = r.insert(t);
    let target = without_terms(ng, r2);
    let next = without_term(cur, t);
    if t.len() < 3 {
        assert forall|g: Seq<char>| #![auto] touched(g, r2) == touched(g, r) by {
            if touched(g, r2) {
                let x = choose|x: Seq<char>| r2.contains(x) && x.len() >= 3 && #[trigger] trigrams(x).contains(g);
                assert(r.contains(x));
            }
        }
        assert forall|g: Seq<char>| #![auto] kept_under(g, r2) == kept_under(g, r) by {
            assert(kept_under(g, r2) =~= kept_under(g, r));
        }
        assert(next =~= target);
    } else {
        assert forall|g: Seq<char>|
            #[trigger] next.dom().contains(g) == target.dom().contains(g) && (next.contains_key(g) ==> next[g] == target[g]) by {
            let ne = other_than(t);
            if trigrams(t).contains(g) {
                assert(touched(g, r2));
                if touched(g, r) {
                    if ng.contains_key(g) {
                        lemma_filter_filter(ng[g], kept_under(g, r), ne);
                        assert((|x: Seq<char>| kept_under(g, r)(x) && ne(x)) =~= kept_under(g, r2));
                        if ng[g].filter(kept_under(g, r)).len() == 0 {
                            assert(ng[g].filter(kept_under(g, r)) =~= Seq::<Seq<char>>::empty());
                            lemma_filter_empty(ne);
                        }
                    }
                } else {
                    assert(ne =~= kept_under(g, r2)) by {
                        assert forall|x: Seq<char>| #[trigger] ne(x) == kept_under(g, r2)(x) by {
                            if r.contains(x) && x.len() >= 3 && trigrams(x).contains(g) {
                                assert(touched(g, r));
                            }
                        }
                    }
                }
            } else {
                assert(touched(g, r2) == touched(g, r)) by {
                    if touched(g, r2) {
                        let x = choose|x: Seq<char>| r2.contains(x) && x.len() >= 3 && #[trigger] trigrams(x).contains(g);
                        assert(r.contains(x));
                    }
                }
                assert(kept_under(g, r2) =~= kept_under(g, r));
            }
        }
        assert(next =~= target);
    }
}

/// The trigram index lists exactly the terms of `terms`: a trigram is a key
/// just when some term of three characters or more has it, and its list
/// holds each such term once, in some order.
pub open spec fn lists_terms(ng: Map<Seq<char>, Seq<Seq<char>>>, terms: Set<Seq<char>>) -> bool {
    &&& forall|g: Seq<char>| #[trigger] ng.contains_key(g) <==> touched(g, terms)
    &&& forall|g: Seq<char>| #[trigger] ng.contains_key(g) ==> ng[g].no_duplicates()
    &&& forall|g: Seq<char>, t: Seq<char>|
        #![trigger ng[g].contains(t)]
        ng.contains_key(g) ==> (ng[g].contains(t) <==> terms.contains(t) && t.len() >= 3
            && trigrams(t).contains(g))
}

/// Adding a term to an index that lists a set of terms lists one more.
#[verifier::spinoff_prover]
pub proof fn lemma_with_term_lists(ng: Map<Seq<char>, Seq<Seq<char>>>, terms: Set<Seq<char>>, t: Seq<char>)
    requires
        lists_terms(ng, terms),
    ensures
        lists_terms(with_term(ng, t), terms.insert(t)),
{
    let t2 = terms.insert(t);
    let n = with_term(ng, t);
    assert forall|g: Seq<char>| #[trigger] n.contains_key(g) <==> touched(g, t2) by {
        if touched(g, t2) {
            let x = choose|x: Seq<char>| t2.contains(x) && x.len() >= 3 && #[trigger] trigrams(x).contains(g);
            if x != t {
                assert(touched(g, terms));
            }
        }
        if n.contains_key(g) && t.len() >= 3 && trigrams(t).contains(g) {
            assert(t2.contains(t));
        }
        if n.contains_key(g) && ng.contains_key(g) {
            let x = choose|x: Seq<char>| terms.contains(x) && x.len() >= 3 && #[trigger] trigrams(x).contains(g);
            assert(t2.contains(x));
        }
    }
    assert forall|g: Seq<char>| #[trigger] n.contains_key(g) implies n[g].no_duplicates() && forall|u: Seq<char>|
        (n[g].contains(u) <==> t2.contains(u) && u.len() >= 3 && trigrams(u).contains(g)) by {
        if !(t.len() >= 3 && trigrams(t).contains(g)) {
            assert(ng.contains_key(g));
            assert(n[g] == ng[g]);
            assert forall|u: Seq<char>| (n[g].contains(u) <==> t2.contains(u) && u.len() >= 3 && trigrams(u).contains(g)) by {
                assert(ng[g].contains(u) <==> terms.contains(u) && u.len() >= 3 && trigrams(u).contains(g));
            }
        }
        if t.len() >= 3 && trigrams(t).contains(g) {
            let o = list_or_empty(ng, g);
            if !ng.contains_key(g) {
                assert(o =~= Seq::<Seq<char>>::empty());
                assert forall|u: Seq<char>| !(terms.contains(u) && u.len() >= 3 && trigrams(u).contains(g)) by {
                    if terms.contains(u) && u.len() >= 3 && trigrams(u).contains(g) {
                        assert(touched(g, terms));
                    }
                }
            }
            assert forall|u: Seq<char>| o.contains(u) <==> (terms.contains(u) && u.len() >= 3 && trigrams(u).contains(g)) by {
                if ng.contains_key(g) {
                    assert(ng[g].contains(u) <==> terms.contains(u) && u.len() >= 3 && trigrams(u).contains(g));
                }
            }
            if !o.contains(t) {
                assert forall|i: int, j: int| 0 <= i < j < o.push(t).len() implies o.push(t)[i] != o.push(t)[j] by {
                    if j == o.len() {
                        assert(o.contains(o[i]));
                    }
                }
                assert forall|u: Seq<char>| o.push(t).contains(u) <==> (o.contains(u) || u == t) by {
                    if o.push(t).contains(u) {
                        let i = choose|i: int| 0 <= i < o.push(t).len() && o.push(t)[i] == u;
                        if i < o.len() {
                            assert(o[i] == u);
                        }
                    }
                    if o.contains(u) {
                        let i = choose|i: int| 0 <= i < o.len() && o[i] == u;
                        assert(o.push(t)[i] == u);
                    }
                    if u == t {
                        assert(o.push(t)[o.len() as int] == u);
                    }
                }
            }
        }
    }
}

/// How often `c` occurs in `s`.
pub open spec fn count_in(s: Seq<Seq<char>>, c: Seq<char>) -> nat
    decreases s.len(),
{
    if s.len() == 0 {
        0
    } else {
        count_in(s.drop_last(), c) + if s.last() == c { 1nat } else { 0nat }
    }
}

pub proof fn lemma_count_push(s: Seq<Seq<char>>, x: Seq<char>, c: Seq<char>)
    ensures
        count_in(s.push(x), c) == count_in(s, c) + if x == c { 1nat } else { 0nat },
{
    assert(s.push(x).drop_last() =~= s);
}

/// `c` occurs in `s` just when it is counted there.
pub proof fn lemma_count_contains(s: Seq<Seq<char>>, c: Seq<char>)
    ensures
        count_in(s, c) > 0 <==> s.contains(c),
    decreases s.len(),
{
    if s.len() > 0 {
        let pre = s.drop_last();
        lemma_count_contains(pre, c);
        if pre.contains(c) {
            let i = choose|i: int| 0 <= i < pre.len() && pre[i] == c;
            assert(s[i] == c);
        }
        if s.contains(c) {
            let i = choose|i: int| 0 <= i < s.len() && s[i] == c;
            if i < pre.len() {
                assert(pre[i] == c);
            }
        }
    }
}

/// A filter keeps every copy of an element it keeps, and none of one it
/// drops.
pub proof fn lemma_count_filter(s: Seq<Seq<char>>, p: spec_fn(Seq<char>) -> bool, c: Seq<char>)
    ensures
        count_in(s.filter(p), c) == if p(c) { count_in(s, c) } else { 0 },
    decreases s.len(),
{
    reveal(Seq::filter);
    if s.len() > 0 {
        let pre = s.drop_last();
        lemma_count_filter(pre, p, c);
        if p(s.last()) {
            lemma_count_push(pre.filter(p), s.last(), c);
        }
    }
}

/// How often `c` is listed under the trigrams of `gs`, each trigram counted
/// as often as it occurs in `gs`.
pub open spec fn hits(ng: Map<Seq<char>, Seq<Seq<char>>>, gs: Seq<Seq<char>>, c: Seq<char>) -> nat
    decreases gs.len(),
{
    if gs.len() == 0 {
        0
    } else {
        hits(ng, gs.drop_last(), c) + count_in(list_or_empty(ng, gs.last()), c)
    }
}

/// The number of entries listed under the trigrams of `gs`, counted the same way.
pub open spec fn listed(ng: Map<Seq<char>, Seq<Seq<char>>>, gs: Seq<Seq<char>>) -> nat
    decreases gs.len(),
{
    if gs.len() == 0 {
        0
    } else {
        listed(ng, gs.drop_last()) + list_or_empty(ng, gs.last()).len()
    }
}

/// The most fuzzy candidates kept for one query term.
pub const FUZZY_MAX_CANDIDATES: usize = 20;

proof fn lemma_count_le(s: Seq<Seq<char>>, c: Seq<char>)
    ensures
        count_in(s, c) <= s.len(),
    decreases s.len(),
{
    if s.len() > 0 {
        lemma_count_le(s.drop_last(), c);
    }
}

proof fn lemma_hits_le(ng: Map<Seq<char>, Seq<Seq<char>>>, gs: Seq<Seq<char>>, c: Seq<char>)
    ensures
        hits(ng, gs, c) <= listed(ng, gs),
    decreases gs.len(),
{
    if gs.len() > 0 {
        lemma_hits_le(ng, gs.drop_last(), c);
        lemma_count_le(list_or_empty(ng, gs.last()), c);
    }
}

/// Counts, for each term listed under the trigrams of `term`, how often it
/// is listed there.
pub fn count_trigram_hits(index: &StrMap<Vec<String>>, term: &str) -> (r: StrMap<usize>)
    requires
        listed(ngram_view(index@), trigrams(term@)) < usize::MAX,
    ensures
        forall|c: Seq<char>| #[trigger] r@.contains_key(c) <==> hits(ngram_view(index@), trigrams(term@), c) > 0,
        forall|c: Seq<char>| #[trigger] r@.contains_key(c) ==> r@[c] == hits(ngram_view(index@), trigrams(term@), c),
{
    let ghost ng = ngram_view(index@);
    let gs = generate_trigrams(term);
    let ghost all = gs@.map_values(|s: String| s@);
    let mut counts: StrMap<usize> = StrMap::new();
    let mut i: usize = 0;
    while i < gs.len()
        invariant
            i <= gs@.len(),
            all == gs@.map_values(|s: String| s@),
            all == trigrams(term@),
            ng == ngram_view(index@),
            listed(ng, all) < usize::MAX,
            forall|c: Seq<char>| #[trigger] counts@.contains_key(c) <==> hits(ng, all.take(i as int), c) > 0,
            forall|c: Seq<char>| #[trigger] counts@.contains_key(c) ==> counts@[c] == hits(ng, all.take(i as int), c),
        decreases gs@.len() - i,
    {
        let ghost pre = all.take(i as int);
        assert(all.take(i + 1).drop_last() =~= pre);
        assert(all.take(i + 1).last() == gs@[i as int]@);
        proof {
            lemma_listed_prefix(ng, all, i + 1);
        }
        match index.get(gs[i].as_str()) {
            Some(list) => {
                assert(names(list@) == list_or_empty(ng, gs@[i as int]@));
                let mut j: usize = 0;
                while j < list.len()
                    invariant
                        j <= list@.len(),
                        ng == ngram_view(index@),
                        names(list@) == list_or_empty(ng, all[i as int]),
                        i < all.len(),
                        all.take(i + 1).drop_last() == pre,
                        all.take(i + 1).last() == all[i as int],
                        listed(ng, all.take(i + 1)) < usize::MAX,
                        forall|c: Seq<char>| #[trigger] counts@.contains_key(c) <==> hits(ng, pre, c) + count_in(names(list@).take(j as int), c) > 0,
                        forall|c: Seq<char>| #[trigger] counts@.contains_key(c) ==> counts@[c] == hits(ng, pre, c) + count_in(names(list@).take(j as int), c),
                    decreases list@.len() - j,
                {
                    let c = &list[j];
                    let ghost cv = c@;
                    assert(names(list@).take(j + 1).drop_last() =~= names(list@).take(j as int));
                    assert(names(list@).take(j + 1).last() == cv);
                    proof {
                        lemma_hits_le(ng, all.take(i + 1), cv);
                        lemma_count_le(names(list@).take(j as int), cv);
                        lemma_count_take_le(names(list@), cv, j + 1);
                    }
                    let prev = match counts.get(c.as_str()) {
                        Some(n) => *n,
                        None => 0,
                    };
                    counts.insert(c.clone(), prev + 1);
                    j = j + 1;
                }
                assert(names(list@).take(list@.len() as int) =~= names(list@));
            },
            None => {
                assert(list_or_empty(ng, all[i as int]) =~= Seq::<Seq<char>>::empty());
            },
        }
        i = i + 1;
    }
    assert(all.take(gs@.len() as int) =~= all);
    counts
}

/// `r` holds the `k` terms of `counts` with the highest counts (all of them
/// where there are fewer), each once, in order of decreasing count; a term
/// left out counts no more than any term kept.
pub open spec fn top_ranked(r: Seq<Seq<char>>, counts: Map<Seq<char>, usize>, k: nat) -> bool {
    &&& r.len() == if counts.len() < k { counts.len() } else { k }
    &&& r.no_duplicates()
    &&& forall|i: int| 0 <= i < r.len() ==> counts.contains_key(#[trigger] r[i])
    &&& forall|i: int, j: int| 0 <= i < j < r.len() ==> counts[r[i]] >= counts[r[j]]
    &&& forall|c: Seq<char>, i: int|
        #![trigger counts[c], r[i]]
        counts.contains_key(c) && !r.contains(c) && 0 <= i < r.len() ==> counts[c] <= counts[r[i]]
}

pub open spec fn count_names(v: Seq<(String, usize)>) -> Seq<Seq<char>> {
    v.map_values(|e: (String, usize)| e.0@)
}

/// The terms with the highest counts; see `top_ranked`.
pub fn rank_by_hits(counts: &StrMap<usize>, k: usize) -> (r: Vec<String>)
    ensures
        top_ranked(names(r@), counts@, k as nat),
{
    let es = counts.entries();
    let mut out: Vec<(String, usize)> = Vec::new();
    let mut i: usize = 0;
    while i < es.len()
        invariant
            i <= es@.len(),
            es@.len() == counts@.len(),
            forall|j: int| #![trigger es@[j]] 0 <= j < es@.len() ==> counts@.contains_key(es@[j].0@)
                && counts@[es@[j].0@] == es@[j].1,
            forall|c: Seq<char>| #[trigger] counts@.contains_key(c) ==> exists|j: int| 0 <= j < es@.len() && #[trigger] es@[j].0@ == c,
            forall|a: int, b: int| 0 <= a < b < es@.len() ==> es@[a].0@ != es@[b].0@,
            out@.len() == i,
            count_names(out@).no_duplicates(),
            forall|c: Seq<char>| count_names(out@).contains(c) <==> exists|j: int| 0 <= j < i && #[trigger] es@[j].0@ == c,
            forall|j: int| #![trigger out@[j]] 0 <= j < out@.len() ==> counts@.contains_key(out@[j].0@)
                && counts@[out@[j].0@] == out@[j].1,
            forall|a: int, b: int| 0 <= a < b < out@.len() ==> out@[a].1 >= out@[b].1,
        decreases es@.len() - i,
    {
        let x = (es[i].0.clone(), es[i].1);
        let mut p = out.len();
        while p > 0 && out[p - 1].1 < x.1
            invariant
                p <= out@.len(),
                forall|j: int| p <= j < out@.len() ==> out@[j].1 < x.1,
            decreases p,
        {
            p = p - 1;
        }
        let ghost old_out = out@;
        proof {
            assert forall|j: int| 0 <= j < p implies old_out[j].1 >= x.1 by {
                assert(old_out[p - 1].1 >= x.1);
                if j < p - 1 {
                    assert(old_out[j].1 >= old_out[p - 1].1);
                }
            }
            assert forall|j: int| 0 <= j < old_out.len() implies old_out[j].0@ != x.0@ by {
                assert(count_names(old_out).contains(old_out[j].0@)) by {
                    assert(count_names(old_out)[j] == old_out[j].0@);
                }
                let jj = choose|jj: int| 0 <= jj < i && #[trigger] es@[jj].0@ == old_out[j].0@;
                assert(es@[jj].0@ != es@[i as int].0@);
            }
        }
        out.insert(p, x);
        proof {
            assert(out@ == old_out.insert(p as int, x));
            assert forall|j: int| 0 <= j < out@.len() implies #[trigger] out@[j] == if j < p { old_out[j] } else if j == p { x } else { old_out[j - 1] } by {}
            assert forall|a: int, b: int| 0 <= a < b < count_names(out@).len() implies count_names(out@)[a] != count_names(out@)[b] by {
                assert(count_names(out@)[a] == out@[a].0@);
                assert(count_names(out@)[b] == out@[b].0@);
                if a != p && b != p {
                    let a2 = if a < p { a } else { a - 1 };
                    let b2 = if b < p { b } else { b - 1 };
                    assert(count_names(old_out)[a2] == old_out[a2].0@);
                    assert(count_names(old_out)[b2] == old_out[b2].0@);
                }
            }
            assert forall|c: Seq<char>| count_names(out@).contains(c) <==> exists|j: int| 0 <= j < i + 1 && #[trigger] es@[j].0@ == c by {
                if count_names(out@).contains(c) {
                    let j = choose|j: int| 0 <= j < count_names(out@).len() && count_names(out@)[j] == c;
                    assert(count_names(out@)[j] == out@[j].0@);
                    if j != p {
                        let j2 = if j < p { j } else { j - 1 };
                        assert(count_names(old_out)[j2] == c);
                        assert(count_names(old_out).contains(c));
                    } else {
                        assert(es@[i as int].0@ == c);
                    }
                }
                if exists|j: int| 0 <= j < i + 1 && #[trigger] es@[j].0@ == c {
                    let j = choose|j: int| 0 <= j < i + 1 && #[trigger] es@[j].0@ == c;
                    if j == i {
                        assert(count_names(out@)[p as int] == c);
                    } else {
                        assert(count_names(old_out).contains(c));
                        let m = choose|m: int| 0 <= m < count_names(old_out).len() && count_names(old_out)[m] == c;
                        let m2 = if m < p { m } else { m + 1 };
                        assert(count_names(out@)[m2] == c);
                    }
                }
            }
        }
        i = i + 1;
    }
    proof {
        assert forall|c: Seq<char>| counts@.contains_key(c) implies count_names(out@).contains(c) by {
            let j = choose|j: int| 0 <= j < es@.len() && #[trigger] es@[j].0@ == c;
            assert(es@[j].0@ == c);
        }
    }
    let m = if out.len() < k { out.len() } else { k };
    let mut r: Vec<String> = Vec::new();
    let mut j: usize = 0;
    while j < m
        invariant
            j <= m <= out@.len(),
            r@.len() == j,
            forall|a: int| 0 <= a < j ==> #[trigger] r@[a]@ == out@[a].0@,
        decreases m - j,
    {
        r.push(out[j].0.clone());
        j = j + 1;
    }
    proof {
        let rn = names(r@);
        assert forall|a: int| 0 <= a < rn.len() implies #[trigger] rn[a] == count_names(out@)[a] by {}
        assert forall|a: int, b: int| 0 <= a < b < rn.len() implies rn[a] != rn[b] by {
            assert(rn[a] == count_names(out@)[a]);
            assert(rn[b] == count_names(out@)[b]);
        }
        assert forall|i2: int| 0 <= i2 < rn.len() implies counts@.contains_key(#[trigger] rn[i2]) by {
            assert(rn[i2] == out@[i2].0@);
        }
        assert forall|a: int, b: int| 0 <= a < b < rn.len() implies counts@[rn[a]] >= counts@[rn[b]] by {
            assert(rn[a] == out@[a].0@);
            assert(rn[b] == out@[b].0@);
        }
        assert forall|c: Seq<char>, i2: int|
            #![trigger counts@[c], rn[i2]]
            counts@.contains_key(c) && !rn.contains(c) && 0 <= i2 < rn.len()
            implies counts@[c] <= counts@[rn[i2]] by {
            assert(count_names(out@).contains(c));
            let q = choose|q: int| 0 <= q < count_names(out@).len() && count_names(out@)[q] == c;
            assert(count_names(out@)[q] == out@[q].0@);
            if q < m {
                assert(rn[q] == c);
            }
            assert(rn[i2] == out@[i2].0@);
        }
    }
    r
}

/// Whether the entries listed under the trigrams of `term` can be counted
/// in a `usize`, as `trigram_candidates` requires.
pub fn trigram_hits_fit(index: &StrMap<Vec<String>>, term: &str) -> (r: bool)
    ensures
        r == (listed(ngram_view(index@), trigrams(term@)) < usize::MAX),
{
    let ghost ng = ngram_view(index@);
    let gs = generate_trigrams(term);
    let ghost all = gs@.map_values(|s: String| s@);
    let mut total: usize = 0;
    let mut i: usize = 0;
    while i < gs.len()
        invariant
            i <= gs@.len(),
            all == gs@.map_values(|s: String| s@),
            all == trigrams(term@),
            ng == ngram_view(index@),
            total as int == listed(ng, all.take(i as int)),
            total < usize::MAX,
        decreases gs@.len() - i,
    {
        assert(all.take(i + 1).drop_last() =~= all.take(i as int));
        assert(all.take(i + 1).last() == gs@[i as int]@);
        let n = match index.get(gs[i].as_str()) {
            Some(list) => {
                assert(names(list@).len() == list@.len());
                list.len()
            },
            None => 0,
        };
        assert(n == list_or_empty(ng, all[i as int]).len());
        if n >= usize::MAX - total {
            proof {
                lemma_listed_prefix(ng, all, i + 1);
            }
            return false;
        }
        total = total + n;
        i = i + 1;
    }
    assert(all.take(gs@.len() as int) =~= all);
    true
}

/// The terms listed under the trigrams of `gs`, with how often.
pub open spec fn hit_counts(ng: Map<Seq<char>, Seq<Seq<char>>>, gs: Seq<Seq<char>>) -> Map<Seq<char>, usize> {
    Map::new(|c: Seq<char>| hits(ng, gs, c) > 0, |c: Seq<char>| hits(ng, gs, c) as usize)
}

/// The terms most often listed under the trigrams of `term`, at most
/// `FUZZY_MAX_CANDIDATES` of them; see `top_ranked`.
pub fn trigram_candidates(index: &StrMap<Vec<String>>, term: &str) -> (r: Vec<String>)
    requires
        listed(ngram_view(index@), trigrams(term@)) < usize::MAX,
    ensures
        top_ranked(names(r@), hit_counts(ngram_view(index@), trigrams(term@)), FUZZY_MAX_CANDIDATES as nat),
{
    let counts = count_trigram_hits(index, term);
    assert(counts@ =~= hit_counts(ngram_view(index@), trigrams(term@)));
    rank_by_hits(&counts, FUZZY_MAX_CANDIDATES)
}

proof fn lemma_count_take_le(s: Seq<Seq<char>>, c: Seq<char>, k: int)
    requires
        0 <= k <= s.len(),
    ensures
        count_in(s.take(k), c) <= count_in(s, c),
    decreases s.len() - k,
{
    if k < s.len() {
        lemma_count_take_le(s, c, k + 1);
        assert(s.take(k + 1).drop_last() =~= s.take(k));
    } else {
        assert(s.take(k) =~= s);
    }
}

proof fn lemma_listed_prefix(ng: Map<Seq<char>, Seq<Seq<char>>>, gs: Seq<Seq<char>>, k: int)
    requires
        0 <= k <= gs.len(),
    ensures
        listed(ng, gs.take(k)) <= listed(ng, gs),
    decreases gs.len() - k,
{
    if k < gs.len() {
        lemma_listed_prefix(ng, gs, k + 1);
        assert(gs.take(k + 1).drop_last() =~= gs.take(k));
    } else {
        assert(gs.take(k) =~= gs);
    }
}

/// Removes `term` from the trigram index: see `without_term`.
pub fn remove_term_from_ngrams(index: &mut StrMap<Vec<String>>, term: &str)
    ensures
        ngram_view(final(index)@) == without_term(ngram_view(old(index)@), term@),
        forall|i: int|
            0 <= i && i + 3 <= term@.len() && ngram_view(final(index)@).contains_key(#[trigger] term@.subrange(i, i + 3))
                ==> !ngram_view(final(index)@)[term@.subrange(i, i + 3)].contains(term@),
{
    proof {
        lemma_every_stretch_listed(ngram_view(index@), term@);
    }
    let gs = generate_trigrams(term);
    let ghost ng0 = ngram_view(index@);
    let ghost all = gs@.map_values(|s: String| s@);
    if gs.len() == 0 {
        proof {
            if term@.len() >= 3 {
                assert(all.len() == 0);
            }
        }
        return;
    }
    let owned = term.to_owned();
    let ghost ne = other_than(term@);
    assert(ng0 =~= without_term_on(ng0, term@, all.subrange(0, 0)));
    let mut k: usize = 0;
    while k < gs.len()
        invariant
            k <= gs@.len(),
            all == gs@.map_values(|s: String| s@),
            all == trigrams(term@),
            owned@ == term@,
            ne == (other_than(term@)),
            ngram_view(index@) == without_term_on(ng0, term@, all.subrange(0, k as int)),
        decreases gs@.len() - k,
    {
        let g = gs[k].clone();
        let ghost pre = all.subrange(0, k as int);
        let ghost cur = ngram_view(index@);
        proof {
            assert(all.subrange(0, k + 1) =~= pre.push(g@));
            lemma_without_term_step(ng0, term@, pre, g@);
        }
        match index.remove(g.as_str()) {
            Some(list) => {
                let kept = list_without(list, &owned);
                if kept.len() == 0 {
                    assert(ngram_view(index@) =~= cur.remove(g@));
                } else {
                    let ghost kv = kept@;
                    index.insert(g, kept);
                    assert(ngram_view(index@) =~= cur.insert(g@, names(kv)));
                }
            },
            None => {
                assert(ngram_view(index@) =~= cur);
            },
        }
        k = k + 1;
    }
    assert(all.subrange(0, gs@.len() as int) =~= all);
}

} // verus!
