//! Ordering the character ranges that a query matches in a document.
use vstd::prelude::*;

verus! {

/// Ranges in order of their start.
pub open spec fn starts_sorted(s: Seq<(u32, u32)>) -> bool {
    forall|i: int, j: int| 0 <= i < j < s.len() ==> s[i].0 <= s[j].0
}

/// The predicate "starts at `v`".
pub open spec fn starts_at(v: u32) -> spec_fn((u32, u32)) -> bool {
    |p: (u32, u32)| p.0 == v
}

/// `r` is `s` sorted by start, ranges with the same start kept in the order
/// they have in `s`.
pub open spec fn stable_sorted_by_start(r: Seq<(u32, u32)>, s: Seq<(u32, u32)>) -> bool {
    &&& starts_sorted(r)
    &&& forall|v: u32| #[trigger] r.filter(starts_at(v)) == s.filter(starts_at(v))
}

proof fn lemma_filter_none<A>(s: Seq<A>, p: spec_fn(A) -> bool)
    requires
        forall|i: int| 0 <= i < s.len() ==> !p(#[trigger] s[i]),
    ensures
        s.filter(p) == Seq::<A>::empty(),
    decreases s.len(),
{
    reveal(Seq::filter);
    if s.len() > 0 {
        lemma_filter_none(s.drop_last(), p);
    }
}

/// Sorts ranges by start, stably.
pub fn sort_by_start(v: Vec<(u32, u32)>) -> (r: Vec<(u32, u32)>)
    ensures
        stable_sorted_by_start(r@, v@),
        r@.len() == v@.len(),
{
    let mut out: Vec<(u32, u32)> = Vec::new();
    let mut i: usize = 0;
    while i < v.len()
        invariant
            i <= v@.len(),
            out@.len() == i,
            starts_sorted(out@),
            forall|y: u32| #[trigger] out@.filter(starts_at(y)) == v@.subrange(0, i as int).filter(starts_at(y)),
        decreases v@.len() - i,
    {
        let x = v[i];
        let mut k = out.len();
        while k > 0 && out[k - 1].0 > x.0
            invariant
                k <= out@.len(),
                forall|j: int| k <= j < out@.len() ==> out@[j].0 > x.0,
            decreases k,
        {
            k = k - 1;
        }
        let ghost old_out = out@;
        let ghost pre = old_out.subrange(0, k as int);
        let ghost suf = old_out.subrange(k as int, old_out.len() as int);
        proof {
            assert forall|j: int| 0 <= j < k implies old_out[j].0 <= x.0 by {
                if k > 0 {
                    assert(old_out[k - 1].0 <= x.0);
                }
            }
        }
        out.insert(k, x);
        proof {
            assert(out@ =~= pre.push(x) + suf);
            assert(old_out =~= pre + suf);
            assert(v@.subrange(0, i + 1) =~= v@.subrange(0, i as int).push(x));
            assert forall|y: u32| #[trigger] out@.filter(starts_at(y)) == v@.subrange(0, i + 1).filter(starts_at(y)) by {
                Seq::filter_distributes_over_add(pre.push(x), suf, starts_at(y));
                Seq::filter_distributes_over_add(pre, suf, starts_at(y));
                pre.lemma_filter_push(x, starts_at(y));
                v@.subrange(0, i as int).lemma_filter_push(x, starts_at(y));
                if x.0 == y {
                    lemma_filter_none(suf, starts_at(y));
                    assert(pre.filter(starts_at(y)) + suf.filter(starts_at(y)) =~= pre.filter(starts_at(y)));
                    assert(pre.filter(starts_at(y)).push(x) + suf.filter(starts_at(y)) =~= pre.filter(starts_at(y)).push(x));
                }
            }
        }
        i = i + 1;
    }
    assert(v@.subrange(0, v@.len() as int) =~= v@);
    out
}

} // verus!
