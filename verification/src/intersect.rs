//! Exact intersection of sorted identifier sequences by a linear merge scan.

use vstd::prelude::*;

verus! {

/// A strictly increasing sequence of vertex identifiers.
pub open spec fn usorted(s: Seq<usize>) -> bool {
    forall|p: int, q: int| 0 <= p < q < s.len() ==> s[p] < s[q]
}

/// The intersection of two identifier sequences, keeping `a`'s order.
pub open spec fn inter(a: Seq<usize>, b: Seq<usize>) -> Seq<usize> {
    a.filter(|x: usize| b.contains(x))
}

/// Every element of a filtered sequence is an element of the original.
pub proof fn lemma_filter_subset(s: Seq<usize>, pred: spec_fn(usize) -> bool)
    ensures
        forall|i: int|
            0 <= i < s.filter(pred).len() ==> s.contains(#[trigger] s.filter(pred)[i]),
    decreases s.len(),
{
    reveal(Seq::filter);
    if s.len() != 0 {
        let d = s.drop_last();
        lemma_filter_subset(d, pred);
        assert forall|i: int|
            0 <= i < s.filter(pred).len() implies s.contains(s.filter(pred)[i]) by {
            let f = s.filter(pred);
            let fd = d.filter(pred);
            if pred(s.last()) && i == f.len() - 1 {
                assert(s[s.len() - 1] == f[i]);
            } else {
                assert(f[i] == fd[i]);
                assert(d.contains(fd[i]));
                let j = choose|j: int| 0 <= j < d.len() && d[j] == fd[i];
                assert(s[j] == fd[i]);
            }
        }
    }
}

/// Filtering preserves strict ordering.
pub proof fn lemma_filter_sorted(s: Seq<usize>, pred: spec_fn(usize) -> bool)
    requires
        usorted(s),
    ensures
        usorted(s.filter(pred)),
    decreases s.len(),
{
    reveal(Seq::filter);
    if s.len() != 0 {
        let d = s.drop_last();
        assert(usorted(d));
        lemma_filter_sorted(d, pred);
        lemma_filter_subset(d, pred);
        let f = s.filter(pred);
        let fd = d.filter(pred);
        assert forall|p: int, q: int| 0 <= p < q < f.len() implies f[p] < f[q] by {
            if pred(s.last()) && q == f.len() - 1 {
                assert(f[p] == fd[p]);
                assert(d.contains(fd[p]));
                let j = choose|j: int| 0 <= j < d.len() && d[j] == fd[p];
                assert(s[j] < s[s.len() - 1]);
            } else {
                assert(f[p] == fd[p] && f[q] == fd[q]);
            }
        }
    }
}

/// Membership in an intersection is exactly joint membership.
pub proof fn lemma_inter_membership(a: Seq<usize>, b: Seq<usize>)
    ensures
        forall|x: usize| #[trigger] inter(a, b).contains(x) <==> a.contains(x) && b.contains(x),
{
    let pred = |x: usize| b.contains(x);
    lemma_filter_subset(a, pred);
    assert forall|x: usize| #[trigger] inter(a, b).contains(x) implies a.contains(x)
        && b.contains(x) by {
        let i = choose|i: int| 0 <= i < inter(a, b).len() && inter(a, b)[i] == x;
        a.lemma_filter_pred(pred, i);
        assert(a.contains(inter(a, b)[i]));
    }
    assert forall|x: usize| a.contains(x) && b.contains(x) implies #[trigger] inter(
        a,
        b,
    ).contains(x) by {
        let i = choose|i: int| 0 <= i < a.len() && a[i] == x;
        a.lemma_filter_contains(pred, i);
    }
}

/// The sorted-merge intersection: after the call, the scratch vector holds
/// exactly the identifiers common to `a` and `b`, in `a`'s (increasing)
/// order.
pub fn intersection_sorted_inplace(a: &Vec<usize>, b: &Vec<usize>, out: &mut Vec<usize>)
    requires
        usorted(a@),
        usorted(b@),
    ensures
        final(out)@ == inter(a@, b@),
        usorted(final(out)@),
{
    proof {
        lemma_filter_sorted(a@, |x: usize| b@.contains(x));
    }
    out.clear();
    let an = a.len();
    let bn = b.len();
    let mut ib: usize = 0;
    let mut ia: usize = 0;
    while ia < an
        invariant
            0 <= ia <= an,
            0 <= ib <= bn,
            an == a@.len(),
            bn == b@.len(),
            usorted(a@),
            usorted(b@),
            out@ == inter(a@.take(ia as int), b@),
            ia < an ==> forall|p: int| 0 <= p < ib ==> b@[p] < a@[ia as int],
        decreases an - ia,
    {
        let av = a[ia];
        while ib < bn && b[ib] < av
            invariant
                0 <= ib <= bn,
                bn == b@.len(),
                av == a@[ia as int],
                ia < an == a@.len(),
                forall|p: int| 0 <= p < ib ==> b@[p] < av,
            decreases bn - ib,
        {
            ib = ib + 1;
        }
        let ghost out0 = out@;
        if ib < bn && b[ib] == av {
            out.push(av);
        }
        proof {
            let pred = |x: usize| b@.contains(x);
            if ib < bn && b@[ib as int] == av {
                assert(b@.contains(av));
            } else {
                assert forall|p: int| 0 <= p < bn implies b@[p] != av by {
                    if p >= ib {
                        assert(ib < bn ==> b@[ib as int] <= b@[p]);
                    }
                }
                assert(!b@.contains(av));
            }
            assert(a@.take(ia + 1) =~= a@.take(ia as int).push(av));
            a@.take(ia as int).lemma_filter_push(av, pred);
            if pred(av) {
                assert(out@ == out0.push(av));
            }
            assert(out@ == inter(a@.take(ia + 1), b@));
            if ia + 1 < an {
                assert(a@[ia as int] < a@[ia + 1]);
            }
        }
        ia = ia + 1;
    }
    proof {
        assert(a@.take(an as int) =~= a@);
    }
}

} // verus!
