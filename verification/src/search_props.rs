//! Properties of the clique enumeration: every emitted tuple is a 5-clique,
//! every 5-clique is emitted, the output is strictly ordered (hence free of
//! duplicates), and the pruning thresholds discard only hopeless branches.

use vstd::prelude::*;
use crate::graph::Graph;
use crate::intersect::{inter, lemma_filter_sorted, lemma_inter_membership, usorted};
use crate::search::{
    all_cliques, from_first, from_fourth, from_second, from_third, is_clique5, lemma_nb_member,
    lemma_nb_sorted, level5, Clique,
};

verus! {

/// Membership in a concatenation.
pub proof fn lemma_add_contains<A>(s1: Seq<A>, s2: Seq<A>)
    ensures
        forall|x: A| #[trigger] (s1 + s2).contains(x) <==> s1.contains(x) || s2.contains(x),
{
    assert forall|x: A| #[trigger] (s1 + s2).contains(x) implies s1.contains(x) || s2.contains(
        x,
    ) by {
        let i = choose|i: int| 0 <= i < (s1 + s2).len() && (s1 + s2)[i] == x;
        if i < s1.len() {
            assert(s1[i] == x);
        } else {
            assert(s2[i - s1.len()] == x);
        }
    }
    assert forall|x: A| s1.contains(x) || s2.contains(x) implies #[trigger] (s1 + s2).contains(
        x,
    ) by {
        if s1.contains(x) {
            let i = choose|i: int| 0 <= i < s1.len() && s1[i] == x;
            assert((s1 + s2)[i] == x);
        } else {
            let i = choose|i: int| 0 <= i < s2.len() && s2[i] == x;
            assert((s1 + s2)[s1.len() + i] == x);
        }
    }
}

/// A sequence holding two distinct values has at least two elements.
pub proof fn lemma_two_members(s: Seq<usize>, x: usize, y: usize)
    requires
        s.contains(x),
        s.contains(y),
        x != y,
    ensures
        s.len() >= 2,
{
    let ix = choose|i: int| 0 <= i < s.len() && s[i] == x;
    let iy = choose|i: int| 0 <= i < s.len() && s[i] == y;
    assert(ix != iy);
}

/// A sequence holding three distinct values has at least three elements.
pub proof fn lemma_three_members(s: Seq<usize>, x: usize, y: usize, z: usize)
    requires
        s.contains(x),
        s.contains(y),
        s.contains(z),
        x != y,
        x != z,
        y != z,
    ensures
        s.len() >= 3,
{
    let ix = choose|i: int| 0 <= i < s.len() && s[i] == x;
    let iy = choose|i: int| 0 <= i < s.len() && s[i] == y;
    let iz = choose|i: int| 0 <= i < s.len() && s[i] == z;
    assert(ix != iy && ix != iz && iy != iz);
}

/// Solutions of a fixed four-member prefix are sound.
proof fn lemma_level5_sound(g: Graph, i: usize, j: usize, k: usize, l: usize, fifths: Seq<usize>)
    requires
        g.wf(),
        g.edge(i as int, j as int),
        g.edge(i as int, k as int),
        g.edge(i as int, l as int),
        g.edge(j as int, k as int),
        g.edge(j as int, l as int),
        g.edge(k as int, l as int),
        forall|x: usize| #[trigger] fifths.contains(x) ==> g.edge(i as int, x as int) && g.edge(
            j as int,
            x as int,
        ) && g.edge(k as int, x as int) && g.edge(l as int, x as int),
    ensures
        forall|t: Clique| #[trigger] level5(i, j, k, l, fifths).contains(t) ==> is_clique5(g, t)
            && t.a == i && t.b == j && t.c == k && t.d == l && fifths.contains(t.e),
{
    assert forall|t: Clique| #[trigger] level5(i, j, k, l, fifths).contains(t) implies is_clique5(
        g,
        t,
    ) && t.a == i && t.b == j && t.c == k && t.d == l && fifths.contains(t.e) by {
        let s = level5(i, j, k, l, fifths);
        let m = choose|m: int| 0 <= m < s.len() && s[m] == t;
        assert(t.e == fifths[m]);
        assert(fifths.contains(t.e));
    }
}

/// Solutions found below a fixed three-member prefix are sound.
proof fn lemma_from_fourth_sound(
    g: Graph,
    i: usize,
    j: usize,
    k: usize,
    fourths: Seq<usize>,
    n: int,
)
    requires
        g.wf(),
        g.edge(i as int, j as int),
        g.edge(i as int, k as int),
        g.edge(j as int, k as int),
        forall|x: usize| #[trigger] fourths.contains(x) ==> g.edge(i as int, x as int) && g.edge(
            j as int,
            x as int,
        ) && g.edge(k as int, x as int),
        0 <= n <= fourths.len(),
    ensures
        forall|t: Clique| #[trigger] from_fourth(g, i, j, k, fourths, n).contains(t) ==> is_clique5(
            g,
            t,
        ) && t.a == i && t.b == j && t.c == k && fourths.take(n).contains(t.d),
    decreases n,
{
    if n > 0 {
        lemma_from_fourth_sound(g, i, j, k, fourths, n - 1);
        let l = fourths[n - 1];
        assert(fourths.contains(l));
        let fifths = inter(fourths, g.nb(l as int));
        lemma_inter_membership(fourths, g.nb(l as int));
        assert forall|x: usize| #[trigger] fifths.contains(x) implies g.edge(i as int, x as int)
            && g.edge(j as int, x as int) && g.edge(k as int, x as int) && g.edge(
            l as int,
            x as int,
        ) by {
            lemma_nb_member(g, l as int, x);
        }
        lemma_level5_sound(g, i, j, k, l, fifths);
        lemma_add_contains(from_fourth(g, i, j, k, fourths, n - 1), level5(i, j, k, l, fifths));
        assert forall|t: Clique| #[trigger] from_fourth(g, i, j, k, fourths, n).contains(
            t,
        ) implies is_clique5(g, t) && t.a == i && t.b == j && t.c == k && fourths.take(n).contains(
            t.d,
        ) by {
            if from_fourth(g, i, j, k, fourths, n - 1).contains(t) {
                let tk = fourths.take(n - 1);
                let idx = choose|idx: int| 0 <= idx < tk.len() && tk[idx] == t.d;
                assert(fourths.take(n)[idx] == t.d);
            } else {
                assert(level5(i, j, k, l, fifths).contains(t));
                assert(fourths.take(n)[n - 1] == t.d);
            }
        }
    }
}

/// Solutions found below a fixed two-member prefix are sound.
proof fn lemma_from_third_sound(g: Graph, i: usize, j: usize, thirds: Seq<usize>, n: int)
    requires
        g.wf(),
        g.edge(i as int, j as int),
        forall|x: usize| #[trigger] thirds.contains(x) ==> g.edge(i as int, x as int) && g.edge(
            j as int,
            x as int,
        ),
        0 <= n <= thirds.len(),
    ensures
        forall|t: Clique| #[trigger] from_third(g, i, j, thirds, n).contains(t) ==> is_clique5(g, t)
            && t.a == i && t.b == j && thirds.take(n).contains(t.c),
    decreases n,
{
    if n > 0 {
        lemma_from_third_sound(g, i, j, thirds, n - 1);
        let k = thirds[n - 1];
        assert(thirds.contains(k));
        let fourths = inter(thirds, g.nb(k as int));
        lemma_inter_membership(thirds, g.nb(k as int));
        assert forall|x: usize| #[trigger] fourths.contains(x) implies g.edge(i as int, x as int)
            && g.edge(j as int, x as int) && g.edge(k as int, x as int) by {
            lemma_nb_member(g, k as int, x);
        }
        let block = if fourths.len() < 2 {
            Seq::<Clique>::empty()
        } else {
            from_fourth(g, i, j, k, fourths, fourths.len() as int)
        };
        if fourths.len() >= 2 {
            lemma_from_fourth_sound(g, i, j, k, fourths, fourths.len() as int);
        }
        lemma_add_contains(from_third(g, i, j, thirds, n - 1), block);
        assert forall|t: Clique| #[trigger] from_third(g, i, j, thirds, n).contains(t) implies
            is_clique5(g, t) && t.a == i && t.b == j && thirds.take(n).contains(t.c) by {
            if from_third(g, i, j, thirds, n - 1).contains(t) {
                let tk = thirds.take(n - 1);
                let idx = choose|idx: int| 0 <= idx < tk.len() && tk[idx] == t.c;
                assert(thirds.take(n)[idx] == t.c);
            } else {
                assert(block.contains(t));
                assert(fourths.take(fourths.len() as int) =~= fourths);
                assert(thirds.take(n)[n - 1] == t.c);
            }
        }
    }
}

/// Solutions whose first member is `i` are sound.
proof fn lemma_from_second_sound(g: Graph, i: usize, n: int)
    requires
        g.wf(),
        0 <= i < g.n(),
        0 <= n <= g.nb(i as int).len(),
    ensures
        forall|t: Clique| #[trigger] from_second(g, i, n).contains(t) ==> is_clique5(g, t) && t.a
            == i && g.nb(i as int).take(n).contains(t.b),
    decreases n,
{
    if n > 0 {
        lemma_from_second_sound(g, i, n - 1);
        let j = g.nb(i as int)[n - 1];
        assert(g.edge(i as int, j as int));
        let thirds = inter(g.nb(i as int), g.nb(j as int));
        lemma_inter_membership(g.nb(i as int), g.nb(j as int));
        assert forall|x: usize| #[trigger] thirds.contains(x) implies g.edge(i as int, x as int)
            && g.edge(j as int, x as int) by {
            lemma_nb_member(g, i as int, x);
            lemma_nb_member(g, j as int, x);
        }
        let block = if thirds.len() < 3 {
            Seq::<Clique>::empty()
        } else {
            from_third(g, i, j, thirds, thirds.len() as int)
        };
        if thirds.len() >= 3 {
            lemma_from_third_sound(g, i, j, thirds, thirds.len() as int);
        }
        lemma_add_contains(from_second(g, i, n - 1), block);
        assert forall|t: Clique| #[trigger] from_second(g, i, n).contains(t) implies is_clique5(
            g,
            t,
        ) && t.a == i && g.nb(i as int).take(n).contains(t.b) by {
            if from_second(g, i, n - 1).contains(t) {
                let tk = g.nb(i as int).take(n - 1);
                let idx = choose|idx: int| 0 <= idx < tk.len() && tk[idx] == t.b;
                assert(g.nb(i as int).take(n)[idx] == t.b);
            } else {
                assert(block.contains(t));
                assert(thirds.take(thirds.len() as int) =~= thirds);
                assert(g.nb(i as int).take(n)[n - 1] == t.b);
            }
        }
    }
}

/// Solutions found from the first `n` vertices are sound.
proof fn lemma_from_first_sound(g: Graph, n: int)
    requires
        g.wf(),
        0 <= n <= g.n(),
    ensures
        forall|t: Clique| #[trigger] from_first(g, n).contains(t) ==> is_clique5(g, t) && (
        t.a as int) < n,
    decreases n,
{
    if n > 0 {
        lemma_from_first_sound(g, n - 1);
        let i = (n - 1) as usize;
        lemma_from_second_sound(g, i, g.nb(n - 1).len() as int);
        lemma_add_contains(
            from_first(g, n - 1),
            from_second(g, i, g.nb(n - 1).len() as int),
        );
    }
}

/// Solutions of a fixed four-member prefix are complete.
proof fn lemma_level5_complete(
    i: usize,
    j: usize,
    k: usize,
    l: usize,
    fifths: Seq<usize>,
    t: Clique,
)
    requires
        t.a == i,
        t.b == j,
        t.c == k,
        t.d == l,
        fifths.contains(t.e),
    ensures
        level5(i, j, k, l, fifths).contains(t),
{
    let m = choose|m: int| 0 <= m < fifths.len() && fifths[m] == t.e;
    assert(level5(i, j, k, l, fifths)[m] == t);
}

/// Solutions below a fixed three-member prefix are complete.
proof fn lemma_from_fourth_complete(
    g: Graph,
    i: usize,
    j: usize,
    k: usize,
    fourths: Seq<usize>,
    n: int,
    t: Clique,
)
    requires
        g.wf(),
        is_clique5(g, t),
        t.a == i,
        t.b == j,
        t.c == k,
        0 <= n <= fourths.len(),
        fourths.take(n).contains(t.d),
        fourths.contains(t.e),
    ensures
        from_fourth(g, i, j, k, fourths, n).contains(t),
    decreases n,
{
    let l = fourths[n - 1];
    let fifths = inter(fourths, g.nb(l as int));
    lemma_add_contains(from_fourth(g, i, j, k, fourths, n - 1), level5(i, j, k, l, fifths));
    if l == t.d {
        lemma_inter_membership(fourths, g.nb(l as int));
        assert(g.nb(t.d as int).contains(t.e));
        assert(fifths.contains(t.e));
        lemma_level5_complete(i, j, k, l, fifths, t);
    } else {
        let tk = fourths.take(n);
        let idx = choose|idx: int| 0 <= idx < tk.len() && tk[idx] == t.d;
        assert(idx != n - 1);
        assert(fourths.take(n - 1)[idx] == t.d);
        lemma_from_fourth_complete(g, i, j, k, fourths, n - 1, t);
    }
}

/// Solutions below a fixed two-member prefix are complete: the fourth-level
/// pruning threshold never discards a completable branch.
proof fn lemma_from_third_complete(
    g: Graph,
    i: usize,
    j: usize,
    thirds: Seq<usize>,
    n: int,
    t: Clique,
)
    requires
        g.wf(),
        usorted(thirds),
        is_clique5(g, t),
        t.a == i,
        t.b == j,
        0 <= n <= thirds.len(),
        thirds.take(n).contains(t.c),
        thirds.contains(t.d),
        thirds.contains(t.e),
    ensures
        from_third(g, i, j, thirds, n).contains(t),
    decreases n,
{
    let k = thirds[n - 1];
    let fourths = inter(thirds, g.nb(k as int));
    let block = if fourths.len() < 2 {
        Seq::<Clique>::empty()
    } else {
        from_fourth(g, i, j, k, fourths, fourths.len() as int)
    };
    lemma_add_contains(from_third(g, i, j, thirds, n - 1), block);
    if k == t.c {
        lemma_inter_membership(thirds, g.nb(k as int));
        assert(g.nb(t.c as int).contains(t.d));
        assert(g.nb(t.c as int).contains(t.e));
        assert(fourths.contains(t.d));
        assert(fourths.contains(t.e));
        assert(t.d != t.e);
        lemma_two_members(fourths, t.d, t.e);
        assert(fourths.take(fourths.len() as int) =~= fourths);
        lemma_from_fourth_complete(g, i, j, k, fourths, fourths.len() as int, t);
    } else {
        let tk = thirds.take(n);
        let idx = choose|idx: int| 0 <= idx < tk.len() && tk[idx] == t.c;
        assert(idx != n - 1);
        assert(thirds.take(n - 1)[idx] == t.c);
        lemma_from_third_complete(g, i, j, thirds, n - 1, t);
    }
}

/// Solutions whose first member is `i` are complete: the third-level pruning
/// threshold never discards a completable branch.
proof fn lemma_from_second_complete(g: Graph, i: usize, n: int, t: Clique)
    requires
        g.wf(),
        0 <= i < g.n(),
        is_clique5(g, t),
        t.a == i,
        0 <= n <= g.nb(i as int).len(),
        g.nb(i as int).take(n).contains(t.b),
    ensures
        from_second(g, i, n).contains(t),
    decreases n,
{
    let j = g.nb(i as int)[n - 1];
    let thirds = inter(g.nb(i as int), g.nb(j as int));
    let block = if thirds.len() < 3 {
        Seq::<Clique>::empty()
    } else {
        from_third(g, i, j, thirds, thirds.len() as int)
    };
    lemma_add_contains(from_second(g, i, n - 1), block);
    if j == t.b {
        lemma_inter_membership(g.nb(i as int), g.nb(j as int));
        assert(g.nb(i as int).contains(t.c) && g.nb(i as int).contains(t.d) && g.nb(
            i as int,
        ).contains(t.e));
        assert(g.nb(j as int).contains(t.c) && g.nb(j as int).contains(t.d) && g.nb(
            j as int,
        ).contains(t.e));
        assert(thirds.contains(t.c) && thirds.contains(t.d) && thirds.contains(t.e));
        lemma_three_members(thirds, t.c, t.d, t.e);
        lemma_nb_sorted(g, i as int);
        lemma_filter_sorted(g.nb(i as int), |x: usize| g.nb(j as int).contains(x));
        assert(thirds.take(thirds.len() as int) =~= thirds);
        lemma_from_third_complete(g, i, j, thirds, thirds.len() as int, t);
    } else {
        let tk = g.nb(i as int).take(n);
        let idx = choose|idx: int| 0 <= idx < tk.len() && tk[idx] == t.b;
        assert(idx != n - 1);
        assert(g.nb(i as int).take(n - 1)[idx] == t.b);
        lemma_from_second_complete(g, i, n - 1, t);
    }
}

/// Solutions among the first `n` vertices are complete.
proof fn lemma_from_first_complete(g: Graph, n: int, t: Clique)
    requires
        g.wf(),
        is_clique5(g, t),
        0 <= n <= g.n(),
        (t.a as int) < n,
    ensures
        from_first(g, n).contains(t),
    decreases n,
{
    let i = (n - 1) as usize;
    let block = from_second(g, i, g.nb(n - 1).len() as int);
    lemma_add_contains(from_first(g, n - 1), block);
    if t.a as int == n - 1 {
        assert(g.nb(i as int).contains(t.b));
        assert(g.nb(i as int).take(g.nb(i as int).len() as int) =~= g.nb(i as int));
        lemma_from_second_complete(g, i, g.nb(i as int).len() as int, t);
    } else {
        lemma_from_first_complete(g, n - 1, t);
    }
}

/// The search enumerates exactly the 5-cliques of the graph.
pub proof fn lemma_all_cliques_iff(g: Graph)
    requires
        g.wf(),
    ensures
        forall|t: Clique| #[trigger] all_cliques(g).contains(t) <==> is_clique5(g, t),
{
    lemma_from_first_sound(g, g.n());
    assert forall|t: Clique| is_clique5(g, t) implies #[trigger] all_cliques(g).contains(t) by {
        lemma_from_first_complete(g, g.n(), t);
    }
}

/// A branch pruned at the third level leads to no 5-clique: with fewer than
/// three common neighbors of `i` and `j`, no clique extends `(i, j)`.
pub proof fn lemma_prune_third_sound(g: Graph, i: usize, j: usize)
    requires
        g.wf(),
        g.edge(i as int, j as int),
        inter(g.nb(i as int), g.nb(j as int)).len() < 3,
    ensures
        forall|t: Clique| is_clique5(g, t) ==> !(t.a == i && t.b == j),
{
    assert forall|t: Clique| is_clique5(g, t) implies !(t.a == i && t.b == j) by {
        if t.a == i && t.b == j {
            let thirds = inter(g.nb(i as int), g.nb(j as int));
            lemma_inter_membership(g.nb(i as int), g.nb(j as int));
            assert(thirds.contains(t.c) && thirds.contains(t.d) && thirds.contains(t.e));
            lemma_three_members(thirds, t.c, t.d, t.e);
        }
    }
}

/// A branch pruned at the fourth level leads to no 5-clique: with fewer than
/// two common neighbors of `i`, `j` and `k`, no clique extends `(i, j, k)`.
pub proof fn lemma_prune_fourth_sound(g: Graph, i: usize, j: usize, k: usize)
    requires
        g.wf(),
        g.edge(i as int, j as int),
        g.edge(i as int, k as int),
        g.edge(j as int, k as int),
        inter(inter(g.nb(i as int), g.nb(j as int)), g.nb(k as int)).len() < 2,
    ensures
        forall|t: Clique| is_clique5(g, t) ==> !(t.a == i && t.b == j && t.c == k),
{
    assert forall|t: Clique| is_clique5(g, t) implies !(t.a == i && t.b == j && t.c == k) by {
        if t.a == i && t.b == j && t.c == k {
            let thirds = inter(g.nb(i as int), g.nb(j as int));
            let fourths = inter(thirds, g.nb(k as int));
            lemma_inter_membership(g.nb(i as int), g.nb(j as int));
            lemma_inter_membership(thirds, g.nb(k as int));
            assert(fourths.contains(t.d) && fourths.contains(t.e));
            lemma_two_members(fourths, t.d, t.e);
        }
    }
}


/// Lexicographic order on cliques, by identifier tuple.
pub open spec fn clique_lt(x: Clique, y: Clique) -> bool {
    ||| x.a < y.a
    ||| (x.a == y.a && (x.b < y.b || (x.b == y.b && (x.c < y.c || (x.c == y.c && (x.d < y.d || (
        x.d == y.d && x.e < y.e)))))))
}

/// Strictly increasing sequence of cliques.
pub open spec fn cliques_sorted(s: Seq<Clique>) -> bool {
    forall|p: int, q: int| 0 <= p < q < s.len() ==> clique_lt(s[p], s[q])
}

/// Concatenation of sorted blocks, every element of the first below every
/// element of the second, is sorted.
proof fn lemma_sorted_concat(s1: Seq<Clique>, s2: Seq<Clique>)
    requires
        cliques_sorted(s1),
        cliques_sorted(s2),
        forall|p: int, q: int|
            0 <= p < s1.len() && 0 <= q < s2.len() ==> clique_lt(#[trigger] s1[p], #[trigger] s2[q]),
    ensures
        cliques_sorted(s1 + s2),
{
    assert forall|p: int, q: int| 0 <= p < q < (s1 + s2).len() implies clique_lt(
        (s1 + s2)[p],
        (s1 + s2)[q],
    ) by {
        if q < s1.len() {
            assert((s1 + s2)[p] == s1[p] && (s1 + s2)[q] == s1[q]);
        } else if p >= s1.len() {
            assert((s1 + s2)[p] == s2[p - s1.len()] && (s1 + s2)[q] == s2[q - s1.len()]);
        } else {
            assert((s1 + s2)[p] == s1[p] && (s1 + s2)[q] == s2[q - s1.len()]);
        }
    }
}

/// The members of a fixed-prefix block.
proof fn lemma_level5_members(i: usize, j: usize, k: usize, l: usize, fifths: Seq<usize>)
    ensures
        forall|t: Clique| #[trigger] level5(i, j, k, l, fifths).contains(t) ==> t.a == i && t.b == j
            && t.c == k && t.d == l && fifths.contains(t.e),
        usorted(fifths) ==> cliques_sorted(level5(i, j, k, l, fifths)),
{
    assert forall|t: Clique| #[trigger] level5(i, j, k, l, fifths).contains(t) implies t.a == i
        && t.b == j && t.c == k && t.d == l && fifths.contains(t.e) by {
        let s = level5(i, j, k, l, fifths);
        let m = choose|m: int| 0 <= m < s.len() && s[m] == t;
        assert(t.e == fifths[m]);
        assert(fifths.contains(t.e));
    }
    if usorted(fifths) {
        assert forall|p: int, q: int|
            0 <= p < q < level5(i, j, k, l, fifths).len() implies clique_lt(
            level5(i, j, k, l, fifths)[p],
            level5(i, j, k, l, fifths)[q],
        ) by {
            assert(fifths[p] < fifths[q]);
        }
    }
}

/// The fourth-level enumeration is strictly ordered.
proof fn lemma_from_fourth_sorted(
    g: Graph,
    i: usize,
    j: usize,
    k: usize,
    fourths: Seq<usize>,
    n: int,
)
    requires
        usorted(fourths),
        0 <= n <= fourths.len(),
    ensures
        cliques_sorted(from_fourth(g, i, j, k, fourths, n)),
        forall|t: Clique| #[trigger] from_fourth(g, i, j, k, fourths, n).contains(t) ==> t.a == i
            && t.b == j && t.c == k && fourths.take(n).contains(t.d),
    decreases n,
{
    if n > 0 {
        lemma_from_fourth_sorted(g, i, j, k, fourths, n - 1);
        let l = fourths[n - 1];
        let fifths = inter(fourths, g.nb(l as int));
        lemma_filter_sorted(fourths, |x: usize| g.nb(l as int).contains(x));
        lemma_level5_members(i, j, k, l, fifths);
        let prev = from_fourth(g, i, j, k, fourths, n - 1);
        let block = level5(i, j, k, l, fifths);
        assert forall|p: int, q: int|
            0 <= p < prev.len() && 0 <= q < block.len() implies clique_lt(
            #[trigger] prev[p],
            #[trigger] block[q],
        ) by {
            assert(prev.contains(prev[p]));
            assert(block.contains(block[q]));
            let tk = fourths.take(n - 1);
            let idx = choose|idx: int| 0 <= idx < tk.len() && tk[idx] == prev[p].d;
            assert(fourths[idx] < fourths[n - 1]);
        }
        lemma_sorted_concat(prev, block);
        lemma_add_contains(prev, block);
        assert forall|t: Clique| #[trigger] from_fourth(g, i, j, k, fourths, n).contains(t) implies
            t.a == i && t.b == j && t.c == k && fourths.take(n).contains(t.d) by {
            if prev.contains(t) {
                let tk = fourths.take(n - 1);
                let idx = choose|idx: int| 0 <= idx < tk.len() && tk[idx] == t.d;
                assert(fourths.take(n)[idx] == t.d);
            } else {
                assert(fourths.take(n)[n - 1] == t.d);
            }
        }
    }
}

/// The third-level enumeration is strictly ordered.
proof fn lemma_from_third_sorted(g: Graph, i: usize, j: usize, thirds: Seq<usize>, n: int)
    requires
        usorted(thirds),
        0 <= n <= thirds.len(),
    ensures
        cliques_sorted(from_third(g, i, j, thirds, n)),
        forall|t: Clique| #[trigger] from_third(g, i, j, thirds, n).contains(t) ==> t.a == i && t.b
            == j && thirds.take(n).contains(t.c),
    decreases n,
{
    if n > 0 {
        lemma_from_third_sorted(g, i, j, thirds, n - 1);
        let k = thirds[n - 1];
        let fourths = inter(thirds, g.nb(k as int));
        lemma_filter_sorted(thirds, |x: usize| g.nb(k as int).contains(x));
        let block = if fourths.len() < 2 {
            Seq::<Clique>::empty()
        } else {
            from_fourth(g, i, j, k, fourths, fourths.len() as int)
        };
        lemma_from_fourth_sorted(g, i, j, k, fourths, fourths.len() as int);
        assert(fourths.take(fourths.len() as int) =~= fourths);
        let prev = from_third(g, i, j, thirds, n - 1);
        assert forall|p: int, q: int|
            0 <= p < prev.len() && 0 <= q < block.len() implies clique_lt(
            #[trigger] prev[p],
            #[trigger] block[q],
        ) by {
            assert(prev.contains(prev[p]));
            assert(block.contains(block[q]));
            assert(block[q].c == k);
            let tk = thirds.take(n - 1);
            let idx = choose|idx: int| 0 <= idx < tk.len() && tk[idx] == prev[p].c;
            assert(thirds[idx] < thirds[n - 1]);
        }
        lemma_sorted_concat(prev, block);
        lemma_add_contains(prev, block);
        assert forall|t: Clique| #[trigger] from_third(g, i, j, thirds, n).contains(t) implies t.a
            == i && t.b == j && thirds.take(n).contains(t.c) by {
            if prev.contains(t) {
                let tk = thirds.take(n - 1);
                let idx = choose|idx: int| 0 <= idx < tk.len() && tk[idx] == t.c;
                assert(thirds.take(n)[idx] == t.c);
            } else {
                assert(thirds.take(n)[n - 1] == t.c);
            }
        }
    }
}

/// The per-vertex enumeration is strictly ordered.
proof fn lemma_from_second_sorted(g: Graph, i: usize, n: int)
    requires
        g.wf(),
        0 <= i < g.n(),
        0 <= n <= g.nb(i as int).len(),
    ensures
        cliques_sorted(from_second(g, i, n)),
        forall|t: Clique| #[trigger] from_second(g, i, n).contains(t) ==> t.a == i && g.nb(
            i as int,
        ).take(n).contains(t.b),
    decreases n,
{
    if n > 0 {
        lemma_from_second_sorted(g, i, n - 1);
        let j = g.nb(i as int)[n - 1];
        let thirds = inter(g.nb(i as int), g.nb(j as int));
        lemma_nb_sorted(g, i as int);
        lemma_filter_sorted(g.nb(i as int), |x: usize| g.nb(j as int).contains(x));
        let block = if thirds.len() < 3 {
            Seq::<Clique>::empty()
        } else {
            from_third(g, i, j, thirds, thirds.len() as int)
        };
        lemma_from_third_sorted(g, i, j, thirds, thirds.len() as int);
        assert(thirds.take(thirds.len() as int) =~= thirds);
        let prev = from_second(g, i, n - 1);
        assert forall|p: int, q: int|
            0 <= p < prev.len() && 0 <= q < block.len() implies clique_lt(
            #[trigger] prev[p],
            #[trigger] block[q],
        ) by {
            assert(prev.contains(prev[p]));
            assert(block.contains(block[q]));
            assert(block[q].b == j);
            let tk = g.nb(i as int).take(n - 1);
            let idx = choose|idx: int| 0 <= idx < tk.len() && tk[idx] == prev[p].b;
            assert(g.nb(i as int)[idx] < g.nb(i as int)[n - 1]);
        }
        lemma_sorted_concat(prev, block);
        lemma_add_contains(prev, block);
        assert forall|t: Clique| #[trigger] from_second(g, i, n).contains(t) implies t.a == i
            && g.nb(i as int).take(n).contains(t.b) by {
            if prev.contains(t) {
                let tk = g.nb(i as int).take(n - 1);
                let idx = choose|idx: int| 0 <= idx < tk.len() && tk[idx] == t.b;
                assert(g.nb(i as int).take(n)[idx] == t.b);
            } else {
                assert(g.nb(i as int).take(n)[n - 1] == t.b);
            }
        }
    }
}

/// The whole enumeration is strictly ordered.
proof fn lemma_from_first_sorted(g: Graph, n: int)
    requires
        g.wf(),
        0 <= n <= g.n(),
    ensures
        cliques_sorted(from_first(g, n)),
        forall|t: Clique| #[trigger] from_first(g, n).contains(t) ==> (t.a as int) < n,
    decreases n,
{
    if n > 0 {
        lemma_from_first_sorted(g, n - 1);
        let i = (n - 1) as usize;
        let block = from_second(g, i, g.nb(n - 1).len() as int);
        lemma_from_second_sorted(g, i, g.nb(n - 1).len() as int);
        let prev = from_first(g, n - 1);
        assert forall|p: int, q: int|
            0 <= p < prev.len() && 0 <= q < block.len() implies clique_lt(
            #[trigger] prev[p],
            #[trigger] block[q],
        ) by {
            assert(prev.contains(prev[p]));
            assert(block.contains(block[q]));
        }
        lemma_sorted_concat(prev, block);
        lemma_add_contains(prev, block);
    }
}

/// The search emits each 5-clique exactly once: its output is strictly
/// ordered, so no tuple repeats.
pub proof fn lemma_all_cliques_distinct(g: Graph)
    requires
        g.wf(),
    ensures
        cliques_sorted(all_cliques(g)),
        forall|p: int, q: int|
            0 <= p < q < all_cliques(g).len() ==> all_cliques(g)[p] != all_cliques(g)[q],
{
    lemma_from_first_sorted(g, g.n());
    let s = all_cliques(g);
    assert forall|p: int, q: int| 0 <= p < q < s.len() implies s[p] != s[q] by {
        assert(clique_lt(s[p], s[q]));
    }
}


} // verus!
