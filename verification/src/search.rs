//! The clique search engine: for every vertex, a four-level nested
//! intersection of neighbor lists enumerates each 5-clique exactly once,
//! starting from its lowest-index member.

use vstd::prelude::*;
use crate::graph::Graph;
use crate::intersect::{inter, intersection_sorted_inplace, lemma_inter_membership, usorted};

verus! {

/// A 5-clique, named by its five vertex identifiers in increasing order.
#[derive(Clone, Copy, PartialEq, Eq, Structural, Debug)]
pub struct Clique {
    pub a: usize,
    pub b: usize,
    pub c: usize,
    pub d: usize,
    pub e: usize,
}

/// Five vertices, in strictly increasing identifier order, whose words are
/// pairwise letter-disjoint.
pub open spec fn is_clique5(g: Graph, t: Clique) -> bool {
    &&& g.edge(t.a as int, t.b as int)
    &&& g.edge(t.a as int, t.c as int)
    &&& g.edge(t.a as int, t.d as int)
    &&& g.edge(t.a as int, t.e as int)
    &&& g.edge(t.b as int, t.c as int)
    &&& g.edge(t.b as int, t.d as int)
    &&& g.edge(t.b as int, t.e as int)
    &&& g.edge(t.c as int, t.d as int)
    &&& g.edge(t.c as int, t.e as int)
    &&& g.edge(t.d as int, t.e as int)
}

/// A member of a neighbor list is an edge of its vertex.
pub proof fn lemma_nb_member(g: Graph, i: int, x: usize)
    requires
        g.wf(),
        0 <= i < g.n(),
        g.nb(i).contains(x),
    ensures
        g.edge(i, x as int),
{
    let a = choose|a: int| 0 <= a < g.nb(i).len() && g.nb(i)[a] == x;
    assert(g.edge(i, g.nb(i)[a] as int));
}

/// Neighbor lists of a well-formed graph are strictly increasing.
pub proof fn lemma_nb_sorted(g: Graph, i: int)
    requires
        g.wf(),
        0 <= i < g.n(),
    ensures
        usorted(g.nb(i)),
{
    assert forall|p: int, q: int| 0 <= p < q < g.nb(i).len() implies g.nb(i)[p] < g.nb(i)[q] by {
        assert(g.nb(i)[p] < g.nb(i)[q]);
    }
}

/// The solutions through the fixed prefix `(i, j, k, l)`: one per candidate
/// fifth member.
pub open spec fn level5(i: usize, j: usize, k: usize, l: usize, fifths: Seq<usize>) -> Seq<
    Clique,
> {
    Seq::new(fifths.len(), |m: int| Clique { a: i, b: j, c: k, d: l, e: fifths[m] })
}

/// The solutions through prefix `(i, j, k)` found from the first `n`
/// candidates for the fourth member.
pub open spec fn from_fourth(
    g: Graph,
    i: usize,
    j: usize,
    k: usize,
    fourths: Seq<usize>,
    n: int,
) -> Seq<Clique>
    decreases n,
{
    if n <= 0 {
        Seq::empty()
    } else {
        let l = fourths[n - 1];
        from_fourth(g, i, j, k, fourths, n - 1) + level5(
            i,
            j,
            k,
            l,
            inter(fourths, g.nb(l as int)),
        )
    }
}

/// The solutions through prefix `(i, j)` found from the first `n` candidates
/// for the third member; a branch whose fourth-level candidate set cannot
/// supply two further members is discarded.
pub open spec fn from_third(g: Graph, i: usize, j: usize, thirds: Seq<usize>, n: int) -> Seq<
    Clique,
>
    decreases n,
{
    if n <= 0 {
        Seq::empty()
    } else {
        let k = thirds[n - 1];
        let fourths = inter(thirds, g.nb(k as int));
        from_third(g, i, j, thirds, n - 1) + if fourths.len() < 2 {
            Seq::empty()
        } else {
            from_fourth(g, i, j, k, fourths, fourths.len() as int)
        }
    }
}

/// The solutions whose first member is `i`, found from the first `n`
/// neighbors of `i`; a branch whose third-level candidate set cannot supply
/// three further members is discarded.
pub open spec fn from_second(g: Graph, i: usize, n: int) -> Seq<Clique>
    decreases n,
{
    if n <= 0 {
        Seq::empty()
    } else {
        let j = g.nb(i as int)[n - 1];
        let thirds = inter(g.nb(i as int), g.nb(j as int));
        from_second(g, i, n - 1) + if thirds.len() < 3 {
            Seq::empty()
        } else {
            from_third(g, i, j, thirds, thirds.len() as int)
        }
    }
}

/// The solutions found from the first `n` vertices.
pub open spec fn from_first(g: Graph, n: int) -> Seq<Clique>
    decreases n,
{
    if n <= 0 {
        Seq::empty()
    } else {
        from_first(g, n - 1) + from_second(g, (n - 1) as usize, g.nb(n - 1).len() as int)
    }
}

/// Every 5-clique of the graph, in search order.
pub open spec fn all_cliques(g: Graph) -> Seq<Clique> {
    from_first(g, g.n())
}

/// Enumerate the 5-cliques whose lowest-index member is `i`.
pub fn search_vertex(g: &Graph, i: usize) -> (out: Vec<Clique>)
    requires
        g.wf(),
        (i as int) < g.n(),
    ensures
        out@ == from_second(*g, i, g.nb(i as int).len() as int),
{
    let mut out: Vec<Clique> = Vec::new();
    let mut thirds: Vec<usize> = Vec::new();
    let mut fourths: Vec<usize> = Vec::new();
    let mut fifths: Vec<usize> = Vec::new();
    let nbi_len = g.nodes[i].neighbors.len();
    let mut jn: usize = 0;
    while jn < nbi_len
        invariant
            g.wf(),
            (i as int) < g.n(),
            nbi_len == g.nb(i as int).len(),
            0 <= jn <= nbi_len,
            out@ == from_second(*g, i, jn as int),
        decreases nbi_len - jn,
    {
        let j = g.nodes[i].neighbors[jn];
        proof {
            assert(g.edge(i as int, j as int));
            lemma_nb_sorted(*g, i as int);
            lemma_nb_sorted(*g, j as int);
        }
        intersection_sorted_inplace(&g.nodes[i].neighbors, &g.nodes[j].neighbors, &mut thirds);
        if thirds.len() >= 3 {
            let ghost base2 = out@;
            let tn = thirds.len();
            let mut kn: usize = 0;
            while kn < tn
                invariant
                    g.wf(),
                    (i as int) < g.n(),
                    (j as int) < g.n(),
                    thirds@ == inter(g.nb(i as int), g.nb(j as int)),
                    usorted(thirds@),
                    tn == thirds@.len(),
                    0 <= kn <= tn,
                    out@ == base2 + from_third(*g, i, j, thirds@, kn as int),
                decreases tn - kn,
            {
                let k = thirds[kn];
                proof {
                    lemma_inter_membership(g.nb(i as int), g.nb(j as int));
                    assert(thirds@.contains(k)) by {
                        assert(thirds@[kn as int] == k);
                    }
                    lemma_nb_member(*g, i as int, k);
                    lemma_nb_sorted(*g, k as int);
                }
                intersection_sorted_inplace(&thirds, &g.nodes[k].neighbors, &mut fourths);
                let ghost base3 = out@;
                if fourths.len() >= 2 {
                    let fn4 = fourths.len();
                    let mut ln: usize = 0;
                    while ln < fn4
                        invariant
                            g.wf(),
                            (i as int) < g.n(),
                            (k as int) < g.n(),
                            fourths@ == inter(thirds@, g.nb(k as int)),
                            thirds@ == inter(g.nb(i as int), g.nb(j as int)),
                            usorted(fourths@),
                            fn4 == fourths@.len(),
                            0 <= ln <= fn4,
                            out@ == base3 + from_fourth(*g, i, j, k, fourths@, ln as int),
                        decreases fn4 - ln,
                    {
                        let l = fourths[ln];
                        proof {
                            lemma_inter_membership(thirds@, g.nb(k as int));
                            lemma_inter_membership(g.nb(i as int), g.nb(j as int));
                            assert(fourths@.contains(l)) by {
                                assert(fourths@[ln as int] == l);
                            }
                            lemma_nb_member(*g, i as int, l);
                            lemma_nb_sorted(*g, l as int);
                        }
                        intersection_sorted_inplace(&fourths, &g.nodes[l].neighbors, &mut fifths);
                        let ghost base4 = out@;
                        let fn5 = fifths.len();
                        let mut mn: usize = 0;
                        while mn < fn5
                            invariant
                                fn5 == fifths@.len(),
                                0 <= mn <= fn5,
                                out@ == base4 + level5(i, j, k, l, fifths@).take(mn as int),
                            decreases fn5 - mn,
                        {
                            out.push(Clique { a: i, b: j, c: k, d: l, e: fifths[mn] });
                            proof {
                                assert(level5(i, j, k, l, fifths@).take(mn + 1) =~= level5(
                                    i,
                                    j,
                                    k,
                                    l,
                                    fifths@,
                                ).take(mn as int).push(
                                    Clique { a: i, b: j, c: k, d: l, e: fifths@[mn as int] },
                                ));
                                assert(out@ == base4 + level5(i, j, k, l, fifths@).take(mn + 1));
                            }
                            mn = mn + 1;
                        }
                        proof {
                            assert(level5(i, j, k, l, fifths@).take(fn5 as int) =~= level5(
                                i,
                                j,
                                k,
                                l,
                                fifths@,
                            ));
                            assert(out@ == base3 + (from_fourth(*g, i, j, k, fourths@, ln as int)
                                + level5(i, j, k, l, fifths@))) by {
                                assert((base3 + from_fourth(*g, i, j, k, fourths@, ln as int))
                                    + level5(i, j, k, l, fifths@) =~= base3 + (from_fourth(
                                    *g,
                                    i,
                                    j,
                                    k,
                                    fourths@,
                                    ln as int,
                                ) + level5(i, j, k, l, fifths@)));
                            }
                            assert(out@ == base3 + from_fourth(*g, i, j, k, fourths@, ln + 1));
                        }
                        ln = ln + 1;
                    }
                    proof {
                        assert(out@ == base2 + (from_third(*g, i, j, thirds@, kn as int)
                            + from_fourth(*g, i, j, k, fourths@, fourths@.len() as int))) by {
                            assert((base2 + from_third(*g, i, j, thirds@, kn as int)) + from_fourth(
                                *g,
                                i,
                                j,
                                k,
                                fourths@,
                                fourths@.len() as int,
                            ) =~= base2 + (from_third(*g, i, j, thirds@, kn as int) + from_fourth(
                                *g,
                                i,
                                j,
                                k,
                                fourths@,
                                fourths@.len() as int,
                            )));
                        }
                        assert(out@ == base2 + from_third(*g, i, j, thirds@, kn + 1));
                    }
                } else {
                    proof {
                        assert(out@ + Seq::<Clique>::empty() =~= out@);
                        assert(out@ == base2 + from_third(*g, i, j, thirds@, kn + 1));
                    }
                }
                kn = kn + 1;
            }
            proof {
                assert(out@ == from_second(*g, i, jn + 1));
            }
        } else {
            proof {
                assert(out@ + Seq::<Clique>::empty() =~= out@);
                assert(out@ == from_second(*g, i, jn + 1));
            }
        }
        jn = jn + 1;
    }
    out
}

/// Enumerate every 5-clique of the graph, in search order.
pub fn search_graph(g: &Graph) -> (out: Vec<Clique>)
    requires
        g.wf(),
    ensures
        out@ == all_cliques(*g),
{
    let mut out: Vec<Clique> = Vec::new();
    let n = g.nodes.len();
    let mut i: usize = 0;
    while i < n
        invariant
            g.wf(),
            n == g.n(),
            0 <= i <= n,
            out@ == from_first(*g, i as int),
        decreases n - i,
    {
        let mut part = search_vertex(g, i);
        out.append(&mut part);
        proof {
            assert(out@ == from_first(*g, i + 1));
        }
        i = i + 1;
    }
    out
}

} // verus!
