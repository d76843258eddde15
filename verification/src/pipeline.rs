//! The whole computation, from raw input lines to ordered solutions: filter,
//! order, build the compatibility graph, search, aggregate.

use vstd::prelude::*;
use crate::graph::{disjoint_words, Graph};
use crate::order::{lemma_sort_by_score_multiset, lemma_sort_by_score_sorted, order_words, score_sorted, sort_by_score};
use crate::search::{all_cliques, is_clique5, search_graph, Clique};
use crate::search_props::{lemma_all_cliques_distinct, lemma_all_cliques_iff};
use crate::solutions::{
    clique_words, cliques_words, render_solutions, rendered, sol_view, sol_views, sols_sorted,
    solutions_of, sort_solutions, Solution,
};
use crate::words::{filter_words, valid_word, vocabulary, word_views};

verus! {

/// The views of a batch of input lines.
pub open spec fn line_views(lines: Seq<Vec<u8>>) -> Seq<Seq<u8>> {
    lines.map_values(|l: Vec<u8>| l@)
}

/// The vocabulary of an input, in search order: the valid words, arranged by
/// the frequency heuristic.
pub open spec fn ordered_vocab(ls: Seq<Seq<u8>>) -> Seq<Seq<u8>> {
    sort_by_score(vocabulary(ls))
}

/// The ordering heuristic only permutes the vocabulary: the searched words
/// are exactly the filtered words.
pub proof fn lemma_ordered_vocab_permutation(ls: Seq<Seq<u8>>)
    ensures
        ordered_vocab(ls).to_multiset() == vocabulary(ls).to_multiset(),
{
    let v = vocabulary(ls);
    lemma_sort_by_score_multiset(v, v.len() as int);
    assert(v.take(v.len() as int) =~= v);
}

/// The searched vocabulary is arranged by descending letter-frequency score.
pub proof fn lemma_ordered_vocab_sorted(ls: Seq<Seq<u8>>)
    ensures
        score_sorted(ordered_vocab(ls)),
{
    let v = vocabulary(ls);
    lemma_sort_by_score_sorted(v, v.len() as int);
}

/// Five word views, drawn from positions `a < b < c < d < e` of the
/// vocabulary, that are pairwise letter-disjoint.
pub open spec fn disjoint_five(v: Seq<Seq<u8>>, a: int, b: int, c: int, d: int, e: int) -> bool {
    &&& 0 <= a < b && b < c && c < d && d < e && e < v.len()
    &&& disjoint_words(v[a], v[b])
    &&& disjoint_words(v[a], v[c])
    &&& disjoint_words(v[a], v[d])
    &&& disjoint_words(v[a], v[e])
    &&& disjoint_words(v[b], v[c])
    &&& disjoint_words(v[b], v[d])
    &&& disjoint_words(v[b], v[e])
    &&& disjoint_words(v[c], v[d])
    &&& disjoint_words(v[c], v[e])
    &&& disjoint_words(v[d], v[e])
}

/// The word tuple `ws` is five pairwise letter-disjoint words drawn from
/// increasing positions of the vocabulary `v`.
pub open spec fn from_vocab(v: Seq<Seq<u8>>, ws: Seq<Seq<u8>>) -> bool {
    exists|a: int, b: int, c: int, d: int, e: int|
        #[trigger] disjoint_five(v, a, b, c, d, e) && ws == seq![v[a], v[b], v[c], v[d], v[e]]
}

/// Some solution in `ss` shows exactly the word tuple `ws`.
pub open spec fn has_solution(ss: Seq<Solution>, ws: Seq<Seq<u8>>) -> bool {
    exists|idx: int| 0 <= idx < ss.len() && sol_view(#[trigger] ss[idx]) == ws
}

/// A vocabulary with no repeated word.
pub open spec fn injective_words(v: Seq<Seq<u8>>) -> bool {
    forall|p: int, q: int| 0 <= p < q < v.len() ==> v[p] != v[q]
}

/// The 25 letter positions of a solution hold 25 distinct letters: no byte
/// appears at two different positions of its five words.
pub proof fn lemma_solution_letters(ws: Seq<Seq<u8>>)
    requires
        solution_disjoint(ws),
    ensures
        forall|i: int, oi: int, j: int, oj: int|
            #![trigger ws[i][oi], ws[j][oj]]
            0 <= i < 5 && 0 <= oi < 5 && 0 <= j < 5 && 0 <= oj < 5 && (i != j || oi != oj)
                ==> ws[i][oi] != ws[j][oj],
{
    assert forall|i: int, oi: int, j: int, oj: int|
        #![trigger ws[i][oi], ws[j][oj]]
        0 <= i < 5 && 0 <= oi < 5 && 0 <= j < 5 && 0 <= oj < 5 && (i != j || oi != oj) implies ws[i][oi]
        != ws[j][oj] by {
        if i == j {
            assert(valid_word(ws[i]));
        } else if i < j {
            assert(disjoint_words(ws[i], ws[j]));
        } else {
            assert(disjoint_words(ws[j], ws[i]));
        }
    }
}

/// The words of one solution are valid and pairwise letter-disjoint.
pub open spec fn solution_disjoint(ws: Seq<Seq<u8>>) -> bool {
    &&& ws.len() == 5
    &&& (forall|p: int| 0 <= p < 5 ==> valid_word(#[trigger] ws[p]))
    &&& (forall|p: int, q: int| 0 <= p < q < 5 ==> disjoint_words(#[trigger] ws[p], #[trigger] ws[q]))
}

/// `sols` is a correct result for the input `lines`: sorted in the total
/// lexicographic order, every entry a valid five-tuple of pairwise
/// letter-disjoint vocabulary words, every letter-disjoint quintet of the
/// vocabulary present, and - as long as the vocabulary repeats no word - no
/// word tuple shown twice.
pub open spec fn correct_solutions(lines: Seq<Vec<u8>>, sols: Seq<Solution>) -> bool {
    &&& sols_sorted(sols)
    &&& (forall|idx: int|
        0 <= idx < sols.len() ==> solution_disjoint(sol_view(#[trigger] sols[idx])))
    &&& (forall|idx: int|
        0 <= idx < sols.len() ==> from_vocab(
            ordered_vocab(line_views(lines)),
            sol_view(#[trigger] sols[idx]),
        ))
    &&& (forall|a: int, b: int, c: int, d: int, e: int|
        #[trigger] disjoint_five(ordered_vocab(line_views(lines)), a, b, c, d, e)
            ==> has_solution(
            sols,
            seq![
                ordered_vocab(line_views(lines))[a],
                ordered_vocab(line_views(lines))[b],
                ordered_vocab(line_views(lines))[c],
                ordered_vocab(line_views(lines))[d],
                ordered_vocab(line_views(lines))[e],
            ],
        ))
    &&& (injective_words(ordered_vocab(line_views(lines))) ==> (forall|p: int, q: int|
        0 <= p < q < sols.len() ==> sol_view(#[trigger] sols[p]) != sol_view(
            #[trigger] sols[q],
        )))
}

/// Run the search over a batch of raw input lines.  The result is sorted,
/// holds only valid five-tuples of pairwise letter-disjoint vocabulary
/// words, and holds every such tuple.
pub fn solve(lines: &Vec<Vec<u8>>) -> (out: Vec<Solution>)
    ensures
        correct_solutions(lines@, out@),
{
    broadcast use vstd::seq_lib::group_to_multiset_ensures;

    let ghost ls = line_views(lines@);
    let ghost v = ordered_vocab(ls);
    let words = filter_words(lines);
    let ordered = order_words(&words);
    proof {
        assert(word_views(ordered@) == v);
    }
    let g = Graph::construct_graph(ordered);
    proof {
        assert(g.words() == v);
        assert forall|i: int| 0 <= i < g.n() implies #[trigger] g.word_at(i) == v[i] by {
            assert(g.words()[i] == g.word_at(i));
        }
        lemma_all_cliques_iff(g);
    }
    let cliques = search_graph(&g);
    proof {
        assert forall|i: int| 0 <= i < cliques@.len() implies is_clique5(
            g,
            #[trigger] cliques@[i],
        ) by {
            assert(cliques@.contains(cliques@[i]));
        }
    }
    let sols = solutions_of(&g, &cliques);
    let ghost sols0 = sols@;
    let out = sort_solutions(sols);
    proof {
        assert forall|idx: int| 0 <= idx < out@.len() implies solution_disjoint(
            sol_view(#[trigger] out@[idx]),
        ) && from_vocab(v, sol_view(out@[idx])) by {
            let s = out@[idx];
            assert(out@.contains(s));
            assert(out@.to_multiset().count(s) > 0);
            assert(sols0.contains(s));
            assert(sol_views(sols0).len() == sols0.len());
            assert(cliques_words(g, cliques@).len() == cliques@.len());
            assert(sols0.len() == cliques@.len());
            let si = choose|si: int| 0 <= si < sols0.len() && sols0[si] == s;
            let t = cliques@[si];
            assert(sol_views(sols0)[si] == sol_view(s));
            assert(cliques_words(g, cliques@)[si] == clique_words(g, t));
            assert(cliques@.contains(t));
            assert(is_clique5(g, t));
            assert(disjoint_five(v, t.a as int, t.b as int, t.c as int, t.d as int, t.e as int));
            assert(sol_view(s) =~= seq![
                v[t.a as int],
                v[t.b as int],
                v[t.c as int],
                v[t.d as int],
                v[t.e as int],
            ]);
            assert(solution_disjoint(sol_view(s)));
            assert(sol_view(s) == seq![
                v[t.a as int],
                v[t.b as int],
                v[t.c as int],
                v[t.d as int],
                v[t.e as int],
            ]);
            assert(from_vocab(v, sol_view(s)));
        }
        assert forall|a: int, b: int, c: int, d: int, e: int| #[trigger] disjoint_five(
            v,
            a,
            b,
            c,
            d,
            e,
        ) implies has_solution(out@, seq![v[a], v[b], v[c], v[d], v[e]]) by {
            let t = Clique {
                a: a as usize,
                b: b as usize,
                c: c as usize,
                d: d as usize,
                e: e as usize,
            };
            assert(is_clique5(g, t));
            assert(all_cliques(g).contains(t));
            assert(sol_views(sols0).len() == sols0.len());
            assert(cliques_words(g, cliques@).len() == cliques@.len());
            assert(sols0.len() == cliques@.len());
            let ci = choose|ci: int| 0 <= ci < cliques@.len() && cliques@[ci] == t;
            let s = sols0[ci];
            assert(sol_views(sols0)[ci] == sol_view(s));
            assert(cliques_words(g, cliques@)[ci] == clique_words(g, t));
            assert(sol_view(s) =~= seq![v[a], v[b], v[c], v[d], v[e]]);
            assert(sols0.contains(s));
            assert(sols0.to_multiset().count(s) > 0);
            assert(out@.contains(s));
            let oi = choose|oi: int| 0 <= oi < out@.len() && out@[oi] == s;
            assert(sol_view(out@[oi]) == seq![v[a], v[b], v[c], v[d], v[e]]);
        }
        if injective_words(v) {
            lemma_all_cliques_distinct(g);
            assert(sol_views(sols0).len() == sols0.len());
            assert(cliques_words(g, cliques@).len() == cliques@.len());
            assert forall|p: int, q: int| 0 <= p < q < sols0.len() implies sol_view(
                #[trigger] sols0[p],
            ) != sol_view(#[trigger] sols0[q]) by {
                let tp = cliques@[p];
                let tq = cliques@[q];
                assert(tp != tq);
                assert(cliques@.contains(tp) && cliques@.contains(tq));
                assert(is_clique5(g, tp) && is_clique5(g, tq));
                assert(sol_views(sols0)[p] == sol_view(sols0[p]));
                assert(sol_views(sols0)[q] == sol_view(sols0[q]));
                assert(cliques_words(g, cliques@)[p] == clique_words(g, tp));
                assert(cliques_words(g, cliques@)[q] == clique_words(g, tq));
                assert(sol_view(sols0[p]) == clique_words(g, tp));
                assert(sol_view(sols0[q]) == clique_words(g, tq));
                if sol_view(sols0[p]) == sol_view(sols0[q]) {
                    assert(clique_words(g, tp)[0] == clique_words(g, tq)[0]);
                    assert(clique_words(g, tp)[1] == clique_words(g, tq)[1]);
                    assert(clique_words(g, tp)[2] == clique_words(g, tq)[2]);
                    assert(clique_words(g, tp)[3] == clique_words(g, tq)[3]);
                    assert(clique_words(g, tp)[4] == clique_words(g, tq)[4]);
                    assert(tp.a == tq.a) by {
                        if tp.a < tq.a {
                            assert(v[tp.a as int] != v[tq.a as int]);
                        } else if tq.a < tp.a {
                            assert(v[tq.a as int] != v[tp.a as int]);
                        }
                    }
                    assert(tp.b == tq.b) by {
                        if tp.b < tq.b {
                            assert(v[tp.b as int] != v[tq.b as int]);
                        } else if tq.b < tp.b {
                            assert(v[tq.b as int] != v[tp.b as int]);
                        }
                    }
                    assert(tp.c == tq.c) by {
                        if tp.c < tq.c {
                            assert(v[tp.c as int] != v[tq.c as int]);
                        } else if tq.c < tp.c {
                            assert(v[tq.c as int] != v[tp.c as int]);
                        }
                    }
                    assert(tp.d == tq.d) by {
                        if tp.d < tq.d {
                            assert(v[tp.d as int] != v[tq.d as int]);
                        } else if tq.d < tp.d {
                            assert(v[tq.d as int] != v[tp.d as int]);
                        }
                    }
                    assert(tp.e == tq.e) by {
                        if tp.e < tq.e {
                            assert(v[tp.e as int] != v[tq.e as int]);
                        } else if tq.e < tp.e {
                            assert(v[tq.e as int] != v[tp.e as int]);
                        }
                    }
                    assert(tp == tq);
                }
            }
            assert(sols0.no_duplicates()) by {
                assert forall|p: int, q: int|
                    0 <= p < sols0.len() && 0 <= q < sols0.len() && p != q implies sols0[p]
                    != sols0[q] by {
                    if p < q {
                        assert(sol_view(sols0[p]) != sol_view(sols0[q]));
                    } else {
                        assert(sol_view(sols0[q]) != sol_view(sols0[p]));
                    }
                }
            }
            sols0.lemma_multiset_has_no_duplicates();
            out@.lemma_multiset_has_no_duplicates_conv();
            assert forall|p: int, q: int| 0 <= p < q < out@.len() implies sol_view(
                #[trigger] out@[p],
            ) != sol_view(#[trigger] out@[q]) by {
                let x = out@[p];
                let y = out@[q];
                assert(x != y);
                if sol_view(x) == sol_view(y) {
                    assert(out@.contains(x) && out@.contains(y));
                    assert(out@.to_multiset().count(x) > 0);
                    assert(out@.to_multiset().count(y) > 0);
                    assert(sols0.contains(x) && sols0.contains(y));
                    let ix = choose|ix: int| 0 <= ix < sols0.len() && sols0[ix] == x;
                    let iy = choose|iy: int| 0 <= iy < sols0.len() && sols0[iy] == y;
                    if ix < iy {
                        assert(sol_view(sols0[ix]) != sol_view(sols0[iy]));
                    } else if iy < ix {
                        assert(sol_view(sols0[iy]) != sol_view(sols0[ix]));
                    }
                    assert(ix == iy);
                }
            }
        }
    }
    out
}

/// Run the search and render the result: one line per solution, in total
/// lexicographic order.
pub fn solve_text(lines: &Vec<Vec<u8>>) -> (out: Vec<u8>)
    ensures
        exists|sols: Seq<Solution>|
            out@ == #[trigger] rendered(sols) && correct_solutions(lines@, sols),
{
    let sols = solve(lines);
    let out = render_solutions(&sols);
    proof {
        assert(out@ == rendered(sols@) && correct_solutions(lines@, sols@));
    }
    out
}

} // verus!
