//! The result aggregator: solutions as five-word tuples, a total
//! lexicographic order over them, and the rendered output text.

use vstd::prelude::*;
use crate::graph::Graph;
use crate::search::{is_clique5, Clique};
use crate::words::Word;

verus! {

/// A solution: five pairwise letter-disjoint words, in the vertex order in
/// which the search found them.
pub struct Solution {
    pub w1: Word,
    pub w2: Word,
    pub w3: Word,
    pub w4: Word,
    pub w5: Word,
}

/// The five word views of a solution.
pub open spec fn sol_view(s: Solution) -> Seq<Seq<u8>> {
    seq![s.w1@, s.w2@, s.w3@, s.w4@, s.w5@]
}

/// The views of a sequence of solutions.
pub open spec fn sol_views(ss: Seq<Solution>) -> Seq<Seq<Seq<u8>>> {
    ss.map_values(|s: Solution| sol_view(s))
}

/// The five word views named by a clique.
pub open spec fn clique_words(g: Graph, t: Clique) -> Seq<Seq<u8>> {
    seq![
        g.word_at(t.a as int),
        g.word_at(t.b as int),
        g.word_at(t.c as int),
        g.word_at(t.d as int),
        g.word_at(t.e as int),
    ]
}

/// The word views named by a sequence of cliques.
pub open spec fn cliques_words(g: Graph, ts: Seq<Clique>) -> Seq<Seq<Seq<u8>>> {
    ts.map_values(|t: Clique| clique_words(g, t))
}

/// Turn each clique into its five words.
pub fn solutions_of(g: &Graph, ts: &Vec<Clique>) -> (out: Vec<Solution>)
    requires
        g.wf(),
        forall|i: int| 0 <= i < ts@.len() ==> is_clique5(*g, #[trigger] ts@[i]),
    ensures
        sol_views(out@) == cliques_words(*g, ts@),
{
    let mut out: Vec<Solution> = Vec::new();
    let n = ts.len();
    for i in 0..n
        invariant
            g.wf(),
            n == ts@.len(),
            forall|k: int| 0 <= k < n ==> is_clique5(*g, #[trigger] ts@[k]),
            sol_views(out@) == cliques_words(*g, ts@.take(i as int)),
    {
        let t = ts[i];
        proof {
            assert(is_clique5(*g, ts@[i as int]));
        }
        let s = Solution {
            w1: g.nodes[t.a].word.clone_word(),
            w2: g.nodes[t.b].word.clone_word(),
            w3: g.nodes[t.c].word.clone_word(),
            w4: g.nodes[t.d].word.clone_word(),
            w5: g.nodes[t.e].word.clone_word(),
        };
        proof {
            assert(sol_view(s) =~= clique_words(*g, ts@[i as int]));
        }
        let ghost pre = out@;
        out.push(s);
        proof {
            assert(sol_views(pre.push(s)) =~= sol_views(pre).push(sol_view(s)));
            assert(cliques_words(*g, ts@.take(i + 1)) =~= cliques_words(*g, ts@.take(i as int)).push(
                clique_words(*g, ts@[i as int]),
            ));
        }
    }
    proof {
        assert(ts@.take(n as int) =~= ts@);
    }
    out
}

/// Strict lexicographic order on byte sequences.
pub open spec fn bytes_lt(a: Seq<u8>, b: Seq<u8>) -> bool
    decreases a.len(),
{
    if b.len() == 0 {
        false
    } else if a.len() == 0 {
        true
    } else if a[0] < b[0] {
        true
    } else if a[0] > b[0] {
        false
    } else {
        bytes_lt(a.drop_first(), b.drop_first())
    }
}

/// The order is a strict total order: of two sequences, exactly one of
/// "less", "greater", "equal" holds.
pub proof fn lemma_bytes_trichotomy(a: Seq<u8>, b: Seq<u8>)
    ensures
        bytes_lt(a, b) || bytes_lt(b, a) || a == b,
        !(bytes_lt(a, b) && bytes_lt(b, a)),
        a == b ==> !bytes_lt(a, b),
    decreases a.len(),
{
    if a.len() == 0 || b.len() == 0 {
        if a.len() == 0 && b.len() == 0 {
            assert(a =~= b);
        }
    } else {
        lemma_bytes_trichotomy(a.drop_first(), b.drop_first());
        if a[0] == b[0] && a.drop_first() == b.drop_first() {
            assert forall|p: int| 0 <= p < a.len() implies a[p] == b[p] by {
                if p > 0 {
                    assert(a[p] == a.drop_first()[p - 1]);
                    assert(b[p] == b.drop_first()[p - 1]);
                }
            }
            assert(a =~= b);
        }
        if a == b {
            assert(a.drop_first() =~= b.drop_first());
        }
    }
}

/// The order is transitive.
pub proof fn lemma_bytes_lt_trans(a: Seq<u8>, b: Seq<u8>, c: Seq<u8>)
    requires
        bytes_lt(a, b),
        bytes_lt(b, c),
    ensures
        bytes_lt(a, c),
    decreases a.len(),
{
    if a.len() != 0 && b.len() != 0 && c.len() != 0 {
        if a[0] == b[0] && b[0] == c[0] {
            lemma_bytes_lt_trans(a.drop_first(), b.drop_first(), c.drop_first());
        }
    }
}

proof fn lemma_bytes_lt_skip(a: Seq<u8>, b: Seq<u8>, i: int)
    requires
        0 <= i <= a.len(),
        i <= b.len(),
        forall|p: int| 0 <= p < i ==> a[p] == b[p],
    ensures
        bytes_lt(a, b) == bytes_lt(a.skip(i), b.skip(i)),
    decreases i,
{
    if i > 0 {
        assert(a.len() > 0 && b.len() > 0 && a[0] == b[0]);
        let ad = a.drop_first();
        let bd = b.drop_first();
        assert(forall|p: int| 0 <= p < i - 1 ==> ad[p] == bd[p]);
        lemma_bytes_lt_skip(ad, bd, i - 1);
        assert(ad.skip(i - 1) =~= a.skip(i));
        assert(bd.skip(i - 1) =~= b.skip(i));
    } else {
        assert(a.skip(0) =~= a);
        assert(b.skip(0) =~= b);
    }
}

impl Word {
    /// Decide the strict lexicographic order of two words.
    pub fn lt(&self, other: &Word) -> (r: bool)
        ensures
            r == bytes_lt(self@, other@),
    {
        let a = self.bytes();
        let b = other.bytes();
        let an = a.len();
        let bn = b.len();
        let mut i: usize = 0;
        while i < an && i < bn
            invariant
                0 <= i <= an,
                0 <= i <= bn,
                an == self@.len(),
                bn == other@.len(),
                a@ == self@,
                b@ == other@,
                forall|p: int| 0 <= p < i ==> self@[p] == other@[p],
            decreases an - i,
        {
            if a[i] < b[i] {
                proof {
                    lemma_bytes_lt_skip(self@, other@, i as int);
                }
                return true;
            }
            if a[i] > b[i] {
                proof {
                    lemma_bytes_lt_skip(self@, other@, i as int);
                }
                return false;
            }
            i = i + 1;
        }
        proof {
            lemma_bytes_lt_skip(self@, other@, i as int);
        }
        an < bn
    }
}

/// Total lexicographic order on solutions, over the five word tuples.
pub open spec fn sol_le(x: Solution, y: Solution) -> bool {
    ||| bytes_lt(x.w1@, y.w1@)
    ||| (x.w1@ == y.w1@ && (bytes_lt(x.w2@, y.w2@) || (x.w2@ == y.w2@ && (bytes_lt(x.w3@, y.w3@)
        || (x.w3@ == y.w3@ && (bytes_lt(x.w4@, y.w4@) || (x.w4@ == y.w4@ && !bytes_lt(
        y.w5@,
        x.w5@,
    ))))))))
}

/// Any two solutions are comparable.
pub proof fn lemma_sol_le_total(x: Solution, y: Solution)
    ensures
        sol_le(x, y) || sol_le(y, x),
        sol_le(x, x),
{
    lemma_bytes_trichotomy(x.w1@, y.w1@);
    lemma_bytes_trichotomy(x.w2@, y.w2@);
    lemma_bytes_trichotomy(x.w3@, y.w3@);
    lemma_bytes_trichotomy(x.w4@, y.w4@);
    lemma_bytes_trichotomy(x.w5@, y.w5@);
    lemma_bytes_trichotomy(x.w1@, x.w1@);
    lemma_bytes_trichotomy(x.w5@, x.w5@);
}

/// Trichotomy and transitivity over a triple of byte sequences.
proof fn lemma_bytes_order3(a: Seq<u8>, b: Seq<u8>, c: Seq<u8>)
    ensures
        bytes_lt(a, b) || bytes_lt(b, a) || a == b,
        bytes_lt(b, c) || bytes_lt(c, b) || b == c,
        bytes_lt(a, c) || bytes_lt(c, a) || a == c,
        !(bytes_lt(a, b) && bytes_lt(b, a)),
        !(bytes_lt(b, c) && bytes_lt(c, b)),
        !(bytes_lt(a, c) && bytes_lt(c, a)),
        bytes_lt(a, b) && bytes_lt(b, c) ==> bytes_lt(a, c),
        bytes_lt(a, c) && bytes_lt(c, b) ==> bytes_lt(a, b),
        bytes_lt(b, a) && bytes_lt(a, c) ==> bytes_lt(b, c),
        bytes_lt(b, c) && bytes_lt(c, a) ==> bytes_lt(b, a),
        bytes_lt(c, a) && bytes_lt(a, b) ==> bytes_lt(c, b),
        bytes_lt(c, b) && bytes_lt(b, a) ==> bytes_lt(c, a),
{
    lemma_bytes_trichotomy(a, b);
    lemma_bytes_trichotomy(b, c);
    lemma_bytes_trichotomy(a, c);
    if bytes_lt(a, b) && bytes_lt(b, c) {
        lemma_bytes_lt_trans(a, b, c);
    }
    if bytes_lt(a, c) && bytes_lt(c, b) {
        lemma_bytes_lt_trans(a, c, b);
    }
    if bytes_lt(b, a) && bytes_lt(a, c) {
        lemma_bytes_lt_trans(b, a, c);
    }
    if bytes_lt(b, c) && bytes_lt(c, a) {
        lemma_bytes_lt_trans(b, c, a);
    }
    if bytes_lt(c, a) && bytes_lt(a, b) {
        lemma_bytes_lt_trans(c, a, b);
    }
    if bytes_lt(c, b) && bytes_lt(b, a) {
        lemma_bytes_lt_trans(c, b, a);
    }
}

/// The order on solutions is transitive.
pub proof fn lemma_sol_le_trans(x: Solution, y: Solution, z: Solution)
    requires
        sol_le(x, y),
        sol_le(y, z),
    ensures
        sol_le(x, z),
{
    lemma_bytes_order3(x.w1@, y.w1@, z.w1@);
    lemma_bytes_order3(x.w2@, y.w2@, z.w2@);
    lemma_bytes_order3(x.w3@, y.w3@, z.w3@);
    lemma_bytes_order3(x.w4@, y.w4@, z.w4@);
    lemma_bytes_order3(x.w5@, y.w5@, z.w5@);
}

/// Decide the order of two solutions.
pub fn sol_le_x(x: &Solution, y: &Solution) -> (r: bool)
    ensures
        r == sol_le(*x, *y),
{
    proof {
        lemma_bytes_trichotomy(x.w1@, y.w1@);
        lemma_bytes_trichotomy(x.w2@, y.w2@);
        lemma_bytes_trichotomy(x.w3@, y.w3@);
        lemma_bytes_trichotomy(x.w4@, y.w4@);
    }
    if x.w1.lt(&y.w1) {
        return true;
    }
    if y.w1.lt(&x.w1) {
        return false;
    }
    if x.w2.lt(&y.w2) {
        return true;
    }
    if y.w2.lt(&x.w2) {
        return false;
    }
    if x.w3.lt(&y.w3) {
        return true;
    }
    if y.w3.lt(&x.w3) {
        return false;
    }
    if x.w4.lt(&y.w4) {
        return true;
    }
    if y.w4.lt(&x.w4) {
        return false;
    }
    !y.w5.lt(&x.w5)
}

/// Insertion of a solution into an ordered sequence.
pub open spec fn insert_sol(s: Seq<Solution>, x: Solution) -> Seq<Solution>
    decreases s.len(),
{
    if s.len() > 0 && sol_le(s[0], x) {
        seq![s[0]] + insert_sol(s.drop_first(), x)
    } else {
        seq![x] + s
    }
}

/// The first `n` solutions, ordered by insertion.
pub open spec fn sort_sols_prefix(s: Seq<Solution>, n: int) -> Seq<Solution>
    decreases n,
{
    if n <= 0 {
        Seq::empty()
    } else {
        insert_sol(sort_sols_prefix(s, n - 1), s[n - 1])
    }
}

/// The solutions in total lexicographic order.
pub open spec fn sort_sols(s: Seq<Solution>) -> Seq<Solution> {
    sort_sols_prefix(s, s.len() as int)
}

/// An ordered sequence of solutions.
pub open spec fn sols_sorted(s: Seq<Solution>) -> bool {
    forall|p: int, q: int| 0 <= p < q < s.len() ==> sol_le(#[trigger] s[p], #[trigger] s[q])
}

proof fn lemma_insert_sol_at(s: Seq<Solution>, x: Solution, pos: int)
    requires
        0 <= pos <= s.len(),
        forall|p: int| 0 <= p < pos ==> sol_le(#[trigger] s[p], x),
        pos == s.len() || !sol_le(s[pos], x),
    ensures
        insert_sol(s, x) == s.take(pos) + seq![x] + s.skip(pos),
    decreases pos,
{
    if pos == 0 {
        assert(insert_sol(s, x) =~= s.take(0) + seq![x] + s.skip(0));
    } else {
        let d = s.drop_first();
        assert(forall|p: int| 0 <= p < pos - 1 ==> sol_le(#[trigger] d[p], x));
        lemma_insert_sol_at(d, x, pos - 1);
        assert(insert_sol(s, x) =~= s.take(pos) + seq![x] + s.skip(pos)) by {
            assert(insert_sol(s, x) == seq![s[0]] + (d.take(pos - 1) + seq![x] + d.skip(pos - 1)));
        }
    }
}

proof fn lemma_insert_sol_members(s: Seq<Solution>, x: Solution)
    ensures
        forall|y: Solution| #[trigger] insert_sol(s, x).contains(y) ==> s.contains(y) || y == x,
    decreases s.len(),
{
    if s.len() > 0 && sol_le(s[0], x) {
        let d = s.drop_first();
        lemma_insert_sol_members(d, x);
        assert forall|y: Solution| #[trigger] insert_sol(s, x).contains(y) implies s.contains(y)
            || y == x by {
            let r = seq![s[0]] + insert_sol(d, x);
            let idx = choose|idx: int| 0 <= idx < r.len() && r[idx] == y;
            if idx == 0 {
                assert(s[0] == y);
            } else {
                assert(insert_sol(d, x)[idx - 1] == y);
                assert(insert_sol(d, x).contains(y));
                if d.contains(y) {
                    let di = choose|di: int| 0 <= di < d.len() && d[di] == y;
                    assert(s[di + 1] == y);
                }
            }
        }
    } else {
        assert forall|y: Solution| #[trigger] insert_sol(s, x).contains(y) implies s.contains(y)
            || y == x by {
            let r = seq![x] + s;
            let idx = choose|idx: int| 0 <= idx < r.len() && r[idx] == y;
            if idx > 0 {
                assert(s[idx - 1] == y);
            }
        }
    }
}

proof fn lemma_insert_sol_sorted(s: Seq<Solution>, x: Solution)
    requires
        sols_sorted(s),
    ensures
        sols_sorted(insert_sol(s, x)),
    decreases s.len(),
{
    if s.len() > 0 && sol_le(s[0], x) {
        let d = s.drop_first();
        assert(sols_sorted(d));
        lemma_insert_sol_sorted(d, x);
        lemma_insert_sol_members(d, x);
        let r = seq![s[0]] + insert_sol(d, x);
        assert forall|p: int, q: int| 0 <= p < q < r.len() implies sol_le(
            #[trigger] r[p],
            #[trigger] r[q],
        ) by {
            if p == 0 {
                assert(insert_sol(d, x).contains(r[q]));
                if d.contains(r[q]) {
                    let di = choose|di: int| 0 <= di < d.len() && d[di] == r[q];
                    assert(sol_le(s[0], s[di + 1]));
                }
            }
        }
    } else {
        let r = seq![x] + s;
        assert forall|p: int, q: int| 0 <= p < q < r.len() implies sol_le(
            #[trigger] r[p],
            #[trigger] r[q],
        ) by {
            if p == 0 {
                lemma_sol_le_total(x, s[0]);
                if q > 1 {
                    lemma_sol_le_trans(x, s[0], s[q - 1]);
                }
            }
        }
    }
}

/// The aggregator's sort keeps every solution: no loss, no duplication.
pub proof fn lemma_insert_sol_multiset(s: Seq<Solution>, x: Solution)
    ensures
        insert_sol(s, x).to_multiset() == s.to_multiset().insert(x),
    decreases s.len(),
{
    broadcast use vstd::seq_lib::group_to_multiset_ensures;

    if s.len() > 0 && sol_le(s[0], x) {
        lemma_insert_sol_multiset(s.drop_first(), x);
        vstd::seq_lib::lemma_multiset_commutative(seq![s[0]], insert_sol(s.drop_first(), x));
        vstd::seq_lib::lemma_multiset_commutative(seq![s[0]], s.drop_first());
        assert(seq![s[0]] + s.drop_first() =~= s);
        assert(insert_sol(s, x).to_multiset() =~= s.to_multiset().insert(x));
    } else {
        vstd::seq_lib::lemma_multiset_commutative(seq![x], s);
        assert(insert_sol(s, x).to_multiset() =~= s.to_multiset().insert(x));
    }
}

/// The sorted arrangement is ordered and is a permutation of its input.
pub proof fn lemma_sort_sols_ensures(s: Seq<Solution>, n: int)
    requires
        0 <= n <= s.len(),
    ensures
        sols_sorted(sort_sols_prefix(s, n)),
        sort_sols_prefix(s, n).to_multiset() == s.take(n).to_multiset(),
    decreases n,
{
    broadcast use vstd::seq_lib::group_to_multiset_ensures;

    if n > 0 {
        lemma_sort_sols_ensures(s, n - 1);
        lemma_insert_sol_sorted(sort_sols_prefix(s, n - 1), s[n - 1]);
        lemma_insert_sol_multiset(sort_sols_prefix(s, n - 1), s[n - 1]);
        assert(s.take(n).drop_last() =~= s.take(n - 1));
        assert(s.take(n) =~= s.take(n - 1).push(s[n - 1]));
    }
}

/// Sort the collected solutions into their total lexicographic order.
pub fn sort_solutions(sols: Vec<Solution>) -> (out: Vec<Solution>)
    ensures
        out@ == sort_sols(sols@),
        sols_sorted(out@),
        out@.to_multiset() == sols@.to_multiset(),
{
    let ghost orig = sols@;
    let mut rest = sols;
    let mut out: Vec<Solution> = Vec::new();
    let n = rest.len();
    let mut i: usize = 0;
    while i < n
        invariant
            0 <= i <= n,
            n == orig.len(),
            rest@ == orig.skip(i as int),
            out@ == sort_sols_prefix(orig, i as int),
        decreases n - i,
    {
        let x = rest.remove(0);
        proof {
            assert(x == orig[i as int]);
            assert(orig.skip(i as int).remove(0) =~= orig.skip(i + 1));
        }
        let ghost prev = out@;
        let mut pos: usize = 0;
        while pos < out.len() && sol_le_x(&out[pos], &x)
            invariant
                0 <= pos <= out@.len(),
                prev == out@,
                forall|p: int| 0 <= p < pos ==> sol_le(#[trigger] prev[p], x),
            decreases out@.len() - pos,
        {
            pos = pos + 1;
        }
        out.insert(pos, x);
        proof {
            lemma_insert_sol_at(prev, x, pos as int);
            assert(out@ =~= prev.take(pos as int) + seq![x] + prev.skip(pos as int));
            assert(out@ == sort_sols_prefix(orig, i + 1));
        }
        i = i + 1;
    }
    proof {
        lemma_sort_sols_ensures(orig, n as int);
        assert(orig.take(n as int) =~= orig);
    }
    out
}

/// The rendered line of one solution: the five words joined by `", "`, with
/// a trailing newline.
pub open spec fn line_spec(v: Seq<Seq<u8>>) -> Seq<u8> {
    v[0] + seq![44u8, 32u8] + v[1] + seq![44u8, 32u8] + v[2] + seq![44u8, 32u8] + v[3] + seq![
        44u8,
        32u8,
    ] + v[4] + seq![10u8]
}

/// The rendered text of the first `n` solutions, one line each.
pub open spec fn rendered_prefix(ss: Seq<Solution>, n: int) -> Seq<u8>
    decreases n,
{
    if n <= 0 {
        Seq::empty()
    } else {
        rendered_prefix(ss, n - 1) + line_spec(sol_view(ss[n - 1]))
    }
}

/// The rendered text of a sequence of solutions.
pub open spec fn rendered(ss: Seq<Solution>) -> Seq<u8> {
    rendered_prefix(ss, ss.len() as int)
}

fn push_bytes(out: &mut Vec<u8>, w: &Word)
    ensures
        final (out)@ == old(out)@ + w@,
{
    let b = w.bytes();
    let n = b.len();
    let mut i: usize = 0;
    while i < n
        invariant
            0 <= i <= n,
            n == b@.len(),
            b@ == w@,
            out@ == old(out)@ + w@.take(i as int),
        decreases n - i,
    {
        out.push(b[i]);
        proof {
            assert(old(out)@ + w@.take(i + 1) =~= (old(out)@ + w@.take(i as int)).push(
                w@[i as int],
            ));
        }
        i = i + 1;
    }
    proof {
        assert(w@.take(n as int) =~= w@);
    }
}

fn push_sep(out: &mut Vec<u8>)
    ensures
        final (out)@ == old(out)@ + seq![44u8, 32u8],
{
    out.push(44);
    out.push(32);
    proof {
        assert(old(out)@ + seq![44u8, 32u8] =~= old(out)@.push(44u8).push(32u8));
    }
}

/// Render the ordered solutions, one line per solution, fields separated by
/// `", "`, each line ending in a newline.
pub fn render_solutions(sols: &Vec<Solution>) -> (out: Vec<u8>)
    ensures
        out@ == rendered(sols@),
{
    let mut out: Vec<u8> = Vec::new();
    let n = sols.len();
    let mut i: usize = 0;
    while i < n
        invariant
            0 <= i <= n,
            n == sols@.len(),
            out@ == rendered_prefix(sols@, i as int),
        decreases n - i,
    {
        let ghost prev = out@;
        let s = &sols[i];
        push_bytes(&mut out, &s.w1);
        push_sep(&mut out);
        push_bytes(&mut out, &s.w2);
        push_sep(&mut out);
        push_bytes(&mut out, &s.w3);
        push_sep(&mut out);
        push_bytes(&mut out, &s.w4);
        push_sep(&mut out);
        push_bytes(&mut out, &s.w5);
        out.push(10);
        proof {
            assert(out@ =~= prev + line_spec(sol_view(sols@[i as int])));
        }
        i = i + 1;
    }
    out
}

} // verus!
