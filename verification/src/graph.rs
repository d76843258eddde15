//! The compatibility graph: one node per vocabulary word, and for every node
//! the list of letter-disjoint words of strictly larger index.

use vstd::prelude::*;
use crate::words::{valid_word, Word};

verus! {

/// Two words are compatible when no byte occurs in both.
pub open spec fn disjoint_words(a: Seq<u8>, b: Seq<u8>) -> bool {
    forall|p: int, q: int| #![trigger a[p], b[q]] 0 <= p < a.len() && 0 <= q < b.len() ==> a[p]
        != b[q]
}

/// The compatibility relation is symmetric.
pub proof fn lemma_disjoint_symmetric(a: Seq<u8>, b: Seq<u8>)
    ensures
        disjoint_words(a, b) == disjoint_words(b, a),
{
}

/// No nonempty word is compatible with itself.
pub proof fn lemma_disjoint_irreflexive(a: Seq<u8>)
    requires
        a.len() > 0,
    ensures
        !disjoint_words(a, a),
{
    if disjoint_words(a, a) {
        // the first letter occurs in both copies, refuting the relation
        let shared = a[0];
        assert(shared == a[0] && 0 <= 0 < a.len());
        assert(!disjoint_words(a, a));
    }
}

impl Word {
    /// Decide compatibility: true iff the two words share no byte.
    pub fn is_neighbors_with(&self, other: &Word) -> (r: bool)
        ensures
            r == disjoint_words(self@, other@),
    {
        let a = self.bytes();
        let b = other.bytes();
        let an = a.len();
        let bn = b.len();
        let mut p: usize = 0;
        while p < an
            invariant
                0 <= p <= an,
                an == self@.len(),
                bn == other@.len(),
                a@ == self@,
                b@ == other@,
                forall|x: int, y: int| 0 <= x < p && 0 <= y < bn ==> self@[x] != other@[y],
            decreases an - p,
        {
            let mut q: usize = 0;
            while q < bn
                invariant
                    0 <= q <= bn,
                    p < an,
                    an == self@.len(),
                    bn == other@.len(),
                    a@ == self@,
                    b@ == other@,
                    forall|y: int| 0 <= y < q ==> self@[p as int] != other@[y],
                decreases bn - q,
            {
                if a[p] == b[q] {
                    return false;
                }
                q = q + 1;
            }
            p = p + 1;
        }
        true
    }
}

/// A vertex: a word and its compatible successors, by index.
pub struct Node {
    pub word: Word,
    pub neighbors: Vec<usize>,
}

impl Node {
    pub fn new(word: Word) -> (n: Node)
        ensures
            n.word == word,
            n.neighbors@ == Seq::<usize>::empty(),
    {
        Node { word, neighbors: Vec::new() }
    }
}

/// The compatibility graph over an ordered vocabulary.
pub struct Graph {
    pub nodes: Vec<Node>,
}

impl Graph {
    /// Number of vertices.
    pub open spec fn n(self) -> int {
        self.nodes@.len() as int
    }

    /// The word at vertex `i`.
    pub open spec fn word_at(self, i: int) -> Seq<u8> {
        self.nodes@[i].word@
    }

    /// The recorded successors of vertex `i`.
    pub open spec fn nb(self, i: int) -> Seq<usize> {
        self.nodes@[i].neighbors@
    }

    /// The (undirected) compatibility relation, oriented upward: an edge
    /// joins `i` to every compatible `j` of larger index.
    pub open spec fn edge(self, i: int, j: int) -> bool {
        &&& 0 <= i < j < self.n()
        &&& disjoint_words(self.word_at(i), self.word_at(j))
    }

    /// Well-formedness: every word is valid; every neighbor list is strictly
    /// increasing and holds exactly the compatible successors of its vertex.
    pub open spec fn wf(self) -> bool {
        &&& self.n() <= usize::MAX
        &&& (forall|i: int| 0 <= i < self.n() ==> valid_word(#[trigger] self.word_at(i)))
        &&& (forall|i: int, a: int, b: int|
            0 <= i < self.n() && 0 <= a < b < self.nb(i).len() ==> #[trigger] self.nb(i)[a]
                < #[trigger] self.nb(i)[b])
        &&& (forall|i: int, a: int|
            0 <= i < self.n() && 0 <= a < self.nb(i).len() ==> self.edge(
                i,
                #[trigger] self.nb(i)[a] as int,
            ))
        &&& (forall|i: int, j: usize|
            0 <= i < self.n() && self.edge(i, j as int) ==> #[trigger] self.nb(i).contains(j))
    }

    /// The views of the words, in vertex order.
    pub open spec fn words(self) -> Seq<Seq<u8>> {
        self.nodes@.map_values(|nd: Node| nd.word@)
    }

    /// Number of vertices.
    pub fn len(&self) -> (r: usize)
        ensures
            r == self.n(),
    {
        self.nodes.len()
    }

    /// Build the compatibility graph over an ordered vocabulary: vertex `i`
    /// records exactly the compatible words of larger index, in increasing
    /// order.
    pub fn construct_graph(words: Vec<Word>) -> (g: Graph)
        requires
            forall|i: int| 0 <= i < words@.len() ==> (#[trigger] words@[i]).wf(),
        ensures
            g.wf(),
            g.words() == words@.map_values(|w: Word| w@),
            g.n() == words@.len(),
    {
        let n = words.len();
        let mut nodes: Vec<Node> = Vec::new();
        for i in 0..n
            invariant
                n == words@.len(),
                forall|k: int| 0 <= k < n ==> (#[trigger] words@[k]).wf(),
                nodes@.len() == i,
                forall|k: int| 0 <= k < i ==> (#[trigger] nodes@[k]).word@ == words@[k]@,
                forall|k: int, a: int, b: int|
                    0 <= k < i && 0 <= a < b < nodes@[k].neighbors@.len()
                        ==> #[trigger] nodes@[k].neighbors@[a] < #[trigger] nodes@[k].neighbors@[b],
                forall|k: int, a: int|
                    0 <= k < i && 0 <= a < nodes@[k].neighbors@.len() ==> k
                        < (#[trigger] nodes@[k].neighbors@[a]) as int
                        && (nodes@[k].neighbors@[a] as int) < n && disjoint_words(
                        words@[k]@,
                        words@[nodes@[k].neighbors@[a] as int]@,
                    ),
                forall|k: int, j: usize|
                    0 <= k < i && k < j < n && disjoint_words(words@[k]@, words@[j as int]@)
                        ==> #[trigger] nodes@[k].neighbors@.contains(j),
        {
            let mut cur: Vec<usize> = Vec::new();
            let mut j = i + 1;
            while j < n
                invariant
                    i < j <= n,
                    n == words@.len(),
                    forall|a: int, b: int|
                        0 <= a < b < cur@.len() ==> #[trigger] cur@[a] < #[trigger] cur@[b],
                    forall|a: int|
                        0 <= a < cur@.len() ==> i < (#[trigger] cur@[a]) as int && (cur@[a] as int)
                            < j,
                    forall|a: int|
                        0 <= a < cur@.len() ==> disjoint_words(
                            words@[i as int]@,
                            words@[cur@[a] as int]@,
                        ),
                    forall|jj: usize|
                        i < jj < j && disjoint_words(words@[i as int]@, words@[jj as int]@)
                            ==> #[trigger] cur@.contains(jj),
                decreases n - j,
            {
                if words[i].is_neighbors_with(&words[j]) {
                    let ghost cur0 = cur@;
                    cur.push(j);
                    proof {
                        assert forall|jj: usize|
                            i < jj < j + 1 && disjoint_words(
                                words@[i as int]@,
                                words@[jj as int]@,
                            ) implies #[trigger] cur@.contains(jj) by {
                            if jj < j {
                                assert(cur0.contains(jj));
                                let a = choose|a: int| 0 <= a < cur0.len() && cur0[a] == jj;
                                assert(cur@[a] == jj);
                            } else {
                                assert(cur@[cur@.len() - 1] == jj);
                            }
                        }
                    }
                } else {
                    proof {
                        assert(forall|jj: usize|
                            i < jj < j + 1 && disjoint_words(words@[i as int]@, words@[jj as int]@)
                                ==> #[trigger] cur@.contains(jj));
                    }
                }
                j = j + 1;
            }
            let w = words[i].clone_word();
            proof {
                assert(w@ == words@[i as int]@);
            }
            nodes.push(Node { word: w, neighbors: cur });
        }
        let g = Graph { nodes };
        proof {
            assert(g.words() =~= words@.map_values(|w: Word| w@));
            assert forall|i: int, j: usize|
                0 <= i < g.n() && g.edge(i, j as int) implies #[trigger] g.nb(i).contains(j) by {
                assert(disjoint_words(words@[i]@, words@[j as int]@));
            }
        }
        g
    }
}

} // verus!
