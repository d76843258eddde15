use fivewords::graph::Graph;
use fivewords::intersect::intersection_sorted_inplace;
use fivewords::order::{order_words, score};
use fivewords::search::search_graph;
use fivewords::words::{filter_words, Word};

fn word(s: &str) -> Word {
    Word::new(s.as_bytes().to_vec())
}

#[test]
fn compatibility_is_letter_disjointness() {
    let a = word("fjord");
    let b = word("gucks");
    let c = word("diary");
    assert!(a.is_neighbors_with(&b));
    assert!(b.is_neighbors_with(&a));
    // "fjord" and "diary" share 'd' and 'r'
    assert!(!a.is_neighbors_with(&c));
    assert!(!c.is_neighbors_with(&a));
}

#[test]
fn compatibility_is_irreflexive() {
    let a = word("fjord");
    assert!(!a.is_neighbors_with(&a));
}

#[test]
fn intersection_exact() {
    let a: Vec<usize> = vec![1, 3, 5, 7, 9];
    let b: Vec<usize> = vec![3, 4, 5, 9, 12];
    let mut out: Vec<usize> = Vec::new();
    intersection_sorted_inplace(&a, &b, &mut out);
    assert_eq!(out, vec![3, 5, 9]);
    // scratch reuse: a second call overwrites the previous contents
    let c: Vec<usize> = vec![2, 4, 6];
    intersection_sorted_inplace(&a, &c, &mut out);
    assert_eq!(out, Vec::<usize>::new());
}

#[test]
fn score_exact_values() {
    // waltz: w=24, a=82, l=40, t=91, z=1
    assert_eq!(score(&word("waltz")), 238);
    // fjord: f=22, j=2, o=75, r=60, d=43
    assert_eq!(score(&word("fjord")), 202);
    assert_eq!(score(&word("gucks")), 147);
    assert_eq!(score(&word("nymph")), 191);
    assert_eq!(score(&word("vibex")), 227);
}

#[test]
fn ordering_is_descending_by_score() {
    let words = filter_words(&vec![b"quick".to_vec(), b"store".to_vec()]);
    let ordered = order_words(&words);
    // store (419) outranks quick (135)
    assert_eq!(ordered[0].bytes().as_slice(), b"store");
    assert_eq!(ordered[1].bytes().as_slice(), b"quick");
}

#[test]
fn graph_records_upper_neighbors_only() {
    let words = vec![word("fjord"), word("gucks"), word("nymph")];
    let g = Graph::construct_graph(words);
    assert_eq!(g.len(), 3);
    // all three are pairwise disjoint: 0 sees 1 and 2, 1 sees 2, 2 sees none
    assert_eq!(g.nodes[0].neighbors, vec![1, 2]);
    assert_eq!(g.nodes[1].neighbors, vec![2]);
    assert_eq!(g.nodes[2].neighbors, Vec::<usize>::new());
}

#[test]
fn search_finds_no_clique_in_small_graph() {
    // four mutually disjoint words cannot make a 5-clique
    let words = vec![word("fjord"), word("gucks"), word("nymph"), word("waltz")];
    let g = Graph::construct_graph(words);
    let cliques = search_graph(&g);
    assert_eq!(cliques.len(), 0);
}

#[test]
fn search_finds_the_known_quintet() {
    let words = vec![
        word("waltz"),
        word("vibex"),
        word("fjord"),
        word("nymph"),
        word("gucks"),
    ];
    let g = Graph::construct_graph(words);
    let cliques = search_graph(&g);
    assert_eq!(cliques.len(), 1);
    let t = cliques[0];
    assert_eq!((t.a, t.b, t.c, t.d, t.e), (0, 1, 2, 3, 4));
}
