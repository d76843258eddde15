use fivewords::pipeline::{solve, solve_text};
use fivewords::solutions::{render_solutions, sort_solutions, Solution};
use fivewords::words::Word;

fn lines(strs: &[&str]) -> Vec<Vec<u8>> {
    strs.iter().map(|s| s.as_bytes().to_vec()).collect()
}

#[test]
fn known_quintet_is_the_only_solution() {
    let input = lines(&["fjord", "gucks", "nymph", "vibex", "waltz"]);
    let sols = solve(&input);
    assert_eq!(sols.len(), 1);
    // within a solution, words follow the vertex order: descending score
    // (waltz 238, vibex 227, fjord 202, nymph 191, gucks 147)
    let s = &sols[0];
    assert_eq!(s.w1.bytes().as_slice(), b"waltz");
    assert_eq!(s.w2.bytes().as_slice(), b"vibex");
    assert_eq!(s.w3.bytes().as_slice(), b"fjord");
    assert_eq!(s.w4.bytes().as_slice(), b"nymph");
    assert_eq!(s.w5.bytes().as_slice(), b"gucks");
}

#[test]
fn rendered_line_format() {
    let input = lines(&["fjord", "gucks", "nymph", "vibex", "waltz"]);
    let text = solve_text(&input);
    assert_eq!(text, b"waltz, vibex, fjord, nymph, gucks\n".to_vec());
}

#[test]
fn two_quintets_sorted_lexicographically() {
    let input = lines(&[
        "bemix", "clunk", "fjord", "grypt", "gucks", "nymph", "vibex", "vozhd", "waltz", "waqfs",
    ]);
    let text = solve_text(&input);
    let expected =
        b"bemix, grypt, waqfs, vozhd, clunk\nwaltz, vibex, fjord, nymph, gucks\n".to_vec();
    assert_eq!(text, expected);
}

#[test]
fn malformed_lines_are_dropped_silently() {
    let input = lines(&[
        " fjord ", "hello", "gucks", "nymph", "xx", "vibex", "", "waltz",
    ]);
    let text = solve_text(&input);
    assert_eq!(text, b"waltz, vibex, fjord, nymph, gucks\n".to_vec());
}

#[test]
fn empty_result_is_valid() {
    let input = lines(&["fjord", "gucks", "nymph", "vibex"]);
    let sols = solve(&input);
    assert_eq!(sols.len(), 0);
    let text = solve_text(&input);
    assert_eq!(text, Vec::<u8>::new());
}

#[test]
fn empty_input_gives_empty_output() {
    let input: Vec<Vec<u8>> = Vec::new();
    assert_eq!(solve_text(&input), Vec::<u8>::new());
}

#[test]
fn pipeline_is_deterministic() {
    let input = lines(&[
        "bemix", "clunk", "fjord", "grypt", "gucks", "nymph", "vibex", "vozhd", "waltz", "waqfs",
    ]);
    let first = solve_text(&input);
    let second = solve_text(&input);
    assert_eq!(first, second);
}

fn solution(ws: [&str; 5]) -> Solution {
    Solution {
        w1: Word::new(ws[0].as_bytes().to_vec()),
        w2: Word::new(ws[1].as_bytes().to_vec()),
        w3: Word::new(ws[2].as_bytes().to_vec()),
        w4: Word::new(ws[3].as_bytes().to_vec()),
        w5: Word::new(ws[4].as_bytes().to_vec()),
    }
}

#[test]
fn aggregator_sorts_solutions() {
    let a = solution(["waltz", "vibex", "fjord", "nymph", "gucks"]);
    let b = solution(["bemix", "grypt", "waqfs", "vozhd", "clunk"]);
    let sorted = sort_solutions(vec![a, b]);
    assert_eq!(sorted[0].w1.bytes().as_slice(), b"bemix");
    assert_eq!(sorted[1].w1.bytes().as_slice(), b"waltz");
    let text = render_solutions(&sorted);
    assert_eq!(
        text,
        b"bemix, grypt, waqfs, vozhd, clunk\nwaltz, vibex, fjord, nymph, gucks\n".to_vec()
    );
}

#[test]
fn word_order_is_lexicographic() {
    let a = Word::new(b"abcde".to_vec());
    let b = Word::new(b"abcdf".to_vec());
    assert!(a.lt(&b));
    assert!(!b.lt(&a));
    assert!(!a.lt(&a));
}
