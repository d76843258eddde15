use fivewords::words::{check_valid, filter_words, trim, Word};

fn lines(strs: &[&str]) -> Vec<Vec<u8>> {
    strs.iter().map(|s| s.as_bytes().to_vec()).collect()
}

#[test]
fn filter_keeps_five_distinct_letters() {
    let out = filter_words(&lines(&["radio"]));
    assert_eq!(out.len(), 1);
    assert_eq!(out[0].bytes().as_slice(), b"radio");
}

#[test]
fn filter_rejects_repeated_letter() {
    let out = filter_words(&lines(&["hello"]));
    assert_eq!(out.len(), 0);
}

#[test]
fn filter_rejects_wrong_length() {
    let out = filter_words(&lines(&["cat"]));
    assert_eq!(out.len(), 0);
}

#[test]
fn filter_trims_surrounding_whitespace() {
    let out = filter_words(&lines(&["  plumb "]));
    assert_eq!(out.len(), 1);
    assert_eq!(out[0].bytes().as_slice(), b"plumb");
}

#[test]
fn filter_keeps_input_order() {
    let out = filter_words(&lines(&["abcde", "hello", "fghij", "xy", " klmno\t"]));
    let words: Vec<&[u8]> = out.iter().map(|w| w.bytes().as_slice()).collect();
    assert_eq!(words, vec![&b"abcde"[..], &b"fghij"[..], &b"klmno"[..]]);
}

#[test]
fn trim_strips_both_ends() {
    assert_eq!(trim(&b"  plumb ".to_vec()), b"plumb".to_vec());
    assert_eq!(trim(&b"\tradio\r\n".to_vec()), b"radio".to_vec());
    assert_eq!(trim(&b"   ".to_vec()), Vec::<u8>::new());
    assert_eq!(trim(&b"words".to_vec()), b"words".to_vec());
}

#[test]
fn check_valid_cases() {
    assert!(check_valid(&b"radio".to_vec()));
    assert!(!check_valid(&b"hello".to_vec()));
    assert!(!check_valid(&b"cat".to_vec()));
    assert!(!check_valid(&b"abcdef".to_vec()));
    // a non-ASCII byte is never part of a valid word
    assert!(!check_valid(&vec![0xc3, 0xa9, 0x61, 0x62, 0x63]));
}

#[test]
fn word_accessors() {
    let w = Word::new(b"fjord".to_vec());
    assert_eq!(w.bytes().as_slice(), b"fjord");
    let c = w.clone_word();
    assert_eq!(c.bytes().as_slice(), b"fjord");
}
