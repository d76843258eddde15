//! The vertex ordering heuristic: words built from the most common letters
//! are placed first, so that poorly connected vertices are searched (and
//! excluded) early.  The ordering is a pure permutation; it never changes
//! which solutions exist.

use vstd::prelude::*;
use crate::words::{valid_word, word_views, Word};

verus! {

/// Corpus frequency weight of a letter; bytes outside `a..=z` weigh nothing.
pub open spec fn letter_freq(b: u8) -> int {
    if b == 97 {
        82
    } else if b == 98 {
        15
    } else if b == 99 {
        28
    } else if b == 100 {
        43
    } else if b == 101 {
        130
    } else if b == 102 {
        22
    } else if b == 103 {
        20
    } else if b == 104 {
        61
    } else if b == 105 {
        70
    } else if b == 106 {
        2
    } else if b == 107 {
        8
    } else if b == 108 {
        40
    } else if b == 109 {
        24
    } else if b == 110 {
        67
    } else if b == 111 {
        75
    } else if b == 112 {
        19
    } else if b == 113 {
        1
    } else if b == 114 {
        60
    } else if b == 115 {
        63
    } else if b == 116 {
        91
    } else if b == 117 {
        28
    } else if b == 118 {
        10
    } else if b == 119 {
        24
    } else if b == 120 {
        2
    } else if b == 121 {
        20
    } else if b == 122 {
        1
    } else {
        0
    }
}

/// The frequency score of a word: the summed weights of its letters.
pub open spec fn score_spec(s: Seq<u8>) -> int
    decreases s.len(),
{
    if s.len() == 0 {
        0
    } else {
        score_spec(s.drop_last()) + letter_freq(s.last())
    }
}

fn letter_freq_x(b: u8) -> (r: u32)
    ensures
        r as int == letter_freq(b),
        r <= 130,
{
    if b == 97 {
        82
    } else if b == 98 {
        15
    } else if b == 99 {
        28
    } else if b == 100 {
        43
    } else if b == 101 {
        130
    } else if b == 102 {
        22
    } else if b == 103 {
        20
    } else if b == 104 {
        61
    } else if b == 105 {
        70
    } else if b == 106 {
        2
    } else if b == 107 {
        8
    } else if b == 108 {
        40
    } else if b == 109 {
        24
    } else if b == 110 {
        67
    } else if b == 111 {
        75
    } else if b == 112 {
        19
    } else if b == 113 {
        1
    } else if b == 114 {
        60
    } else if b == 115 {
        63
    } else if b == 116 {
        91
    } else if b == 117 {
        28
    } else if b == 118 {
        10
    } else if b == 119 {
        24
    } else if b == 120 {
        2
    } else if b == 121 {
        20
    } else if b == 122 {
        1
    } else {
        0
    }
}

/// Compute a word's frequency score.
pub fn score(w: &Word) -> (r: u32)
    requires
        valid_word(w@),
    ensures
        r as int == score_spec(w@),
{
    let b = w.bytes();
    let mut sum: u32 = 0;
    let mut i: usize = 0;
    while i < b.len()
        invariant
            0 <= i <= b@.len(),
            b@ == w@,
            b@.len() == 5,
            sum as int == score_spec(w@.take(i as int)),
            sum <= 130 * i,
        decreases b@.len() - i,
    {
        let f = letter_freq_x(b[i]);
        proof {
            assert(w@.take(i + 1).drop_last() =~= w@.take(i as int));
            assert(w@.take(i + 1).last() == w@[i as int]);
        }
        sum = sum + f;
        i = i + 1;
    }
    proof {
        assert(w@.take(5) =~= w@);
    }
    sum
}

/// Insertion of a word view into a score-descending sequence of word views.
pub open spec fn insert_desc(s: Seq<Seq<u8>>, w: Seq<u8>) -> Seq<Seq<u8>>
    decreases s.len(),
{
    if s.len() > 0 && score_spec(s[0]) >= score_spec(w) {
        seq![s[0]] + insert_desc(s.drop_first(), w)
    } else {
        seq![w] + s
    }
}

/// The first `n` word views, sorted by descending score via insertion.
pub open spec fn sort_prefix(s: Seq<Seq<u8>>, n: int) -> Seq<Seq<u8>>
    decreases n,
{
    if n <= 0 {
        Seq::empty()
    } else {
        insert_desc(sort_prefix(s, n - 1), s[n - 1])
    }
}

/// The vocabulary ordered by descending letter-frequency score.
pub open spec fn sort_by_score(s: Seq<Seq<u8>>) -> Seq<Seq<u8>> {
    sort_prefix(s, s.len() as int)
}

proof fn lemma_insert_desc_at(s: Seq<Seq<u8>>, w: Seq<u8>, pos: int)
    requires
        0 <= pos <= s.len(),
        forall|p: int| 0 <= p < pos ==> score_spec(#[trigger] s[p]) >= score_spec(w),
        pos == s.len() || score_spec(s[pos]) < score_spec(w),
    ensures
        insert_desc(s, w) == s.take(pos) + seq![w] + s.skip(pos),
    decreases pos,
{
    if pos == 0 {
        assert(insert_desc(s, w) =~= s.take(0) + seq![w] + s.skip(0));
    } else {
        let d = s.drop_first();
        assert(forall|p: int| 0 <= p < pos - 1 ==> score_spec(#[trigger] d[p]) >= score_spec(w));
        lemma_insert_desc_at(d, w, pos - 1);
        assert(insert_desc(s, w) =~= s.take(pos) + seq![w] + s.skip(pos)) by {
            assert(insert_desc(s, w) == seq![s[0]] + (d.take(pos - 1) + seq![w] + d.skip(pos - 1)));
        }
    }
}

/// Order the vocabulary by descending letter-frequency score.
pub fn order_words(words: &Vec<Word>) -> (out: Vec<Word>)
    requires
        forall|i: int| 0 <= i < words@.len() ==> (#[trigger] words@[i]).wf(),
    ensures
        word_views(out@) == sort_by_score(word_views(words@)),
        forall|i: int| 0 <= i < out@.len() ==> (#[trigger] out@[i]).wf(),
{
    let ghost ws = word_views(words@);
    let mut out: Vec<Word> = Vec::new();
    let n = words.len();
    for i in 0..n
        invariant
            n == words@.len(),
            ws == word_views(words@),
            forall|k: int| 0 <= k < n ==> (#[trigger] words@[k]).wf(),
            word_views(out@) == sort_prefix(ws, i as int),
            forall|k: int| 0 <= k < out@.len() ==> (#[trigger] out@[k]).wf(),
    {
        let w = words[i].clone_word();
        let sw = score(&w);
        let ghost prev = word_views(out@);
        let mut pos: usize = 0;
        while pos < out.len() && score(&out[pos]) >= sw
            invariant
                0 <= pos <= out@.len(),
                prev == word_views(out@),
                w@ == ws[i as int],
                sw as int == score_spec(w@),
                forall|k: int| 0 <= k < out@.len() ==> (#[trigger] out@[k]).wf(),
                forall|p: int| 0 <= p < pos ==> score_spec(#[trigger] prev[p]) >= score_spec(w@),
            decreases out@.len() - pos,
        {
            pos = pos + 1;
        }
        out.insert(pos, w);
        proof {
            lemma_insert_desc_at(prev, w@, pos as int);
            assert(word_views(out@) =~= prev.take(pos as int) + seq![w@] + prev.skip(pos as int));
            assert(word_views(out@) == sort_prefix(ws, i + 1));
        }
    }
    out
}

/// The ordering heuristic is a permutation: it keeps the multiset of words.
pub proof fn lemma_insert_desc_multiset(s: Seq<Seq<u8>>, w: Seq<u8>)
    ensures
        insert_desc(s, w).to_multiset() == s.to_multiset().insert(w),
    decreases s.len(),
{
    broadcast use vstd::seq_lib::group_to_multiset_ensures;

    if s.len() > 0 && score_spec(s[0]) >= score_spec(w) {
        lemma_insert_desc_multiset(s.drop_first(), w);
        vstd::seq_lib::lemma_multiset_commutative(seq![s[0]], insert_desc(s.drop_first(), w));
        vstd::seq_lib::lemma_multiset_commutative(seq![s[0]], s.drop_first());
        assert(seq![s[0]] + s.drop_first() =~= s);
        assert(insert_desc(s, w).to_multiset() =~= s.to_multiset().insert(w));
    } else {
        vstd::seq_lib::lemma_multiset_commutative(seq![w], s);
        assert(insert_desc(s, w).to_multiset() =~= s.to_multiset().insert(w));
    }
}

/// The ordered vocabulary holds exactly the original words.
pub proof fn lemma_sort_by_score_multiset(s: Seq<Seq<u8>>, n: int)
    requires
        0 <= n <= s.len(),
    ensures
        sort_prefix(s, n).to_multiset() == s.take(n).to_multiset(),
    decreases n,
{
    broadcast use vstd::seq_lib::group_to_multiset_ensures;

    if n > 0 {
        lemma_sort_by_score_multiset(s, n - 1);
        lemma_insert_desc_multiset(sort_prefix(s, n - 1), s[n - 1]);
        assert(s.take(n).drop_last() =~= s.take(n - 1));
        assert(s.take(n) =~= s.take(n - 1).push(s[n - 1]));
    }
}

/// The ordered vocabulary is sorted by descending score.
pub open spec fn score_sorted(s: Seq<Seq<u8>>) -> bool {
    forall|p: int, q: int|
        0 <= p < q < s.len() ==> score_spec(#[trigger] s[p]) >= score_spec(#[trigger] s[q])
}

proof fn lemma_insert_desc_sorted(s: Seq<Seq<u8>>, w: Seq<u8>)
    requires
        score_sorted(s),
    ensures
        score_sorted(insert_desc(s, w)),
    decreases s.len(),
{
    if s.len() > 0 && score_spec(s[0]) >= score_spec(w) {
        let d = s.drop_first();
        assert(score_sorted(d));
        lemma_insert_desc_sorted(d, w);
        let r = seq![s[0]] + insert_desc(d, w);
        lemma_insert_desc_members(d, w);
        assert forall|p: int, q: int|
            0 <= p < q < r.len() implies score_spec(#[trigger] r[p]) >= score_spec(
            #[trigger] r[q],
        ) by {
            if p == 0 {
                assert(insert_desc(d, w).contains(r[q]));
            }
        }
    }
}

/// Every member of an insertion came from the sequence or is the new word.
proof fn lemma_insert_desc_members(s: Seq<Seq<u8>>, w: Seq<u8>)
    ensures
        forall|x: Seq<u8>| #[trigger] insert_desc(s, w).contains(x) ==> s.contains(x) || x == w,
    decreases s.len(),
{
    if s.len() > 0 && score_spec(s[0]) >= score_spec(w) {
        let d = s.drop_first();
        lemma_insert_desc_members(d, w);
        assert forall|x: Seq<u8>| #[trigger] insert_desc(s, w).contains(x) implies s.contains(x)
            || x == w by {
            let r = seq![s[0]] + insert_desc(d, w);
            let idx = choose|idx: int| 0 <= idx < r.len() && r[idx] == x;
            if idx == 0 {
                assert(s[0] == x);
            } else {
                assert(insert_desc(d, w)[idx - 1] == x);
                assert(insert_desc(d, w).contains(x));
                if d.contains(x) {
                    let di = choose|di: int| 0 <= di < d.len() && d[di] == x;
                    assert(s[di + 1] == x);
                }
            }
        }
    } else {
        assert forall|x: Seq<u8>| #[trigger] insert_desc(s, w).contains(x) implies s.contains(x)
            || x == w by {
            let r = seq![w] + s;
            let idx = choose|idx: int| 0 <= idx < r.len() && r[idx] == x;
            if idx > 0 {
                assert(s[idx - 1] == x);
            }
        }
    }
}

/// The ordering heuristic yields a score-descending arrangement.
pub proof fn lemma_sort_by_score_sorted(s: Seq<Seq<u8>>, n: int)
    requires
        0 <= n <= s.len(),
    ensures
        score_sorted(sort_prefix(s, n)),
    decreases n,
{
    if n > 0 {
        lemma_sort_by_score_sorted(s, n - 1);
        lemma_insert_desc_sorted(sort_prefix(s, n - 1), s[n - 1]);
    }
}

} // verus!
