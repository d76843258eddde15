//! The vocabulary filter: candidate lines are trimmed and kept only when
//! they consist of exactly five distinct ASCII bytes.

use vstd::prelude::*;

verus! {

/// An ASCII whitespace byte, as stripped from the ends of an input line.
pub open spec fn is_space(b: u8) -> bool {
    b == 32 || (9 <= b && b <= 13)
}

/// A candidate word is valid when it has exactly five bytes, all ASCII,
/// with no byte occurring twice.
pub open spec fn valid_word(s: Seq<u8>) -> bool {
    &&& s.len() == 5
    &&& (forall|p: int, q: int| 0 <= p < q < s.len() ==> s[p] != s[q])
    &&& (forall|p: int| 0 <= p < s.len() ==> s[p] < 128)
}

/// A validated vocabulary word: five distinct ASCII bytes.
pub struct Word {
    bytes: Vec<u8>,
}

impl View for Word {
    type V = Seq<u8>;

    closed spec fn view(&self) -> Seq<u8> {
        self.bytes@
    }
}

impl Word {
    /// A word is well formed when its bytes pass the vocabulary filter.
    pub open spec fn wf(self) -> bool {
        valid_word(self@)
    }

    pub fn new(bytes: Vec<u8>) -> (w: Word)
        requires
            valid_word(bytes@),
        ensures
            w@ == bytes@,
    {
        Word { bytes }
    }

    pub fn bytes(&self) -> (r: &Vec<u8>)
        ensures
            r@ == self@,
    {
        &self.bytes
    }

    pub fn clone_word(&self) -> (w: Word)
        ensures
            w@ == self@,
    {
        let bytes = self.bytes.clone();
        proof {
            assert(bytes@ =~= self.bytes@);
        }
        Word { bytes }
    }
}

/// What remains of `s` once leading whitespace is dropped.
pub open spec fn trim_front(s: Seq<u8>) -> Seq<u8>
    decreases s.len(),
{
    if s.len() > 0 && is_space(s[0]) {
        trim_front(s.drop_first())
    } else {
        s
    }
}

/// What remains of `s` once trailing whitespace is dropped.
pub open spec fn trim_back(s: Seq<u8>) -> Seq<u8>
    decreases s.len(),
{
    if s.len() > 0 && is_space(s.last()) {
        trim_back(s.drop_last())
    } else {
        s
    }
}

/// An input line with surrounding whitespace removed.
pub open spec fn trim_spec(s: Seq<u8>) -> Seq<u8> {
    trim_back(trim_front(s))
}

proof fn lemma_trim_front_skip(s: Seq<u8>, k: int)
    requires
        0 <= k <= s.len(),
        forall|p: int| 0 <= p < k ==> is_space(s[p]),
        k == s.len() || !is_space(s[k]),
    ensures
        trim_front(s) == s.skip(k),
    decreases k,
{
    if k == 0 {
        assert(s.skip(0) =~= s);
    } else {
        let t = s.drop_first();
        assert(forall|p: int| 0 <= p < k - 1 ==> is_space(t[p]));
        lemma_trim_front_skip(t, k - 1);
        assert(t.skip(k - 1) =~= s.skip(k));
    }
}

proof fn lemma_trim_back_take(s: Seq<u8>, h: int)
    requires
        0 <= h <= s.len(),
        forall|p: int| h <= p < s.len() ==> is_space(s[p]),
        h == 0 || !is_space(s[h - 1]),
    ensures
        trim_back(s) == s.take(h),
    decreases s.len() - h,
{
    if h == s.len() {
        if s.len() > 0 && is_space(s.last()) {
            assert(!is_space(s[h - 1]));
            assert(false);
        }
        assert(s.take(h) =~= s);
    } else {
        let t = s.drop_last();
        lemma_trim_back_take(t, h);
        assert(t.take(h) =~= s.take(h));
    }
}

/// Strip ASCII whitespace from both ends of a line.
pub fn trim(line: &Vec<u8>) -> (out: Vec<u8>)
    ensures
        out@ == trim_spec(line@),
{
    let n = line.len();
    let mut lo: usize = 0;
    while lo < n && (line[lo] == 32 || (9 <= line[lo] && line[lo] <= 13))
        invariant
            0 <= lo <= n,
            n == line@.len(),
            forall|p: int| 0 <= p < lo ==> is_space(line@[p]),
        decreases n - lo,
    {
        lo = lo + 1;
    }
    proof {
        lemma_trim_front_skip(line@, lo as int);
    }
    let mut hi: usize = n;
    while hi > lo && (line[hi - 1] == 32 || (9 <= line[hi - 1] && line[hi - 1] <= 13))
        invariant
            lo <= hi <= n,
            n == line@.len(),
            forall|p: int| hi <= p < n ==> is_space(line@[p]),
        decreases hi,
    {
        hi = hi - 1;
    }
    proof {
        let f = line@.skip(lo as int);
        assert(forall|p: int| hi - lo <= p < f.len() ==> is_space(f[p]));
        if hi > lo {
            assert(f[hi - lo - 1] == line@[hi - 1]);
        }
        lemma_trim_back_take(f, hi - lo);
    }
    let mut out: Vec<u8> = Vec::new();
    let mut p: usize = lo;
    while p < hi
        invariant
            lo <= p <= hi <= n,
            n == line@.len(),
            out@ == line@.subrange(lo as int, p as int),
        decreases hi - p,
    {
        out.push(line[p]);
        proof {
            assert(line@.subrange(lo as int, p + 1) =~= line@.subrange(lo as int, p as int).push(
                line@[p as int],
            ));
        }
        p = p + 1;
    }
    proof {
        assert(line@.skip(lo as int).take(hi - lo) =~= line@.subrange(lo as int, hi as int));
    }
    out
}

/// Decide whether a trimmed line passes the vocabulary filter.
pub fn check_valid(v: &Vec<u8>) -> (r: bool)
    ensures
        r == valid_word(v@),
{
    if v.len() != 5 {
        return false;
    }
    let mut p: usize = 0;
    while p < 5
        invariant
            0 <= p <= 5,
            v@.len() == 5,
            forall|a: int, b: int| 0 <= a < b < v@.len() && a < p ==> v@[a] != v@[b],
            forall|a: int| 0 <= a < p ==> v@[a] < 128,
        decreases 5 - p,
    {
        if v[p] >= 128 {
            return false;
        }
        let mut q: usize = p + 1;
        while q < 5
            invariant
                p < q <= 5,
                p < 5,
                v@.len() == 5,
                forall|b: int| p < b < q ==> v@[p as int] != v@[b],
            decreases 5 - q,
        {
            if v[p] == v[q] {
                return false;
            }
            q = q + 1;
        }
        p = p + 1;
    }
    true
}

/// The vocabulary drawn from the first `n` lines: each line trimmed, the
/// valid ones kept in input order.
pub open spec fn filtered_prefix(lines: Seq<Seq<u8>>, n: int) -> Seq<Seq<u8>>
    decreases n,
{
    if n <= 0 {
        Seq::empty()
    } else {
        let prev = filtered_prefix(lines, n - 1);
        let t = trim_spec(lines[n - 1]);
        if valid_word(t) {
            prev.push(t)
        } else {
            prev
        }
    }
}

/// The vocabulary drawn from a sequence of raw input lines.
pub open spec fn vocabulary(lines: Seq<Seq<u8>>) -> Seq<Seq<u8>> {
    filtered_prefix(lines, lines.len() as int)
}

/// The views of a sequence of words.
pub open spec fn word_views(ws: Seq<Word>) -> Seq<Seq<u8>> {
    ws.map_values(|w: Word| w@)
}

/// The vocabulary filter: trim every line, keep exactly those that are five
/// distinct ASCII bytes, in input order.
pub fn filter_words(lines: &Vec<Vec<u8>>) -> (out: Vec<Word>)
    ensures
        word_views(out@) == vocabulary(lines@.map_values(|v: Vec<u8>| v@)),
        forall|i: int| 0 <= i < out@.len() ==> (#[trigger] out@[i]).wf(),
{
    let ghost ls = lines@.map_values(|v: Vec<u8>| v@);
    let mut out: Vec<Word> = Vec::new();
    let n = lines.len();
    for i in 0..n
        invariant
            n == lines@.len(),
            ls == lines@.map_values(|v: Vec<u8>| v@),
            word_views(out@) == filtered_prefix(ls, i as int),
            forall|k: int| 0 <= k < out@.len() ==> (#[trigger] out@[k]).wf(),
    {
        let t = trim(&lines[i]);
        if check_valid(&t) {
            let w = Word::new(t);
            out.push(w);
            proof {
                assert(word_views(out@) =~= filtered_prefix(ls, i + 1));
            }
        } else {
            proof {
                assert(word_views(out@) =~= filtered_prefix(ls, i + 1));
            }
        }
    }
    out
}

} // verus!
