//! The language model: per-word and per-word-pair log-frequencies.
//!
//! A [`Segmenter`] is built once from raw counts and is immutable afterwards
//! (apart from the caller-adjustable word-length `limit` and total).  Scores
//! are base-10 logarithms of relative frequencies in Q20 fixed point; word
//! pairs are scored with the "stupid back-off" heuristic, and words outside
//! the vocabulary pay a penalty that grows with their length.

use vstd::prelude::*;

use crate::fixlog::{log10_q20, spec_log10_q20, LOG_MAX, Q20};
use crate::table::{
    bytes_eq, clone_bytes, lemma_pairs_map_contains, lemma_pairs_map_update,
    lemma_pairs_map_value, lemma_unique_push, pairs_map, pairs_total, unique_keys,
};

verus! {

/// Maximum length of a candidate word the search considers by default.
pub const DEFAULT_LIMIT: usize = 24;

/// Floor of the out-of-vocabulary penalty, `2^44` in Q20 fixed point; no
/// single word ever scores below `-PENALTY_FLOOR`.
pub const PENALTY_FLOOR: u64 = 17592186044416;

/// Word length beyond which the out-of-vocabulary penalty sits at its floor.
pub const PENALTY_LEN_CAP: usize = 1048576;

/// Central data structure used to calculate word probabilities.
pub struct Segmenter {
    unis: Vec<(Vec<u8>, u64)>,
    bis: Vec<((Vec<u8>, Vec<u8>), u64)>,
    total_log: u64,
    bi_total_log: u64,
    limit: usize,
}

/// View of a unigram pair list: each word as its byte sequence.
pub open spec fn in_uni(s: Seq<(Vec<u8>, u64)>) -> Seq<(Seq<u8>, u64)> {
    s.map_values(|p: (Vec<u8>, u64)| (p.0@, p.1))
}

/// View of a bigram pair list.
pub open spec fn in_bi(s: Seq<((Vec<u8>, Vec<u8>), u64)>) -> Seq<((Seq<u8>, Seq<u8>), u64)> {
    s.map_values(|p: ((Vec<u8>, Vec<u8>), u64)| ((p.0.0@, p.0.1@), p.1))
}

/// The bigram pairs that construction keeps: those whose second word has a
/// positive count in the vocabulary `cm`.
pub open spec fn bi_kept(
    ps: Seq<((Seq<u8>, Seq<u8>), u64)>,
    cm: Map<Seq<u8>, u64>,
) -> Seq<((Seq<u8>, Seq<u8>), u64)>
    decreases ps.len(),
{
    if ps.len() == 0 {
        Seq::empty()
    } else {
        let r = bi_kept(ps.drop_last(), cm);
        if cm.contains_key(ps.last().0.1) && cm[ps.last().0.1] > 0 {
            r.push(ps.last())
        } else {
            r
        }
    }
}

/// The vocabulary table a pair list builds: words of positive count, mapped
/// to the Q20 logarithm of their count.
pub open spec fn spec_log_map<K>(cm: Map<K, u64>) -> Map<K, u64> {
    Map::new(
        |k: K| cm.contains_key(k) && cm[k] > 0,
        |k: K| spec_log10_q20(cm[k] as int) as u64,
    )
}

/// Q20 logarithm of the summed weights, or zero for an empty total.
pub open spec fn spec_total_log(total: int) -> u64 {
    if total >= 1 {
        spec_log10_q20(total) as u64
    } else {
        0
    }
}

/// Out-of-vocabulary penalty in Q20 fixed point: the back-off heuristic
/// `(1 - log10(total) - len) * (len / 5)`, clamped to `-PENALTY_FLOOR`.
pub open spec fn spec_penalty(total_log: int, len: nat) -> int {
    if len >= PENALTY_LEN_CAP {
        -(PENALTY_FLOOR as int)
    } else {
        let raw = (total_log + len * (Q20 as int) - (Q20 as int)) * len / 5;
        if raw > PENALTY_FLOOR {
            -(PENALTY_FLOOR as int)
        } else {
            -raw
        }
    }
}

/// Byte-sequence view of an optional word.
pub open spec fn opt_view(prev: Option<&[u8]>) -> Option<Seq<u8>> {
    match prev {
        Some(p) => Some(p@),
        None => None,
    }
}

impl Segmenter {
    /// Stored unigram table: word to Q20 logarithm of its count.
    pub closed spec fn uni_map(&self) -> Map<Seq<u8>, u64> {
        pairs_map(in_uni(self.unis@))
    }

    /// Stored bigram table: ordered word pair to Q20 logarithm of its count.
    pub closed spec fn bi_map(&self) -> Map<(Seq<u8>, Seq<u8>), u64> {
        pairs_map(in_bi(self.bis@))
    }

    /// Q20 logarithm of the summed unigram weights.
    pub closed spec fn total_log(&self) -> u64 {
        self.total_log
    }

    /// Q20 logarithm of the summed kept bigram weights.
    pub closed spec fn bi_total_log(&self) -> u64 {
        self.bi_total_log
    }

    /// Maximum candidate word length the search considers.
    pub closed spec fn limit(&self) -> usize {
        self.limit
    }

    /// Structural soundness: distinct keys and bounded logarithms.
    pub closed spec fn wf(&self) -> bool {
        &&& unique_keys(in_uni(self.unis@))
        &&& unique_keys(in_bi(self.bis@))
        &&& forall|i: int| 0 <= i < self.unis@.len() ==> (#[trigger] self.unis@[i]).1 <= LOG_MAX
        &&& forall|i: int| 0 <= i < self.bis@.len() ==> (#[trigger] self.bis@[i]).1 <= LOG_MAX
        &&& self.total_log <= LOG_MAX
        &&& self.bi_total_log <= LOG_MAX
    }

    /// Every stored value a lookup can produce is bounded.
    pub proof fn lemma_wf_map_values(&self)
        requires
            self.wf(),
        ensures
            forall|w: Seq<u8>| self.uni_map().contains_key(w) ==> #[trigger] self.uni_map()[w]
                <= LOG_MAX,
            forall|p: (Seq<u8>, Seq<u8>)| self.bi_map().contains_key(p) ==> #[trigger] self.bi_map()[p]
                <= LOG_MAX,
    {
        assert forall|w: Seq<u8>| self.uni_map().contains_key(w) implies #[trigger] self.uni_map()[w]
            <= LOG_MAX by {
            lemma_pairs_map_contains(in_uni(self.unis@), w);
            let i = choose|i: int|
                0 <= i < in_uni(self.unis@).len() && (#[trigger] in_uni(self.unis@)[i]).0 == w;
            lemma_pairs_map_value(in_uni(self.unis@), i);
        }
        assert forall|p: (Seq<u8>, Seq<u8>)| self.bi_map().contains_key(p) implies #[trigger] self.bi_map()[p]
            <= LOG_MAX by {
            lemma_pairs_map_contains(in_bi(self.bis@), p);
            let i = choose|i: int|
                0 <= i < in_bi(self.bis@).len() && (#[trigger] in_bi(self.bis@)[i]).0 == p;
            lemma_pairs_map_value(in_bi(self.bis@), i);
        }
    }
}

/// Score of `w` following `prev`, in Q20 fixed point.
///
/// A word outside the vocabulary pays the length penalty.  A known pair whose
/// first word is also known is scored by stupid back-off; otherwise the word's
/// own relative frequency decides.
pub open spec fn spec_score(m: Segmenter, w: Seq<u8>, prev: Option<Seq<u8>>) -> int {
    if !m.uni_map().contains_key(w) {
        spec_penalty(m.total_log() as int, w.len())
    } else {
        match prev {
            Some(p) => {
                if m.bi_map().contains_key((p, w)) && m.uni_map().contains_key(p) {
                    (m.bi_map()[(p, w)] - m.bi_total_log()) - (m.uni_map()[p] - m.total_log())
                } else {
                    m.uni_map()[w] - m.total_log()
                }
            },
            None => m.uni_map()[w] - m.total_log(),
        }
    }
}

/// No score leaves `[-PENALTY_FLOOR, 2 * LOG_MAX]`.
pub proof fn lemma_score_bounds(m: Segmenter, w: Seq<u8>, prev: Option<Seq<u8>>)
    requires
        m.wf(),
    ensures
        -(PENALTY_FLOOR as int) <= spec_score(m, w, prev) <= 2 * LOG_MAX,
{
    m.lemma_wf_map_values();
    if !m.uni_map().contains_key(w) {
        lemma_penalty_range(m.total_log() as int, w.len());
    }
}

/// The penalty is never positive and never below the floor.
pub proof fn lemma_penalty_range(total_log: int, len: nat)
    requires
        total_log >= 0,
    ensures
        -(PENALTY_FLOOR as int) <= spec_penalty(total_log, len) <= 0,
{
    if len < PENALTY_LEN_CAP {
        let raw = (total_log + len * (Q20 as int) - (Q20 as int)) * len / 5;
        assert(raw >= 0) by {
            if len >= 1 {
                assert(len * (Q20 as int) >= Q20 as int) by (nonlinear_arith)
                    requires
                        len >= 1,
                ;
                assert((total_log + len * (Q20 as int) - (Q20 as int)) * len >= 0)
                    by (nonlinear_arith)
                    requires
                        total_log + len * (Q20 as int) - (Q20 as int) >= 0,
                        len >= 0,
                ;
                vstd::arithmetic::div_mod::lemma_div_pos_is_pos(
                    (total_log + len * (Q20 as int) - (Q20 as int)) * len,
                    5,
                );
            } else {
                assert(len * (Q20 as int) == 0);
                assert((total_log + len * (Q20 as int) - (Q20 as int)) * len == 0);
            }
        }
    }
}

/// The penalty never shrinks as the word grows: a longer unseen string is
/// never cheaper than a shorter one.
pub proof fn lemma_penalty_monotone(total_log: int, a: nat, b: nat)
    requires
        total_log >= 0,
        a <= b,
    ensures
        spec_penalty(total_log, a) >= spec_penalty(total_log, b),
{
    lemma_penalty_range(total_log, a);
    lemma_penalty_range(total_log, b);
    if b < PENALTY_LEN_CAP {
        let fa = total_log + a * (Q20 as int) - (Q20 as int);
        let fb = total_log + b * (Q20 as int) - (Q20 as int);
        let ra = fa * a;
        let rb = fb * b;
        assert(ra <= rb) by {
            if a == 0 {
                assert(ra == 0) by (nonlinear_arith)
                    requires
                        a == 0,
                        ra == fa * a,
                ;
                if b == 0 {
                    assert(rb == 0) by (nonlinear_arith)
                        requires
                            b == 0,
                            rb == fb * b,
                    ;
                } else {
                    assert(b * (Q20 as int) >= Q20 as int) by (nonlinear_arith)
                        requires
                            b >= 1,
                    ;
                    assert(rb >= 0) by (nonlinear_arith)
                        requires
                            fb >= 0,
                            b >= 0,
                            rb == fb * b,
                    ;
                }
            } else {
                assert(a * (Q20 as int) <= b * (Q20 as int)) by (nonlinear_arith)
                    requires
                        a <= b,
                ;
                assert(a * (Q20 as int) >= Q20 as int) by (nonlinear_arith)
                    requires
                        a >= 1,
                ;
                assert(fa * a <= fb * b) by (nonlinear_arith)
                    requires
                        0 <= fa <= fb,
                        0 <= a <= b,
                ;
            }
        }
        vstd::arithmetic::div_mod::lemma_div_is_ordered(ra, rb, 5);
    }
}

impl Segmenter {
    fn find_uni(&self, w: &[u8]) -> (r: Option<u64>)
        requires
            self.wf(),
        ensures
            match r {
                Some(v) => self.uni_map().contains_key(w@) && self.uni_map()[w@] == v,
                None => !self.uni_map().contains_key(w@),
            },
    {
        find_in_uni(&self.unis, w)
    }

    fn find_bi(&self, p: &[u8], w: &[u8]) -> (r: Option<u64>)
        requires
            self.wf(),
        ensures
            match r {
                Some(v) => self.bi_map().contains_key((p@, w@)) && self.bi_map()[(p@, w@)] == v,
                None => !self.bi_map().contains_key((p@, w@)),
            },
    {
        let ghost vw = in_bi(self.bis@);
        let mut i: usize = 0;
        while i < self.bis.len()
            invariant
                i <= self.bis@.len(),
                vw == in_bi(self.bis@),
                unique_keys(vw),
                forall|j: int| 0 <= j < i ==> (#[trigger] vw[j]).0 != (p@, w@),
            decreases self.bis@.len() - i,
        {
            if bytes_eq(self.bis[i].0.0.as_slice(), p) && bytes_eq(self.bis[i].0.1.as_slice(), w) {
                proof {
                    assert(vw[i as int].0 == (p@, w@));
                    assert(vw[i as int].1 == self.bis@[i as int].1);
                    lemma_pairs_map_value(vw, i as int);
                }
                return Some(self.bis[i].1);
            }
            i += 1;
        }
        proof {
            lemma_pairs_map_contains(vw, (p@, w@));
        }
        None
    }
}

/// Linear scan of a unigram table.
fn find_in_uni(s: &Vec<(Vec<u8>, u64)>, w: &[u8]) -> (r: Option<u64>)
    requires
        unique_keys(in_uni(s@)),
    ensures
        match r {
            Some(v) => pairs_map(in_uni(s@)).contains_key(w@) && pairs_map(in_uni(s@))[w@] == v,
            None => !pairs_map(in_uni(s@)).contains_key(w@),
        },
{
    let ghost vw = in_uni(s@);
    let mut i: usize = 0;
    while i < s.len()
        invariant
            i <= s@.len(),
            vw == in_uni(s@),
            unique_keys(vw),
            forall|j: int| 0 <= j < i ==> (#[trigger] vw[j]).0 != w@,
        decreases s@.len() - i,
    {
        if bytes_eq(s[i].0.as_slice(), w) {
            proof {
                assert(vw[i as int].0 == w@);
                lemma_pairs_map_value(vw, i as int);
            }
            return Some(s[i].1);
        }
        i += 1;
    }
    proof {
        lemma_pairs_map_contains(vw, w@);
    }
    None
}

/// Sum of the scores of the first `i` sentence words, each in the context of
/// its predecessor.
pub open spec fn spec_sentence_sum(m: Segmenter, ws: Seq<Seq<u8>>, i: int) -> int
    decreases i,
{
    if i <= 0 {
        0
    } else {
        spec_sentence_sum(m, ws, i - 1) + spec_score(
            m,
            ws[i - 1],
            if i - 1 == 0 {
                None
            } else {
                Some(ws[i - 2])
            },
        )
    }
}

/// Total log-score of a known word sequence; `None` exactly for an empty one.
pub open spec fn spec_score_sentence(m: Segmenter, ws: Seq<Seq<u8>>) -> Option<int> {
    if ws.len() == 0 {
        None
    } else {
        Some(spec_sentence_sum(m, ws, ws.len() as int))
    }
}

/// Byte-sequence view of a word list.
pub open spec fn seq_words(v: Seq<Vec<u8>>) -> Seq<Seq<u8>> {
    v.map_values(|w: Vec<u8>| w@)
}

/// Out-of-vocabulary penalty.
fn penalty_score(total_log: u64, len: usize) -> (r: i64)
    ensures
        r == spec_penalty(total_log as int, len as nat),
{
    if len >= PENALTY_LEN_CAP {
        return -(PENALTY_FLOOR as i64);
    }
    if len == 0 {
        proof {
            assert((total_log + 0 * (Q20 as int) - (Q20 as int)) * 0 == 0) by (nonlinear_arith);
        }
        return 0;
    }
    proof {
        assert((len as int) * (Q20 as int) >= Q20 as int) by (nonlinear_arith)
            requires
                len >= 1,
        ;
        assert((len as int) * (Q20 as int) <= 1048576 * (Q20 as int)) by (nonlinear_arith)
            requires
                len <= 1048576,
        ;
        assert((total_log as int + (len as int) * (Q20 as int) - (Q20 as int)) * (len as int)
            <= 0x20000000000000000000 * 0x100000) by (nonlinear_arith)
            requires
                0 <= total_log as int + (len as int) * (Q20 as int) - (Q20 as int)
                    <= 0x20000000000000000000,
                0 <= len <= 0x100000,
        ;
    }
    let raw: u128 = ((total_log as u128) + (len as u128) * (Q20 as u128) - (Q20 as u128)) * (
    len as u128) / 5;
    if raw > PENALTY_FLOOR as u128 {
        -(PENALTY_FLOOR as i64)
    } else {
        -(raw as i64)
    }
}

impl Segmenter {
    /// Score `word` in the context of the `previous` word.
    pub(crate) fn score(&self, w: &[u8], prev: Option<&[u8]>) -> (r: i64)
        requires
            self.wf(),
        ensures
            r == spec_score(*self, w@, opt_view(prev)),
            -(PENALTY_FLOOR as i64) <= r <= 2 * (LOG_MAX as i64),
    {
        proof {
            lemma_score_bounds(*self, w@, opt_view(prev));
            self.lemma_wf_map_values();
        }
        match self.find_uni(w) {
            None => penalty_score(self.total_log, w.len()),
            Some(uraw) => {
                let base: i64 = uraw as i64 - self.total_log as i64;
                match prev {
                    Some(p) => {
                        match self.find_bi(p, w) {
                            Some(braw) => {
                                match self.find_uni(p) {
                                    Some(upraw) => (braw as i64 - self.bi_total_log as i64) - (
                                    upraw as i64 - self.total_log as i64),
                                    None => base,
                                }
                            },
                            None => base,
                        }
                    },
                    None => base,
                }
            },
        }
    }

    /// Total log-score of an already-segmented sentence, scoring each word in
    /// the context of its predecessor; `None` exactly for an empty sentence.
    pub fn score_sentence(&self, words: &Vec<Vec<u8>>) -> (r: Option<i128>)
        requires
            self.wf(),
        ensures
            match r {
                Some(v) => words@.len() > 0 && Some(v as int) == spec_score_sentence(
                    *self,
                    seq_words(words@),
                ),
                None => words@.len() == 0,
            },
    {
        if words.len() == 0 {
            return None;
        }
        let ghost ws = seq_words(words@);
        let mut acc: i128 = 0;
        let mut i: usize = 0;
        while i < words.len()
            invariant
                self.wf(),
                ws == seq_words(words@),
                i <= words@.len(),
                acc == spec_sentence_sum(*self, ws, i as int),
                -(i as int) * (PENALTY_FLOOR as int) <= acc <= (i as int) * (PENALTY_FLOOR as int),
            decreases words@.len() - i,
        {
            let sc: i64 = if i == 0 {
                self.score(words[i].as_slice(), None)
            } else {
                self.score(words[i].as_slice(), Some(words[i - 1].as_slice()))
            };
            proof {
                assert(ws[i as int] == words@[i as int]@);
                assert((i + 1) as int * (PENALTY_FLOOR as int) == (i as int) * (PENALTY_FLOOR as int)
                    + (PENALTY_FLOOR as int)) by (nonlinear_arith);
                assert((i as int) * (PENALTY_FLOOR as int) <= 0x10000000000000000 * (
                PENALTY_FLOOR as int)) by (nonlinear_arith)
                    requires
                        0 <= i as int <= 0x10000000000000000,
                ;
            }
            acc = acc + sc as i128;
            i += 1;
        }
        Some(acc)
    }

    /// The configured maximum candidate word length.
    pub fn limit_val(&self) -> (r: usize)
        ensures
            r == self.limit(),
    {
        self.limit
    }

    /// Customize the maximum candidate word length.
    pub fn set_limit(&mut self, limit: usize)
        ensures
            final (self).limit() == limit,
            final (self).uni_map() == old(self).uni_map(),
            final (self).bi_map() == old(self).bi_map(),
            final (self).total_log() == old(self).total_log(),
            final (self).bi_total_log() == old(self).bi_total_log(),
            old(self).wf() ==> final (self).wf(),
    {
        self.limit = limit;
    }

    /// Customize the relative score by setting the unigram `total` the model
    /// normalizes against.
    pub fn set_total(&mut self, total: u128)
        requires
            total >= 1,
        ensures
            final (self).total_log() == spec_total_log(total as int),
            final (self).limit() == old(self).limit(),
            final (self).uni_map() == old(self).uni_map(),
            final (self).bi_map() == old(self).bi_map(),
            final (self).bi_total_log() == old(self).bi_total_log(),
            old(self).wf() ==> final (self).wf(),
    {
        self.total_log = log10_q20(total);
    }
}

/// A prefix of the unigram input, viewed: one step of construction.
proof fn lemma_take_step_uni(s: Seq<(Vec<u8>, u64)>, i: int)
    requires
        0 <= i < s.len(),
    ensures
        in_uni(s.take(i + 1)).drop_last() =~= in_uni(s.take(i)),
        in_uni(s.take(i + 1)).last() == (s[i].0@, s[i].1),
        pairs_map(in_uni(s.take(i + 1))) == pairs_map(in_uni(s.take(i))).insert(s[i].0@, s[i].1),
        pairs_total(in_uni(s.take(i + 1))) == pairs_total(in_uni(s.take(i))) + s[i].1,
{
    assert(in_uni(s.take(i + 1)).drop_last() =~= in_uni(s.take(i)));
    assert(in_uni(s.take(i + 1)).last() == (s[i].0@, s[i].1));
    assert(pairs_map(in_uni(s.take(i + 1))) == pairs_map(in_uni(s.take(i + 1)).drop_last()).insert(
        in_uni(s.take(i + 1)).last().0,
        in_uni(s.take(i + 1)).last().1,
    ));
    assert(pairs_total(in_uni(s.take(i + 1))) == pairs_total(in_uni(s.take(i + 1)).drop_last())
        + in_uni(s.take(i + 1)).last().1);
}

/// A prefix of the bigram input, viewed and filtered: one step.
proof fn lemma_take_step_bi(s: Seq<((Vec<u8>, Vec<u8>), u64)>, i: int, cm: Map<Seq<u8>, u64>)
    requires
        0 <= i < s.len(),
    ensures
        in_bi(s.take(i + 1)).drop_last() =~= in_bi(s.take(i)),
        in_bi(s.take(i + 1)).last() == ((s[i].0.0@, s[i].0.1@), s[i].1),
        cm.contains_key(s[i].0.1@) && cm[s[i].0.1@] > 0 ==> bi_kept(in_bi(s.take(i + 1)), cm)
            == bi_kept(in_bi(s.take(i)), cm).push(((s[i].0.0@, s[i].0.1@), s[i].1)),
        !(cm.contains_key(s[i].0.1@) && cm[s[i].0.1@] > 0) ==> bi_kept(in_bi(s.take(i + 1)), cm)
            == bi_kept(in_bi(s.take(i)), cm),
{
    assert(in_bi(s.take(i + 1)).drop_last() =~= in_bi(s.take(i)));
    assert(in_bi(s.take(i + 1)).last() == ((s[i].0.0@, s[i].0.1@), s[i].1));
    assert(in_bi(s.take(i + 1)).len() == i + 1);
}

/// Find the entry holding word `w` in a unigram table.
fn find_idx_uni(s: &Vec<(Vec<u8>, u64)>, w: &[u8]) -> (r: Option<usize>)
    ensures
        match r {
            Some(j) => j < s@.len() && in_uni(s@)[j as int].0 == w@,
            None => forall|j: int| 0 <= j < s@.len() ==> (#[trigger] in_uni(s@)[j]).0 != w@,
        },
{
    let mut i: usize = 0;
    while i < s.len()
        invariant
            i <= s@.len(),
            forall|j: int| 0 <= j < i ==> (#[trigger] in_uni(s@)[j]).0 != w@,
        decreases s@.len() - i,
    {
        if bytes_eq(s[i].0.as_slice(), w) {
            proof {
                assert(in_uni(s@)[i as int].0 == w@);
            }
            return Some(i);
        }
        i += 1;
    }
    None
}

/// Find the entry holding pair `(p, w)` in a bigram table.
fn find_idx_bi(s: &Vec<((Vec<u8>, Vec<u8>), u64)>, p: &[u8], w: &[u8]) -> (r: Option<usize>)
    ensures
        match r {
            Some(j) => j < s@.len() && in_bi(s@)[j as int].0 == (p@, w@),
            None => forall|j: int| 0 <= j < s@.len() ==> (#[trigger] in_bi(s@)[j]).0 != (p@, w@),
        },
{
    let mut i: usize = 0;
    while i < s.len()
        invariant
            i <= s@.len(),
            forall|j: int| 0 <= j < i ==> (#[trigger] in_bi(s@)[j]).0 != (p@, w@),
        decreases s@.len() - i,
    {
        if bytes_eq(s[i].0.0.as_slice(), p) && bytes_eq(s[i].0.1.as_slice(), w) {
            proof {
                assert(in_bi(s@)[i as int].0 == (p@, w@));
            }
            return Some(i);
        }
        i += 1;
    }
    None
}

/// First construction pass: fold the raw unigram pairs into a table with
/// distinct words (a later pair overrides an earlier one) and sum the total
/// corpus weight.
fn build_uni_counts(unigrams: &Vec<(Vec<u8>, u64)>) -> (r: (Vec<(Vec<u8>, u64)>, u128))
    ensures
        unique_keys(in_uni(r.0@)),
        pairs_map(in_uni(r.0@)) == pairs_map(in_uni(unigrams@)),
        r.1 == pairs_total(in_uni(unigrams@)),
{
    let mut cu: Vec<(Vec<u8>, u64)> = Vec::new();
    let mut tot: u128 = 0;
    let mut i: usize = 0;
    while i < unigrams.len()
        invariant
            i <= unigrams@.len(),
            unique_keys(in_uni(cu@)),
            pairs_map(in_uni(cu@)) == pairs_map(in_uni(unigrams@.take(i as int))),
            tot == pairs_total(in_uni(unigrams@.take(i as int))),
            tot <= (i as int) * 0xffffffffffffffff,
        decreases unigrams@.len() - i,
    {
        let w = clone_bytes(&unigrams[i].0);
        let c = unigrams[i].1;
        proof {
            lemma_take_step_uni(unigrams@, i as int);
            assert((i as int) * 0xffffffffffffffff + 0xffffffffffffffff == ((i + 1) as int)
                * 0xffffffffffffffff) by (nonlinear_arith);
            assert(((i + 1) as int) * 0xffffffffffffffff <= 0x10000000000000000
                * 0xffffffffffffffff) by (nonlinear_arith)
                requires
                    0 <= (i + 1) as int <= 0x10000000000000000,
            ;
        }
        tot = tot + c as u128;
        let ghost oldview = in_uni(cu@);
        match find_idx_uni(&cu, w.as_slice()) {
            Some(j) => {
                proof {
                    lemma_pairs_map_update(oldview, j as int, c);
                }
                cu[j] = (w, c);
                proof {
                    assert(in_uni(cu@) =~= oldview.update(j as int, (oldview[j as int].0, c)));
                }
            },
            None => {
                proof {
                    lemma_unique_push(oldview, (w@, c));
                }
                cu.push((w, c));
                proof {
                    assert(in_uni(cu@) =~= oldview.push((w@, c)));
                }
            },
        }
        i += 1;
    }
    proof {
        assert(unigrams@.take(unigrams@.len() as int) =~= unigrams@);
    }
    (cu, tot)
}

/// Second construction pass: keep the bigram pairs whose second word has a
/// positive count, fold them into a table with distinct pairs, and sum their
/// weight.
fn build_bi_counts(bigrams: &Vec<((Vec<u8>, Vec<u8>), u64)>, cu: &Vec<(Vec<u8>, u64)>) -> (r: (
    Vec<((Vec<u8>, Vec<u8>), u64)>,
    u128,
))
    requires
        unique_keys(in_uni(cu@)),
    ensures
        unique_keys(in_bi(r.0@)),
        pairs_map(in_bi(r.0@)) == pairs_map(bi_kept(in_bi(bigrams@), pairs_map(in_uni(cu@)))),
        r.1 == pairs_total(bi_kept(in_bi(bigrams@), pairs_map(in_uni(cu@)))),
{
    let ghost cm = pairs_map(in_uni(cu@));
    let mut cb: Vec<((Vec<u8>, Vec<u8>), u64)> = Vec::new();
    let mut tot: u128 = 0;
    let mut i: usize = 0;
    while i < bigrams.len()
        invariant
            i <= bigrams@.len(),
            cm == pairs_map(in_uni(cu@)),
            unique_keys(in_uni(cu@)),
            unique_keys(in_bi(cb@)),
            pairs_map(in_bi(cb@)) == pairs_map(bi_kept(in_bi(bigrams@.take(i as int)), cm)),
            tot == pairs_total(bi_kept(in_bi(bigrams@.take(i as int)), cm)),
            tot <= (i as int) * 0xffffffffffffffff,
        decreases bigrams@.len() - i,
    {
        proof {
            lemma_take_step_bi(bigrams@, i as int, cm);
            assert((i as int) * 0xffffffffffffffff + 0xffffffffffffffff == ((i + 1) as int)
                * 0xffffffffffffffff) by (nonlinear_arith);
            assert(((i + 1) as int) * 0xffffffffffffffff <= 0x10000000000000000
                * 0xffffffffffffffff) by (nonlinear_arith)
                requires
                    0 <= (i + 1) as int <= 0x10000000000000000,
            ;
        }
        let ghost w2 = bigrams@[i as int].0.1@;
        let in_vocab: bool = match find_idx_uni(cu, bigrams[i].0.1.as_slice()) {
            Some(j) => {
                proof {
                    lemma_pairs_map_value(in_uni(cu@), j as int);
                    assert(in_uni(cu@)[j as int].0 == w2);
                }
                cu[j].1 > 0
            },
            None => {
                proof {
                    lemma_pairs_map_contains(in_uni(cu@), w2);
                }
                false
            },
        };
        proof {
            assert(in_vocab == (cm.contains_key(w2) && cm[w2] > 0));
        }
        let ghost kold = bi_kept(in_bi(bigrams@.take(i as int)), cm);
        let ghost knew = bi_kept(in_bi(bigrams@.take(i as int + 1)), cm);
        if in_vocab {
            let p = clone_bytes(&bigrams[i].0.0);
            let w = clone_bytes(&bigrams[i].0.1);
            let c = bigrams[i].1;
            proof {
                assert(knew == kold.push(((p@, w@), c)));
                assert(knew.drop_last() =~= kold);
                assert(pairs_map(knew) == pairs_map(kold).insert((p@, w@), c));
                assert(pairs_total(knew) == pairs_total(kold) + c);
            }
            tot = tot + c as u128;
            let ghost oldview = in_bi(cb@);
            match find_idx_bi(&cb, p.as_slice(), w.as_slice()) {
                Some(j) => {
                    proof {
                        lemma_pairs_map_update(oldview, j as int, c);
                    }
                    cb[j] = ((p, w), c);
                    proof {
                        assert(in_bi(cb@) =~= oldview.update(j as int, (oldview[j as int].0, c)));
                    }
                },
                None => {
                    proof {
                        lemma_unique_push(oldview, ((p@, w@), c));
                    }
                    cb.push(((p, w), c));
                    proof {
                        assert(in_bi(cb@) =~= oldview.push(((p@, w@), c)));
                    }
                },
            }
        } else {
            proof {
                assert(knew == kold);
            }
        }
        i += 1;
    }
    proof {
        assert(bigrams@.take(bigrams@.len() as int) =~= bigrams@);
    }
    (cb, tot)
}

/// Third construction pass: drop zero-weight words and take the logarithm of
/// each remaining count.
fn build_uni_logs(cu: &Vec<(Vec<u8>, u64)>) -> (r: Vec<(Vec<u8>, u64)>)
    requires
        unique_keys(in_uni(cu@)),
    ensures
        unique_keys(in_uni(r@)),
        pairs_map(in_uni(r@)) == spec_log_map(pairs_map(in_uni(cu@))),
        forall|i: int| 0 <= i < r@.len() ==> (#[trigger] r@[i]).1 <= LOG_MAX,
{
    let mut out: Vec<(Vec<u8>, u64)> = Vec::new();
    let mut i: usize = 0;
    while i < cu.len()
        invariant
            i <= cu@.len(),
            unique_keys(in_uni(cu@)),
            unique_keys(in_uni(out@)),
            pairs_map(in_uni(out@)) == spec_log_map(pairs_map(in_uni(cu@.take(i as int)))),
            forall|j: int| 0 <= j < out@.len() ==> (#[trigger] out@[j]).1 <= LOG_MAX,
        decreases cu@.len() - i,
    {
        let ghost cmp = pairs_map(in_uni(cu@.take(i as int)));
        let ghost key = cu@[i as int].0@;
        proof {
            lemma_take_step_uni(cu@, i as int);
            // distinct table keys: this word is not in the prefix map
            lemma_pairs_map_contains(in_uni(cu@.take(i as int)), key);
            if cmp.contains_key(key) {
                let j = choose|j: int|
                    0 <= j < in_uni(cu@.take(i as int)).len() && (#[trigger] in_uni(
                        cu@.take(i as int),
                    )[j]).0 == key;
                assert(in_uni(cu@)[j].0 == in_uni(cu@)[i as int].0);
                assert(false);
            }
        }
        let c = cu[i].1;
        if c > 0 {
            let w = clone_bytes(&cu[i].0);
            let lg = log10_q20(c as u128);
            let ghost oldview = in_uni(out@);
            proof {
                // the fresh key is not among the output keys either
                assert forall|j: int| 0 <= j < oldview.len() implies (#[trigger] oldview[j]).0
                    != w@ by {
                    crate::table::lemma_pairs_map_key_of_entry(oldview, j);
                }
                lemma_unique_push(oldview, (w@, lg));
            }
            out.push((w, lg));
            proof {
                assert(in_uni(out@) =~= oldview.push((w@, lg)));
                assert(spec_log_map(cmp.insert(key, c)) =~= spec_log_map(cmp).insert(w@, lg));
            }
        } else {
            proof {
                assert(spec_log_map(cmp.insert(key, c)) =~= spec_log_map(cmp));
            }
        }
        i += 1;
    }
    proof {
        assert(cu@.take(cu@.len() as int) =~= cu@);
    }
    out
}

/// Third construction pass for the bigram table.
fn build_bi_logs(cb: &Vec<((Vec<u8>, Vec<u8>), u64)>) -> (r: Vec<((Vec<u8>, Vec<u8>), u64)>)
    requires
        unique_keys(in_bi(cb@)),
    ensures
        unique_keys(in_bi(r@)),
        pairs_map(in_bi(r@)) == spec_log_map(pairs_map(in_bi(cb@))),
        forall|i: int| 0 <= i < r@.len() ==> (#[trigger] r@[i]).1 <= LOG_MAX,
{
    let mut out: Vec<((Vec<u8>, Vec<u8>), u64)> = Vec::new();
    let mut i: usize = 0;
    while i < cb.len()
        invariant
            i <= cb@.len(),
            unique_keys(in_bi(cb@)),
            unique_keys(in_bi(out@)),
            pairs_map(in_bi(out@)) == spec_log_map(pairs_map(in_bi(cb@.take(i as int)))),
            forall|j: int| 0 <= j < out@.len() ==> (#[trigger] out@[j]).1 <= LOG_MAX,
        decreases cb@.len() - i,
    {
        let ghost cmp = pairs_map(in_bi(cb@.take(i as int)));
        let ghost key = (cb@[i as int].0.0@, cb@[i as int].0.1@);
        proof {
            assert(in_bi(cb@.take(i + 1)).drop_last() =~= in_bi(cb@.take(i as int)));
            assert(in_bi(cb@.take(i + 1)).last() == (key, cb@[i as int].1));
            lemma_pairs_map_contains(in_bi(cb@.take(i as int)), key);
            if cmp.contains_key(key) {
                let j = choose|j: int|
                    0 <= j < in_bi(cb@.take(i as int)).len() && (#[trigger] in_bi(
                        cb@.take(i as int),
                    )[j]).0 == key;
                assert(in_bi(cb@)[j].0 == in_bi(cb@)[i as int].0);
                assert(false);
            }
        }
        let c = cb[i].1;
        if c > 0 {
            let p = clone_bytes(&cb[i].0.0);
            let w = clone_bytes(&cb[i].0.1);
            let lg = log10_q20(c as u128);
            let ghost oldview = in_bi(out@);
            proof {
                assert forall|j: int| 0 <= j < oldview.len() implies (#[trigger] oldview[j]).0
                    != (p@, w@) by {
                    crate::table::lemma_pairs_map_key_of_entry(oldview, j);
                }
                lemma_unique_push(oldview, ((p@, w@), lg));
            }
            out.push(((p, w), lg));
            proof {
                assert(in_bi(out@) =~= oldview.push(((p@, w@), lg)));
                assert(spec_log_map(cmp.insert(key, c)) =~= spec_log_map(cmp).insert(
                    (p@, w@),
                    lg,
                ));
            }
        } else {
            proof {
                assert(spec_log_map(cmp.insert(key, c)) =~= spec_log_map(cmp));
            }
        }
        i += 1;
    }
    proof {
        assert(cb@.take(cb@.len() as int) =~= cb@);
    }
    out
}

impl Segmenter {
    /// Create a `Segmenter` from raw unigram and bigram counts.
    ///
    /// A later pair overrides an earlier one with the same key; zero-weight
    /// entries are discarded, as are bigrams whose second word is not in the
    /// vocabulary.  The totals sum every given weight (bigrams: every kept
    /// weight), duplicates included.
    pub fn new(unigrams: Vec<(Vec<u8>, u64)>, bigrams: Vec<((Vec<u8>, Vec<u8>), u64)>) -> (r:
        Segmenter)
        ensures
            r.wf(),
            r.limit() == DEFAULT_LIMIT,
            r.uni_map() == spec_log_map(pairs_map(in_uni(unigrams@))),
            r.total_log() == spec_total_log(pairs_total(in_uni(unigrams@))),
            r.bi_map() == spec_log_map(
                pairs_map(bi_kept(in_bi(bigrams@), pairs_map(in_uni(unigrams@)))),
            ),
            r.bi_total_log() == spec_total_log(
                pairs_total(bi_kept(in_bi(bigrams@), pairs_map(in_uni(unigrams@)))),
            ),
    {
        let (cu, tot) = build_uni_counts(&unigrams);
        let (cb, btot) = build_bi_counts(&bigrams, &cu);
        let total_log: u64 = if tot >= 1 {
            log10_q20(tot)
        } else {
            0
        };
        let bi_total_log: u64 = if btot >= 1 {
            log10_q20(btot)
        } else {
            0
        };
        let unis = build_uni_logs(&cu);
        let bis = build_bi_logs(&cb);
        Segmenter { unis, bis, total_log, bi_total_log, limit: DEFAULT_LIMIT }
    }

    /// Create a `Segmenter` from iterated unigram and bigram counts; the same
    /// construction as [`Segmenter::new`].
    pub fn from_iters(unigrams: Vec<(Vec<u8>, u64)>, bigrams: Vec<((Vec<u8>, Vec<u8>), u64)>) -> (r:
        Segmenter)
        ensures
            r.wf(),
            r.limit() == DEFAULT_LIMIT,
            r.uni_map() == spec_log_map(pairs_map(in_uni(unigrams@))),
            r.total_log() == spec_total_log(pairs_total(in_uni(unigrams@))),
            r.bi_map() == spec_log_map(
                pairs_map(bi_kept(in_bi(bigrams@), pairs_map(in_uni(unigrams@)))),
            ),
            r.bi_total_log() == spec_total_log(
                pairs_total(bi_kept(in_bi(bigrams@), pairs_map(in_uni(unigrams@)))),
            ),
    {
        Segmenter::new(unigrams, bigrams)
    }
}

} // verus!
