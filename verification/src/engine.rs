//! The memoized best-path search and the window driver.
//!
//! `search` tries every candidate first-word length at a position, scores it
//! against the model, and recurses on the remainder; sub-results are memoized
//! per window.  `run` drives the search over fixed-size windows so that memory
//! and recursion depth stay bounded for input of any length, discarding the
//! last few split decisions of every window that does not reach the end of
//! the input and re-deriving them in the next, overlapping window.

use vstd::prelude::*;

use crate::ascii::{all_valid, Ascii, InvalidCharacter};
use crate::model::{seq_words, spec_score, Segmenter, PENALTY_FLOOR};
use crate::splitset::{SplitSet, SPLIT_CAP};
use std::collections::HashMap;
use vstd::slice::slice_subrange;
use vstd::string::StringSliceAdditionalSpecFns;

verus! {

/// Length of one search window.
pub const WINDOW_SIZE: usize = 250;

/// How many trailing split decisions of a window are discarded and re-derived
/// in the next window, when more input remains.
pub const TAIL_DISCARD: usize = 5;

/// Score of a range no candidate split covers; only a zero word-length limit
/// produces it.
pub const SCORE_SENTINEL: i64 = i64::MIN;

/// Candidate total at position `lo`: the first word is `t[lo..lo + k]`, the
/// rest of the window is decomposed as well as possible after it.
pub open spec fn sc_total(m: Segmenter, t: Seq<u8>, lo: int, k: int, prev: Option<Seq<u8>>) -> int
    decreases t.len() - lo, 0int, 0int,
{
    if 1 <= k && 0 <= lo && lo + k <= t.len() {
        spec_score(m, t.subrange(lo, lo + k), prev) + seg_best(
            m,
            t,
            lo + k,
            Some(t.subrange(lo, lo + k)),
        )
    } else {
        0
    }
}

/// Best candidate total among first-word lengths `1..=k`.
pub open spec fn best_pre(m: Segmenter, t: Seq<u8>, lo: int, prev: Option<Seq<u8>>, k: int) -> int
    decreases t.len() - lo, 1int, k,
{
    if 1 <= k && 0 <= lo && lo + k <= t.len() {
        if k == 1 {
            sc_total(m, t, lo, 1, prev)
        } else {
            let rest = best_pre(m, t, lo, prev, k - 1);
            let cur = sc_total(m, t, lo, k, prev);
            if cur > rest {
                cur
            } else {
                rest
            }
        }
    } else {
        0
    }
}

/// The first-word length the search commits to among `1..=k`: the smallest
/// one reaching the maximum, because only a strict improvement replaces the
/// best seen so far.
pub open spec fn choice_pre(m: Segmenter, t: Seq<u8>, lo: int, prev: Option<Seq<u8>>, k: int) -> int
    decreases t.len() - lo, 2int, k,
{
    if 1 <= k && 0 <= lo && lo + k <= t.len() {
        if k == 1 {
            1
        } else {
            if sc_total(m, t, lo, k, prev) > best_pre(m, t, lo, prev, k - 1) {
                k
            } else {
                choice_pre(m, t, lo, prev, k - 1)
            }
        }
    } else {
        1
    }
}

/// Number of candidate first-word lengths at position `lo`.
pub open spec fn split_budget(m: Segmenter, t: Seq<u8>, lo: int) -> int {
    if t.len() - lo < m.limit() {
        t.len() - lo
    } else {
        m.limit() as int
    }
}

/// Best achievable total score for the window suffix starting at `lo`, given
/// the previous word; the empty suffix scores zero.
pub open spec fn seg_best(m: Segmenter, t: Seq<u8>, lo: int, prev: Option<Seq<u8>>) -> int
    decreases t.len() - lo, 3int, 0int,
{
    if !(0 <= lo <= t.len()) {
        0
    } else if lo == t.len() {
        0
    } else if m.limit() < 1 {
        SCORE_SENTINEL as int
    } else {
        best_pre(m, t, lo, prev, split_budget(m, t, lo))
    }
}

/// The split offsets of the winning decomposition of the window suffix at
/// `lo`: ascending, ending at the window end.
pub open spec fn seg_path(m: Segmenter, t: Seq<u8>, lo: int, prev: Option<Seq<u8>>) -> Seq<int>
    decreases t.len() - lo, 4int, 0int,
{
    if !(0 <= lo < t.len()) || m.limit() < 1 {
        Seq::empty()
    } else {
        let k0 = choice_pre(m, t, lo, prev, split_budget(m, t, lo));
        let k = if k0 < 1 {
            1
        } else if k0 > t.len() - lo {
            t.len() - lo
        } else {
            k0
        };
        seq![lo + k] + seg_path(m, t, lo + k, Some(t.subrange(lo, lo + k)))
    }
}

/// The words a split sequence carves out of the window, left to right.
pub open spec fn path_words(t: Seq<u8>, lo: int, p: Seq<int>) -> Seq<Seq<u8>>
    decreases p.len(),
{
    if p.len() == 0 {
        Seq::empty()
    } else {
        seq![t.subrange(lo, p[0])] + path_words(t, p[0], p.drop_first())
    }
}

/// Everything the window driver commits, walking the text from `start`: per
/// window the winning split sequence, minus its discarded tail when more
/// input remains.
pub open spec fn spec_drive(m: Segmenter, t: Seq<u8>, start: int) -> Seq<Seq<u8>>
    decreases t.len() - start,
{
    if !(0 <= start < t.len()) {
        Seq::empty()
    } else {
        let wlen = if t.len() - start < WINDOW_SIZE {
            t.len() - start
        } else {
            WINDOW_SIZE as int
        };
        let wt = t.subrange(start, start + wlen);
        let p = seg_path(m, wt, 0, None);
        if p.len() == 0 {
            Seq::empty()
        } else {
            let ncommit = if start + wlen == t.len() {
                p.len() as int
            } else if p.len() > TAIL_DISCARD {
                p.len() - TAIL_DISCARD
            } else {
                1
            };
            let adv0 = p[ncommit - 1];
            let adv = if adv0 < 1 {
                1
            } else if adv0 > wlen {
                wlen
            } else {
                adv0
            };
            path_words(wt, 0, p.take(ncommit)) + spec_drive(m, t, start + adv)
        }
    }
}

/// The full segmentation of a validated text.
pub open spec fn spec_segmentation(m: Segmenter, t: Seq<u8>) -> Seq<Seq<u8>> {
    spec_drive(m, t, 0)
}

/// The committed first-word length always lies in `1..=k`.
pub proof fn lemma_choice_pre_range(
    m: Segmenter,
    t: Seq<u8>,
    lo: int,
    prev: Option<Seq<u8>>,
    k: int,
)
    ensures
        1 <= choice_pre(m, t, lo, prev, k),
        1 <= k ==> choice_pre(m, t, lo, prev, k) <= k,
        k < 1 ==> choice_pre(m, t, lo, prev, k) == 1,
    decreases k,
{
    if 1 <= k && 0 <= lo && lo + k <= t.len() && k > 1 {
        lemma_choice_pre_range(m, t, lo, prev, k - 1);
    }
}

/// The committed choice achieves the best total.
pub proof fn lemma_choice_achieves_best(
    m: Segmenter,
    t: Seq<u8>,
    lo: int,
    prev: Option<Seq<u8>>,
    k: int,
)
    requires
        1 <= k,
        0 <= lo,
        lo + k <= t.len(),
    ensures
        sc_total(m, t, lo, choice_pre(m, t, lo, prev, k), prev) == best_pre(m, t, lo, prev, k),
    decreases k,
{
    if k > 1 {
        lemma_choice_achieves_best(m, t, lo, prev, k - 1);
    }
}

/// Score bounds: a window suffix of `n` remaining bytes scores within
/// `n * PENALTY_FLOOR` of zero.
pub proof fn lemma_seg_best_bounds(m: Segmenter, t: Seq<u8>, lo: int, prev: Option<Seq<u8>>)
    requires
        m.wf(),
        m.limit() >= 1,
        0 <= lo <= t.len(),
    ensures
        -(t.len() - lo) * (PENALTY_FLOOR as int) <= seg_best(m, t, lo, prev) <= (t.len() - lo) * (
        PENALTY_FLOOR as int),
    decreases t.len() - lo, 3int, 0int,
{
    if lo == t.len() {
        assert((t.len() - lo) * (PENALTY_FLOOR as int) == 0);
    } else {
        lemma_best_pre_bounds(m, t, lo, prev, split_budget(m, t, lo));
    }
}

/// Bound on one candidate total and on the running best.
pub proof fn lemma_best_pre_bounds(m: Segmenter, t: Seq<u8>, lo: int, prev: Option<Seq<u8>>, k: int)
    requires
        m.wf(),
        m.limit() >= 1,
        0 <= lo,
        1 <= k,
        lo + k <= t.len(),
    ensures
        -(t.len() - lo) * (PENALTY_FLOOR as int) <= sc_total(m, t, lo, k, prev) <= (t.len() - lo) * (
        PENALTY_FLOOR as int),
        -(t.len() - lo) * (PENALTY_FLOOR as int) <= best_pre(m, t, lo, prev, k) <= (t.len() - lo) * (
        PENALTY_FLOOR as int),
    decreases t.len() - lo, 1int, k,
{
    let pf = PENALTY_FLOOR as int;
    let n = t.len() - lo;
    crate::model::lemma_score_bounds(m, t.subrange(lo, lo + k), prev);
    assert(2 * crate::fixlog::LOG_MAX < pf);
    lemma_seg_best_bounds(m, t, lo + k, Some(t.subrange(lo, lo + k)));
    assert((t.len() - (lo + k)) * pf <= (n - 1) * pf) by (nonlinear_arith)
        requires
            t.len() - (lo + k) <= n - 1,
            pf > 0,
    ;
    assert(n * pf == (n - 1) * pf + pf) by (nonlinear_arith);
    if k > 1 {
        lemma_best_pre_bounds(m, t, lo, prev, k - 1);
    }
}

/// Shape of the winning path: ascending offsets after `lo`, closing the
/// window.
pub proof fn lemma_seg_path_shape(m: Segmenter, t: Seq<u8>, lo: int, prev: Option<Seq<u8>>)
    requires
        m.limit() >= 1,
        0 <= lo <= t.len(),
    ensures
        lo == t.len() ==> seg_path(m, t, lo, prev).len() == 0,
        lo < t.len() ==> seg_path(m, t, lo, prev).len() >= 1,
        forall|i: int|
            0 <= i < seg_path(m, t, lo, prev).len() ==> lo < #[trigger] seg_path(m, t, lo, prev)[i]
                <= t.len(),
        forall|i: int, j: int|
            0 <= i < j < seg_path(m, t, lo, prev).len() ==> seg_path(m, t, lo, prev)[i] < seg_path(
                m,
                t,
                lo,
                prev,
            )[j],
        lo < t.len() ==> seg_path(m, t, lo, prev).last() == t.len(),
    decreases t.len() - lo,
{
    if lo < t.len() {
        let budget = split_budget(m, t, lo);
        lemma_choice_pre_range(m, t, lo, prev, budget);
        let k0 = choice_pre(m, t, lo, prev, budget);
        let k = if k0 < 1 {
            1
        } else if k0 > t.len() - lo {
            t.len() - lo
        } else {
            k0
        };
        let rest = seg_path(m, t, lo + k, Some(t.subrange(lo, lo + k)));
        lemma_seg_path_shape(m, t, lo + k, Some(t.subrange(lo, lo + k)));
        let p = seg_path(m, t, lo, prev);
        assert(p == seq![lo + k] + rest);
        assert(p[0] == lo + k);
        assert(forall|i: int| 1 <= i < p.len() ==> p[i] == rest[i - 1]);
        if lo + k == t.len() {
            assert(rest.len() == 0);
            assert(p.last() == t.len());
        } else {
            assert(p.last() == rest.last());
        }
    }
}

/// Two strictly ascending sequences with the same members are the same
/// sequence.
pub proof fn lemma_sorted_same_elems(a: Seq<int>, b: Seq<int>)
    requires
        forall|i: int, j: int| 0 <= i < j < a.len() ==> a[i] < a[j],
        forall|i: int, j: int| 0 <= i < j < b.len() ==> b[i] < b[j],
        forall|x: int| a.contains(x) <==> b.contains(x),
    ensures
        a == b,
    decreases a.len(),
{
    if a.len() == 0 {
        if b.len() > 0 {
            assert(b.contains(b[0]));
        }
        assert(a =~= b);
    } else {
        assert(a.contains(a[0]));
        assert(b.contains(a[0]));
        if b.len() == 0 {
            assert(false);
        }
        assert(b.contains(b[0]));
        assert(a.contains(b[0]));
        let ia = choose|i: int| 0 <= i < a.len() && a[i] == b[0];
        let ib = choose|i: int| 0 <= i < b.len() && b[i] == a[0];
        assert(a[0] <= a[ia] && b[0] <= b[ib]) by {
            if ia > 0 {
                assert(a[0] < a[ia]);
            }
            if ib > 0 {
                assert(b[0] < b[ib]);
            }
        }
        assert(a[0] == b[0]);
        let at = a.drop_first();
        let bt = b.drop_first();
        assert(forall|i: int, j: int| 0 <= i < j < at.len() ==> at[i] < at[j]) by {
            assert(forall|i: int| 0 <= i < at.len() ==> at[i] == a[i + 1]);
        }
        assert(forall|i: int, j: int| 0 <= i < j < bt.len() ==> bt[i] < bt[j]) by {
            assert(forall|i: int| 0 <= i < bt.len() ==> bt[i] == b[i + 1]);
        }
        assert forall|x: int| at.contains(x) <==> bt.contains(x) by {
            lemma_tail_contains(a, x);
            lemma_tail_contains(b, x);
        }
        lemma_sorted_same_elems(at, bt);
        assert(forall|i: int| 1 <= i < a.len() ==> a[i] == at[i - 1]);
        assert(forall|i: int| 1 <= i < b.len() ==> b[i] == bt[i - 1]);
        assert(a =~= b);
    }
}

/// For a strictly ascending sequence, the tail holds exactly the members
/// greater than the head.
proof fn lemma_tail_contains(a: Seq<int>, x: int)
    requires
        a.len() >= 1,
        forall|i: int, j: int| 0 <= i < j < a.len() ==> a[i] < a[j],
    ensures
        a.drop_first().contains(x) <==> (a.contains(x) && x > a[0]),
{
    let at = a.drop_first();
    if at.contains(x) {
        let i = choose|i: int| 0 <= i < at.len() && at[i] == x;
        assert(a[i + 1] == x);
        assert(a[0] < a[i + 1]);
        assert(a.contains(x));
    } else if a.contains(x) && x > a[0] {
        let i = choose|i: int| 0 <= i < a.len() && a[i] == x;
        assert(i != 0);
        assert(at[i - 1] == x);
    }
}

/// Splitting one more word off extends the word list by one.
pub proof fn lemma_path_words_push(t: Seq<u8>, lo: int, p: Seq<int>, b: int)
    ensures
        path_words(t, lo, p.push(b)) == path_words(t, lo, p).push(
            t.subrange(
                if p.len() == 0 {
                    lo
                } else {
                    p.last()
                },
                b,
            ),
        ),
    decreases p.len(),
{
    let q = p.push(b);
    if p.len() == 0 {
        assert(q[0] == b);
        assert(q.drop_first() =~= Seq::<int>::empty());
        assert(path_words(t, b, Seq::<int>::empty()) =~= Seq::<Seq<u8>>::empty());
        assert(path_words(t, lo, q) == seq![t.subrange(lo, b)] + path_words(t, b, q.drop_first()));
        assert(path_words(t, lo, p) =~= Seq::<Seq<u8>>::empty());
        assert(path_words(t, lo, q) =~= path_words(t, lo, p).push(t.subrange(lo, b)));
    } else {
        assert(q[0] == p[0]);
        assert(q.drop_first() =~= p.drop_first().push(b));
        lemma_path_words_push(t, p[0], p.drop_first(), b);
        assert(p.drop_first().len() == 0 ==> p.last() == p[0]);
        assert(p.drop_first().len() > 0 ==> p.drop_first().last() == p.last());
        assert(path_words(t, lo, q) =~= path_words(t, lo, p).push(
            t.subrange(
                if p.len() == 0 {
                    lo
                } else {
                    p.last()
                },
                b,
            ),
        ));
    }
}

broadcast use vstd::std_specs::hash::group_hash_axioms;

/// One memoized sub-result: the best score of a window suffix and the split
/// set of its winning decomposition.
#[derive(Clone, Copy)]
struct MemoEntry {
    score: i64,
    splits: SplitSet,
}

/// What a memo entry for suffix start `clo` and previous-word start `plo`
/// asserts about the window `t`.
spec fn memo_entry_ok(e: MemoEntry, clo: int, plo: int, m: Segmenter, t: Seq<u8>) -> bool {
    &&& 0 <= plo < clo <= t.len()
    &&& e.score == seg_best(m, t, clo, Some(t.subrange(plo, clo)))
    &&& forall|j: int| e.splits.has(j) <==> seg_path(m, t, clo, Some(t.subrange(plo, clo))).contains(
        j,
    )
}

/// Every memo entry states a true fact about the current window.
spec fn memo_ok(mm: Map<u32, MemoEntry>, m: Segmenter, t: Seq<u8>) -> bool {
    forall|key: u32| #[trigger]
        mm.contains_key(key) ==> memo_entry_ok(mm[key], key as int / 256, key as int % 256, m, t)
}

/// Search state for a [`Segmenter`]: the memo cache, one split set per
/// recursion level, and the result buffer.  Created once per caller and
/// reused across `segment` calls, so that later calls need no allocation.
pub struct Search {
    memo: HashMap<u32, MemoEntry>,
    levels: Vec<SplitSet>,
    result: Vec<Vec<u8>>,
}

impl Search {
    /// The session has one split set per possible recursion level.
    pub closed spec fn wf(&self) -> bool {
        self.levels@.len() == SPLIT_CAP
    }

    /// The words of the most recent segmentation, in order.
    pub closed spec fn results(&self) -> Seq<Seq<u8>> {
        seq_words(self.result@)
    }

    /// Reset the memo cache and the result buffer, keeping the allocations.
    fn clear(&mut self)
        ensures
            final (self).wf() == old(self).wf(),
            final (self).results().len() == 0,
            final (self).memo@ == Map::<u32, MemoEntry>::empty(),
    {
        self.memo.clear();
        self.result.clear();
    }

    /// Make sure one split set per recursion level is available.
    fn ensure_levels(&mut self)
        ensures
            final (self).wf(),
            final (self).results() == old(self).results(),
            final (self).memo@ == old(self).memo@,
    {
        if self.levels.len() != SPLIT_CAP {
            self.levels.truncate(0);
            while self.levels.len() < SPLIT_CAP
                invariant
                    self.levels@.len() <= SPLIT_CAP,
                    self.result@ == old(self).result@,
                    self.memo@ == old(self).memo@,
                decreases SPLIT_CAP - self.levels@.len(),
            {
                self.levels.push(SplitSet::empty());
            }
        }
    }

    /// Word `idx` of the segmentation result, if there is one.
    pub fn get(&self, idx: usize) -> (r: Option<&Vec<u8>>)
        ensures
            match r {
                Some(w) => idx < self.results().len() && w@ == self.results()[idx as int],
                None => idx >= self.results().len(),
            },
    {
        if idx < self.result.len() {
            Some(&self.result[idx])
        } else {
            None
        }
    }

    /// The segmentation result: the winning words, left to right.
    pub fn split(&self) -> (r: &Vec<Vec<u8>>)
        ensures
            seq_words(r@) == self.results(),
    {
        &self.result
    }
}

impl Default for Search {
    /// An empty session.
    fn default() -> (r: Search)
        ensures
            r.wf(),
            r.results().len() == 0,
    {
        let mut levels: Vec<SplitSet> = Vec::new();
        while levels.len() < SPLIT_CAP
            invariant
                levels@.len() <= SPLIT_CAP,
            decreases SPLIT_CAP - levels@.len(),
        {
            levels.push(SplitSet::empty());
        }
        Search { memo: HashMap::new(), levels, result: Vec::new() }
    }
}

/// The previous word handed to a search call, if any.
pub open spec fn prev_view(t: Seq<u8>, plo: int, lo: int, has_prev: bool) -> Option<Seq<u8>> {
    if has_prev {
        Some(t.subrange(plo, lo))
    } else {
        None
    }
}

/// The path the search has committed to after considering first-word lengths
/// `1..=k`.
spec fn chosen_path(m: Segmenter, t: Seq<u8>, lo: int, prev: Option<Seq<u8>>, k: int) -> Seq<int> {
    let kc = choice_pre(m, t, lo, prev, k);
    seq![lo + kc] + seg_path(m, t, lo + kc, Some(t.subrange(lo, lo + kc)))
}

/// Membership in a sequence with an explicit head.
proof fn lemma_cons_contains(x: int, s: Seq<int>, j: int)
    ensures
        (seq![x] + s).contains(j) <==> (j == x || s.contains(j)),
{
    let c = seq![x] + s;
    if c.contains(j) {
        let i = choose|i: int| 0 <= i < c.len() && c[i] == j;
        if i > 0 {
            assert(s[i - 1] == j);
            assert(s.contains(j));
        }
    } else {
        if j == x {
            assert(c[0] == j);
        }
        if s.contains(j) {
            let i = choose|i: int| 0 <= i < s.len() && s[i] == j;
            assert(c[i + 1] == j);
        }
    }
}

/// The memoized recursive best-path search over the window
/// `text[base..base + wlen]`.
///
/// Returns the best score of the suffix starting at window offset `lo` after
/// the previous word `text[base + plo..base + lo]` (if `has_prev`), and
/// leaves the winning split offsets in the session's split set for
/// `level`.  Sub-results are reused through the memo cache, which only ever
/// holds facts about the current window.
fn search(
    m: &Segmenter,
    text: &Ascii,
    base: usize,
    wlen: usize,
    lo: usize,
    plo: usize,
    has_prev: bool,
    level: usize,
    session: &mut Search,
) -> (r: i64)
    requires
        m.wf(),
        old(session).wf(),
        base + wlen <= text@.len(),
        wlen <= WINDOW_SIZE,
        lo <= wlen,
        level <= lo,
        has_prev ==> plo < lo,
        !has_prev ==> plo == 0,
        memo_ok(old(session).memo@, *m, text@.subrange(base as int, (base + wlen) as int)),
    ensures
        final (session).wf(),
        memo_ok(final (session).memo@, *m, text@.subrange(base as int, (base + wlen) as int)),
        final (session).results() == old(session).results(),
        forall|i: int| 0 <= i < level ==> final (session).levels@[i] == old(session).levels@[i],
        r == seg_best(
            *m,
            text@.subrange(base as int, (base + wlen) as int),
            lo as int,
            prev_view(
                text@.subrange(base as int, (base + wlen) as int),
                plo as int,
                lo as int,
                has_prev,
            ),
        ),
        (m.limit() >= 1 || lo == wlen) ==> forall|j: int|
            final (session).levels@[level as int].has(j) <==> seg_path(
                *m,
                text@.subrange(base as int, (base + wlen) as int),
                lo as int,
                prev_view(
                    text@.subrange(base as int, (base + wlen) as int),
                    plo as int,
                    lo as int,
                    has_prev,
                ),
            ).contains(j),
    decreases wlen - lo,
{
    let ghost wt = text@.subrange(base as int, (base + wlen) as int);
    let ghost prevw = prev_view(wt, plo as int, lo as int, has_prev);
    let textlen: usize = text.len();
    proof {
        assert(wt.len() == wlen);
        assert(text@.len() <= usize::MAX);
    }
    if lo == wlen {
        session.levels[level] = SplitSet::empty();
        proof {
            assert(seg_path(*m, wt, lo as int, prevw) =~= Seq::<int>::empty());
        }
        return 0;
    }
    let limit = m.limit_val();
    if limit == 0 {
        return SCORE_SENTINEL;
    }
    let rem = wlen - lo;
    let kmax: usize = if rem < limit {
        rem
    } else {
        limit
    };
    proof {
        assert(kmax as int == split_budget(*m, wt, lo as int));
        lemma_seg_best_bounds(*m, wt, lo as int, prevw);
    }
    let mut best: i64 = SCORE_SENTINEL;
    let mut k: usize = 1;
    while k <= kmax
        invariant
            m.wf(),
            session.wf(),
            base + wlen <= text@.len(),
            text@.len() <= usize::MAX,
            wlen <= WINDOW_SIZE,
            lo < wlen,
            level <= lo,
            has_prev ==> plo < lo,
            !has_prev ==> plo == 0,
            wt == text@.subrange(base as int, (base + wlen) as int),
            wt.len() == wlen,
            prevw == prev_view(wt, plo as int, lo as int, has_prev),
            limit == m.limit(),
            limit >= 1,
            kmax as int == split_budget(*m, wt, lo as int),
            1 <= kmax <= wlen - lo,
            1 <= k <= kmax + 1,
            memo_ok(session.memo@, *m, wt),
            session.results() == old(session).results(),
            forall|i: int| 0 <= i < level ==> session.levels@[i] == old(session).levels@[i],
            k > 1 ==> best == best_pre(*m, wt, lo as int, prevw, k - 1),
            k > 1 ==> forall|j: int|
                session.levels@[level as int].has(j) <==> chosen_path(
                    *m,
                    wt,
                    lo as int,
                    prevw,
                    k - 1,
                ).contains(j),
            k == 1 ==> best == SCORE_SENTINEL,
        decreases kmax + 1 - k,
    {
        let ghost word = wt.subrange(lo as int, lo + k);
        let tb = text.as_bytes();
        let wslice = slice_subrange(tb, base + lo, base + lo + k);
        proof {
            assert(wslice@ =~= word);
        }
        let pscore: i64 = if has_prev {
            let pslice = slice_subrange(tb, base + plo, base + lo);
            proof {
                assert(pslice@ =~= wt.subrange(plo as int, lo as int));
            }
            m.score(wslice, Some(pslice))
        } else {
            m.score(wslice, None)
        };
        proof {
            assert(pscore == spec_score(*m, word, prevw));
        }
        let key: u32 = ((lo + k) as u32) * 256 + (lo as u32);
        proof {
            assert(key as int == (lo + k) * 256 + lo);
            assert(key as int / 256 == lo + k && key as int % 256 == lo);
        }
        let hit: Option<MemoEntry> = match session.memo.get(&key) {
            Some(e) => Some(*e),
            None => None,
        };
        let sub: MemoEntry = match hit {
            Some(e) => {
                proof {
                    assert(session.memo@.contains_key(key));
                    assert(memo_entry_ok(e, lo + k, lo as int, *m, wt));
                }
                e
            },
            None => {
                let s = search(m, text, base, wlen, lo + k, lo, true, level + 1, session);
                let sp = session.levels[level + 1];
                let e = MemoEntry { score: s, splits: sp };
                proof {
                    assert(memo_entry_ok(e, lo + k, lo as int, *m, wt));
                }
                let ghost pre = session.memo@;
                session.memo.insert(key, e);
                proof {
                    assert forall|key2: u32| #[trigger]
                        session.memo@.contains_key(key2) implies memo_entry_ok(
                        session.memo@[key2],
                        key2 as int / 256,
                        key2 as int % 256,
                        *m,
                        wt,
                    ) by {
                        if key2 != key {
                            assert(pre.contains_key(key2));
                            assert(session.memo@[key2] == pre[key2]);
                        }
                    }
                }
                e
            },
        };
        proof {
            assert(sub.score == seg_best(*m, wt, lo + k, Some(word)));
            lemma_seg_best_bounds(*m, wt, lo + k, Some(word));
            assert((wt.len() - (lo + k)) * (PENALTY_FLOOR as int) <= 250 * (PENALTY_FLOOR as int))
                by (nonlinear_arith)
                requires
                    0 <= wt.len() - (lo + k) <= 250,
            ;
            assert(-(250 * (PENALTY_FLOOR as int)) <= -((wt.len() - (lo + k)) * (
            PENALTY_FLOOR as int))) by (nonlinear_arith)
                requires
                    0 <= wt.len() - (lo + k) <= 250,
            ;
        }
        let cand: i64 = pscore + sub.score;
        proof {
            assert(cand == sc_total(*m, wt, lo as int, k as int, prevw));
        }
        if cand > best {
            let mut ss = SplitSet::empty();
            ss.insert(lo + k);
            let ghost ss1 = ss;
            ss.union_with(&sub.splits);
            proof {
                assert forall|j: int| ss.has(j) == (j == lo + k || sub.splits.has(j)) by {
                    assert(ss.has(j) == (ss1.has(j) || sub.splits.has(j)));
                    assert(ss1.has(j) == (j == lo + k));
                }
            }
            session.levels[level] = ss;
            best = cand;
            proof {
                if k > 1 {
                    assert(choice_pre(*m, wt, lo as int, prevw, k as int) == k);
                    assert(best_pre(*m, wt, lo as int, prevw, k as int) == cand);
                } else {
                    assert(choice_pre(*m, wt, lo as int, prevw, 1) == 1);
                    assert(best_pre(*m, wt, lo as int, prevw, 1) == cand);
                }
                let cp = chosen_path(*m, wt, lo as int, prevw, k as int);
                assert(cp == seq![lo + k as int] + seg_path(*m, wt, lo + k, Some(word)));
                assert forall|j: int|
                    session.levels@[level as int].has(j) <==> cp.contains(j) by {
                    lemma_cons_contains(lo + k, seg_path(*m, wt, lo + k, Some(word)), j);
                    assert(session.levels@[level as int].has(j) == (j == lo + k
                        || sub.splits.has(j)));
                    assert(sub.splits.has(j) <==> seg_path(*m, wt, lo + k, Some(word)).contains(
                        j,
                    ));
                }
            }
        } else {
            proof {
                if k == 1 {
                    assert(cand >= -(250 * (PENALTY_FLOOR as int)) - (PENALTY_FLOOR as int));
                    assert(false);
                } else {
                    assert(choice_pre(*m, wt, lo as int, prevw, k as int) == choice_pre(
                        *m,
                        wt,
                        lo as int,
                        prevw,
                        k - 1,
                    ));
                    assert(best_pre(*m, wt, lo as int, prevw, k as int) == best_pre(
                        *m,
                        wt,
                        lo as int,
                        prevw,
                        k - 1,
                    ));
                    assert(chosen_path(*m, wt, lo as int, prevw, k as int) == chosen_path(
                        *m,
                        wt,
                        lo as int,
                        prevw,
                        k - 1,
                    ));
                }
            }
        }
        k += 1;
    }
    proof {
        assert(best == best_pre(*m, wt, lo as int, prevw, kmax as int));
        assert(best == seg_best(*m, wt, lo as int, prevw));
        lemma_choice_pre_range(*m, wt, lo as int, prevw, kmax as int);
        let kc = choice_pre(*m, wt, lo as int, prevw, kmax as int);
        assert(1 <= kc <= wt.len() - lo);
        assert(seg_path(*m, wt, lo as int, prevw) == seq![lo + kc] + seg_path(
            *m,
            wt,
            lo + kc,
            Some(wt.subrange(lo as int, lo + kc)),
        ));
        assert(seg_path(*m, wt, lo as int, prevw) == chosen_path(*m, wt, lo as int, prevw, kmax as int));
    }
    best
}

/// Drive the search over the whole text in fixed-size windows, committing
/// every window's winning splits except a discarded tail that the next,
/// overlapping window re-derives.
fn run(m: &Segmenter, text: &Ascii, session: &mut Search)
    requires
        m.wf(),
        old(session).wf(),
        old(session).results().len() == 0,
    ensures
        final (session).wf(),
        final (session).results() == spec_drive(*m, text@, 0),
{
    let n = text.len();
    if m.limit_val() == 0 {
        proof {
            if 0 < text@.len() {
                let wlen0: int = if text@.len() < WINDOW_SIZE {
                    text@.len() as int
                } else {
                    WINDOW_SIZE as int
                };
                assert(seg_path(*m, text@.subrange(0, wlen0), 0, None) =~= Seq::<int>::empty());
            }
            assert(session.results() =~= spec_drive(*m, text@, 0));
        }
        return;
    }
    let mut start: usize = 0;
    while start < n
        invariant
            m.wf(),
            session.wf(),
            m.limit() >= 1,
            n == text@.len(),
            start <= n,
            session.results() + spec_drive(*m, text@, start as int) == spec_drive(*m, text@, 0),
        decreases n - start,
    {
        let rem = n - start;
        let wlen: usize = if rem < WINDOW_SIZE {
            rem
        } else {
            WINDOW_SIZE
        };
        let ghost wt = text@.subrange(start as int, (start + wlen) as int);
        session.memo.clear();
        let _sc = search(m, text, start, wlen, 0, 0, false, 0, session);
        let ghost p = seg_path(*m, wt, 0, None);
        proof {
            lemma_seg_path_shape(*m, wt, 0, None);
        }
        let lv: SplitSet = session.levels[0];
        let splits: Vec<usize> = lv.decode(0);
        proof {
            let dv = splits@.map_values(|u: usize| u as int);
            assert forall|x: int| dv.contains(x) <==> p.contains(x) by {
                if dv.contains(x) {
                    let i = choose|i: int| 0 <= i < dv.len() && dv[i] == x;
                    assert(splits@[i] == x);
                    assert(lv.has(x));
                } else if p.contains(x) {
                    assert(0 < x <= wt.len());
                    assert(lv.has(x));
                    assert(splits@.contains(x as usize));
                    let i = choose|i: int| 0 <= i < splits@.len() && splits@[i] == x as usize;
                    assert(dv[i] == x);
                }
            }
            assert forall|i: int, j: int| 0 <= i < j < dv.len() implies dv[i] < dv[j] by {
                assert(splits@[i] < splits@[j]);
            }
            lemma_sorted_same_elems(dv, p);
            assert(splits@.len() == p.len());
            assert(forall|i: int| 0 <= i < splits@.len() ==> splits@[i] == p[i]);
        }
        let is_last = start + wlen == n;
        let ncommit: usize = if is_last {
            splits.len()
        } else if splits.len() > TAIL_DISCARD {
            splits.len() - TAIL_DISCARD
        } else {
            1
        };
        proof {
            assert(p.len() >= 1);
            assert(1 <= ncommit <= splits@.len());
        }
        let ghost res0 = session.results();
        let mut prev_b: usize = 0;
        let mut idx: usize = 0;
        while idx < ncommit
            invariant
                session.wf(),
                n == text@.len(),
                start < n,
                start + wlen <= n,
                wt == text@.subrange(start as int, (start + wlen) as int),
                wt.len() == wlen,
                1 <= ncommit <= splits@.len(),
                splits@.len() == p.len(),
                forall|i: int| 0 <= i < splits@.len() ==> splits@[i] == p[i],
                forall|i: int| 0 <= i < p.len() ==> 0 < #[trigger] p[i] <= wlen,
                forall|i: int, j: int| 0 <= i < j < p.len() ==> p[i] < p[j],
                idx <= ncommit,
                prev_b as int == (if idx == 0 {
                    0int
                } else {
                    p[idx - 1]
                }),
                session.results() == res0 + path_words(wt, 0, p.take(idx as int)),
            decreases ncommit - idx,
        {
            let b = splits[idx];
            proof {
                assert(b as int == p[idx as int]);
                if idx > 0 {
                    assert(p[idx - 1] < p[idx as int]);
                }
            }
            let wvec = text.word(start + prev_b, start + b);
            proof {
                assert(wvec@ =~= wt.subrange(prev_b as int, b as int));
                lemma_path_words_push(wt, 0, p.take(idx as int), p[idx as int]);
                assert(p.take(idx as int + 1) =~= p.take(idx as int).push(p[idx as int]));
                if idx == 0 {
                    assert(p.take(0int).len() == 0);
                } else {
                    assert(p.take(idx as int).last() == p[idx - 1]);
                }
            }
            let ghost r0v = session.result@;
            let ghost wordv = wvec@;
            session.result.push(wvec);
            proof {
                assert(session.result@ == r0v.push(session.result@.last()));
                assert(session.result@.last()@ == wordv);
                assert(seq_words(session.result@) =~= seq_words(r0v).push(wordv));
                assert(seq_words(r0v).push(wordv) =~= res0 + path_words(
                    wt,
                    0,
                    p.take(idx as int),
                ).push(wordv));
                assert(path_words(wt, 0, p.take(idx as int)).push(wordv) == path_words(
                    wt,
                    0,
                    p.take(idx as int + 1),
                ));
            }
            prev_b = b;
            idx += 1;
        }
        proof {
            // one unfolding of the driver spec at this window
            let wlen_s: int = if text@.len() - start < WINDOW_SIZE {
                text@.len() - start
            } else {
                WINDOW_SIZE as int
            };
            assert(wlen_s == wlen);
            let nc_s: int = if start + wlen == text@.len() {
                p.len() as int
            } else if p.len() > TAIL_DISCARD {
                p.len() - TAIL_DISCARD
            } else {
                1
            };
            assert(nc_s == ncommit);
            let adv0 = p[nc_s - 1];
            assert(adv0 == prev_b);
            assert(1 <= adv0 <= wlen);
            assert(spec_drive(*m, text@, start as int) == path_words(wt, 0, p.take(nc_s))
                + spec_drive(*m, text@, start + adv0));
            assert(res0 + (path_words(wt, 0, p.take(nc_s)) + spec_drive(*m, text@, start + adv0))
                =~= (res0 + path_words(wt, 0, p.take(nc_s))) + spec_drive(
                *m,
                text@,
                start + adv0,
            ));
        }
        start = start + prev_b;
    }
    proof {
        assert(session.results() =~= session.results() + spec_drive(*m, text@, start as int));
    }
}

/// The words of a sentence, joined back into one unspaced byte string.
pub open spec fn concat_words(ws: Seq<Seq<u8>>) -> Seq<u8>
    decreases ws.len(),
{
    if ws.len() == 0 {
        Seq::empty()
    } else {
        concat_words(ws.drop_last()) + ws.last()
    }
}

/// Join a word list into one byte string.
fn join_words(s: &Vec<Vec<u8>>) -> (r: Vec<u8>)
    ensures
        r@ == concat_words(seq_words(s@)),
{
    let mut out: Vec<u8> = Vec::new();
    let mut i: usize = 0;
    while i < s.len()
        invariant
            i <= s@.len(),
            out@ == concat_words(seq_words(s@.take(i as int))),
        decreases s@.len() - i,
    {
        let mut j: usize = 0;
        let ghost out0 = out@;
        while j < s[i].len()
            invariant
                i < s@.len(),
                j <= s@[i as int]@.len(),
                out@ == out0 + s@[i as int]@.subrange(0, j as int),
            decreases s@[i as int]@.len() - j,
        {
            out.push(s[i][j]);
            j += 1;
            proof {
                assert(out@ =~= out0 + s@[i as int]@.subrange(0, j as int));
            }
        }
        i += 1;
        proof {
            assert(seq_words(s@.take(i as int)).drop_last() =~= seq_words(s@.take(i as int - 1)));
            assert(seq_words(s@.take(i as int)).last() == s@[i as int - 1]@);
            assert(s@[i as int - 1]@.subrange(0, s@[i as int - 1]@.len() as int) =~= s@[i as int
                - 1]@);
            assert(out@ == concat_words(seq_words(s@.take(i as int))));
        }
    }
    proof {
        assert(s@.take(s@.len() as int) =~= s@);
    }
    out
}

/// Compare two word lists.
fn words_equal(a: &Vec<Vec<u8>>, b: &Vec<Vec<u8>>) -> (r: bool)
    ensures
        r == (seq_words(a@) == seq_words(b@)),
{
    if a.len() != b.len() {
        proof {
            assert(seq_words(a@).len() != seq_words(b@).len());
        }
        return false;
    }
    let mut i: usize = 0;
    while i < a.len()
        invariant
            a@.len() == b@.len(),
            i <= a@.len(),
            forall|j: int| 0 <= j < i ==> seq_words(a@)[j] == seq_words(b@)[j],
        decreases a@.len() - i,
    {
        if !crate::table::bytes_eq(a[i].as_slice(), b[i].as_slice()) {
            proof {
                assert(seq_words(a@)[i as int] != seq_words(b@)[i as int]);
            }
            return false;
        }
        i += 1;
    }
    proof {
        assert(seq_words(a@) =~= seq_words(b@));
    }
    true
}

impl Segmenter {
    /// Segment the text in `input`.
    ///
    /// Requires that `input` consists of lowercase ASCII letters and digits
    /// only; otherwise returns `Err(InvalidCharacter)` with the session
    /// cleared.  On success the session's result buffer holds the winning
    /// words, retrievable through [`Search::split`] or [`Search::get`] until
    /// the next call reusing the same session.
    pub fn segment(&self, input: &str, search: &mut Search) -> (r: Result<(), InvalidCharacter>)
        requires
            self.wf(),
        ensures
            final (search).wf(),
            match r {
                Ok(()) => all_valid(input.spec_bytes()) && final (search).results()
                    == spec_segmentation(*self, input.spec_bytes()),
                Err(_) => !all_valid(input.spec_bytes()) && final (search).results().len() == 0,
            },
    {
        self.segment_bytes(input.as_bytes(), search)
    }

    /// Segment a text given as raw bytes; see [`Segmenter::segment`].
    pub fn segment_bytes(&self, input: &[u8], search: &mut Search) -> (r: Result<
        (),
        InvalidCharacter,
    >)
        requires
            self.wf(),
        ensures
            final (search).wf(),
            match r {
                Ok(()) => all_valid(input@) && final (search).results() == spec_segmentation(
                    *self,
                    input@,
                ),
                Err(_) => !all_valid(input@) && final (search).results().len() == 0,
            },
    {
        search.clear();
        search.ensure_levels();
        match Ascii::from_bytes(input) {
            Err(e) => Err(e),
            Ok(text) => {
                run(self, &text, search);
                Ok(())
            },
        }
    }
}

/// Join the given words, segment the joined text, and report whether the
/// segmentation reproduces the words.
pub fn check_segments(s: &Vec<Vec<u8>>, search: &mut Search, segmenter: &Segmenter) -> (r: bool)
    requires
        segmenter.wf(),
    ensures
        r == (all_valid(concat_words(seq_words(s@))) && spec_segmentation(
            *segmenter,
            concat_words(seq_words(s@)),
        ) == seq_words(s@)),
{
    let joined = join_words(s);
    match segmenter.segment_bytes(joined.as_slice(), search) {
        Ok(()) => words_equal(search.split(), s),
        Err(_) => false,
    }
}

/// Concatenation of word lists splits over their juxtaposition.
pub proof fn lemma_concat_words_app(s1: Seq<Seq<u8>>, s2: Seq<Seq<u8>>)
    ensures
        concat_words(s1 + s2) == concat_words(s1) + concat_words(s2),
    decreases s2.len(),
{
    if s2.len() == 0 {
        assert(s1 + s2 =~= s1);
        assert(concat_words(s1) + concat_words(s2) =~= concat_words(s1));
    } else {
        lemma_concat_words_app(s1, s2.drop_last());
        assert((s1 + s2).drop_last() =~= s1 + s2.drop_last());
        assert((s1 + s2).last() == s2.last());
        assert(concat_words(s2) == concat_words(s2.drop_last()) + s2.last());
        assert(concat_words(s1) + (concat_words(s2.drop_last()) + s2.last()) =~= (concat_words(s1)
            + concat_words(s2.drop_last())) + s2.last());
    }
}

/// The words a split sequence carves out concatenate to the covered range.
pub proof fn lemma_path_words_concat(t: Seq<u8>, lo: int, p: Seq<int>)
    requires
        0 <= lo,
        forall|i: int| 0 <= i < p.len() ==> lo < #[trigger] p[i] <= t.len(),
        forall|i: int, j: int| 0 <= i < j < p.len() ==> p[i] < p[j],
    ensures
        p.len() == 0 ==> concat_words(path_words(t, lo, p)) == Seq::<u8>::empty(),
        p.len() > 0 ==> concat_words(path_words(t, lo, p)) == t.subrange(lo, p.last()),
    decreases p.len(),
{
    if p.len() > 0 {
        let q = p.drop_last();
        let b = p.last();
        assert(forall|i: int| 0 <= i < q.len() ==> q[i] == p[i]);
        lemma_path_words_concat(t, lo, q);
        assert(p =~= q.push(b));
        lemma_path_words_push(t, lo, q, b);
        let last_word = if q.len() == 0 {
            t.subrange(lo, b)
        } else {
            t.subrange(q.last(), b)
        };
        let xw = path_words(t, lo, q).push(last_word);
        assert(path_words(t, lo, p) == xw);
        assert(xw.drop_last() =~= path_words(t, lo, q));
        assert(xw.last() == last_word);
        assert(concat_words(xw) == concat_words(path_words(t, lo, q)) + last_word);
        if q.len() == 0 {
            assert(Seq::<u8>::empty() + t.subrange(lo, b) =~= t.subrange(lo, b));
        } else {
            let mid = q.last();
            assert(mid == p[p.len() - 2]);
            assert(mid < b);
            assert(t.subrange(lo, mid) + t.subrange(mid, b) =~= t.subrange(lo, b));
        }
    }
}

/// Everything the driver commits from `start` on concatenates back to the
/// rest of the text.
pub proof fn lemma_drive_concat(m: Segmenter, t: Seq<u8>, start: int)
    requires
        m.limit() >= 1,
        0 <= start <= t.len(),
    ensures
        concat_words(spec_drive(m, t, start)) == t.subrange(start, t.len() as int),
    decreases t.len() - start,
{
    if start == t.len() {
        assert(t.subrange(start, t.len() as int) =~= Seq::<u8>::empty());
    } else {
        let wlen: int = if t.len() - start < WINDOW_SIZE {
            t.len() - start
        } else {
            WINDOW_SIZE as int
        };
        let wt = t.subrange(start, start + wlen);
        let p = seg_path(m, wt, 0, None);
        lemma_seg_path_shape(m, wt, 0, None);
        assert(p.len() >= 1);
        let ncommit: int = if start + wlen == t.len() {
            p.len() as int
        } else if p.len() > TAIL_DISCARD {
            p.len() - TAIL_DISCARD
        } else {
            1
        };
        let c = p.take(ncommit);
        assert(forall|i: int| 0 <= i < c.len() ==> c[i] == p[i]);
        let adv = p[ncommit - 1];
        assert(1 <= adv <= wlen);
        assert(c.last() == adv);
        lemma_path_words_concat(wt, 0, c);
        assert(concat_words(path_words(wt, 0, c)) == wt.subrange(0, adv));
        lemma_drive_concat(m, t, start + adv);
        lemma_concat_words_app(path_words(wt, 0, c), spec_drive(m, t, start + adv));
        assert(wt.subrange(0, adv) =~= t.subrange(start, start + adv));
        assert(t.subrange(start, start + adv) + t.subrange(start + adv, t.len() as int)
            =~= t.subrange(start, t.len() as int));
    }
}

/// `ws` decomposes `t[lo..]` into words of length at most `limit`.
pub open spec fn is_decomposition(ws: Seq<Seq<u8>>, t: Seq<u8>, lo: int, limit: int) -> bool
    decreases ws.len(),
{
    if ws.len() == 0 {
        lo == t.len()
    } else {
        &&& 1 <= ws[0].len() <= limit
        &&& lo + ws[0].len() <= t.len()
        &&& ws[0] == t.subrange(lo, lo + ws[0].len())
        &&& is_decomposition(ws.drop_first(), t, lo + ws[0].len(), limit)
    }
}

/// Score of a word sequence, each word in the context of its predecessor.
pub open spec fn chain_score(m: Segmenter, ws: Seq<Seq<u8>>, prev: Option<Seq<u8>>) -> int
    decreases ws.len(),
{
    if ws.len() == 0 {
        0
    } else {
        spec_score(m, ws[0], prev) + chain_score(m, ws.drop_first(), Some(ws[0]))
    }
}

/// The running best dominates every candidate total up to its budget.
pub proof fn lemma_sc_total_le_best_pre(
    m: Segmenter,
    t: Seq<u8>,
    lo: int,
    prev: Option<Seq<u8>>,
    j: int,
    k: int,
)
    requires
        0 <= lo,
        1 <= j <= k,
        lo + k <= t.len(),
    ensures
        sc_total(m, t, lo, j, prev) <= best_pre(m, t, lo, prev, k),
    decreases k,
{
    if j < k {
        lemma_sc_total_le_best_pre(m, t, lo, prev, j, k - 1);
    }
}

/// No decomposition of the window suffix scores above `seg_best`.
pub proof fn lemma_seg_best_optimal(
    m: Segmenter,
    t: Seq<u8>,
    lo: int,
    prev: Option<Seq<u8>>,
    ws: Seq<Seq<u8>>,
)
    requires
        m.limit() >= 1,
        0 <= lo <= t.len(),
        is_decomposition(ws, t, lo, m.limit() as int),
    ensures
        chain_score(m, ws, prev) <= seg_best(m, t, lo, prev),
    decreases t.len() - lo,
{
    if lo == t.len() {
        assert(ws.len() == 0) by {
            if ws.len() > 0 {
                assert(lo + ws[0].len() <= t.len());
            }
        }
    } else {
        assert(ws.len() > 0);
        let k = ws[0].len() as int;
        let word = t.subrange(lo, lo + k);
        lemma_seg_best_optimal(m, t, lo + k, Some(word), ws.drop_first());
        assert(chain_score(m, ws.drop_first(), Some(word)) <= seg_best(m, t, lo + k, Some(word)));
        assert(sc_total(m, t, lo, k, prev) == spec_score(m, word, prev) + seg_best(
            m,
            t,
            lo + k,
            Some(word),
        ));
        let budget = split_budget(m, t, lo);
        lemma_sc_total_le_best_pre(m, t, lo, prev, k, budget);
    }
}

/// The winning path is itself a decomposition, and it achieves `seg_best`.
pub proof fn lemma_seg_path_achieves_best(m: Segmenter, t: Seq<u8>, lo: int, prev: Option<Seq<u8>>)
    requires
        m.limit() >= 1,
        0 <= lo <= t.len(),
    ensures
        is_decomposition(
            path_words(t, lo, seg_path(m, t, lo, prev)),
            t,
            lo,
            m.limit() as int,
        ),
        chain_score(m, path_words(t, lo, seg_path(m, t, lo, prev)), prev) == seg_best(
            m,
            t,
            lo,
            prev,
        ),
    decreases t.len() - lo,
{
    if lo == t.len() {
        assert(seg_path(m, t, lo, prev) =~= Seq::<int>::empty());
    } else {
        let budget = split_budget(m, t, lo);
        lemma_choice_pre_range(m, t, lo, prev, budget);
        let kc = choice_pre(m, t, lo, prev, budget);
        assert(1 <= kc <= budget);
        let word = t.subrange(lo, lo + kc);
        let p = seg_path(m, t, lo, prev);
        assert(p == seq![lo + kc] + seg_path(m, t, lo + kc, Some(word)));
        lemma_seg_path_achieves_best(m, t, lo + kc, Some(word));
        let pw = path_words(t, lo, p);
        assert(p[0] == lo + kc);
        assert(p.drop_first() =~= seg_path(m, t, lo + kc, Some(word)));
        assert(pw == seq![word] + path_words(t, lo + kc, seg_path(m, t, lo + kc, Some(word))));
        assert(pw[0] == word);
        assert(pw.drop_first() =~= path_words(t, lo + kc, seg_path(m, t, lo + kc, Some(word))));
        assert(word.len() == kc);
        lemma_choice_achieves_best(m, t, lo, prev, budget);
        assert(chain_score(m, pw, prev) == spec_score(m, word, prev) + chain_score(
            m,
            pw.drop_first(),
            Some(word),
        ));
        assert(chain_score(m, pw, prev) == sc_total(m, t, lo, kc, prev));
    }
}

} // verus!
