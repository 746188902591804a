//! Laws of the segmenter, stated and proved once for all inputs.

use vstd::prelude::*;

use crate::engine::{
    chain_score, concat_words, is_decomposition, lemma_drive_concat, lemma_seg_best_optimal,
    lemma_seg_path_achieves_best, path_words, seg_best, seg_path, spec_segmentation, WINDOW_SIZE,
};
use crate::model::{lemma_penalty_monotone, spec_score, spec_sentence_sum, Segmenter};

verus! {

/// Segmenting the empty text yields no words (and, by the contract of
/// `segment`, is not an error).
pub proof fn lemma_empty_input(m: Segmenter)
    ensures
        spec_segmentation(m, Seq::empty()) == Seq::<Seq<u8>>::empty(),
{
}

/// Session reuse is idempotent: the segmentation result is a function of the
/// model and the text alone, so two calls of `segment` with the same input
/// leave the same words in the session, whatever state it started in.
pub proof fn lemma_segment_deterministic(
    m: Segmenter,
    t: Seq<u8>,
    r1: Seq<Seq<u8>>,
    r2: Seq<Seq<u8>>,
)
    requires
        r1 == spec_segmentation(m, t),
        r2 == spec_segmentation(m, t),
    ensures
        r1 == r2,
{
}

/// The out-of-vocabulary penalty never shrinks with length: treating a longer
/// unseen string as a single unknown word never scores better than doing the
/// same with a shorter one.
pub proof fn lemma_oov_penalty_monotone(
    m: Segmenter,
    a: Seq<u8>,
    b: Seq<u8>,
    prev: Option<Seq<u8>>,
)
    requires
        m.wf(),
        !m.uni_map().contains_key(a),
        !m.uni_map().contains_key(b),
        a.len() <= b.len(),
    ensures
        spec_score(m, a, prev) >= spec_score(m, b, prev),
{
    lemma_penalty_monotone(m.total_log() as int, a.len(), b.len());
}

/// Window-size independence for short input: text that fits in one window is
/// segmented exactly as an unwindowed search over the whole text would
/// segment it, so the windowing cannot affect the result.
pub proof fn lemma_single_window(m: Segmenter, t: Seq<u8>)
    requires
        t.len() <= WINDOW_SIZE,
    ensures
        spec_segmentation(m, t) == path_words(t, 0, seg_path(m, t, 0, None)),
{
    if t.len() == 0 {
        assert(seg_path(m, t, 0, None) =~= Seq::<int>::empty());
    } else {
        let wt = t.subrange(0, t.len() as int);
        assert(wt =~= t);
        let p = seg_path(m, t, 0, None);
        if m.limit() < 1 {
            assert(p =~= Seq::<int>::empty());
            assert(spec_segmentation(m, t) =~= Seq::<Seq<u8>>::empty());
        } else {
            crate::engine::lemma_seg_path_shape(m, t, 0, None);
            assert(p.take(p.len() as int) =~= p);
            let adv0 = p[p.len() - 1];
            assert(1 <= adv0 <= t.len());
            assert(adv0 == t.len());
            assert(spec_segmentation(m, t) == path_words(t, 0, p) + spec_drive_tail(m, t));
            assert(path_words(t, 0, p) + Seq::<Seq<u8>>::empty() =~= path_words(t, 0, p));
        }
    }
}

/// The driver's continuation past the end of the text commits nothing.
spec fn spec_drive_tail(m: Segmenter, t: Seq<u8>) -> Seq<Seq<u8>> {
    crate::engine::spec_drive(m, t, t.len() as int)
}

/// Round trip: whatever words `segment` produces concatenate back to the
/// input text, for any model whose word-length limit admits words at all.
pub proof fn lemma_segmentation_concat(m: Segmenter, t: Seq<u8>)
    requires
        m.limit() >= 1,
    ensures
        concat_words(spec_segmentation(m, t)) == t,
{
    lemma_drive_concat(m, t, 0);
    assert(t.subrange(0, t.len() as int) =~= t);
}

/// Appending a word to a sentence adds its score in the context of the last
/// word so far.
proof fn lemma_chain_push(m: Segmenter, q: Seq<Seq<u8>>, w: Seq<u8>, prev: Option<Seq<u8>>)
    ensures
        chain_score(m, q.push(w), prev) == chain_score(m, q, prev) + spec_score(
            m,
            w,
            if q.len() == 0 {
                prev
            } else {
                Some(q.last())
            },
        ),
    decreases q.len(),
{
    let p = q.push(w);
    if q.len() == 0 {
        assert(p[0] == w);
        assert(p.drop_first() =~= Seq::<Seq<u8>>::empty());
        assert(chain_score(m, p, prev) == spec_score(m, w, prev) + chain_score(
            m,
            p.drop_first(),
            Some(w),
        ));
        assert(chain_score(m, p.drop_first(), Some(w)) == 0);
        assert(chain_score(m, q, prev) == 0);
    } else {
        assert(p[0] == q[0]);
        assert(p.drop_first() =~= q.drop_first().push(w));
        lemma_chain_push(m, q.drop_first(), w, Some(q[0]));
        if q.drop_first().len() == 0 {
            assert(q.last() == q[0]);
        } else {
            assert(q.drop_first().last() == q.last());
        }
    }
}

/// The sentence score of the first `n` words equals the chained score of that
/// prefix: `score_sentence` applies exactly the rule the search maximizes.
proof fn lemma_sentence_sum_is_chain(m: Segmenter, ws: Seq<Seq<u8>>, n: int)
    requires
        0 <= n <= ws.len(),
    ensures
        spec_sentence_sum(m, ws, n) == chain_score(m, ws.take(n), None),
    decreases n,
{
    if n > 0 {
        lemma_sentence_sum_is_chain(m, ws, n - 1);
        assert(ws.take(n) =~= ws.take(n - 1).push(ws[n - 1]));
        lemma_chain_push(m, ws.take(n - 1), ws[n - 1], None);
        if n - 1 > 0 {
            assert(ws.take(n - 1).last() == ws[n - 2]);
        }
    }
}

/// Optimality: on text that fits one window, no decomposition of the input
/// into words within the length limit scores a higher sentence total than
/// the decomposition `segment` returns.
pub proof fn lemma_segment_optimal(m: Segmenter, t: Seq<u8>, ws: Seq<Seq<u8>>)
    requires
        m.wf(),
        m.limit() >= 1,
        t.len() <= WINDOW_SIZE,
        is_decomposition(ws, t, 0, m.limit() as int),
    ensures
        spec_sentence_sum(m, ws, ws.len() as int) <= spec_sentence_sum(
            m,
            spec_segmentation(m, t),
            spec_segmentation(m, t).len() as int,
        ),
        spec_sentence_sum(m, spec_segmentation(m, t), spec_segmentation(m, t).len() as int)
            == seg_best(m, t, 0, None),
{
    lemma_single_window(m, t);
    let res = spec_segmentation(m, t);
    lemma_seg_path_achieves_best(m, t, 0, None);
    assert(chain_score(m, res, None) == seg_best(m, t, 0, None));
    lemma_seg_best_optimal(m, t, 0, None, ws);
    assert(chain_score(m, ws, None) <= seg_best(m, t, 0, None));
    lemma_sentence_sum_is_chain(m, ws, ws.len() as int);
    assert(ws.take(ws.len() as int) =~= ws);
    lemma_sentence_sum_is_chain(m, res, res.len() as int);
    assert(res.take(res.len() as int) =~= res);
}

} // verus!
