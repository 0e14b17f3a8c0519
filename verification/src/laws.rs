//! Theorems about the outcome of a decoding.
//!
//! Each is stated over `decodes_to`, the relation that the decoder's contract
//! establishes between its inputs and its result, so each holds of every
//! result that the decoder returns.

use vstd::prelude::*;
use crate::path::{
    decodes_to, end_tag, is_best, is_tag_seq, led_by, lemma_best_unique, path_score, prefix_score,
    start_tag, well_formed,
};
use crate::score::SENTINEL;
use crate::sentinel::{
    lemma_trellis_keeps_to_labels, lemma_trellis_without_steps, sentinel_dominates,
    starts_at_start,
};
use crate::trellis::{last_tag, lemma_trellis_is_best, trellis_path, trellis_score};

verus! {

/// Decoding is a function of its inputs: whatever two decodings of the same
/// inputs return, the scores are equal and so are the paths.
pub proof fn lemma_decoding_unique(
    w: Seq<Seq<int>>,
    e: Seq<Seq<int>>,
    init: Seq<int>,
    score1: int,
    path1: Seq<int>,
    score2: int,
    path2: Seq<int>,
)
    requires
        decodes_to(w, e, init, score1, path1),
        decodes_to(w, e, init, score2, path2),
    ensures
        score1 == score2,
        path1 == path2,
{
    let lead1 = choose|lead: int|
        is_best(w, e, init, #[trigger] led_by(lead, path1)) && score1 == path_score(
            w,
            e,
            init,
            led_by(lead, path1),
        );
    let lead2 = choose|lead: int|
        is_best(w, e, init, #[trigger] led_by(lead, path2)) && score2 == path_score(
            w,
            e,
            init,
            led_by(lead, path2),
        );
    let y1 = led_by(lead1, path1);
    let y2 = led_by(lead2, path2);
    lemma_best_unique(w, e, init, y1, y2);
    assert(path1 =~= y1.subrange(1, y1.len() as int));
    assert(path2 =~= y2.subrange(1, y2.len() as int));
}

/// A decoded path holds exactly one tag for each step.
pub proof fn lemma_decoding_length(
    w: Seq<Seq<int>>,
    e: Seq<Seq<int>>,
    init: Seq<int>,
    score: int,
    path: Seq<int>,
)
    requires
        decodes_to(w, e, init, score, path),
    ensures
        path.len() == e.len(),
        is_tag_seq(path, w.len() as int, e.len() as int),
{
    let lead = choose|lead: int|
        is_best(w, e, init, #[trigger] led_by(lead, path)) && score == path_score(
            w,
            e,
            init,
            led_by(lead, path),
        );
    let y = led_by(lead, path);
    assert forall|i: int| 0 <= i < e.len() implies 0 <= #[trigger] path[i] < w.len() by {
        assert(path[i] == y[i + 1]);
    }
}

/// The outcome of a decoding is what the forward recursion selects: its
/// score, and its sequence without the tag held before the first step.
pub proof fn lemma_decoding_is_trellis(
    w: Seq<Seq<int>>,
    e: Seq<Seq<int>>,
    init: Seq<int>,
    score: int,
    path: Seq<int>,
)
    requires
        well_formed(w, e, init),
        decodes_to(w, e, init, score, path),
    ensures
        score == trellis_score(w, e, init),
        path == trellis_path(w, e, init).subrange(1, e.len() as int + 1),
        decodes_to(w, e, init, trellis_score(w, e, init), path),
{
    let lead = choose|lead: int|
        is_best(w, e, init, #[trigger] led_by(lead, path)) && score == path_score(
            w,
            e,
            init,
            led_by(lead, path),
        );
    let y = led_by(lead, path);
    lemma_trellis_is_best(w, e, init);
    lemma_best_unique(w, e, init, y, trellis_path(w, e, init));
    assert(path =~= y.subrange(1, e.len() as int + 1));
}

/// While the sentinel dominates, a decoded path holds labels only: neither
/// START nor END is selected for any step. Without labels this is stated of
/// the empty sequence of steps alone.
pub proof fn lemma_decoding_keeps_to_labels(
    w: Seq<Seq<int>>,
    e: Seq<Seq<int>>,
    init: Seq<int>,
    score: int,
    path: Seq<int>,
)
    requires
        sentinel_dominates(w, e, init),
        w.len() >= 3 || e.len() == 0,
        decodes_to(w, e, init, score, path),
    ensures
        is_tag_seq(path, start_tag(w.len() as int), e.len() as int),
        is_best(w, e, init, led_by(start_tag(w.len() as int), path)),
{
    let y = trellis_path(w, e, init);
    lemma_decoding_is_trellis(w, e, init, score, path);
    lemma_trellis_is_best(w, e, init);
    lemma_trellis_keeps_to_labels(w, e, init);
    assert forall|i: int| 0 <= i < e.len() implies 0 <= #[trigger] path[i] < start_tag(
        w.len() as int,
    ) by {
        assert(path[i] == y[i + 1]);
    }
    assert(led_by(start_tag(w.len() as int), path) =~= y);
}

/// With no steps the decoded path is empty, and the score is the greatest
/// that a tag reaches with its initial score and its transition into END.
pub proof fn lemma_decoding_without_steps(
    w: Seq<Seq<int>>,
    e: Seq<Seq<int>>,
    init: Seq<int>,
    score: int,
    path: Seq<int>,
)
    requires
        well_formed(w, e, init),
        e.len() == 0,
        decodes_to(w, e, init, score, path),
    ensures
        path == Seq::<int>::empty(),
        forall|j: int| 0 <= j < w.len() ==> init[j] + #[trigger] w[end_tag(w.len() as int)][j] <= score,
        exists|j: int| 0 <= j < w.len() && score == init[j] + #[trigger] w[end_tag(w.len() as int)][j],
{
    lemma_decoding_is_trellis(w, e, init, score, path);
    lemma_trellis_without_steps(w, e, init);
    assert(path =~= Seq::<int>::empty());
    let last = last_tag(w, e, init);
    assert(score == init[last] + w[end_tag(w.len() as int)][last]);
}

/// With no steps and the usual initial scores, the score is that of the
/// transition from START into END, unless the transition into END from
/// another tag is better by more than the sentinel.
pub proof fn lemma_start_to_end(
    w: Seq<Seq<int>>,
    e: Seq<Seq<int>>,
    init: Seq<int>,
    score: int,
    path: Seq<int>,
)
    requires
        well_formed(w, e, init),
        e.len() == 0,
        starts_at_start(init),
        forall|j: int|
            0 <= j < w.len() ==> #[trigger] w[end_tag(w.len() as int)][j] + SENTINEL <= w[end_tag(
                w.len() as int,
            )][start_tag(w.len() as int)],
        decodes_to(w, e, init, score, path),
    ensures
        path == Seq::<int>::empty(),
        score == w[end_tag(w.len() as int)][start_tag(w.len() as int)],
{
    let n = w.len() as int;
    lemma_decoding_without_steps(w, e, init, score, path);
    let j = choose|j: int| 0 <= j < w.len() && score == init[j] + #[trigger] w[end_tag(n)][j];
    assert(init[start_tag(n)] + w[end_tag(n)][start_tag(n)] <= score);
    if j != start_tag(n) {
        assert(init[j] == SENTINEL);
        assert(w[end_tag(n)][j] + SENTINEL <= w[end_tag(n)][start_tag(n)]);
    }
}

/// The emissions `e` with the score of tag `k` at step `t` raised by `delta`.
pub open spec fn raised(e: Seq<Seq<int>>, t: int, k: int, delta: int) -> Seq<Seq<int>> {
    e.update(t, e[t].update(k, e[t][k] + delta))
}

/// Raising one emission score by `delta` adds `delta` to what a candidate has
/// gathered once it has passed that step with that tag, and nothing else.
pub proof fn lemma_raised_prefix_score(
    w: Seq<Seq<int>>,
    e: Seq<Seq<int>>,
    init: Seq<int>,
    t: int,
    k: int,
    delta: int,
    y: Seq<int>,
    s: nat,
)
    requires
        well_formed(w, e, init),
        0 <= t < e.len(),
        0 <= k < w.len(),
        s <= e.len(),
        is_tag_seq(y, w.len() as int, e.len() as int + 1),
    ensures
        prefix_score(w, raised(e, t, k, delta), init, y, s) == prefix_score(w, e, init, y, s) + if s
            > t && y[t + 1] == k {
            delta
        } else {
            0
        },
    decreases s,
{
    if s > 0 {
        lemma_raised_prefix_score(w, e, init, t, k, delta, y, (s - 1) as nat);
        let r = raised(e, t, k, delta);
        assert(e[s - 1].len() == w.len());
        assert(0 <= y[s as int] < w.len());
        if s - 1 == t {
            assert(r[s - 1] == e[t].update(k, e[t][k] + delta));
        } else {
            assert(r[s - 1] == e[s - 1]);
        }
    }
}

/// The decoder answers to the emissions. Take any candidate `z` that holds
/// tag `k` at step `t`, and raise the emission score of `k` at `t` by more
/// than `z` falls short of the best score. Then the path decoded from the
/// raised emissions holds `k` at step `t`.
pub proof fn lemma_emission_sensitivity(
    w: Seq<Seq<int>>,
    e: Seq<Seq<int>>,
    init: Seq<int>,
    t: int,
    k: int,
    delta: int,
    z: Seq<int>,
    score: int,
    path: Seq<int>,
    raised_score: int,
    raised_path: Seq<int>,
)
    requires
        well_formed(w, e, init),
        0 <= t < e.len(),
        0 <= k < w.len(),
        decodes_to(w, e, init, score, path),
        is_tag_seq(z, w.len() as int, e.len() as int + 1),
        z[t + 1] == k,
        delta > score - path_score(w, e, init, z),
        decodes_to(w, raised(e, t, k, delta), init, raised_score, raised_path),
    ensures
        raised_path[t] == k,
        raised_score >= path_score(w, e, init, z) + delta,
{
    let r = raised(e, t, k, delta);
    let lead = choose|lead: int|
        is_best(w, e, init, #[trigger] led_by(lead, path)) && score == path_score(
            w,
            e,
            init,
            led_by(lead, path),
        );
    let y = led_by(lead, path);
    let raised_lead = choose|lead: int|
        is_best(w, r, init, #[trigger] led_by(lead, raised_path)) && raised_score == path_score(
            w,
            r,
            init,
            led_by(lead, raised_path),
        );
    let x = led_by(raised_lead, raised_path);
    assert(r.len() == e.len());
    lemma_raised_prefix_score(w, e, init, t, k, delta, z, e.len());
    lemma_raised_prefix_score(w, e, init, t, k, delta, x, e.len());
    // `z` scores more under the raised emissions than anything did before,
    // and `x` scores at least as much as `z`.
    assert(is_tag_seq(z, w.len() as int, r.len() as int + 1));
    assert(path_score(w, r, init, z) <= path_score(w, r, init, x));
    assert(is_tag_seq(x, w.len() as int, e.len() as int + 1));
    assert(path_score(w, e, init, x) <= path_score(w, e, init, y));
    assert(x[t + 1] == raised_path[t]);
}

} // verus!
