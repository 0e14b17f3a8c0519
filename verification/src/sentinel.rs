//! The sentinel and what it guarantees.
//!
//! The sentinel marks the transitions that no path may take: into START and
//! out of END. It can only do so while the other scores are small beside it.
//! This module says what "small" means and proves that the recursion then
//! never selects a marked transition.

use vstd::prelude::*;
use crate::path::{end_tag, start_tag, well_formed};
use crate::score::{has_shape, SCORE_BOUND, SENTINEL};
use crate::trellis::{
    candidates, final_candidates, first_max, forward_scores, is_first_max, last_tag,
    lemma_first_max, lemma_first_max_unique, lemma_forward_len, lemma_trace_shape, pointer_table,
    step_forward, trellis_path, trellis_score,
};

verus! {

/// `x` is a free score: it lies within `SCORE_BOUND` of zero.
pub open spec fn is_free(x: int) -> bool {
    -SCORE_BOUND <= x <= SCORE_BOUND
}

/// Every transition into START and every transition out of END carries the
/// sentinel.
pub open spec fn sentinels_in_place(w: Seq<Seq<int>>) -> bool {
    forall|i: int, j: int|
        0 <= i < w.len() && 0 <= j < w.len() && (i == start_tag(w.len() as int) || j == end_tag(
            w.len() as int,
        )) ==> #[trigger] w[i][j] == SENTINEL
}

/// Every other transition score is free.
pub open spec fn transitions_free(w: Seq<Seq<int>>) -> bool {
    forall|i: int, j: int|
        0 <= i < w.len() && 0 <= j < w.len() && i != start_tag(w.len() as int) && j != end_tag(
            w.len() as int,
        ) ==> is_free(#[trigger] w[i][j])
}

/// Every score of `em` is free.
pub open spec fn all_free(em: Seq<int>) -> bool {
    forall|k: int| 0 <= k < em.len() ==> is_free(#[trigger] em[k])
}

/// Every emission score is free.
pub open spec fn emissions_free(e: Seq<Seq<int>>) -> bool {
    forall|t: int| 0 <= t < e.len() ==> all_free(#[trigger] e[t])
}

/// The usual initial scores: zero for START, the sentinel for every other tag.
pub open spec fn starts_at_start(init: Seq<int>) -> bool {
    &&& init[start_tag(init.len() as int)] == 0
    &&& forall|k: int|
        0 <= k < init.len() && k != start_tag(init.len() as int) ==> #[trigger] init[k] == SENTINEL
}

/// The inputs of a decoding fit together, the sentinels are in place, the
/// path starts at START, and every other score is free.
pub open spec fn sentinel_dominates(w: Seq<Seq<int>>, e: Seq<Seq<int>>, init: Seq<int>) -> bool {
    &&& well_formed(w, e, init)
    &&& sentinels_in_place(w)
    &&& transitions_free(w)
    &&& emissions_free(e)
    &&& starts_at_start(init)
}

/// What holds of the forward scores after one step or more: the scores of
/// all tags but START lie close together, and the score of START lies almost
/// a sentinel below them.
pub open spec fn settled(fv: Seq<int>) -> bool {
    let s = start_tag(fv.len() as int);
    &&& forall|x: int, y: int|
        0 <= x < fv.len() && 0 <= y < fv.len() && x != s && y != s ==> #[trigger] fv[x]
            <= #[trigger] fv[y] + 4 * SCORE_BOUND
    &&& forall|y: int|
        0 <= y < fv.len() && y != s ==> fv[s] <= #[trigger] fv[y] + SENTINEL + 7 * SCORE_BOUND
}

/// From the usual initial scores every tag is best reached from START.
proof fn lemma_first_choice(w: Seq<Seq<int>>, init: Seq<int>, k: int)
    requires
        w.len() >= 2,
        has_shape(w, w.len() as int, w.len() as int),
        init.len() == w.len(),
        sentinels_in_place(w),
        transitions_free(w),
        starts_at_start(init),
        0 <= k < w.len(),
    ensures
        first_max(candidates(init, w[k])) == start_tag(w.len() as int),
        k != start_tag(w.len() as int) ==> candidates(init, w[k])[start_tag(w.len() as int)]
            == w[k][start_tag(w.len() as int)],
        k == start_tag(w.len() as int) ==> candidates(init, w[k])[start_tag(w.len() as int)]
            == SENTINEL,
{
    let n = w.len() as int;
    let s = start_tag(n);
    let c = candidates(init, w[k]);
    assert(w[k].len() == n);
    assert(c[s] == init[s] + w[k][s]);
    if k != s {
        assert(is_free(w[k][s]));
    } else {
        assert(w[k][s] == SENTINEL);
    }
    assert forall|j: int| 0 <= j < c.len() && j != s implies c[j] < c[s] by {
        assert(c[j] == init[j] + w[k][j]);
        assert(init[j] == SENTINEL);
        if k == s || j == end_tag(n) {
            assert(w[k][j] == SENTINEL);
        } else {
            assert(is_free(w[k][j]));
        }
    }
    assert(is_first_max(c, s));
    lemma_first_max(c);
    lemma_first_max_unique(c, s, first_max(c));
}

/// After the first step the forward scores are settled.
proof fn lemma_first_step_settles(w: Seq<Seq<int>>, init: Seq<int>, em: Seq<int>)
    requires
        w.len() >= 2,
        has_shape(w, w.len() as int, w.len() as int),
        init.len() == w.len(),
        em.len() == w.len(),
        sentinels_in_place(w),
        transitions_free(w),
        starts_at_start(init),
        all_free(em),
    ensures
        settled(step_forward(w, init, em)),
{
    let n = w.len() as int;
    let s = start_tag(n);
    let next = step_forward(w, init, em);
    assert forall|x: int| 0 <= x < n && x != s implies -2 * SCORE_BOUND <= #[trigger] next[x] <= 2
        * SCORE_BOUND by {
        lemma_first_choice(w, init, x);
        assert(is_free(w[x][s]));
        assert(is_free(em[x]));
    }
    assert(next[s] <= SENTINEL + SCORE_BOUND) by {
        lemma_first_choice(w, init, s);
        assert(is_free(em[s]));
    }
}

/// From settled forward scores every tag but START is best reached from a
/// label: neither START nor END is selected as the tag before it.
proof fn lemma_later_choice(w: Seq<Seq<int>>, fv: Seq<int>, k: int)
    requires
        w.len() >= 3,
        has_shape(w, w.len() as int, w.len() as int),
        fv.len() == w.len(),
        sentinels_in_place(w),
        transitions_free(w),
        settled(fv),
        0 <= k < w.len(),
        k != start_tag(w.len() as int),
    ensures
        0 <= first_max(candidates(fv, w[k])) < start_tag(w.len() as int),
{
    let n = w.len() as int;
    let s = start_tag(n);
    let c = candidates(fv, w[k]);
    let p = first_max(c);
    assert(w[k].len() == n);
    lemma_first_max(c);
    assert(c[0] <= c[p]);
    assert(c[0] == fv[0] + w[k][0]);
    assert(is_free(w[k][0]));
    assert(c[p] == fv[p] + w[k][p]);
    if p == s {
        assert(is_free(w[k][s]));
        assert(fv[s] <= fv[0] + SENTINEL + 7 * SCORE_BOUND);
        assert(false);
    }
    if p == end_tag(n) {
        assert(w[k][p] == SENTINEL);
        assert(fv[p] <= fv[0] + 4 * SCORE_BOUND);
        assert(false);
    }
}

/// One more step leaves settled forward scores settled.
proof fn lemma_later_step_settles(w: Seq<Seq<int>>, fv: Seq<int>, em: Seq<int>)
    requires
        w.len() >= 3,
        has_shape(w, w.len() as int, w.len() as int),
        fv.len() == w.len(),
        em.len() == w.len(),
        sentinels_in_place(w),
        transitions_free(w),
        settled(fv),
        all_free(em),
    ensures
        settled(step_forward(w, fv, em)),
{
    let n = w.len() as int;
    let s = start_tag(n);
    let next = step_forward(w, fv, em);
    assert forall|x: int, y: int| 0 <= x < n && 0 <= y < n && x != s && y != s implies #[trigger] next[x]
        <= #[trigger] next[y] + 4 * SCORE_BOUND by {
        let cx = candidates(fv, w[x]);
        let cy = candidates(fv, w[y]);
        let p = first_max(cx);
        lemma_later_choice(w, fv, x);
        assert(w[x].len() == n);
        assert(w[y].len() == n);
        lemma_first_max(cy);
        assert(cx[p] == fv[p] + w[x][p]);
        assert(cy[p] == fv[p] + w[y][p]);
        assert(cy[p] <= cy[first_max(cy)]);
        assert(is_free(w[x][p]));
        assert(is_free(w[y][p]));
        assert(is_free(em[x]));
        assert(is_free(em[y]));
    }
    assert forall|y: int| 0 <= y < n && y != s implies next[s] <= #[trigger] next[y] + SENTINEL + 7
        * SCORE_BOUND by {
        let cs = candidates(fv, w[s]);
        let cy = candidates(fv, w[y]);
        let p = first_max(cs);
        assert(w[s].len() == n);
        assert(w[y].len() == n);
        lemma_first_max(cs);
        lemma_first_max(cy);
        assert(cs[p] == fv[p] + w[s][p]);
        assert(w[s][p] == SENTINEL);
        assert(is_free(em[s]));
        assert(is_free(em[y]));
        if p == end_tag(n) {
            assert(fv[p] <= fv[0] + 4 * SCORE_BOUND);
            assert(cy[0] == fv[0] + w[y][0]);
            assert(is_free(w[y][0]));
            assert(cy[0] <= cy[first_max(cy)]);
        } else {
            assert(cy[p] == fv[p] + w[y][p]);
            assert(is_free(w[y][p]));
            assert(cy[p] <= cy[first_max(cy)]);
        }
    }
}

/// After one step or more the forward scores are settled.
proof fn lemma_forward_settled(w: Seq<Seq<int>>, e: Seq<Seq<int>>, init: Seq<int>, t: nat)
    requires
        sentinel_dominates(w, e, init),
        w.len() >= 3,
        1 <= t <= e.len(),
    ensures
        settled(forward_scores(w, e, init, t)),
    decreases t,
{
    let s = (t - 1) as nat;
    assert(all_free(e[t - 1]));
    assert(e[t - 1].len() == w.len());
    if t == 1 {
        assert(forward_scores(w, e, init, s) == init);
        lemma_first_step_settles(w, init, e[0]);
    } else {
        lemma_forward_settled(w, e, init, s);
        lemma_forward_len(w, e, init, s);
        lemma_later_step_settles(w, forward_scores(w, e, init, s), e[t - 1]);
    }
}

/// The backpointer of every tag but START is START at the first step and a
/// label at every later step.
proof fn lemma_pointer_kinds(w: Seq<Seq<int>>, e: Seq<Seq<int>>, init: Seq<int>, t: int, k: int)
    requires
        sentinel_dominates(w, e, init),
        w.len() >= 3,
        0 <= t < e.len(),
        0 <= k < w.len(),
        k != start_tag(w.len() as int),
    ensures
        t == 0 ==> pointer_table(w, e, init)[t][k] == start_tag(w.len() as int),
        t > 0 ==> 0 <= pointer_table(w, e, init)[t][k] < start_tag(w.len() as int),
{
    if t == 0 {
        assert(forward_scores(w, e, init, 0) == init);
        lemma_first_choice(w, init, k);
    } else {
        lemma_forward_settled(w, e, init, t as nat);
        lemma_forward_len(w, e, init, t as nat);
        lemma_later_choice(w, forward_scores(w, e, init, t as nat), k);
    }
}

/// With no steps it is best to end where the path starts, in START; after
/// one step or more it is best to end in a label.
proof fn lemma_last_tag_kind(w: Seq<Seq<int>>, e: Seq<Seq<int>>, init: Seq<int>)
    requires
        sentinel_dominates(w, e, init),
        w.len() >= 3 || e.len() == 0,
    ensures
        e.len() == 0 ==> last_tag(w, e, init) == start_tag(w.len() as int),
        e.len() > 0 ==> 0 <= last_tag(w, e, init) < start_tag(w.len() as int),
{
    let n = w.len() as int;
    if e.len() == 0 {
        assert(forward_scores(w, e, init, 0) == init);
        lemma_first_choice(w, init, end_tag(n));
    } else {
        lemma_forward_settled(w, e, init, e.len());
        lemma_forward_len(w, e, init, e.len());
        lemma_later_choice(w, forward_scores(w, e, init, e.len()), end_tag(n));
    }
}

/// Every tag that the recursion selects for a step is a label.
proof fn lemma_selects_labels(w: Seq<Seq<int>>, e: Seq<Seq<int>>, init: Seq<int>, i: int)
    requires
        sentinel_dominates(w, e, init),
        w.len() >= 3,
        1 <= i <= e.len(),
    ensures
        0 <= trellis_path(w, e, init)[i] < start_tag(w.len() as int),
    decreases e.len() - i,
{
    let table = pointer_table(w, e, init);
    let y = trellis_path(w, e, init);
    lemma_trace_shape(table, e.len(), last_tag(w, e, init));
    if i == e.len() {
        lemma_last_tag_kind(w, e, init);
    } else {
        lemma_selects_labels(w, e, init, i + 1);
        assert(y[i] == table[i][y[i + 1]]);
        lemma_pointer_kinds(w, e, init, i, y[i + 1]);
    }
}

/// While the sentinel dominates, the sequence that the recursion selects
/// starts in START and then holds labels only. Without labels this is stated
/// of the empty sequence of steps alone: there every step would have to
/// select a reserved tag.
pub proof fn lemma_trellis_keeps_to_labels(w: Seq<Seq<int>>, e: Seq<Seq<int>>, init: Seq<int>)
    requires
        sentinel_dominates(w, e, init),
        w.len() >= 3 || e.len() == 0,
    ensures
        trellis_path(w, e, init).len() == e.len() + 1,
        trellis_path(w, e, init)[0] == start_tag(w.len() as int),
        forall|i: int|
            1 <= i <= e.len() ==> 0 <= #[trigger] trellis_path(w, e, init)[i] < start_tag(
                w.len() as int,
            ),
{
    let table = pointer_table(w, e, init);
    let y = trellis_path(w, e, init);
    lemma_trace_shape(table, e.len(), last_tag(w, e, init));
    lemma_last_tag_kind(w, e, init);
    if e.len() > 0 {
        assert forall|i: int| 1 <= i <= e.len() implies 0 <= #[trigger] y[i] < start_tag(
            w.len() as int,
        ) by {
            lemma_selects_labels(w, e, init, i);
        }
        assert(y[0] == table[0][y[1]]);
        lemma_pointer_kinds(w, e, init, 0, y[1]);
    }
}

/// With no steps the recursion scores the one transition from START into END.
pub proof fn lemma_trellis_without_steps(w: Seq<Seq<int>>, e: Seq<Seq<int>>, init: Seq<int>)
    requires
        well_formed(w, e, init),
        e.len() == 0,
    ensures
        trellis_path(w, e, init) == seq![last_tag(w, e, init)],
        0 <= last_tag(w, e, init) < w.len(),
        forall|j: int|
            0 <= j < w.len() ==> init[j] + #[trigger] w[end_tag(w.len() as int)][j]
                <= trellis_score(w, e, init),
        trellis_score(w, e, init) == init[last_tag(w, e, init)] + w[end_tag(
            w.len() as int,
        )][last_tag(w, e, init)],
{
    let n = w.len() as int;
    let c = final_candidates(w, e, init);
    assert(forward_scores(w, e, init, 0) == init);
    assert(w[end_tag(n)].len() == n);
    lemma_first_max(c);
    assert forall|j: int| 0 <= j < w.len() implies init[j] + #[trigger] w[end_tag(n)][j]
        <= c[first_max(c)] by {
        assert(c[j] == init[j] + w[end_tag(n)][j]);
    }
    assert(c[first_max(c)] == init[first_max(c)] + w[end_tag(n)][first_max(c)]);
}

} // verus!
