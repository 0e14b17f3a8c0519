//! The forward recursion, its backpointers, and the proof that following the
//! backpointers from the best last tag yields the best candidate.

use vstd::prelude::*;
use crate::path::{
    end_tag, is_best, is_tag_seq, lower_at, path_score, precedes, precedes_upto, prefix_score,
    well_formed, lemma_prefix_score_agrees,
};

verus! {

/// For each previous tag `j`, the score of arriving from it: what the path
/// into `j` has gathered, plus the transition out of `j` that `row` gives.
pub open spec fn candidates(fv: Seq<int>, row: Seq<int>) -> Seq<int> {
    Seq::new(fv.len(), |j: int| fv[j] + row[j])
}

/// `i` is where `c` first reaches its maximum.
pub open spec fn is_first_max(c: Seq<int>, i: int) -> bool {
    &&& 0 <= i < c.len()
    &&& forall|j: int| 0 <= j < c.len() ==> c[j] <= c[i]
    &&& forall|j: int| 0 <= j < i ==> c[j] < c[i]
}

/// The index at which `c` first reaches its maximum; `0` for an empty `c`.
pub open spec fn first_max(c: Seq<int>) -> int
    decreases c.len(),
{
    if c.len() <= 1 {
        0
    } else {
        let p = first_max(c.drop_last());
        if c.last() > c[p] {
            c.len() - 1
        } else {
            p
        }
    }
}

/// `first_max` finds the first maximum of every sequence that has one.
pub proof fn lemma_first_max(c: Seq<int>)
    requires
        c.len() > 0,
    ensures
        is_first_max(c, first_max(c)),
    decreases c.len(),
{
    if c.len() > 1 {
        let d = c.drop_last();
        lemma_first_max(d);
        let p = first_max(d);
        assert(forall|j: int| 0 <= j < d.len() ==> d[j] == c[j]);
        assert(c[p] == d[p]);
        assert(forall|j: int| 0 <= j < d.len() ==> c[j] <= c[p]) by {
            assert forall|j: int| 0 <= j < d.len() implies c[j] <= c[p] by {
                assert(d[j] <= d[p]);
            }
        }
        assert(forall|j: int| 0 <= j < p ==> c[j] < c[p]) by {
            assert forall|j: int| 0 <= j < p implies c[j] < c[p] by {
                assert(d[j] < d[p]);
            }
        }
    }
}

/// A sequence reaches its maximum first at one index only.
pub proof fn lemma_first_max_unique(c: Seq<int>, i: int, j: int)
    requires
        is_first_max(c, i),
        is_first_max(c, j),
    ensures
        i == j,
{
    if i < j {
        assert(c[i] < c[j]);
        assert(c[j] <= c[i]);
    }
    if j < i {
        assert(c[j] < c[i]);
        assert(c[i] <= c[j]);
    }
}

/// The backpointers of one step: for each tag `k`, the previous tag from
/// which it is best reached, the lowest in case of a tie.
pub open spec fn step_back(w: Seq<Seq<int>>, fv: Seq<int>) -> Seq<int> {
    Seq::new(w.len(), |k: int| first_max(candidates(fv, w[k])))
}

/// The forward scores after one step: for each tag `k`, the best score of
/// arriving at it, plus its emission.
pub open spec fn step_forward(w: Seq<Seq<int>>, fv: Seq<int>, em: Seq<int>) -> Seq<int> {
    Seq::new(
        w.len(),
        |k: int|
            {
                let c = candidates(fv, w[k]);
                c[first_max(c)] + em[k]
            },
    )
}

/// The forward scores after `t` steps: for each tag, the best score of a
/// candidate that holds this tag after step `t`.
pub open spec fn forward_scores(w: Seq<Seq<int>>, e: Seq<Seq<int>>, init: Seq<int>, t: nat) -> Seq<
    int,
>
    decreases t,
{
    if t == 0 {
        init
    } else {
        step_forward(w, forward_scores(w, e, init, (t - 1) as nat), e[t - 1])
    }
}

/// One row of backpointers for each step.
pub open spec fn pointer_table(w: Seq<Seq<int>>, e: Seq<Seq<int>>, init: Seq<int>) -> Seq<Seq<int>> {
    Seq::new(e.len(), |t: int| step_back(w, forward_scores(w, e, init, t as nat)))
}

/// The tags met when the backpointers in `table` are followed from tag `k`
/// after step `t` back to the start, in the order of the steps.
pub open spec fn trace_back(table: Seq<Seq<int>>, t: nat, k: int) -> Seq<int>
    decreases t,
{
    if t == 0 {
        seq![k]
    } else {
        trace_back(table, (t - 1) as nat, table[t - 1][k]).push(k)
    }
}

/// The scores of ending in each tag: its forward score after the last step
/// plus the transition into END.
pub open spec fn final_candidates(w: Seq<Seq<int>>, e: Seq<Seq<int>>, init: Seq<int>) -> Seq<int> {
    candidates(forward_scores(w, e, init, e.len()), w[end_tag(w.len() as int)])
}

/// The tag in which it is best to end.
pub open spec fn last_tag(w: Seq<Seq<int>>, e: Seq<Seq<int>>, init: Seq<int>) -> int {
    first_max(final_candidates(w, e, init))
}

/// The sequence that the recursion selects.
pub open spec fn trellis_path(w: Seq<Seq<int>>, e: Seq<Seq<int>>, init: Seq<int>) -> Seq<int> {
    trace_back(pointer_table(w, e, init), e.len(), last_tag(w, e, init))
}

/// The score that the recursion assigns to its selection.
pub open spec fn trellis_score(w: Seq<Seq<int>>, e: Seq<Seq<int>>, init: Seq<int>) -> int {
    final_candidates(w, e, init)[last_tag(w, e, init)]
}

/// Every vector of forward scores has one entry per tag.
pub proof fn lemma_forward_len(w: Seq<Seq<int>>, e: Seq<Seq<int>>, init: Seq<int>, t: nat)
    requires
        init.len() == w.len(),
    ensures
        forward_scores(w, e, init, t).len() == w.len(),
    decreases t,
{
}

/// A trace after `t` steps holds `t + 1` tags, ends in the tag it started
/// from, and each of its tags is the backpointer of the next.
pub proof fn lemma_trace_shape(table: Seq<Seq<int>>, t: nat, k: int)
    ensures
        trace_back(table, t, k).len() == t + 1,
        trace_back(table, t, k)[t as int] == k,
        forall|i: int|
            1 <= i <= t ==> trace_back(table, t, k)[i - 1] == table[i - 1][#[trigger] trace_back(
                table,
                t,
                k,
            )[i]],
    decreases t,
{
    if t > 0 {
        let j = table[t - 1][k];
        let shorter = trace_back(table, (t - 1) as nat, j);
        lemma_trace_shape(table, (t - 1) as nat, j);
        let y = trace_back(table, t, k);
        assert(y == shorter.push(k));
        assert forall|i: int| 1 <= i <= t implies y[i - 1] == table[i - 1][#[trigger] y[i]] by {
            if i < t {
                assert(y[i] == shorter[i]);
                assert(y[i - 1] == shorter[i - 1]);
            } else {
                assert(y[i - 1] == shorter[t - 1]);
            }
        }
    }
}

/// The backpointer of every tag at every step is a tag.
pub proof fn lemma_pointers_are_tags(w: Seq<Seq<int>>, e: Seq<Seq<int>>, init: Seq<int>, t: int, k: int)
    requires
        well_formed(w, e, init),
        0 <= t < e.len(),
        0 <= k < w.len(),
    ensures
        0 <= pointer_table(w, e, init)[t][k] < w.len(),
{
    let fv = forward_scores(w, e, init, t as nat);
    lemma_forward_len(w, e, init, t as nat);
    lemma_first_max(candidates(fv, w[k]));
}

/// A trace holds tags only.
pub proof fn lemma_trace_is_tag_seq(w: Seq<Seq<int>>, e: Seq<Seq<int>>, init: Seq<int>, t: nat, k: int)
    requires
        well_formed(w, e, init),
        t <= e.len(),
        0 <= k < w.len(),
    ensures
        is_tag_seq(trace_back(pointer_table(w, e, init), t, k), w.len() as int, t as int + 1),
    decreases t,
{
    let table = pointer_table(w, e, init);
    lemma_trace_shape(table, t, k);
    if t > 0 {
        lemma_pointers_are_tags(w, e, init, t - 1, k);
        lemma_trace_is_tag_seq(w, e, init, (t - 1) as nat, table[t - 1][k]);
        let shorter = trace_back(table, (t - 1) as nat, table[t - 1][k]);
        let y = trace_back(table, t, k);
        assert forall|i: int| 0 <= i < t + 1 implies 0 <= #[trigger] y[i] < w.len() by {
            if i < t {
                assert(y[i] == shorter[i]);
            }
        }
    }
}

/// No candidate has gathered more after `t` steps than the forward score of
/// the tag it then holds.
pub proof fn lemma_forward_bounds(
    w: Seq<Seq<int>>,
    e: Seq<Seq<int>>,
    init: Seq<int>,
    y: Seq<int>,
    t: nat,
)
    requires
        well_formed(w, e, init),
        t <= e.len(),
        y.len() > t,
        forall|i: int| 0 <= i <= t ==> 0 <= #[trigger] y[i] < w.len(),
    ensures
        prefix_score(w, e, init, y, t) <= forward_scores(w, e, init, t)[y[t as int]],
    decreases t,
{
    if t > 0 {
        let s = (t - 1) as nat;
        lemma_forward_bounds(w, e, init, y, s);
        lemma_forward_len(w, e, init, s);
        let fv = forward_scores(w, e, init, s);
        let k = y[t as int];
        let j = y[t - 1];
        let c = candidates(fv, w[k]);
        lemma_first_max(c);
        assert(c[j] == fv[j] + w[k][j]);
        assert(c[j] <= c[first_max(c)]);
        assert(forward_scores(w, e, init, t)[k] == c[first_max(c)] + e[t - 1][k]);
    }
}

/// The trace from tag `k` after `t` steps has gathered exactly the forward
/// score of `k`.
pub proof fn lemma_trace_attains(w: Seq<Seq<int>>, e: Seq<Seq<int>>, init: Seq<int>, t: nat, k: int)
    requires
        well_formed(w, e, init),
        t <= e.len(),
        0 <= k < w.len(),
    ensures
        prefix_score(w, e, init, trace_back(pointer_table(w, e, init), t, k), t) == forward_scores(
            w,
            e,
            init,
            t,
        )[k],
    decreases t,
{
    let table = pointer_table(w, e, init);
    let y = trace_back(table, t, k);
    lemma_trace_shape(table, t, k);
    if t > 0 {
        let s = (t - 1) as nat;
        let fv = forward_scores(w, e, init, s);
        let c = candidates(fv, w[k]);
        let j = table[t - 1][k];
        assert(j == first_max(c));
        lemma_pointers_are_tags(w, e, init, t - 1, k);
        lemma_forward_len(w, e, init, s);
        let shorter = trace_back(table, s, j);
        lemma_trace_shape(table, s, j);
        lemma_trace_attains(w, e, init, s, j);
        assert(y == shorter.push(k));
        assert forall|i: int| 0 <= i <= s implies y[i] == shorter[i] by {}
        lemma_prefix_score_agrees(w, e, init, y, shorter, s);
        assert(y[t - 1] == j);
        assert(c[j] == fv[j] + w[k][j]);
        assert(forward_scores(w, e, init, t)[k] == c[j] + e[t - 1][k]);
    }
}

/// A candidate that has gathered the forward score of the tag it holds after
/// `t` steps comes no earlier, over its first `t + 1` tags, than the trace
/// from that tag.
pub proof fn lemma_trace_precedes(
    w: Seq<Seq<int>>,
    e: Seq<Seq<int>>,
    init: Seq<int>,
    y: Seq<int>,
    t: nat,
)
    requires
        well_formed(w, e, init),
        t <= e.len(),
        y.len() > t,
        forall|i: int| 0 <= i <= t ==> 0 <= #[trigger] y[i] < w.len(),
        prefix_score(w, e, init, y, t) == forward_scores(w, e, init, t)[y[t as int]],
    ensures
        precedes_upto(trace_back(pointer_table(w, e, init), t, y[t as int]), y, t as int + 1),
    decreases t,
{
    let table = pointer_table(w, e, init);
    let k = y[t as int];
    let tr = trace_back(table, t, k);
    lemma_trace_shape(table, t, k);
    if t == 0 {
        assert forall|j: int| 0 <= j < t + 1 implies tr[j] == y[j] by {}
    } else {
        let s = (t - 1) as nat;
        let fv = forward_scores(w, e, init, s);
        let c = candidates(fv, w[k]);
        let j = y[t - 1];
        let p = table[t - 1][k];
        assert(p == first_max(c));
        lemma_forward_len(w, e, init, s);
        lemma_first_max(c);
        lemma_forward_bounds(w, e, init, y, s);
        assert(c[j] == fv[j] + w[k][j]);
        assert(forward_scores(w, e, init, t)[k] == c[p] + e[t - 1][k]);
        // The candidate's step into `k` is as good as the best one, so the
        // tag it came from is a maximum too, and its prefix is itself tight.
        assert(c[j] == c[p]);
        assert(prefix_score(w, e, init, y, s) == fv[j]);
        let shorter = trace_back(table, s, p);
        lemma_trace_shape(table, s, p);
        assert(tr == shorter.push(k));
        if p < j {
            assert(tr[t - 1] == p);
            assert(lower_at(tr, y, t as int + 1, t - 1));
        } else {
            assert(p == j);
            lemma_trace_precedes(w, e, init, y, s);
            if exists|i: int| lower_at(shorter, y, t as int, i) {
                let i = choose|i: int| lower_at(shorter, y, t as int, i);
                assert(tr[i] == shorter[i]);
                assert forall|m: int| i < m < t + 1 implies tr[m] == y[m] by {
                    if m < t {
                        assert(tr[m] == shorter[m]);
                    }
                }
                assert(lower_at(tr, y, t as int + 1, i));
            } else {
                assert forall|m: int| 0 <= m < t + 1 implies tr[m] == y[m] by {
                    if m < t {
                        assert(tr[m] == shorter[m]);
                    }
                }
            }
        }
    }
}

/// The sequence that the recursion selects is the best candidate, and the
/// score that the recursion assigns to it is what it scores.
pub proof fn lemma_trellis_is_best(w: Seq<Seq<int>>, e: Seq<Seq<int>>, init: Seq<int>)
    requires
        well_formed(w, e, init),
    ensures
        is_best(w, e, init, trellis_path(w, e, init)),
        path_score(w, e, init, trellis_path(w, e, init)) == trellis_score(w, e, init),
        0 <= last_tag(w, e, init) < w.len(),
{
    let n = w.len() as int;
    let len = e.len();
    let fv = forward_scores(w, e, init, len);
    let c = final_candidates(w, e, init);
    let last = last_tag(w, e, init);
    let best = trellis_path(w, e, init);
    lemma_forward_len(w, e, init, len);
    lemma_first_max(c);
    lemma_trace_shape(pointer_table(w, e, init), len, last);
    lemma_trace_is_tag_seq(w, e, init, len, last);
    lemma_trace_attains(w, e, init, len, last);
    assert(c[last] == fv[last] + w[n - 1][last]);
    assert(path_score(w, e, init, best) == c[last]);
    assert forall|z: Seq<int>| #[trigger] is_tag_seq(z, n, len as int + 1) implies {
        &&& path_score(w, e, init, z) <= path_score(w, e, init, best)
        &&& path_score(w, e, init, z) == path_score(w, e, init, best) ==> precedes(best, z)
    } by {
        let k = z[len as int];
        lemma_forward_bounds(w, e, init, z, len);
        assert(c[k] == fv[k] + w[n - 1][k]);
        assert(c[k] <= c[last]);
        if path_score(w, e, init, z) == path_score(w, e, init, best) {
            assert(c[k] == c[last]);
            assert(prefix_score(w, e, init, z, len) == fv[k]);
            if last < k {
                assert(lower_at(best, z, len as int + 1, len as int));
            } else {
                assert(last == k);
                lemma_trace_precedes(w, e, init, z, len);
            }
        }
    }
}

} // verus!
