//! Tag sequences and their scores: what the decoder is asked to maximise.
//!
//! With `n` tags, the last two are reserved: tag `n - 2` is START and tag
//! `n - 1` is END. A transition table `w` holds in `w[i][j]` the score of
//! moving into tag `i` from tag `j`. A candidate is a sequence `y` of one tag
//! more than there are steps: `y[0]` is the tag held before the first step and
//! `y[t + 1]` the tag chosen at step `t`.

use vstd::prelude::*;
use crate::score::has_shape;

verus! {

/// The START tag among `n` tags.
pub open spec fn start_tag(n: int) -> int {
    n - 2
}

/// The END tag among `n` tags.
pub open spec fn end_tag(n: int) -> int {
    n - 1
}

/// `y` holds `len` tags, each one of `n`.
pub open spec fn is_tag_seq(y: Seq<int>, n: int, len: int) -> bool {
    &&& y.len() == len
    &&& forall|i: int| 0 <= i < len ==> 0 <= #[trigger] y[i] < n
}

/// The three inputs of a decoding fit together: a square table over at least
/// the two reserved tags, and one score per tag in the initial vector and in
/// every step of the emissions.
pub open spec fn well_formed(w: Seq<Seq<int>>, e: Seq<Seq<int>>, init: Seq<int>) -> bool {
    &&& w.len() >= 2
    &&& has_shape(w, w.len() as int, w.len() as int)
    &&& has_shape(e, e.len() as int, w.len() as int)
    &&& init.len() == w.len()
}

/// The score that `y` has gathered after `t` steps: the initial score of
/// `y[0]`, then for each step the transition into the next tag and that tag's
/// emission.
pub open spec fn prefix_score(
    w: Seq<Seq<int>>,
    e: Seq<Seq<int>>,
    init: Seq<int>,
    y: Seq<int>,
    t: nat,
) -> int
    decreases t,
{
    if t == 0 {
        init[y[0]]
    } else {
        prefix_score(w, e, init, y, (t - 1) as nat) + w[y[t as int]][y[t - 1]] + e[t - 1][y[t as int]]
    }
}

/// The score of the whole of `y`: all steps, then the transition into END.
pub open spec fn path_score(w: Seq<Seq<int>>, e: Seq<Seq<int>>, init: Seq<int>, y: Seq<int>) -> int {
    prefix_score(w, e, init, y, e.len()) + w[end_tag(w.len() as int)][y[e.len() as int]]
}

/// Among the first `m` places, `i` is the last where `a` and `b` differ, and
/// there `a` holds the lower tag.
pub open spec fn lower_at(a: Seq<int>, b: Seq<int>, m: int, i: int) -> bool {
    &&& 0 <= i < m
    &&& a[i] < b[i]
    &&& forall|j: int| i < j < m ==> a[j] == b[j]
}

/// `a` comes no later than `b` when their first `m` places are compared from
/// the last place backwards.
pub open spec fn precedes_upto(a: Seq<int>, b: Seq<int>, m: int) -> bool {
    ||| forall|j: int| 0 <= j < m ==> a[j] == b[j]
    ||| exists|i: int| lower_at(a, b, m, i)
}

/// `a` comes no later than `b` in the order that compares the last tag first,
/// then the one before it, and so on down to the first.
pub open spec fn precedes(a: Seq<int>, b: Seq<int>) -> bool {
    a.len() == b.len() && precedes_upto(a, b, a.len() as int)
}

/// `y` is the decoder's choice: no candidate scores higher, and among the
/// candidates that score as high `y` comes first in the order of `precedes`.
/// This is the order that results from resolving every tie between tags in
/// favour of the lowest index, starting at the last step.
pub open spec fn is_best(w: Seq<Seq<int>>, e: Seq<Seq<int>>, init: Seq<int>, y: Seq<int>) -> bool {
    &&& is_tag_seq(y, w.len() as int, e.len() as int + 1)
    &&& forall|z: Seq<int>| #[trigger]
        is_tag_seq(z, w.len() as int, e.len() as int + 1) ==> {
            &&& path_score(w, e, init, z) <= path_score(w, e, init, y)
            &&& path_score(w, e, init, z) == path_score(w, e, init, y) ==> precedes(y, z)
        }
}

/// `path` preceded by the tag `lead`.
pub open spec fn led_by(lead: int, path: Seq<int>) -> Seq<int> {
    seq![lead] + path
}

/// `score` and `path` are the outcome of decoding: for some tag held before
/// the first step, that tag followed by `path` is the best candidate, and
/// `score` is what it scores.
pub open spec fn decodes_to(
    w: Seq<Seq<int>>,
    e: Seq<Seq<int>>,
    init: Seq<int>,
    score: int,
    path: Seq<int>,
) -> bool {
    exists|lead: int|
        is_best(w, e, init, #[trigger] led_by(lead, path)) && score == path_score(
            w,
            e,
            init,
            led_by(lead, path),
        )
}

/// The score gathered after `t` steps depends on the first `t + 1` tags only.
pub proof fn lemma_prefix_score_agrees(
    w: Seq<Seq<int>>,
    e: Seq<Seq<int>>,
    init: Seq<int>,
    a: Seq<int>,
    b: Seq<int>,
    t: nat,
)
    requires
        forall|i: int| 0 <= i <= t ==> a[i] == b[i],
    ensures
        prefix_score(w, e, init, a, t) == prefix_score(w, e, init, b, t),
    decreases t,
{
    if t > 0 {
        lemma_prefix_score_agrees(w, e, init, a, b, (t - 1) as nat);
    }
}

/// Two sequences that each come no later than the other are the same.
pub proof fn lemma_precedes_antisymmetric(a: Seq<int>, b: Seq<int>)
    requires
        precedes(a, b),
        precedes(b, a),
    ensures
        a == b,
{
    let m = a.len() as int;
    if exists|i: int| lower_at(a, b, m, i) {
        let i = choose|i: int| lower_at(a, b, m, i);
        if exists|k: int| lower_at(b, a, m, k) {
            let k = choose|k: int| lower_at(b, a, m, k);
            assert(i == k) by {
                if i < k {
                    assert(a[k] == b[k]);
                }
                if k < i {
                    assert(b[i] == a[i]);
                }
            }
        } else {
            assert(b[i] == a[i]);
        }
        assert(false);
    }
    if exists|k: int| lower_at(b, a, m, k) {
        let k = choose|k: int| lower_at(b, a, m, k);
        assert(a[k] == b[k]);
        assert(false);
    }
    assert(a =~= b);
}

/// There is at most one best candidate.
pub proof fn lemma_best_unique(
    w: Seq<Seq<int>>,
    e: Seq<Seq<int>>,
    init: Seq<int>,
    y1: Seq<int>,
    y2: Seq<int>,
)
    requires
        is_best(w, e, init, y1),
        is_best(w, e, init, y2),
    ensures
        y1 == y2,
{
    lemma_precedes_antisymmetric(y1, y2);
}

} // verus!
