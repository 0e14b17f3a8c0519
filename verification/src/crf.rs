//! The model and its decoder.

use vstd::prelude::*;
use crate::path::{decodes_to, is_tag_seq, led_by, well_formed};
use crate::sentinel::{sentinels_in_place, transitions_free};
use crate::score::{grid, has_shape, ints, wide, SENTINEL};
use crate::trellis::{
    candidates, first_max, forward_scores, is_first_max, last_tag, lemma_first_max,
    lemma_first_max_unique, lemma_trace_shape, lemma_trellis_is_best,
    pointer_table, step_back, step_forward, trace_back, trellis_path, trellis_score,
};

verus! {

/// Why a decoding was refused.
#[derive(Debug, Clone, Copy, PartialEq, Eq)]
pub enum DecodeError {
    /// The transition table is not square over `n >= 2` tags, or the initial
    /// scores or one step of the emissions do not hold one score per tag, or
    /// there are more steps than a vector can hold.
    DimensionMismatch,
}

/// A linear-chain conditional random field over `n - 2` labels and the two
/// reserved tags START (`n - 2`) and END (`n - 1`).
#[allow(non_snake_case)]
pub struct CRF {
    /// Transition scores: `W[i][j]` is the score of moving into tag `i` from
    /// tag `j`.
    pub W: Vec<Vec<i64>>,
    /// The number of tags, the two reserved ones included.
    pub n: i64,
}

impl View for CRF {
    type V = Seq<Seq<int>>;

    /// The transition table as rows of integers.
    open spec fn view(&self) -> Seq<Seq<int>> {
        grid(self.W@)
    }
}

/// A vector of tags, read as mathematical integers.
spec fn places(v: Seq<usize>) -> Seq<int> {
    Seq::new(v.len(), |i: int| v[i] as int)
}

/// Rows of backpointers, read as mathematical integers.
spec fn place_rows(m: Seq<Vec<usize>>) -> Seq<Seq<int>> {
    Seq::new(m.len(), |i: int| places(m[i]@))
}

/// The least forward score that `t` steps can lead to.
spec fn floor_after(t: int) -> int {
    -(2 * t + 1) * 0x8000_0000_0000_0000
}

/// The greatest forward score that `t` steps can lead to.
spec fn ceiling_after(t: int) -> int {
    (2 * t + 1) * 0x7fff_ffff_ffff_ffff
}

/// Every entry of `fv` is a score that `t` steps can lead to.
spec fn reachable_after(fv: Seq<i128>, t: int) -> bool {
    forall|k: int| 0 <= k < fv.len() ==> floor_after(t) <= #[trigger] fv[k] <= ceiling_after(t)
}

/// Whether every row of `rows` has `width` entries.
fn all_of_width(rows: &Vec<Vec<i64>>, width: usize) -> (ok: bool)
    ensures
        ok == has_shape(grid(rows@), rows@.len() as int, width as int),
{
    let mut i: usize = 0;
    while i < rows.len()
        invariant
            i <= rows.len(),
            forall|r: int| 0 <= r < i ==> (#[trigger] grid(rows@)[r]).len() == width,
        decreases rows.len() - i,
    {
        if rows[i].len() != width {
            assert(grid(rows@)[i as int].len() != width);
            return false;
        }
        i += 1;
    }
    true
}

/// The index at which `forward_var[j] + row[j]` is first greatest, and that
/// greatest sum.
fn best_previous(forward_var: &Vec<i128>, row: &Vec<i64>) -> (best: (usize, i128))
    requires
        row.len() > 0,
        forward_var.len() == row.len(),
        forall|j: int|
            0 <= j < forward_var.len() ==> i128::MIN - i64::MIN <= #[trigger] forward_var[j]
                <= i128::MAX - i64::MAX,
    ensures
        best.0 == first_max(candidates(wide(forward_var@), ints(row@))),
        best.0 < row.len(),
        best.1 == forward_var[best.0 as int] + row[best.0 as int],
{
    let ghost c = candidates(wide(forward_var@), ints(row@));
    let mut best_tag_id: usize = 0;
    let mut best_score: i128 = forward_var[0] + row[0] as i128;
    let mut j: usize = 1;
    while j < row.len()
        invariant
            1 <= j <= row.len(),
            forward_var.len() == row.len(),
            c == candidates(wide(forward_var@), ints(row@)),
            forall|j: int|
                0 <= j < forward_var.len() ==> i128::MIN - i64::MIN <= #[trigger] forward_var[j]
                    <= i128::MAX - i64::MAX,
            best_tag_id < j,
            best_score == c[best_tag_id as int],
            forall|i: int| 0 <= i < j ==> c[i] <= best_score,
            forall|i: int| 0 <= i < best_tag_id ==> c[i] < best_score,
        decreases row.len() - j,
    {
        let score: i128 = forward_var[j] + row[j] as i128;
        if score > best_score {
            best_tag_id = j;
            best_score = score;
        }
        j += 1;
    }
    proof {
        assert(is_first_max(c, best_tag_id as int));
        lemma_first_max(c);
        lemma_first_max_unique(c, best_tag_id as int, first_max(c));
    }
    (best_tag_id, best_score)
}

/// The accumulated form of a vector of scores.
fn widened(scores: &Vec<i64>) -> (out: Vec<i128>)
    ensures
        wide(out@) == ints(scores@),
{
    let mut out: Vec<i128> = Vec::new();
    let mut i: usize = 0;
    while i < scores.len()
        invariant
            i <= scores.len(),
            out.len() == i,
            forall|k: int| 0 <= k < i ==> out[k] == scores[k],
        decreases scores.len() - i,
    {
        out.push(scores[i] as i128);
        i += 1;
    }
    assert(wide(out@) =~= ints(scores@));
    out
}

/// `items` in the opposite order.
fn reversed(items: &Vec<i64>) -> (out: Vec<i64>)
    ensures
        out@ == items@.reverse(),
{
    let mut out: Vec<i64> = Vec::new();
    let mut i: usize = items.len();
    while i > 0
        invariant
            i <= items.len(),
            out.len() == items.len() - i,
            forall|k: int| 0 <= k < out.len() ==> out[k] == items[items.len() - 1 - k],
        decreases i,
    {
        i -= 1;
        out.push(items[i]);
    }
    assert(out@ =~= items@.reverse());
    out
}

/// The tags chosen at each step when the backpointers are followed from
/// `last`, in the order of the steps. The tag held before the first step,
/// where the walk ends, is left out.
fn backtrace(backpointers: &Vec<Vec<usize>>, last: usize, n: usize) -> (best_path: Vec<i64>)
    requires
        n <= i64::MAX,
        last < n,
        forall|t: int|
            0 <= t < backpointers.len() ==> (#[trigger] backpointers[t]).len() == n,
        forall|t: int, k: int|
            0 <= t < backpointers.len() && 0 <= k < n ==> #[trigger] backpointers[t][k] < n,
    ensures
        ints(best_path@) == trace_back(
            place_rows(backpointers@),
            backpointers.len() as nat,
            last as int,
        ).subrange(1, backpointers.len() + 1),
{
    let steps: usize = backpointers.len();
    let ghost table = place_rows(backpointers@);
    let ghost y = trace_back(table, steps as nat, last as int);
    proof {
        lemma_trace_shape(table, steps as nat, last as int);
    }
    let mut best_path: Vec<i64> = Vec::new();
    best_path.push(last as i64);
    let mut best_tag_id: usize = last;
    let mut t: usize = steps;
    while t > 0
        invariant
            t <= steps,
            steps == backpointers.len(),
            n <= i64::MAX,
            table == place_rows(backpointers@),
            y == trace_back(table, steps as nat, last as int),
            y.len() == steps + 1,
            forall|i: int| 1 <= i <= steps ==> y[i - 1] == table[i - 1][#[trigger] y[i]],
            forall|t: int|
                0 <= t < backpointers.len() ==> (#[trigger] backpointers[t]).len() == n,
            forall|t: int, k: int|
                0 <= t < backpointers.len() && 0 <= k < n ==> #[trigger] backpointers[t][k] < n,
            best_tag_id < n,
            best_tag_id == y[t as int],
            best_path.len() == steps - t + 1,
            forall|i: int| 0 <= i < best_path.len() ==> best_path[i] == y[steps - i],
        decreases t,
    {
        t -= 1;
        proof {
            assert(y[t as int] == table[t as int][y[t + 1]]);
            assert(table[t as int][best_tag_id as int] == backpointers[t as int][best_tag_id as int]);
        }
        best_tag_id = backpointers[t][best_tag_id];
        best_path.push(best_tag_id as i64);
    }
    let _start = best_path.pop();
    let best_path = reversed(&best_path);
    assert(ints(best_path@) =~= y.subrange(1, steps + 1));
    best_path
}

impl CRF {
    /// The table is square over `n` tags, and the two reserved tags are among
    /// them.
    pub open spec fn wf(&self) -> bool {
        &&& self.n >= 2
        &&& has_shape(self@, self.n as int, self.n as int)
    }

    /// The model is well formed and the inputs of a decoding fit it: one
    /// initial score per tag, one emission score per tag at every step, and no
    /// more steps than a vector can hold.
    pub open spec fn accepts(&self, emissions: Seq<Vec<i64>>, initial: Seq<i64>) -> bool {
        &&& self.wf()
        &&& initial.len() == self.n
        &&& has_shape(grid(emissions), emissions.len() as int, self.n as int)
        &&& emissions.len() <= isize::MAX
    }

    /// A model over `n` labels. Its free transition scores are taken from
    /// `seed`, a table over the `n + 2` tags; the transitions into START and
    /// out of END are set to the sentinel, whatever `seed` holds there.
    pub fn new(n: i64, seed: &Vec<Vec<i64>>) -> (crf: CRF)
        requires
            0 <= n <= i64::MAX - 2,
            has_shape(grid(seed@), n + 2, n + 2),
        ensures
            crf.n == n + 2,
            crf.wf(),
            sentinels_in_place(crf@),
            transitions_free(grid(seed@)) ==> transitions_free(crf@),
            forall|i: int, j: int|
                0 <= i < n + 2 && 0 <= j < n + 2 && i != n && j != n + 1 ==> #[trigger] crf@[i][j]
                    == grid(seed@)[i][j],
    {
        let size: usize = seed.len();
        let mut rows: Vec<Vec<i64>> = Vec::new();
        let mut i: usize = 0;
        while i < size
            invariant
                i <= size,
                size == n + 2,
                has_shape(grid(seed@), n + 2, n + 2),
                rows.len() == i,
                forall|r: int| 0 <= r < i ==> (#[trigger] rows[r]).len() == size,
                forall|r: int, c: int|
                    0 <= r < i && 0 <= c < size ==> #[trigger] rows[r][c] == if r == n || c == n
                        + 1 {
                        SENTINEL
                    } else {
                        seed[r][c]
                    },
            decreases size - i,
        {
            let mut row: Vec<i64> = Vec::new();
            let mut j: usize = 0;
            assert(grid(seed@)[i as int].len() == size);
            while j < size
                invariant
                    j <= size,
                    i < size,
                    size == n + 2,
                    seed.len() == size,
                    seed[i as int].len() == size,
                    row.len() == j,
                    forall|c: int|
                        0 <= c < j ==> #[trigger] row[c] == if i == n || c == n + 1 {
                            SENTINEL
                        } else {
                            seed[i as int][c]
                        },
                decreases size - j,
            {
                if size - i == 2 || size - j == 1 {
                    row.push(SENTINEL);
                } else {
                    row.push(seed[i][j]);
                }
                j += 1;
            }
            rows.push(row);
            i += 1;
        }
        let crf = CRF { W: rows, n: n + 2 };
        proof {
            assert forall|r: int| 0 <= r < n + 2 implies (#[trigger] crf@[r]).len() == n + 2 by {
                assert(crf@[r] == ints(crf.W@[r]@));
                assert(crf.W@[r].len() == size);
            }
            assert forall|r: int, c: int| 0 <= r < n + 2 && 0 <= c < n + 2 implies #[trigger] crf@[r][c]
                == if r == n || c == n + 1 {
                SENTINEL as int
            } else {
                grid(seed@)[r][c]
            } by {
                assert(crf@[r] == ints(crf.W@[r]@));
                assert(crf.W@[r].len() == size);
                assert(crf.W@[r][c] == if r == n || c == n + 1 {
                    SENTINEL
                } else {
                    seed[r][c]
                });
                assert(grid(seed@)[r] == ints(seed@[r]@));
                assert(grid(seed@)[r].len() == n + 2);
            }
        }
        crf
    }

    /// Whether the model is well formed and the inputs of a decoding fit it.
    pub fn check_dimensions(&self, emissions: &Vec<Vec<i64>>, initial: &Vec<i64>) -> (ok: bool)
        ensures
            ok == self.accepts(emissions@, initial@),
    {
        if self.n < 2 {
            return false;
        }
        let n: usize = self.W.len();
        if n as i128 != self.n as i128 {
            return false;
        }
        if !all_of_width(&self.W, n) {
            return false;
        }
        if initial.len() != n {
            return false;
        }
        if !all_of_width(emissions, n) {
            return false;
        }
        emissions.len() <= isize::MAX as usize
    }

    /// One step of the forward recursion: for each tag the best score of
    /// arriving at it plus its emission, and the tag from which it is best
    /// reached.
    fn advance(&self, forward_var: &Vec<i128>, emission: &Vec<i64>) -> (next: (Vec<i128>, Vec<usize>))
        requires
            self.wf(),
            forward_var.len() == self.n,
            emission.len() == self.n,
            forall|j: int|
                0 <= j < forward_var.len() ==> i128::MIN - 2 * i64::MIN <= #[trigger] forward_var[j]
                    <= i128::MAX - 2 * i64::MAX,
        ensures
            wide(next.0@) == step_forward(self@, wide(forward_var@), ints(emission@)),
            places(next.1@) == step_back(self@, wide(forward_var@)),
            next.0.len() == self.n,
            next.1.len() == self.n,
            forall|k: int| 0 <= k < self.n ==> #[trigger] next.1[k] < self.n,
            forall|k: int|
                0 <= k < self.n ==> #[trigger] next.0[k] == forward_var[next.1[k] as int]
                    + self.W[k][next.1[k] as int] + emission[k],
    {
        let n: usize = self.W.len();
        let ghost fv = wide(forward_var@);
        let mut bptrs_t: Vec<usize> = Vec::new();
        let mut viterbivars_t: Vec<i128> = Vec::new();
        let mut next_tag: usize = 0;
        while next_tag < n
            invariant
                next_tag <= n,
                n == self.n,
                n == self.W.len(),
                self.wf(),
                fv == wide(forward_var@),
                forward_var.len() == n,
                emission.len() == n,
                forall|j: int|
                    0 <= j < forward_var.len() ==> i128::MIN - 2 * i64::MIN <= #[trigger] forward_var[j]
                        <= i128::MAX - 2 * i64::MAX,
                bptrs_t.len() == next_tag,
                viterbivars_t.len() == next_tag,
                forall|k: int|
                    0 <= k < next_tag ==> #[trigger] bptrs_t[k] == first_max(
                        candidates(fv, self@[k]),
                    ),
                forall|k: int| 0 <= k < next_tag ==> #[trigger] bptrs_t[k] < n,
                forall|k: int|
                    0 <= k < next_tag ==> #[trigger] viterbivars_t[k] == forward_var[bptrs_t[k] as int]
                        + self.W[k][bptrs_t[k] as int] + emission[k],
            decreases n - next_tag,
        {
            proof {
                assert(self@[next_tag as int] == ints(self.W@[next_tag as int]@));
                assert(self@[next_tag as int].len() == n);
            }
            let (best_tag_id, best_score) = best_previous(forward_var, &self.W[next_tag]);
            bptrs_t.push(best_tag_id);
            viterbivars_t.push(best_score + emission[next_tag] as i128);
            next_tag += 1;
        }
        proof {
            let em = ints(emission@);
            assert forall|k: int| 0 <= k < n implies wide(viterbivars_t@)[k] == step_forward(
                self@,
                fv,
                em,
            )[k] by {
                let c = candidates(fv, self@[k]);
                let p = bptrs_t[k] as int;
                assert(self@[k] == ints(self.W@[k]@));
                assert(self@[k].len() == n);
                assert(c[p] == fv[p] + self@[k][p]);
            }
            assert(wide(viterbivars_t@) =~= step_forward(self@, fv, em));
            assert(places(bptrs_t@) =~= step_back(self@, fv));
        }
        (viterbivars_t, bptrs_t)
    }

    /// The best tag sequence for `feats` and its score, by the forward
    /// recursion over the steps followed by a walk back along the
    /// backpointers. Ties between tags go to the lowest index.
    fn vitervi_decode(&self, feats: &Vec<Vec<i64>>, init_vit_vars: &Vec<i64>) -> (decoded: (
        i128,
        Vec<i64>,
    ))
        requires
            self.accepts(feats@, init_vit_vars@),
        ensures
            decodes_to(
                self@,
                grid(feats@),
                ints(init_vit_vars@),
                decoded.0 as int,
                ints(decoded.1@),
            ),
            decoded.1.len() == feats.len(),
            is_tag_seq(ints(decoded.1@), self.n as int, feats.len() as int),
    {
        let ghost w = self@;
        let ghost e = grid(feats@);
        let ghost init = ints(init_vit_vars@);
        let n: usize = self.W.len();
        let steps: usize = feats.len();
        let mut backpointers: Vec<Vec<usize>> = Vec::new();
        let mut forward_var: Vec<i128> = widened(init_vit_vars);
        assert(well_formed(w, e, init));
        assert(reachable_after(forward_var@, 0)) by {
            assert forall|k: int| 0 <= k < forward_var.len() implies floor_after(0)
                <= #[trigger] forward_var[k] <= ceiling_after(0) by {
                assert(wide(forward_var@)[k] == init[k]);
            }
        }
        let mut i: usize = 0;
        while i < steps
            invariant
                i <= steps,
                steps == feats.len(),
                steps <= isize::MAX,
                n == self.n,
                self.wf(),
                w == self@,
                e == grid(feats@),
                init == ints(init_vit_vars@),
                well_formed(w, e, init),
                forward_var.len() == n,
                wide(forward_var@) == forward_scores(w, e, init, i as nat),
                reachable_after(forward_var@, i as int),
                backpointers.len() == i,
                forall|t: int| 0 <= t < i ==> (#[trigger] backpointers[t]).len() == n,
                forall|t: int, k: int|
                    0 <= t < i && 0 <= k < n ==> #[trigger] backpointers[t][k] < n,
                forall|t: int|
                    0 <= t < i ==> places(#[trigger] backpointers[t]@) == step_back(
                        w,
                        forward_scores(w, e, init, t as nat),
                    ),
            decreases steps - i,
        {
            proof {
                assert(e[i as int] == ints(feats@[i as int]@));
                assert(e[i as int].len() == n);
                assert forall|j: int| 0 <= j < forward_var.len() implies i128::MIN - 2 * i64::MIN
                    <= #[trigger] forward_var[j] <= i128::MAX - 2 * i64::MAX by {
                    assert(floor_after(i as int) <= forward_var[j] <= ceiling_after(i as int));
                }
            }
            let ghost before = forward_var@;
            let (next, bptrs_t) = self.advance(&forward_var, &feats[i]);
            proof {
                assert forall|k: int| 0 <= k < next.len() implies floor_after(i + 1)
                    <= #[trigger] next[k] <= ceiling_after(i + 1) by {
                    let p = bptrs_t[k] as int;
                    assert(floor_after(i as int) <= before[p] <= ceiling_after(i as int));
                }
            }
            forward_var = next;
            backpointers.push(bptrs_t);
            i += 1;
        }
        proof {
            assert(w[n - 1] == ints(self.W@[n - 1]@));
            assert forall|j: int| 0 <= j < forward_var.len() implies i128::MIN - i64::MIN
                <= #[trigger] forward_var[j] <= i128::MAX - i64::MAX by {
                assert(floor_after(steps as int) <= forward_var[j] <= ceiling_after(steps as int));
            }
        }
        let (best_tag_id, path_score) = best_previous(&forward_var, &self.W[n - 1]);
        let best_path = backtrace(&backpointers, best_tag_id, n);
        proof {
            let table = place_rows(backpointers@);
            assert(table =~= pointer_table(w, e, init));
            assert(best_tag_id == last_tag(w, e, init));
            let y = trellis_path(w, e, init);
            lemma_trellis_is_best(w, e, init);
            lemma_trace_shape(table, steps as nat, best_tag_id as int);
            assert(path_score == trellis_score(w, e, init));
            assert(led_by(y[0], ints(best_path@)) =~= y);
            assert(ints(best_path@).len() == steps);
            assert forall|k: int| 0 <= k < steps implies 0 <= #[trigger] ints(best_path@)[k]
                < self.n by {
                assert(ints(best_path@)[k] == y[k + 1]);
            }
        }
        (path_score, best_path)
    }

    /// Decodes `x_seq`: the best tag sequence, one tag per step, and its
    /// score. `init_vit_vars` scores each tag as the one held before the
    /// first step.
    pub fn forward(&self, x_seq: &Vec<Vec<i64>>, init_vit_vars: &Vec<i64>) -> (decoded: (
        i128,
        Vec<i64>,
    ))
        requires
            self.accepts(x_seq@, init_vit_vars@),
        ensures
            decodes_to(
                self@,
                grid(x_seq@),
                ints(init_vit_vars@),
                decoded.0 as int,
                ints(decoded.1@),
            ),
            decoded.1.len() == x_seq.len(),
            is_tag_seq(ints(decoded.1@), self.n as int, x_seq.len() as int),
    {
        self.vitervi_decode(x_seq, init_vit_vars)
    }

    /// Decodes `emissions` if the inputs fit the model, and refuses them if
    /// they do not.
    pub fn decode(&self, emissions: &Vec<Vec<i64>>, initial: &Vec<i64>) -> (outcome: Result<
        (i128, Vec<i64>),
        DecodeError,
    >)
        ensures
            outcome is Ok <==> self.accepts(emissions@, initial@),
            outcome matches Ok(decoded) ==> {
                &&& decodes_to(
                    self@,
                    grid(emissions@),
                    ints(initial@),
                    decoded.0 as int,
                    ints(decoded.1@),
                )
                &&& decoded.1.len() == emissions.len()
                &&& is_tag_seq(ints(decoded.1@), self.n as int, emissions.len() as int)
            },
            outcome matches Err(reason) ==> reason == DecodeError::DimensionMismatch,
    {
        if self.check_dimensions(emissions, initial) {
            Ok(self.vitervi_decode(emissions, initial))
        } else {
            Err(DecodeError::DimensionMismatch)
        }
    }
}

} // verus!
