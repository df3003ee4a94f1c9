//! The incremental backtracking enumerator: an explicit state machine
//! with one record per cell (assigned value, cached candidate list,
//! cursor), a current cell index and a direction flag.  `next_record`
//! resumes the traversal and returns the next textual record as it is
//! discovered, so a caller can stream records to a sink without the
//! solution set ever being held in memory.  Its contract ties the k-th
//! returned record to `all_mosaics(n)[k]`, and `None` comes exactly when
//! the whole enumeration has been emitted.

use vstd::prelude::*;
use vstd::pervasive::VecAdditionalExecFns;
use crate::candidates::{candidates_for, lemma_candidate_seq_props};
use crate::encode::{line_of, push_line};
use crate::grid::{in_alphabet, open_down, open_right, require_left, require_up};
use crate::search::{all_mosaics, mosaics_branch, mosaics_from, next_candidates};
use crate::tiles::{tile_connects_down, tile_connects_right};

verus! {

/// Potential of a forward entry into a cell: an upper bound, up to the
/// weights below, on the loop iterations the search below that cell can
/// still take.  `nsq` is the number of cells.
spec fn apot(nsq: int, c: int) -> int
    decreases nsq - c,
{
    if c >= nsq - 1 {
        nsq
    } else {
        10 * apot(nsq, c + 1) + 10
    }
}

/// Weight of one untried candidate at a cell: enough to pay for a full
/// forward entry into the next cell.
spec fn wpot(nsq: int, c: int) -> int {
    if c >= nsq - 1 {
        1
    } else {
        apot(nsq, c + 1) + 1
    }
}

/// The forward-entry potential is at least the cell count.
proof fn lemma_apot_lb(nsq: int, c: int)
    requires
        nsq >= 1,
    ensures
        apot(nsq, c) >= nsq,
    decreases nsq - c,
{
    if c < nsq - 1 {
        lemma_apot_lb(nsq, c + 1);
    }
}

/// Credit stored in the untried candidates of the first `m` cells.
spec fn credit(cur: Seq<usize>, nsq: int, m: int) -> int
    decreases m,
{
    if m <= 0 {
        0
    } else {
        credit(cur, nsq, m - 1) + (10 - cur[m - 1]) * wpot(nsq, m - 1)
    }
}

/// Credit is non-negative while every counted cursor is at most ten.
proof fn lemma_credit_nonneg(cur: Seq<usize>, nsq: int, m: int)
    requires
        nsq >= 1,
        forall|i: int| 0 <= i < m ==> (#[trigger] cur[i]) <= 10,
    ensures
        credit(cur, nsq, m) >= 0,
    decreases m,
{
    if m > 0 {
        lemma_credit_nonneg(cur, nsq, m - 1);
        lemma_apot_lb(nsq, m);
        assert((10 - cur[m - 1]) * wpot(nsq, m - 1) >= 0) by (nonlinear_arith)
            requires
                cur[m - 1] <= 10,
                wpot(nsq, m - 1) >= 1,
        ;
    }
}

/// Credit reads only the first `m` cursors.
proof fn lemma_credit_congruent(cur1: Seq<usize>, cur2: Seq<usize>, nsq: int, m: int)
    requires
        forall|i: int| 0 <= i < m ==> (#[trigger] cur1[i]) == cur2[i],
    ensures
        credit(cur1, nsq, m) == credit(cur2, nsq, m),
    decreases m,
{
    if m > 0 {
        lemma_credit_congruent(cur1, cur2, nsq, m - 1);
    }
}

/// The per-cell state machine of the backtracking traversal.
pub struct MosaicEnumerator {
    n: usize,
    n_sq: usize,
    grid: Vec<u8>,
    cands: Vec<Vec<u8>>,
    cursor: Vec<usize>,
    cell: usize,
    advancing: bool,
    done: bool,
    emitted: Ghost<int>,
}

impl MosaicEnumerator {
    /// The grid size this machine enumerates.
    pub closed spec fn size(self) -> int {
        self.n as int
    }

    /// How many records have been returned so far.
    pub closed spec fn emitted(self) -> int {
        self.emitted@
    }

    /// Cells whose per-cell record (candidates, cursor, value) is live.
    spec fn limit(self) -> int {
        if self.advancing {
            self.cell as int
        } else {
            self.cell as int + 1
        }
    }

    /// The live per-cell records describe a path of the search: each cell
    /// holds the candidate list of its prefix, and its value is the
    /// candidate just before the cursor.
    spec fn frames_ok(self, m: int) -> bool {
        forall|i: int| 0 <= i < m ==> {
            &&& (#[trigger] self.cands@[i])@ == next_candidates(
                self.grid@.take(i),
                self.n as int,
            )
            &&& 1 <= self.cursor@[i] <= self.cands@[i]@.len()
            &&& self.cands@[i]@.len() <= 10
            &&& self.grid@[i] == self.cands@[i]@[self.cursor@[i] - 1]
            &&& self.grid@[i] < 10
        }
    }

    /// The completions still owed by the untried candidates of cell `j`.
    spec fn rest_at(self, j: int) -> Seq<Seq<u8>> {
        mosaics_branch(
            self.grid@.take(j),
            self.n as int,
            self.cands@[j]@.skip(self.cursor@[j] as int),
        )
    }

    /// The completions still owed by cells `j` down to 0, in emission
    /// order.
    spec fn pending(self, j: int) -> Seq<Seq<u8>>
        decreases j + 1,
    {
        if j < 0 {
            Seq::empty()
        } else {
            self.rest_at(j) + self.pending(j - 1)
        }
    }

    /// Everything the machine has yet to emit.
    spec fn future(self) -> Seq<Seq<u8>> {
        if self.done {
            Seq::empty()
        } else if self.advancing {
            mosaics_from(self.grid@.take(self.cell as int), self.n as int) + self.pending(
                self.cell as int - 1,
            )
        } else {
            self.pending(self.cell as int)
        }
    }

    /// Well-formedness: the machine's future output is exactly the not
    /// yet emitted tail of the enumeration.
    pub closed spec fn wf(self) -> bool {
        &&& 1 <= self.n
        &&& self.n * self.n <= usize::MAX
        &&& self.n_sq == self.n * self.n
        &&& self.grid@.len() == self.n_sq
        &&& self.cands@.len() == self.n_sq
        &&& self.cursor@.len() == self.n_sq
        &&& 0 <= self.emitted@ <= all_mosaics(self.n as int).len()
        &&& all_mosaics(self.n as int).skip(self.emitted@) == self.future()
        &&& (self.done || (self.cell < self.n_sq && self.frames_ok(self.limit())))
    }

    /// Termination potential of the traversal loop.
    spec fn measure(self) -> int {
        credit(self.cursor@, self.n_sq as int, self.limit()) + (
        if self.advancing {
            apot(self.n_sq as int, self.cell as int)
        } else {
            self.cell as int
        })
    }
}

/// Pending output reads only the records of cells up to `j` and the grid
/// below them.
proof fn lemma_pending_congruent(s1: MosaicEnumerator, s2: MosaicEnumerator, j: int)
    requires
        s1.n == s2.n,
        j < s1.grid@.len(),
        j < s2.grid@.len(),
        forall|i: int| 0 <= i < j ==> (#[trigger] s1.grid@[i]) == s2.grid@[i],
        forall|i: int|
            0 <= i <= j ==> (#[trigger] s1.cands@[i])@ == s2.cands@[i]@ && s1.cursor@[i]
                == s2.cursor@[i],
    ensures
        s1.pending(j) == s2.pending(j),
    decreases j + 1,
{
    if j >= 0 {
        assert(s1.grid@.take(j) =~= s2.grid@.take(j));
        lemma_pending_congruent(s1, s2, j - 1);
    }
}

/// The live records below `m` survive a change elsewhere in the machine.
#[verifier::rlimit(60)]
proof fn lemma_frames_preserved(pre: MosaicEnumerator, post: MosaicEnumerator, m: int)
    requires
        pre.n == post.n,
        m <= pre.grid@.len(),
        m <= post.grid@.len(),
        m <= pre.cands@.len(),
        m <= post.cands@.len(),
        m <= pre.cursor@.len(),
        m <= post.cursor@.len(),
        forall|i: int| 0 <= i < m ==> (#[trigger] post.grid@[i]) == pre.grid@[i],
        forall|i: int| 0 <= i < m ==> (#[trigger] post.cands@[i]) == pre.cands@[i],
        forall|i: int| 0 <= i < m ==> (#[trigger] post.cursor@[i]) == pre.cursor@[i],
        pre.frames_ok(m),
    ensures
        post.frames_ok(m),
{
    assert forall|i: int| 0 <= i < m implies {
        &&& (#[trigger] post.cands@[i])@ == next_candidates(post.grid@.take(i), post.n as int)
        &&& 1 <= post.cursor@[i] <= post.cands@[i]@.len()
        &&& post.cands@[i]@.len() <= 10
        &&& post.grid@[i] == post.cands@[i]@[post.cursor@[i] - 1]
        &&& post.grid@[i] < 10
    } by {
        assert(post.cands@[i] == pre.cands@[i]);
        assert(post.cursor@[i] == pre.cursor@[i]);
        assert(post.grid@[i] == pre.grid@[i]);
        assert(pre.cands@[i]@ == next_candidates(pre.grid@.take(i), pre.n as int));
        assert(1 <= pre.cursor@[i] <= pre.cands@[i]@.len());
        assert(pre.grid@[i] == pre.cands@[i]@[pre.cursor@[i] - 1]);
        assert(post.grid@.take(i) =~= pre.grid@.take(i));
    }
}

/// Outcome of one transition of the machine.
enum StepResult {
    Emitted(Vec<u8>),
    Finished,
    Continue,
}

/// What one transition promises: an emitted record continues the
/// enumeration in order, a finished machine has emitted everything, and
/// a plain step changes nothing visible while decreasing the traversal
/// potential.
spec fn step_contract(pre: MosaicEnumerator, post: MosaicEnumerator, r: StepResult) -> bool {
    match r {
        StepResult::Emitted(rec) => {
            &&& 0 <= pre.emitted@ < all_mosaics(pre.n as int).len()
            &&& rec@ == line_of(all_mosaics(pre.n as int)[pre.emitted@])
            &&& post.emitted@ == pre.emitted@ + 1
        },
        StepResult::Finished => {
            &&& pre.emitted@ == all_mosaics(pre.n as int).len()
            &&& post.emitted@ == pre.emitted@
        },
        StepResult::Continue => {
            &&& !post.done
            &&& post.emitted@ == pre.emitted@
            &&& 0 <= post.measure() < pre.measure()
        },
    }
}

impl MosaicEnumerator {
    /// A fresh machine: cell 0, advancing, nothing emitted.
    pub fn new(n: usize) -> (s: Self)
        requires
            1 <= n,
            n * n <= usize::MAX,
        ensures
            s.wf(),
            s.size() == n as int,
            s.emitted() == 0,
    {
        let n_sq = n * n;
        let mut grid: Vec<u8> = Vec::new();
        let mut cands: Vec<Vec<u8>> = Vec::new();
        let mut cursor: Vec<usize> = Vec::new();
        let mut i: usize = 0;
        while i < n_sq
            invariant
                i <= n_sq,
                grid@.len() == i,
                cands@.len() == i,
                cursor@.len() == i,
            decreases n_sq - i,
        {
            grid.push(0u8);
            cands.push(Vec::new());
            cursor.push(0usize);
            i = i + 1;
        }
        let s = MosaicEnumerator {
            n,
            n_sq,
            grid,
            cands,
            cursor,
            cell: 0,
            advancing: true,
            done: false,
            emitted: Ghost(0int),
        };
        proof {
            assert(n * n >= 1) by (nonlinear_arith)
                requires
                    n >= 1,
            ;
            assert(s.grid@.take(0) =~= Seq::<u8>::empty());
            assert(s.pending(-1) == Seq::<Seq<u8>>::empty());
            assert(mosaics_from(Seq::empty(), n as int) + Seq::<Seq<u8>>::empty()
                =~= mosaics_from(Seq::empty(), n as int));
            assert(all_mosaics(n as int).skip(0) =~= all_mosaics(n as int));
        }
        s
    }

    /// Resumes the traversal until the next complete mosaic and returns
    /// its textual record, or `None` once every mosaic has been emitted:
    /// the k-th record returned is `all_mosaics(n)[k]` rendered as one
    /// line.
    #[verifier::loop_isolation(false)]
    pub fn next_record(&mut self) -> (r: Option<Vec<u8>>)
        requires
            old(self).wf(),
        ensures
            final(self).wf(),
            final(self).size() == old(self).size(),
            match r {
                Some(rec) => {
                    &&& 0 <= old(self).emitted() < all_mosaics(old(self).size()).len()
                    &&& rec@ == line_of(all_mosaics(old(self).size())[old(self).emitted()])
                    &&& final(self).emitted() == old(self).emitted() + 1
                },
                None => {
                    &&& old(self).emitted() == all_mosaics(old(self).size()).len()
                    &&& final(self).emitted() == old(self).emitted()
                },
            },
    {
        let ghost all = all_mosaics(self.n as int);
        if self.done {
            proof {
                assert(all.skip(self.emitted@).len() == 0);
            }
            return None;
        }
        proof {
            assert forall|i: int| 0 <= i < self.limit() implies (#[trigger] self.cursor@[i])
                <= 10 by {
                assert(self.cands@[i]@.len() <= 10);
                assert(self.cursor@[i] <= self.cands@[i]@.len());
            }
            lemma_credit_nonneg(self.cursor@, self.n_sq as int, self.limit());
            lemma_apot_lb(self.n_sq as int, self.cell as int);
        }
        loop
            invariant
                self.wf(),
                !self.done,
                self.n == old(self).n,
                self.n_sq == old(self).n_sq,
                self.emitted@ == old(self).emitted@,
                0 <= self.measure(),
            decreases self.measure(),
        {
            let r = if self.advancing {
                self.step_advance()
            } else {
                self.step_retreat()
            };
            match r {
                StepResult::Emitted(rec) => {
                    return Some(rec);
                },
                StepResult::Finished => {
                    return None;
                },
                StepResult::Continue => {},
            }
        }
    }

    /// One transition in advancing mode: compute the current cell's
    /// candidates and either assign the first one, emit a finished
    /// mosaic, or turn around on a dead end.
    #[verifier::rlimit(100)]
    fn step_advance(&mut self) -> (r: StepResult)
        requires
            old(self).wf(),
            !old(self).done,
            old(self).advancing,
        ensures
            final(self).wf(),
            final(self).n == old(self).n,
            final(self).n_sq == old(self).n_sq,
            step_contract(*old(self), *final(self), r),
    {
        let ghost pre = *self;
        let ghost all = all_mosaics(self.n as int);
        let c = self.cell;
        let nv = self.n;
        let nsq = self.n_sq;
        let ghost ni = nv as int;
        let ghost ci = c as int;
        let ghost k = self.emitted@;
        let cs = candidates_at_cell(&self.grid, nv, c);
        let ghost csv = cs@;
        proof {
            assert(pre.grid@.take(ci).len() == ci);
            assert(mosaics_from(pre.grid@.take(ci), ni) == mosaics_branch(
                pre.grid@.take(ci),
                ni,
                csv,
            ));
            lemma_candidate_seq_props(
                require_up(pre.grid@.take(ci), ni, ci),
                require_left(pre.grid@.take(ci), ni, ci),
                open_right(ni, ci),
                open_down(ni, ci),
            );
        }
        if cs.len() == 0 {
            proof {
                assert(mosaics_branch(pre.grid@.take(ci), ni, csv)
                    =~= Seq::<Seq<u8>>::empty());
            }
            if c == 0 {
                self.done = true;
                proof {
                    assert(pre.pending(-1) == Seq::<Seq<u8>>::empty());
                    assert(pre.future().len() == 0);
                    assert(all.skip(k).len() == 0);
                    lemma_pending_congruent(pre, *self, -1);
                }
                return StepResult::Finished;
            }
            self.advancing = false;
            self.cell = c - 1;
            proof {
                lemma_pending_congruent(pre, *self, ci - 1);
                assert(self.future() =~= pre.future());
                lemma_frames_preserved(pre, *self, ci);
                // the forward-entry potential pays for the retreat
                lemma_apot_lb(nsq as int, ci);
                lemma_credit_congruent(pre.cursor@, self.cursor@, nsq as int, ci);
                assert forall|i: int| 0 <= i < ci implies (#[trigger] self.cursor@[i])
                    <= 10 by {
                    assert(self.cands@[i]@.len() <= 10);
                    assert(self.cursor@[i] <= self.cands@[i]@.len());
                }
                lemma_credit_nonneg(self.cursor@, nsq as int, ci);
                assert(0 <= self.measure() < pre.measure());
            }
        } else {
            let t = cs[0];
            self.cands.set(c, cs);
            self.cursor.set(c, 1);
            self.grid.set(c, t);
            proof {
                assert(self.grid@.take(ci) =~= pre.grid@.take(ci));
                assert(self.grid@.take(ci + 1) =~= pre.grid@.take(ci).push(t));
                assert(csv.drop_first() =~= csv.skip(1));
                assert(mosaics_branch(pre.grid@.take(ci), ni, csv) == mosaics_from(
                    pre.grid@.take(ci).push(t),
                    ni,
                ) + mosaics_branch(pre.grid@.take(ci), ni, csv.skip(1)));
                lemma_pending_congruent(pre, *self, ci - 1);
                lemma_frames_preserved(pre, *self, ci);
                // the fresh record at cell c
                assert(next_candidates(pre.grid@.take(ci), ni)[0] < 10);
                assert(self.cands@[ci]@ == next_candidates(self.grid@.take(ci), ni));
                assert(self.frames_ok(ci + 1));
                assert(self.rest_at(ci) == mosaics_branch(
                    pre.grid@.take(ci),
                    ni,
                    csv.skip(1),
                ));
            }
            if c == nsq - 1 {
                let mut rec: Vec<u8> = Vec::new();
                proof {
                    assert forall|i: int| 0 <= i < self.grid@.len() implies (
                    #[trigger] self.grid@[i]) < 10 by {
                        assert(self.cands@[i]@.len() <= 10);
                    }
                    assert(in_alphabet(self.grid@));
                }
                push_line(&mut rec, &self.grid);
                self.advancing = false;
                self.emitted = Ghost(k + 1);
                proof {
                    lemma_pending_congruent(pre, *self, ci - 1);
                    assert(self.rest_at(ci) == mosaics_branch(
                        pre.grid@.take(ci),
                        ni,
                        csv.skip(1),
                    ));
                    assert(self.grid@.take(ci + 1) =~= self.grid@);
                    assert(mosaics_from(self.grid@, ni) == seq![self.grid@]);
                    assert(all.skip(k) =~= seq![self.grid@] + (self.rest_at(ci)
                        + self.pending(ci - 1)));
                    assert(all.skip(k)[0] == self.grid@);
                    assert(k < all.len());
                    assert(all.skip(k + 1) =~= all.skip(k).drop_first());
                    assert(all.skip(k).drop_first() =~= self.rest_at(ci) + self.pending(
                        ci - 1,
                    ));
                    assert(self.future() =~= self.rest_at(ci) + self.pending(ci - 1));
                    assert(rec@ =~= line_of(all[k]));
                }
                return StepResult::Emitted(rec);
            }
            self.cell = c + 1;
            proof {
                lemma_pending_congruent(pre, *self, ci - 1);
                assert(self.rest_at(ci) == mosaics_branch(
                    pre.grid@.take(ci),
                    ni,
                    csv.skip(1),
                ));
                assert(self.grid@.take(ci + 1) =~= pre.grid@.take(ci).push(t));
                assert(self.future() =~= pre.future());
                // one candidate's credit pays for the next entry
                assert(apot(nsq as int, ci) == 10 * apot(nsq as int, ci + 1) + 10);
                lemma_credit_congruent(pre.cursor@, self.cursor@, nsq as int, ci);
                assert(credit(self.cursor@, nsq as int, ci + 1) == credit(
                    self.cursor@,
                    nsq as int,
                    ci,
                ) + (10 - 1) * wpot(nsq as int, ci));
                assert forall|i: int| 0 <= i < ci + 1 implies (#[trigger] self.cursor@[i])
                    <= 10 by {
                    assert(self.cands@[i]@.len() <= 10);
                    assert(self.cursor@[i] <= self.cands@[i]@.len());
                }
                lemma_credit_nonneg(self.cursor@, nsq as int, ci + 1);
                lemma_apot_lb(nsq as int, ci + 1);
                assert(0 <= self.measure() < pre.measure());
            }
        }
        StepResult::Continue
    }

    /// One transition in retreating mode: move the current cell to its
    /// next untried candidate, emit a finished mosaic, or retreat once
    /// the alternatives are exhausted.
    #[verifier::rlimit(100)]
    fn step_retreat(&mut self) -> (r: StepResult)
        requires
            old(self).wf(),
            !old(self).done,
            !old(self).advancing,
        ensures
            final(self).wf(),
            final(self).n == old(self).n,
            final(self).n_sq == old(self).n_sq,
            step_contract(*old(self), *final(self), r),
    {
        let ghost pre = *self;
        let ghost all = all_mosaics(self.n as int);
        let c = self.cell;
        let nv = self.n;
        let nsq = self.n_sq;
        let ghost ni = nv as int;
        let ghost ci = c as int;
        let ghost k = self.emitted@;
        let cur = self.cursor[c];
        let len_c = self.cands[c].len();
        let ghost csv = pre.cands@[ci]@;
        proof {
            assert(pre.frames_ok(ci + 1));
            assert(csv == next_candidates(pre.grid@.take(ci), ni));
            lemma_candidate_seq_props(
                require_up(pre.grid@.take(ci), ni, ci),
                require_left(pre.grid@.take(ci), ni, ci),
                open_right(ni, ci),
                open_down(ni, ci),
            );
        }
        if cur == len_c {
            proof {
                assert(csv.skip(cur as int) =~= Seq::<u8>::empty());
                assert(pre.rest_at(ci) =~= Seq::<Seq<u8>>::empty());
            }
            if c == 0 {
                self.done = true;
                proof {
                    assert(pre.pending(-1) == Seq::<Seq<u8>>::empty());
                    assert(pre.pending(0) =~= Seq::<Seq<u8>>::empty());
                    assert(all.skip(k).len() == 0);
                }
                return StepResult::Finished;
            }
            self.cell = c - 1;
            proof {
                lemma_pending_congruent(pre, *self, ci - 1);
                assert(pre.pending(ci) =~= pre.pending(ci - 1));
                assert(self.future() =~= pre.future());
                lemma_frames_preserved(pre, *self, ci);
                // giving up the cell releases its stored credit
                lemma_credit_congruent(pre.cursor@, self.cursor@, nsq as int, ci + 1);
                assert forall|i: int| 0 <= i < ci implies (#[trigger] self.cursor@[i])
                    <= 10 by {
                    assert(self.cands@[i]@.len() <= 10);
                    assert(self.cursor@[i] <= self.cands@[i]@.len());
                }
                lemma_credit_nonneg(self.cursor@, nsq as int, ci);
                lemma_apot_lb(nsq as int, ci);
                assert((10 - pre.cursor@[ci]) * wpot(nsq as int, ci) >= 0)
                    by (nonlinear_arith)
                    requires
                        pre.cursor@[ci] <= 10,
                        wpot(nsq as int, ci) >= 1,
                ;
                assert(0 <= self.measure() < pre.measure());
            }
        } else {
            let t = self.cands[c][cur];
            self.grid.set(c, t);
            self.cursor.set(c, cur + 1);
            proof {
                assert(self.grid@.take(ci) =~= pre.grid@.take(ci));
                assert(self.grid@.take(ci + 1) =~= pre.grid@.take(ci).push(t));
                let s0 = csv.skip(cur as int);
                assert(s0[0] == csv[cur as int]);
                assert(s0.drop_first() =~= csv.skip(cur as int + 1));
                assert(mosaics_branch(pre.grid@.take(ci), ni, s0) == mosaics_from(
                    pre.grid@.take(ci).push(t),
                    ni,
                ) + mosaics_branch(pre.grid@.take(ci), ni, csv.skip(cur as int + 1)));
                lemma_pending_congruent(pre, *self, ci - 1);
                lemma_frames_preserved(pre, *self, ci);
                assert(next_candidates(pre.grid@.take(ci), ni)[cur as int] < 10);
                assert(self.cands@[ci]@ == next_candidates(self.grid@.take(ci), ni));
                assert(self.frames_ok(ci + 1));
                assert(self.rest_at(ci) == mosaics_branch(
                    pre.grid@.take(ci),
                    ni,
                    csv.skip(cur as int + 1),
                ));
                assert(pre.pending(ci) =~= mosaics_from(pre.grid@.take(ci).push(t), ni)
                    + (self.rest_at(ci) + self.pending(ci - 1)));
            }
            if c == nsq - 1 {
                let mut rec: Vec<u8> = Vec::new();
                proof {
                    assert forall|i: int| 0 <= i < self.grid@.len() implies (
                    #[trigger] self.grid@[i]) < 10 by {
                        assert(self.cands@[i]@.len() <= 10);
                    }
                    assert(in_alphabet(self.grid@));
                }
                push_line(&mut rec, &self.grid);
                self.emitted = Ghost(k + 1);
                proof {
                    lemma_pending_congruent(pre, *self, ci - 1);
                    assert(self.rest_at(ci) == mosaics_branch(
                        pre.grid@.take(ci),
                        ni,
                        csv.skip(cur as int + 1),
                    ));
                    assert(self.grid@.take(ci + 1) =~= self.grid@);
                    assert(mosaics_from(self.grid@, ni) == seq![self.grid@]);
                    assert(all.skip(k) =~= seq![self.grid@] + (self.rest_at(ci)
                        + self.pending(ci - 1)));
                    assert(all.skip(k)[0] == self.grid@);
                    assert(k < all.len());
                    assert(all.skip(k + 1) =~= all.skip(k).drop_first());
                    assert(all.skip(k).drop_first() =~= self.rest_at(ci) + self.pending(
                        ci - 1,
                    ));
                    assert(self.future() =~= self.rest_at(ci) + self.pending(ci - 1));
                    assert(rec@ =~= line_of(all[k]));
                }
                return StepResult::Emitted(rec);
            }
            self.cell = c + 1;
            self.advancing = true;
            proof {
                lemma_pending_congruent(pre, *self, ci - 1);
                assert(self.rest_at(ci) == mosaics_branch(
                    pre.grid@.take(ci),
                    ni,
                    csv.skip(cur as int + 1),
                ));
                assert(self.grid@.take(ci + 1) =~= pre.grid@.take(ci).push(t));
                assert(self.future() =~= pre.future());
                // the consumed candidate's credit pays for the entry
                assert(wpot(nsq as int, ci) == apot(nsq as int, ci + 1) + 1);
                lemma_credit_congruent(pre.cursor@, self.cursor@, nsq as int, ci);
                assert(credit(pre.cursor@, nsq as int, ci + 1) == credit(
                    pre.cursor@,
                    nsq as int,
                    ci,
                ) + (10 - pre.cursor@[ci]) * wpot(nsq as int, ci));
                assert(credit(self.cursor@, nsq as int, ci + 1) == credit(
                    self.cursor@,
                    nsq as int,
                    ci,
                ) + (10 - self.cursor@[ci]) * wpot(nsq as int, ci));
                assert((10 - pre.cursor@[ci]) * wpot(nsq as int, ci) == (10
                    - pre.cursor@[ci] - 1) * wpot(nsq as int, ci) + wpot(nsq as int, ci))
                    by (nonlinear_arith);
                assert forall|i: int| 0 <= i < ci + 1 implies (#[trigger] self.cursor@[i])
                    <= 10 by {
                    assert(self.cands@[i]@.len() <= 10);
                    assert(self.cursor@[i] <= self.cands@[i]@.len());
                }
                lemma_credit_nonneg(self.cursor@, nsq as int, ci + 1);
                lemma_apot_lb(nsq as int, ci + 1);
                assert(0 <= self.measure() < pre.measure());
            }
        }
        StepResult::Continue
    }
}

/// Computes the candidate list of cell `c` from the assigned prefix of
/// the arena: the context flags are read off the upper and left
/// neighbours and the boundary.
fn candidates_at_cell(g: &Vec<u8>, n: usize, c: usize) -> (cs: Vec<u8>)
    requires
        1 <= n,
        (c as int) < n * n,
        c < g@.len(),
    ensures
        cs@ == next_candidates(g@.take(c as int), n as int),
{
    let req_up = if c >= n {
        tile_connects_down(g[c - n])
    } else {
        false
    };
    let req_left = if c % n != 0 {
        proof {
            assert(c >= 1) by (nonlinear_arith)
                requires
                    n >= 1,
                    c % n != 0,
            ;
        }
        tile_connects_right(g[c - 1])
    } else {
        false
    };
    let open_r = c % n != n - 1;
    let open_d = c / n != n - 1;
    proof {
        let gp = g@.take(c as int);
        assert(gp.len() == c);
        if c >= n {
            assert(gp[c - n] == g@[c - n]);
        }
        if c % n != 0 {
            assert(c >= 1) by (nonlinear_arith)
                requires
                    n >= 1,
                    c % n != 0,
            ;
            assert(gp[c - 1] == g@[c - 1]);
        }
    }
    candidates_for(req_up, req_left, open_r, open_d)
}

} // verus!
