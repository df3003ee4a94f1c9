//! The candidate generator: the ordered list of tile symbols admissible in
//! one cell context, in ascending symbol order.

use vstd::prelude::*;
use crate::tiles::{admissible, tile_admissible};

verus! {

/// The admissible symbols below bound `b`, in ascending order.
pub open spec fn cands_below(
    b: int,
    require_up: bool,
    require_left: bool,
    open_right: bool,
    open_down: bool,
) -> Seq<u8>
    decreases b,
{
    if b <= 0 {
        Seq::empty()
    } else {
        cands_below(b - 1, require_up, require_left, open_right, open_down) + (
        if admissible((b - 1) as u8, require_up, require_left, open_right, open_down) {
            seq![(b - 1) as u8]
        } else {
            Seq::empty()
        })
    }
}

/// The full ordered candidate list for one cell context.
pub open spec fn candidate_seq(
    require_up: bool,
    require_left: bool,
    open_right: bool,
    open_down: bool,
) -> Seq<u8> {
    cands_below(10, require_up, require_left, open_right, open_down)
}

/// The entries of `cs` are strictly ascending.
pub open spec fn ascending(cs: Seq<u8>) -> bool {
    forall|i: int, j: int| 0 <= i < j < cs.len() ==> cs[i] < cs[j]
}

/// The candidate list below `b` is strictly ascending, holds exactly the
/// admissible symbols below `b`, and is no longer than `b`.
pub proof fn lemma_cands_below_props(
    b: int,
    require_up: bool,
    require_left: bool,
    open_right: bool,
    open_down: bool,
)
    requires
        0 <= b <= 10,
    ensures
        cands_below(b, require_up, require_left, open_right, open_down).len() <= b,
        ascending(cands_below(b, require_up, require_left, open_right, open_down)),
        forall|i: int|
            0 <= i < cands_below(b, require_up, require_left, open_right, open_down).len() ==> {
                let t = #[trigger] cands_below(b, require_up, require_left, open_right, open_down)[i];
                t < b && admissible(t, require_up, require_left, open_right, open_down)
            },
        forall|t: u8|
            t < b && admissible(t, require_up, require_left, open_right, open_down)
                ==> cands_below(b, require_up, require_left, open_right, open_down).contains(t),
    decreases b,
{
    if b > 0 {
        lemma_cands_below_props(b - 1, require_up, require_left, open_right, open_down);
        let prev = cands_below(b - 1, require_up, require_left, open_right, open_down);
        let cur = cands_below(b, require_up, require_left, open_right, open_down);
        assert forall|i: int, j: int| 0 <= i < j < cur.len() implies cur[i] < cur[j] by {
            assert(cur[i] == prev[i]);
            if j < prev.len() {
                assert(cur[j] == prev[j]);
            } else {
                assert(cur[j] == (b - 1) as u8);
            }
        }
        assert forall|t: u8|
            t < b && admissible(t, require_up, require_left, open_right, open_down)
                implies cur.contains(t) by {
            if t < b - 1 {
                let i = choose|i: int| 0 <= i < prev.len() && prev[i] == t;
                assert(cur[i] == t);
            } else {
                assert(cur[cur.len() - 1] == t);
            }
        }
    }
}

/// The candidate list for one cell context: strictly ascending, exactly
/// the admissible alphabet symbols, at most ten entries.
pub proof fn lemma_candidate_seq_props(
    require_up: bool,
    require_left: bool,
    open_right: bool,
    open_down: bool,
)
    ensures
        candidate_seq(require_up, require_left, open_right, open_down).len() <= 10,
        ascending(candidate_seq(require_up, require_left, open_right, open_down)),
        forall|i: int|
            0 <= i < candidate_seq(require_up, require_left, open_right, open_down).len() ==> {
                let t = #[trigger] candidate_seq(require_up, require_left, open_right, open_down)[i];
                t < 10 && admissible(t, require_up, require_left, open_right, open_down)
            },
        forall|t: u8|
            t < 10 && admissible(t, require_up, require_left, open_right, open_down)
                ==> candidate_seq(require_up, require_left, open_right, open_down).contains(t),
{
    lemma_cands_below_props(10, require_up, require_left, open_right, open_down);
}

/// Computes the ordered candidate list for one cell context.  The result
/// may be empty: an empty list is the normal sign of a dead branch, not an
/// error.
pub fn candidates_for(
    require_up: bool,
    require_left: bool,
    open_right: bool,
    open_down: bool,
) -> (cs: Vec<u8>)
    ensures
        cs@ == candidate_seq(require_up, require_left, open_right, open_down),
{
    let mut cs: Vec<u8> = Vec::new();
    let mut t: u8 = 0;
    while t < 10
        invariant
            t <= 10,
            cs@ == cands_below(t as int, require_up, require_left, open_right, open_down),
        decreases 10 - t,
    {
        if tile_admissible(t, require_up, require_left, open_right, open_down) {
            cs.push(t);
        }
        proof {
            assert(cs@ =~= cands_below(
                t as int + 1,
                require_up,
                require_left,
                open_right,
                open_down,
            ));
        }
        t = t + 1;
    }
    cs
}

} // verus!
