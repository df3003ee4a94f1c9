//! The backtracking enumerator.  The mathematical model is a depth-first
//! search over row-major cell assignments: `mosaics_from(g, n)` is the
//! sequence of all completions of the partial assignment `g`, in the order
//! the search discovers them, and `all_mosaics(n)` starts it from the
//! empty grid.  The executable enumerator is proved to produce exactly
//! this sequence.

use vstd::prelude::*;
use crate::candidates::{candidate_seq, candidates_for, lemma_candidate_seq_props};
use crate::grid::{
    cell_ok, consistent, in_alphabet, lemma_cell_ok_extend, open_down, open_right, prefix_ok,
    require_left, require_up,
};
use crate::tiles::admissible;

verus! {

/// The candidate list of the next unassigned cell of `g`.
pub open spec fn next_candidates(g: Seq<u8>, n: int) -> Seq<u8> {
    let c = g.len() as int;
    candidate_seq(require_up(g, n, c), require_left(g, n, c), open_right(n, c), open_down(n, c))
}

/// All completions of the partial assignment `g`, in discovery order.
pub open spec fn mosaics_from(g: Seq<u8>, n: int) -> Seq<Seq<u8>>
    decreases n * n - g.len(), next_candidates(g, n).len() + 1,
{
    if g.len() >= n * n {
        seq![g]
    } else {
        mosaics_branch(g, n, next_candidates(g, n))
    }
}

/// All completions of `g` whose next cell takes a symbol of `cs`, in order.
pub open spec fn mosaics_branch(g: Seq<u8>, n: int, cs: Seq<u8>) -> Seq<Seq<u8>>
    decreases n * n - g.len(), cs.len(),
{
    if g.len() >= n * n || cs.len() == 0 {
        Seq::empty()
    } else {
        mosaics_from(g.push(cs[0]), n) + mosaics_branch(g, n, cs.drop_first())
    }
}

/// Every suitably connected n x n mosaic, in the order the backtracking
/// enumerator emits them: ascending as n*n-digit base-10 numbers.
pub open spec fn all_mosaics(n: int) -> Seq<Seq<u8>> {
    mosaics_from(Seq::empty(), n)
}

/// `m` extends the partial assignment `g`.
pub open spec fn extends(m: Seq<u8>, g: Seq<u8>) -> bool {
    g.len() <= m.len() && m.subrange(0, g.len() as int) == g
}

/// Every entry of `ms` is a full consistent grid extending `g`.
pub open spec fn all_complete(ms: Seq<Seq<u8>>, g: Seq<u8>, n: int) -> bool {
    forall|i: int| 0 <= i < ms.len() ==> {
        let m = #[trigger] ms[i];
        m.len() == n * n && extends(m, g) && consistent(m, n)
    }
}

/// Splitting over a concatenated branch list.
pub proof fn lemma_branch_concat(g: Seq<u8>, n: int, cs1: Seq<u8>, cs2: Seq<u8>)
    requires
        g.len() < n * n,
    ensures
        mosaics_branch(g, n, cs1 + cs2) == mosaics_branch(g, n, cs1) + mosaics_branch(g, n, cs2),
    decreases cs1.len(),
{
    if cs1.len() == 0 {
        assert(cs1 + cs2 =~= cs2);
        assert(mosaics_branch(g, n, cs1) + mosaics_branch(g, n, cs2) =~= mosaics_branch(
            g,
            n,
            cs2,
        ));
    } else {
        let cs = cs1 + cs2;
        assert(cs[0] == cs1[0]);
        assert(cs.drop_first() =~= cs1.drop_first() + cs2);
        lemma_branch_concat(g, n, cs1.drop_first(), cs2);
        assert(mosaics_from(g.push(cs1[0]), n) + (mosaics_branch(g, n, cs1.drop_first())
            + mosaics_branch(g, n, cs2)) =~= (mosaics_from(g.push(cs1[0]), n) + mosaics_branch(
            g,
            n,
            cs1.drop_first(),
        )) + mosaics_branch(g, n, cs2));
    }
}

/// A branch over a single symbol is the search below that symbol.
pub proof fn lemma_branch_single(g: Seq<u8>, n: int, t: u8)
    requires
        g.len() < n * n,
    ensures
        mosaics_branch(g, n, seq![t]) == mosaics_from(g.push(t), n),
{
    assert(seq![t].drop_first() =~= Seq::<u8>::empty());
    assert(mosaics_branch(g, n, Seq::empty()) =~= Seq::<Seq<u8>>::empty());
    assert(mosaics_from(g.push(t), n) + Seq::<Seq<u8>>::empty() =~= mosaics_from(g.push(t), n));
}

/// Pushing an admissible alphabet symbol keeps the partial assignment
/// consistent one cell further.
pub proof fn lemma_push_ok(g: Seq<u8>, n: int, t: u8)
    requires
        n >= 1,
        g.len() < n * n,
        in_alphabet(g),
        prefix_ok(g, n, g.len() as int),
        t < 10,
        admissible(
            t,
            require_up(g, n, g.len() as int),
            require_left(g, n, g.len() as int),
            open_right(n, g.len() as int),
            open_down(n, g.len() as int),
        ),
    ensures
        in_alphabet(g.push(t)),
        prefix_ok(g.push(t), n, g.len() as int + 1),
{
    let h = g.push(t);
    let c = g.len() as int;
    assert(h.subrange(0, c) =~= g);
    assert forall|k: int| 0 <= k < c + 1 implies cell_ok(h, n, k) by {
        if k < c {
            lemma_cell_ok_extend(g, h, n, k);
        } else {
            assert(h[c] == t);
            if c >= n {
                assert(h[c - n] == g[c - n]);
            }
            if c % n != 0 {
                assert(c >= 1) by (nonlinear_arith)
                    requires
                        n >= 1,
                        0 <= c,
                        c % n != 0,
                ;
                assert(h[c - 1] == g[c - 1]);
            }
        }
    }
}

/// Soundness of the search: starting from a consistent partial
/// assignment, every emitted grid is a full consistent mosaic extending it.
pub proof fn lemma_from_sound(g: Seq<u8>, n: int)
    requires
        n >= 1,
        g.len() <= n * n,
        in_alphabet(g),
        prefix_ok(g, n, g.len() as int),
    ensures
        all_complete(mosaics_from(g, n), g, n),
    decreases n * n - g.len(), next_candidates(g, n).len() + 1,
{
    if g.len() >= n * n {
        assert(extends(g, g)) by {
            assert(g.subrange(0, g.len() as int) =~= g);
        }
        assert(mosaics_from(g, n)[0] == g);
    } else {
        let c = g.len() as int;
        lemma_candidate_seq_props(
            require_up(g, n, c),
            require_left(g, n, c),
            open_right(n, c),
            open_down(n, c),
        );
        lemma_branch_sound(g, n, next_candidates(g, n));
    }
}

/// Soundness of one branch list: as `lemma_from_sound`, for completions
/// whose next symbol is drawn from `cs`.
pub proof fn lemma_branch_sound(g: Seq<u8>, n: int, cs: Seq<u8>)
    requires
        n >= 1,
        g.len() < n * n,
        in_alphabet(g),
        prefix_ok(g, n, g.len() as int),
        forall|i: int| 0 <= i < cs.len() ==> {
            let t = #[trigger] cs[i];
            t < 10 && admissible(
                t,
                require_up(g, n, g.len() as int),
                require_left(g, n, g.len() as int),
                open_right(n, g.len() as int),
                open_down(n, g.len() as int),
            )
        },
    ensures
        all_complete(mosaics_branch(g, n, cs), g, n),
    decreases n * n - g.len(), cs.len(),
{
    if cs.len() > 0 {
        let h = g.push(cs[0]);
        lemma_push_ok(g, n, cs[0]);
        lemma_from_sound(h, n);
        lemma_branch_sound(g, n, cs.drop_first());
        let a = mosaics_from(h, n);
        let b = mosaics_branch(g, n, cs.drop_first());
        assert forall|i: int| 0 <= i < (a + b).len() implies {
            let m = #[trigger] (a + b)[i];
            m.len() == n * n && extends(m, g) && consistent(m, n)
        } by {
            if i < a.len() {
                assert((a + b)[i] == a[i]);
                let m = a[i];
                assert(extends(m, h));
                assert(m.subrange(0, h.len() as int) == h);
                assert forall|k: int| 0 <= k < g.len() implies m.subrange(0, g.len() as int)[k]
                    == g[k] by {
                    assert(m.subrange(0, h.len() as int)[k] == h[k]);
                }
                assert(m.subrange(0, g.len() as int) =~= g);
            } else {
                assert((a + b)[i] == b[i - a.len()]);
            }
        }
    }
}

/// Copies a partial assignment into a fresh vector.
fn copy_grid(g: &Vec<u8>) -> (m: Vec<u8>)
    ensures
        m@ == g@,
{
    let mut m: Vec<u8> = Vec::new();
    let mut i: usize = 0;
    while i < g.len()
        invariant
            i <= g@.len(),
            m@ == g@.subrange(0, i as int),
        decreases g@.len() - i,
    {
        m.push(g[i]);
        proof {
            assert(m@ =~= g@.subrange(0, i as int + 1));
        }
        i = i + 1;
    }
    proof {
        assert(m@ =~= g@);
    }
    m
}

/// Computes the candidate list of the next unassigned cell: the context
/// flags are read off the upper and left neighbours and the boundary.
pub fn candidates_at(g: &Vec<u8>, n: usize) -> (cs: Vec<u8>)
    requires
        1 <= n,
        g@.len() < n * n,
    ensures
        cs@ == next_candidates(g@, n as int),
{
    let c = g.len();
    let req_up = if c >= n {
        crate::tiles::tile_connects_down(g[c - n])
    } else {
        false
    };
    let req_left = if c % n != 0 {
        proof {
            assert(c >= 1) by (nonlinear_arith)
                requires
                    n >= 1,
                    c % n != 0,
            ;
        }
        crate::tiles::tile_connects_right(g[c - 1])
    } else {
        false
    };
    let open_r = c % n != n - 1;
    let open_d = c / n != n - 1;
    candidates_for(req_up, req_left, open_r, open_d)
}

/// The backtracking step: appends to `out` every completion of the
/// partial assignment `g`, in discovery order, leaving `g` as it was.
#[verifier::loop_isolation(false)]
fn collect_from(g: &mut Vec<u8>, n: usize, out: &mut Vec<Vec<u8>>)
    requires
        1 <= n,
        n * n <= usize::MAX,
        old(g)@.len() <= n * n,
    ensures
        final(g)@ == old(g)@,
        final(out).deep_view() == old(out).deep_view() + mosaics_from(old(g)@, n as int),
    decreases n * n - old(g)@.len(),
{
    let n_sq = n * n;
    if g.len() == n_sq {
        let m = copy_grid(g);
        out.push(m);
        proof {
            assert(out.deep_view() =~~= old(out).deep_view() + seq![g@]);
        }
        return;
    }
    let cs = candidates_at(g, n);
    let ghost g0 = g@;
    let ghost out0 = out.deep_view();
    let mut i: usize = 0;
    while i < cs.len()
        invariant
            1 <= n,
            n * n <= usize::MAX,
            g@ == g0,
            g0.len() < n * n,
            cs@ == next_candidates(g0, n as int),
            i <= cs@.len(),
            out.deep_view() == out0 + mosaics_branch(g0, n as int, cs@.subrange(0, i as int)),
        decreases cs@.len() - i,
    {
        let t = cs[i];
        g.push(t);
        collect_from(g, n, out);
        let _ = g.pop();
        proof {
            assert(g@ =~= g0);
            assert(cs@.subrange(0, i as int + 1) =~= cs@.subrange(0, i as int) + seq![t]);
            lemma_branch_concat(g0, n as int, cs@.subrange(0, i as int), seq![t]);
            lemma_branch_single(g0, n as int, t);
            assert(out0 + (mosaics_branch(g0, n as int, cs@.subrange(0, i as int))
                + mosaics_from(g0.push(t), n as int)) =~= (out0 + mosaics_branch(
                g0,
                n as int,
                cs@.subrange(0, i as int),
            )) + mosaics_from(g0.push(t), n as int));
        }
        i = i + 1;
    }
    proof {
        assert(cs@.subrange(0, cs@.len() as int) =~= cs@);
    }
}

/// The enumerator: every suitably connected n x n mosaic, each as its
/// row-major sequence of n*n symbols, in discovery order.
pub fn mosaics(n: usize) -> (out: Vec<Vec<u8>>)
    requires
        1 <= n,
        n * n <= usize::MAX,
    ensures
        out.deep_view() == all_mosaics(n as int),
{
    let mut g: Vec<u8> = Vec::new();
    let mut out: Vec<Vec<u8>> = Vec::new();
    proof {
        assert(out.deep_view() =~= Seq::<Seq<u8>>::empty());
    }
    collect_from(&mut g, n, &mut out);
    proof {
        assert(Seq::<Seq<u8>>::empty() + mosaics_from(Seq::empty(), n as int) =~= mosaics_from(
            Seq::empty(),
            n as int,
        ));
    }
    out
}

} // verus!
