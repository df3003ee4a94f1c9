//! The grid model: cell contexts derived from a row-major prefix of an
//! n x n assignment, local consistency of a cell, and consistency of a
//! whole mosaic.  Cells are indexed 0 .. n*n - 1 row-major
//! (index = row * n + column).

use vstd::prelude::*;
use crate::tiles::{admissible, connects_down, connects_left, connects_right, connects_up};

verus! {

/// The upper neighbour of cell `c` (present iff `c` is not in the first
/// row) reaches down into `c`, so `c` must reach back up.
pub open spec fn require_up(g: Seq<u8>, n: int, c: int) -> bool {
    c >= n && connects_down(g[c - n])
}

/// The left neighbour of cell `c` (present iff `c` is not in the first
/// column) reaches right into `c`, so `c` must reach back left.
pub open spec fn require_left(g: Seq<u8>, n: int, c: int) -> bool {
    c % n != 0 && connects_right(g[c - 1])
}

/// A strand may leave cell `c` to the right: `c` is not in the last column.
pub open spec fn open_right(n: int, c: int) -> bool {
    c % n != n - 1
}

/// A strand may leave cell `c` downward: `c` is not in the last row.
pub open spec fn open_down(n: int, c: int) -> bool {
    c / n != n - 1
}

/// Cell `c` of grid `g` holds a symbol admissible for its context.
pub open spec fn cell_ok(g: Seq<u8>, n: int, c: int) -> bool {
    admissible(g[c], require_up(g, n, c), require_left(g, n, c), open_right(n, c), open_down(n, c))
}

/// The first `k` cells of `g` are each locally admissible.
pub open spec fn prefix_ok(g: Seq<u8>, n: int, k: int) -> bool {
    forall|c: int| 0 <= c < k ==> cell_ok(g, n, c)
}

/// Every entry of `g` is a symbol of the ten-tile alphabet.
pub open spec fn in_alphabet(g: Seq<u8>) -> bool {
    forall|c: int| 0 <= c < g.len() ==> (#[trigger] g[c]) < 10
}

/// `g` is a suitably connected n x n mosaic: a full row-major assignment
/// of alphabet symbols in which every cell is locally admissible.
pub open spec fn consistent(g: Seq<u8>, n: int) -> bool {
    &&& g.len() == n * n
    &&& in_alphabet(g)
    &&& prefix_ok(g, n, n * n)
}

/// Edge-by-edge statement of consistency: each interior edge is matched by
/// the two tiles that share it, and no strand points off the boundary.
/// Every interior vertical edge is stated at its lower cell, every interior
/// horizontal edge at its right cell.
pub open spec fn edges_match(g: Seq<u8>, n: int) -> bool {
    forall|c: int| 0 <= c < n * n ==> {
        &&& (c >= n ==> connects_up(#[trigger] g[c]) == connects_down(g[c - n]))
        &&& (c < n ==> !connects_up(g[c]))
        &&& (c % n != 0 ==> connects_left(g[c]) == connects_right(g[c - 1]))
        &&& (c % n == 0 ==> !connects_left(g[c]))
        &&& (c % n == n - 1 ==> !connects_right(g[c]))
        &&& (c / n == n - 1 ==> !connects_down(g[c]))
    }
}

/// Local consistency: a full grid is consistent exactly when every shared
/// edge agrees in both directions and every boundary side is closed.
pub proof fn lemma_consistent_is_edges_match(g: Seq<u8>, n: int)
    requires
        n >= 1,
        g.len() == n * n,
        in_alphabet(g),
    ensures
        consistent(g, n) <==> edges_match(g, n),
{
    if prefix_ok(g, n, n * n) {
        assert forall|c: int| 0 <= c < n * n implies {
            &&& (c >= n ==> connects_up(#[trigger] g[c]) == connects_down(g[c - n]))
            &&& (c < n ==> !connects_up(g[c]))
            &&& (c % n != 0 ==> connects_left(g[c]) == connects_right(g[c - 1]))
            &&& (c % n == 0 ==> !connects_left(g[c]))
            &&& (c % n == n - 1 ==> !connects_right(g[c]))
            &&& (c / n == n - 1 ==> !connects_down(g[c]))
        } by {
            assert(cell_ok(g, n, c));
        }
    }
    if edges_match(g, n) {
        assert forall|c: int| 0 <= c < n * n implies cell_ok(g, n, c) by {
            assert(0 <= c < n * n ==> {
                &&& (c >= n ==> connects_up(g[c]) == connects_down(g[c - n]))
                &&& (c < n ==> !connects_up(g[c]))
                &&& (c % n != 0 ==> connects_left(g[c]) == connects_right(g[c - 1]))
                &&& (c % n == 0 ==> !connects_left(g[c]))
                &&& (c % n == n - 1 ==> !connects_right(g[c]))
                &&& (c / n == n - 1 ==> !connects_down(g[c]))
            });
        }
    }
}

/// A cell's admissibility reads only entries at or before the cell, so it
/// is unchanged when the grid is extended on the right.
pub proof fn lemma_cell_ok_extend(g: Seq<u8>, h: Seq<u8>, n: int, c: int)
    requires
        n >= 1,
        0 <= c < g.len(),
        g.len() <= h.len(),
        h.subrange(0, g.len() as int) == g,
    ensures
        cell_ok(h, n, c) == cell_ok(g, n, c),
{
    assert(h[c] == h.subrange(0, g.len() as int)[c]);
    if c >= n {
        assert(h[c - n] == h.subrange(0, g.len() as int)[c - n]);
    }
    if c % n != 0 {
        assert(c >= 1) by (nonlinear_arith)
            requires
                n >= 1,
                0 <= c,
                c % n != 0,
        ;
        assert(h[c - 1] == h.subrange(0, g.len() as int)[c - 1]);
    }
}

} // verus!
