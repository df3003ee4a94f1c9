//! Global properties of the enumeration: every emitted grid is strictly
//! larger than the one before it (so no mosaic is emitted twice), every
//! consistent mosaic is emitted, the one-cell grid has exactly one mosaic,
//! and the rendered stream is a function of the grid size alone.

use vstd::prelude::*;
use crate::candidates::{ascending, candidate_seq, cands_below, lemma_candidate_seq_props};
use crate::encode::{digit_byte, line_of, lemma_render_single, render};
use crate::grid::{
    cell_ok, consistent, edges_match, in_alphabet, lemma_consistent_is_edges_match, open_down,
    open_right, prefix_ok, require_left, require_up,
};
use crate::search::{
    all_complete, all_mosaics, extends, lemma_branch_sound, lemma_from_sound, lemma_push_ok,
    mosaics_branch, mosaics_from, next_candidates,
};
use crate::tiles::admissible;

verus! {

/// `a` comes strictly before `b` in lexicographic order: they agree up to
/// some position at which `a` holds the smaller symbol.
pub open spec fn lex_lt(a: Seq<u8>, b: Seq<u8>) -> bool {
    exists|i: int|
        0 <= i < a.len() && i < b.len() && a.subrange(0, i) == b.subrange(0, i) && a[i] < b[i]
}

/// The records of `ms` are in strictly ascending lexicographic order.
pub open spec fn strictly_increasing(ms: Seq<Seq<u8>>) -> bool {
    forall|i: int, j: int| 0 <= i < j < ms.len() ==> lex_lt(ms[i], ms[j])
}

/// Strict lexicographic order separates the two sequences.
pub proof fn lemma_lex_lt_neq(a: Seq<u8>, b: Seq<u8>)
    requires
        lex_lt(a, b),
    ensures
        a != b,
{
    let i = choose|i: int|
        0 <= i < a.len() && i < b.len() && a.subrange(0, i) == b.subrange(0, i) && a[i] < b[i];
    assert(a[i] != b[i]);
}

/// Ordering of one branch list: with the next symbols drawn in ascending
/// order, the completions come out in strictly ascending order, and each
/// one carries one of the listed symbols in the branching cell.
proof fn lemma_branch_ordered(g: Seq<u8>, n: int, cs: Seq<u8>)
    requires
        n >= 1,
        g.len() < n * n,
        in_alphabet(g),
        prefix_ok(g, n, g.len() as int),
        ascending(cs),
        forall|i: int| 0 <= i < cs.len() ==> {
            let t = #[trigger] cs[i];
            t < 10 && admissible(
                t,
                require_up(g, n, g.len() as int),
                require_left(g, n, g.len() as int),
                open_right(n, g.len() as int),
                open_down(n, g.len() as int),
            )
        },
    ensures
        strictly_increasing(mosaics_branch(g, n, cs)),
        forall|i: int|
            0 <= i < mosaics_branch(g, n, cs).len() ==> cs.contains(
                (#[trigger] mosaics_branch(g, n, cs)[i])[g.len() as int],
            ),
    decreases n * n - g.len(), cs.len(),
{
    if cs.len() > 0 {
        let c = g.len() as int;
        let t0 = cs[0];
        let h = g.push(t0);
        let a = mosaics_from(h, n);
        let b = mosaics_branch(g, n, cs.drop_first());
        let whole = mosaics_branch(g, n, cs);
        lemma_push_ok(g, n, t0);
        lemma_from_ordered(h, n);
        lemma_from_sound(h, n);
        lemma_branch_sound(g, n, cs);
        assert forall|i: int, j: int| 0 <= i < j < cs.drop_first().len() implies
            cs.drop_first()[i] < cs.drop_first()[j] by {
            assert(cs.drop_first()[i] == cs[i + 1]);
            assert(cs.drop_first()[j] == cs[j + 1]);
        }
        assert forall|i: int| 0 <= i < cs.drop_first().len() implies {
            let t = #[trigger] cs.drop_first()[i];
            t < 10 && admissible(
                t,
                require_up(g, n, c),
                require_left(g, n, c),
                open_right(n, c),
                open_down(n, c),
            )
        } by {
            assert(cs.drop_first()[i] == cs[i + 1]);
        }
        lemma_branch_ordered(g, n, cs.drop_first());
        // every completion through cs[0] holds cs[0] in the branching cell
        assert forall|i: int| 0 <= i < a.len() implies (#[trigger] a[i])[c] == t0 by {
            assert(extends(a[i], h));
            assert(a[i].subrange(0, h.len() as int)[c] == a[i][c]);
        }
        // every completion through a later symbol holds a larger one there
        assert forall|j: int| 0 <= j < b.len() implies t0 < (#[trigger] b[j])[c]
            && cs.contains(b[j][c]) by {
            let k = choose|k: int| 0 <= k < cs.drop_first().len() && cs.drop_first()[k] == b[j][c];
            assert(cs.drop_first()[k] == cs[k + 1]);
            assert(cs[0] < cs[k + 1]);
        }
        // the two parts interleave into a strictly ascending whole
        assert forall|i: int, j: int| 0 <= i < j < whole.len() implies lex_lt(
            whole[i],
            whole[j],
        ) by {
            if j < a.len() {
                assert(whole[i] == a[i]);
                assert(whole[j] == a[j]);
            } else if i >= a.len() {
                assert(whole[i] == b[i - a.len()]);
                assert(whole[j] == b[j - a.len()]);
            } else {
                let x = whole[i];
                let y = whole[j];
                assert(x == a[i]);
                assert(y == b[j - a.len()]);
                assert(extends(x, g) && x.len() == n * n);
                assert(extends(y, g) && y.len() == n * n);
                assert(x.subrange(0, c) == g && y.subrange(0, c) == g);
                assert(x[c] == t0 < y[c]);
                assert(0 <= c < x.len() && c < y.len());
            }
        }
        assert forall|i: int| 0 <= i < whole.len() implies cs.contains(
            (#[trigger] whole[i])[c],
        ) by {
            if i < a.len() {
                assert(whole[i] == a[i]);
                assert(cs[0] == t0);
            } else {
                assert(whole[i] == b[i - a.len()]);
            }
        }
    }
}

/// Ordering of the whole search below a consistent partial assignment.
proof fn lemma_from_ordered(g: Seq<u8>, n: int)
    requires
        n >= 1,
        g.len() <= n * n,
        in_alphabet(g),
        prefix_ok(g, n, g.len() as int),
    ensures
        strictly_increasing(mosaics_from(g, n)),
    decreases n * n - g.len(), next_candidates(g, n).len() + 1,
{
    if g.len() < n * n {
        let c = g.len() as int;
        lemma_candidate_seq_props(
            require_up(g, n, c),
            require_left(g, n, c),
            open_right(n, c),
            open_down(n, c),
        );
        lemma_branch_ordered(g, n, next_candidates(g, n));
    }
}

/// The traversal never repeats a mosaic: the emitted grids are strictly
/// ascending, so they are pairwise distinct.
pub proof fn lemma_no_duplicates(n: int)
    requires
        n >= 1,
    ensures
        strictly_increasing(all_mosaics(n)),
        forall|i: int, j: int|
            0 <= i < j < all_mosaics(n).len() ==> all_mosaics(n)[i] != all_mosaics(n)[j],
{
    assert(n * n >= 1) by (nonlinear_arith)
        requires
            n >= 1,
    ;
    lemma_from_ordered(Seq::empty(), n);
    assert forall|i: int, j: int| 0 <= i < j < all_mosaics(n).len() implies all_mosaics(n)[i]
        != all_mosaics(n)[j] by {
        lemma_lex_lt_neq(all_mosaics(n)[i], all_mosaics(n)[j]);
    }
}

/// Soundness of the enumeration: every emitted grid is a suitably
/// connected n x n mosaic.
pub proof fn lemma_enumeration_sound(n: int)
    requires
        n >= 1,
    ensures
        forall|i: int|
            0 <= i < all_mosaics(n).len() ==> consistent(#[trigger] all_mosaics(n)[i], n),
{
    assert(n * n >= 1) by (nonlinear_arith)
        requires
            n >= 1,
    ;
    lemma_from_sound(Seq::empty(), n);
    assert(all_complete(all_mosaics(n), Seq::empty(), n));
}

/// Local consistency of every emitted record: read back as an n x n grid,
/// each one matches every interior edge in both directions and closes
/// every boundary side.
pub proof fn lemma_emitted_edges_match(n: int, i: int)
    requires
        n >= 1,
        0 <= i < all_mosaics(n).len(),
    ensures
        edges_match(all_mosaics(n)[i], n),
{
    lemma_enumeration_sound(n);
    lemma_consistent_is_edges_match(all_mosaics(n)[i], n);
}

/// Completeness of one branch list: a consistent completion of `g` whose
/// next symbol is listed in `cs` is found below `cs`.
proof fn lemma_branch_complete(g: Seq<u8>, n: int, cs: Seq<u8>, m: Seq<u8>)
    requires
        n >= 1,
        g.len() < n * n,
        extends(m, g),
        consistent(m, n),
        cs.contains(m[g.len() as int]),
    ensures
        mosaics_branch(g, n, cs).contains(m),
    decreases n * n - g.len(), cs.len(),
{
    let c = g.len() as int;
    let t = m[c];
    let a = mosaics_from(g.push(cs[0]), n);
    let b = mosaics_branch(g, n, cs.drop_first());
    if cs[0] == t {
        let h = g.push(t);
        assert(extends(m, h)) by {
            assert forall|k: int| 0 <= k < h.len() implies m.subrange(0, h.len() as int)[k]
                == h[k] by {
                if k < c {
                    assert(m.subrange(0, c)[k] == m[k]);
                }
            }
            assert(m.subrange(0, h.len() as int) =~= h);
        }
        lemma_from_complete(h, n, m);
        let i = choose|i: int| 0 <= i < a.len() && a[i] == m;
        assert(mosaics_branch(g, n, cs)[i] == m);
    } else {
        let k = choose|k: int| 0 <= k < cs.len() && cs[k] == t;
        assert(cs.drop_first()[k - 1] == t);
        assert(cs.drop_first().contains(t));
        lemma_branch_complete(g, n, cs.drop_first(), m);
        let i = choose|i: int| 0 <= i < b.len() && b[i] == m;
        assert(mosaics_branch(g, n, cs)[a.len() + i] == m);
    }
}

/// Completeness of the search below a partial assignment: every
/// consistent completion of `g` is emitted.
proof fn lemma_from_complete(g: Seq<u8>, n: int, m: Seq<u8>)
    requires
        n >= 1,
        g.len() <= n * n,
        extends(m, g),
        consistent(m, n),
    ensures
        mosaics_from(g, n).contains(m),
    decreases n * n - g.len(), next_candidates(g, n).len() + 1,
{
    if g.len() >= n * n {
        assert(m.subrange(0, m.len() as int) =~= m);
        assert(m == g);
        assert(mosaics_from(g, n)[0] == m);
    } else {
        let c = g.len() as int;
        let t = m[c];
        assert(cell_ok(m, n, c));
        assert(m[c] == m.subrange(0, c + 1)[c]);
        // the context read in the full grid is the context of the prefix
        assert(require_up(m, n, c) == require_up(g, n, c)) by {
            if c >= n {
                assert(m.subrange(0, c)[c - n] == m[c - n]);
                assert(g[c - n] == m[c - n]);
            }
        }
        assert(require_left(m, n, c) == require_left(g, n, c)) by {
            if c % n != 0 {
                assert(c >= 1) by (nonlinear_arith)
                    requires
                        n >= 1,
                        0 <= c,
                        c % n != 0,
                ;
                assert(m.subrange(0, c)[c - 1] == m[c - 1]);
                assert(g[c - 1] == m[c - 1]);
            }
        }
        assert(t < 10);
        lemma_candidate_seq_props(
            require_up(g, n, c),
            require_left(g, n, c),
            open_right(n, c),
            open_down(n, c),
        );
        assert(next_candidates(g, n).contains(t));
        lemma_branch_complete(g, n, next_candidates(g, n), m);
    }
}

/// Completeness of the enumeration: every suitably connected n x n mosaic
/// appears in the emitted sequence (and, with `lemma_no_duplicates`,
/// exactly once).
pub proof fn lemma_enumeration_complete(n: int, m: Seq<u8>)
    requires
        n >= 1,
        consistent(m, n),
    ensures
        all_mosaics(n).contains(m),
{
    assert(n * n >= 1) by (nonlinear_arith)
        requires
            n >= 1,
    ;
    assert(m.subrange(0, 0) =~= Seq::<u8>::empty());
    lemma_from_complete(Seq::empty(), n, m);
}

/// The one-cell grid: only the blank tile closes all four sides, so the
/// enumeration emits exactly the single record `0`.
pub proof fn lemma_single_cell()
    ensures
        all_mosaics(1) == seq![seq![0u8]],
        render(all_mosaics(1)) == seq![48u8, 10u8],
{
    reveal_with_fuel(cands_below, 11);
    let cs = next_candidates(Seq::empty(), 1);
    assert(cs =~= seq![0u8]);
    reveal_with_fuel(mosaics_from, 2);
    reveal_with_fuel(mosaics_branch, 2);
    assert(cs.drop_first() =~= Seq::<u8>::empty());
    assert(mosaics_branch(Seq::empty(), 1, cs.drop_first()) =~= Seq::<Seq<u8>>::empty());
    assert(mosaics_from(seq![0u8], 1) == seq![seq![0u8]]);
    assert(all_mosaics(1) =~= seq![seq![0u8]]);
    lemma_render_single(seq![0u8]);
    assert(line_of(seq![0u8]) =~= seq![48u8, 10u8]);
}

/// Distinct grids of equal length render to distinct records.
pub proof fn lemma_line_of_injective(g1: Seq<u8>, g2: Seq<u8>)
    requires
        g1.len() == g2.len(),
        in_alphabet(g1),
        in_alphabet(g2),
        g1 != g2,
    ensures
        line_of(g1) != line_of(g2),
{
    if forall|k: int| 0 <= k < g1.len() ==> g1[k] == g2[k] {
        assert(g1 =~= g2);
    }
    let k = choose|k: int| 0 <= k < g1.len() && g1[k] != g2[k];
    assert(line_of(g1)[k] == digit_byte(g1[k]));
    assert(line_of(g2)[k] == digit_byte(g2[k]));
    assert(g1[k] < 10 && g2[k] < 10);
}

/// No duplicate records: the emitted lines are pairwise distinct.
pub proof fn lemma_records_distinct(n: int)
    requires
        n >= 1,
    ensures
        forall|i: int, j: int|
            0 <= i < j < all_mosaics(n).len() ==> line_of(#[trigger] all_mosaics(n)[i]) != line_of(
                #[trigger] all_mosaics(n)[j],
            ),
{
    lemma_no_duplicates(n);
    lemma_enumeration_sound(n);
    assert forall|i: int, j: int| 0 <= i < j < all_mosaics(n).len() implies line_of(
        #[trigger] all_mosaics(n)[i],
    ) != line_of(#[trigger] all_mosaics(n)[j]) by {
        lemma_line_of_injective(all_mosaics(n)[i], all_mosaics(n)[j]);
    }
}

/// Order determinism: the stream is a function of the grid size alone, so
/// two byte streams produced for the same size are identical.
pub proof fn lemma_stream_deterministic(n: int, a: Seq<u8>, b: Seq<u8>)
    requires
        a == render(all_mosaics(n)),
        b == render(all_mosaics(n)),
    ensures
        a == b,
{
}

/// The row and column of an index in a square grid of width `w`.
proof fn lemma_rowcol(w: int, i: int)
    requires
        w >= 1,
        0 <= i < w * w,
    ensures
        0 <= i % w < w,
        0 <= i / w < w,
        i == (i / w) * w + (i % w),
{
    vstd::arithmetic::div_mod::lemma_fundamental_div_mod(i, w);
    vstd::arithmetic::div_mod::lemma_mod_bound(i, w);
    assert(0 <= i / w < w && i == (i / w) * w + (i % w)) by (nonlinear_arith)
        requires
            w >= 1,
            0 <= i < w * w,
            i == w * (i / w) + (i % w),
            0 <= i % w < w,
    ;
}

/// The index of a row and column in a square grid of width `w`.
proof fn lemma_cell_index(w: int, r: int, c: int)
    requires
        w >= 1,
        0 <= r,
        0 <= c < w,
    ensures
        (r * w + c) / w == r,
        (r * w + c) % w == c,
        r * w + c >= 0,
        r < w ==> r * w + c < w * w,
        r >= 1 ==> r * w + c >= w,
{
    vstd::arithmetic::div_mod::lemma_fundamental_div_mod_converse(r * w + c, w, r, c);
    assert(r * w + c >= 0 && (r < w ==> r * w + c < w * w) && (r >= 1 ==> r * w + c >= w))
        by (nonlinear_arith)
        requires
            w >= 1,
            0 <= r,
            0 <= c < w,
    ;
}

/// `g` extended by a blank last row and a blank last column, as an
/// (n+1) x (n+1) grid.
pub open spec fn blank_padded(g: Seq<u8>, n: int) -> Seq<u8> {
    Seq::new(
        ((n + 1) * (n + 1)) as nat,
        |i: int|
            if i % (n + 1) < n && i / (n + 1) < n {
                g[(i / (n + 1)) * n + i % (n + 1)]
            } else {
                0u8
            },
    )
}

/// Monotonic growth, the embedding half: a consistent n x n mosaic stays
/// consistent when blank-padded to the next grid size.
pub proof fn lemma_blank_padding(g: Seq<u8>, n: int)
    requires
        n >= 1,
        consistent(g, n),
    ensures
        consistent(blank_padded(g, n), n + 1),
{
    let w = n + 1;
    let m = blank_padded(g, n);
    assert(m.len() == w * w);
    assert forall|i: int| 0 <= i < m.len() implies (#[trigger] m[i]) < 10 by {
        lemma_rowcol(w, i);
        let r = i / w;
        let c = i % w;
        if c < n && r < n {
            lemma_cell_index(n, r, c);
            assert(g[r * n + c] < 10);
        }
    }
    assert forall|i: int| 0 <= i < w * w implies cell_ok(m, w, i) by {
        lemma_rowcol(w, i);
        let r = i / w;
        let c = i % w;
        let t = m[i];
        // the boundary flags of cell i in the padded grid
        assert(open_right(w, i) == (c != w - 1));
        assert(open_down(w, i) == (r != w - 1));
        assert(r >= 1 ==> i >= w && i - w == (r - 1) * w + c) by (nonlinear_arith)
            requires
                w >= 1,
                0 <= c < w,
                0 <= r,
                i == r * w + c,
        ;
        assert(r == 0 ==> i < w) by (nonlinear_arith)
            requires
                0 <= c < w,
                i == r * w + c,
        ;
        if r >= 1 {
            lemma_cell_index(w, r - 1, c);
        }
        if c >= 1 {
            lemma_cell_index(w, r, c - 1);
            assert(i - 1 == r * w + (c - 1));
        }
        if r < n && c < n {
            // the cell carries a tile of `g`, in the same context
            let k = r * n + c;
            lemma_cell_index(n, r, c);
            assert(t == g[k]);
            assert(cell_ok(g, n, k));
            assert(r >= 1 ==> k >= n && k - n == (r - 1) * n + c) by (nonlinear_arith)
                requires
                    n >= 1,
                    0 <= c < n,
                    0 <= r,
                    k == r * n + c,
            ;
            assert(r == 0 ==> k < n) by (nonlinear_arith)
                requires
                    0 <= c < n,
                    k == r * n + c,
            ;
            if r >= 1 {
                lemma_cell_index(n, r - 1, c);
                assert(m[i - w] == g[k - n]);
            }
            assert(require_up(m, w, i) == require_up(g, n, k));
            if c >= 1 {
                lemma_cell_index(n, r, c - 1);
                assert(k - 1 == r * n + (c - 1));
                assert(m[i - 1] == g[k - 1]);
            }
            assert(require_left(m, w, i) == require_left(g, n, k));
        } else {
            // the cell lies in the blank band
            assert(t == 0);
            if r >= 1 {
                if c < n {
                    // below the last row of `g`: that tile may not reach down
                    let k = (r - 1) * n + c;
                    lemma_cell_index(n, r - 1, c);
                    assert(m[i - w] == g[k]);
                    assert(cell_ok(g, n, k));
                    assert(!open_down(n, k));
                } else {
                    assert(m[i - w] == 0);
                }
            }
            assert(!require_up(m, w, i));
            if c >= 1 {
                if r < n {
                    // right of the last column of `g`: that tile may not
                    // reach right
                    let k = r * n + (c - 1);
                    lemma_cell_index(n, r, c - 1);
                    assert(m[i - 1] == g[k]);
                    assert(cell_ok(g, n, k));
                    assert(!open_right(n, k));
                } else {
                    assert(m[i - 1] == 0);
                }
            }
            assert(!require_left(m, w, i));
        }
    }
}

/// Monotonic growth, the distinctness half: blank padding never
/// identifies two different mosaics.
pub proof fn lemma_blank_padding_injective(g1: Seq<u8>, g2: Seq<u8>, n: int)
    requires
        n >= 1,
        g1.len() == n * n,
        g2.len() == n * n,
        blank_padded(g1, n) == blank_padded(g2, n),
    ensures
        g1 == g2,
{
    let w = n + 1;
    assert forall|k: int| 0 <= k < n * n implies g1[k] == g2[k] by {
        lemma_rowcol(n, k);
        let r = k / n;
        let c = k % n;
        lemma_cell_index(w, r, c);
        let i = r * w + c;
        assert(blank_padded(g1, n)[i] == g1[k]);
        assert(blank_padded(g2, n)[i] == g2[k]);
    }
    assert(g1 =~= g2);
}

/// Monotonic growth at the enumeration: the next grid size emits the
/// blank-padded copy of every mosaic of the current one.
pub proof fn lemma_padded_emitted(n: int, m: Seq<u8>)
    requires
        n >= 1,
        consistent(m, n),
    ensures
        all_mosaics(n + 1).contains(blank_padded(m, n)),
{
    lemma_blank_padding(m, n);
    lemma_enumeration_complete(n + 1, blank_padded(m, n));
}

/// A grid of width `w` that is blank except for a closed loop of four
/// corner tiles at its lower right.
spec fn corner_loop(w: int) -> Seq<u8> {
    Seq::new(
        (w * w) as nat,
        |i: int|
            if i == (w - 2) * w + (w - 2) {
                2u8
            } else if i == (w - 2) * w + (w - 1) {
                1u8
            } else if i == (w - 1) * w + (w - 2) {
                3u8
            } else if i == (w - 1) * w + (w - 1) {
                4u8
            } else {
                0u8
            },
    )
}

/// The corner-loop grid is a suitably connected mosaic.
proof fn lemma_corner_loop_consistent(w: int)
    requires
        w >= 2,
    ensures
        consistent(corner_loop(w), w),
{
    let m = corner_loop(w);
    let a = (w - 2) * w + (w - 2);
    let b = (w - 2) * w + (w - 1);
    let d = (w - 1) * w + (w - 2);
    let e = (w - 1) * w + (w - 1);
    lemma_cell_index(w, w - 2, w - 2);
    lemma_cell_index(w, w - 2, w - 1);
    lemma_cell_index(w, w - 1, w - 2);
    lemma_cell_index(w, w - 1, w - 1);
    assert(m.len() == w * w);
    assert forall|i: int| 0 <= i < w * w implies cell_ok(m, w, i) && (#[trigger] m[i]) < 10 by {
        lemma_rowcol(w, i);
        let r = i / w;
        let c = i % w;
        assert(i == a <==> r == w - 2 && c == w - 2);
        assert(i == b <==> r == w - 2 && c == w - 1);
        assert(i == d <==> r == w - 1 && c == w - 2);
        assert(i == e <==> r == w - 1 && c == w - 1);
        assert(r >= 1 ==> i >= w && i - w == (r - 1) * w + c) by (nonlinear_arith)
            requires
                w >= 1,
                0 <= c < w,
                0 <= r,
                i == r * w + c,
        ;
        assert(r == 0 ==> i < w) by (nonlinear_arith)
            requires
                0 <= c < w,
                i == r * w + c,
        ;
        if r >= 1 {
            let j = i - w;
            lemma_cell_index(w, r - 1, c);
            assert(j == a <==> r - 1 == w - 2 && c == w - 2);
            assert(j == b <==> r - 1 == w - 2 && c == w - 1);
            assert(j == d <==> r - 1 == w - 1 && c == w - 2);
            assert(j == e <==> r - 1 == w - 1 && c == w - 1);
        }
        if c >= 1 {
            let j = i - 1;
            assert(j == r * w + (c - 1));
            lemma_cell_index(w, r, c - 1);
            assert(j == a <==> r == w - 2 && c - 1 == w - 2);
            assert(j == b <==> r == w - 2 && c - 1 == w - 1);
            assert(j == d <==> r == w - 1 && c - 1 == w - 2);
            assert(j == e <==> r == w - 1 && c - 1 == w - 1);
        }
        assert(open_right(w, i) == (c != w - 1));
        assert(open_down(w, i) == (r != w - 1));
    }
}

/// Monotonic growth of the solution count: the enumeration for the next
/// grid size is strictly longer.  It contains the distinct blank-padded
/// copy of every mosaic of the current size, and beyond those the
/// corner-loop mosaic, whose last cell is not blank.
pub proof fn lemma_count_strictly_grows(n: int)
    requires
        n >= 1,
    ensures
        all_mosaics(n).len() < all_mosaics(n + 1).len(),
{
    broadcast use vstd::seq_lib::seq_to_set_is_finite;

    let sn = all_mosaics(n);
    let sm = all_mosaics(n + 1);
    lemma_no_duplicates(n);
    lemma_no_duplicates(n + 1);
    lemma_enumeration_sound(n);
    assert forall|i: int, j: int|
        0 <= i < sn.len() && 0 <= j < sn.len() && i != j implies sn[i] != sn[j] by {
        if i < j {
            assert(sn[i] != sn[j]);
        } else {
            assert(sn[j] != sn[i]);
        }
    }
    sn.unique_seq_to_set();
    assert forall|i: int, j: int|
        0 <= i < sm.len() && 0 <= j < sm.len() && i != j implies sm[i] != sm[j] by {
        if i < j {
            assert(sm[i] != sm[j]);
        } else {
            assert(sm[j] != sm[i]);
        }
    }
    sm.unique_seq_to_set();
    let f = |g: Seq<u8>| blank_padded(g, n);
    let x = sn.to_set();
    let y = x.map(f);
    assert forall|g1: Seq<u8>, g2: Seq<u8>|
        x.contains(g1) && x.contains(g2) && #[trigger] f(g1) == #[trigger] f(g2) implies g1
        == g2 by {
        let i1 = choose|i: int| 0 <= i < sn.len() && sn[i] == g1;
        let i2 = choose|i: int| 0 <= i < sn.len() && sn[i] == g2;
        assert(consistent(g1, n) && consistent(g2, n));
        lemma_blank_padding_injective(g1, g2, n);
    }
    assert(vstd::relations::injective_on(f, x));
    vstd::set_lib::lemma_map_size(x, y, f);
    assert forall|p: Seq<u8>| y.contains(p) implies sm.to_set().contains(p) by {
        let g = choose|g: Seq<u8>| x.contains(g) && f(g) == p;
        let i = choose|i: int| 0 <= i < sn.len() && sn[i] == g;
        assert(consistent(g, n));
        lemma_padded_emitted(n, g);
    }
    let w = n + 1;
    let p = corner_loop(w);
    lemma_corner_loop_consistent(w);
    lemma_enumeration_complete(w, p);
    assert(sm.to_set().contains(p));
    let last = w * w - 1;
    lemma_cell_index(w, w - 2, w - 2);
    lemma_cell_index(w, w - 2, w - 1);
    lemma_cell_index(w, w - 1, w - 2);
    lemma_cell_index(w, w - 1, w - 1);
    assert(last == (w - 1) * w + (w - 1)) by (nonlinear_arith)
        requires
            w >= 1,
            last == w * w - 1,
    ;
    assert(p[last] == 4);
    assert forall|q: Seq<u8>| y.contains(q) implies q != p by {
        let g = choose|g: Seq<u8>| x.contains(g) && f(g) == q;
        assert(blank_padded(g, n)[last] == 0);
    }
    assert(y.subset_of(sm.to_set().remove(p)));
    vstd::set_lib::lemma_len_subset(y, sm.to_set().remove(p));
    assert(sm.to_set().remove(p).len() == sm.to_set().len() - 1);
}

} // verus!
