//! The output sink: each complete mosaic becomes one textual record of
//! n*n decimal digits followed by a newline, appended to a byte stream in
//! discovery order.

use vstd::prelude::*;
use crate::grid::{consistent, in_alphabet};
use crate::search::{all_complete, all_mosaics, lemma_from_sound, mosaics};

verus! {

/// The ASCII digit for one tile symbol.
pub open spec fn digit_byte(t: u8) -> u8 {
    (t + 48) as u8
}

/// The digits of a grid, row-major.
pub open spec fn digits_of(g: Seq<u8>) -> Seq<u8> {
    Seq::new(g.len(), |i: int| digit_byte(g[i]))
}

/// One textual record: the grid's digits followed by a newline.
pub open spec fn line_of(g: Seq<u8>) -> Seq<u8> {
    digits_of(g).push(10u8)
}

/// The whole stream: the records of `ms`, in order.
pub open spec fn render(ms: Seq<Seq<u8>>) -> Seq<u8>
    decreases ms.len(),
{
    if ms.len() == 0 {
        Seq::empty()
    } else {
        line_of(ms[0]) + render(ms.drop_first())
    }
}

/// Rendering distributes over concatenation of record lists.
pub proof fn lemma_render_concat(a: Seq<Seq<u8>>, b: Seq<Seq<u8>>)
    ensures
        render(a + b) == render(a) + render(b),
    decreases a.len(),
{
    if a.len() == 0 {
        assert(a + b =~= b);
        assert(render(a) + render(b) =~= render(b));
    } else {
        assert((a + b)[0] == a[0]);
        assert((a + b).drop_first() =~= a.drop_first() + b);
        lemma_render_concat(a.drop_first(), b);
        assert(line_of(a[0]) + (render(a.drop_first()) + render(b)) =~= (line_of(a[0]) + render(
            a.drop_first(),
        )) + render(b));
    }
}

/// Rendering a single record.
pub proof fn lemma_render_single(m: Seq<u8>)
    ensures
        render(seq![m]) == line_of(m),
{
    assert(seq![m].drop_first() =~= Seq::<Seq<u8>>::empty());
    assert(line_of(m) + render(Seq::<Seq<u8>>::empty()) =~= line_of(m));
}

/// Appends the record of one complete mosaic to the stream.
pub(crate) fn push_line(out: &mut Vec<u8>, g: &Vec<u8>)
    requires
        in_alphabet(g@),
    ensures
        final(out)@ == old(out)@ + line_of(g@),
{
    let ghost out0 = out@;
    let mut i: usize = 0;
    while i < g.len()
        invariant
            i <= g@.len(),
            in_alphabet(g@),
            out@ == out0 + digits_of(g@.subrange(0, i as int)),
        decreases g@.len() - i,
    {
        assert(g@[i as int] < 10);
        out.push(g[i] + 48);
        proof {
            assert(out@ =~= out0 + digits_of(g@.subrange(0, i as int + 1)));
        }
        i = i + 1;
    }
    out.push(10u8);
    proof {
        assert(g@.subrange(0, g@.len() as int) =~= g@);
        assert(out@ =~= out0 + line_of(g@));
    }
}

/// The whole output for grid size n as one byte vector: one record per
/// suitably connected n x n mosaic, in discovery order.  The stream is a
/// function of n alone, so two runs with the same n produce identical
/// bytes.  This builds the full output in memory; to hand records to a
/// sink one at a time as they are discovered, drive a
/// `crate::machine::MosaicEnumerator` instead.
pub fn mosaic_stream(n: usize) -> (out: Vec<u8>)
    requires
        1 <= n,
        n * n <= usize::MAX,
    ensures
        out@ == render(all_mosaics(n as int)),
{
    let ms = mosaics(n);
    proof {
        lemma_from_sound(Seq::empty(), n as int);
    }
    let mut out: Vec<u8> = Vec::new();
    let ghost all = all_mosaics(n as int);
    let mut i: usize = 0;
    while i < ms.len()
        invariant
            i <= ms@.len(),
            ms.deep_view() == all,
            all == all_mosaics(n as int),
            n >= 1,
            all_complete(all, Seq::empty(), n as int),
            out@ == render(all.subrange(0, i as int)),
        decreases ms@.len() - i,
    {
        proof {
            assert(ms.deep_view()[i as int] == ms@[i as int].deep_view());
            assert(ms@[i as int].deep_view() =~= ms@[i as int]@);
            assert(all[i as int] == ms@[i as int]@);
            assert(consistent(all[i as int], n as int));
        }
        push_line(&mut out, &ms[i]);
        proof {
            assert(all.subrange(0, i as int + 1) =~= all.subrange(0, i as int) + seq![all[i as int]]);
            lemma_render_concat(all.subrange(0, i as int), seq![all[i as int]]);
            lemma_render_single(all[i as int]);
        }
        i = i + 1;
    }
    proof {
        assert(all.subrange(0, all.len() as int) =~= all);
    }
    out
}

/// Total-function form of the stream: `None` exactly when the grid size is
/// degenerate (n = 0) or n*n does not fit in `usize`.
pub fn try_mosaic_stream(n: usize) -> (r: Option<Vec<u8>>)
    ensures
        match r {
            Some(out) => 1 <= n && n * n <= usize::MAX && out@ == render(all_mosaics(n as int)),
            None => n == 0 || n * n > usize::MAX,
        },
{
    if n == 0 {
        return None;
    }
    match n.checked_mul(n) {
        Some(_) => Some(mosaic_stream(n)),
        None => None,
    }
}

} // verus!
