use mosaic_gen::candidates::candidates_for;
use mosaic_gen::encode::{mosaic_stream, try_mosaic_stream};
use mosaic_gen::machine::MosaicEnumerator;
use mosaic_gen::search::mosaics;
use mosaic_gen::tiles::{
    tile_connects_down, tile_connects_left, tile_connects_right, tile_connects_up,
};

/// Connectivity signature (up, right, down, left) of a tile symbol.
fn sig(t: u8) -> (bool, bool, bool, bool) {
    match t {
        0 => (false, false, false, false),
        1 => (false, false, true, true),
        2 => (false, true, true, false),
        3 => (true, true, false, false),
        4 => (true, false, false, true),
        5 => (false, true, false, true),
        6 => (true, false, true, false),
        7 | 8 | 9 => (true, true, true, true),
        _ => panic!("not a tile symbol"),
    }
}

/// Edge-by-edge check of a decoded grid: every shared edge agrees in both
/// directions and no strand points off the boundary.
fn locally_consistent(grid: &[u8], n: usize) -> bool {
    assert_eq!(grid.len(), n * n);
    for r in 0..n {
        for c in 0..n {
            let (up, right, down, left) = sig(grid[r * n + c]);
            if r == 0 {
                if up {
                    return false;
                }
            } else {
                let above = sig(grid[(r - 1) * n + c]);
                if up != above.2 {
                    return false;
                }
            }
            if c == 0 {
                if left {
                    return false;
                }
            } else {
                let at_left = sig(grid[r * n + c - 1]);
                if left != at_left.1 {
                    return false;
                }
            }
            if c == n - 1 && right {
                return false;
            }
            if r == n - 1 && down {
                return false;
            }
        }
    }
    true
}

/// Splits a stream into decoded grids, one per newline-terminated record.
fn decode_stream(bytes: &[u8], n: usize) -> Vec<Vec<u8>> {
    let mut grids = Vec::new();
    for line in bytes.split(|&b| b == b'\n') {
        if line.is_empty() {
            continue;
        }
        assert_eq!(line.len(), n * n);
        let grid: Vec<u8> = line
            .iter()
            .map(|&b| {
                assert!(b.is_ascii_digit());
                b - b'0'
            })
            .collect();
        grids.push(grid);
    }
    grids
}

#[test]
fn connectivity_table() {
    // the ten signatures of the alphabet, side by side with the model
    let table = [
        (false, false, false, false),
        (false, false, true, true),
        (false, true, true, false),
        (true, true, false, false),
        (true, false, false, true),
        (false, true, false, true),
        (true, false, true, false),
        (true, true, true, true),
        (true, true, true, true),
        (true, true, true, true),
    ];
    for t in 0..10u8 {
        let (up, right, down, left) = table[t as usize];
        assert_eq!(tile_connects_up(t), up);
        assert_eq!(tile_connects_right(t), right);
        assert_eq!(tile_connects_down(t), down);
        assert_eq!(tile_connects_left(t), left);
    }
}

#[test]
fn candidates_open_corner() {
    // no neighbours required, both far sides open: blank or the
    // down-right corner
    assert_eq!(candidates_for(false, false, true, true), vec![0, 2]);
}

#[test]
fn candidates_closing_corner() {
    // both neighbours reach in, both far sides closed: only the up-left
    // corner fits
    assert_eq!(candidates_for(true, true, false, false), vec![4]);
}

#[test]
fn candidates_crossings() {
    // both neighbours reach in and both far sides are open: the up-left
    // corner closes the strands, or a crossing carries them on
    assert_eq!(candidates_for(true, true, true, true), vec![4, 7, 8, 9]);
}

#[test]
fn candidates_dead_end() {
    // the upper neighbour reaches in but both far sides are closed and the
    // left is blank: no tile fits, the normal sign of a dead branch
    assert_eq!(candidates_for(true, false, false, false), Vec::<u8>::new());
}

#[test]
fn single_cell_enumeration() {
    assert_eq!(mosaics(1), vec![vec![0u8]]);
}

#[test]
fn single_cell_stream() {
    assert_eq!(mosaic_stream(1), b"0\n".to_vec());
}

#[test]
fn two_by_two_stream() {
    // the two suitably connected 2 x 2 mosaics: the blank grid and the
    // single closed loop
    assert_eq!(mosaic_stream(2), b"0000\n2134\n".to_vec());
}

#[test]
fn rejects_degenerate_size() {
    assert!(try_mosaic_stream(0).is_none());
}

#[test]
fn checked_stream_matches() {
    assert_eq!(try_mosaic_stream(1), Some(b"0\n".to_vec()));
    assert_eq!(try_mosaic_stream(2), Some(mosaic_stream(2)));
}

#[test]
fn stream_is_deterministic() {
    assert_eq!(mosaic_stream(3), mosaic_stream(3));
}

#[test]
fn no_duplicate_records() {
    for n in 1..=3usize {
        let grids = decode_stream(&mosaic_stream(n), n);
        for i in 0..grids.len() {
            for j in i + 1..grids.len() {
                assert_ne!(grids[i], grids[j]);
            }
        }
    }
}

#[test]
fn records_strictly_ascending() {
    for n in 1..=3usize {
        let grids = decode_stream(&mosaic_stream(n), n);
        for w in grids.windows(2) {
            assert!(w[0] < w[1]);
        }
    }
}

#[test]
fn all_records_locally_consistent() {
    for n in 1..=3usize {
        let grids = decode_stream(&mosaic_stream(n), n);
        assert!(!grids.is_empty());
        for grid in &grids {
            assert!(locally_consistent(grid, n));
        }
    }
}

#[test]
fn solution_count_grows() {
    let c1 = decode_stream(&mosaic_stream(1), 1).len();
    let c2 = decode_stream(&mosaic_stream(2), 2).len();
    let c3 = decode_stream(&mosaic_stream(3), 3).len();
    assert_eq!(c1, 1);
    assert_eq!(c2, 2);
    assert!(c2 < c3);
}

/// Drains the incremental enumerator, returning all its records.
fn drain_machine(n: usize) -> Vec<Vec<u8>> {
    let mut enumerator = MosaicEnumerator::new(n);
    let mut records = Vec::new();
    while let Some(record) = enumerator.next_record() {
        records.push(record);
    }
    records
}

#[test]
fn machine_single_cell() {
    let mut enumerator = MosaicEnumerator::new(1);
    assert_eq!(enumerator.next_record(), Some(b"0\n".to_vec()));
    assert_eq!(enumerator.next_record(), None);
    assert_eq!(enumerator.next_record(), None);
}

#[test]
fn machine_two_by_two_records() {
    let records = drain_machine(2);
    assert_eq!(records, vec![b"0000\n".to_vec(), b"2134\n".to_vec()]);
}

#[test]
fn machine_matches_stream() {
    for n in 1..=3usize {
        let streamed: Vec<u8> = drain_machine(n).concat();
        assert_eq!(streamed, mosaic_stream(n));
    }
}

#[test]
fn blank_padding_embeds() {
    // every 2 x 2 mosaic, blank-padded with a last row and column, is
    // among the 3 x 3 mosaics
    let small = decode_stream(&mosaic_stream(2), 2);
    let large = decode_stream(&mosaic_stream(3), 3);
    for grid in &small {
        let mut padded = vec![0u8; 9];
        for r in 0..2 {
            for c in 0..2 {
                padded[r * 3 + c] = grid[r * 2 + c];
            }
        }
        assert!(large.contains(&padded));
    }
}
