use twenty48::board::Board;

const N: usize = 4;

fn board(rows: [[Option<u8>; 4]; 4]) -> Board {
    let data: Vec<Vec<Option<u8>>> = rows.iter().map(|r| r.to_vec()).collect();
    Board::from_rows(data).expect("a full 4x4 grid")
}

fn cells(b: &Board) -> Vec<Vec<Option<u8>>> {
    let mut out = Vec::new();
    for r in 0..N {
        let mut row = Vec::new();
        for c in 0..N {
            row.push(b.get(r, c));
        }
        out.push(row);
    }
    out
}

fn count_tiles(b: &Board) -> usize {
    let mut n = 0;
    for r in 0..N {
        for c in 0..N {
            if b.get(r, c).is_some() {
                n += 1;
            }
        }
    }
    n
}

const E: Option<u8> = None;

#[test]
fn merge_correctness_left() {
    // exponents [1,1,2,2] are tiles [2,2,4,4]; left gives [4,8,_,_]
    let mut b = board([
        [Some(1), Some(1), Some(2), Some(2)],
        [E, E, E, E],
        [E, E, E, E],
        [E, E, E, E],
    ]);
    assert!(b.left());
    assert_eq!(cells(&b)[0], vec![Some(2), Some(3), E, E]);
}

#[test]
fn merge_correctness_right() {
    // the same tiles moved right give [_,_,4,8]
    let mut b = board([
        [Some(1), Some(1), Some(2), Some(2)],
        [E, E, E, E],
        [E, E, E, E],
        [E, E, E, E],
    ]);
    assert!(b.right());
    assert_eq!(cells(&b)[0], vec![E, E, Some(2), Some(3)]);
}

#[test]
fn merge_correctness_up_and_down() {
    let mut b = board([
        [Some(1), E, E, E],
        [Some(1), E, E, E],
        [Some(2), E, E, E],
        [Some(2), E, E, E],
    ]);
    assert!(b.up());
    let g = cells(&b);
    assert_eq!(
        vec![g[0][0], g[1][0], g[2][0], g[3][0]],
        vec![Some(2), Some(3), E, E]
    );

    let mut b = board([
        [Some(1), E, E, E],
        [Some(1), E, E, E],
        [Some(2), E, E, E],
        [Some(2), E, E, E],
    ]);
    assert!(b.down());
    let g = cells(&b);
    assert_eq!(
        vec![g[0][0], g[1][0], g[2][0], g[3][0]],
        vec![E, E, Some(2), Some(3)]
    );
}

#[test]
fn no_double_merge() {
    // tiles [2,2,2,_] moved left give [4,2,_,_], not [8,_,_,_]
    let mut b = board([
        [Some(1), Some(1), Some(1), E],
        [E, E, E, E],
        [E, E, E, E],
        [E, E, E, E],
    ]);
    assert!(b.left());
    assert_eq!(cells(&b)[0], vec![Some(2), Some(1), E, E]);
}

#[test]
fn noop_detection() {
    // fully left-packed, non-mergeable rows: the move reports false
    // and the grid is identical afterward
    let rows = [
        [Some(1), Some(2), Some(3), E],
        [Some(4), E, E, E],
        [E, E, E, E],
        [Some(2), Some(5), Some(2), Some(5)],
    ];
    let mut b = board(rows);
    let before = cells(&b);
    assert!(!b.left());
    assert_eq!(cells(&b), before);
}

#[test]
fn compaction_idempotence() {
    // a second identical move reports false and changes nothing, when
    // the first pass left no adjacent equal pair
    let mut b = board([
        [Some(1), E, Some(2), Some(1)],
        [E, Some(3), E, E],
        [E, E, E, Some(4)],
        [Some(2), Some(2), Some(4), E],
    ]);
    assert!(b.left());
    let after_first = cells(&b);
    assert!(!b.left());
    assert_eq!(cells(&b), after_first);
}

#[test]
fn conservation_under_merges() {
    // each merged pair removes exactly one tile: 4 tiles, 2 merges, 2 left
    let mut b = board([
        [Some(1), Some(1), Some(2), Some(2)],
        [E, E, E, E],
        [Some(3), E, Some(3), E],
        [E, Some(5), E, Some(6)],
    ]);
    assert_eq!(count_tiles(&b), 8);
    assert!(b.left());
    // row 0: two merges; row 2: one merge; row 3: no merge
    assert_eq!(count_tiles(&b), 5);
}

#[test]
fn move_never_increases_count() {
    let grids = [
        [
            [Some(1), E, Some(1), E],
            [Some(2), Some(2), Some(2), Some(2)],
            [E, E, E, Some(7)],
            [Some(3), Some(4), Some(3), Some(4)],
        ],
        [
            [E, E, E, E],
            [E, E, E, E],
            [E, E, E, E],
            [E, E, E, E],
        ],
    ];
    for rows in grids.iter() {
        let mut b = board(*rows);
        let before = count_tiles(&b);
        b.up();
        assert!(count_tiles(&b) <= before);
        let mut b = board(*rows);
        let before = count_tiles(&b);
        b.down();
        assert!(count_tiles(&b) <= before);
    }
}

#[test]
fn packed_toward_leading_edge() {
    // after a left move no empty square precedes an occupied one
    let mut b = board([
        [E, Some(1), E, Some(2)],
        [E, E, Some(3), E],
        [Some(4), E, E, Some(4)],
        [E, E, E, Some(5)],
    ]);
    b.left();
    let g = cells(&b);
    for r in 0..N {
        let mut seen_empty = false;
        for c in 0..N {
            if g[r][c].is_none() {
                seen_empty = true;
            } else {
                assert!(!seen_empty, "gap before a tile in row {}", r);
            }
        }
    }
    assert_eq!(g[0], vec![Some(1), Some(2), E, E]);
    assert_eq!(g[2], vec![Some(5), E, E, E]);
}

#[test]
fn spawn_legality() {
    let rows = [
        [Some(1), Some(2), Some(3), Some(4)],
        [Some(5), E, Some(6), Some(7)],
        [Some(1), Some(2), Some(3), Some(4)],
        [Some(5), Some(6), Some(7), Some(1)],
    ];
    let mut b = board(rows);
    assert!(b.add());
    // exactly the one empty square was filled, with exponent 0 or 1
    let g = cells(&b);
    for r in 0..N {
        for c in 0..N {
            if (r, c) == (1, 1) {
                let e = g[r][c].expect("spawn fills the empty square");
                assert!(e == 0 || e == 1);
            } else {
                assert_eq!(g[r][c], rows[r][c]);
            }
        }
    }
}

#[test]
fn spawn_on_full_grid_fails() {
    let rows = [
        [Some(1), Some(2), Some(1), Some(2)],
        [Some(2), Some(1), Some(2), Some(1)],
        [Some(1), Some(2), Some(1), Some(2)],
        [Some(2), Some(1), Some(2), Some(1)],
    ];
    let mut b = board(rows);
    let before = cells(&b);
    assert!(!b.add());
    assert_eq!(cells(&b), before);
}

#[test]
fn game_over_scenario() {
    // full grid, no two adjacent equal exponents in any row or column:
    // left, up and spawn all report no change
    let rows = [
        [Some(1), Some(2), Some(1), Some(2)],
        [Some(2), Some(1), Some(2), Some(1)],
        [Some(1), Some(2), Some(1), Some(2)],
        [Some(2), Some(1), Some(2), Some(1)],
    ];
    let mut b = board(rows);
    let before = cells(&b);
    assert!(!b.left());
    assert!(!b.up());
    assert!(!b.add());
    assert_eq!(cells(&b), before);
}

#[test]
fn directional_symmetry_right_packed() {
    // a grid already packed toward the right edge with nothing to
    // merge: left then right restores it exactly
    let rows = [
        [E, E, Some(1), Some(2)],
        [E, E, E, Some(3)],
        [E, E, E, E],
        [E, Some(1), Some(2), Some(1)],
    ];
    let mut b = board(rows);
    b.left();
    b.right();
    let g = cells(&b);
    for r in 0..N {
        assert_eq!(g[r], rows[r].to_vec());
    }
}

#[test]
fn new_board_has_two_starting_tiles() {
    for _ in 0..32 {
        let b = Board::new();
        assert_eq!(count_tiles(&b), 2);
        for r in 0..N {
            for c in 0..N {
                if let Some(e) = b.get(r, c) {
                    assert!(e == 0 || e == 1);
                }
            }
        }
        assert!(b.contains_empty());
    }
}

#[test]
fn contains_empty_reports_correctly() {
    let full = board([
        [Some(1), Some(2), Some(1), Some(2)],
        [Some(2), Some(1), Some(2), Some(1)],
        [Some(1), Some(2), Some(1), Some(2)],
        [Some(2), Some(1), Some(2), Some(1)],
    ]);
    assert!(!full.contains_empty());
    let nearly = board([
        [Some(1), Some(2), Some(1), Some(2)],
        [Some(2), Some(1), Some(2), Some(1)],
        [Some(1), Some(2), E, Some(2)],
        [Some(2), Some(1), Some(2), Some(1)],
    ]);
    assert!(nearly.contains_empty());
}

#[test]
fn from_rows_rejects_wrong_shapes() {
    assert!(Board::from_rows(vec![]).is_none());
    assert!(Board::from_rows(vec![vec![E; 4]; 3]).is_none());
    assert!(Board::from_rows(vec![vec![E; 3]; 4]).is_none());
    let mut ragged = vec![vec![E; 4]; 4];
    ragged[2].push(E);
    assert!(Board::from_rows(ragged).is_none());
    assert!(Board::from_rows(vec![vec![E; 4]; 4]).is_some());
}

#[test]
fn move_reports_change() {
    let mut b = board([
        [E, Some(1), E, E],
        [E, E, E, E],
        [E, E, E, E],
        [E, E, E, E],
    ]);
    assert!(b.left());
    assert_eq!(cells(&b)[0], vec![Some(1), E, E, E]);
    assert!(!b.left());
}
