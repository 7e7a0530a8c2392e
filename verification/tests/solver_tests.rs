use wfc::{Frame, Rule, Tile, Tileset, WfcError, WFC};

fn tile(id: i32, weight: u32, n: u32, s: u32, w: u32, e: u32) -> Tile {
    Tile {
        weight,
        id,
        value: id as u32,
        rules: [
            Rule { direction: 0, border_type: n },
            Rule { direction: 1, border_type: s },
            Rule { direction: 2, border_type: w },
            Rule { direction: 3, border_type: e },
        ],
    }
}

fn tileset(tiles: Vec<Tile>) -> Tileset {
    Tileset { name: String::from("test"), tiles }
}

/// The four connector tiles of the first scenario: a blank tile with all
/// borders closed, and east/west/south connector tiles that open exactly
/// one border, so a connector matches only its mirror on that side.
fn connector_tiles() -> Vec<Tile> {
    vec![
        tile(0, 4, 0, 0, 0, 0), // blank
        tile(1, 1, 0, 0, 0, 1), // east connector
        tile(2, 1, 0, 0, 1, 0), // west connector
        tile(3, 1, 0, 1, 0, 0), // south connector
    ]
}

fn assert_fully_collapsed(board: &Vec<Vec<Frame>>) {
    let size = board.len();
    for r in 0..size {
        assert_eq!(board[r].len(), size);
        for c in 0..size {
            assert!(board[r][c].collapsed);
            assert_eq!(board[r][c].options.len(), 1);
        }
    }
}

fn adjacency_holds(board: &Vec<Vec<Frame>>) -> bool {
    let size = board.len();
    for r in 0..size {
        for c in 0..size {
            let t = &board[r][c].options[0];
            if c + 1 < size {
                let right = &board[r][c + 1].options[0];
                if t.rules[3].border_type != right.rules[2].border_type {
                    return false;
                }
            }
            if r + 1 < size {
                let below = &board[r + 1][c].options[0];
                if t.rules[1].border_type != below.rules[0].border_type {
                    return false;
                }
            }
        }
    }
    true
}

fn assert_adjacency(board: &Vec<Vec<Frame>>) {
    assert_fully_collapsed(board);
    assert!(adjacency_holds(board), "a pair of adjacent borders mismatches");
}

#[test]
fn connectors_three_by_three() {
    // Propagation is deliberately local (two hops from each collapse), so
    // a solve can succeed while a latent border mismatch survives; runs
    // whose result is fully consistent exist, and every success leaves no
    // cell uncollapsed.
    let mut consistent = 0;
    for seed in 0..100u64 {
        let mut solver = WFC::new_seeded(tileset(connector_tiles()), 3, seed).unwrap();
        match solver.resolve() {
            Ok(board) => {
                assert_eq!(board.len(), 3);
                assert_fully_collapsed(&board);
                if adjacency_holds(&board) {
                    consistent += 1;
                }
            }
            Err(e) => assert_eq!(e, WfcError::Contradiction),
        }
    }
    assert!(
        consistent > 0,
        "no seed out of a hundred produced a border-consistent solution"
    );
}

#[test]
fn single_tile_fills_any_board() {
    for size in 1..5usize {
        let mut solver = WFC::new(tileset(vec![tile(7, 3, 5, 5, 5, 5)]), size).unwrap();
        let board = solver.resolve().expect("a self-compatible single tile always resolves");
        assert_eq!(board.len(), size);
        for row in &board {
            assert_eq!(row.len(), size);
            for f in row {
                assert!(f.collapsed);
                assert_eq!(f.options.len(), 1);
                assert_eq!(f.options[0].id, 7);
            }
        }
    }
}

#[test]
fn contradictory_tiles_fail_with_contradiction() {
    // Both tiles refuse to stack vertically on themselves or on each
    // other, so the cell below the first collapse is always left with no
    // candidate.
    let tiles = vec![tile(0, 1, 0, 1, 2, 2), tile(1, 1, 5, 6, 7, 7)];
    for seed in 0..10u64 {
        let mut solver = WFC::new_seeded(tileset(tiles.clone()), 2, seed).unwrap();
        match solver.resolve() {
            Ok(_) => panic!("a contradictory rule set must not resolve"),
            Err(e) => assert_eq!(e, WfcError::Contradiction),
        }
    }
}

#[test]
fn one_by_one_resolves_in_one_step() {
    // No neighbours exist, so even mutually incompatible tiles resolve.
    let tiles = vec![tile(0, 1, 0, 1, 2, 2), tile(1, 1, 5, 6, 7, 7)];
    let mut solver = WFC::new_seeded(tileset(tiles), 1, 11).unwrap();
    let board = solver.resolve().expect("a single cell has nothing to contradict");
    assert_eq!(board.len(), 1);
    assert_eq!(board[0].len(), 1);
    assert!(board[0][0].collapsed);
    assert_eq!(board[0][0].options.len(), 1);
}

#[test]
fn zero_weight_is_rejected_at_construction() {
    let tiles = vec![tile(0, 0, 0, 0, 0, 0)];
    match WFC::new(tileset(tiles), 2) {
        Ok(_) => panic!("a zero weight must be rejected before solving"),
        Err(e) => assert_eq!(e, WfcError::InvalidTileDefinition),
    }
}

#[test]
fn empty_catalog_is_rejected_at_construction() {
    match WFC::new(tileset(Vec::new()), 3) {
        Ok(_) => panic!("an empty catalog must be rejected"),
        Err(e) => assert_eq!(e, WfcError::InvalidTileDefinition),
    }
}

#[test]
fn oversized_total_weight_is_rejected_at_construction() {
    let tiles = vec![tile(0, u32::MAX, 0, 0, 0, 0), tile(1, u32::MAX, 0, 0, 0, 0)];
    match WFC::new_seeded(tileset(tiles), 2, 3) {
        Ok(_) => panic!("a total weight beyond u32::MAX must be rejected"),
        Err(e) => assert_eq!(e, WfcError::InvalidTileDefinition),
    }
}

#[test]
fn weighted_sampling_follows_the_weights() {
    // A single cell with two candidates of weights 1 and 3: over many
    // seeds the lighter tile should be chosen near a quarter of the time.
    let tiles = vec![tile(0, 1, 0, 0, 0, 0), tile(1, 3, 0, 0, 0, 0)];
    let runs = 2000u64;
    let mut light = 0usize;
    let mut heavy = 0usize;
    for seed in 0..runs {
        let mut solver = WFC::new_seeded(tileset(tiles.clone()), 1, seed).unwrap();
        let board = solver.resolve().unwrap();
        match board[0][0].options[0].id {
            0 => light += 1,
            1 => heavy += 1,
            other => panic!("unknown tile id {}", other),
        }
    }
    assert_eq!(light + heavy, runs as usize);
    assert!(
        350 <= light && light <= 650,
        "weight-1 tile chosen {} times out of {}",
        light,
        runs
    );
}

#[test]
fn identical_seeds_give_identical_boards() {
    for seed in 0..10u64 {
        let mut first = WFC::new_seeded(tileset(connector_tiles()), 4, seed).unwrap();
        let mut second = WFC::new_seeded(tileset(connector_tiles()), 4, seed).unwrap();
        match (first.resolve(), second.resolve()) {
            (Ok(a), Ok(b)) => {
                assert_eq!(a.len(), b.len());
                for r in 0..a.len() {
                    assert_eq!(a[r].len(), b[r].len());
                    for c in 0..a[r].len() {
                        assert_eq!(a[r][c].collapsed, b[r][c].collapsed);
                        assert_eq!(a[r][c].options.len(), b[r][c].options.len());
                        for k in 0..a[r][c].options.len() {
                            assert_eq!(a[r][c].options[k].id, b[r][c].options[k].id);
                            assert_eq!(a[r][c].options[k].value, b[r][c].options[k].value);
                        }
                    }
                }
            }
            (Err(a), Err(b)) => assert_eq!(a, b),
            _ => panic!("the same seed gave different outcomes"),
        }
    }
}

#[test]
fn frame_collapse_fixes_the_cell() {
    let mut frame = Frame {
        coord: (0, 0),
        collapsed: false,
        options: connector_tiles(),
    };
    frame.collapse(vec![tile(9, 2, 1, 1, 1, 1)]);
    assert!(frame.collapsed);
    assert_eq!(frame.options.len(), 1);
    assert_eq!(frame.options[0].id, 9);
}

#[test]
fn opposite_directions_are_an_involution() {
    let solver = match WFC::new_seeded(tileset(connector_tiles()), 2, 0) {
        Ok(s) => s,
        Err(_) => panic!("valid catalog"),
    };
    assert_eq!(solver.get_opposite_direction(0), 1);
    assert_eq!(solver.get_opposite_direction(1), 0);
    assert_eq!(solver.get_opposite_direction(2), 3);
    assert_eq!(solver.get_opposite_direction(3), 2);
}

#[test]
fn neighbours_respect_the_board_edges() {
    let solver = WFC::new_seeded(tileset(connector_tiles()), 3, 0).unwrap();
    // order: north, south, west, east
    assert_eq!(
        solver.get_tiles_neighbours((0, 0)),
        vec![None, Some((1, 0)), None, Some((0, 1))]
    );
    assert_eq!(
        solver.get_tiles_neighbours((1, 1)),
        vec![Some((0, 1)), Some((2, 1)), Some((1, 0)), Some((1, 2))]
    );
    assert_eq!(
        solver.get_tiles_neighbours((2, 2)),
        vec![Some((1, 2)), None, Some((2, 1)), None]
    );
}

#[test]
fn collapse_and_propagate_drive_a_solve_by_hand() {
    let mut solver = WFC::new_seeded(tileset(vec![tile(7, 3, 5, 5, 5, 5)]), 2, 42).unwrap();
    let mut steps = 0;
    loop {
        match solver.collapse() {
            Some(coord) => {
                assert!(coord.0 < 2 && coord.1 < 2);
                solver.propagate(coord).expect("one tile is always compatible");
                steps += 1;
            }
            None => break,
        }
        assert!(steps <= 4, "a 2 x 2 board collapses in at most four steps");
    }
    assert!(solver.done);
    let board = solver.resolve().expect("already done");
    assert_adjacency(&board);
}

#[test]
fn catalog_check_matches_construction() {
    assert!(wfc::solver::check_catalog(&connector_tiles()));
    assert!(!wfc::solver::check_catalog(&Vec::new()));
    assert!(!wfc::solver::check_catalog(&vec![tile(0, 0, 0, 0, 0, 0)]));
}
