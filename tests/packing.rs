use tile_packer::search::branch_on_cell;
use tile_packer::{
    render, solve, Packing, RotSym, SquareAllocation, Tile, TilePlacement, TilePlacementOnField,
};

fn shape(lines: &[&str]) -> Tile {
    let lines: Vec<String> = lines.iter().map(|l| l.to_string()).collect();
    Tile::from_shape(&lines).expect("shape has squares")
}

fn rotate_once(sym: RotSym, p: (i8, i8)) -> (i8, i8) {
    let t = Tile { squares: vec![p], rot_sym: sym, placed: false };
    t.get_square_rotated(0, 1)
}

fn normalize(pts: &mut Vec<(i64, i64)>) {
    let min_x = pts.iter().map(|p| p.0).min().unwrap();
    let min_y = pts.iter().map(|p| p.1).min().unwrap();
    for p in pts.iter_mut() {
        *p = (p.0 - min_x, p.1 - min_y);
    }
    pts.sort();
}

#[test]
fn square_is_quarter_turn_symmetric() {
    assert_eq!(shape(&["##", "##"]).rot_sym, RotSym::QuarterTurns);
}

#[test]
fn s_shape_is_half_turn_symmetric() {
    assert_eq!(shape(&[" ##", "## "]).rot_sym, RotSym::HalfTurns);
}

#[test]
fn l_shape_has_no_symmetry() {
    assert_eq!(shape(&["#", "#", "##"]).rot_sym, RotSym::FullTurns);
}

#[test]
fn single_square_is_quarter_turn_symmetric() {
    assert_eq!(shape(&["#"]).rot_sym, RotSym::QuarterTurns);
}

#[test]
fn shape_squares_in_row_order() {
    let t = shape(&[" ##", "## "]);
    assert_eq!(t.squares, vec![(1, 0), (2, 0), (0, 1), (1, 1)]);
    assert!(!t.placed);
}

#[test]
fn blank_shape_has_no_tile() {
    let lines = vec!["   ".to_string(), String::new()];
    assert!(Tile::from_shape(&lines).is_none());
}

#[test]
fn rotations_of_full_turn_tile() {
    let t = shape(&["#", "#", "##"]);
    assert_eq!(t.squares[3], (1, 2));
    assert_eq!(t.get_square_rotated(3, 0), (1, 2));
    assert_eq!(t.get_square_rotated(3, 1), (-2, 1));
    assert_eq!(t.get_square_rotated(3, 2), (-1, -2));
    assert_eq!(t.get_square_rotated(3, 3), (2, -1));
}

#[test]
fn rotation_of_half_turn_tile() {
    let t = shape(&[" ##", "## "]);
    assert_eq!(t.get_square_rotated(1, 1), (-2, 0));
    assert_eq!(t.get_square_rotated(2, 0), (0, 1));
}

#[test]
fn four_quarter_turns_return_each_square() {
    let t = shape(&["#", "#", "##"]);
    for i in 0..t.squares.len() {
        let mut p = t.squares[i];
        for _ in 0..4 {
            p = rotate_once(RotSym::FullTurns, p);
        }
        assert_eq!(p, t.squares[i]);
    }
}

#[test]
fn two_half_turns_return_each_square() {
    let t = shape(&[" ##", "## "]);
    for i in 0..t.squares.len() {
        let once = rotate_once(RotSym::HalfTurns, t.squares[i]);
        assert_eq!(once, t.get_square_rotated(i, 1));
        assert_eq!(rotate_once(RotSym::HalfTurns, once), t.squares[i]);
    }
}

#[test]
fn try_place_accepts_and_registers() {
    let mut p = Packing::new(3, 2, vec![shape(&["##"])]);
    let s = SquareAllocation { id: 0, square_id: 0, rotation: 0 };
    assert!(p.try_place(1, 1, s));
    // (1,1) and (2,1) now hold the candidates of squares 0 and 1.
    assert_eq!(p.field[4], Some(vec![s]));
    assert_eq!(p.field[5], Some(vec![SquareAllocation { id: 0, square_id: 1, rotation: 0 }]));
    assert_eq!(p.field[3], Some(vec![]));
    assert_eq!(
        p.options[0],
        vec![TilePlacement::OnField(TilePlacementOnField { square_id: 0, x: 1, y: 1, rotation: 0 })]
    );
}

#[test]
fn try_place_is_idempotent() {
    let mut p = Packing::new(3, 2, vec![shape(&["##"])]);
    let s = SquareAllocation { id: 0, square_id: 0, rotation: 0 };
    assert!(p.try_place(0, 0, s));
    assert!(p.try_place(0, 0, s));
    assert_eq!(p.field[0], Some(vec![s]));
    assert_eq!(p.options[0].len(), 1);
}

#[test]
fn try_place_rejects_out_of_bounds() {
    let mut p = Packing::new(3, 2, vec![shape(&["##"])]);
    assert!(!p.try_place(2, 0, SquareAllocation { id: 0, square_id: 0, rotation: 0 }));
    assert!(!p.try_place(0, 0, SquareAllocation { id: 0, square_id: 1, rotation: 0 }));
    assert!(p.field.iter().all(|c| c == &Some(vec![])));
    assert!(p.options[0].is_empty());
}

#[test]
fn try_place_rejects_overlap() {
    let mut p = Packing::new(3, 1, vec![shape(&["#"]), shape(&["##"])]);
    let q = TilePlacementOnField { square_id: 0, x: 1, y: 0, rotation: 0 };
    assert!(p.commit_on_field(0, q).is_some());
    assert!(!p.try_place(0, 0, SquareAllocation { id: 1, square_id: 0, rotation: 0 }));
    assert!(!p.try_place(1, 0, SquareAllocation { id: 1, square_id: 0, rotation: 0 }));
    assert!(p.try_place(2, 0, SquareAllocation { id: 0, square_id: 0, rotation: 0 }));
}

#[test]
fn commit_then_undo_restores_state() {
    let mut p = Packing::new(3, 2, vec![shape(&["##"]), shape(&["#"])]);
    p.recompute();
    let field = p.field.clone();
    let occupancy = p.occupancy.clone();
    let q = TilePlacementOnField { square_id: 1, x: 0, y: 1, rotation: 1 };
    let log = p.commit_on_field(0, q).expect("fits");
    assert!(p.tiles[0].placed);
    assert_eq!(p.occupancy[4], Some(0));
    assert_eq!(p.occupancy[5], None);
    assert_eq!(p.occupancy[3], Some(0));
    assert_eq!(p.field[3], None);
    p.undo_on_field(0, q, log);
    assert_eq!(p.field, field);
    assert_eq!(p.occupancy, occupancy);
    assert!(!p.tiles[0].placed);
}

#[test]
fn commit_refuses_occupied_cells() {
    let mut p = Packing::new(2, 1, vec![shape(&["#"]), shape(&["##"])]);
    assert!(p.commit_on_field(0, TilePlacementOnField { square_id: 0, x: 0, y: 0, rotation: 0 }).is_some());
    assert!(p.commit_on_field(1, TilePlacementOnField { square_id: 0, x: 0, y: 0, rotation: 0 }).is_none());
    assert!(p.commit_on_field(0, TilePlacementOnField { square_id: 0, x: 1, y: 0, rotation: 0 }).is_none());
    assert!(!p.tiles[1].placed);
}

#[test]
fn off_field_commit_and_undo() {
    let mut p = Packing::new(2, 1, vec![shape(&["#"])]);
    p.commit_off_field(0);
    assert!(p.tiles[0].placed);
    assert_eq!(p.occupancy, vec![None, None]);
    p.undo_off_field(0);
    assert!(!p.tiles[0].placed);
}

#[test]
fn reset_options_offers_off_field_when_capacity_allows() {
    let mut p = Packing::new(2, 1, vec![shape(&["#"]), shape(&["###"])]);
    p.reset_options();
    assert_eq!(p.options[0], vec![TilePlacement::OffField]);
    assert!(p.options[1].is_empty());
    assert_eq!(p.open_count(), 2);
}

#[test]
fn best_square_prefers_first_of_fewest() {
    let mut p = Packing::new(2, 2, vec![shape(&["##"])]);
    p.recompute();
    // A cell rebuilt later in the scan loses what earlier cells registered
    // there, while an earlier cell keeps them and gains those registered
    // from later anchors.
    let counts: Vec<usize> = p.field.iter().map(|c| c.as_ref().unwrap().len()).collect();
    assert_eq!(counts, vec![4, 2, 4, 2]);
    let (c, k) = p.best_square().unwrap();
    assert_eq!(c, 1);
    assert_eq!(k, 2);
    for cell in &p.field {
        assert!(cell.as_ref().unwrap().len() >= k);
    }
}

#[test]
fn best_tile_skips_placed_tiles() {
    let mut p = Packing::new(2, 1, vec![shape(&["#"]), shape(&["#"])]);
    p.reset_options();
    p.recompute();
    assert_eq!(p.best_tile(), Some((0, 3)));
    p.commit_off_field(0);
    assert_eq!(p.best_tile(), Some((1, 3)));
    p.commit_off_field(1);
    assert_eq!(p.best_tile(), None);
}

#[test]
fn two_single_squares_fill_a_two_cell_row() {
    let grid = solve(2, 1, vec![shape(&["#"]), shape(&["#"])]).expect("solvable");
    assert_eq!(grid, vec![0, 1]);
    let rows = render(&grid, 2, 1);
    let text: Vec<String> = rows.iter().map(|r| r.iter().collect()).collect();
    assert_eq!(text, vec!["AB".to_string()]);
}

#[test]
fn domino_cannot_fit_single_cell() {
    assert_eq!(solve(1, 1, vec![shape(&["##"])]), None);
}

#[test]
fn solution_is_an_exact_cover() {
    let tiles = vec![shape(&["##", "# "]), shape(&["##", "# "])];
    let shapes: Vec<Vec<(i8, i8)>> = tiles.iter().map(|t| t.squares.clone()).collect();
    let (w, h) = (3usize, 2usize);
    let grid = solve(w, h, tiles.clone()).expect("solvable");
    assert_eq!(grid.len(), w * h);
    let mut counts = vec![0usize; shapes.len()];
    for &t in &grid {
        assert!(t < shapes.len());
        counts[t] += 1;
    }
    assert_eq!(counts, vec![3, 3]);
    for (t, squares) in shapes.iter().enumerate() {
        let mut cells: Vec<(i64, i64)> = (0..grid.len())
            .filter(|&c| grid[c] == t)
            .map(|c| ((c % w) as i64, (c / w) as i64))
            .collect();
        normalize(&mut cells);
        let turned = (0..4u8).any(|r| {
            let tile = Tile { squares: squares.clone(), rot_sym: RotSym::FullTurns, placed: false };
            let mut pts: Vec<(i64, i64)> = (0..squares.len())
                .map(|i| {
                    let p = tile.get_square_rotated(i, r);
                    (p.0 as i64, p.1 as i64)
                })
                .collect();
            normalize(&mut pts);
            pts == cells
        });
        assert!(turned, "tile {} does not match its shape", t);
    }
}

#[test]
fn leftover_tile_may_stay_off_field() {
    let grid = solve(2, 1, vec![shape(&["##"]), shape(&["#"])]).expect("solvable");
    assert_eq!(grid, vec![0, 0]);
}

#[test]
fn render_writes_letters() {
    let rows = render(&vec![0, 1, 25, 2, 2, 0], 3, 2);
    assert_eq!(rows, vec![vec!['A', 'B', 'Z'], vec!['C', 'C', 'A']]);
}

#[test]
fn empty_field_is_solved_at_once() {
    assert_eq!(solve(0, 0, vec![shape(&["#"])]), Some(vec![]));
}

#[test]
fn tile_that_neither_fits_nor_can_stay_off_blocks_the_search() {
    // The domino cannot be laid on one cell, and leaving it off would need
    // two open cells: no assignment uses every tile at most once.
    assert_eq!(solve(1, 1, vec![shape(&["#"]), shape(&["##"])]), None);
}

#[test]
fn cell_wins_ties_between_branches() {
    assert!(branch_on_cell(2, Some((0, 2))));
    assert!(branch_on_cell(1, Some((3, 2))));
    assert!(!branch_on_cell(3, Some((1, 2))));
    assert!(branch_on_cell(5, None));
}

#[test]
fn every_tile_cover_is_found() {
    // Two L-trominoes cover the 3 by 2 field only when one is turned a half
    // turn; the search must find it.
    let grid = solve(3, 2, vec![shape(&["##", "# "]), shape(&["##", "# "])]);
    assert!(grid.is_some());
}
