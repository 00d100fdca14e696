use tetris::changes::ChangeSet;
use tetris::color::Color;
use tetris::grid::{try_add, Grid, Input, Outcome, Piece, RETRY_CAP};

const TINT: Color = Color::Rgb { r: 1, g: 2, b: 3 };

fn empty_parts(lines: usize, width: usize) -> (Vec<Vec<bool>>, Vec<Vec<Color>>) {
    (vec![vec![false; width]; lines], vec![vec![Color::Black; width]; lines])
}

fn empty_with(lines: usize, width: usize, positions: [(usize, usize); 4]) -> Grid {
    let (filled, color) = empty_parts(lines, width);
    Grid::from_parts(filled, color, Piece { positions, color: TINT }).expect("the parts fit")
}

fn diff_entries(grid: &Grid) -> Vec<((usize, usize), Color)> {
    match grid.changes() {
        ChangeSet::Diff(map) => {
            let mut all: Vec<((usize, usize), Color)> =
                (0..map.len()).map(|i| map.entry(i)).collect();
            all.sort_by_key(|e| e.0);
            all
        }
        ChangeSet::FullRedraw => panic!("a full redraw where a record was expected"),
    }
}

fn is_full_redraw(grid: &Grid) -> bool {
    matches!(grid.changes(), ChangeSet::FullRedraw)
}

#[test]
fn try_add_gives_the_sum_or_nothing() {
    assert_eq!(try_add(3, 2), Some(5));
    assert_eq!(try_add(5, 0), Some(5));
    assert_eq!(try_add(3, -3), Some(0));
    assert_eq!(try_add(3, -4), None);
    assert_eq!(try_add(0, -1), None);
    assert_eq!(try_add(usize::MAX, 1), None);
    assert_eq!(try_add(usize::MAX - 1, 1), Some(usize::MAX));
    assert_eq!(try_add(0, i32::MIN), None);
}

#[test]
fn default_piece_is_black_at_the_origin() {
    let piece = Piece::default();
    assert_eq!(piece.positions, [(0, 0); 4]);
    assert_eq!(piece.color, Color::Black);
}

#[test]
fn a_cell_is_valid_iff_on_the_field_and_not_settled() {
    let (mut filled, color) = empty_parts(3, 4);
    filled[2][1] = true;
    let piece = Piece { positions: [(0, 0), (1, 0), (0, 1), (1, 1)], color: TINT };
    let grid = Grid::from_parts(filled, color, piece).unwrap();
    for x in 0..5usize {
        for y in 0..6usize {
            let expected = x < 3 && y < 4 && !(x == 2 && y == 1);
            assert_eq!(grid.is_valid((x, y)), expected, "cell ({x}, {y})");
        }
    }
    assert!(!grid.is_valid((usize::MAX, 0)));
    assert!(!grid.is_valid((0, usize::MAX)));
}

#[test]
fn validate_asks_all_four_cells() {
    let (mut filled, color) = empty_parts(3, 4);
    filled[2][3] = true;
    let piece = Piece { positions: [(0, 0), (1, 0), (0, 1), (1, 1)], color: TINT };
    let grid = Grid::from_parts(filled, color, piece).unwrap();
    assert!(grid.validate(&[(0, 0), (0, 1), (0, 2), (0, 3)]));
    assert!(!grid.validate(&[(2, 0), (2, 1), (2, 2), (2, 3)]));
    assert!(!grid.validate(&[(0, 1), (0, 2), (0, 3), (0, 4)]));
    assert!(!grid.validate(&[(3, 0), (0, 0), (0, 1), (0, 2)]));
}

#[test]
fn a_refused_move_changes_nothing() {
    let mut grid = empty_with(5, 4, [(0, 0), (1, 0), (0, 1), (1, 1)]);
    grid.advance(Input::Idle);
    let piece = grid.piece();
    let color = grid.color().clone();
    let filled = grid.filled().clone();
    let changes = diff_entries(&grid);
    assert!(!grid.can_move((0, -1)));
    assert!(!grid.move_left());
    assert!(!grid.do_move((-2, 0)));
    assert!(!grid.do_move((10, 0)));
    assert!(!grid.do_move((0, i32::MAX)));
    assert!(!grid.do_move((i32::MIN, i32::MIN)));
    assert_eq!(grid.piece(), piece);
    assert_eq!(grid.color(), &color);
    assert_eq!(grid.filled(), &filled);
    assert_eq!(diff_entries(&grid), changes);
}

#[test]
fn a_move_into_a_settled_cell_is_refused() {
    let (mut filled, color) = empty_parts(5, 4);
    filled[1][2] = true;
    let piece = Piece { positions: [(0, 0), (1, 0), (0, 1), (1, 1)], color: TINT };
    let mut grid = Grid::from_parts(filled.clone(), color.clone(), piece).unwrap();
    assert!(!grid.can_move((0, 1)));
    assert!(!grid.move_right());
    assert_eq!(grid.piece(), piece);
    assert_eq!(grid.color(), &color);
    assert_eq!(grid.filled(), &filled);
    assert!(grid.can_move((1, 0)));
}

#[test]
fn a_move_blanks_the_old_cells_and_shows_the_new() {
    let mut grid = empty_with(5, 4, [(0, 0), (1, 0), (0, 1), (1, 1)]);
    assert!(grid.can_move((0, 1)));
    assert!(grid.move_right());
    assert_eq!(grid.piece().positions, [(0, 1), (1, 1), (0, 2), (1, 2)]);
    assert_eq!(grid.piece().color, TINT);
    let b = Color::Black;
    let expected = vec![
        vec![b, TINT, TINT, b],
        vec![b, TINT, TINT, b],
        vec![b, b, b, b],
        vec![b, b, b, b],
        vec![b, b, b, b],
    ];
    assert_eq!(grid.color(), &expected);
    assert_eq!(grid.filled(), &vec![vec![false; 4]; 5]);
    assert!(is_full_redraw(&grid));
    assert!(grid.move_down());
    assert_eq!(grid.piece().positions, [(1, 1), (2, 1), (1, 2), (2, 2)]);
    assert!(grid.move_left());
    assert_eq!(grid.piece().positions, [(1, 0), (2, 0), (1, 1), (2, 1)]);
    assert!(grid.do_move((2, 2)));
    assert_eq!(grid.piece().positions, [(3, 2), (4, 2), (3, 3), (4, 3)]);
    assert!(grid.do_move((-3, -2)));
    assert_eq!(grid.piece().positions, [(0, 0), (1, 0), (0, 1), (1, 1)]);
}

#[test]
fn a_step_records_each_changed_cell_once() {
    let mut grid = empty_with(5, 4, [(0, 0), (1, 0), (0, 1), (1, 1)]);
    let landed = grid.advance(Input::Right);
    assert!(!landed);
    assert_eq!(grid.piece().positions, [(1, 1), (2, 1), (1, 2), (2, 2)]);
    let b = Color::Black;
    let expected = vec![
        ((0, 0), b),
        ((0, 1), b),
        ((0, 2), b),
        ((1, 0), b),
        ((1, 1), TINT),
        ((1, 2), TINT),
        ((2, 1), TINT),
        ((2, 2), TINT),
    ];
    assert_eq!(diff_entries(&grid), expected);
    match grid.changes() {
        ChangeSet::Diff(map) => {
            assert_eq!(map.get((1, 1)), Some(TINT));
            assert_eq!(map.get((0, 1)), Some(b));
            assert_eq!(map.get((3, 3)), None);
        }
        ChangeSet::FullRedraw => panic!("a full redraw where a record was expected"),
    }
}

#[test]
fn each_step_begins_a_new_record() {
    let mut grid = empty_with(6, 4, [(0, 0), (1, 0), (0, 1), (1, 1)]);
    grid.advance(Input::Right);
    grid.advance(Input::Idle);
    let b = Color::Black;
    let expected = vec![
        ((1, 1), b),
        ((1, 2), b),
        ((2, 1), TINT),
        ((2, 2), TINT),
        ((3, 1), TINT),
        ((3, 2), TINT),
    ];
    assert_eq!(diff_entries(&grid), expected);
}

#[test]
fn down_moves_the_piece_a_line_further() {
    let mut grid = empty_with(6, 4, [(0, 0), (1, 0), (0, 1), (1, 1)]);
    assert_eq!(grid.tick(Input::Down), Outcome::Falling);
    assert_eq!(grid.piece().positions, [(2, 0), (3, 0), (2, 1), (3, 1)]);
    let mut grid = empty_with(6, 4, [(0, 1), (1, 1), (0, 2), (1, 2)]);
    assert_eq!(grid.tick(Input::Left), Outcome::Falling);
    assert_eq!(grid.piece().positions, [(1, 0), (2, 0), (1, 1), (2, 1)]);
    let mut grid = empty_with(6, 4, [(0, 1), (1, 1), (0, 2), (1, 2)]);
    assert_eq!(grid.tick(Input::Idle), Outcome::Falling);
    assert_eq!(grid.piece().positions, [(1, 1), (2, 1), (1, 2), (2, 2)]);
}

#[test]
fn a_turn_goes_about_the_first_cell() {
    let start = Grid::generate_l((1, 1));
    assert_eq!(start, [(2, 1), (2, 2), (2, 3), (1, 1)]);
    let mut grid = empty_with(6, 5, start);
    assert!(grid.rotate());
    let turned = grid.piece().positions;
    assert_eq!(turned, [(2, 1), (3, 1), (4, 1), (2, 0)]);
    let (x0, y0) = (start[0].0 as i64, start[0].1 as i64);
    for k in 0..4 {
        let (x, y) = (start[k].0 as i64, start[k].1 as i64);
        assert_eq!((turned[k].0 as i64, turned[k].1 as i64), (y + x0 - y0, x + y0 - x0));
    }
    let b = Color::Black;
    let expected = vec![
        vec![b, b, b, b, b],
        vec![b, b, b, b, b],
        vec![TINT, TINT, b, b, b],
        vec![b, TINT, b, b, b],
        vec![b, TINT, b, b, b],
        vec![b, b, b, b, b],
    ];
    assert_eq!(grid.color(), &expected);
    assert_eq!(grid.piece().color, TINT);
}

#[test]
fn four_turns_bring_the_piece_back() {
    let start = Grid::generate_l((1, 1));
    let mut grid = empty_with(6, 5, start);
    assert!(grid.rotate());
    assert!(grid.rotate());
    assert_eq!(grid.piece().positions, start);
    assert!(grid.rotate());
    assert!(grid.rotate());
    assert_eq!(grid.piece().positions, start);
    let start = Grid::generate_t((1, 2));
    let mut grid = empty_with(8, 8, start);
    for _ in 0..4 {
        assert!(grid.rotate());
    }
    assert_eq!(grid.piece().positions, start);
}

#[test]
fn a_turn_to_a_negative_coordinate_changes_nothing() {
    let start = Grid::generate_l((0, 0));
    assert_eq!(start, [(1, 0), (1, 1), (1, 2), (0, 0)]);
    let mut grid = empty_with(6, 5, start);
    grid.advance(Input::Idle);
    let piece = grid.piece();
    assert_eq!(piece.positions, [(2, 0), (2, 1), (2, 2), (1, 0)]);
    let color = grid.color().clone();
    let changes = diff_entries(&grid);
    assert!(!grid.rotate());
    assert_eq!(grid.piece(), piece);
    assert_eq!(grid.color(), &color);
    assert_eq!(diff_entries(&grid), changes);
}

#[test]
fn a_turn_into_a_settled_cell_shows_the_piece_where_it_is() {
    let (mut filled, color) = empty_parts(6, 5);
    filled[4][1] = true;
    let start = [(2, 1), (2, 2), (2, 3), (1, 1)];
    let mut grid =
        Grid::from_parts(filled.clone(), color, Piece { positions: start, color: TINT }).unwrap();
    assert!(!grid.rotate());
    assert_eq!(grid.piece().positions, start);
    let b = Color::Black;
    let expected = vec![
        vec![b, b, b, b, b],
        vec![b, TINT, b, b, b],
        vec![b, TINT, TINT, TINT, b],
        vec![b, b, b, b, b],
        vec![b, b, b, b, b],
        vec![b, b, b, b, b],
    ];
    assert_eq!(grid.color(), &expected);
    assert_eq!(grid.filled(), &filled);
}

#[test]
fn a_turn_off_the_field_is_refused() {
    let start = Grid::generate_line_v((1, 0));
    assert_eq!(start, [(1, 0), (1, 1), (1, 2), (1, 3)]);
    let mut grid = empty_with(3, 5, start);
    assert!(!grid.rotate());
    assert_eq!(grid.piece().positions, start);
    let mut grid = empty_with(5, 5, start);
    assert!(grid.rotate());
    assert_eq!(grid.piece().positions, [(1, 0), (2, 0), (3, 0), (4, 0)]);
}

#[test]
fn clearing_without_a_full_line_changes_nothing() {
    let (mut filled, mut color) = empty_parts(5, 4);
    filled[4] = vec![true, true, false, true];
    color[4] = vec![Color::Red, Color::Red, Color::Black, Color::Blue];
    filled[3][0] = true;
    color[3][0] = Color::Green;
    let piece = Piece { positions: [(0, 0), (1, 0), (0, 1), (1, 1)], color: TINT };
    let mut grid = Grid::from_parts(filled, color, piece).unwrap();
    grid.advance(Input::Idle);
    let filled = grid.filled().clone();
    let color = grid.color().clone();
    let changes = diff_entries(&grid);
    assert!(!changes.is_empty());
    grid.check_for_lines();
    assert_eq!(grid.filled(), &filled);
    assert_eq!(grid.color(), &color);
    assert_eq!(grid.piece().positions, [(1, 0), (2, 0), (1, 1), (2, 1)]);
    assert_eq!(diff_entries(&grid), changes);
}

#[test]
fn a_full_last_line_leaves_and_the_rest_comes_down() {
    let (mut filled, mut color) = empty_parts(6, 4);
    filled[5] = vec![true; 4];
    color[5] = vec![Color::Red; 4];
    filled[4][0] = true;
    color[4][0] = Color::Blue;
    let piece = Piece { positions: [(0, 1), (1, 1), (0, 2), (1, 2)], color: TINT };
    let mut grid = Grid::from_parts(filled, color, piece).unwrap();
    assert_eq!(grid.tick(Input::Idle), Outcome::Falling);
    assert_eq!(grid.filled().len(), 6);
    assert_eq!(grid.color().len(), 6);
    assert_eq!(grid.filled()[0], vec![false; 4]);
    for line in 0..5 {
        assert_eq!(grid.filled()[line], vec![false; 4]);
    }
    assert_eq!(grid.filled()[5], vec![true, false, false, false]);
    assert_eq!(grid.color()[5], vec![Color::Blue, Color::Black, Color::Black, Color::Black]);
    assert_eq!(grid.color()[0], vec![Color::Black; 4]);
    assert_eq!(grid.color()[1], vec![Color::Black, TINT, TINT, Color::Black]);
    assert_eq!(grid.color()[2], vec![Color::Black, TINT, TINT, Color::Black]);
    assert!(is_full_redraw(&grid));
    assert_eq!(grid.piece().positions, [(1, 1), (2, 1), (1, 2), (2, 2)]);
}

#[test]
fn a_full_last_line_on_an_empty_field_leaves_an_empty_field() {
    let (mut filled, mut color) = empty_parts(4, 3);
    filled[3] = vec![true; 3];
    color[3] = vec![Color::Red; 3];
    let piece = Piece { positions: [(0, 0), (0, 1), (0, 2), (0, 0)], color: TINT };
    let mut grid = Grid::from_parts(filled, color, piece).unwrap();
    grid.check_for_lines();
    assert_eq!(grid.filled(), &vec![vec![false; 3]; 4]);
    assert_eq!(grid.color(), &vec![vec![Color::Black; 3]; 4]);
    assert!(is_full_redraw(&grid));
}

#[test]
fn full_lines_leave_wherever_they_are() {
    let (mut filled, mut color) = empty_parts(6, 2);
    filled[1] = vec![true, false];
    color[1] = vec![Color::Green, Color::Black];
    filled[2] = vec![true, true];
    color[2] = vec![Color::Red, Color::Red];
    filled[3] = vec![false, true];
    color[3] = vec![Color::Black, Color::Blue];
    filled[4] = vec![true, true];
    color[4] = vec![Color::Cyan, Color::Cyan];
    filled[5] = vec![true, true];
    color[5] = vec![Color::White, Color::White];
    let piece = Piece { positions: [(0, 0), (0, 1), (0, 0), (0, 1)], color: TINT };
    let mut grid = Grid::from_parts(filled, color, piece).unwrap();
    grid.advance(Input::Idle);
    let b = Color::Black;
    assert_eq!(
        grid.filled(),
        &vec![
            vec![false, false],
            vec![false, false],
            vec![false, false],
            vec![false, false],
            vec![true, false],
            vec![false, true],
        ]
    );
    assert_eq!(grid.color()[4], vec![Color::Green, b]);
    assert_eq!(grid.color()[5], vec![b, Color::Blue]);
    assert_eq!(grid.color()[3], vec![b, b]);
    assert!(is_full_redraw(&grid));
    assert_eq!(grid.piece().positions, [(1, 0), (1, 1), (1, 0), (1, 1)]);
}

#[test]
fn a_step_after_a_clear_keeps_no_record() {
    let (mut filled, color) = empty_parts(6, 4);
    filled[5] = vec![true; 4];
    let piece = Piece { positions: [(0, 1), (1, 1), (0, 2), (1, 2)], color: TINT };
    let mut grid = Grid::from_parts(filled, color, piece).unwrap();
    assert_eq!(grid.tick(Input::Right), Outcome::Falling);
    assert!(is_full_redraw(&grid));
    assert_eq!(grid.piece().positions, [(1, 2), (2, 2), (1, 3), (2, 3)]);
    assert_eq!(grid.tick(Input::Idle), Outcome::Falling);
    assert!(!is_full_redraw(&grid));
    assert_eq!(diff_entries(&grid).len(), 6);
}

#[test]
fn settling_fills_the_cells_of_the_piece() {
    let mut grid = empty_with(4, 4, [(2, 1), (3, 1), (2, 2), (3, 2)]);
    grid.settle();
    let mut filled = vec![vec![false; 4]; 4];
    let mut color = vec![vec![Color::Black; 4]; 4];
    for (x, y) in [(2, 1), (3, 1), (2, 2), (3, 2)] {
        filled[x][y] = true;
        color[x][y] = TINT;
    }
    assert_eq!(grid.filled(), &filled);
    assert_eq!(grid.color(), &color);
    assert_eq!(grid.piece().positions, [(2, 1), (3, 1), (2, 2), (3, 2)]);
    assert!(is_full_redraw(&grid));
}

#[test]
fn a_piece_that_cannot_fall_settles() {
    let mut grid = empty_with(3, 4, [(1, 0), (2, 0), (1, 1), (2, 1)]);
    assert!(grid.advance(Input::Right));
    let mut filled = vec![vec![false; 4]; 3];
    for (x, y) in [(1, 1), (2, 1), (1, 2), (2, 2)] {
        filled[x][y] = true;
    }
    assert_eq!(grid.filled(), &filled);
    assert_eq!(grid.color()[2], vec![Color::Black, TINT, TINT, Color::Black]);
    assert_eq!(grid.piece().positions, [(1, 1), (2, 1), (1, 2), (2, 2)]);
    let b = Color::Black;
    let expected = vec![
        ((1, 0), b),
        ((1, 1), TINT),
        ((1, 2), TINT),
        ((2, 0), b),
        ((2, 1), TINT),
        ((2, 2), TINT),
    ];
    assert_eq!(diff_entries(&grid), expected);
}

#[test]
fn a_piece_that_lands_where_it_appeared_is_recorded() {
    let mut grid = empty_with(6, 4, [(5, 0), (4, 0), (5, 1), (4, 1)]);
    assert_eq!(grid.color(), &vec![vec![Color::Black; 4]; 6]);
    assert!(grid.advance(Input::Idle));
    assert_eq!(grid.color()[5], vec![TINT, TINT, Color::Black, Color::Black]);
    assert_eq!(grid.color()[4], vec![TINT, TINT, Color::Black, Color::Black]);
    assert!(grid.filled()[5][0] && grid.filled()[4][1]);
    let expected = vec![((4, 0), TINT), ((4, 1), TINT), ((5, 0), TINT), ((5, 1), TINT)];
    assert_eq!(diff_entries(&grid), expected);
}

#[test]
fn settling_records_the_cells_where_changes_are_recorded() {
    let mut grid = empty_with(6, 4, [(0, 0), (1, 0), (0, 1), (1, 1)]);
    assert!(!grid.advance(Input::Idle));
    grid.settle();
    let b = Color::Black;
    let expected = vec![
        ((0, 0), b),
        ((0, 1), b),
        ((1, 0), TINT),
        ((1, 1), TINT),
        ((2, 0), TINT),
        ((2, 1), TINT),
    ];
    assert_eq!(diff_entries(&grid), expected);
    assert!(grid.filled()[1][0] && grid.filled()[2][1] && !grid.filled()[0][0]);
}

#[test]
fn lock_in_keeps_cells_filled_and_coloured() {
    let mut grid = Grid::new(10, 4).expect("an empty field has room for a piece");
    let mut landed = false;
    for _ in 0..20 {
        let before = grid.piece();
        let could_fall = grid.can_move((1, 0));
        let outcome = grid.tick(Input::Down);
        if outcome != Outcome::Falling {
            let shift = if could_fall { 1 } else { 0 };
            for (x, y) in before.positions {
                assert!(grid.filled()[x + shift][y]);
                assert_eq!(grid.color()[x + shift][y], before.color);
            }
            let settled: usize = grid.filled().iter().flatten().filter(|f| **f).count();
            assert_eq!(settled, 4);
            assert_eq!(outcome, Outcome::Landed);
            landed = true;
            break;
        }
    }
    assert!(landed);
}

#[test]
fn no_piece_enters_a_field_without_a_free_cell() {
    let filled = vec![vec![true; 4]; 5];
    let color = vec![vec![Color::Red; 4]; 5];
    let piece = Piece { positions: [(0, 0), (1, 0), (0, 1), (1, 1)], color: TINT };
    let grid = Grid::from_parts(filled, color, piece).unwrap();
    assert_eq!(grid.generate_piece(), None);
    for draw in 0..8usize {
        for kind in 0..=255u8 {
            assert_eq!(grid.try_place(draw, kind), None);
        }
    }
}

#[test]
fn the_game_ends_when_the_last_piece_fills_the_field() {
    let mut grid = empty_with(2, 2, [(0, 0), (1, 0), (0, 1), (1, 1)]);
    assert_eq!(grid.tick(Input::Idle), Outcome::BoardFull);
    assert_eq!(grid.filled(), &vec![vec![true; 2]; 2]);
    assert_eq!(grid.color(), &vec![vec![TINT; 2]; 2]);
    assert_eq!(grid.piece().positions, [(0, 0), (1, 0), (0, 1), (1, 1)]);
}

#[test]
fn a_new_piece_follows_a_landing() {
    let mut grid = empty_with(2, 4, [(0, 0), (1, 0), (0, 1), (1, 1)]);
    assert_eq!(grid.tick(Input::Idle), Outcome::Landed);
    assert_eq!(grid.filled(), &vec![vec![true, true, false, false]; 2]);
    let piece = grid.piece();
    assert_eq!(piece.positions, [(0, 2), (1, 2), (0, 3), (1, 3)]);
    assert!(matches!(piece.color, Color::Rgb { .. }));
    assert!(grid.validate(&piece.positions));
}

#[test]
fn a_generated_piece_is_a_shape_at_the_top_with_room() {
    let grid = empty_with(6, 5, [(0, 0), (1, 0), (0, 1), (1, 1)]);
    for _ in 0..50 {
        let piece = grid.generate_piece().expect("an empty field has room for a piece");
        assert!(grid.validate(&piece.positions));
        assert!(matches!(piece.color, Color::Rgb { .. }));
        let place = piece.positions.iter().map(|p| p.1).min().unwrap();
        let matches_some = (0..10u8).any(|kind| Grid::shape(kind, (0, place)) == piece.positions);
        assert!(matches_some);
    }
}

#[test]
fn a_try_takes_the_shape_and_the_place_from_the_draws() {
    let grid = empty_with(6, 5, [(0, 0), (1, 0), (0, 1), (1, 1)]);
    assert_eq!(grid.try_place(7, 4), Some([(0, 2), (1, 2), (2, 2), (3, 2)]));
    assert_eq!(grid.try_place(7, 5), None);
    assert_eq!(grid.try_place(6, 5), Some([(0, 1), (0, 2), (0, 3), (0, 4)]));
    assert_eq!(grid.try_place(0, 0), Some([(0, 0), (1, 0), (0, 1), (1, 1)]));
    assert_eq!(grid.try_place(5, 1), Some([(0, 0), (1, 0), (0, 1), (1, 1)]));
    assert_eq!(grid.try_place(4, 1), None);
    assert_eq!(grid.try_place(13, 255), None);
    assert_eq!(grid.try_place(10, 255), Some([(0, 0), (0, 1), (0, 2), (0, 3)]));
    assert_eq!(grid.try_place(usize::MAX, 0), grid.try_place(usize::MAX % 5, 0));
    let narrow = empty_with(1, 4, [(0, 0), (0, 1), (0, 2), (0, 3)]);
    for kind in 0..10u8 {
        let expected = if kind == 5 { Some([(0, 0), (0, 1), (0, 2), (0, 3)]) } else { None };
        assert_eq!(narrow.try_place(0, kind), expected);
    }
}

#[test]
fn the_catalogue_has_ten_entries() {
    let o = (0, 0);
    assert_eq!(Grid::shape(0, o), Grid::generate_square(o));
    assert_eq!(Grid::shape(1, o), Grid::generate_square(o));
    assert_eq!(Grid::shape(2, o), Grid::generate_l(o));
    assert_eq!(Grid::shape(3, o), Grid::generate_l_v(o));
    assert_eq!(Grid::shape(4, o), Grid::generate_line(o));
    assert_eq!(Grid::shape(5, o), Grid::generate_line_v(o));
    assert_eq!(Grid::shape(6, o), Grid::generate_t(o));
    assert_eq!(Grid::shape(7, o), Grid::generate_t_v(o));
    assert_eq!(Grid::shape(8, o), Grid::generate_s(o));
    assert_eq!(Grid::shape(9, o), Grid::generate_s_v(o));
    for kind in 10..=255u8 {
        assert_eq!(Grid::shape(kind, (3, 4)), Grid::shape(kind % 10, (3, 4)));
    }
}

#[test]
fn each_shape_has_its_cells() {
    let o = (2, 5);
    assert_eq!(Grid::generate_line(o), [(2, 5), (3, 5), (4, 5), (5, 5)]);
    assert_eq!(Grid::generate_line_v(o), [(2, 5), (2, 6), (2, 7), (2, 8)]);
    assert_eq!(Grid::generate_l(o), [(3, 5), (3, 6), (3, 7), (2, 5)]);
    assert_eq!(Grid::generate_l_v(o), [(2, 5), (2, 6), (2, 7), (3, 5)]);
    assert_eq!(Grid::generate_t(o), [(2, 5), (3, 5), (4, 5), (3, 6)]);
    assert_eq!(Grid::generate_t_v(o), [(2, 5), (2, 6), (2, 7), (3, 6)]);
    assert_eq!(Grid::generate_s(o), [(2, 5), (2, 6), (3, 6), (3, 7)]);
    assert_eq!(Grid::generate_s_v(o), [(2, 5), (3, 5), (3, 6), (4, 6)]);
    assert_eq!(Grid::generate_square(o), [(2, 5), (3, 5), (2, 6), (3, 6)]);
}

#[test]
fn a_new_field_is_empty_and_has_a_piece() {
    let grid = Grid::new(10, 4).expect("an empty field has room for a piece");
    assert_eq!(grid.filled(), &vec![vec![false; 4]; 10]);
    assert_eq!(grid.color(), &vec![vec![Color::Black; 4]; 10]);
    assert!(is_full_redraw(&grid));
    let piece = grid.piece();
    assert!(grid.validate(&piece.positions));
    assert!(matches!(piece.color, Color::Rgb { .. }));
    assert!(piece.positions.iter().any(|p| p.0 == 0));
    let wide = Grid::new(40, 10).expect("an empty field has room for a piece");
    assert_eq!(wide.filled().len(), 40);
    assert_eq!(wide.filled()[39].len(), 10);
}

#[test]
fn a_field_too_small_for_any_shape_has_no_first_piece() {
    assert!(Grid::new(1, 1).is_none());
    assert!(Grid::new(1, 3).is_none());
    assert!(Grid::new(3, 1).is_none());
    assert!(RETRY_CAP >= 1000);
}

#[test]
fn parts_that_do_not_fit_make_no_field() {
    let piece = Piece { positions: [(0, 0), (1, 0), (0, 1), (1, 1)], color: TINT };
    let (filled, color) = empty_parts(3, 3);
    assert!(Grid::from_parts(filled.clone(), color.clone(), piece).is_some());
    assert!(Grid::from_parts(Vec::new(), Vec::new(), piece).is_none());
    assert!(Grid::from_parts(vec![Vec::new(); 3], vec![Vec::new(); 3], piece).is_none());
    let (_, short) = empty_parts(2, 3);
    assert!(Grid::from_parts(filled.clone(), short, piece).is_none());
    let mut ragged = filled.clone();
    ragged[2].push(false);
    assert!(Grid::from_parts(ragged, color.clone(), piece).is_none());
    let mut ragged = color.clone();
    ragged[1].pop();
    assert!(Grid::from_parts(filled.clone(), ragged, piece).is_none());
    let off = Piece { positions: [(0, 0), (1, 0), (0, 1), (3, 1)], color: TINT };
    assert!(Grid::from_parts(filled.clone(), color.clone(), off).is_none());
    let off = Piece { positions: [(0, 3), (1, 0), (0, 1), (1, 1)], color: TINT };
    assert!(Grid::from_parts(filled, color, off).is_none());
}

#[test]
fn parts_are_held_as_given() {
    let (mut filled, mut color) = empty_parts(3, 3);
    filled[2][1] = true;
    color[2][1] = Color::Magenta;
    let piece = Piece { positions: [(0, 0), (1, 0), (0, 1), (1, 1)], color: TINT };
    let grid = Grid::from_parts(filled.clone(), color.clone(), piece).unwrap();
    assert_eq!(grid.filled(), &filled);
    assert_eq!(grid.color(), &color);
    assert_eq!(grid.piece(), piece);
    assert!(is_full_redraw(&grid));
}
