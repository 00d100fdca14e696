use tetris::chance::{Chance, Script, ThreadChance};
use tetris::changes::ChangeSet;
use tetris::color::Color;
use tetris::grid::{Grid, Input, Outcome, Piece, RETRY_CAP};

#[test]
fn the_first_try_with_room_gives_the_piece() {
    let mut script = Script::of(vec![2], vec![4, 10, 20, 30]);
    let grid = Grid::new_with(10, 4, &mut script).unwrap();
    let piece = grid.piece();
    assert_eq!(piece.positions, [(0, 2), (1, 2), (2, 2), (3, 2)]);
    assert_eq!(piece.color, Color::Rgb { r: 10, g: 20, b: 30 });
    assert_eq!(script.places_drawn(), 1);
    assert_eq!(script.bytes_drawn(), 4);
    assert_eq!(grid.filled(), &vec![vec![false; 4]; 10]);
    assert_eq!(grid.color(), &vec![vec![Color::Black; 4]; 10]);
}

#[test]
fn a_try_without_room_is_followed_by_another() {
    let mut script = Script::of(vec![3, 7, 5], vec![5, 15, 20, 1, 2, 3]);
    let grid = Grid::new_with(10, 4, &mut script).unwrap();
    let piece = grid.piece();
    assert_eq!(piece.positions, [(0, 1), (1, 1), (0, 2), (1, 2)]);
    assert_eq!(piece.color, Color::Rgb { r: 1, g: 2, b: 3 });
    assert_eq!(script.places_drawn(), 3);
    assert_eq!(script.bytes_drawn(), 6);
}

#[test]
fn the_search_ends_when_the_tries_are_used_up() {
    let mut script = Script::of(vec![3], vec![5]);
    assert!(Grid::new_with(10, 4, &mut script).is_none());
    assert_eq!(script.places_drawn(), RETRY_CAP as usize + 1);
    assert_eq!(script.bytes_drawn(), RETRY_CAP as usize + 1);
    let grid = Grid::new_with(10, 4, &mut Script::of(vec![0], vec![0])).unwrap();
    let mut script = Script::of(vec![1], vec![15]);
    assert_eq!(grid.generate_piece_with(&mut script), None);
    assert_eq!(script.places_drawn(), 1002);
}

#[test]
fn the_piece_after_a_landing_comes_from_the_draws() {
    let filled = vec![vec![false; 4]; 2];
    let color = vec![vec![Color::Black; 4]; 2];
    let tint = Color::Rgb { r: 1, g: 2, b: 3 };
    let piece = Piece { positions: [(0, 0), (1, 0), (0, 1), (1, 1)], color: tint };
    let mut grid = Grid::from_parts(filled, color, piece).unwrap();
    let mut script = Script::of(vec![0, 1, 2], vec![1, 0, 21, 7, 8, 9]);
    assert_eq!(grid.tick_with(Input::Idle, &mut script), Outcome::Landed);
    assert_eq!(grid.filled(), &vec![vec![true, true, false, false]; 2]);
    assert_eq!(grid.color(), &vec![vec![tint, tint, Color::Black, Color::Black]; 2]);
    let next = grid.piece();
    assert_eq!(next.positions, [(0, 2), (1, 2), (0, 3), (1, 3)]);
    assert_eq!(next.color, Color::Rgb { r: 7, g: 8, b: 9 });
    assert_eq!(script.places_drawn(), 3);
}

#[test]
fn no_draws_are_made_while_the_piece_falls() {
    let mut script = Script::of(vec![0], vec![0, 1, 2, 3]);
    let mut grid = Grid::new_with(10, 4, &mut script).unwrap();
    assert_eq!((script.places_drawn(), script.bytes_drawn()), (1, 4));
    assert_eq!(grid.tick_with(Input::Idle, &mut script), Outcome::Falling);
    assert_eq!(grid.tick_with(Input::Down, &mut script), Outcome::Falling);
    assert_eq!((script.places_drawn(), script.bytes_drawn()), (1, 4));
    assert_eq!(grid.piece().positions, [(3, 0), (4, 0), (3, 1), (4, 1)]);
}

#[test]
fn a_game_played_from_a_script_clears_its_lines() {
    let mut script = Script::of(vec![0], vec![0, 50, 60, 70]);
    let mut grid = Grid::new_with(4, 2, &mut script).unwrap();
    assert_eq!(grid.piece().positions, [(0, 0), (1, 0), (0, 1), (1, 1)]);
    assert_eq!(grid.tick_with(Input::Idle, &mut script), Outcome::Falling);
    assert_eq!(grid.tick_with(Input::Idle, &mut script), Outcome::Falling);
    assert_eq!(grid.piece().positions, [(2, 0), (3, 0), (2, 1), (3, 1)]);
    assert_eq!(grid.tick_with(Input::Idle, &mut script), Outcome::Landed);
    assert_eq!(
        grid.filled(),
        &vec![vec![false, false], vec![false, false], vec![true, true], vec![true, true]]
    );
    assert_eq!(grid.piece().positions, [(0, 0), (1, 0), (0, 1), (1, 1)]);
    assert_eq!(grid.piece().color, Color::Rgb { r: 50, g: 60, b: 70 });
    assert_eq!(grid.tick_with(Input::Idle, &mut script), Outcome::Falling);
    assert_eq!(grid.filled(), &vec![vec![false, false]; 4]);
    assert!(matches!(grid.changes(), ChangeSet::FullRedraw));
    assert_eq!(grid.piece().positions, [(1, 0), (2, 0), (1, 1), (2, 1)]);
}

#[test]
fn the_thread_source_spreads_its_draws() {
    let mut chance = ThreadChance::new();
    let places: Vec<usize> = (0..64).map(|_| chance.draw_usize()).collect();
    assert!(places.iter().any(|p| *p != places[0]));
    let bytes: Vec<u8> = (0..64).map(|_| chance.draw_u8()).collect();
    assert!(bytes.iter().any(|b| *b != bytes[0]));
}

#[test]
fn a_script_goes_through_its_lists_over_and_over() {
    let mut script = Script::of(vec![7, 9], vec![3, 4, 5]);
    assert_eq!((script.places_drawn(), script.bytes_drawn()), (0, 0));
    let places: Vec<usize> = (0..5).map(|_| script.draw_usize()).collect();
    assert_eq!(places, vec![7, 9, 7, 9, 7]);
    let bytes: Vec<u8> = (0..7).map(|_| script.draw_u8()).collect();
    assert_eq!(bytes, vec![3, 4, 5, 3, 4, 5, 3]);
    assert_eq!((script.places_drawn(), script.bytes_drawn()), (5, 7));
}

#[test]
fn a_script_without_values_hands_out_zero() {
    let mut script = Script::of(Vec::new(), Vec::new());
    assert_eq!(script.draw_usize(), 0);
    assert_eq!(script.draw_u8(), 0);
    assert_eq!(script.draw_usize(), 0);
    assert_eq!((script.places_drawn(), script.bytes_drawn()), (2, 1));
}

#[test]
fn the_record_names_every_cell_that_changed() {
    let mut script = Script::of(vec![0, 3, 1, 2, 5], vec![0, 4, 9, 2, 7, 5, 1, 8, 3, 6, 200]);
    let mut grid = Grid::new_with(8, 5, &mut script).unwrap();
    let inputs = [Input::Idle, Input::Left, Input::Up, Input::Right, Input::Down, Input::Up];
    let mut records = 0;
    let mut landings = 0;
    for step in 0..200 {
        let before = grid.color().clone();
        let outcome = grid.tick_with(inputs[step % inputs.len()], &mut script);
        if outcome == Outcome::BoardFull {
            break;
        }
        if outcome == Outcome::Landed {
            landings += 1;
        }
        if let ChangeSet::Diff(map) = grid.changes() {
            records += 1;
            for i in 0..map.len() {
                let ((x, y), shown) = map.entry(i);
                assert_eq!(grid.color()[x][y], shown);
            }
            for x in 0..8 {
                for y in 0..5 {
                    if grid.color()[x][y] != before[x][y] {
                        assert_eq!(map.get((x, y)), Some(grid.color()[x][y]));
                    }
                }
            }
        }
    }
    assert!(records > 10);
    assert!(landings > 2);
}
