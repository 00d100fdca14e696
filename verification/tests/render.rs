use tetris::changes::{CellMap, ChangeSet};
use tetris::color::Color;
use tetris::frame::{Frame, FrameLocation, Styled};
use tetris::grid::{Grid, Input, Piece};
use tetris::render::draw;

fn listing(frame: &Frame) -> Vec<(FrameLocation, Styled)> {
    (0..frame.len())
        .map(|i| {
            let item = frame.styled(i);
            (frame.location(i), Styled { text: item.text.clone(), fg: item.fg, bg: item.bg })
        })
        .collect()
}

fn block(row: u16, col: u16, color: Color) -> (FrameLocation, Styled) {
    (
        FrameLocation(row, col),
        Styled { text: " ".to_string(), fg: Some(Color::Black), bg: Some(color) },
    )
}

#[test]
fn a_record_is_drawn_cell_by_cell() {
    let tint = Color::Rgb { r: 9, g: 8, b: 7 };
    let filled = vec![vec![false; 4]; 5];
    let color = vec![vec![Color::Black; 4]; 5];
    let piece = Piece { positions: [(0, 0), (1, 0), (0, 1), (1, 1)], color: tint };
    let mut grid = Grid::from_parts(filled, color, piece).unwrap();
    grid.advance(Input::Right);
    let frame = draw(grid.changes(), grid.color());
    let b = Color::Black;
    let expected = vec![
        block(0, 0, b),
        block(0, 1, b),
        block(0, 2, b),
        block(1, 0, b),
        block(1, 1, tint),
        block(1, 2, tint),
        block(2, 1, tint),
        block(2, 2, tint),
    ];
    assert_eq!(listing(&frame), expected);
}

#[test]
fn a_full_redraw_draws_every_cell() {
    let color = vec![
        vec![Color::Red, Color::Black, Color::Blue],
        vec![Color::Black, Color::Green, Color::Black],
    ];
    let frame = draw(&ChangeSet::FullRedraw, &color);
    let expected = vec![
        block(0, 0, Color::Red),
        block(0, 1, Color::Black),
        block(0, 2, Color::Blue),
        block(1, 0, Color::Black),
        block(1, 1, Color::Green),
        block(1, 2, Color::Black),
    ];
    assert_eq!(listing(&frame), expected);
    assert_eq!(draw(&ChangeSet::FullRedraw, &Vec::new()).len(), 0);
}

#[test]
fn an_empty_record_draws_nothing() {
    let color = vec![vec![Color::Red; 3]; 2];
    let frame = draw(&ChangeSet::Diff(CellMap::new()), &color);
    assert_eq!(frame.len(), 0);
}

#[test]
fn coordinates_are_cut_to_sixteen_bits() {
    let mut map = CellMap::new();
    map.insert((65538, 3), Color::Red);
    map.insert((1, 65536 + 7), Color::Green);
    map.insert((2, 3), Color::Blue);
    let frame = draw(&ChangeSet::Diff(map), &Vec::new());
    let expected = vec![block(1, 7, Color::Green), block(2, 3, Color::Blue)];
    assert_eq!(listing(&frame), expected);
}
