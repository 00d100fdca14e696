use tetris::changes::CellMap;
use tetris::color::Color;

#[test]
fn an_empty_map_holds_nothing() {
    let map = CellMap::new();
    assert_eq!(map.len(), 0);
    assert_eq!(map.get((0, 0)), None);
}

#[test]
fn an_insertion_is_found_again() {
    let mut map = CellMap::new();
    map.insert((1, 2), Color::Red);
    map.insert((0, 7), Color::Blue);
    assert_eq!(map.len(), 2);
    assert_eq!(map.get((1, 2)), Some(Color::Red));
    assert_eq!(map.get((0, 7)), Some(Color::Blue));
    assert_eq!(map.get((2, 1)), None);
    assert_eq!(map.entry(0), ((1, 2), Color::Red));
    assert_eq!(map.entry(1), ((0, 7), Color::Blue));
}

#[test]
fn a_second_insertion_at_a_cell_replaces_the_first() {
    let mut map = CellMap::new();
    map.insert((1, 2), Color::Red);
    map.insert((0, 7), Color::Blue);
    map.insert((1, 2), Color::Green);
    assert_eq!(map.len(), 2);
    assert_eq!(map.get((1, 2)), Some(Color::Green));
    assert_eq!(map.get((0, 7)), Some(Color::Blue));
    assert_eq!(map.entry(0), ((1, 2), Color::Green));
}
