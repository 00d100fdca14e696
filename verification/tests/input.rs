use std::time::Duration;
use tetris::grid;
use tetris::input::{command, Command, Input, Key, Relay};

#[test]
fn the_reader_keeps_its_interval() {
    let input = Input::new(Duration::from_millis(250));
    assert_eq!(input.interval(), Duration::from_millis(250));
    assert_eq!(Input::new(Duration::ZERO).interval(), Duration::ZERO);
}

#[test]
fn arrows_are_commands_and_c_quits() {
    assert_eq!(command(Key::Down), Command::Step(grid::Input::Down));
    assert_eq!(command(Key::Left), Command::Step(grid::Input::Left));
    assert_eq!(command(Key::Right), Command::Step(grid::Input::Right));
    assert_eq!(command(Key::Up), Command::Step(grid::Input::Up));
    assert_eq!(command(Key::Char('c')), Command::Quit);
    assert_eq!(command(Key::Char('C')), Command::Step(grid::Input::Idle));
    assert_eq!(command(Key::Char('q')), Command::Step(grid::Input::Idle));
    assert_eq!(command(Key::Other), Command::Step(grid::Input::Idle));
}

#[test]
fn a_stop_goes_before_a_key() {
    assert_eq!(Input::relay(true, true), Relay::Stop);
    assert_eq!(Input::relay(true, false), Relay::Stop);
    assert_eq!(Input::relay(false, true), Relay::Forward);
    assert_eq!(Input::relay(false, false), Relay::Skip);
}
