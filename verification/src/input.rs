use std::time::Duration;
use vstd::prelude::*;
use crate::grid;

verus! {

/// A key as the reader of the keyboard reports it.
#[derive(Clone, Copy, Debug, PartialEq, Eq, Structural)]
pub enum Key {
    Down,
    Left,
    Right,
    Up,
    Char(char),
    /// Any other key, or no key within the time allowed.
    Other,
}

/// What a key asks for.
#[derive(Clone, Copy, Debug, PartialEq, Eq, Structural)]
pub enum Command {
    /// One step of the field with this command.
    Step(grid::Input),
    /// The end of the program.
    Quit,
}

/// What a key asks for: an arrow is a step with its command, the letter
/// `c` ends the program, and anything else is a step in which the piece
/// only falls.
pub fn command(key: Key) -> (asked: Command)
    ensures
        asked == match key {
            Key::Down => Command::Step(grid::Input::Down),
            Key::Left => Command::Step(grid::Input::Left),
            Key::Right => Command::Step(grid::Input::Right),
            Key::Up => Command::Step(grid::Input::Up),
            Key::Char(c) => if c == 'c' {
                Command::Quit
            } else {
                Command::Step(grid::Input::Idle)
            },
            Key::Other => Command::Step(grid::Input::Idle),
        },
{
    match key {
        Key::Down => Command::Step(grid::Input::Down),
        Key::Left => Command::Step(grid::Input::Left),
        Key::Right => Command::Step(grid::Input::Right),
        Key::Up => Command::Step(grid::Input::Up),
        Key::Char(c) => {
            if c == 'c' {
                Command::Quit
            } else {
                Command::Step(grid::Input::Idle)
            }
        },
        Key::Other => Command::Step(grid::Input::Idle),
    }
}

/// What to do with an event that was read.
#[derive(Clone, Copy, Debug, PartialEq, Eq, Structural)]
pub enum Relay {
    /// Stop reading.
    Stop,
    /// Hand the key on and read again.
    Forward,
    /// Read again.
    Skip,
}

/// A reader of the keyboard that waits for each key no longer than a set
/// time.
#[derive(Clone, Copy, Debug)]
pub struct Input {
    interval: Duration,
}

impl Input {
    /// The time that the reader waits for a key.
    pub closed spec fn period(&self) -> Duration {
        self.interval
    }

    pub fn new(interval: Duration) -> (input: Self)
        ensures
            input.period() == interval,
    {
        Self { interval }
    }

    /// The time that the reader waits for a key.
    pub fn interval(&self) -> (interval: Duration)
        ensures
            interval == self.period(),
    {
        self.interval
    }

    /// What to do with an event that was read: once a stop was asked for,
    /// stop, whatever was read; else hand a key on, and pass over any
    /// other event.
    pub fn relay(stop_asked: bool, is_key: bool) -> (next: Relay)
        ensures
            next == (if stop_asked {
                Relay::Stop
            } else if is_key {
                Relay::Forward
            } else {
                Relay::Skip
            }),
    {
        if stop_asked {
            Relay::Stop
        } else if is_key {
            Relay::Forward
        } else {
            Relay::Skip
        }
    }
}

} // verus!
