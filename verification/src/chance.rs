use vstd::prelude::*;

verus! {

/// Draws a `usize` with `rand::random`. Nothing is claimed of the value
/// drawn: the callers are proved for every one.
#[verifier::external_body]
fn random_usize() -> (draw: usize) {
    rand::random::<usize>()
}

/// Draws a `u8` with `rand::random`. Nothing is claimed of the value drawn:
/// the callers are proved for every one.
#[verifier::external_body]
fn random_u8() -> (draw: u8) {
    rand::random::<u8>()
}

/// A source of draws. Nothing is asked of the values that it hands out:
/// what is proved of a function that draws holds whatever they are. A
/// source keeps the record of what it has handed out, so that a function
/// that draws can say what it made of each draw.
pub trait Chance {
    /// The draws handed out so far as numbers, the oldest first.
    spec fn drawn(&self) -> Seq<int>;

    /// Hands out a draw and puts it at the end of the record.
    fn draw_usize(&mut self) -> (draw: usize)
        ensures
            final(self).drawn() == old(self).drawn().push(draw as int),
    ;

    /// Hands out a draw and puts it at the end of the record.
    fn draw_u8(&mut self) -> (draw: u8)
        ensures
            final(self).drawn() == old(self).drawn().push(draw as int),
    ;
}

/// The source that draws from the random number generator of the thread.
pub struct ThreadChance {
    record: Ghost<Seq<int>>,
}

impl ThreadChance {
    /// A source that has handed out nothing yet.
    pub fn new() -> (chance: ThreadChance)
        ensures
            chance.drawn() == Seq::<int>::empty(),
    {
        ThreadChance { record: Ghost(Seq::empty()) }
    }
}

impl Chance for ThreadChance {
    closed spec fn drawn(&self) -> Seq<int> {
        self.record@
    }

    fn draw_usize(&mut self) -> (draw: usize) {
        let draw = random_usize();
        self.record = Ghost(self.record@.push(draw as int));
        draw
    }

    fn draw_u8(&mut self) -> (draw: u8) {
        let draw = random_u8();
        self.record = Ghost(self.record@.push(draw as int));
        draw
    }
}

/// What a scripted source holds: its two lists and how many draws it has
/// handed out of each.
pub struct ScriptView {
    pub places: Seq<usize>,
    pub bytes: Seq<u8>,
    pub places_drawn: nat,
    pub bytes_drawn: nat,
}

impl ScriptView {
    /// The next draw from the list of places: the lists are gone through
    /// from their beginning, over and over, and a list without values
    /// gives zero.
    pub open spec fn next_place(self) -> usize {
        if self.places.len() == 0 {
            0
        } else {
            self.places[self.places_drawn as int % self.places.len() as int]
        }
    }

    /// The next draw from the list of bytes.
    pub open spec fn next_byte(self) -> u8 {
        if self.bytes.len() == 0 {
            0
        } else {
            self.bytes[self.bytes_drawn as int % self.bytes.len() as int]
        }
    }
}

/// How far a count of draws goes: it stops at the greatest `usize`.
pub open spec fn counted_on(count: nat) -> nat {
    if count < usize::MAX {
        count + 1
    } else {
        count
    }
}

/// A source that hands out the values of two lists, so that a game can be
/// played again as it was: draws of `usize` come from the one, draws of
/// `u8` from the other.
pub struct Script {
    places: Vec<usize>,
    bytes: Vec<u8>,
    places_drawn: usize,
    bytes_drawn: usize,
    record: Ghost<Seq<int>>,
}

impl Script {
    pub closed spec fn view(&self) -> ScriptView {
        ScriptView {
            places: self.places@,
            bytes: self.bytes@,
            places_drawn: self.places_drawn as nat,
            bytes_drawn: self.bytes_drawn as nat,
        }
    }

    /// A source with these lists that has handed out nothing yet.
    pub fn of(places: Vec<usize>, bytes: Vec<u8>) -> (script: Script)
        ensures
            script@ == (ScriptView {
                places: places@,
                bytes: bytes@,
                places_drawn: 0,
                bytes_drawn: 0,
            }),
            script.drawn() == Seq::<int>::empty(),
    {
        Script { places, bytes, places_drawn: 0, bytes_drawn: 0, record: Ghost(Seq::empty()) }
    }

    /// How many draws of `usize` were handed out.
    pub fn places_drawn(&self) -> (count: usize)
        ensures
            count == self@.places_drawn,
    {
        self.places_drawn
    }

    /// How many draws of `u8` were handed out.
    pub fn bytes_drawn(&self) -> (count: usize)
        ensures
            count == self@.bytes_drawn,
    {
        self.bytes_drawn
    }
}

impl Chance for Script {
    closed spec fn drawn(&self) -> Seq<int> {
        self.record@
    }

    fn draw_usize(&mut self) -> (draw: usize)
        ensures
            draw == old(self)@.next_place(),
            final(self)@ == (ScriptView {
                places_drawn: counted_on(old(self)@.places_drawn),
                ..old(self)@
            }),
    {
        let draw = if self.places.len() == 0 {
            0
        } else {
            self.places[self.places_drawn % self.places.len()]
        };
        if self.places_drawn < usize::MAX {
            self.places_drawn += 1;
        }
        self.record = Ghost(self.record@.push(draw as int));
        draw
    }

    fn draw_u8(&mut self) -> (draw: u8)
        ensures
            draw == old(self)@.next_byte(),
            final(self)@ == (ScriptView {
                bytes_drawn: counted_on(old(self)@.bytes_drawn),
                ..old(self)@
            }),
    {
        let draw = if self.bytes.len() == 0 {
            0
        } else {
            self.bytes[self.bytes_drawn % self.bytes.len()]
        };
        if self.bytes_drawn < usize::MAX {
            self.bytes_drawn += 1;
        }
        self.record = Ghost(self.record@.push(draw as int));
        draw
    }
}

} // verus!
