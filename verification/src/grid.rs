use vstd::prelude::*;
use crate::chance::{Chance, ThreadChance};
use crate::changes::{CellMap, ChangeSet};
use crate::color::Color;
use crate::laws::lemma_room_on_empty;
use crate::model::{
    GridView, PieceView, blank, full, full_count, lemma_full_count_step, lemma_mark_step,
    lemma_none_full, lemma_paint_step, lemma_record_step, lemma_remove_full, mark, paint,
    survivors,
};
use crate::shape::{catalogue, cells_of, non_negative, shifted, turned};

verus! {

/// The command given with a step.
#[derive(Clone, Copy, Debug, PartialEq, Eq, Structural)]
pub enum Input {
    Left,
    Right,
    Down,
    Up,
    /// No key was pressed: the piece only falls.
    Idle,
}

/// The lines of a grid, each by its cells.
pub open spec fn lines_of<T>(grid: Vec<Vec<T>>) -> Seq<Seq<T>> {
    Seq::new(grid@.len(), |i: int| grid@[i]@)
}

/// Whether every cell of the line is settled.
pub fn line_full(line: &Vec<bool>) -> (all: bool)
    ensures
        all == full(line@),
{
    let mut j: usize = 0;
    while j < line.len()
        invariant
            j <= line@.len(),
            forall|n: int| 0 <= n < j ==> line@[n],
        decreases line@.len() - j,
    {
        if !line[j] {
            return false;
        }
        j += 1;
    }
    true
}

/// How a step ended.
#[derive(Clone, Copy, Debug, PartialEq, Eq, Structural)]
pub enum Outcome {
    /// The piece fell by one line and is still active.
    Falling,
    /// The piece settled and a new one entered the field.
    Landed,
    /// The piece settled and no new one found room: the game is over.
    BoardFull,
}

/// How often a new piece is tried again after a first try that found no
/// room.
pub const RETRY_CAP: u32 = 1001;

/// Settled cells, colours and a piece fit together as one field: there
/// is a line, the lines of both grids are as many and all as wide, no line
/// is empty or too wide to leave room for the widest shape within `usize`,
/// and the piece is on the field.
pub open spec fn fit_together(
    filled: Seq<Seq<bool>>,
    color: Seq<Seq<Color>>,
    cells: Seq<(int, int)>,
) -> bool {
    &&& filled.len() > 0
    &&& color.len() == filled.len()
    &&& 0 < filled[0].len() <= usize::MAX - 3
    &&& forall|i: int| 0 <= i < filled.len() ==> (#[trigger] filled[i]).len() == filled[0].len()
    &&& forall|i: int| 0 <= i < color.len() ==> (#[trigger] color[i]).len() == filled[0].len()
    &&& forall|k: int|
        0 <= k < cells.len() ==> 0 <= (#[trigger] cells[k]).0 < filled.len() && 0 <= cells[k].1
            < filled[0].len()
}

/// The view of the piece, where there is one.
pub open spec fn view_of(piece: Option<Piece>) -> Option<PieceView> {
    match piece {
        Some(piece) => Some(piece@),
        None => None,
    }
}

/// Four cells of one colour.
#[derive(Clone, Copy, Debug, PartialEq, Eq)]
pub struct Piece {
    pub positions: [(usize, usize); 4],
    pub color: Color,
}

impl Piece {
    pub open spec fn view(&self) -> PieceView {
        PieceView { cells: cells_of(self.positions), color: self.color }
    }

    /// A black piece with all four cells at the origin.
    pub fn default() -> (piece: Piece)
        ensures
            piece.color == Color::Black,
            piece@.cells == Seq::new(4, |k: int| (0int, 0int)),
    {
        let piece = Piece { color: Color::Black, positions: [(0, 0); 4] };
        assert(piece@.cells =~= Seq::new(4, |k: int| (0int, 0int)));
        piece
    }
}

/// The playfield: which cells are settled, the colour shown at each cell,
/// the active piece, and what changed on the display in the last step.
#[derive(Debug)]
pub struct Grid {
    filled: Vec<Vec<bool>>,
    color: Vec<Vec<Color>>,
    piece: Piece,
    lines: usize,
    width: usize,
    changes: ChangeSet,
}

impl Grid {
    pub closed spec fn view(&self) -> GridView {
        GridView {
            lines: self.lines as nat,
            width: self.width as nat,
            filled: lines_of(self.filled),
            color: lines_of(self.color),
            piece: self.piece@,
            changes: self.changes@,
        }
    }

    /// The grid is sound: its view is, its record of changes is, and a
    /// line leaves room for the widest shape within `usize`.
    pub closed spec fn wf(&self) -> bool {
        &&& self@.wf()
        &&& self.changes.wf()
        &&& self.width <= usize::MAX - 3
    }

    /// What soundness says of the view.
    pub proof fn lemma_wf(&self)
        requires
            self.wf(),
        ensures
            self@.wf(),
            self@.width <= usize::MAX - 3,
            self@.lines <= usize::MAX,
    {
    }

    /// How the lines held answer to those of the view.
    proof fn lemma_line(&self, i: int)
        requires
            self.wf(),
            0 <= i < self.lines,
        ensures
            self.filled@.len() == self.lines,
            self.color@.len() == self.lines,
            self.filled@[i]@ == self@.filled[i],
            self.color@[i]@ == self@.color[i],
            self.filled@[i]@.len() == self.width,
            self.color@[i]@.len() == self.width,
    {
    }

    /// Whether the cell is on the field and not settled.
    pub fn is_valid(&self, at: (usize, usize)) -> (valid: bool)
        requires
            self.wf(),
        ensures
            valid == self@.is_valid((at.0 as int, at.1 as int)),
            !valid <==> at.0 >= self@.lines || at.1 >= self@.width
                || self@.filled[at.0 as int][at.1 as int],
    {
        let (x, y) = at;
        if x < self.lines && y < self.width {
            proof {
                self.lemma_line(x as int);
            }
            !self.filled[x][y]
        } else {
            false
        }
    }

    /// Whether all four cells are on the field and not settled.
    pub fn validate(&self, val: &[(usize, usize); 4]) -> (valid: bool)
        requires
            self.wf(),
        ensures
            valid == self@.validate(cells_of(*val)),
    {
        let mut k: usize = 0;
        while k < 4
            invariant
                self.wf(),
                k <= 4,
                forall|n: int| 0 <= n < k ==> self@.is_valid(#[trigger] cells_of(*val)[n]),
            decreases 4 - k,
        {
            if !self.is_valid(val[k]) {
                assert(!self@.is_valid(cells_of(*val)[k as int]));
                return false;
            }
            k += 1;
        }
        true
    }

    /// Shows `cells` in the colour `c` and records the change where changes
    /// are being recorded.
    fn show(&mut self, cells: &[(usize, usize); 4], c: Color)
        requires
            old(self).wf(),
            forall|k: int| 0 <= k < 4 ==> old(self)@.in_bounds(#[trigger] cells_of(*cells)[k]),
        ensures
            final(self).wf(),
            final(self)@ == old(self)@.painted(cells_of(*cells), c),
    {
        let ghost before = self@;
        let ghost all = cells_of(*cells);
        proof {
            lemma_paint_step(before.color, all, 0, c);
            if let Some(changes) = before.changes {
                lemma_record_step(changes, all, 0, c);
            }
        }
        let mut k: usize = 0;
        while k < 4
            invariant
                k <= 4,
                self.wf(),
                before.wf(),
                all == cells_of(*cells),
                forall|n: int| 0 <= n < 4 ==> before.in_bounds(#[trigger] all[n]),
                self@ == before.painted(all.take(k as int), c),
            decreases 4 - k,
        {
            let (i, j) = cells[k];
            proof {
                assert(all[k as int] == (i as int, j as int));
                assert(before.in_bounds(all[k as int]));
                self.lemma_line(i as int);
                lemma_paint_step(before.color, all, k as int, c);
                if let Some(changes) = before.changes {
                    lemma_record_step(changes, all, k as int, c);
                }
            }
            self.color[i][j] = c;
            match &mut self.changes {
                ChangeSet::Diff(map) => {
                    map.insert((i, j), c);
                },
                ChangeSet::FullRedraw => {},
            }
            assert(self@.color =~= before.painted(all.take(k as int + 1), c).color);
            k += 1;
        }
        assert(all.take(4) =~= all);
    }

    /// One try at a new piece: the shape that the catalogue has under
    /// `kind`, set at the top line at the place `draw` taken modulo the
    /// width, if all its cells are valid.
    pub fn try_place(&self, draw: usize, kind: u8) -> (trial: Option<[(usize, usize); 4]>)
        requires
            self.wf(),
        ensures
            self@.validate(self@.placement(draw as int, kind as int)) ==> trial.is_some()
                && cells_of(trial.unwrap()) == self@.placement(draw as int, kind as int),
            !self@.validate(self@.placement(draw as int, kind as int)) ==> trial.is_none(),
    {
        let offset: usize = draw % self.width;
        let trial_run = Grid::shape(kind, (0, offset));
        if self.validate(&trial_run) {
            Some(trial_run)
        } else {
            None
        }
    }

    /// Looks for a new piece with draws from `chance`: for each try it
    /// draws a place, then a shape, until a try has room, and then draws
    /// the red, the green and the blue of its colour. There is no piece
    /// where every try found no room, as on a field that has room for no
    /// shape at all.
    pub fn generate_piece_with<C: Chance>(&self, chance: &mut C) -> (spawned: Option<Piece>)
        requires
            self.wf(),
        ensures
            old(chance).drawn().is_prefix_of(final(chance).drawn()),
            self@.search_gives(
                final(chance).drawn().skip(old(chance).drawn().len() as int),
                view_of(spawned),
            ),
            self@.may_find(spawned),
            !self@.can_spawn() ==> spawned.is_none(),
    {
        let ghost before = chance.drawn();
        let ghost mut taken: Seq<int> = Seq::empty();
        assert(before + taken =~= before);
        let mut counter: u32 = 0;
        loop
            invariant
                self.wf(),
                counter <= RETRY_CAP,
                before == old(chance).drawn(),
                chance.drawn() == before + taken,
                taken.len() == 2 * counter,
                self@.no_room_in(taken, counter as int),
            decreases RETRY_CAP - counter,
        {
            let draw = chance.draw_usize();
            let kind = chance.draw_u8();
            let ghost tried = taken.push(draw as int).push(kind as int);
            proof {
                assert(chance.drawn() =~= before + tried);
                assert(self@.try_at(tried, counter as int) == self@.placement(
                    draw as int,
                    kind as int,
                ));
                assert forall|i: int| 0 <= i < counter implies self@.try_at(tried, i)
                    == self@.try_at(taken, i) by {
                    assert(tried[2 * i] == taken[2 * i]);
                    assert(tried[2 * i + 1] == taken[2 * i + 1]);
                }
            }
            if let Some(positions) = self.try_place(draw, kind) {
                let r = chance.draw_u8();
                let g = chance.draw_u8();
                let b = chance.draw_u8();
                let piece = Piece { positions, color: Color::Rgb { r, g, b } };
                proof {
                    let all = tried.push(r as int).push(g as int).push(b as int);
                    assert(chance.drawn() =~= before + all);
                    assert(chance.drawn().skip(before.len() as int) =~= all);
                    assert(before.is_prefix_of(chance.drawn()));
                    assert(self@.try_at(all, counter as int) == self@.try_at(
                        tried,
                        counter as int,
                    ));
                    assert forall|i: int| 0 <= i < counter implies !self@.validate(
                        #[trigger] self@.try_at(all, i),
                    ) by {
                        assert(all[2 * i] == taken[2 * i]);
                        assert(all[2 * i + 1] == taken[2 * i + 1]);
                        assert(self@.try_at(all, i) == self@.try_at(taken, i));
                    }
                    let place = draw as int % self.width as int;
                    assert(piece@.cells == catalogue(kind as int % 10, (0, place)));
                    assert(self@.validate(catalogue(kind as int % 10, (0, place))));
                }
                return Some(piece);
            }
            proof {
                assert(chance.drawn().skip(before.len() as int) =~= tried);
                assert(before.is_prefix_of(chance.drawn()));
                assert forall|i: int| 0 <= i < counter + 1 implies !self@.validate(
                    #[trigger] self@.try_at(tried, i),
                ) by {
                    if i < counter {
                        assert(self@.try_at(tried, i) == self@.try_at(taken, i));
                    }
                }
                taken = tried;
            }
            if counter >= RETRY_CAP {
                return None;
            }
            counter += 1;
        }
    }

    /// Looks for a new piece with draws from the random number generator
    /// of the thread.
    pub fn generate_piece(&self) -> (spawned: Option<Piece>)
        requires
            self.wf(),
        ensures
            self@.may_find(spawned),
            !self@.can_spawn() ==> spawned.is_none(),
    {
        let mut chance = ThreadChance::new();
        self.generate_piece_with(&mut chance)
    }

    /// An empty field of `w` lines, each of `h` cells, with a first piece
    /// on it that was looked for with draws from `chance`; everything is
    /// to be drawn. There is no field where the search for a first piece
    /// found none.
    pub fn new_with<C: Chance>(w: usize, h: usize, chance: &mut C) -> (made: Option<Grid>)
        requires
            w > 0,
            h > 0,
            h <= usize::MAX - 3,
        ensures
            old(chance).drawn().is_prefix_of(final(chance).drawn()),
            GridView::vacant(w as nat, h as nat).search_gives(
                final(chance).drawn().skip(old(chance).drawn().len() as int),
                match made {
                    Some(grid) => Some(grid@.piece),
                    None => None,
                },
            ),
            match made {
                Some(grid) => grid.wf() && grid@.is_new(w as nat, h as nat),
                None => true,
            },
            made.is_some() ==> (w >= 2 && h >= 2) || w >= 4 || h >= 4,
    {
        let mut filled: Vec<Vec<bool>> = Vec::new();
        let mut color: Vec<Vec<Color>> = Vec::new();
        let mut i: usize = 0;
        while i < w
            invariant
                i <= w,
                lines_of(filled) == blank(i as nat, h as nat, false),
                lines_of(color) == blank(i as nat, h as nat, Color::Black),
            decreases w - i,
        {
            let ghost filled_was = lines_of(filled);
            let ghost color_was = lines_of(color);
            let filled_line = vec![false; h];
            let color_line = vec![Color::Black; h];
            assert(filled_line@ =~= Seq::new(h as nat, |j: int| false));
            assert(color_line@ =~= Seq::new(h as nat, |j: int| Color::Black));
            filled.push(filled_line);
            color.push(color_line);
            assert(lines_of(filled) =~= filled_was.push(filled_line@));
            assert(lines_of(color) =~= color_was.push(color_line@));
            assert(lines_of(filled) =~= blank((i + 1) as nat, h as nat, false));
            assert(lines_of(color) =~= blank((i + 1) as nat, h as nat, Color::Black));
            i += 1;
        }
        let mut g = Grid {
            filled,
            color,
            piece: Piece::default(),
            lines: w,
            width: h,
            changes: ChangeSet::FullRedraw,
        };
        assert(g@.piece.cells[0] == (0int, 0int));
        assert(g.wf());
        assert(g@ == GridView::vacant(w as nat, h as nat));
        match g.generate_piece_with(chance) {
            Some(piece) => {
                let ghost sought = g@;
                g.piece = piece;
                proof {
                    sought.lemma_admits(piece@.cells, g@);
                    lemma_room_on_empty(sought);
                }
                Some(g)
            },
            None => None,
        }
    }

    /// An empty field of `w` lines, each of `h` cells, with a first piece
    /// on it that was looked for with draws from the random number
    /// generator of the thread.
    pub fn new(w: usize, h: usize) -> (made: Option<Grid>)
        requires
            w > 0,
            h > 0,
            h <= usize::MAX - 3,
        ensures
            match made {
                Some(grid) => grid.wf() && grid@.is_new(w as nat, h as nat),
                None => true,
            },
            made.is_some() ==> (w >= 2 && h >= 2) || w >= 4 || h >= 4,
    {
        let mut chance = ThreadChance::new();
        Grid::new_with(w, h, &mut chance)
    }

    /// The field that holds the given settled cells and colours and the
    /// given piece, with everything to be drawn; none where they do not
    /// fit together.
    pub fn from_parts(filled: Vec<Vec<bool>>, color: Vec<Vec<Color>>, piece: Piece) -> (made:
        Option<Grid>)
        ensures
            made.is_some() == fit_together(lines_of(filled), lines_of(color), piece@.cells),
            match made {
                Some(grid) => grid.wf() && grid@ == (GridView {
                    lines: filled@.len(),
                    width: filled@[0]@.len(),
                    filled: lines_of(filled),
                    color: lines_of(color),
                    piece: piece@,
                    changes: None,
                }),
                None => true,
            },
    {
        let lines = filled.len();
        if lines == 0 || color.len() != lines {
            return None;
        }
        let width = filled[0].len();
        assert(lines_of(filled)[0].len() == width);
        if width == 0 || width > usize::MAX - 3 {
            return None;
        }
        let mut i: usize = 0;
        while i < lines
            invariant
                i <= lines,
                0 < lines == filled@.len(),
                lines == color@.len(),
                width == lines_of(filled)[0].len(),
                forall|a: int| 0 <= a < i ==> (#[trigger] lines_of(filled)[a]).len() == width,
                forall|a: int| 0 <= a < i ==> (#[trigger] lines_of(color)[a]).len() == width,
            decreases lines - i,
        {
            if filled[i].len() != width || color[i].len() != width {
                assert(lines_of(filled)[i as int].len() != width || lines_of(color)[i as int].len()
                    != width);
                return None;
            }
            i += 1;
        }
        let mut k: usize = 0;
        while k < 4
            invariant
                k <= 4,
                0 < lines == filled@.len(),
                width == lines_of(filled)[0].len(),
                forall|n: int|
                    0 <= n < k ==> 0 <= (#[trigger] piece@.cells[n]).0 < lines && 0
                        <= piece@.cells[n].1 < width,
            decreases 4 - k,
        {
            let (x, y) = piece.positions[k];
            if x >= lines || y >= width {
                assert(piece@.cells[k as int] == (x as int, y as int));
                return None;
            }
            k += 1;
        }
        Some(Grid { filled, color, piece, lines, width, changes: ChangeSet::FullRedraw })
    }

    /// Takes out every full line and puts as many empty lines on top, so
    /// that what lay above a full line comes down. Where a line was taken
    /// out, the record of changes gives way to a full redraw.
    pub fn check_for_lines(&mut self)
        requires
            old(self).wf(),
        ensures
            final(self).wf(),
            final(self)@ == old(self)@.cleared(),
            full_count(old(self)@.filled) == 0 ==> *final(self) == *old(self),
    {
        let ghost before = self@;
        let mut to_rmv: Vec<usize> = Vec::new();
        let mut i: usize = 0;
        while i < self.filled.len()
            invariant
                self.wf(),
                *self == *old(self),
                before == self@,
                i <= self.filled@.len(),
                self.filled@.len() == self.lines,
                to_rmv@.len() == full_count(before.filled.take(i as int)),
                forall|t: int| 0 <= t < to_rmv@.len() ==> #[trigger] to_rmv@[t] < i && full(
                    before.filled[to_rmv@[t] as int],
                ),
                forall|s: int, t: int|
                    0 <= s < t < to_rmv@.len() ==> #[trigger] to_rmv@[s] < #[trigger] to_rmv@[t],
            decreases self.filled@.len() - i,
        {
            proof {
                self.lemma_line(i as int);
                lemma_full_count_step(before.filled, i as int);
            }
            if line_full(&self.filled[i]) {
                to_rmv.push(i);
            }
            i += 1;
        }
        proof {
            assert(before.filled.take(i as int) =~= before.filled);
            assert forall|a: int| 0 <= a < self.filled@.len() implies (
            #[trigger] self.filled@[a])@.len() == self.width by {
                self.lemma_line(a);
            }
            assert forall|a: int| 0 <= a < self.color@.len() implies (
            #[trigger] self.color@[a])@.len() == self.width by {
                self.lemma_line(a);
            }
        }
        let len = to_rmv.len();
        let mut t: usize = len;
        let ghost mut bound: int = self.lines as int;
        while t > 0
            invariant
                before == old(self)@,
                before.wf(),
                self.lines == old(self).lines,
                self.width == old(self).width,
                self.piece == old(self).piece,
                self.changes == old(self).changes,
                t <= len,
                len == to_rmv@.len(),
                len == 0 ==> *self == *old(self),
                forall|t: int| 0 <= t < to_rmv@.len() ==> #[trigger] to_rmv@[t] < before.lines
                    && full(before.filled[to_rmv@[t] as int]),
                forall|s: int, t: int|
                    0 <= s < t < to_rmv@.len() ==> #[trigger] to_rmv@[s] < #[trigger] to_rmv@[t],
                self.filled@.len() == self.color@.len(),
                self.filled@.len() + (len - t) == before.lines,
                0 <= bound <= self.filled@.len(),
                t > 0 ==> to_rmv@[t - 1] < bound,
                forall|a: int|
                    0 <= a < bound ==> #[trigger] lines_of(self.filled)[a] == before.filled[a],
                forall|a: int|
                    0 <= a < self.filled@.len() ==> (#[trigger] self.filled@[a])@.len()
                        == self.width,
                forall|a: int|
                    0 <= a < self.color@.len() ==> (#[trigger] self.color@[a])@.len()
                        == self.width,
                full_count(lines_of(self.filled)) == t,
                survivors(lines_of(self.filled), lines_of(self.filled)) == survivors(
                    before.filled,
                    before.filled,
                ),
                survivors(lines_of(self.filled), lines_of(self.color)) == survivors(
                    before.filled,
                    before.color,
                ),
            decreases t,
        {
            let line = to_rmv[t - 1];
            let ghost filled_was = lines_of(self.filled);
            let ghost color_was = lines_of(self.color);
            proof {
                assert(filled_was[line as int] == before.filled[line as int]);
                lemma_remove_full(filled_was, filled_was, line as int);
                lemma_remove_full(filled_was, color_was, line as int);
            }
            self.color.remove(line);
            self.filled.remove(line);
            proof {
                assert(lines_of(self.filled) =~= filled_was.remove(line as int));
                assert(lines_of(self.color) =~= color_was.remove(line as int));
                bound = line as int;
                if t > 1 {
                    assert(to_rmv@[t - 2] < to_rmv@[t - 1]);
                }
                assert forall|a: int| 0 <= a < bound implies #[trigger] lines_of(self.filled)[a]
                    == before.filled[a] by {
                    assert(lines_of(self.filled)[a] == filled_was[a]);
                }
            }
            t -= 1;
        }
        proof {
            lemma_none_full(lines_of(self.filled), lines_of(self.filled));
            lemma_none_full(lines_of(self.filled), lines_of(self.color));
        }
        if len > 0 {
            self.changes = ChangeSet::FullRedraw;
        }
        assert(len == full_count(before.filled));
        assert(self.changes@ == before.cleared().changes);
        let ghost kept_filled = lines_of(self.filled);
        let ghost kept_color = lines_of(self.color);
        let mut n: usize = 0;
        while n < len
            invariant
                before == old(self)@,
                before.wf(),
                self.lines == old(self).lines,
                self.width == old(self).width,
                self.piece == old(self).piece,
                self.changes.wf(),
                self.changes@ == before.cleared().changes,
                len == 0 ==> *self == *old(self),
                n <= len,
                kept_filled.len() + len == before.lines,
                kept_color.len() + len == before.lines,
                lines_of(self.filled) == blank(n as nat, self.width as nat, false) + kept_filled,
                lines_of(self.color) == blank(n as nat, self.width as nat, Color::Black)
                    + kept_color,
                forall|a: int|
                    0 <= a < self.filled@.len() ==> (#[trigger] self.filled@[a])@.len()
                        == self.width,
                forall|a: int|
                    0 <= a < self.color@.len() ==> (#[trigger] self.color@[a])@.len()
                        == self.width,
            decreases len - n,
        {
            let ghost filled_was = lines_of(self.filled);
            let ghost color_was = lines_of(self.color);
            let color_line = vec![Color::Black; self.width];
            let filled_line = vec![false; self.width];
            assert(color_line@ =~= Seq::new(self.width as nat, |j: int| Color::Black));
            assert(filled_line@ =~= Seq::new(self.width as nat, |j: int| false));
            self.color.insert(0, color_line);
            self.filled.insert(0, filled_line);
            proof {
                assert(lines_of(self.filled) =~= filled_was.insert(0, filled_line@));
                assert(lines_of(self.color) =~= color_was.insert(0, color_line@));
                assert(lines_of(self.filled) =~= blank((n + 1) as nat, self.width as nat, false)
                    + kept_filled);
                assert(lines_of(self.color) =~= blank(
                    (n + 1) as nat,
                    self.width as nat,
                    Color::Black,
                ) + kept_color);
            }
            n += 1;
        }
        proof {
            assert(self@.changes == before.cleared().changes);
            assert(self@.filled == before.cleared().filled);
            assert(self@.color == before.cleared().color);
            assert(self@.filled.len() == before.lines);
            assert forall|a: int| 0 <= a < self@.lines implies (#[trigger] self@.filled[a]).len()
                == self@.width by {
                assert(self.filled@[a]@.len() == self.width);
            }
            assert forall|a: int| 0 <= a < self@.lines implies (#[trigger] self@.color[a]).len()
                == self@.width by {
                assert(self.color@[a]@.len() == self.width);
            }
        }
    }

    /// Whether the piece may move by `dir`: whether each cell it would take
    /// is on the field and not settled.
    pub fn can_move(&self, dir: (i32, i32)) -> (free: bool)
        requires
            self.wf(),
        ensures
            free == self@.can_move(dir.0 as int, dir.1 as int),
    {
        let ghost target = shifted(self@.piece.cells, dir.0 as int, dir.1 as int);
        let mut k: usize = 0;
        while k < 4
            invariant
                self.wf(),
                k <= 4,
                target == shifted(self@.piece.cells, dir.0 as int, dir.1 as int),
                forall|n: int| 0 <= n < k ==> self@.is_valid(#[trigger] target[n]),
            decreases 4 - k,
        {
            let line = self.piece.positions[k];
            assert(self@.piece.cells[k as int] == (line.0 as int, line.1 as int));
            assert(self@.in_bounds(self@.piece.cells[k as int]));
            let new_line = (try_add(line.0, dir.0), try_add(line.1, dir.1));
            if let (Some(x), Some(y)) = new_line {
                if !self.is_valid((x, y)) {
                    assert(!self@.is_valid(target[k as int]));
                    return false;
                }
            } else {
                assert(!self@.is_valid(target[k as int]));
                return false;
            }
            k += 1;
        }
        true
    }

    /// Moves the piece by `dir` if it may, and says whether it did. A
    /// move that is refused changes nothing.
    pub fn do_move(&mut self, dir: (i32, i32)) -> (done: bool)
        requires
            old(self).wf(),
        ensures
            final(self).wf(),
            done == old(self)@.can_move(dir.0 as int, dir.1 as int),
            final(self)@ == old(self)@.moved(dir.0 as int, dir.1 as int),
            !done ==> *final(self) == *old(self),
    {
        if !self.can_move(dir) {
            return false;
        }
        let from = self.piece.positions;
        let ghost target = shifted(self@.piece.cells, dir.0 as int, dir.1 as int);
        let mut to = self.piece.positions;
        let mut k: usize = 0;
        while k < 4
            invariant
                self.wf(),
                k <= 4,
                from == self.piece.positions,
                target == shifted(self@.piece.cells, dir.0 as int, dir.1 as int),
                self@.validate(target),
                forall|n: int| 0 <= n < k ==> cells_of(to)[n] == #[trigger] target[n],
            decreases 4 - k,
        {
            let line = from[k];
            assert(self@.piece.cells[k as int] == (line.0 as int, line.1 as int));
            assert(self@.is_valid(target[k as int]));
            if let (Some(x), Some(y)) = (try_add(line.0, dir.0), try_add(line.1, dir.1)) {
                to[k] = (x, y);
            }
            k += 1;
        }
        assert(cells_of(to) =~= target);
        self.show(&from, Color::Black);
        self.piece.positions = to;
        assert(self@ == old(self)@.painted(cells_of(from), Color::Black).with_cells(target));
        let tint = self.piece.color;
        self.show(&to, tint);
        true
    }

    pub fn move_left(&mut self) -> (done: bool)
        requires
            old(self).wf(),
        ensures
            final(self).wf(),
            done == old(self)@.can_move(0, -1),
            final(self)@ == old(self)@.moved(0, -1),
            !done ==> *final(self) == *old(self),
    {
        self.do_move((0, -1))
    }

    pub fn move_right(&mut self) -> (done: bool)
        requires
            old(self).wf(),
        ensures
            final(self).wf(),
            done == old(self)@.can_move(0, 1),
            final(self)@ == old(self)@.moved(0, 1),
            !done ==> *final(self) == *old(self),
    {
        self.do_move((0, 1))
    }

    pub fn move_down(&mut self) -> (done: bool)
        requires
            old(self).wf(),
        ensures
            final(self).wf(),
            done == old(self)@.can_move(1, 0),
            final(self)@ == old(self)@.moved(1, 0),
            !done ==> *final(self) == *old(self),
    {
        self.do_move((1, 0))
    }

    /// Turns the piece about its first cell if it may, and says whether it
    /// did. Where a turned cell would have a negative coordinate nothing
    /// changes; where the turned cells are not all valid the piece is shown
    /// again where it is.
    pub fn rotate(&mut self) -> (done: bool)
        requires
            old(self).wf(),
        ensures
            final(self).wf(),
            done == old(self)@.can_rotate(),
            final(self)@ == old(self)@.rotated(),
            !non_negative(turned(old(self)@.piece.cells)) ==> *final(self) == *old(self),
    {
        let from = self.piece.positions;
        let (x_start, y_start) = from[0];
        let ghost target = turned(self@.piece.cells);
        let mut new_pos = self.piece.positions;
        let mut on_field = true;
        let mut k: usize = 0;
        while k < 4
            invariant
                self.wf(),
                *self == *old(self),
                k <= 4,
                from == self.piece.positions,
                (x_start, y_start) == from[0],
                target == turned(self@.piece.cells),
                forall|n: int| 0 <= n < k ==> (#[trigger] target[n]).0 >= 0 && target[n].1 >= 0,
                on_field ==> forall|n: int|
                    0 <= n < k ==> cells_of(new_pos)[n] == #[trigger] target[n],
                !on_field ==> exists|n: int| 0 <= n < k && !self@.in_bounds(#[trigger] target[n]),
            decreases 4 - k,
        {
            let (x_pos, y_pos) = from[k];
            assert(self@.piece.cells[k as int] == (x_pos as int, y_pos as int));
            assert(self@.piece.cells[0] == (x_start as int, y_start as int));
            let new_y_pos: i128 = x_pos as i128 + y_start as i128 - x_start as i128;
            let new_x_pos: i128 = y_pos as i128 + x_start as i128 - y_start as i128;
            assert(target[k as int] == (new_x_pos as int, new_y_pos as int));
            if new_x_pos < 0 || new_y_pos < 0 {
                assert(!non_negative(target));
                assert(!self@.is_valid(target[k as int]));
                return false;
            } else if new_x_pos >= self.lines as i128 || new_y_pos >= self.width as i128 {
                on_field = false;
                assert(!self@.in_bounds(target[k as int]));
            } else {
                new_pos[k] = (new_x_pos as usize, new_y_pos as usize);
            }
            k += 1;
        }
        assert(non_negative(target));
        let tint = self.piece.color;
        self.show(&from, Color::Black);
        if on_field {
            assert(cells_of(new_pos) =~= target);
            if self.validate(&new_pos) {
                self.piece.positions = new_pos;
                assert(self@ == old(self)@.painted(cells_of(from), Color::Black).with_cells(
                    target,
                ));
                self.show(&new_pos, tint);
                return true;
            }
        } else {
            let ghost n = choose|n: int| 0 <= n < 4 && !old(self)@.in_bounds(#[trigger] target[n]);
            assert(!old(self)@.is_valid(target[n]));
        }
        self.show(&from, tint);
        false
    }

    /// Settles the piece where it is: its cells become filled and show
    /// its colour, and that they show it is recorded where changes are
    /// being recorded.
    pub fn settle(&mut self)
        requires
            old(self).wf(),
        ensures
            final(self).wf(),
            final(self)@ == old(self)@.settled(),
    {
        let ghost before = self@;
        let ghost all = before.piece.cells;
        let tint = self.piece.color;
        proof {
            lemma_paint_step(before.color, all, 0, tint);
            lemma_mark_step(before.filled, all, 0);
            if let Some(changes) = before.changes {
                lemma_record_step(changes, all, 0, tint);
            }
        }
        let mut k: usize = 0;
        while k < 4
            invariant
                k <= 4,
                self.wf(),
                before.wf(),
                all == before.piece.cells,
                tint == before.piece.color,
                self@.piece == before.piece,
                self@.lines == before.lines,
                self@.width == before.width,
                self@.changes == before.painted(all.take(k as int), tint).changes,
                self@.color == paint(before.color, all.take(k as int), tint),
                self@.filled == mark(before.filled, all.take(k as int)),
            decreases 4 - k,
        {
            let (i, j) = self.piece.positions[k];
            proof {
                assert(all[k as int] == (i as int, j as int));
                assert(before.in_bounds(all[k as int]));
                self.lemma_line(i as int);
                lemma_paint_step(before.color, all, k as int, tint);
                lemma_mark_step(before.filled, all, k as int);
                if let Some(changes) = before.changes {
                    lemma_record_step(changes, all, k as int, tint);
                }
            }
            self.filled[i][j] = true;
            self.color[i][j] = tint;
            match &mut self.changes {
                ChangeSet::Diff(map) => {
                    map.insert((i, j), tint);
                },
                ChangeSet::FullRedraw => {},
            }
            assert(self@.color =~= paint(before.color, all.take(k as int + 1), tint));
            assert(self@.filled =~= mark(before.filled, all.take(k as int + 1)));
            k += 1;
        }
        assert(all.take(4) =~= all);
    }

    /// One step without the new piece that follows a landing: begins a
    /// new record of changes, clears the full lines, does what the
    /// command asks, and lets the piece fall by one line or, where it
    /// cannot fall, settles it. Says whether the piece settled.
    pub fn advance(&mut self, input: Input) -> (landed: bool)
        requires
            old(self).wf(),
        ensures
            final(self).wf(),
            landed == old(self)@.lands(input),
            final(self)@ == old(self)@.stepped(input),
            final(self)@.lines == old(self)@.lines,
            final(self)@.width == old(self)@.width,
    {
        self.changes = ChangeSet::Diff(CellMap::new());
        assert(self@ == old(self)@.begun());
        self.check_for_lines();
        match input {
            Input::Left => {
                self.move_left();
            },
            Input::Right => {
                self.move_right();
            },
            Input::Down => {
                self.move_down();
            },
            Input::Up => {
                self.rotate();
            },
            Input::Idle => {},
        }
        assert(self@ == old(self)@.before_fall(input));
        if self.move_down() {
            false
        } else {
            self.settle();
            true
        }
    }

    /// One step: clears the full lines, does what the command asks, and
    /// lets the piece fall by one line. A piece that cannot fall settles,
    /// and a new piece is looked for with draws from `chance`; where none
    /// finds room the game is over and the field stays as the settled
    /// piece left it. No draw is taken while the piece falls; after a
    /// landing the draws of one search are taken, on the field as the
    /// settled piece left it, and the new piece is the one that the
    /// search makes of them.
    pub fn tick_with<C: Chance>(&mut self, input: Input, chance: &mut C) -> (outcome: Outcome)
        requires
            old(self).wf(),
        ensures
            final(self).wf(),
            final(self)@.lines == old(self)@.lines,
            final(self)@.width == old(self)@.width,
            old(self)@.may_step_to(input, outcome, final(self)@),
            old(chance).drawn().is_prefix_of(final(chance).drawn()),
            !old(self)@.lands(input) ==> final(chance).drawn() == old(chance).drawn(),
            old(self)@.lands(input) ==> old(self)@.stepped(input).search_gives(
                final(chance).drawn().skip(old(chance).drawn().len() as int),
                match outcome {
                    Outcome::Landed => Some(final(self)@.piece),
                    _ => None,
                },
            ),
    {
        if !self.advance(input) {
            assert(chance.drawn().is_prefix_of(chance.drawn()));
            return Outcome::Falling;
        }
        match self.generate_piece_with(chance) {
            Some(val) => {
                let ghost sought = self@;
                self.piece = val;
                proof {
                    sought.lemma_admits(val@.cells, self@);
                }
                Outcome::Landed
            },
            None => Outcome::BoardFull,
        }
    }

    /// One step, a new piece being looked for with draws from the random
    /// number generator of the thread.
    pub fn tick(&mut self, input: Input) -> (outcome: Outcome)
        requires
            old(self).wf(),
        ensures
            final(self).wf(),
            final(self)@.lines == old(self)@.lines,
            final(self)@.width == old(self)@.width,
            old(self)@.may_step_to(input, outcome, final(self)@),
    {
        let mut chance = ThreadChance::new();
        self.tick_with(input, &mut chance)
    }

    /// The colour shown at each cell, line by line.
    pub fn color(&self) -> (color: &Vec<Vec<Color>>)
        ensures
            lines_of(*color) == self@.color,
    {
        &self.color
    }

    /// Which cells are settled, line by line.
    pub fn filled(&self) -> (filled: &Vec<Vec<bool>>)
        ensures
            lines_of(*filled) == self@.filled,
    {
        &self.filled
    }

    /// The active piece.
    pub fn piece(&self) -> (piece: Piece)
        ensures
            piece@ == self@.piece,
    {
        self.piece
    }

    /// The cells whose colour changed in the last step, or the word that
    /// everything is to be drawn again.
    pub fn changes(&self) -> (changes: &ChangeSet)
        ensures
            changes@ == self@.changes,
            self.wf() ==> changes.wf(),
    {
        &self.changes
    }
}

/// Adds a signed step to a coordinate. There is no result where the sum is
/// negative or does not fit the type.
pub fn try_add(lhs: usize, rhs: i32) -> (result: Option<usize>)
    ensures
        result == (if 0 <= lhs + rhs <= usize::MAX {
            Some((lhs + rhs) as usize)
        } else {
            None
        }),
{
    lhs.checked_add_signed(rhs as isize)
}

} // verus!
