use vstd::prelude::*;
use crate::color::Color;
use crate::grid::{Input, Outcome, Piece, RETRY_CAP};
use crate::shape::{catalogue, non_negative, shifted, turned};

verus! {

/// The colours of a grid after `cells` were given the colour `c`.
pub open spec fn paint(color: Seq<Seq<Color>>, cells: Seq<(int, int)>, c: Color) -> Seq<
    Seq<Color>,
> {
    Seq::new(
        color.len(),
        |i: int|
            Seq::new(
                color[i].len(),
                |j: int|
                    if cells.contains((i, j)) {
                        c
                    } else {
                        color[i][j]
                    },
            ),
    )
}

/// The settled cells of a grid after `cells` were added to them.
pub open spec fn mark(filled: Seq<Seq<bool>>, cells: Seq<(int, int)>) -> Seq<Seq<bool>> {
    Seq::new(
        filled.len(),
        |i: int| Seq::new(filled[i].len(), |j: int| cells.contains((i, j)) || filled[i][j]),
    )
}

/// A record of changes after `cells` were given the colour `c`.
pub open spec fn record(changes: Map<(int, int), Color>, cells: Seq<(int, int)>, c: Color) -> Map<
    (int, int),
    Color,
> {
    Map::new(
        |at: (int, int)| cells.contains(at) || changes.contains_key(at),
        |at: (int, int)|
            if cells.contains(at) {
                c
            } else {
                changes[at]
            },
    )
}

/// Among the first `k + 1` cells are those among the first `k`, and the
/// `k`-th.
pub proof fn lemma_take_one_more(cells: Seq<(int, int)>, k: int)
    requires
        0 <= k < cells.len(),
    ensures
        forall|at: (int, int)|
            cells.take(k + 1).contains(at) <==> (cells.take(k).contains(at) || at == cells[k]),
{
    let done = cells.take(k);
    let more = cells.take(k + 1);
    assert forall|at: (int, int)| more.contains(at) <==> (done.contains(at) || at == cells[k]) by {
        if more.contains(at) {
            let n = choose|n: int| 0 <= n < more.len() && more[n] == at;
            if n < k {
                assert(done[n] == at);
            }
        }
        if done.contains(at) {
            let n = choose|n: int| 0 <= n < done.len() && done[n] == at;
            assert(more[n] == at);
        }
        assert(more[k] == cells[k]);
    }
}

/// Painting no cell changes nothing, and painting one cell more is one
/// update of the grid.
pub proof fn lemma_paint_step(color: Seq<Seq<Color>>, cells: Seq<(int, int)>, k: int, c: Color)
    requires
        0 <= k < cells.len(),
        0 <= cells[k].0 < color.len(),
        0 <= cells[k].1 < color[cells[k].0].len(),
    ensures
        paint(color, cells.take(0), c) == color,
        paint(color, cells.take(k + 1), c) == paint(color, cells.take(k), c).update(
            cells[k].0,
            paint(color, cells.take(k), c)[cells[k].0].update(cells[k].1, c),
        ),
{
    lemma_take_one_more(cells, k);
    assert(paint(color, cells.take(0), c) =~~= color);
    let was = paint(color, cells.take(k), c);
    let want = paint(color, cells.take(k + 1), c);
    let got = was.update(cells[k].0, was[cells[k].0].update(cells[k].1, c));
    assert forall|a: int| 0 <= a < want.len() implies #[trigger] want[a] =~= got[a] by {
        assert forall|b: int| 0 <= b < want[a].len() implies want[a][b] == got[a][b] by {
            assert(cells.take(k + 1).contains((a, b)) <==> (cells.take(k).contains((a, b)) || (a, b)
                == cells[k]));
        }
    }
    assert(want =~= got);
}

/// Marking no cell changes nothing, and marking one cell more is one
/// update of the grid.
pub proof fn lemma_mark_step(filled: Seq<Seq<bool>>, cells: Seq<(int, int)>, k: int)
    requires
        0 <= k < cells.len(),
        0 <= cells[k].0 < filled.len(),
        0 <= cells[k].1 < filled[cells[k].0].len(),
    ensures
        mark(filled, cells.take(0)) == filled,
        mark(filled, cells.take(k + 1)) == mark(filled, cells.take(k)).update(
            cells[k].0,
            mark(filled, cells.take(k))[cells[k].0].update(cells[k].1, true),
        ),
{
    lemma_take_one_more(cells, k);
    assert(mark(filled, cells.take(0)) =~~= filled);
    let was = mark(filled, cells.take(k));
    let want = mark(filled, cells.take(k + 1));
    let got = was.update(cells[k].0, was[cells[k].0].update(cells[k].1, true));
    assert forall|a: int| 0 <= a < want.len() implies #[trigger] want[a] =~= got[a] by {
        assert forall|b: int| 0 <= b < want[a].len() implies want[a][b] == got[a][b] by {
            assert(cells.take(k + 1).contains((a, b)) <==> (cells.take(k).contains((a, b)) || (a, b)
                == cells[k]));
        }
    }
    assert(want =~= got);
}

/// Recording no cell changes nothing, and recording one cell more is one
/// insertion into the record.
pub proof fn lemma_record_step(
    changes: Map<(int, int), Color>,
    cells: Seq<(int, int)>,
    k: int,
    c: Color,
)
    requires
        0 <= k < cells.len(),
    ensures
        record(changes, cells.take(0), c) == changes,
        record(changes, cells.take(k + 1), c) == record(changes, cells.take(k), c).insert(
            cells[k],
            c,
        ),
{
    lemma_take_one_more(cells, k);
    assert(record(changes, cells.take(0), c) =~= changes);
    let want = record(changes, cells.take(k + 1), c);
    let got = record(changes, cells.take(k), c).insert(cells[k], c);
    assert forall|at: (int, int)| want.contains_key(at) <==> got.contains_key(at) by {
        assert(cells.take(k + 1).contains(at) <==> (cells.take(k).contains(at) || at == cells[k]));
    }
    assert forall|at: (int, int)| want.contains_key(at) implies want[at] == got[at] by {
        assert(cells.take(k + 1).contains(at) <==> (cells.take(k).contains(at) || at == cells[k]));
    }
    assert(want =~= got);
}

/// Every cell of the line is settled.
pub open spec fn full(line: Seq<bool>) -> bool {
    forall|j: int| 0 <= j < line.len() ==> line[j]
}

/// How many of the lines are full.
pub open spec fn full_count(filled: Seq<Seq<bool>>) -> nat
    decreases filled.len(),
{
    if filled.len() == 0 {
        0
    } else {
        full_count(filled.drop_last()) + if full(filled.last()) {
            1nat
        } else {
            0nat
        }
    }
}

/// The lines of `data` at which `filled` has a line that is not full, in
/// their order.
pub open spec fn survivors<T>(filled: Seq<Seq<bool>>, data: Seq<Seq<T>>) -> Seq<Seq<T>>
    decreases data.len(),
{
    if data.len() == 0 || filled.len() != data.len() {
        Seq::empty()
    } else if full(filled.last()) {
        survivors(filled.drop_last(), data.drop_last())
    } else {
        survivors(filled.drop_last(), data.drop_last()).push(data.last())
    }
}

/// `count` lines of `width` cells, each holding `value`.
pub open spec fn blank<T>(count: nat, width: nat, value: T) -> Seq<Seq<T>> {
    Seq::new(count, |i: int| Seq::new(width, |j: int| value))
}

/// Taking a full line out changes neither which lines survive nor their
/// order, and leaves one full line fewer.
pub proof fn lemma_remove_full<T>(filled: Seq<Seq<bool>>, data: Seq<Seq<T>>, at: int)
    requires
        filled.len() == data.len(),
        0 <= at < filled.len(),
        full(filled[at]),
    ensures
        survivors(filled.remove(at), data.remove(at)) == survivors(filled, data),
        full_count(filled.remove(at)) + 1 == full_count(filled),
    decreases filled.len(),
{
    if at == filled.len() - 1 {
        assert(filled.remove(at) =~= filled.drop_last());
        assert(data.remove(at) =~= data.drop_last());
    } else {
        lemma_remove_full(filled.drop_last(), data.drop_last(), at);
        assert(filled.remove(at).drop_last() =~= filled.drop_last().remove(at));
        assert(data.remove(at).drop_last() =~= data.drop_last().remove(at));
        assert(filled.remove(at).last() == filled.last());
        assert(data.remove(at).last() == data.last());
    }
}

/// Where no line is full, every line survives.
pub proof fn lemma_none_full<T>(filled: Seq<Seq<bool>>, data: Seq<Seq<T>>)
    requires
        filled.len() == data.len(),
        full_count(filled) == 0,
    ensures
        survivors(filled, data) == data,
    decreases filled.len(),
{
    if filled.len() > 0 {
        lemma_none_full(filled.drop_last(), data.drop_last());
        assert(data.drop_last().push(data.last()) =~= data);
    } else {
        assert(data =~= Seq::empty());
    }
}

/// Counting the full lines one line further.
pub proof fn lemma_full_count_step(filled: Seq<Seq<bool>>, upto: int)
    requires
        0 <= upto < filled.len(),
    ensures
        full_count(filled.take(upto + 1)) == full_count(filled.take(upto)) + if full(
            filled[upto],
        ) {
            1nat
        } else {
            0nat
        },
{
    assert(filled.take(upto + 1).drop_last() =~= filled.take(upto));
    assert(filled.take(upto + 1).last() == filled[upto]);
}

/// The active piece as mathematics sees it.
pub struct PieceView {
    pub cells: Seq<(int, int)>,
    pub color: Color,
}

/// The playfield as mathematics sees it. The first coordinate of a cell
/// counts the lines, from line 0 at the top, and pieces fall along it; the
/// second counts the cells within a line.
pub struct GridView {
    /// How many lines there are.
    pub lines: nat,
    /// How many cells a line has.
    pub width: nat,
    pub filled: Seq<Seq<bool>>,
    pub color: Seq<Seq<Color>>,
    pub piece: PieceView,
    /// The cells whose colour changed in this step; `None` where the whole
    /// field has to be drawn again.
    pub changes: Option<Map<(int, int), Color>>,
}

impl GridView {
    pub open spec fn in_bounds(self, at: (int, int)) -> bool {
        0 <= at.0 < self.lines && 0 <= at.1 < self.width
    }

    /// Both grids have `lines` lines of `width` cells, and the piece has
    /// four cells, all of them on the field.
    pub open spec fn wf(self) -> bool {
        &&& self.lines > 0
        &&& self.width > 0
        &&& self.filled.len() == self.lines
        &&& self.color.len() == self.lines
        &&& forall|i: int| 0 <= i < self.lines ==> (#[trigger] self.filled[i]).len() == self.width
        &&& forall|i: int| 0 <= i < self.lines ==> (#[trigger] self.color[i]).len() == self.width
        &&& self.piece.cells.len() == 4
        &&& forall|k: int| 0 <= k < 4 ==> self.in_bounds(#[trigger] self.piece.cells[k])
    }

    /// A cell is valid when it is on the field and not settled.
    pub open spec fn is_valid(self, at: (int, int)) -> bool {
        self.in_bounds(at) && !self.filled[at.0][at.1]
    }

    /// Every one of the cells is valid.
    pub open spec fn validate(self, cells: Seq<(int, int)>) -> bool {
        forall|k: int| 0 <= k < cells.len() ==> self.is_valid(#[trigger] cells[k])
    }

    /// The field after `cells` were shown in the colour `c`, the change
    /// recorded where changes are being recorded.
    pub open spec fn painted(self, cells: Seq<(int, int)>, c: Color) -> GridView {
        GridView {
            color: paint(self.color, cells, c),
            changes: match self.changes {
                Some(changes) => Some(record(changes, cells, c)),
                None => None,
            },
            ..self
        }
    }

    /// The same field with the piece at `cells`.
    pub open spec fn with_cells(self, cells: Seq<(int, int)>) -> GridView {
        GridView { piece: PieceView { cells, color: self.piece.color }, ..self }
    }

    /// The same field with another piece.
    pub open spec fn with_piece(self, piece: PieceView) -> GridView {
        GridView { piece, ..self }
    }

    /// The piece may move by `(dx, dy)`: every cell it would take is valid.
    pub open spec fn can_move(self, dx: int, dy: int) -> bool {
        self.validate(shifted(self.piece.cells, dx, dy))
    }

    /// The field after an attempt to move the piece by `(dx, dy)`. A move
    /// that is not possible changes nothing. One that is blanks the cells
    /// that the piece leaves and shows it at those it takes.
    pub open spec fn moved(self, dx: int, dy: int) -> GridView {
        if self.can_move(dx, dy) {
            let target = shifted(self.piece.cells, dx, dy);
            self.painted(self.piece.cells, Color::Black).with_cells(target).painted(
                target,
                self.piece.color,
            )
        } else {
            self
        }
    }

    /// The piece may turn: every cell it would take is valid.
    pub open spec fn can_rotate(self) -> bool {
        self.validate(turned(self.piece.cells))
    }

    /// The field after an attempt to turn the piece about its first cell.
    /// Where a turned cell would have a negative coordinate, nothing
    /// changes. Where the turned cells are not all valid, the piece stays
    /// and is shown again where it is. Otherwise the cells it leaves are
    /// blanked and it is shown at those it takes.
    pub open spec fn rotated(self) -> GridView {
        let target = turned(self.piece.cells);
        if !non_negative(target) {
            self
        } else if self.validate(target) {
            self.painted(self.piece.cells, Color::Black).with_cells(target).painted(
                target,
                self.piece.color,
            )
        } else {
            self.painted(self.piece.cells, Color::Black).painted(
                self.piece.cells,
                self.piece.color,
            )
        }
    }

    /// The field after its full lines were taken out and as many empty
    /// lines were put on top. Where a line was taken out the record of
    /// changes gives way to a full redraw.
    pub open spec fn cleared(self) -> GridView {
        let n = full_count(self.filled);
        GridView {
            filled: blank(n, self.width, false) + survivors(self.filled, self.filled),
            color: blank(n, self.width, Color::Black) + survivors(self.filled, self.color),
            changes: if n > 0 {
                None
            } else {
                self.changes
            },
            ..self
        }
    }

    /// The field with an empty record of changes.
    pub open spec fn begun(self) -> GridView {
        GridView { changes: Some(Map::empty()), ..self }
    }

    /// The field after the command's own action.
    pub open spec fn acted(self, input: Input) -> GridView {
        match input {
            Input::Left => self.moved(0, -1),
            Input::Right => self.moved(0, 1),
            Input::Down => self.moved(1, 0),
            Input::Up => self.rotated(),
            Input::Idle => self,
        }
    }

    /// The field after the piece settled where it is: its cells are
    /// filled and show its colour, and that they show it is recorded
    /// where changes are being recorded.
    pub open spec fn settled(self) -> GridView {
        GridView {
            filled: mark(self.filled, self.piece.cells),
            ..self.painted(self.piece.cells, self.piece.color)
        }
    }

    /// The record of changes is true to the colours shown, held against
    /// the colours `base` that were shown when it was begun: each cell
    /// that it names is on the field and shows the colour that the
    /// record gives, and each cell that shows another colour than in
    /// `base` is named.
    pub open spec fn record_true_to(self, base: Seq<Seq<Color>>) -> bool {
        &&& self.changes.is_some()
        &&& forall|at: (int, int)| #[trigger]
            self.changes.unwrap().contains_key(at) ==> self.in_bounds(at)
                && self.changes.unwrap()[at] == self.color[at.0][at.1]
        &&& forall|i: int, j: int|
            0 <= i < self.lines && 0 <= j < self.width && self.color[i][j] != base[i][j]
                ==> #[trigger] self.changes.unwrap().contains_key((i, j))
    }

    /// The field as the step's gravity finds it: changes begun, lines
    /// cleared, the command's action done.
    pub open spec fn before_fall(self, input: Input) -> GridView {
        self.begun().cleared().acted(input)
    }

    /// The piece comes to rest in this step: after the command's action it
    /// cannot fall by one line.
    pub open spec fn lands(self, input: Input) -> bool {
        !self.before_fall(input).can_move(1, 0)
    }

    /// The field after one step, up to the new piece that follows a
    /// landing: the piece has fallen by one line, or it has settled.
    pub open spec fn stepped(self, input: Input) -> GridView {
        if self.lands(input) {
            self.before_fall(input).settled()
        } else {
            self.before_fall(input).moved(1, 0)
        }
    }

    /// The cells of one try at a new piece: the shape that the catalogue
    /// has under `kind`, set at the top line at the place `draw` taken
    /// modulo the width.
    pub open spec fn placement(self, draw: int, kind: int) -> Seq<(int, int)> {
        catalogue(kind, (0, draw % (self.width as int)))
    }

    /// `cells` is a shape of the catalogue, set at the top line at some
    /// place within the width, and all its cells are valid.
    pub open spec fn admits(self, cells: Seq<(int, int)>) -> bool {
        exists|kind: int, place: int|
            0 <= kind < 10 && 0 <= place < self.width && cells == #[trigger] catalogue(
                kind,
                (0, place),
            ) && self.validate(cells)
    }

    /// Some shape of the catalogue can enter the field.
    pub open spec fn can_spawn(self) -> bool {
        exists|kind: int, place: int|
            0 <= kind < 10 && 0 <= place < self.width && self.validate(
                #[trigger] catalogue(kind, (0, place)),
            )
    }

    /// The cells of the try with the number `n`, counted from zero, in a
    /// record of draws in which each try drew its place and then its kind.
    pub open spec fn try_at(self, draws: Seq<int>, n: int) -> Seq<(int, int)> {
        self.placement(draws[2 * n], draws[2 * n + 1])
    }

    /// None of the first `n` tries in the record of draws has room.
    pub open spec fn no_room_in(self, draws: Seq<int>, n: int) -> bool {
        forall|i: int| 0 <= i < n ==> !self.validate(#[trigger] self.try_at(draws, i))
    }

    /// What a search for a new piece makes of the draws that it takes.
    /// Each try takes two draws, its place and its kind, and the search
    /// ends with the first try that has room: it then takes three more
    /// draws, and the piece has the cells of that try and the colour of
    /// these draws as its red, green and blue. The search makes no more
    /// tries than one and the retries allowed, and has no piece where
    /// none of them has room.
    pub open spec fn search_gives(self, draws: Seq<int>, found: Option<PieceView>) -> bool {
        match found {
            Some(piece) => {
                let n = (draws.len() - 5) / 2;
                &&& draws.len() == 2 * n + 5
                &&& 0 <= n <= RETRY_CAP
                &&& self.no_room_in(draws, n)
                &&& self.validate(self.try_at(draws, n))
                &&& piece.cells == self.try_at(draws, n)
                &&& piece.color == (Color::Rgb {
                    r: draws[2 * n + 2] as u8,
                    g: draws[2 * n + 3] as u8,
                    b: draws[2 * n + 4] as u8,
                })
            },
            None => draws.len() == 2 * (RETRY_CAP + 1) && self.no_room_in(draws, RETRY_CAP + 1),
        }
    }

    /// The empty field of `w` lines, each of `h` cells, before its first
    /// piece is looked for.
    pub open spec fn vacant(w: nat, h: nat) -> GridView {
        GridView {
            lines: w,
            width: h,
            filled: blank(w, h, false),
            color: blank(w, h, Color::Black),
            piece: PieceView { cells: Seq::new(4, |k: int| (0int, 0int)), color: Color::Black },
            changes: None,
        }
    }

    /// What a search for a new piece may give on this field: a shape that
    /// the field admits, in a colour of red, green and blue; or, where
    /// every try found no room, nothing. On a field that has room for no
    /// shape it gives nothing.
    pub open spec fn may_find(self, spawned: Option<Piece>) -> bool {
        match spawned {
            Some(piece) => self.admits(piece@.cells) && piece.color is Rgb,
            None => true,
        }
    }

    /// This is a field of `w` lines, each of `h` cells, as it is made:
    /// empty and black, everything to be drawn, with a first piece that
    /// it admits.
    pub open spec fn is_new(self, w: nat, h: nat) -> bool {
        &&& self.lines == w
        &&& self.width == h
        &&& self.filled == blank(w, h, false)
        &&& self.color == blank(w, h, Color::Black)
        &&& self.changes.is_none()
        &&& self.admits(self.piece.cells)
        &&& self.piece.color is Rgb
    }

    /// What a step with the command may leave of this field. Where the
    /// piece does not land it has fallen, and the field is the one after
    /// the step. Where it lands, either a new piece that the field admits
    /// has taken its place on the field after the step, or none was
    /// found and the field after the step stays; none is found where the
    /// field has room for no shape.
    pub open spec fn may_step_to(self, input: Input, outcome: Outcome, after: GridView) -> bool {
        if self.lands(input) {
            match outcome {
                Outcome::Landed => {
                    &&& after == self.stepped(input).with_piece(after.piece)
                    &&& self.stepped(input).admits(after.piece.cells)
                    &&& after.piece.color is Rgb
                    &&& self.stepped(input).can_spawn()
                },
                Outcome::BoardFull => after == self.stepped(input),
                Outcome::Falling => false,
            }
        } else {
            outcome == Outcome::Falling && after == self.stepped(input)
        }
    }

    /// A shape that a field admits has four cells, all of them valid, and
    /// a field with the same settled cells admits it too.
    pub proof fn lemma_admits(self, cells: Seq<(int, int)>, other: GridView)
        requires
            self.admits(cells),
            other.lines == self.lines,
            other.width == self.width,
            other.filled == self.filled,
        ensures
            cells.len() == 4,
            self.validate(cells),
            forall|k: int| 0 <= k < 4 ==> self.in_bounds(#[trigger] cells[k]),
            other.admits(cells),
            self.can_spawn(),
    {
        let (kind, place) = choose|kind: int, place: int|
            0 <= kind < 10 && 0 <= place < self.width && cells == #[trigger] catalogue(
                kind,
                (0, place),
            ) && self.validate(cells);
        assert(cells == catalogue(kind, (0, place)));
        assert forall|k: int| 0 <= k < cells.len() implies other.is_valid(#[trigger] cells[k]) by {
            assert(self.is_valid(cells[k]));
        }
        assert(other.validate(catalogue(kind, (0, place))));
        assert forall|k: int| 0 <= k < 4 implies self.in_bounds(#[trigger] cells[k]) by {
            assert(self.is_valid(cells[k]));
        }
    }
}

} // verus!
