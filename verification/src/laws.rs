use vstd::prelude::*;
use crate::color::Color;
use crate::grid::{Input, RETRY_CAP};
use crate::model::{GridView, PieceView, blank, full, full_count, lemma_none_full, survivors};
use crate::shape::{catalogue, non_negative, shifted, turned};

verus! {

/// Where no line is full, the count of full lines is zero.
pub proof fn lemma_no_full_line(filled: Seq<Seq<bool>>)
    requires
        forall|i: int| 0 <= i < filled.len() ==> !full(#[trigger] filled[i]),
    ensures
        full_count(filled) == 0,
    decreases filled.len(),
{
    if filled.len() > 0 {
        assert(!full(filled[filled.len() - 1]));
        assert forall|i: int| 0 <= i < filled.drop_last().len() implies !full(
            #[trigger] filled.drop_last()[i],
        ) by {
            assert(filled.drop_last()[i] == filled[i]);
        }
        lemma_no_full_line(filled.drop_last());
    }
}

/// A cell is refused exactly when it is off the field or settled.
pub proof fn lemma_valid_cell(grid: GridView, at: (int, int))
    ensures
        !grid.is_valid(at) <==> (!grid.in_bounds(at) || grid.filled[at.0][at.1]),
{
}

/// A move that is refused leaves the field as it was: the piece, the
/// colours, the settled cells and the record of changes.
pub proof fn lemma_refused_move(grid: GridView, dx: int, dy: int)
    requires
        !grid.can_move(dx, dy),
    ensures
        grid.moved(dx, dy) == grid,
{
}

/// A move that is made takes each cell of the piece by `(dx, dy)`, shows
/// the piece at the cells it takes, and keeps its colour and the settled
/// cells.
pub proof fn lemma_made_move(grid: GridView, dx: int, dy: int, k: int)
    requires
        grid.wf(),
        grid.can_move(dx, dy),
        0 <= k < 4,
    ensures
        grid.moved(dx, dy).wf(),
        grid.moved(dx, dy).piece.cells[k] == (
            grid.piece.cells[k].0 + dx,
            grid.piece.cells[k].1 + dy,
        ),
        grid.moved(dx, dy).piece.color == grid.piece.color,
        grid.moved(dx, dy).filled == grid.filled,
        grid.moved(dx, dy).color[grid.piece.cells[k].0 + dx][grid.piece.cells[k].1 + dy]
            == grid.piece.color,
{
    let target = shifted(grid.piece.cells, dx, dy);
    let after = grid.moved(dx, dy);
    assert forall|n: int| 0 <= n < 4 implies after.in_bounds(#[trigger] after.piece.cells[n]) by {
        assert(grid.is_valid(target[n]));
    }
    assert(grid.is_valid(target[k]));
    assert(target.contains(target[k]));
}

/// After the piece settled, each of its cells is filled and shows its
/// colour, and every other cell is as it was; where changes are being
/// recorded, the cells of the piece are recorded with its colour.
pub proof fn lemma_settled(grid: GridView, i: int, j: int)
    requires
        grid.wf(),
        0 <= i < grid.lines,
        0 <= j < grid.width,
    ensures
        grid.settled().wf(),
        grid.piece.cells.contains((i, j)) ==> grid.settled().filled[i][j]
            && grid.settled().color[i][j] == grid.piece.color,
        !grid.piece.cells.contains((i, j)) ==> grid.settled().filled[i][j] == grid.filled[i][j]
            && grid.settled().color[i][j] == grid.color[i][j],
        grid.settled().piece == grid.piece,
        grid.settled().changes == grid.painted(grid.piece.cells, grid.piece.color).changes,
        grid.changes.is_some() ==> grid.settled().changes.is_some(),
        grid.changes.is_some() && grid.piece.cells.contains((i, j)) ==> {
            &&& grid.settled().changes.unwrap().contains_key((i, j))
            &&& grid.settled().changes.unwrap()[(i, j)] == grid.piece.color
        },
        grid.changes.is_some() && !grid.piece.cells.contains((i, j)) ==> {
            grid.settled().changes.unwrap().contains_key((i, j))
                <==> grid.changes.unwrap().contains_key((i, j))
        },
{
    let after = grid.settled();
    assert forall|n: int| 0 <= n < 4 implies after.in_bounds(#[trigger] after.piece.cells[n]) by {
        assert(grid.in_bounds(grid.piece.cells[n]));
    }
}

/// Turning twice about the first cell gives the cells back.
pub proof fn lemma_turned_twice(cells: Seq<(int, int)>)
    ensures
        turned(turned(cells)) == cells,
{
    assert(turned(turned(cells)) =~= cells);
}

/// A piece that may turn has no turned cell with a negative coordinate.
pub proof fn lemma_valid_turn(grid: GridView)
    requires
        grid.can_rotate(),
    ensures
        non_negative(turned(grid.piece.cells)),
{
    let target = turned(grid.piece.cells);
    assert forall|k: int| 0 <= k < target.len() implies (#[trigger] target[k]).0 >= 0
        && target[k].1 >= 0 by {
        assert(grid.is_valid(target[k]));
    }
}

/// A turn takes each cell `(x, y)` of a piece whose first cell is
/// `(x0, y0)` to `(y + x0 - y0, x + y0 - x0)`, and keeps the colour of
/// the piece and the settled cells.
pub proof fn lemma_turn_about_first(grid: GridView, k: int)
    requires
        grid.wf(),
        grid.can_rotate(),
        0 <= k < 4,
    ensures
        grid.rotated().piece.cells.len() == 4,
        grid.rotated().piece.cells[k] == (
            grid.piece.cells[k].1 + grid.piece.cells[0].0 - grid.piece.cells[0].1,
            grid.piece.cells[k].0 + grid.piece.cells[0].1 - grid.piece.cells[0].0,
        ),
        grid.rotated().piece.cells[0] == grid.piece.cells[0],
        grid.rotated().piece.color == grid.piece.color,
        grid.rotated().filled == grid.filled,
{
    lemma_valid_turn(grid);
}

/// A turn that is refused leaves the cells of the piece where they were.
pub proof fn lemma_refused_turn(grid: GridView)
    requires
        !grid.can_rotate(),
    ensures
        grid.rotated().piece == grid.piece,
        grid.rotated().filled == grid.filled,
{
}

/// Four turns in a row, none of them refused, bring the piece back to the
/// cells it had.
pub proof fn lemma_four_turns(grid: GridView)
    requires
        grid.wf(),
        grid.can_rotate(),
        grid.rotated().can_rotate(),
        grid.rotated().rotated().can_rotate(),
        grid.rotated().rotated().rotated().can_rotate(),
    ensures
        grid.rotated().rotated().rotated().rotated().piece == grid.piece,
{
    let one = grid.rotated();
    let two = one.rotated();
    let three = two.rotated();
    let four = three.rotated();
    lemma_valid_turn(grid);
    lemma_valid_turn(one);
    lemma_valid_turn(two);
    lemma_valid_turn(three);
    assert(two.piece.cells =~= grid.piece.cells);
    assert(four.piece.cells =~= two.piece.cells);
}

/// Clearing a field that has no full line changes nothing, the record of
/// changes included.
pub proof fn lemma_clear_nothing(grid: GridView)
    requires
        grid.wf(),
        forall|i: int| 0 <= i < grid.lines ==> !full(#[trigger] grid.filled[i]),
    ensures
        grid.cleared() == grid,
{
    lemma_no_full_line(grid.filled);
    lemma_none_full(grid.filled, grid.filled);
    lemma_none_full(grid.filled, grid.color);
    assert(blank(0, grid.width, false) + grid.filled =~= grid.filled);
    assert(blank(0, grid.width, Color::Black) + grid.color =~= grid.color);
}

/// Clearing a field whose last line is full, and no other, keeps the
/// number of lines, leaves the top line empty and black, brings every
/// other line down by one, and asks for a full redraw.
pub proof fn lemma_clear_last_line(grid: GridView)
    requires
        grid.wf(),
        full(grid.filled[grid.lines - 1]),
        forall|i: int| 0 <= i < grid.lines - 1 ==> !full(#[trigger] grid.filled[i]),
    ensures
        grid.cleared().wf(),
        grid.cleared().filled.len() == grid.lines,
        grid.cleared().color.len() == grid.lines,
        forall|j: int| 0 <= j < grid.width ==> !(#[trigger] grid.cleared().filled[0][j]),
        forall|j: int|
            0 <= j < grid.width ==> #[trigger] grid.cleared().color[0][j] == Color::Black,
        forall|i: int|
            1 <= i < grid.lines ==> #[trigger] grid.cleared().filled[i] == grid.filled[i - 1],
        forall|i: int|
            1 <= i < grid.lines ==> #[trigger] grid.cleared().color[i] == grid.color[i - 1],
        grid.cleared().changes.is_none(),
        grid.cleared().piece == grid.piece,
{
    let upper = grid.filled.drop_last();
    let upper_color = grid.color.drop_last();
    assert forall|i: int| 0 <= i < upper.len() implies !full(#[trigger] upper[i]) by {
        assert(upper[i] == grid.filled[i]);
    }
    lemma_no_full_line(upper);
    lemma_none_full(upper, upper);
    lemma_none_full(upper, upper_color);
    assert(grid.filled.last() == grid.filled[grid.lines - 1]);
    assert(full_count(grid.filled) == 1);
    assert(survivors(grid.filled, grid.filled) == upper);
    assert(survivors(grid.filled, grid.color) == upper_color);
    let after = grid.cleared();
    assert(after.filled =~= blank(1, grid.width, false) + upper);
    assert(after.color =~= blank(1, grid.width, Color::Black) + upper_color);
    assert forall|i: int| 0 <= i < after.lines implies (#[trigger] after.filled[i]).len()
        == after.width by {
        if i >= 1 {
            assert(after.filled[i] == grid.filled[i - 1]);
        }
    }
    assert forall|i: int| 0 <= i < after.lines implies (#[trigger] after.color[i]).len()
        == after.width by {
        if i >= 1 {
            assert(after.color[i] == grid.color[i - 1]);
        }
    }
    assert forall|k: int| 0 <= k < 4 implies after.in_bounds(#[trigger] after.piece.cells[k]) by {
        assert(grid.in_bounds(grid.piece.cells[k]));
    }
}

/// A field whose every cell is settled has room for no shape.
pub proof fn lemma_no_room(grid: GridView)
    requires
        grid.wf(),
        forall|i: int, j: int|
            0 <= i < grid.lines && 0 <= j < grid.width ==> #[trigger] grid.filled[i][j],
    ensures
        !grid.can_spawn(),
{
    assert forall|kind: int, place: int| 0 <= kind < 10 && 0 <= place < grid.width implies
        !grid.validate(#[trigger] catalogue(kind, (0, place))) by {
        let cells = catalogue(kind, (0, place));
        assert(cells.len() == 4);
        if grid.in_bounds(cells[0]) {
            assert(grid.filled[cells[0].0][cells[0].1]);
        }
        assert(!grid.is_valid(cells[0]));
    }
}

/// An empty field has room for a shape exactly when the square, the
/// upright line or the flat line fits: when it has two lines of two
/// cells, or four lines, or lines of four cells.
pub proof fn lemma_room_on_empty(grid: GridView)
    requires
        grid.wf(),
        forall|i: int, j: int|
            0 <= i < grid.lines && 0 <= j < grid.width ==> !(#[trigger] grid.filled[i][j]),
    ensures
        grid.can_spawn() <==> (grid.lines >= 2 && grid.width >= 2) || grid.lines >= 4 || grid.width
            >= 4,
{
    if grid.lines >= 2 && grid.width >= 2 {
        let cells = catalogue(0, (0, 0));
        assert forall|k: int| 0 <= k < cells.len() implies grid.is_valid(#[trigger] cells[k]) by {
            assert(!grid.filled[cells[k].0][cells[k].1]);
        }
        assert(grid.validate(catalogue(0, (0, 0))));
    } else if grid.lines >= 4 {
        let cells = catalogue(4, (0, 0));
        assert forall|k: int| 0 <= k < cells.len() implies grid.is_valid(#[trigger] cells[k]) by {
            assert(!grid.filled[cells[k].0][cells[k].1]);
        }
        assert(grid.validate(catalogue(4, (0, 0))));
    } else if grid.width >= 4 {
        let cells = catalogue(5, (0, 0));
        assert forall|k: int| 0 <= k < cells.len() implies grid.is_valid(#[trigger] cells[k]) by {
            assert(!grid.filled[cells[k].0][cells[k].1]);
        }
        assert(grid.validate(catalogue(5, (0, 0))));
    } else {
        assert forall|kind: int, place: int| 0 <= kind < 10 && 0 <= place < grid.width implies
            !grid.validate(#[trigger] catalogue(kind, (0, place))) by {
            let cells = catalogue(kind, (0, place));
            if grid.validate(cells) {
                assert(grid.is_valid(cells[0]));
                assert(grid.is_valid(cells[1]));
                assert(grid.is_valid(cells[2]));
                assert(grid.is_valid(cells[3]));
            }
        }
    }
}

/// What a search for a new piece gives is decided by the draws that it
/// takes: of the same draws it makes the same piece, or none.
pub proof fn lemma_search_decided(
    grid: GridView,
    draws: Seq<int>,
    one: Option<PieceView>,
    other: Option<PieceView>,
)
    requires
        grid.search_gives(draws, one),
        grid.search_gives(draws, other),
    ensures
        one == other,
{
}

/// A piece that a search gives is one that the field admits, in a colour
/// of red, green and blue; so a search on a field that has room for no
/// shape gives none.
pub proof fn lemma_search_admitted(grid: GridView, draws: Seq<int>, found: PieceView)
    requires
        grid.width > 0,
        grid.search_gives(draws, Some(found)),
    ensures
        grid.admits(found.cells),
        grid.can_spawn(),
        found.color is Rgb,
{
    let n = (draws.len() - 5) / 2;
    let kind = draws[2 * n + 1] % 10;
    let place = draws[2 * n] % (grid.width as int);
    assert(found.cells == catalogue(kind, (0, place)));
    assert(grid.validate(catalogue(kind, (0, place))));
}

/// On every field some try has no room: the square at the last place
/// of a line. So a search owes a piece to no field: where each of its
/// tries draws that place and that shape, it ends without one.
pub proof fn lemma_search_may_fail(grid: GridView)
    requires
        grid.wf(),
    ensures
        !grid.validate(grid.placement(grid.width - 1, 0)),
        grid.search_gives(
            Seq::new(
                (2 * (RETRY_CAP + 1)) as nat,
                |i: int|
                    if i % 2 == 0 {
                        grid.width - 1
                    } else {
                        0
                    },
            ),
            None,
        ),
{
    let cells = grid.placement(grid.width - 1, 0);
    let last = grid.width - 1;
    let width = grid.width as int;
    assert(last % width == last) by (nonlinear_arith)
        requires
            0 <= last < width,
    ;
    assert(cells == catalogue(0, (0, grid.width - 1)));
    assert(cells[2] == (0int, grid.width as int));
    assert(!grid.is_valid(cells[2]));
    let draws = Seq::new(
        (2 * (RETRY_CAP + 1)) as nat,
        |i: int|
            if i % 2 == 0 {
                grid.width - 1
            } else {
                0
            },
    );
    assert forall|i: int| 0 <= i < RETRY_CAP + 1 implies !grid.validate(
        #[trigger] grid.try_at(draws, i),
    ) by {
        assert(grid.try_at(draws, i) == cells);
    }
}

/// Showing cells of the field in a colour keeps the record of changes
/// true to the colours shown.
pub proof fn lemma_painted_true(
    grid: GridView,
    base: Seq<Seq<Color>>,
    cells: Seq<(int, int)>,
    c: Color,
)
    requires
        grid.wf(),
        grid.record_true_to(base),
        forall|k: int| 0 <= k < cells.len() ==> grid.in_bounds(#[trigger] cells[k]),
    ensures
        grid.painted(cells, c).wf(),
        grid.painted(cells, c).record_true_to(base),
{
    let after = grid.painted(cells, c);
    let was = grid.changes.unwrap();
    let now = after.changes.unwrap();
    assert forall|n: int| 0 <= n < 4 implies after.in_bounds(#[trigger] after.piece.cells[n]) by {
        assert(grid.in_bounds(grid.piece.cells[n]));
    }
    assert forall|at: (int, int)| #[trigger] now.contains_key(at) implies after.in_bounds(at)
        && now[at] == after.color[at.0][at.1] by {
        if cells.contains(at) {
            let k = choose|k: int| 0 <= k < cells.len() && cells[k] == at;
            assert(grid.in_bounds(cells[k]));
        } else {
            assert(was.contains_key(at));
        }
    }
    assert forall|i: int, j: int|
        0 <= i < after.lines && 0 <= j < after.width && after.color[i][j]
            != base[i][j] implies #[trigger] now.contains_key((i, j)) by {
        if !cells.contains((i, j)) {
            assert(was.contains_key((i, j)));
        }
    }
}

/// A move, made or refused, keeps the record of changes true to the
/// colours shown.
pub proof fn lemma_moved_true(grid: GridView, base: Seq<Seq<Color>>, dx: int, dy: int)
    requires
        grid.wf(),
        grid.record_true_to(base),
    ensures
        grid.moved(dx, dy).wf(),
        grid.moved(dx, dy).record_true_to(base),
{
    if grid.can_move(dx, dy) {
        let target = shifted(grid.piece.cells, dx, dy);
        assert forall|k: int| 0 <= k < target.len() implies grid.in_bounds(#[trigger] target[k]) by {
            assert(grid.is_valid(target[k]));
        }
        lemma_painted_true(grid, base, grid.piece.cells, Color::Black);
        let blanked = grid.painted(grid.piece.cells, Color::Black).with_cells(target);
        lemma_painted_true(blanked, base, target, grid.piece.color);
    }
}

/// A turn, made or refused, keeps the record of changes true to the
/// colours shown.
pub proof fn lemma_rotated_true(grid: GridView, base: Seq<Seq<Color>>)
    requires
        grid.wf(),
        grid.record_true_to(base),
    ensures
        grid.rotated().wf(),
        grid.rotated().record_true_to(base),
{
    let target = turned(grid.piece.cells);
    if non_negative(target) {
        lemma_painted_true(grid, base, grid.piece.cells, Color::Black);
        let blanked = grid.painted(grid.piece.cells, Color::Black);
        if grid.validate(target) {
            assert forall|k: int| 0 <= k < target.len() implies grid.in_bounds(
                #[trigger] target[k],
            ) by {
                assert(grid.is_valid(target[k]));
            }
            lemma_painted_true(blanked.with_cells(target), base, target, grid.piece.color);
        } else {
            lemma_painted_true(blanked, base, grid.piece.cells, grid.piece.color);
        }
    }
}

/// After a step that began with no full line, the record of changes is
/// true to the colours shown, held against the colours shown before the
/// step: each cell that it names is on the field and shows the colour
/// that the record gives, and each cell that shows another colour than
/// before the step is named.
pub proof fn lemma_record_true(grid: GridView, input: Input)
    requires
        grid.wf(),
        forall|i: int| 0 <= i < grid.lines ==> !full(#[trigger] grid.filled[i]),
    ensures
        grid.stepped(input).wf(),
        grid.stepped(input).record_true_to(grid.color),
{
    let base = grid.color;
    let begun = grid.begun();
    assert(begun.record_true_to(base));
    assert forall|n: int| 0 <= n < 4 implies begun.in_bounds(#[trigger] begun.piece.cells[n]) by {
        assert(grid.in_bounds(grid.piece.cells[n]));
    }
    lemma_clear_nothing(begun);
    match input {
        Input::Left => lemma_moved_true(begun, base, 0, -1),
        Input::Right => lemma_moved_true(begun, base, 0, 1),
        Input::Down => lemma_moved_true(begun, base, 1, 0),
        Input::Up => lemma_rotated_true(begun, base),
        Input::Idle => {},
    }
    let ready = grid.before_fall(input);
    if grid.lands(input) {
        lemma_painted_true(ready, base, ready.piece.cells, ready.piece.color);
        let shown = ready.painted(ready.piece.cells, ready.piece.color);
        let after = ready.settled();
        assert(after.color == shown.color && after.changes == shown.changes);
        assert forall|i: int| 0 <= i < after.lines implies (#[trigger] after.filled[i]).len()
            == after.width by {
            assert(ready.filled[i].len() == ready.width);
        }
    } else {
        lemma_moved_true(ready, base, 1, 0);
    }
}

/// After a step there is a record of changes exactly when no line was
/// full at its beginning; otherwise everything is to be drawn again.
pub proof fn lemma_record_or_redraw(grid: GridView, input: Input)
    ensures
        grid.stepped(input).changes.is_some() <==> full_count(grid.filled) == 0,
{
}

} // verus!
