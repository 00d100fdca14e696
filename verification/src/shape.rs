use vstd::prelude::*;
use crate::grid::Grid;

verus! {

/// The cells of a piece as mathematical coordinates, in the order held.
pub open spec fn cells_of(positions: [(usize, usize); 4]) -> Seq<(int, int)> {
    Seq::new(4, |k: int| (positions[k].0 as int, positions[k].1 as int))
}

/// Every cell moved by `(dx, dy)`.
pub open spec fn shifted(cells: Seq<(int, int)>, dx: int, dy: int) -> Seq<(int, int)> {
    Seq::new(cells.len(), |k: int| (cells[k].0 + dx, cells[k].1 + dy))
}

/// Every cell turned about the first one: a cell `(x, y)` of a piece whose
/// first cell is `(x0, y0)` goes to `(y + x0 - y0, x + y0 - x0)`.
pub open spec fn turned(cells: Seq<(int, int)>) -> Seq<(int, int)> {
    Seq::new(
        cells.len(),
        |k: int| (cells[k].1 + cells[0].0 - cells[0].1, cells[k].0 + cells[0].1 - cells[0].0),
    )
}

/// No cell has a negative coordinate.
pub open spec fn non_negative(cells: Seq<(int, int)>) -> bool {
    forall|k: int| 0 <= k < cells.len() ==> (#[trigger] cells[k]).0 >= 0 && cells[k].1 >= 0
}

/// A line of four along the first coordinate.
pub open spec fn line_at(o: (int, int)) -> Seq<(int, int)> {
    seq![(o.0, o.1), (o.0 + 1, o.1), (o.0 + 2, o.1), (o.0 + 3, o.1)]
}

/// A line of four along the second coordinate.
pub open spec fn line_v_at(o: (int, int)) -> Seq<(int, int)> {
    seq![(o.0, o.1), (o.0, o.1 + 1), (o.0, o.1 + 2), (o.0, o.1 + 3)]
}

/// Three cells in the second line and the first cell of the line above them.
pub open spec fn l_at(o: (int, int)) -> Seq<(int, int)> {
    seq![(o.0 + 1, o.1), (o.0 + 1, o.1 + 1), (o.0 + 1, o.1 + 2), (o.0, o.1)]
}

/// Three cells in the first line and the first cell of the line below them.
pub open spec fn l_v_at(o: (int, int)) -> Seq<(int, int)> {
    seq![(o.0, o.1), (o.0, o.1 + 1), (o.0, o.1 + 2), (o.0 + 1, o.1)]
}

/// Three cells along the first coordinate and one beside the middle one.
pub open spec fn t_at(o: (int, int)) -> Seq<(int, int)> {
    seq![(o.0, o.1), (o.0 + 1, o.1), (o.0 + 2, o.1), (o.0 + 1, o.1 + 1)]
}

/// Three cells along the second coordinate and one below the middle one.
pub open spec fn t_v_at(o: (int, int)) -> Seq<(int, int)> {
    seq![(o.0, o.1), (o.0, o.1 + 1), (o.0, o.1 + 2), (o.0 + 1, o.1 + 1)]
}

/// Two cells in the first line and two in the second, one place further on.
pub open spec fn s_at(o: (int, int)) -> Seq<(int, int)> {
    seq![(o.0, o.1), (o.0, o.1 + 1), (o.0 + 1, o.1 + 1), (o.0 + 1, o.1 + 2)]
}

/// Two cells in the first column and two in the second, one line further down.
pub open spec fn s_v_at(o: (int, int)) -> Seq<(int, int)> {
    seq![(o.0, o.1), (o.0 + 1, o.1), (o.0 + 1, o.1 + 1), (o.0 + 2, o.1 + 1)]
}

/// Two cells by two.
pub open spec fn square_at(o: (int, int)) -> Seq<(int, int)> {
    seq![(o.0, o.1), (o.0 + 1, o.1), (o.0, o.1 + 1), (o.0 + 1, o.1 + 1)]
}

/// The catalogue of shapes by number, the square standing twice in it.
/// Numbers are taken modulo ten.
pub open spec fn catalogue(kind: int, o: (int, int)) -> Seq<(int, int)> {
    let k = kind % 10;
    if k == 0 || k == 1 {
        square_at(o)
    } else if k == 2 {
        l_at(o)
    } else if k == 3 {
        l_v_at(o)
    } else if k == 4 {
        line_at(o)
    } else if k == 5 {
        line_v_at(o)
    } else if k == 6 {
        t_at(o)
    } else if k == 7 {
        t_v_at(o)
    } else if k == 8 {
        s_at(o)
    } else {
        s_v_at(o)
    }
}

/// The offset leaves room for the widest shape without leaving `usize`.
pub open spec fn has_room(offset: (usize, usize)) -> bool {
    offset.0 <= usize::MAX - 3 && offset.1 <= usize::MAX - 3
}

impl Grid {
    /// The cells of [`line_at`] at `offset`.
    pub fn generate_line(offset: (usize, usize)) -> (cells: [(usize, usize); 4])
        requires
            has_room(offset),
        ensures
            cells_of(cells) == line_at((offset.0 as int, offset.1 as int)),
    {
        let cells = [
            (offset.0, offset.1),
            (offset.0 + 1, offset.1),
            (offset.0 + 2, offset.1),
            (offset.0 + 3, offset.1),
        ];
        assert(cells_of(cells) =~= line_at((offset.0 as int, offset.1 as int)));
        cells
    }

    /// The cells of [`line_v_at`] at `offset`.
    pub fn generate_line_v(offset: (usize, usize)) -> (cells: [(usize, usize); 4])
        requires
            has_room(offset),
        ensures
            cells_of(cells) == line_v_at((offset.0 as int, offset.1 as int)),
    {
        let cells = [
            (offset.0, offset.1),
            (offset.0, offset.1 + 1),
            (offset.0, offset.1 + 2),
            (offset.0, offset.1 + 3),
        ];
        assert(cells_of(cells) =~= line_v_at((offset.0 as int, offset.1 as int)));
        cells
    }

    /// The cells of [`l_at`] at `offset`.
    pub fn generate_l(offset: (usize, usize)) -> (cells: [(usize, usize); 4])
        requires
            has_room(offset),
        ensures
            cells_of(cells) == l_at((offset.0 as int, offset.1 as int)),
    {
        let cells = [
            (offset.0 + 1, offset.1),
            (offset.0 + 1, offset.1 + 1),
            (offset.0 + 1, offset.1 + 2),
            (offset.0, offset.1),
        ];
        assert(cells_of(cells) =~= l_at((offset.0 as int, offset.1 as int)));
        cells
    }

    /// The cells of [`l_v_at`] at `offset`.
    pub fn generate_l_v(offset: (usize, usize)) -> (cells: [(usize, usize); 4])
        requires
            has_room(offset),
        ensures
            cells_of(cells) == l_v_at((offset.0 as int, offset.1 as int)),
    {
        let cells = [
            (offset.0, offset.1),
            (offset.0, offset.1 + 1),
            (offset.0, offset.1 + 2),
            (offset.0 + 1, offset.1),
        ];
        assert(cells_of(cells) =~= l_v_at((offset.0 as int, offset.1 as int)));
        cells
    }

    /// The cells of [`t_at`] at `offset`.
    pub fn generate_t(offset: (usize, usize)) -> (cells: [(usize, usize); 4])
        requires
            has_room(offset),
        ensures
            cells_of(cells) == t_at((offset.0 as int, offset.1 as int)),
    {
        let cells = [
            (offset.0, offset.1),
            (offset.0 + 1, offset.1),
            (offset.0 + 2, offset.1),
            (offset.0 + 1, offset.1 + 1),
        ];
        assert(cells_of(cells) =~= t_at((offset.0 as int, offset.1 as int)));
        cells
    }

    /// The cells of [`t_v_at`] at `offset`.
    pub fn generate_t_v(offset: (usize, usize)) -> (cells: [(usize, usize); 4])
        requires
            has_room(offset),
        ensures
            cells_of(cells) == t_v_at((offset.0 as int, offset.1 as int)),
    {
        let cells = [
            (offset.0, offset.1),
            (offset.0, offset.1 + 1),
            (offset.0, offset.1 + 2),
            (offset.0 + 1, offset.1 + 1),
        ];
        assert(cells_of(cells) =~= t_v_at((offset.0 as int, offset.1 as int)));
        cells
    }

    /// The cells of [`s_at`] at `offset`.
    pub fn generate_s(offset: (usize, usize)) -> (cells: [(usize, usize); 4])
        requires
            has_room(offset),
        ensures
            cells_of(cells) == s_at((offset.0 as int, offset.1 as int)),
    {
        let cells = [
            (offset.0, offset.1),
            (offset.0, offset.1 + 1),
            (offset.0 + 1, offset.1 + 1),
            (offset.0 + 1, offset.1 + 2),
        ];
        assert(cells_of(cells) =~= s_at((offset.0 as int, offset.1 as int)));
        cells
    }

    /// The cells of [`s_v_at`] at `offset`.
    pub fn generate_s_v(offset: (usize, usize)) -> (cells: [(usize, usize); 4])
        requires
            has_room(offset),
        ensures
            cells_of(cells) == s_v_at((offset.0 as int, offset.1 as int)),
    {
        let cells = [
            (offset.0, offset.1),
            (offset.0 + 1, offset.1),
            (offset.0 + 1, offset.1 + 1),
            (offset.0 + 2, offset.1 + 1),
        ];
        assert(cells_of(cells) =~= s_v_at((offset.0 as int, offset.1 as int)));
        cells
    }

    /// The cells of [`square_at`] at `offset`.
    pub fn generate_square(offset: (usize, usize)) -> (cells: [(usize, usize); 4])
        requires
            has_room(offset),
        ensures
            cells_of(cells) == square_at((offset.0 as int, offset.1 as int)),
    {
        let cells = [
            (offset.0, offset.1),
            (offset.0 + 1, offset.1),
            (offset.0, offset.1 + 1),
            (offset.0 + 1, offset.1 + 1),
        ];
        assert(cells_of(cells) =~= square_at((offset.0 as int, offset.1 as int)));
        cells
    }

    /// The shape that the catalogue has under `kind`, set at `offset`.
    pub fn shape(kind: u8, offset: (usize, usize)) -> (cells: [(usize, usize); 4])
        requires
            has_room(offset),
        ensures
            cells_of(cells) == catalogue(kind as int, (offset.0 as int, offset.1 as int)),
    {
        match kind % 10 {
            0 | 1 => Grid::generate_square(offset),
            2 => Grid::generate_l(offset),
            3 => Grid::generate_l_v(offset),
            4 => Grid::generate_line(offset),
            5 => Grid::generate_line_v(offset),
            6 => Grid::generate_t(offset),
            7 => Grid::generate_t_v(offset),
            8 => Grid::generate_s(offset),
            _ => Grid::generate_s_v(offset),
        }
    }
}

} // verus!
