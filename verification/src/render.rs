use vstd::prelude::*;
use crate::changes::{ChangeSet, entries_map};
use crate::color::Color;
use crate::frame::{Frame, FrameLocation, StyledView};
use crate::grid::lines_of;

verus! {

/// The place on the terminal where a cell is shown: its line is the row
/// and its place in the line the column, each cut to sixteen bits.
pub open spec fn place_on_screen(at: (usize, usize)) -> FrameLocation {
    FrameLocation(at.0 as u16, at.1 as u16)
}

/// How a cell of the colour is shown: as one space on that colour.
pub open spec fn block(color: Color) -> StyledView {
    StyledView { text: seq![' '], fg: Some(Color::Black), bg: Some(color) }
}

/// What the entries of a record of changes show, each drawn over those
/// before it.
pub open spec fn drawn_changes(entries: Seq<((usize, usize), Color)>) -> Map<
    FrameLocation,
    StyledView,
>
    decreases entries.len(),
{
    if entries.len() == 0 {
        Map::empty()
    } else {
        drawn_changes(entries.drop_last()).insert(
            place_on_screen(entries.last().0),
            block(entries.last().1),
        )
    }
}

/// What the first `upto` cells of the line `row` show, drawn over `under`.
pub open spec fn drawn_line(
    under: Map<FrameLocation, StyledView>,
    row: usize,
    line: Seq<Color>,
    upto: nat,
) -> Map<FrameLocation, StyledView>
    decreases upto,
{
    if upto == 0 {
        under
    } else {
        drawn_line(under, row, line, (upto - 1) as nat).insert(
            place_on_screen((row, (upto - 1) as usize)),
            block(line[upto - 1]),
        )
    }
}

/// What the first `upto` lines of a field show, each cell drawn over
/// those before it.
pub open spec fn drawn_field(color: Seq<Seq<Color>>, upto: nat) -> Map<FrameLocation, StyledView>
    decreases upto,
{
    if upto == 0 {
        Map::empty()
    } else {
        drawn_line(
            drawn_field(color, (upto - 1) as nat),
            (upto - 1) as usize,
            color[upto - 1],
            color[upto - 1].len(),
        )
    }
}

/// Where no coordinate is cut, the record of changes is shown as it is:
/// a block at each cell that it names, in the colour that it gives.
pub proof fn lemma_drawn_changes(entries: Seq<((usize, usize), Color)>)
    requires
        forall|i: int|
            0 <= i < entries.len() ==> (#[trigger] entries[i]).0.0 <= u16::MAX && entries[i].0.1
                <= u16::MAX,
    ensures
        drawn_changes(entries) == Map::new(
            |at: FrameLocation| entries_map(entries).contains_key((at.0 as int, at.1 as int)),
            |at: FrameLocation| block(entries_map(entries)[(at.0 as int, at.1 as int)]),
        ),
    decreases entries.len(),
{
    let direct = Map::new(
        |at: FrameLocation| entries_map(entries).contains_key((at.0 as int, at.1 as int)),
        |at: FrameLocation| block(entries_map(entries)[(at.0 as int, at.1 as int)]),
    );
    if entries.len() > 0 {
        let front = entries.drop_last();
        assert forall|i: int| 0 <= i < front.len() implies (#[trigger] front[i]).0.0 <= u16::MAX
            && front[i].0.1 <= u16::MAX by {
            assert(front[i] == entries[i]);
        }
        lemma_drawn_changes(front);
        let last = entries[entries.len() - 1];
        assert(last.0.0 <= u16::MAX && last.0.1 <= u16::MAX);
        assert(drawn_changes(entries) =~= direct);
    } else {
        assert(drawn_changes(entries) =~= direct);
    }
}

/// Where no coordinate is cut, the first cells of a line are shown as
/// they are, over what was there.
pub proof fn lemma_drawn_line(
    under: Map<FrameLocation, StyledView>,
    row: usize,
    line: Seq<Color>,
    upto: nat,
)
    requires
        row <= u16::MAX,
        upto <= line.len() <= u16::MAX + 1,
    ensures
        drawn_line(under, row, line, upto) == Map::new(
            |at: FrameLocation| (at.0 == row && at.1 < upto) || under.contains_key(at),
            |at: FrameLocation|
                if at.0 == row && at.1 < upto {
                    block(line[at.1 as int])
                } else {
                    under[at]
                },
        ),
    decreases upto,
{
    let direct = Map::new(
        |at: FrameLocation| (at.0 == row && at.1 < upto) || under.contains_key(at),
        |at: FrameLocation|
            if at.0 == row && at.1 < upto {
                block(line[at.1 as int])
            } else {
                under[at]
            },
    );
    if upto > 0 {
        lemma_drawn_line(under, row, line, (upto - 1) as nat);
    }
    assert(drawn_line(under, row, line, upto) =~= direct);
}

/// Where no coordinate is cut, the first lines of a field are shown as
/// they are: a block at each cell, in its colour.
pub proof fn lemma_drawn_field(color: Seq<Seq<Color>>, upto: nat)
    requires
        upto <= color.len() <= u16::MAX + 1,
        forall|i: int| 0 <= i < color.len() ==> (#[trigger] color[i]).len() <= u16::MAX + 1,
    ensures
        drawn_field(color, upto) == Map::new(
            |at: FrameLocation| at.0 < upto && at.1 < color[at.0 as int].len(),
            |at: FrameLocation| block(color[at.0 as int][at.1 as int]),
        ),
    decreases upto,
{
    let direct = Map::new(
        |at: FrameLocation| at.0 < upto && at.1 < color[at.0 as int].len(),
        |at: FrameLocation| block(color[at.0 as int][at.1 as int]),
    );
    if upto > 0 {
        lemma_drawn_field(color, (upto - 1) as nat);
        lemma_drawn_line(
            drawn_field(color, (upto - 1) as nat),
            (upto - 1) as usize,
            color[upto - 1],
            color[upto - 1].len(),
        );
    }
    assert(drawn_field(color, upto) =~= direct);
}

/// The frame that brings a display up to date: a block for each cell of
/// the record of changes, in the order of its entries, or, where
/// everything is to be drawn again, a block for each cell of the field,
/// line by line.
pub fn draw(changes: &ChangeSet, color: &Vec<Vec<Color>>) -> (frame: Frame)
    ensures
        frame.wf(),
        frame@ == match changes {
            ChangeSet::Diff(map) => drawn_changes(map.listing()),
            ChangeSet::FullRedraw => drawn_field(lines_of(*color), color@.len()),
        },
{
    proof {
        reveal_strlit(" ");
        assert(" "@ =~= seq![' ']);
    }
    let mut f = Frame::empty();
    match changes {
        ChangeSet::Diff(map) => {
            let mut i: usize = 0;
            while i < map.len()
                invariant
                    i <= map.listing().len(),
                    f.wf(),
                    " "@ == seq![' '],
                    f@ == drawn_changes(map.listing().take(i as int)),
                decreases map.listing().len() - i,
            {
                let ((x_pos, y_pos), tint) = map.entry(i);
                f.add(
                    " ",
                    #[verifier::truncate]
                    (x_pos as u16),
                    #[verifier::truncate]
                    (y_pos as u16),
                    Color::Black,
                    tint,
                );
                proof {
                    let more = map.listing().take(i as int + 1);
                    assert(more.drop_last() =~= map.listing().take(i as int));
                    assert(more.last() == map.listing()[i as int]);
                }
                i += 1;
            }
            assert(map.listing().take(i as int) =~= map.listing());
        },
        ChangeSet::FullRedraw => {
            let mut i: usize = 0;
            while i < color.len()
                invariant
                    i <= color@.len(),
                    f.wf(),
                    " "@ == seq![' '],
                    f@ == drawn_field(lines_of(*color), i as nat),
                decreases color@.len() - i,
            {
                let line = &color[i];
                let ghost under = f@;
                let mut j: usize = 0;
                while j < line.len()
                    invariant
                        i < color@.len(),
                        line@ == lines_of(*color)[i as int],
                        j <= line@.len(),
                        f.wf(),
                        " "@ == seq![' '],
                        f@ == drawn_line(under, i, line@, j as nat),
                    decreases line@.len() - j,
                {
                    f.add(
                        " ",
                        #[verifier::truncate]
                        (i as u16),
                        #[verifier::truncate]
                        (j as u16),
                        Color::Black,
                        line[j],
                    );
                    j += 1;
                }
                i += 1;
            }
        },
    }
    f
}

} // verus!
