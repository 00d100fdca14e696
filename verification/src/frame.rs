use std::cmp::Ordering;
use vstd::prelude::*;
use vstd::std_specs::cmp::PartialOrdSpecImpl;
use crate::color::Color;

verus! {

/// A place on the terminal: its row, then its column.
#[derive(PartialEq, Eq, Hash, Clone, Copy, Debug, Ord, Structural)]
pub struct FrameLocation(pub u16, pub u16);

impl PartialOrd for FrameLocation {
    /// Rows order the places; within a row, columns do.
    fn partial_cmp(&self, other: &Self) -> (order: Option<Ordering>) {
        Some(
            match self.0.cmp(&other.0) {
                Ordering::Less => Ordering::Less,
                Ordering::Equal => self.1.cmp(&other.1),
                Ordering::Greater => Ordering::Greater,
            },
        )
    }
}

impl PartialOrdSpecImpl for FrameLocation {
    open spec fn obeys_partial_cmp_spec() -> bool {
        true
    }

    open spec fn partial_cmp_spec(&self, other: &FrameLocation) -> Option<Ordering> {
        if before(*self, *other) {
            Some(Ordering::Less)
        } else if *self == *other {
            Some(Ordering::Equal)
        } else {
            Some(Ordering::Greater)
        }
    }
}

/// `a` comes before `b`: it is in an earlier row, or in the same row at an
/// earlier column.
pub open spec fn before(a: FrameLocation, b: FrameLocation) -> bool {
    a.0 < b.0 || (a.0 == b.0 && a.1 < b.1)
}

/// What `String::push` does: it appends the character to the text.
pub assume_specification[ String::push ](text: &mut String, ch: char)
    ensures
        final(text)@ == old(text)@.push(ch),
;

/// A text of one style: its foreground and background colour, where it
/// has any.
#[derive(Debug, PartialEq, Eq)]
pub struct Styled {
    pub text: String,
    pub fg: Option<Color>,
    pub bg: Option<Color>,
}

/// A styled text as mathematics sees it.
pub struct StyledView {
    pub text: Seq<char>,
    pub fg: Option<Color>,
    pub bg: Option<Color>,
}

impl Styled {
    pub open spec fn view(&self) -> StyledView {
        StyledView { text: self.text@, fg: self.fg, bg: self.bg }
    }
}

/// The entries stand in the order of their places, no place twice.
pub open spec fn ascending(entries: Seq<(FrameLocation, Styled)>) -> bool {
    forall|i: int, j: int|
        0 <= i < j < entries.len() ==> before((#[trigger] entries[i]).0, (#[trigger] entries[j]).0)
}

/// An entry stands at the place.
pub open spec fn holds(entries: Seq<(FrameLocation, Styled)>, at: FrameLocation) -> bool {
    exists|i: int| 0 <= i < entries.len() && (#[trigger] entries[i]).0 == at
}

/// Where an entry stands at the place, the index of one.
pub open spec fn index_of(entries: Seq<(FrameLocation, Styled)>, at: FrameLocation) -> int {
    choose|i: int| 0 <= i < entries.len() && (#[trigger] entries[i]).0 == at
}

/// The map from places to styled texts that the entries stand for.
pub open spec fn content_map(entries: Seq<(FrameLocation, Styled)>) -> Map<
    FrameLocation,
    StyledView,
> {
    Map::new(
        |at: FrameLocation| holds(entries, at),
        |at: FrameLocation| entries[index_of(entries, at)].1@,
    )
}

/// Among ascending entries each place has one index.
pub proof fn lemma_content_at(entries: Seq<(FrameLocation, Styled)>, i: int)
    requires
        ascending(entries),
        0 <= i < entries.len(),
    ensures
        holds(entries, entries[i].0),
        index_of(entries, entries[i].0) == i,
        content_map(entries)[entries[i].0] == entries[i].1@,
{
    let j = index_of(entries, entries[i].0);
    assert(entries[j].0 == entries[i].0);
    if j < i {
        assert(before(entries[j].0, entries[i].0));
    }
    if i < j {
        assert(before(entries[i].0, entries[j].0));
    }
}

/// Putting an entry in place of the one that stands at its place, or where
/// its place is in the order, is an insertion into the map.
pub proof fn lemma_content_put(
    entries: Seq<(FrameLocation, Styled)>,
    i: int,
    entry: (FrameLocation, Styled),
    after: Seq<(FrameLocation, Styled)>,
)
    requires
        ascending(entries),
        0 <= i <= entries.len(),
        forall|k: int| 0 <= k < i ==> before((#[trigger] entries[k]).0, entry.0),
        i < entries.len() ==> !before(entries[i].0, entry.0),
        after == (if i < entries.len() && entries[i].0 == entry.0 {
            entries.update(i, entry)
        } else {
            entries.insert(i, entry)
        }),
    ensures
        ascending(after),
        content_map(after) == content_map(entries).insert(entry.0, entry.1@),
{
    let replaced = i < entries.len() && entries[i].0 == entry.0;
    assert forall|a: int, b: int| 0 <= a < b < after.len() implies before(
        (#[trigger] after[a]).0,
        (#[trigger] after[b]).0,
    ) by {
        if replaced {
            assert(after[a].0 == entries[a].0 && after[b].0 == entries[b].0);
        } else {
            let a0 = if a < i {
                a
            } else {
                a - 1
            };
            let b0 = if b < i {
                b
            } else {
                b - 1
            };
            if a == i {
                assert(after[b] == entries[b0]);
                assert(!before(entries[i].0, entry.0));
                if b0 > i {
                    assert(before(entries[i].0, entries[b0].0));
                }
            } else if b == i {
                assert(after[a] == entries[a0]);
            } else {
                assert(after[a] == entries[a0] && after[b] == entries[b0]);
            }
        }
    }
    assert(after[i] == entry);
    lemma_content_at(after, i);
    assert forall|at: FrameLocation|
        holds(after, at) <==> (at == entry.0 || holds(entries, at)) by {
        if holds(after, at) && at != entry.0 {
            let k = index_of(after, at);
            let k0 = if replaced || k < i {
                k
            } else {
                k - 1
            };
            assert(entries[k0] == after[k]);
        }
        if holds(entries, at) && at != entry.0 {
            let k0 = index_of(entries, at);
            let k = if replaced || k0 < i {
                k0
            } else {
                k0 + 1
            };
            assert(after[k] == entries[k0]);
        }
    }
    assert forall|at: FrameLocation| holds(after, at) implies #[trigger] content_map(after)[at]
        == content_map(entries).insert(entry.0, entry.1@)[at] by {
        if at != entry.0 {
            let k0 = index_of(entries, at);
            let k = if replaced || k0 < i {
                k0
            } else {
                k0 + 1
            };
            assert(after[k] == entries[k0]);
            lemma_content_at(after, k);
            lemma_content_at(entries, k0);
        }
    }
    assert(content_map(after) =~= content_map(entries).insert(entry.0, entry.1@));
}

/// Taking an entry out takes its place out of the map.
pub proof fn lemma_content_remove(entries: Seq<(FrameLocation, Styled)>, i: int)
    requires
        ascending(entries),
        0 <= i < entries.len(),
    ensures
        ascending(entries.remove(i)),
        content_map(entries.remove(i)) == content_map(entries).remove(entries[i].0),
{
    let after = entries.remove(i);
    assert forall|a: int, b: int| 0 <= a < b < after.len() implies before(
        (#[trigger] after[a]).0,
        (#[trigger] after[b]).0,
    ) by {
        let a0 = if a < i {
            a
        } else {
            a + 1
        };
        let b0 = if b < i {
            b
        } else {
            b + 1
        };
        assert(after[a] == entries[a0] && after[b] == entries[b0]);
    }
    lemma_content_at(entries, i);
    assert forall|at: FrameLocation| holds(after, at) <==> (at != entries[i].0 && holds(
        entries,
        at,
    )) by {
        if holds(after, at) {
            let k = index_of(after, at);
            let k0 = if k < i {
                k
            } else {
                k + 1
            };
            assert(entries[k0] == after[k]);
            lemma_content_at(entries, k0);
        }
        if holds(entries, at) && at != entries[i].0 {
            let k0 = index_of(entries, at);
            let k = if k0 < i {
                k0
            } else {
                k0 - 1
            };
            assert(after[k] == entries[k0]);
        }
    }
    assert forall|at: FrameLocation| holds(after, at) implies #[trigger] content_map(after)[at]
        == content_map(entries)[at] by {
        let k0 = index_of(entries, at);
        let k = if k0 < i {
            k0
        } else {
            k0 - 1
        };
        assert(after[k] == entries[k0]);
        lemma_content_at(after, k);
        lemma_content_at(entries, k0);
    }
    assert(content_map(after) =~= content_map(entries).remove(entries[i].0));
}

/// A text of `count` times the character `ch`.
pub fn repeated(ch: char, count: usize) -> (text: String)
    ensures
        text@ == Seq::new(count as nat, |i: int| ch),
{
    let mut text = String::new();
    let mut i: usize = 0;
    while i < count
        invariant
            i <= count,
            text@ == Seq::new(i as nat, |k: int| ch),
        decreases count - i,
    {
        text.push(ch);
        assert(text@ =~= Seq::new((i + 1) as nat, |k: int| ch));
        i += 1;
    }
    text
}

/// What is to be shown on a terminal: styled texts, each of one line, at
/// the places where they begin. They are shown in the order of their
/// places, so that a text further right covers what a text to its left
/// wrote there.
#[derive(Debug)]
pub struct Frame {
    content: Vec<(FrameLocation, Styled)>,
}

impl Frame {
    /// The text that begins at each place.
    pub closed spec fn view(&self) -> Map<FrameLocation, StyledView> {
        content_map(self.content@)
    }

    /// The texts with their places, in the order in which they are shown.
    pub closed spec fn listing(&self) -> Seq<(FrameLocation, Styled)> {
        self.content@
    }

    /// The texts stand in the order of their places, no place twice.
    pub closed spec fn wf(&self) -> bool {
        ascending(self.content@)
    }

    /// What the listing and the map have to do with each other.
    pub proof fn lemma_listing(&self)
        requires
            self.wf(),
        ensures
            ascending(self.listing()),
            self@ == content_map(self.listing()),
    {
    }

    /// A frame that shows nothing.
    pub fn empty() -> (frame: Frame)
        ensures
            frame.wf(),
            frame@ == Map::<FrameLocation, StyledView>::empty(),
            frame.listing().len() == 0,
    {
        let frame = Frame { content: Vec::new() };
        assert(frame@ =~= Map::<FrameLocation, StyledView>::empty());
        frame
    }

    /// Sets the text that begins at `at`, in place of the one that began
    /// there if there was one.
    fn put(&mut self, at: FrameLocation, item: Styled)
        requires
            old(self).wf(),
        ensures
            final(self).wf(),
            final(self)@ == old(self)@.insert(at, item@),
    {
        let mut i: usize = 0;
        while i < self.content.len() && self.content[i].0 < at
            invariant
                *self == *old(self),
                i <= self.content@.len(),
                forall|k: int| 0 <= k < i ==> before((#[trigger] self.content@[k]).0, at),
            decreases self.content@.len() - i,
        {
            i += 1;
        }
        let ghost entries = self.content@;
        if i < self.content.len() && self.content[i].0 == at {
            self.content[i] = (at, item);
        } else {
            self.content.insert(i, (at, item));
        }
        proof {
            lemma_content_put(entries, i as int, (at, item), self.content@);
        }
    }

    /// A frame that fills a screen of `rows` rows and `cols` columns: in
    /// each row, from its first column on, `cols` times the character
    /// `chr` in the colour `fg` on the colour `bg`.
    pub fn fill(rows: u16, cols: u16, chr: char, fg: Color, bg: Color) -> (frame: Frame)
        ensures
            frame.wf(),
            frame@ == Map::new(
                |at: FrameLocation| at.0 < rows && at.1 == 0,
                |at: FrameLocation|
                    (StyledView {
                        text: Seq::new(cols as nat, |k: int| chr),
                        fg: Some(fg),
                        bg: Some(bg),
                    }),
            ),
    {
        let mut frame = Frame::empty();
        let mut i: u16 = 0;
        while i < rows
            invariant
                i <= rows,
                frame.wf(),
                frame@ == Map::new(
                    |at: FrameLocation| at.0 < i && at.1 == 0,
                    |at: FrameLocation|
                        (StyledView {
                            text: Seq::new(cols as nat, |k: int| chr),
                            fg: Some(fg),
                            bg: Some(bg),
                        }),
                ),
            decreases rows - i,
        {
            let content = Styled { text: repeated(chr, cols as usize), fg: Some(fg), bg: Some(bg) };
            frame.put(FrameLocation(i, 0), content);
            assert(frame@ =~= Map::new(
                |at: FrameLocation| at.0 < i + 1 && at.1 == 0,
                |at: FrameLocation|
                    (StyledView {
                        text: Seq::new(cols as nat, |k: int| chr),
                        fg: Some(fg),
                        bg: Some(bg),
                    }),
            ));
            i += 1;
        }
        frame
    }

    /// Sets the text that begins at row `x`, column `y`, in the colour
    /// `fg` on the colour `bg`, in place of the one that began there if
    /// there was one.
    pub fn add(&mut self, str: &str, x: u16, y: u16, fg: Color, bg: Color)
        requires
            old(self).wf(),
        ensures
            final(self).wf(),
            final(self)@ == old(self)@.insert(
                FrameLocation(x, y),
                (StyledView { text: str@, fg: Some(fg), bg: Some(bg) }),
            ),
    {
        let content = Styled { text: str.to_owned(), fg: Some(fg), bg: Some(bg) };
        self.put(FrameLocation(x, y), content);
    }

    /// Sets the text that begins at the first column of `row` to `cols`
    /// spaces on the colour `bg`, in place of the one that began there
    /// if there was one. Texts that begin further right in the row stay.
    pub fn blank_line(&mut self, row: u16, cols: u16, bg: Color)
        requires
            old(self).wf(),
        ensures
            final(self).wf(),
            final(self)@ == old(self)@.insert(
                FrameLocation(row, 0),
                (StyledView { text: Seq::new(cols as nat, |k: int| ' '), fg: None, bg: Some(bg) }),
            ),
    {
        let content = Styled { text: repeated(' ', cols as usize), fg: None, bg: Some(bg) };
        self.put(FrameLocation(row, 0), content);
    }

    /// Takes every text out of the frame.
    pub fn clear(&mut self)
        ensures
            final(self).wf(),
            final(self)@ == Map::<FrameLocation, StyledView>::empty(),
            final(self).listing().len() == 0,
    {
        self.content.clear();
        assert(self@ =~= Map::<FrameLocation, StyledView>::empty());
    }

    /// Takes out every text of which `p` says `true`, given its place and
    /// the text, and keeps the others as they are. The predicate only
    /// reads: it gets the place and the text by shared reference and is
    /// called as an `Fn`, so it can neither edit a text that it keeps nor
    /// carry a state of its own from one call to the next.
    pub fn filter<P: Fn(&FrameLocation, &Styled) -> bool>(&mut self, p: P)
        requires
            old(self).wf(),
            forall|m: int|
                0 <= m < old(self).listing().len() ==> p.requires(
                    (&(#[trigger] old(self).listing()[m]).0, &old(self).listing()[m].1),
                ),
        ensures
            final(self).wf(),
            forall|at: FrameLocation|
                #![trigger final(self)@.contains_key(at)]
                final(self)@.contains_key(at) ==> old(self)@.contains_key(at) && final(self)@[at]
                    == old(self)@[at],
            forall|m: int|
                0 <= m < old(self).listing().len() ==> {
                    let entry = #[trigger] old(self).listing()[m];
                    if final(self)@.contains_key(entry.0) {
                        p.ensures((&entry.0, &entry.1), false)
                    } else {
                        p.ensures((&entry.0, &entry.1), true)
                    }
                },
    {
        let ghost was = self.content@;
        assert(was == old(self).listing());
        let mut i: usize = 0;
        let ghost mut j: int = 0;
        while i < self.content.len()
            invariant
                ascending(was),
                ascending(self.content@),
                0 <= i <= self.content@.len(),
                0 <= j <= was.len(),
                self.content@.skip(i as int) == was.skip(j),
                forall|m: int|
                    0 <= m < was.len() ==> p.requires((&(#[trigger] was[m]).0, &was[m].1)),
                forall|k: int|
                    0 <= k < i ==> exists|m: int|
                        0 <= m < j && (#[trigger] self.content@[k]) == was[m] && p.ensures(
                            (&was[m].0, &was[m].1),
                            false,
                        ),
                forall|m: int|
                    0 <= m < j ==> p.ensures(
                        (&(#[trigger] was[m]).0, &was[m].1),
                        true,
                    ) || exists|k: int| 0 <= k < i && self.content@[k] == was[m],
            decreases self.content@.len() - i,
        {
            let ghost cur = self.content@;
            assert(cur.skip(i as int).len() == cur.len() - i);
            assert(was.skip(j).len() == was.len() - j);
            assert(cur[i as int] == cur.skip(i as int)[0]);
            assert(was[j] == was.skip(j)[0]);
            let drop = p(&self.content[i].0, &self.content[i].1);
            if drop {
                proof {
                    lemma_content_remove(cur, i as int);
                }
                self.content.remove(i);
                proof {
                    assert(self.content@.skip(i as int) =~= cur.skip(i as int).skip(1));
                    assert(was.skip(j + 1) =~= was.skip(j).skip(1));
                    assert forall|k: int| 0 <= k < i implies exists|m: int|
                        0 <= m < j + 1 && (#[trigger] self.content@[k]) == was[m] && p.ensures(
                            (&was[m].0, &was[m].1),
                            false,
                        ) by {
                        assert(self.content@[k] == cur[k]);
                        let m = choose|m: int|
                            0 <= m < j && cur[k] == was[m] && p.ensures(
                                (&was[m].0, &was[m].1),
                                false,
                            );
                        assert(0 <= m < j + 1 && self.content@[k] == was[m]);
                    }
                    assert forall|m: int| 0 <= m < j + 1 implies p.ensures(
                        (&(#[trigger] was[m]).0, &was[m].1),
                        true,
                    ) || exists|k: int| 0 <= k < i && self.content@[k] == was[m] by {
                        if m < j && !p.ensures((&was[m].0, &was[m].1), true) {
                            let k = choose|k: int| 0 <= k < i && cur[k] == was[m];
                            assert(self.content@[k] == was[m]);
                        }
                    }
                    j = j + 1;
                }
            } else {
                proof {
                    assert(self.content@.skip(i as int + 1) =~= cur.skip(i as int).skip(1));
                    assert(was.skip(j + 1) =~= was.skip(j).skip(1));
                    assert forall|k: int| 0 <= k < i + 1 implies exists|m: int|
                        0 <= m < j + 1 && (#[trigger] self.content@[k]) == was[m] && p.ensures(
                            (&was[m].0, &was[m].1),
                            false,
                        ) by {
                        if k < i {
                            let m = choose|m: int|
                                0 <= m < j && cur[k] == was[m] && p.ensures(
                                    (&was[m].0, &was[m].1),
                                    false,
                                );
                            assert(0 <= m < j + 1 && self.content@[k] == was[m]);
                        } else {
                            assert(self.content@[k] == was[j]);
                        }
                    }
                    assert forall|m: int| 0 <= m < j + 1 implies p.ensures(
                        (&(#[trigger] was[m]).0, &was[m].1),
                        true,
                    ) || exists|k: int| 0 <= k < i + 1 && self.content@[k] == was[m] by {
                        if m < j {
                            if !p.ensures((&was[m].0, &was[m].1), true) {
                                let k = choose|k: int| 0 <= k < i && cur[k] == was[m];
                                assert(0 <= k < i + 1 && self.content@[k] == was[m]);
                            }
                        } else {
                            assert(self.content@[i as int] == was[m]);
                        }
                    }
                    j = j + 1;
                }
                i += 1;
            }
        }
        proof {
            let cur = self.content@;
            assert(cur.skip(i as int).len() == cur.len() - i);
            assert(was.skip(j).len() == was.len() - j);
            assert(j == was.len());
            assert forall|at: FrameLocation| self@.contains_key(at) implies old(self)@.contains_key(
                at,
            ) && self@[at] == old(self)@[at] by {
                let k = index_of(cur, at);
                let m = choose|m: int|
                    0 <= m < j && cur[k] == was[m] && p.ensures((&was[m].0, &was[m].1), false);
                lemma_content_at(cur, k);
                lemma_content_at(was, m);
            }
            assert forall|m: int| 0 <= m < was.len() implies {
                let entry = #[trigger] was[m];
                if self@.contains_key(entry.0) {
                    p.ensures((&entry.0, &entry.1), false)
                } else {
                    p.ensures((&entry.0, &entry.1), true)
                }
            } by {
                let entry = was[m];
                if self@.contains_key(entry.0) {
                    let k = index_of(cur, entry.0);
                    let m2 = choose|m2: int|
                        0 <= m2 < j && cur[k] == was[m2] && p.ensures(
                            (&was[m2].0, &was[m2].1),
                            false,
                        );
                    lemma_content_at(was, m);
                    lemma_content_at(was, m2);
                } else {
                    if !p.ensures((&entry.0, &entry.1), true) {
                        let k = choose|k: int| 0 <= k < i && cur[k] == was[m];
                        assert(holds(cur, entry.0));
                    }
                }
            }
        }
    }

    /// How many texts the frame holds.
    pub fn len(&self) -> (count: usize)
        ensures
            count == self.listing().len(),
    {
        self.content.len()
    }

    /// The place of the `i`-th text in the order in which they are shown.
    pub fn location(&self, i: usize) -> (at: FrameLocation)
        requires
            i < self.listing().len(),
        ensures
            at == self.listing()[i as int].0,
    {
        self.content[i].0
    }

    /// The `i`-th text in the order in which they are shown.
    pub fn styled(&self, i: usize) -> (item: &Styled)
        requires
            i < self.listing().len(),
        ensures
            *item == self.listing()[i as int].1,
    {
        &self.content[i].1
    }
}

} // verus!
