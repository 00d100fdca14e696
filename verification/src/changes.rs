use vstd::prelude::*;
use crate::color::Color;

verus! {

/// The coordinate of an entry, as a mathematical pair.
pub open spec fn key_of(entry: ((usize, usize), Color)) -> (int, int) {
    (entry.0.0 as int, entry.0.1 as int)
}

/// The map that a list of entries stands for: each coordinate with the
/// colour of the last entry that names it.
pub open spec fn entries_map(entries: Seq<((usize, usize), Color)>) -> Map<(int, int), Color>
    decreases entries.len(),
{
    if entries.len() == 0 {
        Map::empty()
    } else {
        entries_map(entries.drop_last()).insert(key_of(entries.last()), entries.last().1)
    }
}

/// No two entries name the same coordinate.
pub open spec fn distinct_keys(entries: Seq<((usize, usize), Color)>) -> bool {
    forall|i: int, j: int|
        0 <= i < j < entries.len() ==> key_of(#[trigger] entries[i]) != key_of(
            #[trigger] entries[j],
        )
}

/// Where an entry names the coordinate, the index of one.
pub open spec fn place_of(entries: Seq<((usize, usize), Color)>, key: (usize, usize)) -> int {
    choose|i: int| 0 <= i < entries.len() && (#[trigger] entries[i]).0 == key
}

/// A coordinate is in the map exactly when an entry names it.
pub proof fn lemma_entries_domain(entries: Seq<((usize, usize), Color)>, key: (int, int))
    ensures
        entries_map(entries).contains_key(key) <==> exists|i: int|
            0 <= i < entries.len() && key_of(#[trigger] entries[i]) == key,
    decreases entries.len(),
{
    if entries.len() > 0 {
        let front = entries.drop_last();
        lemma_entries_domain(front, key);
        if entries_map(entries).contains_key(key) {
            if key_of(entries.last()) == key {
                assert(key_of(entries[entries.len() - 1]) == key);
            } else {
                let i = choose|i: int| 0 <= i < front.len() && key_of(#[trigger] front[i]) == key;
                assert(key_of(entries[i]) == key);
            }
        }
        if exists|i: int| 0 <= i < entries.len() && key_of(#[trigger] entries[i]) == key {
            let i = choose|i: int| 0 <= i < entries.len() && key_of(#[trigger] entries[i]) == key;
            if i < front.len() {
                assert(key_of(front[i]) == key);
            }
        }
    }
}

/// Where no coordinate occurs twice, each entry's colour is the map's.
pub proof fn lemma_entries_value(entries: Seq<((usize, usize), Color)>, i: int)
    requires
        distinct_keys(entries),
        0 <= i < entries.len(),
    ensures
        entries_map(entries).contains_key(key_of(entries[i])),
        entries_map(entries)[key_of(entries[i])] == entries[i].1,
    decreases entries.len(),
{
    let front = entries.drop_last();
    if i < entries.len() - 1 {
        assert(distinct_keys(front)) by {
            assert forall|a: int, b: int| 0 <= a < b < front.len() implies key_of(
                #[trigger] front[a],
            ) != key_of(#[trigger] front[b]) by {
                assert(front[a] == entries[a] && front[b] == entries[b]);
            }
        }
        lemma_entries_value(front, i);
        assert(front[i] == entries[i]);
        assert(key_of(entries[i]) != key_of(entries[entries.len() - 1]));
    }
}

/// Where no coordinate occurs twice, replacing an entry's colour is an
/// insertion into the map.
pub proof fn lemma_entries_update(entries: Seq<((usize, usize), Color)>, i: int, value: Color)
    requires
        distinct_keys(entries),
        0 <= i < entries.len(),
    ensures
        entries_map(entries.update(i, (entries[i].0, value))) == entries_map(entries).insert(
            key_of(entries[i]),
            value,
        ),
        distinct_keys(entries.update(i, (entries[i].0, value))),
    decreases entries.len(),
{
    let after = entries.update(i, (entries[i].0, value));
    let front = entries.drop_last();
    assert forall|a: int, b: int| 0 <= a < b < after.len() implies key_of(#[trigger] after[a])
        != key_of(#[trigger] after[b]) by {
        assert(key_of(after[a]) == key_of(entries[a]));
        assert(key_of(after[b]) == key_of(entries[b]));
    }
    if i == entries.len() - 1 {
        assert(after.drop_last() =~= front);
        assert(entries_map(after) =~= entries_map(entries).insert(key_of(entries[i]), value));
    } else {
        assert(distinct_keys(front)) by {
            assert forall|a: int, b: int| 0 <= a < b < front.len() implies key_of(
                #[trigger] front[a],
            ) != key_of(#[trigger] front[b]) by {
                assert(front[a] == entries[a] && front[b] == entries[b]);
            }
        }
        lemma_entries_update(front, i, value);
        assert(front[i] == entries[i]);
        assert(after.drop_last() =~= front.update(i, (entries[i].0, value)));
        assert(after.last() == entries.last());
        assert(key_of(entries[i]) != key_of(entries[entries.len() - 1]));
        assert(entries_map(after) =~= entries_map(entries).insert(key_of(entries[i]), value));
    }
}

/// A finite map from coordinates to colours, kept as a list of entries in
/// which no coordinate occurs twice.
#[derive(Debug)]
pub struct CellMap {
    entries: Vec<((usize, usize), Color)>,
}

impl CellMap {
    /// The map held.
    pub closed spec fn view(&self) -> Map<(int, int), Color> {
        entries_map(self.entries@)
    }

    /// The entries, in the order in which their coordinates first came.
    pub closed spec fn listing(&self) -> Seq<((usize, usize), Color)> {
        self.entries@
    }

    /// No coordinate occurs twice among the entries.
    pub closed spec fn wf(&self) -> bool {
        distinct_keys(self.entries@)
    }

    /// What the listing and the map have to do with each other.
    pub proof fn lemma_listing(&self)
        requires
            self.wf(),
        ensures
            self@ == entries_map(self.listing()),
            distinct_keys(self.listing()),
    {
    }

    pub fn new() -> (map: CellMap)
        ensures
            map.wf(),
            map@ == Map::<(int, int), Color>::empty(),
            map.listing().len() == 0,
    {
        CellMap { entries: Vec::new() }
    }

    /// The place of `key` among the entries, if it is there.
    fn position(&self, key: (usize, usize)) -> (found: Option<usize>)
        ensures
            match found {
                Some(i) => i < self.entries@.len() && self.entries@[i as int].0 == key,
                None => forall|i: int| 0 <= i < self.entries@.len() ==> self.entries@[i].0 != key,
            },
    {
        let mut i: usize = 0;
        while i < self.entries.len()
            invariant
                i <= self.entries@.len(),
                forall|k: int| 0 <= k < i ==> self.entries@[k].0 != key,
            decreases self.entries@.len() - i,
        {
            let (at, _) = self.entries[i];
            if at.0 == key.0 && at.1 == key.1 {
                return Some(i);
            }
            i += 1;
        }
        None
    }

    /// Sets the colour at `key`, whether or not it had one.
    pub fn insert(&mut self, key: (usize, usize), value: Color)
        requires
            old(self).wf(),
        ensures
            final(self).wf(),
            final(self)@ == old(self)@.insert((key.0 as int, key.1 as int), value),
            final(self).listing() == (if old(self)@.contains_key((key.0 as int, key.1 as int)) {
                old(self).listing().update(place_of(old(self).listing(), key), (key, value))
            } else {
                old(self).listing().push((key, value))
            }),
    {
        proof {
            lemma_entries_domain(self.entries@, (key.0 as int, key.1 as int));
        }
        match self.position(key) {
            Some(i) => {
                proof {
                    lemma_entries_update(self.entries@, i as int, value);
                    let at = place_of(self.entries@, key);
                    assert(key_of(self.entries@[i as int]) == key_of(self.entries@[at]));
                    assert(at == i);
                }
                self.entries[i] = (key, value);
            },
            None => {
                let ghost before = self.entries@;
                self.entries.push((key, value));
                proof {
                    assert(self.entries@.drop_last() =~= before);
                    assert forall|a: int, b: int| 0 <= a < b < self.entries@.len() implies key_of(
                        #[trigger] self.entries@[a],
                    ) != key_of(#[trigger] self.entries@[b]) by {
                        assert(self.entries@[a] == before[a]);
                        if b < before.len() {
                            assert(self.entries@[b] == before[b]);
                        }
                    }
                }
            },
        }
    }

    /// The colour at `key`, if it has one.
    pub fn get(&self, key: (usize, usize)) -> (value: Option<Color>)
        requires
            self.wf(),
        ensures
            value == (if self@.contains_key((key.0 as int, key.1 as int)) {
                Some(self@[(key.0 as int, key.1 as int)])
            } else {
                None
            }),
    {
        proof {
            lemma_entries_domain(self.entries@, (key.0 as int, key.1 as int));
        }
        match self.position(key) {
            Some(i) => {
                proof {
                    lemma_entries_value(self.entries@, i as int);
                }
                let (_, value) = self.entries[i];
                Some(value)
            },
            None => None,
        }
    }

    /// How many coordinates have a colour.
    pub fn len(&self) -> (n: usize)
        ensures
            n == self.listing().len(),
    {
        self.entries.len()
    }

    /// The `i`-th entry of the listing.
    pub fn entry(&self, i: usize) -> (e: ((usize, usize), Color))
        requires
            i < self.listing().len(),
        ensures
            e == self.listing()[i as int],
    {
        self.entries[i]
    }
}

/// What changed on the display during one step.
#[derive(Debug)]
pub enum ChangeSet {
    /// The cells whose colour changed, each with its new colour.
    Diff(CellMap),
    /// Lines were cleared: everything has to be drawn again.
    FullRedraw,
}

impl ChangeSet {
    /// The changes as an optional map: `None` stands for a full redraw.
    pub open spec fn view(&self) -> Option<Map<(int, int), Color>> {
        match self {
            ChangeSet::Diff(map) => Some(map@),
            ChangeSet::FullRedraw => None,
        }
    }

    pub open spec fn wf(&self) -> bool {
        match self {
            ChangeSet::Diff(map) => map.wf(),
            ChangeSet::FullRedraw => true,
        }
    }
}

} // verus!
