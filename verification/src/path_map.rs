//! Maps and sets keyed by the places that paths name.

use crate::order::{strict_order, Placement};
use crate::path::{lemma_parts_order, parts_before, parts_order, path_parts, FilePath, PathPart};
use vstd::prelude::*;

verus! {

/// Whether paths stand in the order of the places that they name, no place twice.
pub open spec fn in_order(paths: Seq<Seq<u8>>) -> bool {
    forall|i: int, j: int|
        #![trigger paths[i], paths[j]]
        0 <= i < j < paths.len() ==> parts_before(path_parts(paths[i]), path_parts(paths[j]))
}

/// The keys of entries.
spec fn keys_of<V>(entries: Seq<(FilePath, V)>) -> Seq<Seq<u8>> {
    entries.map_values(|entry: (FilePath, V)| entry.0@)
}

/// What entries map places to.
spec fn map_of<V>(entries: Seq<(FilePath, V)>) -> Map<Seq<PathPart>, V>
    decreases entries.len(),
{
    if entries.len() == 0 {
        Map::empty()
    } else {
        map_of(entries.drop_last()).insert(path_parts(entries.last().0@), entries.last().1)
    }
}

/// Every entry of an ordered list is found under its own place, and nothing else is found.
proof fn lemma_map_of<V>(entries: Seq<(FilePath, V)>)
    requires
        in_order(keys_of(entries)),
    ensures
        forall|i: int|
            0 <= i < entries.len() ==> map_of(entries).contains_key(
                path_parts((#[trigger] entries[i]).0@),
            ) && map_of(entries)[path_parts(entries[i].0@)] == entries[i].1,
        forall|place: Seq<PathPart>| #[trigger]
            map_of(entries).contains_key(place) ==> exists|i: int|
                0 <= i < entries.len() && path_parts((#[trigger] entries[i]).0@) == place,
    decreases entries.len(),
{
    if entries.len() > 0 {
        let front = entries.drop_last();
        let last = entries.last();
        let keys = keys_of(entries);
        assert forall|i: int, j: int|
            #![trigger keys_of(front)[i], keys_of(front)[j]]
            0 <= i < j < front.len() implies parts_before(
            path_parts(keys_of(front)[i]),
            path_parts(keys_of(front)[j]),
        ) by {
            assert(keys_of(front)[i] == keys[i] && keys_of(front)[j] == keys[j]);
        }
        lemma_map_of(front);
        lemma_parts_order();
        assert forall|i: int| 0 <= i < entries.len() implies map_of(entries).contains_key(
            path_parts((#[trigger] entries[i]).0@),
        ) && map_of(entries)[path_parts(entries[i].0@)] == entries[i].1 by {
            if i < front.len() {
                assert(front[i] == entries[i]);
                assert(keys[i] == entries[i].0@ && keys[front.len() as int] == last.0@);
                assert(parts_order()(path_parts(entries[i].0@), path_parts(last.0@)));
                assert(!parts_order()(path_parts(last.0@), path_parts(last.0@)));
            }
        }
        assert forall|place: Seq<PathPart>| #[trigger] map_of(entries).contains_key(
            place,
        ) implies exists|i: int|
            0 <= i < entries.len() && path_parts((#[trigger] entries[i]).0@) == place by {
            if place == path_parts(last.0@) {
                assert(path_parts(entries[entries.len() - 1].0@) == place);
            } else {
                assert(map_of(front).contains_key(place));
                let i = choose|i: int|
                    0 <= i < front.len() && path_parts((#[trigger] front[i]).0@) == place;
                assert(front[i] == entries[i]);
            }
        }
    }
}

/// A map keyed by the places that paths name, in their order.
pub struct PathMap<V> {
    entries: Vec<(FilePath, V)>,
}

impl<V> View for PathMap<V> {
    type V = Map<Seq<PathPart>, V>;

    closed spec fn view(&self) -> Map<Seq<PathPart>, V> {
        map_of(self.entries@)
    }
}

impl<V> PathMap<V> {
    #[verifier::type_invariant]
    spec fn well_formed(self) -> bool {
        in_order(keys_of(self.entries@))
    }

    /// The paths that are keys, in the order of their places.
    pub closed spec fn keys(&self) -> Seq<Seq<u8>> {
        keys_of(self.entries@)
    }

    /// The empty map.
    pub fn new() -> (map: PathMap<V>)
        ensures
            map@ == Map::<Seq<PathPart>, V>::empty(),
            map.keys() == Seq::<Seq<u8>>::empty(),
    {
        let map = PathMap { entries: Vec::new() };
        assert(map.keys() =~= Seq::<Seq<u8>>::empty());
        map
    }

    /// The number of entries. Every place that is mapped has one.
    pub fn len(&self) -> (len: usize)
        ensures
            len == self.keys().len(),
            in_order(self.keys()),
            forall|place: Seq<PathPart>| #[trigger]
                self@.contains_key(place) ==> exists|i: int|
                    0 <= i < self.keys().len() && path_parts(#[trigger] self.keys()[i]) == place,
    {
        proof {
            use_type_invariant(self);
            lemma_map_of(self.entries@);
            assert forall|place: Seq<PathPart>| #[trigger] self@.contains_key(
                place,
            ) implies exists|i: int|
                0 <= i < self.keys().len() && path_parts(#[trigger] self.keys()[i]) == place by {
                let i = choose|i: int|
                    0 <= i < self.entries@.len() && path_parts((#[trigger] self.entries@[i]).0@)
                        == place;
                assert(self.keys()[i] == self.entries@[i].0@);
            }
        }
        self.entries.len()
    }

    /// The entry at a position.
    pub fn entry(&self, at: usize) -> (entry: (&FilePath, &V))
        requires
            at < self.keys().len(),
        ensures
            entry.0@ == self.keys()[at as int],
            self@.contains_key(path_parts(entry.0@)),
            self@[path_parts(entry.0@)] == *entry.1,
    {
        proof {
            use_type_invariant(self);
            lemma_map_of(self.entries@);
        }
        let entry = &self.entries[at];
        (&entry.0, &entry.1)
    }

    /// Where a place stands among the entries, or would stand.
    fn locate(&self, path: &FilePath) -> (found: (usize, bool))
        ensures
            found.0 <= self.entries@.len(),
            found.1 ==> found.0 < self.entries@.len() && path_parts(
                self.entries@[found.0 as int].0@,
            ) == path_parts(path@),
            forall|i: int|
                0 <= i < found.0 ==> parts_before(
                    path_parts((#[trigger] self.entries@[i]).0@),
                    path_parts(path@),
                ),
            !found.1 ==> forall|i: int|
                found.0 <= i < self.entries@.len() ==> parts_before(
                    path_parts(path@),
                    path_parts((#[trigger] self.entries@[i]).0@),
                ),
    {
        proof {
            use_type_invariant(self);
            lemma_parts_order();
        }
        let ghost keys = keys_of(self.entries@);
        let ghost place = path_parts(path@);
        let mut low: usize = 0;
        let mut high: usize = self.entries.len();
        while low < high
            invariant
                low <= high,
                high <= self.entries@.len(),
                keys == keys_of(self.entries@),
                in_order(keys),
                strict_order(parts_order()),
                place == path_parts(path@),
                forall|i: int|
                    0 <= i < low ==> parts_before(
                        path_parts((#[trigger] self.entries@[i]).0@),
                        place,
                    ),
                forall|i: int|
                    high <= i < self.entries@.len() ==> parts_before(
                        place,
                        path_parts((#[trigger] self.entries@[i]).0@),
                    ),
            decreases high - low,
        {
            let middle: usize = low + (high - low) / 2;
            let ghost here = path_parts(self.entries@[middle as int].0@);
            assert(keys[middle as int] == self.entries@[middle as int].0@);
            match self.entries[middle].0.place(path) {
                Placement::Same => {
                    assert forall|i: int| 0 <= i < middle implies parts_before(
                        path_parts((#[trigger] self.entries@[i]).0@),
                        place,
                    ) by {
                        assert(keys[i] == self.entries@[i].0@);
                    }
                    return (middle, true);
                },
                Placement::Before => {
                    assert forall|i: int| 0 <= i < middle + 1 implies parts_before(
                        path_parts((#[trigger] self.entries@[i]).0@),
                        place,
                    ) by {
                        assert(keys[i] == self.entries@[i].0@);
                        if i < middle {
                            assert(parts_order()(path_parts(self.entries@[i].0@), here));
                            assert(parts_order()(here, place));
                        }
                    }
                    low = middle + 1;
                },
                Placement::After => {
                    assert forall|i: int| middle <= i < self.entries@.len() implies parts_before(
                        place,
                        path_parts((#[trigger] self.entries@[i]).0@),
                    ) by {
                        assert(keys[i] == self.entries@[i].0@);
                        if i > middle {
                            assert(parts_order()(place, here));
                            assert(parts_order()(here, path_parts(self.entries@[i].0@)));
                        }
                    }
                    high = middle;
                },
            }
        }
        (low, false)
    }

    /// What a place is mapped to.
    pub fn get(&self, path: &FilePath) -> (value: Option<&V>)
        ensures
            match value {
                Some(value) => self@.contains_key(path_parts(path@)) && self@[path_parts(path@)]
                    == *value,
                None => !self@.contains_key(path_parts(path@)),
            },
    {
        let (at, found) = self.locate(path);
        proof {
            use_type_invariant(self);
            lemma_map_of(self.entries@);
        }
        if found {
            Some(&self.entries[at].1)
        } else {
            proof {
                lemma_parts_order();
                let place = path_parts(path@);
                if self@.contains_key(place) {
                    let i = choose|i: int|
                        0 <= i < self.entries@.len() && path_parts((#[trigger] self.entries@[i]).0@)
                            == place;
                    assert(!parts_order()(place, place));
                    assert(parts_before(place, place));
                }
            }
            None
        }
    }

    /// Map a place to a value. A place that is already a key keeps its spelling.
    pub fn insert(self, path: FilePath, value: V) -> (map: PathMap<V>)
        ensures
            map@ == self@.insert(path_parts(path@), value),
            self@.contains_key(path_parts(path@)) ==> map.keys() == self.keys(),
            !self@.contains_key(path_parts(path@)) ==> exists|at: int|
                0 <= at <= self.keys().len() && map.keys() == #[trigger] self.keys().insert(
                    at,
                    path@,
                ),
            in_order(map.keys()),
    {
        let (at, found) = self.locate(&path);
        proof {
            use_type_invariant(&self);
            lemma_map_of(self.entries@);
            lemma_parts_order();
        }
        let ghost before = self.entries@;
        let ghost place = path_parts(path@);
        let PathMap { entries } = self;
        let mut entries = entries;
        if found {
            let (key, _) = entries.remove(at);
            entries.insert(at, (key, value));
            proof {
                assert(keys_of(entries@) =~= keys_of(before));
                lemma_map_of(entries@);
                assert forall|other: Seq<PathPart>| #[trigger]
                    map_of(entries@).contains_key(other) == map_of(before).insert(
                        place,
                        value,
                    ).contains_key(other) by {
                    lemma_same_domain(before, entries@, other);
                    assert(path_parts(before[at as int].0@) == place);
                }
                assert forall|other: Seq<PathPart>| #[trigger]
                    map_of(entries@).contains_key(other) implies map_of(entries@)[other] == map_of(
                    before,
                ).insert(place, value)[other] by {
                    let i = choose|i: int|
                        0 <= i < entries@.len() && path_parts((#[trigger] entries@[i]).0@) == other;
                    assert(keys_of(entries@)[i] == entries@[i].0@);
                    if i == at {
                        assert(other == place);
                    } else {
                        assert(entries@[i] == before[i]);
                        if other == place {
                            lemma_key_once(before, i, at as int);
                        }
                    }
                }
                assert(map_of(entries@) =~= map_of(before).insert(place, value));
            }
        } else {
            entries.insert(at, (path, value));
            proof {
                lemma_inserted_in_order(before, at as int, (path, value));
                lemma_map_of(entries@);
                assert(keys_of(entries@) =~= keys_of(before).insert(at as int, path@));
                assert forall|other: Seq<PathPart>| #[trigger]
                    map_of(entries@).contains_key(other) == map_of(before).insert(
                        place,
                        value,
                    ).contains_key(other) by {
                    lemma_inserted_domain(before, at as int, (path, value), other);
                }
                assert forall|other: Seq<PathPart>| #[trigger]
                    map_of(entries@).contains_key(other) implies map_of(entries@)[other] == map_of(
                    before,
                ).insert(place, value)[other] by {
                    let i = choose|i: int|
                        0 <= i < entries@.len() && path_parts((#[trigger] entries@[i]).0@) == other;
                    if i == at {
                        assert(entries@[i] == (path, value));
                    } else {
                        let j = if i < at { i } else { i - 1 };
                        assert(entries@[i] == before[j]);
                        assert(!parts_order()(place, place));
                        assert(other != place);
                    }
                }
                assert(map_of(entries@) =~= map_of(before).insert(place, value));
                assert(!self@.contains_key(place)) by {
                    if map_of(before).contains_key(place) {
                        let j = choose|j: int|
                            0 <= j < before.len() && path_parts((#[trigger] before[j]).0@) == place;
                        assert(!parts_order()(place, place));
                        assert(parts_before(place, place));
                    }
                }
            }
        }
        let map = PathMap { entries };
        assert(!found ==> map.keys() == self.keys().insert(at as int, path@));
        map
    }
}

/// An ordered list holds no place twice.
proof fn lemma_key_once<V>(entries: Seq<(FilePath, V)>, i: int, j: int)
    requires
        in_order(keys_of(entries)),
        0 <= i < entries.len(),
        0 <= j < entries.len(),
        path_parts(entries[i].0@) == path_parts(entries[j].0@),
    ensures
        i == j,
{
    lemma_parts_order();
    let keys = keys_of(entries);
    assert(keys[i] == entries[i].0@ && keys[j] == entries[j].0@);
    let place = path_parts(entries[i].0@);
    assert(!parts_order()(place, place));
}

/// Lists with the same keys hold the same places.
proof fn lemma_same_domain<V>(
    left: Seq<(FilePath, V)>,
    right: Seq<(FilePath, V)>,
    place: Seq<PathPart>,
)
    requires
        in_order(keys_of(left)),
        keys_of(left) == keys_of(right),
    ensures
        map_of(left).contains_key(place) == map_of(right).contains_key(place),
{
    lemma_map_of(left);
    lemma_map_of(right);
    assert(left.len() == keys_of(left).len() && right.len() == keys_of(right).len());
    if map_of(left).contains_key(place) {
        let i = choose|i: int|
            0 <= i < left.len() && path_parts((#[trigger] left[i]).0@) == place;
        assert(keys_of(left)[i] == left[i].0@ && keys_of(right)[i] == right[i].0@);
        assert(map_of(right).contains_key(path_parts(right[i].0@)));
    }
    if map_of(right).contains_key(place) {
        let i = choose|i: int|
            0 <= i < right.len() && path_parts((#[trigger] right[i]).0@) == place;
        assert(keys_of(left)[i] == left[i].0@ && keys_of(right)[i] == right[i].0@);
        assert(map_of(left).contains_key(path_parts(left[i].0@)));
    }
}

/// An entry put where its place belongs keeps a list in order.
proof fn lemma_inserted_in_order<V>(entries: Seq<(FilePath, V)>, at: int, entry: (FilePath, V))
    requires
        in_order(keys_of(entries)),
        0 <= at <= entries.len(),
        forall|i: int|
            0 <= i < at ==> parts_before(
                path_parts((#[trigger] entries[i]).0@),
                path_parts(entry.0@),
            ),
        forall|i: int|
            at <= i < entries.len() ==> parts_before(
                path_parts(entry.0@),
                path_parts((#[trigger] entries[i]).0@),
            ),
    ensures
        in_order(keys_of(entries.insert(at, entry))),
{
    let longer = entries.insert(at, entry);
    let keys = keys_of(entries);
    let more = keys_of(longer);
    assert forall|i: int, j: int|
        #![trigger more[i], more[j]]
        0 <= i < j < more.len() implies parts_before(
        path_parts(more[i]),
        path_parts(more[j]),
    ) by {
        let a = if i < at { i } else { i - 1 };
        let b = if j < at { j } else { j - 1 };
        assert(more[i] == longer[i].0@ && more[j] == longer[j].0@);
        if i == at {
            assert(longer[j] == entries[b]);
        } else if j == at {
            assert(longer[i] == entries[a]);
        } else {
            assert(longer[i] == entries[a] && longer[j] == entries[b]);
            assert(keys[a] == entries[a].0@ && keys[b] == entries[b].0@);
        }
    }
}

/// A list with one more entry holds one more place.
proof fn lemma_inserted_domain<V>(
    entries: Seq<(FilePath, V)>,
    at: int,
    entry: (FilePath, V),
    place: Seq<PathPart>,
)
    requires
        in_order(keys_of(entries)),
        0 <= at <= entries.len(),
        in_order(keys_of(entries.insert(at, entry))),
    ensures
        map_of(entries.insert(at, entry)).contains_key(place) == (map_of(entries).contains_key(
            place,
        ) || place == path_parts(entry.0@)),
{
    let longer = entries.insert(at, entry);
    lemma_map_of(entries);
    lemma_map_of(longer);
    if map_of(longer).contains_key(place) {
        let i = choose|i: int|
            0 <= i < longer.len() && path_parts((#[trigger] longer[i]).0@) == place;
        if i != at {
            let j = if i < at { i } else { i - 1 };
            assert(longer[i] == entries[j]);
        }
    }
    if map_of(entries).contains_key(place) {
        let j = choose|j: int|
            0 <= j < entries.len() && path_parts((#[trigger] entries[j]).0@) == place;
        let i = if j < at { j } else { j + 1 };
        assert(longer[i] == entries[j]);
    }
    if place == path_parts(entry.0@) {
        assert(longer[at] == entry);
    }
}

/// A set of places, each named by one path, in their order.
pub struct PathSet {
    map: PathMap<()>,
}

impl View for PathSet {
    type V = Seq<Seq<u8>>;

    closed spec fn view(&self) -> Seq<Seq<u8>> {
        self.map.keys()
    }
}

impl PathSet {
    /// The places that the paths name.
    pub closed spec fn places(&self) -> Set<Seq<PathPart>> {
        self.map@.dom()
    }

    /// The empty set.
    pub fn new() -> (set: PathSet)
        ensures
            set@ == Seq::<Seq<u8>>::empty(),
            set.places() == Set::<Seq<PathPart>>::empty(),
    {
        let set = PathSet { map: PathMap::new() };
        assert(set.places() =~= Set::<Seq<PathPart>>::empty());
        set
    }

    /// The number of places. Each of them is named by one of the paths.
    pub fn len(&self) -> (len: usize)
        ensures
            len == self@.len(),
            in_order(self@),
            forall|place: Seq<PathPart>| #[trigger]
                self.places().contains(place) ==> exists|i: int|
                    0 <= i < self@.len() && path_parts(#[trigger] self@[i]) == place,
    {
        self.map.len()
    }

    /// The path at a position.
    pub fn path(&self, at: usize) -> (path: &FilePath)
        requires
            at < self@.len(),
        ensures
            path@ == self@[at as int],
            self.places().contains(path_parts(path@)),
    {
        let (path, _) = self.map.entry(at);
        path
    }

    /// Whether one of the paths names this path's place.
    pub fn contains(&self, path: &FilePath) -> (found: bool)
        ensures
            found == self.places().contains(path_parts(path@)),
    {
        self.map.get(path).is_some()
    }

    /// Add a path, unless its place is there already.
    pub fn insert(self, path: FilePath) -> (set: PathSet)
        ensures
            set.places() == self.places().insert(path_parts(path@)),
            self.places().contains(path_parts(path@)) ==> set@ == self@,
            !self.places().contains(path_parts(path@)) ==> exists|at: int|
                0 <= at <= self@.len() && set@ == #[trigger] self@.insert(at, path@),
            in_order(set@),
    {
        let ghost before = self@;
        let map = self.map.insert(path, ());
        proof {
            assert(map@.dom() =~= self.places().insert(path_parts(path@)));
            if !self.places().contains(path_parts(path@)) {
                let at = choose|at: int|
                    0 <= at <= before.len() && map.keys() == #[trigger] before.insert(at, path@);
                assert(map.keys() == self@.insert(at, path@));
            }
        }
        PathSet { map }
    }
}

} // verus!
