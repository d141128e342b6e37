//! Tables keyed by paths, kept in path order.
use vstd::prelude::*;
use vstd::slice::slice_to_vec;

use crate::paths::{
    lemma_path_before_asymmetric, lemma_path_before_irreflexive, lemma_path_before_total,
    lemma_path_before_transitive, path_before, precedes,
};

verus! {

/// Whether a list of entries is in path order, no path occurring twice.
pub open spec fn in_path_order<V>(entries: Seq<(Seq<u8>, V)>) -> bool {
    forall|i: int, j: int|
        0 <= i < j < entries.len() ==> path_before(#[trigger] entries[i].0, #[trigger] entries[j].0)
}

/// The map that a list of entries describes.
pub open spec fn entry_map<V>(entries: Seq<(Seq<u8>, V)>) -> Map<Seq<u8>, V>
    decreases entries.len(),
{
    if entries.len() == 0 {
        Map::empty()
    } else {
        entry_map(entries.drop_last()).insert(entries.last().0, entries.last().1)
    }
}

/// The entries of a map in path order.
pub open spec fn listing<V>(map: Map<Seq<u8>, V>) -> Seq<(Seq<u8>, V)> {
    choose|entries: Seq<(Seq<u8>, V)>| in_path_order(entries) && #[trigger] entry_map(entries) == map
}

/// What an ordered list of entries and its map say of each other.
pub proof fn lemma_entry_map<V>(entries: Seq<(Seq<u8>, V)>)
    requires
        in_path_order(entries),
    ensures
        entry_map(entries).dom().finite(),
        entry_map(entries).dom().len() == entries.len(),
        forall|i: int|
            0 <= i < entries.len() ==> entry_map(entries).contains_key(#[trigger] entries[i].0)
                && entry_map(entries)[entries[i].0] == entries[i].1,
        forall|path: Seq<u8>| #[trigger]
            entry_map(entries).contains_key(path) ==> exists|i: int|
                0 <= i < entries.len() && #[trigger] entries[i].0 == path,
    decreases entries.len(),
{
    if entries.len() > 0 {
        let init = entries.drop_last();
        let last = entries.last();
        lemma_entry_map(init);
        assert forall|i: int| 0 <= i < init.len() implies #[trigger] entries[i].0 != last.0 by {
            lemma_path_before_asymmetric(entries[i].0, entries[entries.len() - 1].0);
        }
        assert(!entry_map(init).contains_key(last.0)) by {
            if entry_map(init).contains_key(last.0) {
                let i = choose|i: int| 0 <= i < init.len() && #[trigger] init[i].0 == last.0;
                assert(entries[i].0 == last.0);
            }
        }
        assert forall|i: int| 0 <= i < entries.len() implies entry_map(entries).contains_key(
            #[trigger] entries[i].0,
        ) && entry_map(entries)[entries[i].0] == entries[i].1 by {
            if i < init.len() {
                assert(init[i] == entries[i]);
            }
        }
        assert forall|path: Seq<u8>| #[trigger]
            entry_map(entries).contains_key(path) implies exists|i: int|
            0 <= i < entries.len() && #[trigger] entries[i].0 == path by {
            if path == last.0 {
                assert(entries[entries.len() - 1].0 == path);
            } else {
                let i = choose|i: int| 0 <= i < init.len() && #[trigger] init[i].0 == path;
                assert(entries[i].0 == path);
            }
        }
    }
}

/// A map has only one list of its entries in path order.
pub proof fn lemma_listing_unique<V>(a: Seq<(Seq<u8>, V)>, b: Seq<(Seq<u8>, V)>)
    requires
        in_path_order(a),
        in_path_order(b),
        entry_map(a) == entry_map(b),
    ensures
        a == b,
    decreases a.len(),
{
    lemma_entry_map(a);
    lemma_entry_map(b);
    assert(a.len() == b.len());
    if a.len() == 0 {
        assert(a =~= b);
    } else {
        let n = a.len() - 1;
        let m = entry_map(a);
        assert(m.contains_key(a[n].0));
        assert(m.contains_key(b[n].0));
        let i = choose|i: int| 0 <= i < b.len() && #[trigger] b[i].0 == a[n].0;
        let j = choose|j: int| 0 <= j < a.len() && #[trigger] a[j].0 == b[n].0;
        if i < n {
            assert(path_before(b[i].0, b[n].0));
            if j < n {
                assert(path_before(a[j].0, a[n].0));
                lemma_path_before_asymmetric(a[n].0, b[n].0);
            } else {
                lemma_path_before_irreflexive(a[n].0);
            }
        }
        assert(a[n].0 == b[n].0);
        assert(a[n].1 == b[n].1);
        let last = a[n].0;
        lemma_entry_map(a.drop_last());
        lemma_entry_map(b.drop_last());
        lemma_last_is_new(a);
        lemma_last_is_new(b);
        assert(entry_map(a.drop_last()) =~= m.remove(last));
        assert(entry_map(b.drop_last()) =~= m.remove(last));
        lemma_listing_unique(a.drop_last(), b.drop_last());
        assert(a =~= a.drop_last().push(a[n]));
        assert(b =~= b.drop_last().push(b[n]));
    }
}

proof fn lemma_last_is_new<V>(entries: Seq<(Seq<u8>, V)>)
    requires
        in_path_order(entries),
        entries.len() > 0,
    ensures
        !entry_map(entries.drop_last()).contains_key(entries.last().0),
{
    let init = entries.drop_last();
    lemma_entry_map(init);
    if entry_map(init).contains_key(entries.last().0) {
        let i = choose|i: int| 0 <= i < init.len() && #[trigger] init[i].0 == entries.last().0;
        lemma_path_before_asymmetric(entries[i].0, entries[entries.len() - 1].0);
    }
}

/// The ordered entries of a map are its listing.
pub proof fn lemma_listing_is<V>(entries: Seq<(Seq<u8>, V)>)
    requires
        in_path_order(entries),
    ensures
        listing(entry_map(entries)) == entries,
{
    lemma_listing_unique(listing(entry_map(entries)), entries);
}

/// A map is the map of an ordered list that agrees with it entry by entry.
proof fn lemma_entry_map_is<V>(entries: Seq<(Seq<u8>, V)>, map: Map<Seq<u8>, V>)
    requires
        in_path_order(entries),
        forall|i: int|
            0 <= i < entries.len() ==> map.contains_key(#[trigger] entries[i].0)
                && map[entries[i].0] == entries[i].1,
        forall|path: Seq<u8>| #[trigger]
            map.contains_key(path) ==> exists|i: int|
                0 <= i < entries.len() && #[trigger] entries[i].0 == path,
    ensures
        entry_map(entries) == map,
{
    lemma_entry_map(entries);
    assert forall|path: Seq<u8>| #[trigger]
        map.contains_key(path) implies entry_map(entries).contains_key(path)
        && entry_map(entries)[path] == map[path] by {
        let i = choose|i: int| 0 <= i < entries.len() && #[trigger] entries[i].0 == path;
    }
    assert forall|path: Seq<u8>| #[trigger]
        entry_map(entries).contains_key(path) implies map.contains_key(path) by {
        let i = choose|i: int| 0 <= i < entries.len() && #[trigger] entries[i].0 == path;
    }
    assert(entry_map(entries) =~= map);
}

proof fn lemma_update_entry<V>(entries: Seq<(Seq<u8>, V)>, place: int, value: V)
    requires
        in_path_order(entries),
        0 <= place < entries.len(),
    ensures
        ({
            let path = entries[place].0;
            let after = entries.update(place, (path, value));
            &&& in_path_order(after)
            &&& entry_map(after) == entry_map(entries).insert(path, value)
        }),
{
    let path = entries[place].0;
    let after = entries.update(place, (path, value));
    assert forall|i: int, j: int| 0 <= i < j < after.len() implies path_before(
        #[trigger] after[i].0,
        #[trigger] after[j].0,
    ) by {
        assert(path_before(entries[i].0, entries[j].0));
    }
    lemma_entry_map(entries);
    let goal = entry_map(entries).insert(path, value);
    assert forall|i: int| 0 <= i < after.len() implies goal.contains_key(#[trigger] after[i].0)
        && goal[after[i].0] == after[i].1 by {
        assert(after[i].0 == entries[i].0);
        if i < place {
            lemma_path_before_asymmetric(entries[i].0, entries[place].0);
        } else if i > place {
            lemma_path_before_asymmetric(entries[place].0, entries[i].0);
        }
    }
    assert forall|key: Seq<u8>| #[trigger] goal.contains_key(key) implies exists|i: int|
        0 <= i < after.len() && #[trigger] after[i].0 == key by {
        if key == path {
            assert(after[place].0 == key);
        } else {
            let i = choose|i: int| 0 <= i < entries.len() && #[trigger] entries[i].0 == key;
            assert(after[i].0 == key);
        }
    }
    lemma_entry_map_is(after, goal);
}

proof fn lemma_insert_entry<V>(entries: Seq<(Seq<u8>, V)>, place: int, path: Seq<u8>, value: V)
    requires
        in_path_order(entries),
        0 <= place <= entries.len(),
        forall|i: int| 0 <= i < place ==> path_before(#[trigger] entries[i].0, path),
        forall|i: int| place <= i < entries.len() ==> path_before(path, #[trigger] entries[i].0),
    ensures
        ({
            let after = entries.insert(place, (path, value));
            &&& in_path_order(after)
            &&& entry_map(after) == entry_map(entries).insert(path, value)
        }),
{
    let after = entries.insert(place, (path, value));
    assert forall|i: int, j: int| 0 <= i < j < after.len() implies path_before(
        #[trigger] after[i].0,
        #[trigger] after[j].0,
    ) by {
        let oi = if i < place {
            i
        } else {
            i - 1
        };
        let oj = if j < place {
            j
        } else {
            j - 1
        };
        if i == place {
            assert(after[j] == entries[oj]);
        } else if j == place {
            assert(after[i] == entries[oi]);
        } else {
            assert(after[i] == entries[oi]);
            assert(after[j] == entries[oj]);
            assert(path_before(entries[oi].0, entries[oj].0));
        }
    }
    lemma_entry_map(entries);
    let goal = entry_map(entries).insert(path, value);
    assert(after[place] == (path, value));
    assert forall|i: int| 0 <= i < after.len() implies goal.contains_key(#[trigger] after[i].0)
        && goal[after[i].0] == after[i].1 by {
        if i != place {
            let o = if i < place {
                i
            } else {
                i - 1
            };
            assert(after[i] == entries[o]);
            if i < place {
                lemma_path_before_asymmetric(entries[o].0, path);
            } else {
                lemma_path_before_asymmetric(path, entries[o].0);
            }
        }
    }
    assert forall|key: Seq<u8>| #[trigger] goal.contains_key(key) implies exists|i: int|
        0 <= i < after.len() && #[trigger] after[i].0 == key by {
        if key != path {
            let i = choose|i: int| 0 <= i < entries.len() && #[trigger] entries[i].0 == key;
            let n = if i < place {
                i
            } else {
                i + 1
            };
            assert(after[n] == entries[i]);
        } else {
            assert(after[place].0 == key);
        }
    }
    lemma_entry_map_is(after, goal);
}

proof fn lemma_remove_entry<V>(entries: Seq<(Seq<u8>, V)>, place: int)
    requires
        in_path_order(entries),
        0 <= place < entries.len(),
    ensures
        ({
            let after = entries.remove(place);
            &&& in_path_order(after)
            &&& entry_map(after) == entry_map(entries).remove(entries[place].0)
        }),
{
    let after = entries.remove(place);
    let path = entries[place].0;
    assert forall|i: int, j: int| 0 <= i < j < after.len() implies path_before(
        #[trigger] after[i].0,
        #[trigger] after[j].0,
    ) by {
        let oi = if i < place {
            i
        } else {
            i + 1
        };
        let oj = if j < place {
            j
        } else {
            j + 1
        };
        assert(after[i] == entries[oi]);
        assert(after[j] == entries[oj]);
        assert(path_before(entries[oi].0, entries[oj].0));
    }
    lemma_entry_map(entries);
    let goal = entry_map(entries).remove(path);
    assert forall|i: int| 0 <= i < after.len() implies goal.contains_key(#[trigger] after[i].0)
        && goal[after[i].0] == after[i].1 by {
        let o = if i < place {
            i
        } else {
            i + 1
        };
        assert(after[i] == entries[o]);
        if o < place {
            lemma_path_before_asymmetric(entries[o].0, path);
        } else {
            lemma_path_before_asymmetric(path, entries[o].0);
        }
    }
    assert forall|key: Seq<u8>| #[trigger] goal.contains_key(key) implies exists|i: int|
        0 <= i < after.len() && #[trigger] after[i].0 == key by {
        let i = choose|i: int| 0 <= i < entries.len() && #[trigger] entries[i].0 == key;
        let n = if i < place {
            i
        } else {
            i - 1
        };
        assert(after[n] == entries[i]);
    }
    lemma_entry_map_is(after, goal);
}

/// A table of values keyed by paths.
pub struct PathTable<V> {
    entries: Vec<(Vec<u8>, V)>,
}

impl<V> PathTable<V> {
    closed spec fn rows(self) -> Seq<(Seq<u8>, V)> {
        self.entries@.map_values(|entry: (Vec<u8>, V)| (entry.0@, entry.1))
    }

    /// The entries are in path order.
    pub closed spec fn wf(self) -> bool {
        in_path_order(self.rows())
    }
}

impl<V> View for PathTable<V> {
    type V = Map<Seq<u8>, V>;

    closed spec fn view(&self) -> Map<Seq<u8>, V> {
        entry_map(self.rows())
    }
}

impl<V> PathTable<V> {
    /// The listing of a table: its entries, each path once and in path order.
    pub proof fn lemma_listing(self)
        requires
            self.wf(),
        ensures
            in_path_order(listing(self@)),
            entry_map(listing(self@)) == self@,
            listing(self@).len() == self@.dom().len(),
            self@.dom().finite(),
            forall|i: int|
                0 <= i < listing(self@).len() ==> self@.contains_key(#[trigger] listing(self@)[i].0)
                    && self@[listing(self@)[i].0] == listing(self@)[i].1,
            forall|path: Seq<u8>| #[trigger]
                self@.contains_key(path) ==> exists|i: int|
                    0 <= i < listing(self@).len() && #[trigger] listing(self@)[i].0 == path,
    {
        lemma_listing_is(self.rows());
        lemma_entry_map(self.rows());
    }
}

impl<V: Copy> PathTable<V> {
    /// An empty table.
    pub fn new() -> (table: Self)
        ensures
            table.wf(),
            table@ == Map::<Seq<u8>, V>::empty(),
    {
        let table = PathTable { entries: Vec::new() };
        assert(table.rows() =~= Seq::empty());
        table
    }

    /// The number of paths in the table.
    pub fn len(&self) -> (len: usize)
        requires
            self.wf(),
        ensures
            len == self@.dom().len(),
            len == listing(self@).len(),
    {
        proof {
            lemma_entry_map(self.rows());
            lemma_listing_is(self.rows());
        }
        self.entries.len()
    }

    /// The path of the entry at a place in path order.
    pub fn path_at(&self, index: usize) -> (path: &[u8])
        requires
            self.wf(),
            index < listing(self@).len(),
        ensures
            path@ == listing(self@)[index as int].0,
    {
        proof {
            lemma_listing_is(self.rows());
        }
        self.entries[index].0.as_slice()
    }

    /// The value of the entry at a place in path order.
    pub fn value_at(&self, index: usize) -> (value: V)
        requires
            self.wf(),
            index < listing(self@).len(),
        ensures
            value == listing(self@)[index as int].1,
    {
        proof {
            lemma_listing_is(self.rows());
        }
        self.entries[index].1
    }

    /// The first place at which an entry does not come before `path`.
    fn place_of(&self, path: &[u8]) -> (place: usize)
        requires
            self.wf(),
        ensures
            place <= self.rows().len(),
            forall|i: int| 0 <= i < place ==> path_before(#[trigger] self.rows()[i].0, path@),
            forall|i: int|
                place <= i < self.rows().len() ==> !path_before(
                    #[trigger] self.rows()[i].0,
                    path@,
                ),
    {
        let mut low: usize = 0;
        let mut high: usize = self.entries.len();
        let ghost rows = self.rows();
        while low < high
            invariant
                low <= high <= self.entries.len(),
                rows == self.rows(),
                rows.len() == self.entries.len(),
                in_path_order(rows),
                forall|i: int| 0 <= i < low ==> path_before(#[trigger] rows[i].0, path@),
                forall|i: int|
                    high <= i < rows.len() ==> !path_before(#[trigger] rows[i].0, path@),
            decreases high - low,
        {
            let middle: usize = low + (high - low) / 2;
            assert(rows[middle as int].0 == self.entries@[middle as int].0@);
            if precedes(self.entries[middle].0.as_slice(), path) {
                assert forall|i: int| 0 <= i < middle + 1 implies path_before(
                    #[trigger] rows[i].0,
                    path@,
                ) by {
                    if i < middle {
                        lemma_path_before_transitive(rows[i].0, rows[middle as int].0, path@);
                    }
                }
                low = middle + 1;
            } else {
                assert forall|i: int| middle <= i < rows.len() implies !path_before(
                    #[trigger] rows[i].0,
                    path@,
                ) by {
                    if i > middle && path_before(rows[i].0, path@) {
                        lemma_path_before_transitive(rows[middle as int].0, rows[i].0, path@);
                    }
                }
                high = middle;
            }
        }
        low
    }

    /// The place of the entry of `path`, if the table holds one.
    fn find(&self, path: &[u8]) -> (found: (usize, bool))
        requires
            self.wf(),
        ensures
            found.0 <= self.rows().len(),
            found.1 == self@.contains_key(path@),
            found.1 ==> found.0 < self.rows().len() && self.rows()[found.0 as int].0 == path@,
            !found.1 ==> {
                &&& forall|i: int|
                    0 <= i < found.0 ==> path_before(#[trigger] self.rows()[i].0, path@)
                &&& forall|i: int|
                    found.0 <= i < self.rows().len() ==> path_before(
                        path@,
                        #[trigger] self.rows()[i].0,
                    )
            },
    {
        let place: usize = self.place_of(path);
        let ghost rows = self.rows();
        proof {
            lemma_entry_map(rows);
            if place < rows.len() {
                assert(rows[place as int].0 == self.entries@[place as int].0@);
                lemma_path_before_total(rows[place as int].0, path@);
            }
        }
        let held: bool = place < self.entries.len() && !precedes(
            path,
            self.entries[place].0.as_slice(),
        );
        proof {
            if held {
                assert(self@.contains_key(rows[place as int].0));
            } else {
                assert forall|i: int| place <= i < rows.len() implies path_before(
                    path@,
                    #[trigger] rows[i].0,
                ) by {
                    if i > place {
                        lemma_path_before_transitive(path@, rows[place as int].0, rows[i].0);
                    }
                }
                if self@.contains_key(path@) {
                    let i = choose|i: int| 0 <= i < rows.len() && #[trigger] rows[i].0 == path@;
                    lemma_path_before_irreflexive(path@);
                }
            }
        }
        (place, held)
    }

    /// The value that the table holds at `path`.
    pub fn get(&self, path: &[u8]) -> (value: Option<V>)
        requires
            self.wf(),
        ensures
            value == if self@.contains_key(path@) {
                Some(self@[path@])
            } else {
                None
            },
    {
        let (place, held) = self.find(path);
        if held {
            proof {
                lemma_entry_map(self.rows());
                assert(self.rows()[place as int].1 == self.entries@[place as int].1);
            }
            Some(self.entries[place].1)
        } else {
            None
        }
    }

    /// Holds `value` at `path` from now on.
    pub fn set(&mut self, path: &[u8], value: V)
        requires
            old(self).wf(),
        ensures
            final(self).wf(),
            final(self)@ == old(self)@.insert(path@, value),
    {
        let (place, held) = self.find(path);
        let ghost before = self.rows();
        let key: Vec<u8> = slice_to_vec(path);
        if held {
            self.entries.set(place, (key, value));
            proof {
                assert(self.rows() =~= before.update(place as int, (path@, value)));
                lemma_update_entry(before, place as int, value);
            }
        } else {
            self.entries.insert(place, (key, value));
            proof {
                assert(self.rows() =~= before.insert(place as int, (path@, value)));
                lemma_insert_entry(before, place as int, path@, value);
            }
        }
    }

    /// Takes the value at `path` out of the table.
    pub fn remove(&mut self, path: &[u8])
        requires
            old(self).wf(),
            old(self)@.contains_key(path@),
        ensures
            final(self).wf(),
            final(self)@ == old(self)@.remove(path@),
    {
        let (place, _) = self.find(path);
        let ghost before = self.rows();
        self.entries.remove(place);
        proof {
            assert(self.rows() =~= before.remove(place as int));
            lemma_remove_entry(before, place as int);
        }
    }
}

}
