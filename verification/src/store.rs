//! The persisted data model: a mapping from absolute directory path to a
//! flat mapping of string keys to string values.
//!
//! Both levels are held as vectors of pairs with pairwise-distinct keys, so
//! that every lookup and update can be stated against a mathematical
//! [`Map`] view.

use vstd::prelude::*;

verus! {

/// One key/value pair of a directory's mapping.
pub struct Entry {
    pub key: String,
    pub val: String,
}

/// The key/value mapping attached to one directory.
pub struct Dir {
    pub entries: Vec<Entry>,
}

/// One directory of the store together with its mapping.
pub struct DirEntry {
    pub path: String,
    pub dir: Dir,
}

/// The full persisted state: every directory with its mapping.
pub struct Data {
    pub projector: Vec<DirEntry>,
}

/// The pairs of a directory mapping, as sequences of characters.
pub open spec fn kvs_of(s: Seq<Entry>) -> Seq<(Seq<char>, Seq<char>)> {
    s.map_values(|e: Entry| (e.key@, e.val@))
}

/// A sequence of pairs folded into a map; a later pair wins on a repeated key.
pub open spec fn pairs_to_map<V>(s: Seq<(Seq<char>, V)>) -> Map<Seq<char>, V>
    decreases s.len(),
{
    if s.len() == 0 {
        Map::empty()
    } else {
        pairs_to_map(s.drop_last()).insert(s.last().0, s.last().1)
    }
}

/// The keys of `s` are pairwise distinct.
pub open spec fn keys_distinct<V>(s: Seq<(Seq<char>, V)>) -> bool {
    forall|i: int, j: int| 0 <= i < j < s.len() ==> s[i].0 != s[j].0
}

/// Well-formed rows: pairwise-distinct directory paths, and pairwise-
/// distinct keys within each directory. This is [`Data::wf`] stated over
/// bare rows.
pub open spec fn rows_wf(rows: Seq<(Seq<char>, Seq<(Seq<char>, Seq<char>)>)>) -> bool {
    &&& keys_distinct(rows)
    &&& forall|i: int| 0 <= i < rows.len() ==> keys_distinct((#[trigger] rows[i]).1)
}

impl Dir {
    /// The pairs in storage order.
    pub open spec fn kvs(self) -> Seq<(Seq<char>, Seq<char>)> {
        kvs_of(self.entries@)
    }

    /// The directory's mapping.
    pub open spec fn as_map(self) -> Map<Seq<char>, Seq<char>> {
        pairs_to_map(self.kvs())
    }

    /// Well-formed: no key occurs twice.
    pub open spec fn wf(self) -> bool {
        keys_distinct(self.kvs())
    }
}

impl Data {
    /// The rows in storage order: each directory path with its pairs.
    pub open spec fn rows(self) -> Seq<(Seq<char>, Seq<(Seq<char>, Seq<char>)>)> {
        self.projector@.map_values(|de: DirEntry| (de.path@, de.dir.kvs()))
    }

    /// The store as a map from directory path to that directory's mapping.
    pub open spec fn as_map(self) -> Map<Seq<char>, Map<Seq<char>, Seq<char>>> {
        pairs_to_map(self.rows().map_values(|r: (Seq<char>, Seq<(Seq<char>, Seq<char>)>)|
            (r.0, pairs_to_map(r.1))))
    }

    /// Well-formed: no directory path occurs twice, and every directory's
    /// own mapping is well-formed.
    pub open spec fn wf(self) -> bool {
        &&& keys_distinct(self.rows())
        &&& forall|i: int| 0 <= i < self.projector@.len() ==> (#[trigger] self.projector@[i]).dir.wf()
    }
}

impl Dir {
    /// A directory mapping with no pairs.
    pub fn new() -> (d: Dir)
        ensures
            d.wf(),
            d.kvs() =~= Seq::<(Seq<char>, Seq<char>)>::empty(),
            d.as_map() =~= Map::<Seq<char>, Seq<char>>::empty(),
    {
        Dir { entries: Vec::new() }
    }

    /// Position of `key` among the entries, if present.
    fn find(&self, key: &str) -> (r: Option<usize>)
        ensures
            match r {
                Some(i) => i < self.entries@.len() && self.entries@[i as int].key@ == key@,
                None => forall|i: int| 0 <= i < self.entries@.len()
                    ==> (#[trigger] self.entries@[i]).key@ != key@,
            },
    {
        let mut i: usize = 0;
        while i < self.entries.len()
            invariant
                0 <= i <= self.entries@.len(),
                forall|j: int| 0 <= j < i ==> (#[trigger] self.entries@[j]).key@ != key@,
            decreases self.entries@.len() - i,
        {
            if crate::strings::str_eq(self.entries[i].key.as_str(), key) {
                return Some(i);
            }
            i = i + 1;
        }
        None
    }

    /// The value stored under `key`, if any.
    pub fn get(&self, key: &str) -> (r: Option<&String>)
        requires
            self.wf(),
        ensures
            match r {
                Some(v) => self.as_map().contains_key(key@) && self.as_map()[key@] == v@,
                None => !self.as_map().contains_key(key@),
            },
    {
        match self.find(key) {
            Some(i) => {
                proof {
                    lemma_pairs_index(self.kvs(), i as int);
                }
                Some(&self.entries[i].val)
            },
            None => {
                proof {
                    lemma_pairs_absent(self.kvs(), key@);
                }
                None
            },
        }
    }

    /// Inserts or overwrites `key` with `value`.
    pub fn upsert(&mut self, key: String, value: String)
        requires
            old(self).wf(),
        ensures
            final(self).wf(),
            final(self).as_map() =~= old(self).as_map().insert(key@, value@),
            (forall|i: int| 0 <= i < old(self).kvs().len() ==> (#[trigger] old(self).kvs()[i]).0
                != key@) ==> final(self).kvs() == old(self).kvs().push((key@, value@)),
    {
        let ghost k = key@;
        let ghost v = value@;
        match self.find(key.as_str()) {
            Some(i) => {
                proof {
                    assert(self.kvs()[i as int].0 == k);
                    lemma_pairs_update(self.kvs(), i as int, v);
                }
                let entry = Entry { key, val: value };
                self.entries.set(i, entry);
                proof {
                    assert(self.kvs() =~= old(self).kvs().update(
                        i as int,
                        (old(self).kvs()[i as int].0, v),
                    ));
                }
            },
            None => {
                proof {
                    lemma_pairs_push(self.kvs(), k, v);
                }
                let entry = Entry { key, val: value };
                self.entries.push(entry);
                proof {
                    assert(self.kvs() =~= old(self).kvs().push((k, v)));
                }
            },
        }
    }

    /// Removes `key`; a silent no-op when it is absent.
    pub fn remove(&mut self, key: &str)
        requires
            old(self).wf(),
        ensures
            final(self).wf(),
            final(self).as_map() =~= old(self).as_map().remove(key@),
    {
        match self.find(key) {
            Some(i) => {
                proof {
                    lemma_pairs_remove(self.kvs(), i as int);
                }
                self.entries.remove(i);
                proof {
                    assert(self.kvs() =~= old(self).kvs().remove(i as int));
                }
            },
            None => {
                proof {
                    lemma_pairs_absent(self.kvs(), key@);
                    assert(self.as_map() =~= self.as_map().remove(key@));
                }
            },
        }
    }
}

impl Data {
    /// Position of `path` among the rows, if present.
    fn find(&self, path: &str) -> (r: Option<usize>)
        ensures
            match r {
                Some(i) => i < self.projector@.len() && self.projector@[i as int].path@ == path@,
                None => forall|i: int| 0 <= i < self.projector@.len()
                    ==> (#[trigger] self.projector@[i]).path@ != path@,
            },
    {
        let mut i: usize = 0;
        while i < self.projector.len()
            invariant
                0 <= i <= self.projector@.len(),
                forall|j: int| 0 <= j < i ==> (#[trigger] self.projector@[j]).path@ != path@,
            decreases self.projector@.len() - i,
        {
            if crate::strings::str_eq(self.projector[i].path.as_str(), path) {
                return Some(i);
            }
            i = i + 1;
        }
        None
    }

    /// The mapped pair sequence whose fold is `as_map`.
    pub open spec fn row_pairs(self) -> Seq<(Seq<char>, Map<Seq<char>, Seq<char>>)> {
        self.rows().map_values(|r: (Seq<char>, Seq<(Seq<char>, Seq<char>)>)|
            (r.0, pairs_to_map(r.1)))
    }

    /// Distinct keys carry over from the mapped pairs to the rows.
    pub proof fn lemma_rows_distinct(self)
        requires
            keys_distinct(self.row_pairs()),
        ensures
            keys_distinct(self.rows()),
    {
        assert forall|x: int, y: int| 0 <= x < y < self.rows().len()
            implies self.rows()[x].0 != self.rows()[y].0 by {
            assert(self.row_pairs()[x].0 == self.rows()[x].0);
            assert(self.row_pairs()[y].0 == self.rows()[y].0);
        }
    }

    /// Ensures a mapping exists for `path`, then inserts or overwrites
    /// `key` with `value` in it.
    pub fn upsert(&mut self, path: String, key: String, value: String)
        requires
            old(self).wf(),
        ensures
            final(self).wf(),
            final(self).as_map() =~= old(self).as_map().insert(
                path@,
                (if old(self).as_map().contains_key(path@) {
                    old(self).as_map()[path@]
                } else {
                    Map::<Seq<char>, Seq<char>>::empty()
                }).insert(key@, value@),
            ),
    {
        let ghost p = path@;
        let ghost k = key@;
        let ghost v = value@;
        match self.find(path.as_str()) {
            Some(i) => {
                proof {
                    lemma_data_index(*self, i as int);
                    assert(keys_distinct(old(self).row_pairs()));
                }
                let mut row = self.projector.remove(i);
                row.dir.upsert(key, value);
                self.projector.insert(i, row);
                proof {
                    let newdir = old(self).row_pairs()[i as int].1.insert(k, v);
                    assert(self.row_pairs() =~= old(self).row_pairs().update(
                        i as int,
                        (p, newdir),
                    ));
                    lemma_pairs_update(old(self).row_pairs(), i as int, newdir);
                    self.lemma_rows_distinct();
                    assert(keys_distinct(self.rows()));
                }
            },
            None => {
                proof {
                    lemma_data_absent(*self, p);
                }
                let mut dir = Dir::new();
                dir.upsert(key, value);
                let row = DirEntry { path, dir };
                self.projector.push(row);
                proof {
                    let newdir = Map::<Seq<char>, Seq<char>>::empty().insert(k, v);
                    assert(self.row_pairs() =~= old(self).row_pairs().push((p, newdir)));
                    assert forall|j: int| 0 <= j < old(self).row_pairs().len()
                        implies (#[trigger] old(self).row_pairs()[j]).0 != p by {
                        assert(old(self).projector@[j].path@ != p);
                    }
                    lemma_pairs_push(old(self).row_pairs(), p, newdir);
                    self.lemma_rows_distinct();
                    assert(keys_distinct(self.rows()));
                }
            },
        }
    }

    /// Adds a row for `path` holding `dir`, and reports whether it did;
    /// a store that already has a row for `path` is left unchanged.
    pub fn insert_dir(&mut self, path: String, dir: Dir) -> (r: bool)
        requires
            old(self).wf(),
            dir.wf(),
        ensures
            final(self).wf(),
            r ==> !old(self).as_map().contains_key(path@)
                && final(self).as_map() =~= old(self).as_map().insert(path@, dir.as_map())
                && final(self).rows() == old(self).rows().push((path@, dir.kvs())),
            !r ==> *final(self) == *old(self) && old(self).as_map().contains_key(path@),
    {
        let ghost p = path@;
        let ghost dm = dir.as_map();
        match self.find(path.as_str()) {
            Some(i) => {
                proof {
                    lemma_data_index(*self, i as int);
                }
                false
            },
            None => {
                proof {
                    lemma_data_absent(*self, p);
                }
                let row = DirEntry { path, dir };
                self.projector.push(row);
                proof {
                    assert(self.row_pairs() =~= old(self).row_pairs().push((p, dm)));
                    assert forall|j: int| 0 <= j < old(self).row_pairs().len()
                        implies (#[trigger] old(self).row_pairs()[j]).0 != p by {
                        assert(old(self).projector@[j].path@ != p);
                    }
                    lemma_pairs_push(old(self).row_pairs(), p, dm);
                    self.lemma_rows_distinct();
                    assert(keys_distinct(self.rows()));
                }
                true
            },
        }
    }

    /// Removes `key` from the mapping for `path`; a silent no-op when the
    /// key, or the whole directory, is absent.
    pub fn remove(&mut self, path: &str, key: &str)
        requires
            old(self).wf(),
        ensures
            final(self).wf(),
            final(self).as_map() =~= (if old(self).as_map().contains_key(path@) {
                old(self).as_map().insert(path@, old(self).as_map()[path@].remove(key@))
            } else {
                old(self).as_map()
            }),
    {
        let ghost p = path@;
        let ghost k = key@;
        match self.find(path) {
            Some(i) => {
                proof {
                    lemma_data_index(*self, i as int);
                    assert(keys_distinct(old(self).row_pairs()));
                }
                let mut row = self.projector.remove(i);
                row.dir.remove(key);
                self.projector.insert(i, row);
                proof {
                    let newdir = old(self).row_pairs()[i as int].1.remove(k);
                    assert(self.row_pairs() =~= old(self).row_pairs().update(
                        i as int,
                        (p, newdir),
                    ));
                    lemma_pairs_update(old(self).row_pairs(), i as int, newdir);
                    self.lemma_rows_distinct();
                    assert(keys_distinct(self.rows()));
                }
            },
            None => {
                proof {
                    lemma_data_absent(*self, p);
                }
            },
        }
    }

    /// The mapping kept for exactly `path` (no ancestor walk), if any.
    pub fn get_directory_entries(&self, path: &str) -> (r: Option<&Dir>)
        requires
            self.wf(),
        ensures
            match r {
                Some(d) => self.as_map().contains_key(path@)
                    && self.as_map()[path@] == d.as_map()
                    && d.wf(),
                None => !self.as_map().contains_key(path@),
            },
    {
        match self.find(path) {
            Some(i) => {
                proof {
                    lemma_data_index(*self, i as int);
                }
                Some(&self.projector[i].dir)
            },
            None => {
                proof {
                    lemma_data_absent(*self, path@);
                }
                None
            },
        }
    }
}

/// In a well-formed store, the row at `i` gives the store's mapping at its
/// path.
pub proof fn lemma_data_index(d: Data, i: int)
    requires
        d.wf(),
        0 <= i < d.projector@.len(),
    ensures
        d.as_map().contains_key(d.projector@[i].path@),
        d.as_map()[d.projector@[i].path@] == d.projector@[i].dir.as_map(),
{
    let pairs = d.rows().map_values(|r: (Seq<char>, Seq<(Seq<char>, Seq<char>)>)|
        (r.0, pairs_to_map(r.1)));
    assert(keys_distinct(pairs));
    lemma_pairs_index(pairs, i);
}

/// A path under none of the rows is not in the store's map.
pub proof fn lemma_data_absent(d: Data, p: Seq<char>)
    requires
        forall|i: int| 0 <= i < d.projector@.len() ==> (#[trigger] d.projector@[i]).path@ != p,
    ensures
        !d.as_map().contains_key(p),
{
    let pairs = d.rows().map_values(|r: (Seq<char>, Seq<(Seq<char>, Seq<char>)>)|
        (r.0, pairs_to_map(r.1)));
    lemma_pairs_absent(pairs, p);
}

/// A well-formed store has well-formed rows.
pub proof fn lemma_wf_rows(d: Data)
    requires
        d.wf(),
    ensures
        rows_wf(d.rows()),
{
    assert forall|i: int| 0 <= i < d.rows().len()
        implies keys_distinct((#[trigger] d.rows()[i]).1) by {
        assert(d.rows()[i].1 == d.projector@[i].dir.kvs());
        assert(d.projector@[i].dir.wf());
    }
}

/// Stores with the same rows are equivalent: same directory keys, and the
/// same key/value mapping for each directory.
pub proof fn lemma_rows_determine_store(d1: Data, d2: Data)
    requires
        d1.rows() == d2.rows(),
    ensures
        d1.as_map() == d2.as_map(),
{
}

/// A fresh store with no directory entries.
pub fn default_data() -> (d: Data)
    ensures
        d.wf(),
        d.rows() =~= Seq::<(Seq<char>, Seq<(Seq<char>, Seq<char>)>)>::empty(),
        d.as_map() =~= Map::<Seq<char>, Map<Seq<char>, Seq<char>>>::empty(),
{
    Data { projector: Vec::new() }
}

/// In a pair sequence with distinct keys, the pair at `i` gives the map's
/// value at its key.
pub proof fn lemma_pairs_index<V>(s: Seq<(Seq<char>, V)>, i: int)
    requires
        keys_distinct(s),
        0 <= i < s.len(),
    ensures
        pairs_to_map(s).contains_key(s[i].0),
        pairs_to_map(s)[s[i].0] == s[i].1,
    decreases s.len(),
{
    if i == s.len() - 1 {
    } else {
        assert(keys_distinct(s.drop_last()));
        assert(s.drop_last()[i] == s[i]);
        lemma_pairs_index(s.drop_last(), i);
        assert(s[i].0 != s.last().0);
    }
}

/// A key under none of the pairs is not in the map.
pub proof fn lemma_pairs_absent<V>(s: Seq<(Seq<char>, V)>, k: Seq<char>)
    requires
        forall|i: int| 0 <= i < s.len() ==> (#[trigger] s[i]).0 != k,
    ensures
        !pairs_to_map(s).contains_key(k),
    decreases s.len(),
{
    if s.len() > 0 {
        assert forall|i: int| 0 <= i < s.drop_last().len() implies (#[trigger] s.drop_last()[i]).0 != k by {
            assert(s.drop_last()[i] == s[i]);
        }
        lemma_pairs_absent(s.drop_last(), k);
    }
}

/// Updating the pair at `i` updates the map at that key.
pub proof fn lemma_pairs_update<V>(s: Seq<(Seq<char>, V)>, i: int, v: V)
    requires
        keys_distinct(s),
        0 <= i < s.len(),
    ensures
        pairs_to_map(s.update(i, (s[i].0, v))) =~= pairs_to_map(s).insert(s[i].0, v),
        keys_distinct(s.update(i, (s[i].0, v))),
    decreases s.len(),
{
    let t = s.update(i, (s[i].0, v));
    assert(keys_distinct(t));
    if i == s.len() - 1 {
        assert(t.drop_last() =~= s.drop_last());
    } else {
        assert(keys_distinct(s.drop_last()));
        lemma_pairs_update(s.drop_last(), i, v);
        assert(t.drop_last() =~= s.drop_last().update(i, (s[i].0, v)));
        assert(t.last() == s.last());
        assert(s[i].0 != s.last().0);
        assert(pairs_to_map(t) =~= pairs_to_map(s).insert(s[i].0, v));
    }
}

/// Appending a pair with a fresh key inserts it into the map.
pub proof fn lemma_pairs_push<V>(s: Seq<(Seq<char>, V)>, k: Seq<char>, v: V)
    requires
        keys_distinct(s),
        forall|i: int| 0 <= i < s.len() ==> (#[trigger] s[i]).0 != k,
    ensures
        pairs_to_map(s.push((k, v))) =~= pairs_to_map(s).insert(k, v),
        keys_distinct(s.push((k, v))),
{
    assert(s.push((k, v)).drop_last() =~= s);
}

/// Removing the pair at `i` removes its key from the map.
pub proof fn lemma_pairs_remove<V>(s: Seq<(Seq<char>, V)>, i: int)
    requires
        keys_distinct(s),
        0 <= i < s.len(),
    ensures
        pairs_to_map(s.remove(i)) =~= pairs_to_map(s).remove(s[i].0),
        keys_distinct(s.remove(i)),
    decreases s.len(),
{
    let t = s.remove(i);
    assert forall|a: int, b: int| 0 <= a < b < t.len() implies t[a].0 != t[b].0 by {
        let a2 = if a < i { a } else { a + 1 };
        let b2 = if b < i { b } else { b + 1 };
        assert(t[a] == s[a2] && t[b] == s[b2]);
    }
    if i == s.len() - 1 {
        assert(t =~= s.drop_last());
        lemma_pairs_absent(s.drop_last(), s[i].0);
        assert(pairs_to_map(t) =~= pairs_to_map(s).remove(s[i].0));
    } else {
        assert(keys_distinct(s.drop_last()));
        lemma_pairs_remove(s.drop_last(), i);
        assert(t.drop_last() =~= s.drop_last().remove(i));
        assert(t.last() == s.last());
        assert(s[i].0 != s.last().0);
        assert(pairs_to_map(t) =~= pairs_to_map(s).remove(s[i].0));
    }
}

} // verus!
