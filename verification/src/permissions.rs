//! Who may read and write which paths.
//!
//! A permission holds a path with everything below it. Any number of readers may hold
//! overlapping paths at the same time; a writer shares its paths with nobody.
use vstd::prelude::*;
use vstd::slice::slice_to_vec;
use vstd::string::*;

use crate::conflict::{conflict_text, Conflict, ConflictView, IsTracking};
use crate::errors::{PermissionErrView, WeightedPermissionErr};
use crate::path_table::{in_path_order, listing, PathTable};
use crate::paths::{is_prefix, lemma_path_before_asymmetric, overlap, path_before};
use crate::text::{append_path, path_text};

verus! {

/// Read Permission object in a weighted space
#[derive(Debug)]
pub struct WeightedSpaceReader {
    path: Vec<u8>,
}

/// Write Permission object in a weighted space
#[derive(Debug)]
pub struct WeightedSpaceWriter {
    path: Vec<u8>,
}

impl View for WeightedSpaceReader {
    type V = Seq<u8>;

    closed spec fn view(&self) -> Seq<u8> {
        self.path@
    }
}

impl View for WeightedSpaceWriter {
    type V = Seq<u8>;

    closed spec fn view(&self) -> Seq<u8> {
        self.path@
    }
}

impl WeightedSpaceReader {
    /// The path that the permission was given for.
    pub fn path(&self) -> (path: &[u8])
        ensures
            path@ == self@,
    {
        self.path.as_slice()
    }
}

impl WeightedSpaceWriter {
    /// The path that the permission was given for.
    pub fn path(&self) -> (path: &[u8])
        ensures
            path@ == self@,
    {
        self.path.as_slice()
    }
}

/// The permissions that are out.
#[verifier::ext_equal]
pub struct Permissions {
    /// How many readers hold each path that a reader holds
    pub readers: Map<Seq<u8>, u32>,
    /// The paths that writers hold
    pub writers: Map<Seq<u8>, ()>,
}

/// Whether a path overlaps none of the taken paths.
pub open spec fn is_free<V>(taken: Map<Seq<u8>, V>, path: Seq<u8>) -> bool {
    forall|other: Seq<u8>| #[trigger] taken.contains_key(other) ==> !overlap(other, path)
}

/// Whether `at` is the taken path that a request for `path` meets: the first in path order
/// of those that overlap it, which is the shortest one that leads to it, or else the first
/// one below it.
pub open spec fn meets<V>(taken: Map<Seq<u8>, V>, path: Seq<u8>, at: Seq<u8>) -> bool {
    &&& taken.contains_key(at)
    &&& overlap(at, path)
    &&& forall|other: Seq<u8>| #[trigger]
        taken.contains_key(other) && overlap(other, path) && other != at ==> path_before(at, other)
}

/// The taken path that a request for `path` meets.
pub open spec fn met<V>(taken: Map<Seq<u8>, V>, path: Seq<u8>) -> Seq<u8> {
    choose|at: Seq<u8>| meets(taken, path, at)
}

/// A request meets at most one path.
pub proof fn lemma_met_is<V>(taken: Map<Seq<u8>, V>, path: Seq<u8>, at: Seq<u8>)
    requires
        meets(taken, path, at),
    ensures
        met(taken, path) == at,
        !is_free(taken, path),
{
    let other = met(taken, path);
    if other != at {
        lemma_path_before_asymmetric(at, other);
        assert(taken.contains_key(at) && overlap(at, path));
    }
}

impl Permissions {
    /// What stands in the way of a reader at `path`: a writer, or as many readers of the
    /// same path as can be counted.
    pub open spec fn read_conflict(self, path: Seq<u8>) -> Option<ConflictView> {
        if !is_free(self.writers, path) {
            Some(ConflictView { with: IsTracking::WriteZipper, at: met(self.writers, path) })
        } else if self.readers.contains_key(path) && self.readers[path] == u32::MAX {
            Some(ConflictView { with: IsTracking::ReadZipper(u32::MAX), at: path })
        } else {
            None
        }
    }

    /// What stands in the way of a writer at `path`: a writer, or else some readers.
    pub open spec fn write_conflict(self, path: Seq<u8>) -> Option<ConflictView> {
        if !is_free(self.writers, path) {
            Some(ConflictView { with: IsTracking::WriteZipper, at: met(self.writers, path) })
        } else if !is_free(self.readers, path) {
            let at = met(self.readers, path);
            Some(ConflictView { with: IsTracking::ReadZipper(self.readers[at]), at })
        } else {
            None
        }
    }

    /// One more reader at `path`.
    pub open spec fn with_reader(self, path: Seq<u8>) -> Self {
        let count = if self.readers.contains_key(path) {
            (self.readers[path] + 1) as u32
        } else {
            1
        };
        Permissions { readers: self.readers.insert(path, count), ..self }
    }

    /// One reader less at `path`.
    pub open spec fn without_reader(self, path: Seq<u8>) -> Self {
        if self.readers[path] == 1 {
            Permissions { readers: self.readers.remove(path), ..self }
        } else {
            Permissions {
                readers: self.readers.insert(path, (self.readers[path] - 1) as u32),
                ..self
            }
        }
    }

    /// A writer at `path`.
    pub open spec fn with_writer(self, path: Seq<u8>) -> Self {
        Permissions { writers: self.writers.insert(path, ()), ..self }
    }

    /// No writer at `path`.
    pub open spec fn without_writer(self, path: Seq<u8>) -> Self {
        Permissions { writers: self.writers.remove(path), ..self }
    }

    /// No writer shares a path with another writer or with a reader, and every path that
    /// readers hold has a reader.
    pub open spec fn exclusive(self) -> bool {
        &&& forall|a: Seq<u8>, b: Seq<u8>|
            #![trigger self.writers.contains_key(a), self.writers.contains_key(b)]
            self.writers.contains_key(a) && self.writers.contains_key(b) && a != b ==> !overlap(
                a,
                b,
            )
        &&& forall|r: Seq<u8>, w: Seq<u8>|
            #![trigger self.readers.contains_key(r), self.writers.contains_key(w)]
            self.readers.contains_key(r) && self.writers.contains_key(w) ==> !overlap(r, w)
        &&& forall|r: Seq<u8>| #[trigger] self.readers.contains_key(r) ==> self.readers[r] >= 1
    }
}

/// The message that a refused reader is answered with.
pub open spec fn read_refusal(path: Seq<u8>, conflict: ConflictView) -> Seq<char> {
    "Conflict trying to acquire read zipper at "@ + path_text(path) + ", "@ + conflict_text(conflict)
}

/// The message that a refused writer is answered with.
pub open spec fn write_refusal(path: Seq<u8>, conflict: ConflictView) -> Seq<char> {
    "Conflict trying to acquire write zipper at "@ + path_text(path) + ", "@ + conflict_text(
        conflict,
    )
}

/// Finds the taken path that a request for `path` meets.
fn find_met<V: Copy>(taken: &PathTable<V>, path: &[u8]) -> (found: Option<usize>)
    requires
        taken.wf(),
    ensures
        match found {
            Some(i) => i < listing(taken@).len() && meets(
                taken@,
                path@,
                listing(taken@)[i as int].0,
            ) && taken@[listing(taken@)[i as int].0] == listing(taken@)[i as int].1,
            None => is_free(taken@, path@),
        },
{
    let ghost rows = listing(taken@);
    proof {
        taken.lemma_listing();
    }
    let mut i: usize = 0;
    let n: usize = taken.len();
    while i < n
        invariant
            i <= n == rows.len(),
            taken.wf(),
            rows == listing(taken@),
            in_path_order(rows),
            forall|j: int| 0 <= j < i ==> !overlap(#[trigger] rows[j].0, path@),
            forall|j: int|
                0 <= j < rows.len() ==> taken@.contains_key(#[trigger] rows[j].0)
                    && taken@[rows[j].0] == rows[j].1,
            forall|key: Seq<u8>| #[trigger]
                taken@.contains_key(key) ==> exists|j: int|
                    0 <= j < rows.len() && #[trigger] rows[j].0 == key,
        decreases n - i,
    {
        let at: &[u8] = taken.path_at(i);
        if is_prefix(at, path) || is_prefix(path, at) {
            assert forall|other: Seq<u8>| #[trigger]
                taken@.contains_key(other) && overlap(other, path@) && other
                    != rows[i as int].0 implies path_before(rows[i as int].0, other) by {
                let j = choose|j: int| 0 <= j < rows.len() && #[trigger] rows[j].0 == other;
                assert(path_before(rows[i as int].0, rows[j].0));
            }
            return Some(i);
        }
        i = i + 1;
    }
    None
}

/// PermissionHead object of a weighted space
///
/// Gives out the permissions of a space and takes them back.
pub struct WeightedPermissionHead {
    read_paths: PathTable<u32>,
    written_paths: PathTable<()>,
}

impl View for WeightedPermissionHead {
    type V = Permissions;

    closed spec fn view(&self) -> Permissions {
        Permissions { readers: self.read_paths@, writers: self.written_paths@ }
    }
}

impl WeightedPermissionHead {
    pub closed spec fn wf(self) -> bool {
        &&& self.read_paths.wf()
        &&& self.written_paths.wf()
        &&& self@.exclusive()
    }

    /// The permissions of a well-formed head are exclusive, and finitely many.
    pub proof fn lemma_wf(self)
        requires
            self.wf(),
        ensures
            self@.exclusive(),
            self@.readers.dom().finite(),
            self@.writers.dom().finite(),
    {
        self.read_paths.lemma_listing();
        self.written_paths.lemma_listing();
    }

    /// A head that has given out nothing.
    pub fn new() -> (head: Self)
        ensures
            head.wf(),
            head@ == (Permissions { readers: Map::empty(), writers: Map::empty() }),
    {
        WeightedPermissionHead { read_paths: PathTable::new(), written_paths: PathTable::new() }
    }

    fn written(&self, path: &[u8]) -> (conflict: Option<Conflict>)
        requires
            self.wf(),
        ensures
            match conflict {
                Some(conflict) => !is_free(self@.writers, path@) && conflict@ == (ConflictView {
                    with: IsTracking::WriteZipper,
                    at: met(self@.writers, path@),
                }),
                None => is_free(self@.writers, path@),
            },
    {
        match find_met(&self.written_paths, path) {
            Some(i) => {
                let at: Vec<u8> = slice_to_vec(self.written_paths.path_at(i));
                proof {
                    lemma_met_is(self@.writers, path@, at@);
                }
                Some(Conflict::new(IsTracking::WriteZipper, at))
            },
            None => None,
        }
    }

    /// What stands in the way of a reader at `path`.
    pub fn reader_conflict(&self, path: &[u8]) -> (conflict: Option<Conflict>)
        requires
            self.wf(),
        ensures
            conflict is Some == self@.read_conflict(path@) is Some,
            conflict matches Some(conflict) ==> Some(conflict@) == self@.read_conflict(path@),
    {
        match self.written(path) {
            Some(conflict) => Some(conflict),
            None => {
                match self.read_paths.get(path) {
                    Some(count) => {
                        if count == u32::MAX {
                            Some(Conflict::new(IsTracking::ReadZipper(u32::MAX), slice_to_vec(path)))
                        } else {
                            None
                        }
                    },
                    None => None,
                }
            },
        }
    }

    /// What stands in the way of a writer at `path`.
    pub fn writer_conflict(&self, path: &[u8]) -> (conflict: Option<Conflict>)
        requires
            self.wf(),
        ensures
            conflict is Some == self@.write_conflict(path@) is Some,
            conflict matches Some(conflict) ==> Some(conflict@) == self@.write_conflict(path@),
    {
        match self.written(path) {
            Some(conflict) => Some(conflict),
            None => {
                match find_met(&self.read_paths, path) {
                    Some(i) => {
                        let at: Vec<u8> = slice_to_vec(self.read_paths.path_at(i));
                        let count: u32 = self.read_paths.value_at(i);
                        proof {
                            lemma_met_is(self@.readers, path@, at@);
                        }
                        Some(Conflict::new(IsTracking::ReadZipper(count), at))
                    },
                    None => None,
                }
            },
        }
    }

    /// Whether a reader at `path` would be given, and the error if not.
    pub fn check_reader(&self, path: &[u8]) -> (free: Result<(), WeightedPermissionErr>)
        requires
            self.wf(),
        ensures
            match self@.read_conflict(path@) {
                None => free is Ok,
                Some(conflict) => free matches Err(error) && error@ == (PermissionErrView {
                    path: path@,
                    message: read_refusal(path@, conflict),
                }),
            },
    {
        match self.reader_conflict(path) {
            Some(conflict) => {
                let mut message = "Conflict trying to acquire read zipper at ".to_owned();
                append_path(&mut message, path);
                message.append(", ");
                message.append(conflict.text().as_str());
                Err(WeightedPermissionErr::new(path, message))
            },
            None => Ok(()),
        }
    }

    /// Requests a new reader at `path`.
    pub fn new_reader(&mut self, path: &[u8], _auth: &()) -> (granted: Result<
        WeightedSpaceReader,
        WeightedPermissionErr,
    >)
        requires
            old(self).wf(),
        ensures
            final(self).wf(),
            match old(self)@.read_conflict(path@) {
                None => granted matches Ok(reader) && reader@ == path@ && final(self)@ == old(
                    self,
                )@.with_reader(path@),
                Some(conflict) => granted matches Err(error) && error@ == (PermissionErrView {
                    path: path@,
                    message: read_refusal(path@, conflict),
                }) && final(self)@ == old(self)@,
            },
    {
        match self.check_reader(path) {
            Err(error) => Err(error),
            Ok(()) => {
                let count: u32 = match self.read_paths.get(path) {
                    Some(count) => count + 1,
                    None => 1,
                };
                self.read_paths.set(path, count);
                proof {
                    assert(self@ =~= old(self)@.with_reader(path@));
                }
                Ok(WeightedSpaceReader { path: slice_to_vec(path) })
            },
        }
    }

    /// Requests a new writer at `path`.
    pub fn new_writer(&mut self, path: &[u8], _auth: &()) -> (granted: Result<
        WeightedSpaceWriter,
        WeightedPermissionErr,
    >)
        requires
            old(self).wf(),
        ensures
            final(self).wf(),
            match old(self)@.write_conflict(path@) {
                None => granted matches Ok(writer) && writer@ == path@ && final(self)@ == old(
                    self,
                )@.with_writer(path@),
                Some(conflict) => granted matches Err(error) && error@ == (PermissionErrView {
                    path: path@,
                    message: write_refusal(path@, conflict),
                }) && final(self)@ == old(self)@,
            },
    {
        match self.writer_conflict(path) {
            Some(conflict) => {
                let mut message = "Conflict trying to acquire write zipper at ".to_owned();
                append_path(&mut message, path);
                message.append(", ");
                message.append(conflict.text().as_str());
                Err(WeightedPermissionErr::new(path, message))
            },
            None => {
                self.written_paths.set(path, ());
                proof {
                    assert(self@ =~= old(self)@.with_writer(path@));
                }
                Ok(WeightedSpaceWriter { path: slice_to_vec(path) })
            },
        }
    }

    /// Takes a reader back.
    pub fn release_reader(&mut self, reader: WeightedSpaceReader)
        requires
            old(self).wf(),
            old(self)@.readers.contains_key(reader@),
        ensures
            final(self).wf(),
            final(self)@ == old(self)@.without_reader(reader@),
    {
        match self.read_paths.get(reader.path.as_slice()) {
            Some(count) => {
                if count == 1 {
                    self.read_paths.remove(reader.path.as_slice());
                } else {
                    self.read_paths.set(reader.path.as_slice(), count - 1);
                }
            },
            None => {},
        }
        proof {
            assert(self@ =~= old(self)@.without_reader(reader@));
        }
    }

    /// Takes a writer back.
    pub fn release_writer(&mut self, writer: WeightedSpaceWriter)
        requires
            old(self).wf(),
            old(self)@.writers.contains_key(writer@),
        ensures
            final(self).wf(),
            final(self)@ == old(self)@.without_writer(writer@),
    {
        self.written_paths.remove(writer.path.as_slice());
        proof {
            assert(self@ =~= old(self)@.without_writer(writer@));
        }
    }
}

}
