//! The objects of a repository.

use crate::duplicate::Duplicate;
use crate::hex::{hex32, hex_of, hex_text, parse_hex32, HexError};
use crate::order::{compare_bytes, lemma_lex_irreflexive, Relation, SortKey};
use crate::sorted_map::SortedMap;
use vstd::prelude::*;

verus! {

/// What an id holds: 32 bytes.
pub type Id = Seq<u8>;

/// An id in hexadecimal notation.
pub fn to_hex(id: &[u8; 32]) -> (r: String)
    ensures
        r@ == hex_text(id@),
{
    hex_of(id.as_slice())
}

/// The first four bytes of an id in hexadecimal notation.
pub fn to_short_hex(id: &[u8; 32]) -> (r: String)
    ensures
        r@ == hex_text(id@.take(4)),
{
    let head: [u8; 4] = [id[0], id[1], id[2], id[3]];
    assert(head@ =~= id@.take(4));
    hex_of(head.as_slice())
}

/// The name of an object: the digest of what it holds.
#[derive(Clone, Copy, Debug, PartialEq, Eq, PartialOrd, Ord, Hash)]
pub struct ObjectId(pub [u8; 32]);

impl View for ObjectId {
    type V = Id;

    open spec fn view(&self) -> Id {
        self.0@
    }
}

/// The contents of a sequence of ids.
pub open spec fn ids(s: Seq<ObjectId>) -> Seq<Id> {
    s.map_values(|id: ObjectId| id@)
}

impl SortKey for ObjectId {
    open spec fn rank(v: Id) -> Seq<u8> {
        v
    }

    proof fn rank_injective(a: Id, b: Id) {
    }

    fn compare(&self, other: &Self) -> (r: Relation) {
        compare_bytes(self.0.as_slice(), other.0.as_slice())
    }
}

impl Duplicate for ObjectId {
    fn duplicate(&self) -> (r: Self) {
        *self
    }
}

impl vstd::std_specs::convert::FromSpecImpl<[u8; 32]> for ObjectId {
    open spec fn obeys_from_spec() -> bool {
        true
    }

    open spec fn from_spec(value: [u8; 32]) -> Self {
        ObjectId(value)
    }
}

impl From<[u8; 32]> for ObjectId {
    fn from(value: [u8; 32]) -> (r: Self) {
        ObjectId(value)
    }
}

impl ObjectId {
    /// The id of which all bytes are zero; it names no object.
    pub fn zero() -> (r: Self)
        ensures
            r@ == zero_id(),
    {
        let r = ObjectId([0u8; 32]);
        assert(r@ =~= zero_id());
        r
    }

    pub fn as_ref(&self) -> (r: &[u8])
        ensures
            r@ == self@,
    {
        self.0.as_slice()
    }

    /// Whether both are the same id.
    pub fn is(&self, other: &ObjectId) -> (r: bool)
        ensures
            r == (self@ == other@),
    {
        proof {
            lemma_lex_irreflexive(self@);
        }
        let r = self.compare(other);
        r == Relation::Same
    }

    pub fn to_hex(&self) -> (r: String)
        ensures
            r@ == hex_text(self@),
    {
        to_hex(&self.0)
    }

    pub fn to_short_hex(&self) -> (r: String)
        ensures
            r@ == hex_text(self@.take(4)),
    {
        to_short_hex(&self.0)
    }
}

/// The id of which all bytes are zero.
pub open spec fn zero_id() -> Id {
    Seq::new(32, |i: int| 0u8)
}

/// The name of a repository, which all its clones share.
#[derive(Clone, Copy, Debug, PartialEq, Eq, PartialOrd, Ord, Hash)]
pub struct RepositoryId(pub [u8; 32]);

impl View for RepositoryId {
    type V = Id;

    open spec fn view(&self) -> Id {
        self.0@
    }
}

impl RepositoryId {
    /// Whether both are the same id.
    pub fn is(&self, other: &RepositoryId) -> (r: bool)
        ensures
            r == (self@ == other@),
    {
        proof {
            lemma_lex_irreflexive(self@);
        }
        let r = compare_bytes(self.0.as_slice(), other.0.as_slice());
        r == Relation::Same
    }

    pub fn to_hex(&self) -> (r: String)
        ensures
            r@ == hex_text(self@),
    {
        to_hex(&self.0)
    }

    pub fn to_short_hex(&self) -> (r: String)
        ensures
            r@ == hex_text(self@.take(4)),
    {
        to_short_hex(&self.0)
    }

    /// The id that `s` is the notation of.
    pub fn from_hex(s: &str) -> (r: Option<RepositoryId>)
        ensures
            r is Some <==> hex32(s@) is Ok,
            r matches Some(id) ==> hex32(s@) == Ok::<Id, HexError>(id@),
    {
        match parse_hex32(s) {
            Ok(bytes) => Some(RepositoryId(bytes)),
            Err(_) => None,
        }
    }
}

/// A point in time: how far it lies from the beginning of 1970, in seconds and nanoseconds, and
/// whether it lies before it.
#[derive(Clone, Copy, Debug, PartialEq, Eq, Hash, Structural)]
pub struct Timestamp {
    pub before_epoch: bool,
    pub secs: u64,
    pub nanos: u32,
}

impl View for Timestamp {
    type V = Timestamp;

    open spec fn view(&self) -> Timestamp {
        *self
    }
}

impl Timestamp {
    /// Whether the nanoseconds are fewer than a second has, as they are in each time that a clock
    /// gives.
    pub open spec fn is_valid(self) -> bool {
        self.nanos < 1_000_000_000
    }

    /// Whether `self` lies further from the beginning of 1970 than `other`.
    pub open spec fn further(self, other: Timestamp) -> bool {
        self.secs > other.secs || (self.secs == other.secs && self.nanos > other.nanos)
    }

    /// Whether `self` comes after `other`.
    pub open spec fn after(self, other: Timestamp) -> bool {
        if self.before_epoch != other.before_epoch {
            other.before_epoch
        } else if self.before_epoch {
            other.further(self)
        } else {
            self.further(other)
        }
    }

    /// The seconds and nanoseconds since the beginning of 1970; none where `self` lies before it.
    pub open spec fn since_epoch(self) -> (u64, u32) {
        if self.before_epoch {
            (0, 0)
        } else {
            (self.secs, self.nanos)
        }
    }

    fn is_further(&self, other: &Timestamp) -> (r: bool)
        ensures
            r == self.further(*other),
    {
        self.secs > other.secs || (self.secs == other.secs && self.nanos > other.nanos)
    }

    /// Whether `self` comes after `other`.
    pub fn is_after(&self, other: &Timestamp) -> (r: bool)
        ensures
            r == self.after(*other),
    {
        if self.before_epoch != other.before_epoch {
            other.before_epoch
        } else if self.before_epoch {
            other.is_further(self)
        } else {
            self.is_further(other)
        }
    }

    /// The seconds and nanoseconds since the beginning of 1970; none where `self` lies before it.
    pub fn duration_since_epoch(&self) -> (r: (u64, u32))
        ensures
            r == self.since_epoch(),
    {
        if self.before_epoch {
            (0, 0)
        } else {
            (self.secs, self.nanos)
        }
    }
}

/// Whether both times are known to be, or both not to be, and the same.
pub fn same_time(a: &Option<Timestamp>, b: &Option<Timestamp>) -> (r: bool)
    ensures
        r == (*a == *b),
{
    match (a, b) {
        (Some(x), Some(y)) => *x == *y,
        (None, None) => true,
        _ => false,
    }
}

/// A piece of a file, whose bytes are kept beside the repository.
#[derive(Clone, Copy, Debug, PartialEq, Eq)]
pub struct Chunk;

/// A file: the list of its chunks and what the file system knew of it.
#[derive(Clone, Copy, Debug, PartialEq, Eq)]
pub struct Blob {
    pub chunks: ObjectId,
    pub modified_time: Option<Timestamp>,
    pub accessed_time: Option<Timestamp>,
    pub created_time: Option<Timestamp>,
    pub mode: u32,
}

/// Chunks or lists in the order in which they make up a file.
#[derive(Debug, PartialEq, Eq)]
pub struct List {
    pub entries: Vec<ObjectId>,
}

/// The files of a working tree: paths to blobs.
#[derive(Debug, PartialEq, Eq)]
pub struct PathMap {
    pub entries: SortedMap<String, ObjectId>,
}

/// A state of a working tree and the states that it came from.
#[derive(Debug, PartialEq, Eq)]
pub struct Snapshot {
    pub parents: Vec<ObjectId>,
    pub tree: ObjectId,
    pub message: Option<String>,
    pub date: Timestamp,
}

#[derive(Debug, PartialEq, Eq)]
pub enum Object {
    Chunk(Chunk),
    Blob(Blob),
    PathMap(PathMap),
    List(List),
    Snapshot(Snapshot),
}

#[derive(Debug, PartialEq, Eq)]
pub struct Repository {
    pub repo_uuid: RepositoryId,
    pub objects: SortedMap<ObjectId, Object>,
    pub head: ObjectId,
}

/// What a blob holds.
pub struct BlobView {
    pub chunks: Id,
    pub modified_time: Option<Timestamp>,
    pub accessed_time: Option<Timestamp>,
    pub created_time: Option<Timestamp>,
    pub mode: u32,
}

/// What a snapshot holds.
#[verifier::ext_equal]
pub struct SnapshotView {
    pub parents: Seq<Id>,
    pub tree: Id,
    pub message: Option<Seq<char>>,
    pub date: Timestamp,
}

/// What an object holds.
#[verifier::ext_equal]
pub enum ObjectView {
    Chunk,
    Blob(BlobView),
    PathMap(Map<Seq<char>, Id>),
    List(Seq<Id>),
    Snapshot(SnapshotView),
}

/// The objects of a repository by their ids.
pub type Objects = Map<Id, ObjectView>;

/// What a repository holds.
#[verifier::ext_equal]
pub struct RepositoryView {
    pub repo_uuid: Id,
    pub objects: Objects,
    pub head: Id,
}

impl View for Blob {
    type V = BlobView;

    open spec fn view(&self) -> BlobView {
        BlobView {
            chunks: self.chunks@,
            modified_time: self.modified_time,
            accessed_time: self.accessed_time,
            created_time: self.created_time,
            mode: self.mode,
        }
    }
}

/// What an optional text holds.
pub open spec fn optional_text(m: Option<String>) -> Option<Seq<char>> {
    match m {
        Some(s) => Some(s@),
        None => None,
    }
}

impl View for Snapshot {
    type V = SnapshotView;

    open spec fn view(&self) -> SnapshotView {
        SnapshotView {
            parents: ids(self.parents@),
            tree: self.tree@,
            message: optional_text(self.message),
            date: self.date,
        }
    }
}

impl View for Object {
    type V = ObjectView;

    open spec fn view(&self) -> ObjectView {
        match *self {
            Object::Chunk(_) => ObjectView::Chunk,
            Object::Blob(b) => ObjectView::Blob(b@),
            Object::PathMap(m) => ObjectView::PathMap(m.entries@),
            Object::List(l) => ObjectView::List(ids(l.entries@)),
            Object::Snapshot(s) => ObjectView::Snapshot(s@),
        }
    }
}

impl View for Repository {
    type V = RepositoryView;

    open spec fn view(&self) -> RepositoryView {
        RepositoryView {
            repo_uuid: self.repo_uuid@,
            objects: self.objects@,
            head: self.head@,
        }
    }
}

/// A copy of `v`.
pub fn copy_ids(v: &[ObjectId]) -> (r: Vec<ObjectId>)
    ensures
        r@ == v@,
{
    let mut r: Vec<ObjectId> = Vec::new();
    let mut i: usize = 0;
    while i < v.len()
        invariant
            i <= v@.len(),
            r@ == v@.take(i as int),
        decreases v@.len() - i,
    {
        r.push(v[i]);
        assert(v@.take(i + 1) =~= v@.take(i as int).push(v@[i as int]));
        i += 1;
    }
    assert(v@.take(i as int) =~= v@);
    r
}

/// A copy of `m`.
pub fn copy_message(m: &Option<String>) -> (r: Option<String>)
    ensures
        optional_text(r) == optional_text(*m),
{
    match m {
        Some(s) => Some(s.clone()),
        None => None,
    }
}

impl Duplicate for Object {
    fn duplicate(&self) -> (r: Self) {
        match self {
            Object::Chunk(_) => Object::Chunk(Chunk),
            Object::Blob(b) => Object::Blob(*b),
            Object::PathMap(m) => Object::PathMap(PathMap { entries: m.entries.duplicate() }),
            Object::List(l) => Object::List(List { entries: copy_ids(l.entries.as_slice()) }),
            Object::Snapshot(s) => Object::Snapshot(
                Snapshot {
                    parents: copy_ids(s.parents.as_slice()),
                    tree: s.tree,
                    message: copy_message(&s.message),
                    date: s.date,
                },
            ),
        }
    }
}

impl Clone for Object {
    fn clone(&self) -> (r: Self)
        ensures
            r@ == self@,
    {
        self.duplicate()
    }
}

impl Duplicate for Repository {
    fn duplicate(&self) -> (r: Self) {
        Repository {
            repo_uuid: self.repo_uuid,
            objects: self.objects.duplicate(),
            head: self.head,
        }
    }
}

impl Clone for Repository {
    fn clone(&self) -> (r: Self)
        ensures
            r@ == self@,
    {
        self.duplicate()
    }
}

/// Of two times the one comes after the other whose count of nanoseconds from the beginning of 1970,
/// negative before it, is greater. (A time before 1970 is some way from it.)
pub proof fn law_later_time_counts_more(a: Timestamp, b: Timestamp)
    requires
        a.nanos < 1_000_000_000,
        b.nanos < 1_000_000_000,
        a.before_epoch ==> a.secs > 0 || a.nanos > 0,
        b.before_epoch ==> b.secs > 0 || b.nanos > 0,
    ensures
        a.after(b) <==> (if a.before_epoch {
            -(a.secs * 1_000_000_000 + a.nanos)
        } else {
            a.secs * 1_000_000_000 + a.nanos
        }) > (if b.before_epoch {
            -(b.secs * 1_000_000_000 + b.nanos)
        } else {
            b.secs * 1_000_000_000 + b.nanos
        }),
        !a.before_epoch ==> a.since_epoch().0 * 1_000_000_000 + a.since_epoch().1 == a.secs
            * 1_000_000_000 + a.nanos,
        a.before_epoch ==> a.since_epoch().0 * 1_000_000_000 + a.since_epoch().1 == 0,
{
}

/// What is said of an object is said of all that it holds: nothing of it is lost or changed.
pub proof fn law_objects_are_told_in_full(
    id: ObjectId,
    blob: Blob,
    snap: Snapshot,
    list: List,
    map: PathMap,
    repo: Repository,
)
    ensures
        id@ == id.0@,
        repo.repo_uuid@ == repo.repo_uuid.0@,
        Object::Chunk(Chunk)@ is Chunk,
        Object::Blob(blob)@ matches ObjectView::Blob(b) && {
            &&& b.chunks == blob.chunks.0@
            &&& b.modified_time == blob.modified_time
            &&& b.accessed_time == blob.accessed_time
            &&& b.created_time == blob.created_time
            &&& b.mode == blob.mode
        },
        Object::Snapshot(snap)@ matches ObjectView::Snapshot(s) && {
            &&& s.tree == snap.tree.0@
            &&& s.date == snap.date
            &&& s.message is Some <==> snap.message is Some
            &&& snap.message is Some ==> s.message->0 == (snap.message->0)@
            &&& s.parents.len() == snap.parents@.len()
            &&& forall|i: int|
                0 <= i < snap.parents@.len() ==> #[trigger] s.parents[i] == snap.parents@[i].0@
        },
        Object::List(list)@ matches ObjectView::List(l) && {
            &&& l.len() == list.entries@.len()
            &&& forall|i: int|
                0 <= i < list.entries@.len() ==> #[trigger] l[i] == list.entries@[i].0@
        },
        Object::PathMap(map)@ matches ObjectView::PathMap(m) && m == map.entries@,
        repo@.head == repo.head.0@,
        repo@.repo_uuid == repo.repo_uuid.0@,
        repo@.objects == repo.objects@,
{
}

/// Ids are in the order of their bytes.
pub proof fn law_ids_are_ordered_by_their_bytes(a: Id)
    ensures
        ObjectId::rank(a) == a,
        zero_id() == Seq::new(32, |i: int| 0u8),
{
}

} // verus!
