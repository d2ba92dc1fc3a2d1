//! The walk over the objects of a peer that brings over those that are missing here.

use crate::clock::now;
use crate::duplicate::Duplicate;
use crate::merge::{merged, take_in};
use crate::model::{
    copy_ids, ids, zero_id, Id, Object, ObjectId, ObjectView, Objects, Repository, RepositoryId,
    RepositoryView, Timestamp,
};
use crate::protocol::{
    chunk_views, object_views, Request, RequestView, Response, ResponseView,
};
use crate::order::lex_less;
use crate::sorted_map::{
    law_entries_are_in_order, sorted_entries, sorted_keys, SortedMap, SortedSet,
};
use crate::text::copy_str;
use vstd::prelude::*;
use vstd::string::StringExecFns;

verus! {

/// The number of objects that a client asks for at a time.
pub const CLIENT_BATCH: usize = 2048;

/// The number of objects that a server asks for at a time, of a client that has pushed.
pub const SERVER_BATCH: usize = 64;

/// The ids that an object leads to.
pub open spec fn refs_of(object: ObjectView) -> Seq<Id> {
    match object {
        ObjectView::Chunk => Seq::<Id>::empty(),
        ObjectView::Blob(b) => seq![b.chunks],
        ObjectView::PathMap(m) => sorted_entries::<String, Id>(m).map_values(
            |e: (Seq<char>, Id)| e.1,
        ),
        ObjectView::List(entries) => entries,
        ObjectView::Snapshot(s) => seq![s.tree] + s.parents,
    }
}

/// The ids that an object leads to.
pub fn object_refs(object: &Object) -> (r: Vec<ObjectId>)
    ensures
        ids(r@) == refs_of(object@),
{
    match object {
        Object::Chunk(_) => {
            let r: Vec<ObjectId> = Vec::new();
            assert(ids(r@) =~= refs_of(object@));
            r
        },
        Object::Blob(b) => {
            let r: Vec<ObjectId> = vec![b.chunks];
            assert(ids(r@) =~= refs_of(object@));
            r
        },
        Object::PathMap(m) => {
            let mut r: Vec<ObjectId> = Vec::new();
            let n: usize = m.entries.len();
            let ghost goal = refs_of(object@);
            let mut i: usize = 0;
            assert(ids(r@) =~= goal.take(0));
            while i < n
                invariant
                    n == m.entries.seq().len(),
                    goal == m.entries.seq().map_values(|e: (Seq<char>, Id)| e.1),
                    i <= n,
                    ids(r@) == goal.take(i as int),
                decreases n - i,
            {
                let ghost before = ids(r@);
                let (_, id) = m.entries.entry(i);
                r.push(*id);
                assert(ids(r@) =~= before.push(goal[i as int]));
                assert(goal.take(i + 1) =~= goal.take(i as int).push(goal[i as int]));
                i += 1;
            }
            assert(goal.take(i as int) =~= goal);
            r
        },
        Object::List(l) => copy_ids(l.entries.as_slice()),
        Object::Snapshot(s) => {
            let mut r: Vec<ObjectId> = vec![s.tree];
            let mut parents = copy_ids(s.parents.as_slice());
            r.append(&mut parents);
            assert(ids(r@) =~= refs_of(object@));
            r
        },
    }
}

/// Why objects cannot be had from a peer.
#[derive(Debug, PartialEq, Eq)]
pub enum FetchFault {
    /// The peer has refused to tell its snapshots.
    SnapshotIdsFailed(String),
    /// The peer has answered something else.
    UnexpectedToSnapshotIds,
    /// The peer has refused to give objects.
    ObjectsFailed(String),
    /// The peer has answered something else.
    UnexpectedToObjects,
}

/// What a fault says.
pub enum FetchFaultView {
    SnapshotIdsFailed(Seq<char>),
    UnexpectedToSnapshotIds,
    ObjectsFailed(Seq<char>),
    UnexpectedToObjects,
}

impl View for FetchFault {
    type V = FetchFaultView;

    open spec fn view(&self) -> FetchFaultView {
        match *self {
            FetchFault::SnapshotIdsFailed(e) => FetchFaultView::SnapshotIdsFailed(e@),
            FetchFault::UnexpectedToSnapshotIds => FetchFaultView::UnexpectedToSnapshotIds,
            FetchFault::ObjectsFailed(e) => FetchFaultView::ObjectsFailed(e@),
            FetchFault::UnexpectedToObjects => FetchFaultView::UnexpectedToObjects,
        }
    }
}

impl FetchFault {
    /// The fault in words.
    pub open spec fn words(self) -> Seq<char> {
        match self {
            FetchFault::SnapshotIdsFailed(e) => "snapshot id pull failed: "@ + e@,
            FetchFault::UnexpectedToSnapshotIds => "unexpected response to PullSnapshotIds"@,
            FetchFault::ObjectsFailed(e) => "object pull failed: "@ + e@,
            FetchFault::UnexpectedToObjects => "unexpected response to PullObjects"@,
        }
    }

    /// The fault in words.
    pub fn message(&self) -> (r: String)
        ensures
            r@ == self.words(),
    {
        match self {
            FetchFault::SnapshotIdsFailed(e) => {
                let mut r = copy_str("snapshot id pull failed: ");
                r.append(e.as_str());
                r
            },
            FetchFault::UnexpectedToSnapshotIds => copy_str(
                "unexpected response to PullSnapshotIds",
            ),
            FetchFault::ObjectsFailed(e) => {
                let mut r = copy_str("object pull failed: ");
                r.append(e.as_str());
                r
            },
            FetchFault::UnexpectedToObjects => copy_str("unexpected response to PullObjects"),
        }
    }
}

/// A set of ids.
pub type IdSet = Map<Id, ()>;

/// A walk over the objects of a peer.
pub struct Fetch {
    repo_uuid: RepositoryId,
    local: SortedSet<ObjectId>,
    hint: Option<usize>,
    max: usize,
    started: bool,
    head: ObjectId,
    need: SortedSet<ObjectId>,
    objects: SortedMap<ObjectId, Object>,
    chunks: SortedMap<ObjectId, Vec<u8>>,
    total: usize,
}

/// What a walk holds: the repository, the ids that are here already, how many objects the peer says
/// that it has, the number of objects to ask for at a time, whether the peer has told its
/// snapshots, its head, what is still to be asked for, what has come, and how many objects are
/// expected in all.
#[verifier::ext_equal]
pub struct FetchView {
    pub repo_uuid: Id,
    pub local: IdSet,
    pub hint: Option<usize>,
    pub max: nat,
    pub started: bool,
    pub head: Id,
    pub need: IdSet,
    pub objects: Objects,
    pub chunks: Map<Id, Seq<u8>>,
    pub total: nat,
}

impl View for Fetch {
    type V = FetchView;

    closed spec fn view(&self) -> FetchView {
        FetchView {
            repo_uuid: self.repo_uuid@,
            local: self.local@,
            hint: self.hint,
            max: self.max as nat,
            started: self.started,
            head: self.head@,
            need: self.need@,
            objects: self.objects@,
            chunks: self.chunks@,
            total: self.total as nat,
        }
    }
}

/// The greater of two numbers.
pub open spec fn greater(a: nat, b: nat) -> nat {
    if a >= b {
        a
    } else {
        b
    }
}

/// `n`, or the greatest number that a machine counts to.
pub open spec fn capped(n: nat) -> nat {
    if n > usize::MAX {
        usize::MAX as nat
    } else {
        n
    }
}

impl FetchView {
    /// Whether the object `id` is neither here nor among what has come.
    pub open spec fn lacks(self, id: Id) -> bool {
        !self.local.contains_key(id) && !self.objects.contains_key(id)
    }

    /// The ids to ask for next: the first ones in order.
    pub open spec fn batch(self) -> Seq<Id> {
        let keys = sorted_keys::<ObjectId, ()>(self.need);
        if keys.len() <= self.max {
            keys
        } else {
            keys.take(self.max as int)
        }
    }

    /// The walk once these have been asked for.
    pub open spec fn asked(self) -> FetchView {
        let batch = self.batch();
        FetchView {
            need: Map::new(
                |id: Id| self.need.contains_key(id) && !batch.contains(id),
                |id: Id| (),
            ),
            ..self
        }
    }

    /// What to ask the peer next, and the walk once this has been asked.
    pub open spec fn next_step(self) -> (Option<RequestView>, FetchView) {
        if !self.started {
            (Some(RequestView::PullSnapshotIds { repo_uuid: self.repo_uuid }), self)
        } else if self.need == Map::<Id, ()>::empty() {
            (None, self)
        } else {
            (
                Some(
                    RequestView::PullObjects {
                        repo_uuid: self.repo_uuid,
                        object_ids: self.batch(),
                    },
                ),
                self.asked(),
            )
        }
    }

    /// The number of objects that the peer has and that are not here, as far as it has said how
    /// many it has.
    pub open spec fn hinted(self) -> nat {
        match self.hint {
            Some(n) => if n >= self.local.len() {
                (n - self.local.len()) as nat
            } else {
                0
            },
            None => 0,
        }
    }

    /// The walk once the peer has told its head and its snapshots.
    pub open spec fn told(self, head: Id, snapshot_ids: Seq<Id>) -> FetchView {
        let need = Map::new(
            |id: Id| snapshot_ids.contains(id) && !self.local.contains_key(id),
            |id: Id| (),
        );
        FetchView {
            started: true,
            head,
            need,
            total: greater(greater(need.len(), self.hinted()), 1),
            ..self
        }
    }

    /// The walk with `refs` to be asked for, but for those that are not lacked.
    pub open spec fn with_refs(self, refs: Seq<Id>) -> FetchView {
        FetchView {
            need: Map::new(
                |id: Id| self.need.contains_key(id) || (refs.contains(id) && self.lacks(id)),
                |id: Id| (),
            ),
            ..self
        }
    }

    /// The walk with one more object, and what that leads to to be asked for; an object that is
    /// not lacked is passed over.
    pub open spec fn with_object(self, id: Id, object: ObjectView) -> FetchView {
        if self.lacks(id) {
            let w = self.with_refs(refs_of(object));
            FetchView { objects: w.objects.insert(id, object), ..w }
        } else {
            self
        }
    }

    /// The walk with more objects.
    pub open spec fn with_objects(self, objects: Seq<(Id, ObjectView)>) -> FetchView
        decreases objects.len(),
    {
        if objects.len() == 0 {
            self
        } else {
            self.with_objects(objects.drop_last()).with_object(
                objects.last().0,
                objects.last().1,
            )
        }
    }

    /// The walk with the bytes of more chunks; those of a chunk that came before stay.
    pub open spec fn with_chunks(self, chunks: Seq<(Id, Seq<u8>)>) -> FetchView
        decreases chunks.len(),
    {
        if chunks.len() == 0 {
            self
        } else {
            let w = self.with_chunks(chunks.drop_last());
            let (id, bytes) = chunks.last();
            if w.chunks.contains_key(id) {
                w
            } else {
                FetchView { chunks: w.chunks.insert(id, bytes), ..w }
            }
        }
    }

    /// The walk once a batch of objects has come.
    pub open spec fn received(
        self,
        objects: Seq<(Id, ObjectView)>,
        chunks: Seq<(Id, Seq<u8>)>,
    ) -> FetchView {
        let w = self.with_chunks(chunks).with_objects(objects);
        FetchView {
            total: greater(w.total, capped(w.objects.len() + w.need.len())),
            ..w
        }
    }

    /// The walk once the peer has answered, or why it cannot go on.
    pub open spec fn answered(self, response: ResponseView) -> Result<FetchView, FetchFaultView> {
        if !self.started {
            match response {
                ResponseView::PullSnapshotIds { head, snapshot_ids } => Ok(
                    self.told(head, snapshot_ids),
                ),
                ResponseView::Error(e) => Err(FetchFaultView::SnapshotIdsFailed(e)),
                _ => Err(FetchFaultView::UnexpectedToSnapshotIds),
            }
        } else {
            match response {
                ResponseView::PullObjects { objects, chunks } => Ok(
                    self.received(objects, chunks),
                ),
                ResponseView::Error(e) => Err(FetchFaultView::ObjectsFailed(e)),
                _ => Err(FetchFaultView::UnexpectedToObjects),
            }
        }
    }
}

/// A walk that has not begun.
pub open spec fn fetch_start(
    repo_uuid: Id,
    local: IdSet,
    hint: Option<usize>,
    max: nat,
) -> FetchView {
    FetchView {
        repo_uuid,
        local,
        hint,
        max,
        started: false,
        head: zero_id(),
        need: Map::empty(),
        objects: Map::empty(),
        chunks: Map::empty(),
        total: 1,
    }
}

/// The ids of the objects of a repository.
pub open spec fn ids_of(objects: Objects) -> IdSet {
    Map::new(|id: Id| objects.contains_key(id), |id: Id| ())
}

impl Repository {
    /// The ids of all objects.
    pub fn object_ids(&self) -> (r: SortedSet<ObjectId>)
        ensures
            r@ == ids_of(self@.objects),
    {
        let ghost goal = ids_of(self@.objects);
        let mut r: SortedSet<ObjectId> = SortedMap::new();
        let n: usize = self.objects.len();
        let ghost s = self.objects.seq();
        let mut i: usize = 0;
        while i < n
            invariant
                n == s.len(),
                s == self.objects.seq(),
                goal == ids_of(self@.objects),
                i <= n,
                forall|id: Id| #[trigger] r@.contains_key(id) ==> goal.contains_key(id),
                forall|j: int| 0 <= j < i ==> r@.contains_key((#[trigger] s[j]).0),
            decreases n - i,
        {
            let (id, _) = self.objects.entry(i);
            r.insert(*id, ());
            i += 1;
        }
        proof {
            assert forall|id: Id| goal.contains_key(id) implies #[trigger] r@.contains_key(id) by {
                let j = choose|j: int| 0 <= j < s.len() && (#[trigger] s[j]).0 == id;
                assert(s[j].0 == id);
            }
            assert(r@ =~= goal);
        }
        r
    }
}

/// How many objects a peer says that it has, if it says so.
pub open spec fn hint_of(response: ResponseView) -> Option<nat> {
    match response {
        ResponseView::Status { head, object_count } => Some(object_count),
        _ => None,
    }
}

/// How many objects the peer says that it has.
pub fn total_objects_hint(response: &Response) -> (r: Option<usize>)
    ensures
        match response@ {
            ResponseView::Status { head, object_count } => r matches Some(n) && n == object_count,
            _ => r is None,
        },
        match r {
            Some(n) => hint_of(response@) == Some(n as nat),
            None => hint_of(response@) is None,
        },
{
    match response {
        Response::Status { object_count, .. } => Some(*object_count),
        _ => None,
    }
}

impl Fetch {
    /// A walk over the objects of a peer, which asks for `max` objects at a time.
    pub fn new(
        repo_uuid: RepositoryId,
        local_object_ids: SortedSet<ObjectId>,
        total_objects_hint: Option<usize>,
        max: usize,
    ) -> (r: Self)
        requires
            max > 0,
        ensures
            r@ == fetch_start(repo_uuid@, local_object_ids@, total_objects_hint, max as nat),
    {
        Fetch {
            repo_uuid,
            local: local_object_ids,
            hint: total_objects_hint,
            max,
            started: false,
            head: ObjectId::zero(),
            need: SortedMap::new(),
            objects: SortedMap::new(),
            chunks: SortedMap::new(),
            total: 1,
        }
    }

    /// The number of objects that have come.
    pub fn pulled(&self) -> (r: usize)
        ensures
            r == self@.objects.len(),
    {
        self.objects.len()
    }

    /// The number of objects that are expected in all.
    pub fn total(&self) -> (r: usize)
        ensures
            r == self@.total,
    {
        self.total
    }

    /// What to ask the peer next: first for its snapshots, then for objects, and for nothing once
    /// there is nothing left to ask for.
    pub fn next_request(&mut self) -> (r: Option<Request>)
        ensures
            match r {
                Some(request) => if !old(self)@.started {
                    &&& request@ == RequestView::PullSnapshotIds { repo_uuid: old(self)@.repo_uuid }
                    &&& final(self)@ == old(self)@
                } else {
                    &&& old(self)@.need != Map::<Id, ()>::empty()
                    &&& request@ == RequestView::PullObjects {
                        repo_uuid: old(self)@.repo_uuid,
                        object_ids: old(self)@.batch(),
                    }
                    &&& final(self)@ == old(self)@.asked()
                },
                None => {
                    &&& old(self)@.started
                    &&& old(self)@.need == Map::<Id, ()>::empty()
                    &&& final(self)@ == old(self)@
                },
            },
            match r {
                Some(request) => old(self)@.next_step() == (Some(request@), final(self)@),
                None => old(self)@.next_step() == (None::<RequestView>, final(self)@),
            },
    {
        if !self.started {
            return Some(Request::PullSnapshotIds { repo_uuid: self.repo_uuid });
        }
        if self.need.is_empty() {
            return None;
        }
        let ghost before = self@;
        let n: usize = self.need.len();
        let count: usize = if n <= self.max {
            n
        } else {
            self.max
        };
        let ghost keys = sorted_keys::<ObjectId, ()>(before.need);
        let ghost batch = before.batch();
        assert(batch =~= keys.take(count as int));
        let mut object_ids: Vec<ObjectId> = Vec::new();
        let mut i: usize = 0;
        assert(ids(object_ids@) =~= batch.take(0));
        while i < count
            invariant
                count <= self.need.seq().len(),
                keys == self.need.seq().map_values(|e: (Id, ())| e.0),
                batch == keys.take(count as int),
                self@ == before,
                i <= count,
                ids(object_ids@) == batch.take(i as int),
            decreases count - i,
        {
            let ghost done = ids(object_ids@);
            let (id, _) = self.need.entry(i);
            object_ids.push(*id);
            assert(ids(object_ids@) =~= done.push(batch[i as int]));
            assert(batch.take(i + 1) =~= batch.take(i as int).push(batch[i as int]));
            i += 1;
        }
        assert(batch.take(i as int) =~= batch);
        let mut k: usize = 0;
        while k < object_ids.len()
            invariant
                ids(object_ids@) == batch,
                k <= object_ids@.len(),
                forall|id: Id| #[trigger]
                    self@.need.contains_key(id) <==> before.need.contains_key(id)
                        && !batch.take(k as int).contains(id),
                self@ == (FetchView { need: self@.need, ..before }),
            decreases object_ids@.len() - k,
        {
            let ghost taken = batch.take(k as int);
            let ghost need = self@.need;
            self.need.remove(&object_ids[k]);
            proof {
                let more = batch.take(k + 1);
                assert(batch[k as int] == object_ids@[k as int]@);
                assert(more =~= taken.push(batch[k as int]));
                assert forall|id: Id| more.contains(id) <==> taken.contains(id) || id
                    == batch[k as int] by {
                    if taken.contains(id) {
                        let j = choose|j: int| 0 <= j < taken.len() && taken[j] == id;
                        assert(more[j] == id);
                    }
                    assert(more[k as int] == batch[k as int]);
                    if more.contains(id) && id != batch[k as int] {
                        let j = choose|j: int| 0 <= j < more.len() && more[j] == id;
                        assert(taken[j] == id);
                    }
                }
            }
            k += 1;
        }
        proof {
            assert(batch.take(k as int) =~= batch);
            assert(self@.need =~= before.asked().need);
        }
        Some(Request::PullObjects { repo_uuid: self.repo_uuid, object_ids })
    }

    /// Takes in that the peer has told its head and its snapshots.
    fn take_snapshot_ids(&mut self, head: ObjectId, snapshot_ids: &Vec<ObjectId>)
        ensures
            final(self)@ == old(self)@.told(head@, ids(snapshot_ids@)),
    {
        let ghost before = self@;
        let ghost all = ids(snapshot_ids@);
        let ghost goal = before.told(head@, all).need;
        let mut need: SortedSet<ObjectId> = SortedMap::new();
        let mut i: usize = 0;
        while i < snapshot_ids.len()
            invariant
                all == ids(snapshot_ids@),
                self@ == before,
                goal == before.told(head@, all).need,
                i <= snapshot_ids@.len(),
                forall|id: Id| #[trigger] need@.contains_key(id) ==> goal.contains_key(id),
                forall|j: int|
                    0 <= j < i && !before.local.contains_key(#[trigger] all[j])
                        ==> need@.contains_key(all[j]),
            decreases snapshot_ids@.len() - i,
        {
            let id = snapshot_ids[i];
            assert(all[i as int] == id@);
            if !self.local.contains_key(&id) {
                need.insert(id, ());
            }
            i += 1;
        }
        proof {
            assert forall|id: Id| goal.contains_key(id) implies #[trigger] need@.contains_key(
                id,
            ) by {
                let j = choose|j: int| 0 <= j < all.len() && all[j] == id;
                assert(all[j] == id);
            }
            assert(need@ =~= goal);
        }
        let hinted: usize = match self.hint {
            Some(n) => n.saturating_sub(self.local.len()),
            None => 0,
        };
        let mut total: usize = need.len();
        if total < hinted {
            total = hinted;
        }
        if total < 1 {
            total = 1;
        }
        self.started = true;
        self.head = head;
        self.need = need;
        self.total = total;
        assert(self@ =~= before.told(head@, all));
    }

    /// Takes in the bytes of chunks.
    fn take_chunks(&mut self, chunks: &Vec<(ObjectId, Vec<u8>)>)
        ensures
            final(self)@ == old(self)@.with_chunks(chunk_views(chunks@)),
    {
        let ghost before = self@;
        let ghost all = chunk_views(chunks@);
        let mut i: usize = 0;
        assert(all.take(0) =~= Seq::<(Id, Seq<u8>)>::empty());
        while i < chunks.len()
            invariant
                all == chunk_views(chunks@),
                i <= chunks@.len(),
                self@ == before.with_chunks(all.take(i as int)),
            decreases chunks@.len() - i,
        {
            let (id, data) = &chunks[i];
            assert(all.take(i + 1).drop_last() =~= all.take(i as int));
            assert(all.take(i + 1).last() == (id@, data@));
            self.chunks.insert_absent(*id, data.duplicate());
            assert(self@ =~= before.with_chunks(all.take(i + 1)));
            i += 1;
        }
        assert(all.take(i as int) =~= all);
    }

    /// Takes in that the ids `refs` are to be asked for.
    fn take_refs(&mut self, refs: &Vec<ObjectId>)
        ensures
            final(self)@ == old(self)@.with_refs(ids(refs@)),
    {
        let ghost before = self@;
        let ghost all = ids(refs@);
        let ghost goal = before.with_refs(all).need;
        let mut i: usize = 0;
        while i < refs.len()
            invariant
                all == ids(refs@),
                goal == before.with_refs(all).need,
                self@ == (FetchView { need: self@.need, ..before }),
                i <= refs@.len(),
                forall|id: Id| #[trigger]
                    before.need.contains_key(id) ==> self@.need.contains_key(id),
                forall|id: Id| #[trigger] self@.need.contains_key(id) ==> goal.contains_key(id),
                forall|j: int|
                    0 <= j < i && before.lacks(#[trigger] all[j]) ==> self@.need.contains_key(
                        all[j],
                    ),
            decreases refs@.len() - i,
        {
            let id = refs[i];
            assert(all[i as int] == id@);
            if !self.local.contains_key(&id) && !self.objects.contains_key(&id) {
                self.need.insert(id, ());
            }
            i += 1;
        }
        proof {
            assert forall|id: Id| goal.contains_key(id) implies #[trigger] self@.need.contains_key(
                id,
            ) by {
                if !before.need.contains_key(id) {
                    let j = choose|j: int| 0 <= j < all.len() && all[j] == id;
                    assert(all[j] == id);
                }
            }
            assert(self@.need =~= goal);
            assert(self@ =~= before.with_refs(all));
        }
    }

    /// Takes in objects.
    fn take_objects(&mut self, objects: &Vec<(ObjectId, Object)>)
        ensures
            final(self)@ == old(self)@.with_objects(object_views(objects@)),
    {
        let ghost before = self@;
        let ghost all = object_views(objects@);
        let mut i: usize = 0;
        assert(all.take(0) =~= Seq::<(Id, ObjectView)>::empty());
        while i < objects.len()
            invariant
                all == object_views(objects@),
                i <= objects@.len(),
                self@ == before.with_objects(all.take(i as int)),
            decreases objects@.len() - i,
        {
            let (id, object) = &objects[i];
            assert(all.take(i + 1).drop_last() =~= all.take(i as int));
            assert(all.take(i + 1).last() == (id@, object@));
            if !self.local.contains_key(id) && !self.objects.contains_key(id) {
                let ghost here = self@;
                self.take_refs(&object_refs(object));
                self.objects.insert(*id, object.duplicate());
                assert(self@ =~= here.with_object(id@, object@));
            }
            i += 1;
        }
        assert(all.take(i as int) =~= all);
    }

    /// Takes in what the peer has answered; a walk that fails stays as it was.
    pub fn take_response(&mut self, response: &Response) -> (r: Result<(), FetchFault>)
        ensures
            match (r, old(self)@.answered(response@)) {
                (Ok(_), Ok(w)) => final(self)@ == w,
                (Err(e), Err(f)) => e@ == f && final(self)@ == old(self)@,
                _ => false,
            },
    {
        if !self.started {
            match response {
                Response::PullSnapshotIds { head, snapshot_ids } => {
                    self.take_snapshot_ids(*head, snapshot_ids);
                    Ok(())
                },
                Response::Error(e) => Err(FetchFault::SnapshotIdsFailed(e.duplicate())),
                _ => Err(FetchFault::UnexpectedToSnapshotIds),
            }
        } else {
            match response {
                Response::PullObjects { objects, chunks } => {
                    let ghost before = self@;
                    self.take_chunks(chunks);
                    self.take_objects(objects);
                    let expected: usize = self.objects.len().saturating_add(self.need.len());
                    if expected > self.total {
                        self.total = expected;
                    }
                    assert(self@ =~= before.received(object_views(objects@), chunk_views(chunks@)));
                    Ok(())
                },
                Response::Error(e) => Err(FetchFault::ObjectsFailed(e.duplicate())),
                _ => Err(FetchFault::UnexpectedToObjects),
            }
        }
    }

    /// What has come.
    pub fn finish(self) -> (r: Fetched)
        ensures
            r.head@ == self@.head,
            r.objects@ == self@.objects,
            r.chunks@ == self@.chunks,
    {
        Fetched { head: self.head, objects: self.objects, chunks: self.chunks }
    }
}

/// What has come from a peer: its head, objects, and the bytes of chunks.
pub struct Fetched {
    pub head: ObjectId,
    pub objects: SortedMap<ObjectId, Object>,
    pub chunks: SortedMap<ObjectId, Vec<u8>>,
}

/// The history of a peer as far as it is known: what is here, with what has come.
pub open spec fn remote_history(
    local: RepositoryView,
    head: Id,
    objects: Objects,
) -> RepositoryView {
    RepositoryView {
        repo_uuid: local.repo_uuid,
        objects: local.objects.union_prefer_right(objects),
        head,
    }
}

impl Repository {
    /// Takes in what has come from a peer: its history is merged with the one here, at the given
    /// date.
    pub fn merge_fetched_at(
        &mut self,
        head: ObjectId,
        objects: &SortedMap<ObjectId, Object>,
        date: Timestamp,
    )
        ensures
            final(self)@ == merged(
                old(self)@,
                remote_history(old(self)@, head@, objects@),
                date,
            ),
    {
        let mut remote = self.duplicate();
        take_in(&mut remote.objects, objects);
        remote.head = head;
        assert(remote@ =~= remote_history(self@, head@, objects@));
        self.merge_at(&remote, date);
    }

    /// Takes in what has come from a peer: its history is merged with the one here.
    pub fn merge_fetched(&mut self, head: ObjectId, objects: &SortedMap<ObjectId, Object>)
        ensures
            exists|date: Timestamp|
                date.is_valid() && final(self)@ == #[trigger] merged(
                    old(self)@,
                    remote_history(old(self)@, head@, objects@),
                    date,
                ),
    {
        let date = now();
        self.merge_fetched_at(head, objects, date);
        assert(self@ == merged(old(self)@, remote_history(old(self)@, head@, objects@), date));
    }

    /// The repository of a new clone.
    pub fn from_fetched(
        repo_uuid: RepositoryId,
        head: ObjectId,
        objects: SortedMap<ObjectId, Object>,
    ) -> (r: Self)
        ensures
            r@ == (RepositoryView { repo_uuid: repo_uuid@, objects: objects@, head: head@ }),
    {
        Repository { repo_uuid, objects, head }
    }
}

/// A chunk leads nowhere, a blob to its list, a list to its entries, a snapshot to its tree and to its
/// parents, and a map to just the blobs of its paths.
pub proof fn law_objects_lead_to_their_parts(object: ObjectView, id: Id)
    requires
        object matches ObjectView::PathMap(m) ==> m.dom().finite(),
    ensures
        object is Chunk ==> !refs_of(object).contains(id),
        object matches ObjectView::Blob(b) ==> (refs_of(object).contains(id) <==> id == b.chunks),
        object matches ObjectView::List(entries) ==> refs_of(object) == entries,
        object matches ObjectView::Snapshot(s) ==> (refs_of(object).contains(id) <==> id == s.tree
            || s.parents.contains(id)),
        object matches ObjectView::PathMap(m) ==> (refs_of(object).contains(id) <==> exists|
            path: Seq<char>,
        | #[trigger]
            m.contains_key(path) && m[path] == id),
{
    let refs = refs_of(object);
    match object {
        ObjectView::Blob(b) => {
            assert(refs[0] == b.chunks);
        },
        ObjectView::Snapshot(s) => {
            assert(refs[0] == s.tree);
            if s.parents.contains(id) {
                let i = choose|i: int| 0 <= i < s.parents.len() && s.parents[i] == id;
                assert(refs[i + 1] == id);
            }
            if refs.contains(id) && id != s.tree {
                let i = choose|i: int| 0 <= i < refs.len() && refs[i] == id;
                assert(s.parents[i - 1] == id);
            }
        },
        ObjectView::PathMap(m) => {
            let entries = sorted_entries::<String, Id>(m);
            law_entries_are_in_order::<String, Id>(m);
            if refs.contains(id) {
                let i = choose|i: int| 0 <= i < refs.len() && refs[i] == id;
                assert(entries[i].1 == id);
                assert(m.contains_key(entries[i].0));
            }
            if exists|path: Seq<char>| #[trigger] m.contains_key(path) && m[path] == id {
                let path = choose|path: Seq<char>| #[trigger] m.contains_key(path) && m[path] == id;
                let i = choose|i: int| 0 <= i < entries.len() && (#[trigger] entries[i]).0 == path;
                assert(refs[i] == id);
            }
        },
        _ => {},
    }
}

/// Once a peer has told its head and its snapshots, just those that are not here are to be asked for.
/// As many objects are expected as that, or as the peer has more than are here, but one at least.
pub proof fn law_snapshots_are_asked_for_first(
    v: FetchView,
    head: Id,
    snapshot_ids: Seq<Id>,
    id: Id,
)
    ensures
        ({
            let w = v.told(head, snapshot_ids);
            let more = match v.hint {
                Some(n) => n - v.local.dom().len(),
                None => 0,
            };
            &&& w.started
            &&& w.head == head
            &&& w.need.contains_key(id) <==> snapshot_ids.contains(id) && !v.local.contains_key(id)
            &&& w.local == v.local && w.objects == v.objects && w.chunks == v.chunks
            &&& w.repo_uuid == v.repo_uuid && w.max == v.max
            &&& w.total >= w.need.dom().len() && w.total >= more && w.total >= 1
            &&& w.total == w.need.dom().len() || w.total == more || w.total == 1
        }),
{
}

/// What is asked for next is as many ids as may be asked for at a time, or all where there are no more:
/// the first ones in the order of ids, each once. They are then no longer to be asked for, and the
/// others still are.
pub proof fn law_first_ids_are_asked_for(v: FetchView, id: Id)
    requires
        v.need.dom().finite(),
    ensures
        v.batch().len() == (if v.need.dom().len() <= v.max {
            v.need.dom().len()
        } else {
            v.max
        }),
        v.batch().contains(id) ==> v.need.contains_key(id),
        forall|i: int, j: int|
            0 <= i < j < v.batch().len() ==> lex_less(
                #[trigger] v.batch()[i],
                #[trigger] v.batch()[j],
            ),
        v.need.contains_key(id) && !v.batch().contains(id) ==> forall|i: int|
            0 <= i < v.batch().len() ==> lex_less(#[trigger] v.batch()[i], id),
        v.asked().need.contains_key(id) <==> v.need.contains_key(id) && !v.batch().contains(id),
        v.asked() == (FetchView { need: v.asked().need, ..v }),
{
    let entries = sorted_entries::<ObjectId, ()>(v.need);
    let keys = sorted_keys::<ObjectId, ()>(v.need);
    law_entries_are_in_order::<ObjectId, ()>(v.need);
    let batch = v.batch();
    assert forall|i: int| 0 <= i < keys.len() implies keys[i] == #[trigger] entries[i].0 by {}
    assert forall|i: int| 0 <= i < batch.len() implies #[trigger] batch[i] == entries[i].0 by {
        assert(batch[i] == keys[i]);
    }
    if batch.contains(id) {
        let i = choose|i: int| 0 <= i < batch.len() && batch[i] == id;
        assert(entries[i].0 == id);
    }
    if v.need.contains_key(id) && !batch.contains(id) {
        let k = choose|k: int| 0 <= k < entries.len() && (#[trigger] entries[k]).0 == id;
        assert(k >= batch.len()) by {
            if k < batch.len() {
                assert(batch[k] == id);
            }
        }
    }
}

proof fn lemma_bytes_taken_in(v: FetchView, chunks: Seq<(Id, Seq<u8>)>, id: Id)
    ensures
        ({
            let w = v.with_chunks(chunks);
            &&& w == (FetchView { chunks: w.chunks, ..v })
            &&& w.chunks.contains_key(id) <==> v.chunks.contains_key(id) || exists|i: int|
                0 <= i < chunks.len() && (#[trigger] chunks[i]).0 == id
            &&& v.chunks.contains_key(id) ==> w.chunks[id] == v.chunks[id]
            &&& forall|i: int|
                0 <= i < chunks.len() && (#[trigger] chunks[i]).0 == id && !v.chunks.contains_key(
                    id,
                ) && (forall|j: int| 0 <= j < i ==> (#[trigger] chunks[j]).0 != id)
                    ==> w.chunks[id] == chunks[i].1
        }),
    decreases chunks.len(),
{
    if chunks.len() > 0 {
        let front = chunks.drop_last();
        let n = chunks.len() - 1;
        lemma_bytes_taken_in(v, front, id);
        assert(chunks[n] == chunks.last());
        assert forall|i: int| 0 <= i < front.len() implies front[i] == #[trigger] chunks[i] by {}
        if exists|i: int| 0 <= i < front.len() && (#[trigger] front[i]).0 == id {
            let i = choose|i: int| 0 <= i < front.len() && (#[trigger] front[i]).0 == id;
            assert(chunks[i].0 == id);
        }
        if exists|i: int| 0 <= i < chunks.len() && (#[trigger] chunks[i]).0 == id {
            let i = choose|i: int| 0 <= i < chunks.len() && (#[trigger] chunks[i]).0 == id;
            if i < n {
                assert(front[i].0 == id);
            }
        }
        assert forall|i: int|
            0 <= i < chunks.len() && (#[trigger] chunks[i]).0 == id && !v.chunks.contains_key(id)
                && (forall|j: int| 0 <= j < i ==> (#[trigger] chunks[j]).0 != id) implies
            v.with_chunks(chunks).chunks[id] == chunks[i].1 by {
            assert forall|j: int| 0 <= j < i implies (#[trigger] front[j]).0 != id by {
                assert(chunks[j].0 != id);
            }
            if i < n {
                assert(front[i].0 == id);
            } else {
                assert forall|j: int| 0 <= j < front.len() implies (#[trigger] front[j]).0
                    != id by {
                    assert(chunks[j].0 != id);
                }
            }
        }
    }
}

proof fn lemma_objects_taken_in(v: FetchView, objects: Seq<(Id, ObjectView)>, id: Id)
    ensures
        ({
            let w = v.with_objects(objects);
            &&& w == (FetchView { need: w.need, objects: w.objects, ..v })
            &&& w.objects.contains_key(id) <==> v.objects.contains_key(id) || (
            !v.local.contains_key(id) && exists|i: int|
                0 <= i < objects.len() && (#[trigger] objects[i]).0 == id)
            &&& v.objects.contains_key(id) ==> w.objects[id] == v.objects[id]
            &&& forall|i: int|
                0 <= i < objects.len() && (#[trigger] objects[i]).0 == id && v.lacks(id) && (forall|
                    j: int,
                |
                    0 <= j < i ==> (#[trigger] objects[j]).0 != id) ==> w.objects[id]
                    == objects[i].1
            &&& v.need.contains_key(id) ==> w.need.contains_key(id)
        }),
    decreases objects.len(),
{
    if objects.len() > 0 {
        let front = objects.drop_last();
        let n = objects.len() - 1;
        lemma_objects_taken_in(v, front, id);
        assert(objects[n] == objects.last());
        assert forall|i: int| 0 <= i < front.len() implies front[i] == #[trigger] objects[i] by {}
        if exists|i: int| 0 <= i < front.len() && (#[trigger] front[i]).0 == id {
            let i = choose|i: int| 0 <= i < front.len() && (#[trigger] front[i]).0 == id;
            assert(objects[i].0 == id);
        }
        if exists|i: int| 0 <= i < objects.len() && (#[trigger] objects[i]).0 == id {
            let i = choose|i: int| 0 <= i < objects.len() && (#[trigger] objects[i]).0 == id;
            if i < n {
                assert(front[i].0 == id);
            }
        }
        assert forall|i: int|
            0 <= i < objects.len() && (#[trigger] objects[i]).0 == id && v.lacks(id) && (forall|
                j: int,
            |
                0 <= j < i ==> (#[trigger] objects[j]).0 != id) implies v.with_objects(
            objects,
        ).objects[id] == objects[i].1 by {
            if i < n {
                assert(front[i].0 == id);
                assert forall|j: int| 0 <= j < i implies (#[trigger] front[j]).0 != id by {
                    assert(objects[j].0 != id);
                }
            } else {
                assert forall|j: int| 0 <= j < front.len() implies (#[trigger] front[j]).0
                    != id by {
                    assert(objects[j].0 != id);
                }
            }
        }
    }
}

/// An answer with objects adds each object that was neither here nor had come, and the bytes of each
/// chunk that had none; of two for one id the first counts. Nothing that was there is changed, and
/// what was to be asked for still is. At least as many objects are expected as have come and are to
/// be asked for, and never fewer than before.
pub proof fn law_answer_is_taken_in(
    v: FetchView,
    objects: Seq<(Id, ObjectView)>,
    chunks: Seq<(Id, Seq<u8>)>,
    id: Id,
    i: int,
)
    ensures
        ({
            let w = v.received(objects, chunks);
            &&& w.repo_uuid == v.repo_uuid && w.local == v.local && w.max == v.max && w.head
                == v.head && w.started == v.started
            &&& w.objects.contains_key(id) <==> v.objects.contains_key(id) || (
            !v.local.contains_key(id) && exists|k: int|
                0 <= k < objects.len() && (#[trigger] objects[k]).0 == id)
            &&& v.objects.contains_key(id) ==> w.objects[id] == v.objects[id]
            &&& 0 <= i < objects.len() && objects[i].0 == id && !v.local.contains_key(id)
                && !v.objects.contains_key(id) && (forall|j: int|
                0 <= j < i ==> (#[trigger] objects[j]).0 != id) ==> w.objects[id] == objects[i].1
            &&& w.chunks.contains_key(id) <==> v.chunks.contains_key(id) || exists|k: int|
                0 <= k < chunks.len() && (#[trigger] chunks[k]).0 == id
            &&& v.chunks.contains_key(id) ==> w.chunks[id] == v.chunks[id]
            &&& 0 <= i < chunks.len() && chunks[i].0 == id && !v.chunks.contains_key(id) && (forall|
                j: int,
            |
                0 <= j < i ==> (#[trigger] chunks[j]).0 != id) ==> w.chunks[id] == chunks[i].1
            &&& v.need.contains_key(id) ==> w.need.contains_key(id)
            &&& w.total >= v.total
            &&& w.objects.dom().len() + w.need.dom().len() <= usize::MAX ==> w.total
                >= w.objects.dom().len() + w.need.dom().len()
            &&& w.total == v.total || w.total == w.objects.dom().len() + w.need.dom().len()
                || w.total == usize::MAX
        }),
{
    lemma_bytes_taken_in(v, chunks, id);
    let u = v.with_chunks(chunks);
    lemma_objects_taken_in(u, objects, id);
}

/// Only an answer of the kind that was asked for is taken in: the first one has to tell snapshots and
/// each later one has to give objects. An error is handed on, and any other answer is a fault.
pub proof fn law_answers_are_told_apart(v: FetchView, response: ResponseView)
    ensures
        !v.started ==> match response {
            ResponseView::PullSnapshotIds { head, snapshot_ids } => v.answered(response)
                is Ok && v.answered(response)->Ok_0.started && v.answered(response)->Ok_0.head
                == head,
            ResponseView::Error(e) => v.answered(response) == Err::<FetchView, FetchFaultView>(
                FetchFaultView::SnapshotIdsFailed(e),
            ),
            _ => v.answered(response) == Err::<FetchView, FetchFaultView>(
                FetchFaultView::UnexpectedToSnapshotIds,
            ),
        },
        v.started ==> match response {
            ResponseView::PullObjects { objects, chunks } => v.answered(response) == Ok::<
                FetchView,
                FetchFaultView,
            >(v.received(objects, chunks)),
            ResponseView::Error(e) => v.answered(response) == Err::<FetchView, FetchFaultView>(
                FetchFaultView::ObjectsFailed(e),
            ),
            _ => v.answered(response) == Err::<FetchView, FetchFaultView>(
                FetchFaultView::UnexpectedToObjects,
            ),
        },
{
}

/// A walk begins with nothing, and what has come of a peer is taken for its history together with what
/// was here.
pub proof fn law_walk_begins_with_nothing(
    repo_uuid: Id,
    local: IdSet,
    hint: Option<usize>,
    max: nat,
    repo: RepositoryView,
    head: Id,
    objects: Objects,
    id: Id,
)
    ensures
        ({
            let v = fetch_start(repo_uuid, local, hint, max);
            &&& v.repo_uuid == repo_uuid && v.local == local && v.hint == hint && v.max == max
            &&& !v.started && v.need.dom().len() == 0 && v.objects.dom().len() == 0
                && v.chunks.dom().len() == 0 && v.total == 1
        }),
        ids_of(objects).contains_key(id) <==> objects.contains_key(id),
        ({
            let history = remote_history(repo, head, objects);
            &&& history.head == head
            &&& history.repo_uuid == repo.repo_uuid
            &&& history.objects.contains_key(id) <==> repo.objects.contains_key(id)
                || objects.contains_key(id)
            &&& objects.contains_key(id) ==> history.objects[id] == objects[id]
            &&& repo.objects.contains_key(id) && !objects.contains_key(id) ==> history.objects[id]
                == repo.objects[id]
        }),
{
}

/// A walk asks the peer first for its snapshots, and for nothing else before it has told them; then for
/// objects of the same repository, as long as there is an id that is to be asked for, and each time for
/// one at least. Only a status says how many objects the peer has.
pub proof fn law_walk_asks_while_something_is_needed(v: FetchView, id: Id, response: ResponseView)
    requires
        v.need.dom().finite(),
        v.max > 0,
    ensures
        !v.started ==> v.next_step() == (
            Some(RequestView::PullSnapshotIds { repo_uuid: v.repo_uuid }),
            v,
        ),
        v.started && v.need.contains_key(id) ==> v.batch().len() > 0 && v.next_step().0 == Some(
            RequestView::PullObjects { repo_uuid: v.repo_uuid, object_ids: v.batch() },
        ),
        v.started && v.next_step().0 is None ==> !v.need.contains_key(id) && v.next_step().1 == v,
        v.started && v.next_step().0 is Some ==> v.next_step().1 == v.asked() && v.need.dom().len()
            > 0,
        response matches ResponseView::Status { head, object_count } ==> hint_of(response) == Some(
            object_count,
        ),
        !(response is Status) ==> hint_of(response) is None,
{
    law_first_ids_are_asked_for(v, id);
    if v.need.dom().len() == 0 {
        assert(v.need.dom() =~= Set::empty());
        assert(v.need =~= Map::<Id, ()>::empty());
    }
    if v.need.contains_key(id) {
        assert(v.need.dom().contains(id));
        assert(v.need.dom().len() > 0) by {
            if v.need.dom().len() == 0 {
                assert(v.need.dom() =~= Set::empty());
            }
        }
    }
}

} // verus!
