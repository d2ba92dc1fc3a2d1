//! What a server answers.

use crate::duplicate::Duplicate;
use crate::hex::hex_text;
use crate::lists::with_id;
use crate::model::{
    ids, Id, Object, ObjectId, ObjectView, Objects, Repository, RepositoryId,
    RepositoryView, Timestamp,
};
use crate::order::{compare_bytes, lemma_lex_irreflexive, lex_less, Relation};
use crate::protocol::{
    chunk_views, object_views, Request, RequestView, Response, ResponseView, PROTOCOL_VERSION,
};
use crate::sorted_map::{
    law_entries_are_in_order, lemma_map_of_entry, lemma_sorted_entries_are_entries, sorted_entries,
};
use crate::text::{
    contains, contains_text, copy_str, law_parts_of_texts, lowered, to_lower,
};
use vstd::prelude::*;
use vstd::string::StringExecFns;

verus! {

/// The ids of the snapshots among `entries`, in their order.
pub open spec fn snapshots_among(entries: Seq<(Id, ObjectView)>) -> Seq<Id>
    decreases entries.len(),
{
    if entries.len() == 0 {
        Seq::<Id>::empty()
    } else {
        let front = snapshots_among(entries.drop_last());
        if entries.last().1 is Snapshot {
            front.push(entries.last().0)
        } else {
            front
        }
    }
}

/// The ids of all snapshots in their order.
pub open spec fn snapshot_ids_of(objects: Objects) -> Seq<Id> {
    snapshots_among(sorted_entries::<ObjectId, ObjectView>(objects))
}

/// Those of the objects asked for that are there, in the order in which they are asked for.
pub open spec fn found_objects(objects: Objects, asked: Seq<Id>) -> Seq<(Id, ObjectView)>
    decreases asked.len(),
{
    if asked.len() == 0 {
        Seq::<(Id, ObjectView)>::empty()
    } else {
        let front = found_objects(objects, asked.drop_last());
        let id = asked.last();
        if objects.contains_key(id) {
            front.push((id, objects[id]))
        } else {
            front
        }
    }
}

/// Those of the objects asked for that are chunks.
pub open spec fn found_chunks(objects: Objects, asked: Seq<Id>) -> Seq<Id>
    decreases asked.len(),
{
    if asked.len() == 0 {
        Seq::<Id>::empty()
    } else {
        let front = found_chunks(objects, asked.drop_last());
        let id = asked.last();
        if objects.contains_key(id) && objects[id] is Chunk {
            front.push(id)
        } else {
            front
        }
    }
}

/// The error of a request for another repository.
pub open spec fn unknown_repo(requested: Id, available: Id) -> Seq<char> {
    "unknown repo_uuid: requested="@ + hex_text(requested) + ", available="@ + hex_text(available)
}

/// The error of a request where there is no repository.
pub open spec fn no_repo() -> Seq<char> {
    "repository not found — run `scup init` first"@
}

/// The error of a request, if it is one for another repository than the one that is there.
pub open spec fn repo_error(repo: Option<RepositoryView>, requested: Id) -> Option<Seq<char>> {
    match repo {
        None => Some(no_repo()),
        Some(r) => if r.repo_uuid != requested {
            Some(unknown_repo(requested, r.repo_uuid))
        } else {
            None
        },
    }
}

/// What an optional repository holds.
pub open spec fn optional_repo(repo: Option<&Repository>) -> Option<RepositoryView> {
    match repo {
        Some(r) => Some(r@),
        None => None,
    }
}

impl Repository {
    /// The ids of all snapshots in their order.
    pub fn snapshot_ids(&self) -> (r: Vec<ObjectId>)
        ensures
            ids(r@) == snapshot_ids_of(self@.objects),
    {
        let mut r: Vec<ObjectId> = Vec::new();
        let n: usize = self.objects.len();
        let ghost s = self.objects.seq();
        let mut i: usize = 0;
        assert(s.take(0) =~= Seq::<(Id, ObjectView)>::empty());
        assert(ids(r@) =~= snapshots_among(s.take(0)));
        while i < n
            invariant
                n == s.len(),
                s == self.objects.seq(),
                i <= n,
                ids(r@) == snapshots_among(s.take(i as int)),
            decreases n - i,
        {
            let (id, object) = self.objects.entry(i);
            let ghost before = ids(r@);
            assert(s.take(i + 1).drop_last() =~= s.take(i as int));
            assert(s.take(i + 1).last() == (id@, object@));
            if let Object::Snapshot(_) = object {
                r.push(*id);
                assert(ids(r@) =~= before.push(id@));
            }
            i += 1;
        }
        assert(s.take(i as int) =~= s);
        r
    }
}

/// What a request for objects is answered with, but for the bytes of the chunks, which are still
/// to be read.
#[derive(Debug, PartialEq, Eq)]
pub struct PullAnswer {
    pub objects: Vec<(ObjectId, Object)>,
    pub chunk_ids: Vec<ObjectId>,
}

impl PullAnswer {
    /// Whether this answers the request for `asked`.
    pub open spec fn answers(&self, objects: Objects, asked: Seq<Id>) -> bool {
        &&& object_views(self.objects@) == found_objects(objects, asked)
        &&& ids(self.chunk_ids@) == found_chunks(objects, asked)
    }
}

/// What the request for the objects `object_ids` is answered with.
pub fn collect_objects(repo: &Repository, object_ids: &Vec<ObjectId>) -> (r: PullAnswer)
    ensures
        r.answers(repo@.objects, ids(object_ids@)),
{
    let ghost all = ids(object_ids@);
    let ghost held = repo@.objects;
    let mut objects: Vec<(ObjectId, Object)> = Vec::new();
    let mut chunk_ids: Vec<ObjectId> = Vec::new();
    let mut i: usize = 0;
    assert(all.take(0) =~= Seq::<Id>::empty());
    assert(object_views(objects@) =~= found_objects(held, all.take(0)));
    assert(ids(chunk_ids@) =~= found_chunks(held, all.take(0)));
    while i < object_ids.len()
        invariant
            all == ids(object_ids@),
            held == repo@.objects,
            i <= object_ids@.len(),
            object_views(objects@) == found_objects(held, all.take(i as int)),
            ids(chunk_ids@) == found_chunks(held, all.take(i as int)),
        decreases object_ids@.len() - i,
    {
        let id = object_ids[i];
        let ghost before = object_views(objects@);
        let ghost chunks_before = ids(chunk_ids@);
        assert(all.take(i + 1).drop_last() =~= all.take(i as int));
        assert(all.take(i + 1).last() == id@);
        if let Some(object) = repo.objects.get(&id) {
            objects.push((id, object.duplicate()));
            assert(object_views(objects@) =~= before.push((id@, object@)));
            if let Object::Chunk(_) = object {
                chunk_ids.push(id);
                assert(ids(chunk_ids@) =~= chunks_before.push(id@));
            }
        }
        i += 1;
    }
    assert(all.take(i as int) =~= all);
    PullAnswer { objects, chunk_ids }
}

/// The bytes that were read for chunks: `None` where there were none.
pub open spec fn reads_of(reads: Seq<Option<Vec<u8>>>) -> Seq<Option<Seq<u8>>> {
    reads.map_values(
        |r: Option<Vec<u8>>|
            match r {
                Some(bytes) => Some(bytes@),
                None => None,
            },
    )
}

/// The first of `chunk_ids` for which no bytes were read, if there is one.
pub open spec fn first_unread(chunk_ids: Seq<Id>, reads: Seq<Option<Seq<u8>>>) -> Option<Id>
    decreases chunk_ids.len(),
{
    if chunk_ids.len() == 0 {
        None
    } else {
        match first_unread(chunk_ids.drop_last(), reads) {
            Some(id) => Some(id),
            None => {
                let n = chunk_ids.len() - 1;
                if n < reads.len() && reads[n] is Some {
                    None
                } else {
                    Some(chunk_ids[n])
                }
            },
        }
    }
}

/// The chunks for which bytes were read, with these.
pub open spec fn read_chunks(chunk_ids: Seq<Id>, reads: Seq<Option<Seq<u8>>>) -> Seq<(Id, Seq<u8>)>
    decreases chunk_ids.len(),
{
    if chunk_ids.len() == 0 {
        Seq::<(Id, Seq<u8>)>::empty()
    } else {
        let front = read_chunks(chunk_ids.drop_last(), reads);
        let n = chunk_ids.len() - 1;
        if n < reads.len() && reads[n] is Some {
            front.push((chunk_ids[n], reads[n]->0))
        } else {
            front
        }
    }
}

/// The chunks for which bytes were read, with these, and the first for which there were none.
fn match_reads(chunk_ids: &Vec<ObjectId>, reads: Vec<Option<Vec<u8>>>) -> (r: (
    Vec<(ObjectId, Vec<u8>)>,
    Option<ObjectId>,
))
    ensures
        chunk_views(r.0@) == read_chunks(ids(chunk_ids@), reads_of(reads@)),
        match r.1 {
            Some(id) => first_unread(ids(chunk_ids@), reads_of(reads@)) == Some(id@),
            None => first_unread(ids(chunk_ids@), reads_of(reads@)) is None,
        },
{
    let ghost all = ids(chunk_ids@);
    let ghost read = reads_of(reads@);
    let mut chunks: Vec<(ObjectId, Vec<u8>)> = Vec::new();
    let mut unread: Option<ObjectId> = None;
    let mut i: usize = 0;
    assert(all.take(0) =~= Seq::<Id>::empty());
    assert(chunk_views(chunks@) =~= read_chunks(all.take(0), read));
    while i < chunk_ids.len()
        invariant
            all == ids(chunk_ids@),
            read == reads_of(reads@),
            i <= chunk_ids@.len(),
            chunk_views(chunks@) == read_chunks(all.take(i as int), read),
            match unread {
                Some(id) => first_unread(all.take(i as int), read) == Some(id@),
                None => first_unread(all.take(i as int), read) is None,
            },
        decreases chunk_ids@.len() - i,
    {
        let id = chunk_ids[i];
        let ghost before = chunk_views(chunks@);
        assert(all.take(i + 1).drop_last() =~= all.take(i as int));
        assert(all.take(i + 1)[i as int] == id@);
        let mut found: bool = false;
        if i < reads.len() {
            assert(read[i as int] is Some <==> reads@[i as int] is Some);
            if let Some(bytes) = &reads[i] {
                found = true;
                let copy = bytes.duplicate();
                assert(read[i as int] == Some(bytes@));
                chunks.push((id, copy));
                assert(chunk_views(chunks@) =~= before.push((id@, copy@)));
            }
        }
        if !found && unread.is_none() {
            unread = Some(id);
        }
        i += 1;
    }
    assert(all.take(i as int) =~= all);
    (chunks, unread)
}

/// The answer of a server once it has read what chunks it could: an error where one is missing.
pub open spec fn strict_answer(
    objects: Seq<(Id, ObjectView)>,
    chunk_ids: Seq<Id>,
    reads: Seq<Option<Seq<u8>>>,
) -> ResponseView {
    match first_unread(chunk_ids, reads) {
        Some(id) => ResponseView::Error("missing chunk "@ + hex_text(id)),
        None => ResponseView::PullObjects { objects, chunks: read_chunks(chunk_ids, reads) },
    }
}

/// The answer of a client that is asked in turn: chunks that are missing are left out.
pub open spec fn lenient_answer(
    objects: Seq<(Id, ObjectView)>,
    chunk_ids: Seq<Id>,
    reads: Seq<Option<Seq<u8>>>,
) -> ResponseView {
    ResponseView::PullObjects { objects, chunks: read_chunks(chunk_ids, reads) }
}

impl PullAnswer {
    /// The answer of a server: `reads` holds what was read for the chunks in their order.
    pub fn finish(self, reads: Vec<Option<Vec<u8>>>) -> (r: Response)
        ensures
            r@ == strict_answer(
                object_views(self.objects@),
                ids(self.chunk_ids@),
                reads_of(reads@),
            ),
    {
        let (chunks, unread) = match_reads(&self.chunk_ids, reads);
        match unread {
            Some(id) => Response::Error(with_id("missing chunk ", &id)),
            None => Response::PullObjects { objects: self.objects, chunks },
        }
    }

    /// The answer of a client that is asked in turn.
    pub fn finish_with_what_is_there(self, reads: Vec<Option<Vec<u8>>>) -> (r: Response)
        ensures
            r@ == lenient_answer(
                object_views(self.objects@),
                ids(self.chunk_ids@),
                reads_of(reads@),
            ),
    {
        let (chunks, _) = match_reads(&self.chunk_ids, reads);
        Response::PullObjects { objects: self.objects, chunks }
    }
}

/// What there is to do for a request.
#[derive(Debug, PartialEq, Eq)]
pub enum Task {
    /// This is the answer.
    Reply(Response),
    /// The bytes of chunks are to be read.
    ReadChunks(PullAnswer),
    /// The peer is to be asked for what it has, and then the push is complete.
    PullBack,
}

/// Whether `task` is to answer with `reply` at once.
pub open spec fn replies(task: Task, reply: ResponseView) -> bool {
    task matches Task::Reply(r) && r@ == reply
}

/// The error of a request, if it is one for another repository than the one that is there.
fn check_repo(repo: Option<&Repository>, requested: RepositoryId) -> (r: Result<&Repository, String>)
    ensures
        match r {
            Ok(found) => repo == Some(found) && repo_error(optional_repo(repo), requested@) is None,
            Err(e) => repo_error(optional_repo(repo), requested@) == Some(e@),
        },
{
    match repo {
        None => Err(copy_str("repository not found — run `scup init` first")),
        Some(found) => {
            if requested.is(&found.repo_uuid) {
                Ok(found)
            } else {
                let mut e = copy_str("unknown repo_uuid: requested=");
                e.append(requested.to_hex().as_str());
                e.append(", available=");
                e.append(found.repo_uuid.to_hex().as_str());
                Err(e)
            }
        },
    }
}

/// Whether `task` is what there is to do for `request` where the repository `repo` is served.
pub open spec fn handles(
    task: Task,
    request: RequestView,
    repo: Option<RepositoryView>,
) -> bool {
    match request {
        RequestView::Version => replies(task, ResponseView::Version { version: PROTOCOL_VERSION }),
        RequestView::Status => match repo {
            None => replies(task, ResponseView::Error(no_repo())),
            Some(r) => replies(
                task,
                ResponseView::Status { head: r.head, object_count: r.objects.len() },
            ),
        },
        RequestView::Push { repo_uuid } => match repo_error(repo, repo_uuid) {
            Some(e) => replies(task, ResponseView::Error(e)),
            None => task is PullBack,
        },
        RequestView::PullSnapshotIds { repo_uuid } => match repo_error(repo, repo_uuid) {
            Some(e) => replies(task, ResponseView::Error(e)),
            None => replies(
                task,
                ResponseView::PullSnapshotIds {
                    head: repo->0.head,
                    snapshot_ids: snapshot_ids_of(repo->0.objects),
                },
            ),
        },
        RequestView::PullObjects { repo_uuid, object_ids } => match repo_error(repo, repo_uuid) {
            Some(e) => replies(task, ResponseView::Error(e)),
            None => task matches Task::ReadChunks(answer) && answer.answers(
                repo->0.objects,
                object_ids,
            ),
        },
    }
}

/// What there is to do for a request where the repository `repo`, if there is one, is served.
pub fn dispatch_request(request: &Request, repo: Option<&Repository>) -> (r: Task)
    ensures
        handles(r, request@, optional_repo(repo)),
{
    match request {
        Request::Version => Task::Reply(Response::Version { version: PROTOCOL_VERSION }),
        Request::Status => match repo {
            None => Task::Reply(
                Response::Error(copy_str("repository not found — run `scup init` first")),
            ),
            Some(served) => Task::Reply(
                Response::Status { head: served.head, object_count: served.objects.len() },
            ),
        },
        Request::Push { repo_uuid } => match check_repo(repo, *repo_uuid) {
            Ok(_) => Task::PullBack,
            Err(e) => Task::Reply(Response::Error(e)),
        },
        Request::PullSnapshotIds { repo_uuid } => match check_repo(repo, *repo_uuid) {
            Ok(served) => Task::Reply(
                Response::PullSnapshotIds {
                    head: served.head,
                    snapshot_ids: served.snapshot_ids(),
                },
            ),
            Err(e) => Task::Reply(Response::Error(e)),
        },
        Request::PullObjects { repo_uuid, object_ids } => match check_repo(repo, *repo_uuid) {
            Ok(served) => Task::ReadChunks(collect_objects(served, object_ids)),
            Err(e) => Task::Reply(Response::Error(e)),
        },
    }
}

/// Whether `task` is what a client has to do for a request of the server that it has pushed to.
pub open spec fn handles_in_turn(task: Task, request: RequestView, repo: RepositoryView) -> bool {
    match request {
        RequestView::Version => replies(task, ResponseView::Version { version: PROTOCOL_VERSION }),
        RequestView::PullSnapshotIds { repo_uuid } => if repo_uuid != repo.repo_uuid {
            replies(task, ResponseView::Error(unknown_repo(repo_uuid, repo.repo_uuid)))
        } else {
            replies(
                task,
                ResponseView::PullSnapshotIds {
                    head: repo.head,
                    snapshot_ids: snapshot_ids_of(repo.objects),
                },
            )
        },
        RequestView::PullObjects { repo_uuid, object_ids } => if repo_uuid != repo.repo_uuid {
            replies(task, ResponseView::Error(unknown_repo(repo_uuid, repo.repo_uuid)))
        } else {
            task matches Task::ReadChunks(answer) && answer.answers(repo.objects, object_ids)
        },
        _ => replies(task, ResponseView::Error("unsupported local pull request"@)),
    }
}

/// What a client has to do for a request of the server that it has pushed to.
pub fn local_pull_response(repo: &Repository, request: &Request) -> (r: Task)
    ensures
        handles_in_turn(r, request@, repo@),
{
    match request {
        Request::Version => Task::Reply(Response::Version { version: PROTOCOL_VERSION }),
        Request::PullSnapshotIds { repo_uuid } => match check_repo(Some(repo), *repo_uuid) {
            Ok(served) => Task::Reply(
                Response::PullSnapshotIds {
                    head: served.head,
                    snapshot_ids: served.snapshot_ids(),
                },
            ),
            Err(e) => Task::Reply(Response::Error(e)),
        },
        Request::PullObjects { repo_uuid, object_ids } => match check_repo(Some(repo), *repo_uuid) {
            Ok(served) => Task::ReadChunks(collect_objects(served, object_ids)),
            Err(e) => Task::Reply(Response::Error(e)),
        },
        _ => Task::Reply(Response::Error(copy_str("unsupported local pull request"))),
    }
}

/// The answer where the peer will send no more and `pending` is left of a request.
pub open spec fn reply_at_end(pending: Seq<u8>) -> Option<ResponseView> {
    if pending.len() > 0 {
        Some(ResponseView::Error("incomplete framed request at EOF"@))
    } else {
        None
    }
}

/// The answer where the peer will send no more and a request is not complete.
pub fn eof_reply(pending: &Vec<u8>) -> (r: Option<Response>)
    ensures
        r is Some <==> pending@.len() > 0,
        r matches Some(reply) ==> reply@ == ResponseView::Error(
            "incomplete framed request at EOF"@,
        ),
        match r {
            Some(reply) => reply_at_end(pending@) == Some(reply@),
            None => reply_at_end(pending@) is None,
        },
{
    if pending.len() > 0 {
        Some(Response::Error(copy_str("incomplete framed request at EOF")))
    } else {
        None
    }
}

/// Whether a client whose public key is `offered` may connect.
pub open spec fn key_fits(expected: Option<Seq<u8>>, offered: Seq<u8>) -> bool {
    expected matches Some(key) ==> key == offered
}

/// Whether a client whose public key is `offered` may connect: any may where none is expected.
pub fn accepts_key(expected: &Option<Vec<u8>>, offered: &Vec<u8>) -> (r: bool)
    ensures
        r == match *expected {
            Some(key) => key@ == offered@,
            None => true,
        },
        r == key_fits(
            match *expected {
                Some(key) => Some(key@),
                None => None,
            },
            offered@,
        ),
{
    match expected {
        Some(key) => {
            proof {
                lemma_lex_irreflexive(offered@);
            }
            compare_bytes(key.as_slice(), offered.as_slice()) == Relation::Same
        },
        None => true,
    }
}

/// When the file of a repository was last changed, and its length.
pub type Fingerprint = (Timestamp, u64);

/// Whether the file of the repository is in another state than it was.
pub open spec fn is_other_state(last_seen: Option<Fingerprint>, current: Option<Fingerprint>) -> bool {
    last_seen != current
}

/// Whether the file of the repository has to be read again.
pub fn has_changed(last_seen: &Option<Fingerprint>, current: &Option<Fingerprint>) -> (r: bool)
    ensures
        r == (*last_seen != *current),
        r == is_other_state(*last_seen, *current),
{
    match (last_seen, current) {
        (Some(a), Some(b)) => !(a.0 == b.0 && a.1 == b.1),
        (None, None) => false,
        _ => true,
    }
}

/// Whether an error says that the peer has just gone.
pub open spec fn ends_early(error: Seq<char>) -> bool {
    contains_text(lowered(error), "early eof"@)
}

/// Whether a session ended because the peer has just gone.
pub fn is_early_eof(error: &str) -> (r: bool)
    ensures
        r == contains_text(lowered(error@), "early eof"@),
        r == ends_early(error@),
{
    contains(to_lower(error).as_str(), "early eof")
}

/// Each id that is told as that of a snapshot is one, and none is missed.
pub proof fn law_snapshot_ids_are_complete(objects: Objects, id: Id)
    requires
        objects.dom().finite(),
    ensures
        snapshot_ids_of(objects).contains(id) <==> objects.contains_key(id)
            && objects[id] is Snapshot,
{
    let entries = sorted_entries::<ObjectId, ObjectView>(objects);
    lemma_sorted_entries_are_entries::<ObjectId, ObjectView>(objects);
    lemma_snapshots_among(entries, id);
    if objects.contains_key(id) && objects[id] is Snapshot {
        let i = choose|i: int| 0 <= i < entries.len() && (#[trigger] entries[i]).0 == id;
        lemma_map_of_entry::<ObjectId, ObjectView>(entries, i);
    }
    if exists|i: int|
        0 <= i < entries.len() && (#[trigger] entries[i]).0 == id && entries[i].1 is Snapshot {
        let i = choose|i: int|
            0 <= i < entries.len() && (#[trigger] entries[i]).0 == id && entries[i].1 is Snapshot;
        lemma_map_of_entry::<ObjectId, ObjectView>(entries, i);
    }
}

proof fn lemma_snapshots_among(entries: Seq<(Id, ObjectView)>, id: Id)
    ensures
        snapshots_among(entries).contains(id) <==> exists|i: int|
            0 <= i < entries.len() && (#[trigger] entries[i]).0 == id && entries[i].1 is Snapshot,
    decreases entries.len(),
{
    if entries.len() > 0 {
        let front = entries.drop_last();
        let n = entries.len() - 1;
        lemma_snapshots_among(front, id);
        let before = snapshots_among(front);
        let all = snapshots_among(entries);
        assert(entries[n] == entries.last());
        if before.contains(id) {
            let k = choose|k: int| 0 <= k < before.len() && before[k] == id;
            assert(all[k] == id);
            let i = choose|i: int|
                0 <= i < front.len() && (#[trigger] front[i]).0 == id && front[i].1 is Snapshot;
            assert(entries[i] == front[i]);
        }
        if entries.last().1 is Snapshot {
            assert(all[before.len() as int] == entries.last().0);
        }
        if all.contains(id) && !before.contains(id) {
            let k = choose|k: int| 0 <= k < all.len() && all[k] == id;
            if k < before.len() {
                assert(before[k] == id);
            }
        }
        if exists|i: int|
            0 <= i < entries.len() && (#[trigger] entries[i]).0 == id
                && entries[i].1 is Snapshot {
            let i = choose|i: int|
                0 <= i < entries.len() && (#[trigger] entries[i]).0 == id
                    && entries[i].1 is Snapshot;
            if i < n {
                assert(front[i] == entries[i]);
            }
        }
    }
}

/// Just those of the objects asked for that are there are given, in the order in which they are asked
/// for, and of these the chunks are to be read: however many are asked for.
pub proof fn law_what_is_there_is_given(objects: Objects, asked: Seq<Id>)
    ensures
        found_objects(objects, asked) == asked.filter(
            |id: Id| objects.contains_key(id),
        ).map_values(|id: Id| (id, objects[id])),
        found_chunks(objects, asked) == asked.filter(
            |id: Id| objects.contains_key(id) && objects[id] is Chunk,
        ),
    decreases asked.len(),
{
    reveal(Seq::filter);
    let there = |id: Id| objects.contains_key(id);
    let chunk = |id: Id| objects.contains_key(id) && objects[id] is Chunk;
    let pair = |id: Id| (id, objects[id]);
    if asked.len() > 0 {
        law_what_is_there_is_given(objects, asked.drop_last());
        assert(asked.filter(there).map_values(pair) =~= found_objects(objects, asked));
        assert(asked.filter(chunk) =~= found_chunks(objects, asked));
    } else {
        assert(asked.filter(there).map_values(pair) =~= found_objects(objects, asked));
        assert(asked.filter(chunk) =~= found_chunks(objects, asked));
    }
}

/// A client that has pushed answers each request of the server for its repository as a server of that
/// repository does, however many objects it is asked for; and it takes no push itself.
pub proof fn law_client_answers_as_a_server(
    task: Task,
    requested: Id,
    object_ids: Seq<Id>,
    repo: RepositoryView,
)
    ensures
        handles_in_turn(task, RequestView::Version, repo) <==> handles(
            task,
            RequestView::Version,
            Some(repo),
        ),
        handles_in_turn(task, RequestView::PullSnapshotIds { repo_uuid: requested }, repo)
            <==> handles(
            task,
            RequestView::PullSnapshotIds { repo_uuid: requested },
            Some(repo),
        ),
        handles_in_turn(
            task,
            RequestView::PullObjects { repo_uuid: requested, object_ids },
            repo,
        ) <==> handles(
            task,
            RequestView::PullObjects { repo_uuid: requested, object_ids },
            Some(repo),
        ),
        handles_in_turn(task, RequestView::Push { repo_uuid: requested }, repo)
            || handles_in_turn(task, RequestView::Status, repo) ==> task is Reply && (
        task->Reply_0)@ is Error,
{
}

/// A request for objects of the repository that is served leads to an answer with each of them that is
/// there, and to the reading of those that are chunks; of none is anything left out or added.
pub proof fn law_objects_asked_for_are_given(
    task: Task,
    object_ids: Seq<Id>,
    repo: RepositoryView,
)
    requires
        handles(
            task,
            RequestView::PullObjects { repo_uuid: repo.repo_uuid, object_ids },
            Some(repo),
        ) || handles_in_turn(
            task,
            RequestView::PullObjects { repo_uuid: repo.repo_uuid, object_ids },
            repo,
        ),
    ensures
        task is ReadChunks,
        ({
            let answer = task->ReadChunks_0;
            let there = object_ids.filter(|id: Id| repo.objects.contains_key(id));
            &&& answer.objects@.len() == there.len()
            &&& forall|i: int|
                0 <= i < there.len() ==> (#[trigger] answer.objects@[i]).0@ == there[i]
                    && answer.objects@[i].1@ == repo.objects[there[i]]
            &&& ids(answer.chunk_ids@) == object_ids.filter(
                |id: Id| repo.objects.contains_key(id) && repo.objects[id] is Chunk,
            )
        }),
{
    law_what_is_there_is_given(repo.objects, object_ids);
    let answer = task->ReadChunks_0;
    let there = object_ids.filter(|id: Id| repo.objects.contains_key(id));
    let views = object_views(answer.objects@);
    assert(views == there.map_values(|id: Id| (id, repo.objects[id])));
    assert(views.len() == answer.objects@.len());
    assert forall|i: int| 0 <= i < there.len() implies (#[trigger] answer.objects@[i]).0@
        == there[i] && answer.objects@[i].1@ == repo.objects[there[i]] by {
        assert(views[i] == (answer.objects@[i].0@, answer.objects@[i].1@));
        assert(views[i] == (there[i], repo.objects[there[i]]));
    }
}

/// What the other requests lead to: the version is told to all, the head and the number of objects
/// where a repository is served, the head and the ids of just the snapshots to those who name the
/// repository, and a push by those is followed by a pull.
pub proof fn law_requests_are_granted(
    version: Task,
    status: Task,
    snapshots: Task,
    push: Task,
    repo: RepositoryView,
)
    requires
        repo.objects.dom().finite(),
        handles(version, RequestView::Version, Some(repo)),
        handles(status, RequestView::Status, Some(repo)),
        handles(
            snapshots,
            RequestView::PullSnapshotIds { repo_uuid: repo.repo_uuid },
            Some(repo),
        ),
        handles(push, RequestView::Push { repo_uuid: repo.repo_uuid }, Some(repo)),
    ensures
        version matches Task::Reply(r) && r@ == (ResponseView::Version {
            version: PROTOCOL_VERSION,
        }),
        status matches Task::Reply(r) && r@ == (ResponseView::Status {
            head: repo.head,
            object_count: repo.objects.dom().len(),
        }),
        snapshots matches Task::Reply(r) && r@ is PullSnapshotIds && r@->PullSnapshotIds_head
            == repo.head && {
            let told = r@->snapshot_ids;
            &&& told.no_duplicates()
            &&& forall|id: Id| #[trigger]
                told.contains(id) <==> repo.objects.contains_key(id) && repo.objects[id] is Snapshot
            &&& forall|i: int, j: int|
                0 <= i < j < told.len() ==> lex_less(#[trigger] told[i], #[trigger] told[j])
        },
        push is PullBack,
{
    let told = snapshot_ids_of(repo.objects);
    let entries = sorted_entries::<ObjectId, ObjectView>(repo.objects);
    law_entries_are_in_order::<ObjectId, ObjectView>(repo.objects);
    lemma_snapshots_ascend(entries);
    assert forall|id: Id| #[trigger] told.contains(id) <==> repo.objects.contains_key(id)
        && repo.objects[id] is Snapshot by {
        law_snapshot_ids_are_complete(repo.objects, id);
    }
    assert forall|i: int, j: int| 0 <= i < told.len() && 0 <= j < told.len() && i != j implies told[i]
        != told[j] by {
        lemma_lex_irreflexive(told[i]);
        if i < j {
            assert(lex_less(told[i], told[j]));
        } else {
            assert(lex_less(told[j], told[i]));
        }
    }
}

proof fn lemma_snapshots_ascend(entries: Seq<(Id, ObjectView)>)
    requires
        forall|i: int, j: int|
            0 <= i < j < entries.len() ==> lex_less(
                (#[trigger] entries[i]).0,
                (#[trigger] entries[j]).0,
            ),
    ensures
        forall|i: int, j: int|
            0 <= i < j < snapshots_among(entries).len() ==> lex_less(
                #[trigger] snapshots_among(entries)[i],
                #[trigger] snapshots_among(entries)[j],
            ),
    decreases entries.len(),
{
    if entries.len() > 0 {
        let front = entries.drop_last();
        assert forall|i: int, j: int| 0 <= i < j < front.len() implies lex_less(
            (#[trigger] front[i]).0,
            (#[trigger] front[j]).0,
        ) by {
            assert(front[i] == entries[i] && front[j] == entries[j]);
        }
        lemma_snapshots_ascend(front);
        let before = snapshots_among(front);
        let all = snapshots_among(entries);
        assert(entries[entries.len() - 1] == entries.last());
        assert forall|i: int, j: int| 0 <= i < j < all.len() implies lex_less(
            #[trigger] all[i],
            #[trigger] all[j],
        ) by {
            assert(all[i] == before[i]);
            if j < before.len() {
                assert(all[j] == before[j]);
            } else {
                lemma_snapshots_among(front, before[i]);
                assert(before.contains(before[i]));
                let k = choose|k: int|
                    0 <= k < front.len() && (#[trigger] front[k]).0 == before[i]
                        && front[k].1 is Snapshot;
                assert(entries[k] == front[k]);
            }
        }
    }
}

/// A request that names another repository, or that needs one where none is served, is refused, and
/// the answer says which one is there.
pub proof fn law_other_requests_are_refused(
    task: Task,
    request: RequestView,
    repo: Option<RepositoryView>,
    requested: Id,
    object_ids: Seq<Id>,
)
    requires
        handles(task, request, repo),
        request == (RequestView::Push { repo_uuid: requested }) || request == (
        RequestView::PullSnapshotIds { repo_uuid: requested }) || request == (
        RequestView::PullObjects { repo_uuid: requested, object_ids }) || (request is Status
            && repo is None),
        repo matches Some(r) ==> r.repo_uuid != requested,
    ensures
        task is Reply,
        (task->Reply_0)@ is Error,
        ({
            let text = (task->Reply_0)@->Error_0;
            match repo {
                None => text == "repository not found — run `scup init` first"@,
                Some(r) => text == "unknown repo_uuid: requested="@ + hex_text(requested)
                    + ", available="@ + hex_text(r.repo_uuid),
            }
        }),
{
}

/// A server gives the bytes of all chunks or an error that names the first of which it could not read
/// them. A client that is asked in turn leaves those chunks out.
pub proof fn law_chunks_are_read_in_full(
    objects: Seq<(Id, ObjectView)>,
    chunk_ids: Seq<Id>,
    reads: Seq<Option<Seq<u8>>>,
)
    requires
        reads.len() == chunk_ids.len(),
    ensures
        ({
            let strict = strict_answer(objects, chunk_ids, reads);
            let lenient = lenient_answer(objects, chunk_ids, reads);
            &&& strict is Error <==> exists|i: int| 0 <= i < reads.len() && #[trigger] reads[i] is None
            &&& forall|i: int|
                0 <= i < reads.len() && #[trigger] reads[i] is None && (forall|j: int|
                    0 <= j < i ==> #[trigger] reads[j] is Some) ==> strict == ResponseView::Error(
                    "missing chunk "@ + hex_text(chunk_ids[i]),
                )
            &&& !(strict is Error) ==> strict == (ResponseView::PullObjects {
                objects,
                chunks: Seq::new(chunk_ids.len(), |i: int| (chunk_ids[i], reads[i]->0)),
            })
            &&& lenient is PullObjects
            &&& lenient->PullObjects_objects == objects
            &&& lenient->PullObjects_chunks == Seq::new(
                chunk_ids.len(),
                |i: int| (chunk_ids[i], reads[i]),
            ).filter(|e: (Id, Option<Seq<u8>>)| e.1 is Some).map_values(
                |e: (Id, Option<Seq<u8>>)| (e.0, e.1->0),
            )
        }),
{
    let n = chunk_ids.len() as int;
    lemma_reads(chunk_ids, reads, n);
    assert(chunk_ids.take(n) =~= chunk_ids);
    assert(Seq::new(chunk_ids.len(), |i: int| (chunk_ids[i], reads[i])).take(n) =~= Seq::new(
        chunk_ids.len(),
        |i: int| (chunk_ids[i], reads[i]),
    ));
    let whole = Seq::new(chunk_ids.len(), |i: int| (chunk_ids[i], reads[i]->0));
    if first_unread(chunk_ids, reads) is None {
        assert(whole.take(n) =~= whole);
        assert(read_chunks(chunk_ids, reads) =~= whole);
    }
}

proof fn lemma_reads(chunk_ids: Seq<Id>, reads: Seq<Option<Seq<u8>>>, n: int)
    requires
        reads.len() == chunk_ids.len(),
        0 <= n <= chunk_ids.len(),
    ensures
        ({
            let asked = chunk_ids.take(n);
            let first = first_unread(asked, reads);
            &&& first is None ==> forall|i: int| 0 <= i < n ==> #[trigger] reads[i] is Some
            &&& first is Some ==> exists|i: int| 0 <= i < n && #[trigger] reads[i] is None
            &&& forall|i: int|
                0 <= i < n && #[trigger] reads[i] is None && (forall|j: int|
                    0 <= j < i ==> #[trigger] reads[j] is Some) ==> first == Some(chunk_ids[i])
            &&& first is None ==> read_chunks(asked, reads) == Seq::new(
                chunk_ids.len(),
                |i: int| (chunk_ids[i], reads[i]->0),
            ).take(n)
            &&& read_chunks(asked, reads) == Seq::new(
                chunk_ids.len(),
                |i: int| (chunk_ids[i], reads[i]),
            ).take(n).filter(|e: (Id, Option<Seq<u8>>)| e.1 is Some).map_values(
                |e: (Id, Option<Seq<u8>>)| (e.0, e.1->0),
            )
        }),
    decreases n,
{
    reveal(Seq::filter);
    let pairs = Seq::new(chunk_ids.len(), |i: int| (chunk_ids[i], reads[i]));
    let whole = Seq::new(chunk_ids.len(), |i: int| (chunk_ids[i], reads[i]->0));
    let read = |e: (Id, Option<Seq<u8>>)| e.1 is Some;
    let plain = |e: (Id, Option<Seq<u8>>)| (e.0, e.1->0);
    let asked = chunk_ids.take(n);
    if n > 0 {
        lemma_reads(chunk_ids, reads, n - 1);
        assert(asked.drop_last() =~= chunk_ids.take(n - 1));
        assert(asked[n - 1] == chunk_ids[n - 1]);
        assert(pairs.take(n).drop_last() =~= pairs.take(n - 1));
        assert(pairs.take(n).last() == (chunk_ids[n - 1], reads[n - 1]));
        assert(pairs.take(n).filter(read).map_values(plain) =~= read_chunks(asked, reads));
        if first_unread(asked, reads) is None {
            assert(whole.take(n) =~= whole.take(n - 1).push(whole[n - 1]));
        }
    } else {
        assert(pairs.take(n).filter(read).map_values(plain) =~= read_chunks(asked, reads));
        assert(whole.take(n) =~= read_chunks(asked, reads));
    }
}

/// What is said of what was read is said of all of it, one chunk after the other.
pub proof fn law_reads_are_told_in_full(
    reads: Seq<Option<Vec<u8>>>,
    i: int,
    repo: Option<&Repository>,
)
    ensures
        reads_of(reads).len() == reads.len(),
        0 <= i < reads.len() ==> (reads_of(reads)[i] is Some <==> reads[i] is Some) && (
        reads[i] is Some ==> reads_of(reads)[i]->0 == (reads[i]->0)@),
        optional_repo(repo) is Some <==> repo is Some,
        repo matches Some(r) ==> optional_repo(repo)->0 == r@,
{
}

/// Where a key is expected just a client with this key may connect; where none is, each may.
pub proof fn law_clients_that_may_connect(key: Seq<u8>, offered: Seq<u8>)
    ensures
        key_fits(Some(key), offered) <==> key == offered,
        key_fits(None, offered),
{
}

/// The file of a repository has to be read again exactly where it has come or gone, or its time of
/// change or its length is another.
pub proof fn law_when_a_repository_is_read_again(
    time: Timestamp,
    len: u64,
    other_time: Timestamp,
    other_len: u64,
)
    ensures
        is_other_state(Some((time, len)), Some((other_time, other_len))) <==> time != other_time
            || len != other_len,
        is_other_state(None, Some((time, len))),
        is_other_state(Some((time, len)), None),
        !is_other_state(None, None),
{
}

/// A request that is cut off is answered with an error, and where nothing is left over nothing is said.
/// A peer has just gone where the error says so somewhere, in small or capital letters.
pub proof fn law_ends_of_connections(pending: Seq<u8>, error: Seq<char>)
    ensures
        pending.len() == 0 <==> reply_at_end(pending) is None,
        pending.len() > 0 ==> reply_at_end(pending) == Some(
            ResponseView::Error("incomplete framed request at EOF"@),
        ),
        ends_early(error) <==> exists|before: Seq<char>, after: Seq<char>|
            lowered(error) == #[trigger] (before + "early eof"@ + after),
{
    law_parts_of_texts(lowered(error), "early eof"@);
}

} // verus!
