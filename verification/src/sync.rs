//! A walk over the objects of an honest peer comes to an end and brings over all that is missing.

use crate::checkout::bytes_of;
use crate::fetch::{
    fetch_start, ids_of, refs_of, remote_history, FetchFaultView, FetchView, IdSet,
};
use crate::history::{
    has_tree, law_blobs_stay_readable, law_grown_transitive, law_insert_grows, leads_to,
    merge_fits, same_contents,
};
use crate::ids::{map_id, snapshot_id};
use crate::lists::{entry_chunks, law_cycle_is_endless, list_chunks};
use crate::merge::{merge_snapshot, merged, merged_files};
use crate::model::{ids, Id, ObjectId, ObjectView, Objects, RepositoryView, Timestamp};
use crate::protocol::{object_views, RequestView, ResponseView};
use crate::serve::{
    first_unread, found_chunks, found_objects, handles, handles_in_turn,
    law_client_answers_as_a_server, law_snapshot_ids_are_complete, lenient_answer, read_chunks,
    snapshot_ids_of, strict_answer, Task,
};
use crate::sorted_map::{
    lemma_map_of_entry, lemma_sorted_entries_are_entries, sorted_entries, sorted_keys,
};
use crate::tree::files_of;
use vstd::prelude::*;

verus! {

/// The bytes of chunks: what is kept beside a repository.
pub type Store = Map<Id, Seq<u8>>;

/// The chunks `chunk_ids` with their bytes.
pub open spec fn with_bytes(store: Store, chunk_ids: Seq<Id>) -> Seq<(Id, Seq<u8>)> {
    chunk_ids.map_values(|id: Id| (id, store[id]))
}

/// A server that can read all its chunks answers with the objects and the bytes of the chunks that
/// were asked for, and so does a client that is asked in turn.
pub proof fn law_honest_answer(
    objects: Seq<(Id, ObjectView)>,
    chunk_ids: Seq<Id>,
    reads: Seq<Option<Seq<u8>>>,
    store: Store,
)
    requires
        chunk_ids.len() <= reads.len(),
        forall|i: int|
            0 <= i < chunk_ids.len() ==> #[trigger] reads[i] == Some(store[chunk_ids[i]]),
    ensures
        strict_answer(objects, chunk_ids, reads) == (ResponseView::PullObjects {
            objects,
            chunks: with_bytes(store, chunk_ids),
        }),
        lenient_answer(objects, chunk_ids, reads) == strict_answer(objects, chunk_ids, reads),
{
    lemma_all_read(chunk_ids, reads, store);
}

proof fn lemma_all_read(chunk_ids: Seq<Id>, reads: Seq<Option<Seq<u8>>>, store: Store)
    requires
        chunk_ids.len() <= reads.len(),
        forall|i: int|
            0 <= i < chunk_ids.len() ==> #[trigger] reads[i] == Some(store[chunk_ids[i]]),
    ensures
        first_unread(chunk_ids, reads) is None,
        read_chunks(chunk_ids, reads) == with_bytes(store, chunk_ids),
    decreases chunk_ids.len(),
{
    if chunk_ids.len() > 0 {
        let front = chunk_ids.drop_last();
        assert forall|i: int| 0 <= i < front.len() implies #[trigger] reads[i] == Some(
            store[front[i]],
        ) by {
            assert(front[i] == chunk_ids[i]);
        }
        lemma_all_read(front, reads, store);
        let n = chunk_ids.len() - 1;
        assert(reads[n] == Some(store[chunk_ids[n]]));
        assert(with_bytes(store, front).push((chunk_ids[n], store[chunk_ids[n]])) =~= with_bytes(
            store,
            chunk_ids,
        ));
    } else {
        assert(with_bytes(store, chunk_ids) =~= Seq::<(Id, Seq<u8>)>::empty());
    }
}

/// A walk that has just learnt the head and the snapshots of a peer that has the objects `remote`.
pub open spec fn walk_start(
    repo_uuid: Id,
    local: IdSet,
    hint: Option<usize>,
    max: nat,
    remote: Objects,
    head: Id,
) -> FetchView {
    fetch_start(repo_uuid, local, hint, max).told(head, snapshot_ids_of(remote))
}

/// The walk after one more batch has been asked for and answered.
pub open spec fn walk_step(v: FetchView, remote: Objects, store: Store) -> FetchView {
    v.asked().received(
        found_objects(remote, v.batch()),
        with_bytes(store, found_chunks(remote, v.batch())),
    )
}

/// The walk after `n` batches, or when there is nothing left to ask for.
pub open spec fn walk(v: FetchView, remote: Objects, store: Store, n: nat) -> FetchView
    decreases n,
{
    if n == 0 || v.need == Map::<Id, ()>::empty() {
        v
    } else {
        walk(walk_step(v, remote, store), remote, store, (n - 1) as nat)
    }
}

/// Whether an id is here, has come, or is still to be asked for.
pub open spec fn accounted(v: FetchView, id: Id) -> bool {
    v.local.contains_key(id) || v.objects.contains_key(id) || v.need.contains_key(id)
}

/// What holds at each step of a walk: what has come is what the peer has, with the bytes of its
/// chunks, and of what the peer has nothing that is led to is forgotten.
pub open spec fn on_the_way(v: FetchView, remote: Objects, store: Store) -> bool {
    &&& v.need.dom().finite()
    &&& v.objects.dom().finite()
    &&& forall|id: Id| #[trigger]
        v.objects.contains_key(id) ==> remote.contains_key(id) && v.objects[id] == remote[id]
            && !v.local.contains_key(id)
    &&& forall|id: Id, c: Id|
        v.objects.contains_key(id) && #[trigger] refs_of(v.objects[id]).contains(c)
            && remote.contains_key(c) ==> accounted(v, c)
    &&& forall|id: Id|
        #![trigger remote[id]]
        remote.contains_key(id) && remote[id] is Snapshot ==> accounted(v, id)
    &&& forall|id: Id| #[trigger] v.chunks.contains_key(id) ==> v.chunks[id] == store[id]
    &&& forall|id: Id| #[trigger]
        v.objects.contains_key(id) && v.objects[id] is Chunk ==> v.chunks.contains_key(id)
}

proof fn lemma_with_chunks(v: FetchView, chunks: Seq<(Id, Seq<u8>)>, store: Store)
    requires
        forall|i: int| 0 <= i < chunks.len() ==> (#[trigger] chunks[i]).1 == store[chunks[i].0],
        forall|id: Id| #[trigger] v.chunks.contains_key(id) ==> v.chunks[id] == store[id],
    ensures
        v.with_chunks(chunks) == (FetchView { chunks: v.with_chunks(chunks).chunks, ..v }),
        forall|id: Id| #[trigger]
            v.with_chunks(chunks).chunks.contains_key(id) ==> v.with_chunks(chunks).chunks[id]
                == store[id],
        forall|id: Id| #[trigger]
            v.chunks.contains_key(id) ==> v.with_chunks(chunks).chunks.contains_key(id),
        forall|i: int|
            0 <= i < chunks.len() ==> v.with_chunks(chunks).chunks.contains_key(
                (#[trigger] chunks[i]).0,
            ),
        forall|id: Id| #[trigger]
            v.with_chunks(chunks).chunks.contains_key(id) && !v.chunks.contains_key(id)
                ==> exists|i: int| 0 <= i < chunks.len() && (#[trigger] chunks[i]).0 == id,
    decreases chunks.len(),
{
    if chunks.len() > 0 {
        let front = chunks.drop_last();
        assert forall|i: int| 0 <= i < front.len() implies (#[trigger] front[i]).1
            == store[front[i].0] by {
            assert(front[i] == chunks[i]);
        }
        lemma_with_chunks(v, front, store);
        let w = v.with_chunks(chunks);
        assert(chunks[chunks.len() - 1] == chunks.last());
        assert forall|i: int| 0 <= i < chunks.len() implies w.chunks.contains_key(
            (#[trigger] chunks[i]).0,
        ) by {
            if i < front.len() {
                assert(front[i] == chunks[i]);
            }
        }
        assert forall|id: Id| #[trigger]
            w.chunks.contains_key(id) && !v.chunks.contains_key(id) implies exists|i: int|
            0 <= i < chunks.len() && (#[trigger] chunks[i]).0 == id by {
            if v.with_chunks(front).chunks.contains_key(id) {
                let i = choose|i: int| 0 <= i < front.len() && (#[trigger] front[i]).0 == id;
                assert(chunks[i] == front[i]);
            }
        }
    }
}

proof fn lemma_with_objects(v: FetchView, objects: Seq<(Id, ObjectView)>)
    requires
        v.need.dom().finite(),
        v.objects.dom().finite(),
    ensures
        ({
            let w = v.with_objects(objects);
            &&& w == (FetchView { need: w.need, objects: w.objects, ..v })
            &&& w.need.dom().finite()
            &&& w.objects.dom().finite()
            &&& forall|id: Id| #[trigger]
                v.objects.contains_key(id) ==> w.objects.contains_key(id) && w.objects[id]
                    == v.objects[id]
            &&& forall|id: Id| #[trigger] v.need.contains_key(id) ==> w.need.contains_key(id)
            &&& forall|id: Id| #[trigger]
                w.objects.contains_key(id) && !v.objects.contains_key(id) ==> !v.local.contains_key(
                    id,
                ) && exists|i: int|
                    0 <= i < objects.len() && #[trigger] objects[i] == (id, w.objects[id])
            &&& forall|i: int|
                0 <= i < objects.len() ==> v.local.contains_key((#[trigger] objects[i]).0)
                    || w.objects.contains_key(objects[i].0)
            &&& forall|id: Id, c: Id|
                w.objects.contains_key(id) && !v.objects.contains_key(id)
                    && #[trigger] refs_of(w.objects[id]).contains(c) ==> accounted(w, c)
            &&& w.objects == v.objects ==> w.need == v.need
        }),
    decreases objects.len(),
{
    if objects.len() > 0 {
        let front = objects.drop_last();
        lemma_with_objects(v, front);
        let u = v.with_objects(front);
        let w = v.with_objects(objects);
        let (k, object) = objects.last();
        assert(objects[objects.len() - 1] == (k, object));
        let refs = refs_of(object);
        if u.lacks(k) {
            let more = u.with_refs(refs).need.dom();
            let all = u.need.dom().union(refs.to_set());
            assert(more.subset_of(all)) by {
                assert forall|id: Id| more.contains(id) implies all.contains(id) by {}
            }
            vstd::seq_lib::seq_to_set_is_finite(refs);
            vstd::set_lib::lemma_set_subset_finite(all, more);
            assert(!v.objects.contains_key(k));
            assert(w.objects.contains_key(k));
        }
        assert forall|i: int| 0 <= i < objects.len() implies v.local.contains_key(
            (#[trigger] objects[i]).0,
        ) || w.objects.contains_key(objects[i].0) by {
            if i < front.len() {
                assert(front[i] == objects[i]);
            }
        }
        assert forall|id: Id| #[trigger]
            w.objects.contains_key(id) && !v.objects.contains_key(id) implies !v.local.contains_key(
            id,
        ) && exists|i: int|
            0 <= i < objects.len() && #[trigger] objects[i] == (id, w.objects[id]) by {
            if u.objects.contains_key(id) {
                let i = choose|i: int|
                    0 <= i < front.len() && #[trigger] front[i] == (id, u.objects[id]);
                assert(objects[i] == front[i]);
                assert(w.objects[id] == u.objects[id]);
            }
        }
        assert forall|id: Id, c: Id|
            w.objects.contains_key(id) && !v.objects.contains_key(id)
                && #[trigger] refs_of(w.objects[id]).contains(c) implies accounted(w, c) by {
            if u.objects.contains_key(id) {
                assert(w.objects[id] == u.objects[id]);
                assert(accounted(u, c));
            } else {
                assert(id == k);
            }
        }
    }
}

proof fn lemma_found(remote: Objects, asked: Seq<Id>)
    ensures
        forall|i: int|
            0 <= i < found_objects(remote, asked).len() ==> {
                let e = #[trigger] found_objects(remote, asked)[i];
                remote.contains_key(e.0) && e.1 == remote[e.0] && asked.contains(e.0)
            },
        forall|id: Id|
            asked.contains(id) && #[trigger] remote.contains_key(id) ==> found_objects(
                remote,
                asked,
            ).contains((id, remote[id])),
        forall|id: Id|
            asked.contains(id) && #[trigger] remote.contains_key(id) && remote[id] is Chunk
                ==> found_chunks(remote, asked).contains(id),
        forall|i: int|
            0 <= i < found_chunks(remote, asked).len() ==> {
                let id = #[trigger] found_chunks(remote, asked)[i];
                remote.contains_key(id) && remote[id] is Chunk && asked.contains(id)
            },
    decreases asked.len(),
{
    if asked.len() > 0 {
        let front = asked.drop_last();
        let last = asked.last();
        lemma_found(remote, front);
        let before = found_objects(remote, front);
        let all = found_objects(remote, asked);
        let chunks_before = found_chunks(remote, front);
        let chunks = found_chunks(remote, asked);
        assert(asked[asked.len() - 1] == last);
        assert forall|i: int| 0 <= i < all.len() implies ({
            let e = #[trigger] all[i];
            remote.contains_key(e.0) && e.1 == remote[e.0] && asked.contains(e.0)
        }) by {
            if i < before.len() {
                assert(all[i] == before[i]);
                let j = choose|j: int| 0 <= j < front.len() && front[j] == all[i].0;
                assert(asked[j] == front[j]);
            }
        }
        assert forall|i: int| 0 <= i < chunks.len() implies ({
            let id = #[trigger] chunks[i];
            remote.contains_key(id) && remote[id] is Chunk && asked.contains(id)
        }) by {
            if i < chunks_before.len() {
                assert(chunks[i] == chunks_before[i]);
                let j = choose|j: int| 0 <= j < front.len() && front[j] == chunks[i];
                assert(asked[j] == front[j]);
            }
        }
        assert forall|id: Id|
            asked.contains(id) && #[trigger] remote.contains_key(id) implies all.contains(
            (id, remote[id]),
        ) && (remote[id] is Chunk ==> chunks.contains(id)) by {
            if id == last {
                assert(all[before.len() as int] == (id, remote[id]));
                if remote[id] is Chunk {
                    assert(chunks[chunks_before.len() as int] == id);
                }
            } else {
                let j = choose|j: int| 0 <= j < asked.len() && asked[j] == id;
                assert(front[j] == id);
                let k = choose|k: int| 0 <= k < before.len() && before[k] == (id, remote[id]);
                assert(all[k] == before[k]);
                if remote[id] is Chunk {
                    let k = choose|k: int| 0 <= k < chunks_before.len() && chunks_before[k] == id;
                    assert(chunks[k] == chunks_before[k]);
                }
            }
        }
    }
}

/// Each batch keeps what holds on the way.
proof fn lemma_walk_step(v: FetchView, remote: Objects, store: Store)
    requires
        on_the_way(v, remote, store),
    ensures
        on_the_way(walk_step(v, remote, store), remote, store),
        ({
            let w = walk_step(v, remote, store);
            &&& w.local == v.local
            &&& w.max == v.max
            &&& w.head == v.head
            &&& w.repo_uuid == v.repo_uuid
            &&& forall|id: Id| #[trigger]
                v.objects.contains_key(id) ==> w.objects.contains_key(id) && w.objects[id]
                    == v.objects[id]
            &&& w.objects == v.objects ==> w.need == v.asked().need
        }),
{
    let batch = v.batch();
    let a = v.asked();
    let objects = found_objects(remote, batch);
    let chunk_ids = found_chunks(remote, batch);
    let chunks = with_bytes(store, chunk_ids);
    let b = a.with_chunks(chunks);
    let w = walk_step(v, remote, store);
    assert(a.need.dom().subset_of(v.need.dom()));
    vstd::set_lib::lemma_set_subset_finite(v.need.dom(), a.need.dom());
    lemma_found(remote, batch);
    lemma_with_chunks(a, chunks, store);
    lemma_with_objects(b, objects);
    let c = b.with_objects(objects);
    assert(w.objects == c.objects && w.need == c.need && w.chunks == b.chunks);
    assert forall|id: Id| accounted(v, id) && remote.contains_key(id) implies #[trigger] accounted(
        w,
        id,
    ) by {
        if v.need.contains_key(id) && batch.contains(id) {
            assert(objects.contains((id, remote[id])));
            let i = choose|i: int| 0 <= i < objects.len() && objects[i] == (id, remote[id]);
            assert(objects[i].0 == id);
        } else if v.need.contains_key(id) {
            assert(a.need.contains_key(id));
            assert(b.need.contains_key(id));
        }
    }
    assert forall|id: Id| #[trigger] w.objects.contains_key(id) implies remote.contains_key(id)
        && w.objects[id] == remote[id] && !w.local.contains_key(id) by {
        if !v.objects.contains_key(id) {
            let i = choose|i: int|
                0 <= i < objects.len() && #[trigger] objects[i] == (id, c.objects[id]);
            assert(remote.contains_key(objects[i].0));
        }
    }
    assert forall|id: Id, r: Id|
        w.objects.contains_key(id) && #[trigger] refs_of(w.objects[id]).contains(r)
            && remote.contains_key(r) implies accounted(w, r) by {
        if v.objects.contains_key(id) {
            assert(w.objects[id] == v.objects[id]);
            assert(accounted(v, r));
        } else {
            assert(accounted(c, r));
        }
    }
    assert forall|id: Id| #[trigger]
        w.objects.contains_key(id) && w.objects[id] is Chunk implies w.chunks.contains_key(id) by {
        if v.objects.contains_key(id) {
            assert(a.chunks.contains_key(id));
        } else {
            let i = choose|i: int|
                0 <= i < objects.len() && #[trigger] objects[i] == (id, c.objects[id]);
            assert(remote.contains_key(id) && batch.contains(id));
            assert(chunk_ids.contains(id));
            let k = choose|k: int| 0 <= k < chunk_ids.len() && chunk_ids[k] == id;
            assert(chunks[k].0 == id);
        }
    }
    assert forall|id: Id|
        #![trigger remote[id]]
        remote.contains_key(id) && remote[id] is Snapshot implies accounted(w, id) by {
        assert(accounted(v, id));
    }
}

/// A batch is not empty as long as there is something left to ask for.
proof fn lemma_batch(v: FetchView) -> (id: Id)
    requires
        v.need.dom().finite(),
        v.need != Map::<Id, ()>::empty(),
        v.max > 0,
    ensures
        v.need.contains_key(id),
        v.batch().contains(id),
{
    let entries = sorted_entries::<ObjectId, ()>(v.need);
    lemma_sorted_entries_are_entries::<ObjectId, ()>(v.need);
    if entries.len() == 0 {
        assert(v.need =~= Map::<Id, ()>::empty());
    }
    lemma_map_of_entry::<ObjectId, ()>(entries, 0);
    let keys = sorted_keys::<ObjectId, ()>(v.need);
    assert(keys[0] == entries[0].0);
    assert(v.batch()[0] == keys[0]);
    entries[0].0
}

proof fn lemma_walk_ends(v: FetchView, remote: Objects, store: Store) -> (n: nat)
    requires
        on_the_way(v, remote, store),
        remote.dom().finite(),
        v.max > 0,
    ensures
        walk(v, remote, store, n).need == Map::<Id, ()>::empty(),
        on_the_way(walk(v, remote, store, n), remote, store),
        walk(v, remote, store, n).local == v.local,
        walk(v, remote, store, n).head == v.head,
    decreases remote.dom().difference(v.objects.dom()).len(), v.need.dom().len(),
{
    if v.need == Map::<Id, ()>::empty() {
        0
    } else {
        let w = walk_step(v, remote, store);
        lemma_walk_step(v, remote, store);
        let left = remote.dom().difference(v.objects.dom());
        let still = remote.dom().difference(w.objects.dom());
        if w.objects == v.objects {
            let id = lemma_batch(v);
            assert(w.need.dom().subset_of(v.need.dom().remove(id)));
            vstd::set_lib::lemma_len_subset(w.need.dom(), v.need.dom().remove(id));
        } else {
            assert(exists|id: Id| #[trigger]
                w.objects.contains_key(id) && !v.objects.contains_key(id)) by {
                if forall|id: Id| #[trigger]
                    w.objects.contains_key(id) ==> v.objects.contains_key(id) {
                    assert(w.objects =~= v.objects);
                }
            }
            let id = choose|id: Id| #[trigger]
                w.objects.contains_key(id) && !v.objects.contains_key(id);
            assert(left.contains(id));
            assert(still.subset_of(left.remove(id)));
            vstd::set_lib::lemma_len_subset(still, left.remove(id));
        }
        let n = lemma_walk_ends(w, remote, store);
        n + 1
    }
}

/// Whether `v` is the end of a walk over a peer that has the objects `remote`: nothing is left to
/// ask for.
pub open spec fn is_end(v: FetchView) -> bool {
    v.need == Map::<Id, ()>::empty()
}

/// Whether what is here and what has come holds all snapshots of the peer and, of what the peer
/// has, all that the objects that have come lead to; what has come is what the peer has, and the
/// bytes of its chunks have come with it.
pub open spec fn is_complete(v: FetchView, remote: Objects, store: Store) -> bool {
    &&& forall|id: Id|
        #![trigger remote[id]]
        remote.contains_key(id) && remote[id] is Snapshot ==> v.local.contains_key(id)
            || v.objects.contains_key(id)
    &&& forall|id: Id, c: Id|
        v.objects.contains_key(id) && #[trigger] refs_of(v.objects[id]).contains(c)
            && remote.contains_key(c) ==> v.local.contains_key(c) || v.objects.contains_key(c)
    &&& forall|id: Id| #[trigger]
        v.objects.contains_key(id) ==> remote.contains_key(id) && v.objects[id] == remote[id]
    &&& forall|id: Id| #[trigger]
        v.objects.contains_key(id) && v.objects[id] is Chunk ==> v.chunks.contains_key(id)
            && v.chunks[id] == store[id]
}

/// A walk over an honest peer comes to an end, and then it is complete.
pub proof fn law_walk_is_complete(
    repo_uuid: Id,
    local: IdSet,
    hint: Option<usize>,
    max: nat,
    remote: Objects,
    head: Id,
    store: Store,
) -> (n: nat)
    requires
        remote.dom().finite(),
        max > 0,
    ensures
        ({
            let v = walk_start(repo_uuid, local, hint, max, remote, head);
            let w = walk(v, remote, store, n);
            &&& is_end(w)
            &&& is_complete(w, remote, store)
            &&& w.local == local
            &&& w.head == head
        }),
{
    let v = walk_start(repo_uuid, local, hint, max, remote, head);
    lemma_walk_start(repo_uuid, local, hint, max, remote, head, store);
    let n = lemma_walk_ends(v, remote, store);
    n
}

/// Whether a snapshot of the peer that is not here leads to `id` in `steps` steps, over objects of
/// the peer none of which is here.
pub open spec fn reached_outside(remote: Objects, local: IdSet, id: Id, steps: nat) -> bool
    decreases steps,
{
    &&& remote.contains_key(id)
    &&& !local.contains_key(id)
    &&& if steps == 0 {
        remote[id] is Snapshot
    } else {
        exists|parent: Id|
            reached_outside(remote, local, parent, (steps - 1) as nat) && #[trigger] refs_of(
                remote[parent],
            ).contains(id)
    }
}

/// Whether an object of the peer is to come: a snapshot of the peer leads to it over objects none of
/// which is here.
pub open spec fn is_missing(remote: Objects, local: IdSet, id: Id) -> bool {
    exists|steps: nat| reached_outside(remote, local, id, steps)
}

/// The objects that a walk is to bring.
pub open spec fn missing_objects(remote: Objects, local: IdSet) -> Objects {
    Map::new(|id: Id| is_missing(remote, local, id), |id: Id| remote[id])
}

/// The bytes of chunks that a walk is to bring.
pub open spec fn missing_bytes(remote: Objects, local: IdSet, store: Store) -> Store {
    Map::new(
        |id: Id| is_missing(remote, local, id) && remote[id] is Chunk,
        |id: Id| store[id],
    )
}

/// What also holds at each step of a walk: only what is missing has come or is to be asked for,
/// unless the peer has no such object, and the bytes of no other chunks.
pub open spec fn on_purpose(v: FetchView, remote: Objects) -> bool {
    &&& forall|id: Id| #[trigger]
        v.need.contains_key(id) ==> !v.local.contains_key(id) && (remote.contains_key(id)
            ==> is_missing(remote, v.local, id))
    &&& forall|id: Id| #[trigger]
        v.objects.contains_key(id) ==> is_missing(remote, v.local, id)
    &&& forall|id: Id| #[trigger]
        v.chunks.contains_key(id) ==> v.objects.contains_key(id) && v.objects[id] is Chunk
}

proof fn lemma_walk_start(
    repo_uuid: Id,
    local: IdSet,
    hint: Option<usize>,
    max: nat,
    remote: Objects,
    head: Id,
    store: Store,
)
    requires
        remote.dom().finite(),
    ensures
        on_the_way(walk_start(repo_uuid, local, hint, max, remote, head), remote, store),
        on_purpose(walk_start(repo_uuid, local, hint, max, remote, head), remote),
{
    let v = walk_start(repo_uuid, local, hint, max, remote, head);
    let told = snapshot_ids_of(remote);
    assert(v.need.dom().subset_of(told.to_set())) by {
        assert forall|id: Id| v.need.contains_key(id) implies told.to_set().contains(id) by {}
    }
    vstd::seq_lib::seq_to_set_is_finite(told);
    vstd::set_lib::lemma_set_subset_finite(told.to_set(), v.need.dom());
    assert forall|id: Id|
        #![trigger remote[id]]
        remote.contains_key(id) && remote[id] is Snapshot implies accounted(v, id) by {
        law_snapshot_ids_are_complete(remote, id);
    }
    assert forall|id: Id| #[trigger] v.need.contains_key(id) implies !v.local.contains_key(id)
        && is_missing(remote, v.local, id) by {
        law_snapshot_ids_are_complete(remote, id);
        assert(reached_outside(remote, v.local, id, 0));
    }
}

/// Only what is to be asked for is asked for.
proof fn lemma_batch_is_needed(v: FetchView)
    requires
        v.need.dom().finite(),
    ensures
        forall|id: Id| #[trigger] v.batch().contains(id) ==> v.need.contains_key(id),
{
    let entries = sorted_entries::<ObjectId, ()>(v.need);
    lemma_sorted_entries_are_entries::<ObjectId, ()>(v.need);
    assert forall|id: Id| #[trigger] v.batch().contains(id) implies v.need.contains_key(id) by {
        let i = choose|i: int| 0 <= i < v.batch().len() && v.batch()[i] == id;
        assert(sorted_keys::<ObjectId, ()>(v.need)[i] == entries[i].0);
        lemma_map_of_entry::<ObjectId, ()>(entries, i);
    }
}

/// What more is to be asked for is what the objects lead to.
proof fn lemma_need_grows(v: FetchView, objects: Seq<(Id, ObjectView)>)
    ensures
        v.with_objects(objects).local == v.local,
        forall|id: Id| #[trigger]
            v.with_objects(objects).need.contains_key(id) && !v.need.contains_key(id)
                ==> !v.local.contains_key(id) && exists|i: int|
                0 <= i < objects.len() && refs_of((#[trigger] objects[i]).1).contains(id),
    decreases objects.len(),
{
    if objects.len() > 0 {
        let front = objects.drop_last();
        lemma_need_grows(v, front);
        let u = v.with_objects(front);
        let w = v.with_objects(objects);
        assert forall|id: Id| #[trigger]
            w.need.contains_key(id) && !v.need.contains_key(id) implies !v.local.contains_key(id)
            && exists|i: int|
            0 <= i < objects.len() && refs_of((#[trigger] objects[i]).1).contains(id) by {
            if u.need.contains_key(id) {
                let i = choose|i: int|
                    0 <= i < front.len() && refs_of((#[trigger] front[i]).1).contains(id);
                assert(objects[i] == front[i]);
            } else {
                assert(objects[objects.len() - 1] == objects.last());
            }
        }
    }
}

/// Each batch keeps to what is missing.
proof fn lemma_step_on_purpose(v: FetchView, remote: Objects, store: Store)
    requires
        on_the_way(v, remote, store),
        on_purpose(v, remote),
    ensures
        on_purpose(walk_step(v, remote, store), remote),
{
    let batch = v.batch();
    let a = v.asked();
    let objects = found_objects(remote, batch);
    let chunk_ids = found_chunks(remote, batch);
    let chunks = with_bytes(store, chunk_ids);
    let b = a.with_chunks(chunks);
    let c = b.with_objects(objects);
    let w = walk_step(v, remote, store);
    assert(a.need.dom().subset_of(v.need.dom()));
    vstd::set_lib::lemma_set_subset_finite(v.need.dom(), a.need.dom());
    lemma_batch_is_needed(v);
    lemma_found(remote, batch);
    lemma_with_chunks(a, chunks, store);
    lemma_with_objects(b, objects);
    lemma_need_grows(b, objects);
    lemma_walk_step(v, remote, store);
    assert(w.objects == c.objects && w.need == c.need && w.chunks == b.chunks);
    assert forall|id: Id| #[trigger] w.objects.contains_key(id) implies is_missing(
        remote,
        w.local,
        id,
    ) by {
        if !v.objects.contains_key(id) {
            let i = choose|i: int|
                0 <= i < objects.len() && #[trigger] objects[i] == (id, c.objects[id]);
            assert(batch.contains(objects[i].0));
        }
    }
    assert forall|id: Id| #[trigger] w.need.contains_key(id) implies !w.local.contains_key(id) && (
    remote.contains_key(id) ==> is_missing(remote, w.local, id)) by {
        if b.need.contains_key(id) {
            assert(v.need.contains_key(id));
        } else if remote.contains_key(id) {
            let i = choose|i: int|
                0 <= i < objects.len() && refs_of((#[trigger] objects[i]).1).contains(id);
            let parent = objects[i].0;
            assert(batch.contains(parent) && remote.contains_key(parent));
            let steps = choose|steps: nat| reached_outside(remote, v.local, parent, steps);
            assert(reached_outside(remote, v.local, id, steps + 1)) by {
                assert(reached_outside(remote, v.local, parent, ((steps + 1) - 1) as nat)
                    && refs_of(remote[parent]).contains(id));
            }
        }
    }
    assert forall|id: Id| #[trigger] w.chunks.contains_key(id) implies w.objects.contains_key(id)
        && w.objects[id] is Chunk by {
        if v.chunks.contains_key(id) {
            assert(w.objects[id] == v.objects[id]);
        } else {
            let k = choose|k: int| 0 <= k < chunks.len() && (#[trigger] chunks[k]).0 == id;
            assert(chunk_ids[k] == id);
            assert(batch.contains(id) && remote.contains_key(id));
            assert(objects.contains((id, remote[id])));
            let i = choose|i: int| 0 <= i < objects.len() && objects[i] == (id, remote[id]);
            assert(b.local.contains_key(objects[i].0) || c.objects.contains_key(objects[i].0));
            assert(w.objects[id] == remote[id]);
        }
    }
}

proof fn lemma_walk_on_purpose(v: FetchView, remote: Objects, store: Store, n: nat)
    requires
        on_the_way(v, remote, store),
        on_purpose(v, remote),
    ensures
        on_the_way(walk(v, remote, store, n), remote, store),
        on_purpose(walk(v, remote, store, n), remote),
        walk(v, remote, store, n).local == v.local,
        walk(v, remote, store, n).head == v.head,
    decreases n,
{
    if n > 0 && v.need != Map::<Id, ()>::empty() {
        lemma_walk_step(v, remote, store);
        lemma_step_on_purpose(v, remote, store);
        lemma_walk_on_purpose(walk_step(v, remote, store), remote, store, (n - 1) as nat);
    }
}

proof fn lemma_missing_has_come(
    w: FetchView,
    remote: Objects,
    store: Store,
    id: Id,
    steps: nat,
)
    requires
        is_complete(w, remote, store),
        reached_outside(remote, w.local, id, steps),
    ensures
        w.objects.contains_key(id),
    decreases steps,
{
    if steps > 0 {
        let parent = choose|parent: Id|
            reached_outside(remote, w.local, parent, (steps - 1) as nat) && #[trigger] refs_of(
                remote[parent],
            ).contains(id);
        lemma_missing_has_come(w, remote, store, parent, (steps - 1) as nat);
        assert(refs_of(w.objects[parent]).contains(id));
    } else {
        assert(remote[id] is Snapshot);
    }
}

/// At its end a walk over an honest peer has brought just the objects that are missing, and the
/// bytes of just those chunks that are among them.
pub proof fn law_walk_is_exact(
    repo_uuid: Id,
    local: IdSet,
    hint: Option<usize>,
    max: nat,
    remote: Objects,
    head: Id,
    store: Store,
    n: nat,
)
    requires
        remote.dom().finite(),
        is_end(walk(walk_start(repo_uuid, local, hint, max, remote, head), remote, store, n)),
    ensures
        ({
            let v = walk_start(repo_uuid, local, hint, max, remote, head);
            let w = walk(v, remote, store, n);
            &&& w.objects == missing_objects(remote, local)
            &&& w.chunks == missing_bytes(remote, local, store)
            &&& w.head == head
            &&& w.local == local
        }),
{
    let v = walk_start(repo_uuid, local, hint, max, remote, head);
    let w = walk(v, remote, store, n);
    lemma_walk_start(repo_uuid, local, hint, max, remote, head, store);
    lemma_walk_on_purpose(v, remote, store, n);
    assert(is_complete(w, remote, store));
    assert forall|id: Id| is_missing(remote, local, id) implies #[trigger] w.objects.contains_key(
        id,
    ) by {
        let steps = choose|steps: nat| reached_outside(remote, local, id, steps);
        lemma_missing_has_come(w, remote, store, id, steps);
    }
    assert(w.objects =~= missing_objects(remote, local));
    let bytes = missing_bytes(remote, local, store);
    assert forall|id: Id| #[trigger] bytes.contains_key(id) <==> w.chunks.contains_key(id) by {
        if w.chunks.contains_key(id) {
            assert(w.objects[id] == remote[id]);
        }
        if bytes.contains_key(id) {
            assert(w.objects.contains_key(id) && w.objects[id] is Chunk);
        }
    }
    assert(w.chunks =~= bytes);
}

/// What a walk brings does not depend on how many objects it asks for at a time, nor on how many
/// the peer says that it has.
pub proof fn law_walk_is_the_same_in_any_batches(
    repo_uuid: Id,
    local: IdSet,
    hint: Option<usize>,
    max: nat,
    n: nat,
    other_hint: Option<usize>,
    other_max: nat,
    other_n: nat,
    remote: Objects,
    head: Id,
    store: Store,
)
    requires
        remote.dom().finite(),
        is_end(walk(walk_start(repo_uuid, local, hint, max, remote, head), remote, store, n)),
        is_end(
            walk(
                walk_start(repo_uuid, local, other_hint, other_max, remote, head),
                remote,
                store,
                other_n,
            ),
        ),
    ensures
        ({
            let v = walk(
                walk_start(repo_uuid, local, hint, max, remote, head),
                remote,
                store,
                n,
            );
            let w = walk(
                walk_start(repo_uuid, local, other_hint, other_max, remote, head),
                remote,
                store,
                other_n,
            );
            &&& v.objects == w.objects
            &&& v.chunks == w.chunks
            &&& v.head == w.head
        }),
{
    law_walk_is_exact(repo_uuid, local, hint, max, remote, head, store, n);
    law_walk_is_exact(repo_uuid, local, other_hint, other_max, remote, head, store, other_n);
}

/// Whether a snapshot of the peer leads to `id` in `steps` steps.
pub open spec fn reached(remote: Objects, id: Id, steps: nat) -> bool
    decreases steps,
{
    &&& remote.contains_key(id)
    &&& if steps == 0 {
        remote[id] is Snapshot
    } else {
        exists|parent: Id|
            reached(remote, parent, (steps - 1) as nat) && #[trigger] refs_of(
                remote[parent],
            ).contains(id)
    }
}

/// At the end of a walk all is here that a snapshot of the peer leads to, if what was here already
/// was here with all that it leads to.
pub proof fn law_all_reachable_is_here(
    w: FetchView,
    remote: Objects,
    store: Store,
    id: Id,
    steps: nat,
)
    requires
        is_complete(w, remote, store),
        forall|p: Id, c: Id|
            w.local.contains_key(p) && remote.contains_key(p) && #[trigger] refs_of(
                remote[p],
            ).contains(c) && remote.contains_key(c) ==> w.local.contains_key(c),
        reached(remote, id, steps),
    ensures
        w.local.contains_key(id) || w.objects.contains_key(id),
    decreases steps,
{
    if steps > 0 {
        let parent = choose|parent: Id|
            reached(remote, parent, (steps - 1) as nat) && #[trigger] refs_of(
                remote[parent],
            ).contains(id);
        law_all_reachable_is_here(w, remote, store, parent, (steps - 1) as nat);
        assert(remote.contains_key(parent));
        if w.objects.contains_key(parent) {
            assert(refs_of(w.objects[parent]).contains(id));
        }
    }
}

/// A clone has just the objects of the peer, and the bytes of just its chunks, if each object of the
/// peer is one that a snapshot leads to.
pub proof fn law_clone_is_whole(
    repo_uuid: Id,
    hint: Option<usize>,
    max: nat,
    remote: Objects,
    head: Id,
    store: Store,
) -> (n: nat)
    requires
        remote.dom().finite(),
        max > 0,
        forall|id: Id| #[trigger]
            remote.contains_key(id) ==> exists|steps: nat| reached(remote, id, steps),
    ensures
        ({
            let v = walk_start(repo_uuid, Map::empty(), hint, max, remote, head);
            let w = walk(v, remote, store, n);
            &&& is_end(w)
            &&& w.objects == remote
            &&& w.head == head
            &&& w.chunks == Map::new(
                |id: Id| remote.contains_key(id) && remote[id] is Chunk,
                |id: Id| store[id],
            )
        }),
{
    let v = walk_start(repo_uuid, Map::empty(), hint, max, remote, head);
    let n = law_walk_is_complete(repo_uuid, Map::empty(), hint, max, remote, head, store);
    let w = walk(v, remote, store, n);
    assert forall|id: Id| #[trigger] remote.contains_key(id) implies w.objects.contains_key(id) by {
        let steps = choose|steps: nat| reached(remote, id, steps);
        law_all_reachable_is_here(w, remote, store, id, steps);
    }
    assert(w.objects =~= remote);
    law_walk_is_exact(repo_uuid, Map::empty(), hint, max, remote, head, store, n);
    assert forall|id: Id| #[trigger] remote.contains_key(id) implies is_missing(
        remote,
        Map::empty(),
        id,
    ) by {
        assert(missing_objects(remote, Map::empty()).contains_key(id));
    }
    assert forall|id: Id| is_missing(remote, Map::empty(), id) implies #[trigger]
        remote.contains_key(id) by {
        assert(missing_objects(remote, Map::empty()).contains_key(id));
    }
    assert(w.chunks =~= Map::new(
        |id: Id| remote.contains_key(id) && remote[id] is Chunk,
        |id: Id| store[id],
    ));
    n
}

/// What has been here and what has come agrees with what the peer has: objects that are on both
/// sides hold the same, what was here was here with all that it leads to, and the bytes of its
/// chunks are those that the peer has.
pub open spec fn agrees(
    local: Objects,
    local_store: Store,
    w: FetchView,
    remote: Objects,
    store: Store,
) -> bool {
    &&& w.local == ids_of(local)
    &&& is_complete(w, remote, store)
    &&& forall|id: Id|
        local.contains_key(id) && #[trigger] remote.contains_key(id) ==> same_contents(
            remote[id],
            local[id],
        )
    &&& forall|p: Id, c: Id|
        local.contains_key(p) && remote.contains_key(p) && #[trigger] refs_of(remote[p]).contains(
            c,
        ) && remote.contains_key(c) ==> local.contains_key(c)
    &&& forall|id: Id| #[trigger]
        local.contains_key(id) && local[id] is Chunk ==> local_store.contains_key(id)
    &&& forall|id: Id| #[trigger] local_store.contains_key(id) ==> local_store[id] == store[id]
}

/// The objects that are here once those that have come are taken in.
pub open spec fn here(local: Objects, w: FetchView) -> Objects {
    local.union_prefer_right(w.objects)
}

/// The bytes of chunks that are here once those that have come are written, unless they were here.
pub open spec fn store_here(local_store: Store, w: FetchView) -> Store {
    w.chunks.union_prefer_right(local_store)
}

proof fn lemma_reached_is_here(
    local: Objects,
    local_store: Store,
    w: FetchView,
    remote: Objects,
    store: Store,
    id: Id,
    steps: nat,
)
    requires
        agrees(local, local_store, w, remote, store),
        reached(remote, id, steps),
    ensures
        here(local, w).contains_key(id),
        same_contents(remote[id], here(local, w)[id]),
        remote[id] is Chunk ==> store_here(local_store, w).contains_key(id) && store_here(
            local_store,
            w,
        )[id] == store[id],
{
    assert forall|p: Id, c: Id|
        w.local.contains_key(p) && remote.contains_key(p) && #[trigger] refs_of(remote[p]).contains(
            c,
        ) && remote.contains_key(c) implies w.local.contains_key(c) by {
        assert(local.contains_key(p));
    }
    law_all_reachable_is_here(w, remote, store, id, steps);
    if w.objects.contains_key(id) {
        assert(w.objects[id] == remote[id]);
    } else {
        assert(local.contains_key(id));
        assert(same_contents(remote[id], local[id]));
    }
}

proof fn lemma_reached_entries(
    local: Objects,
    local_store: Store,
    w: FetchView,
    remote: Objects,
    store: Store,
    entries: Seq<Id>,
    depth: nat,
    parent: Id,
    steps: nat,
)
    requires
        agrees(local, local_store, w, remote, store),
        reached(remote, parent, steps),
        remote[parent] is List,
        forall|i: int|
            0 <= i < entries.len() ==> remote[parent]->List_0.contains(#[trigger] entries[i]),
        entry_chunks(remote, entries, depth) is Ok,
    ensures
        entry_chunks(here(local, w), entries, depth) == entry_chunks(remote, entries, depth),
        forall|i: int|
            0 <= i < entry_chunks(remote, entries, depth)->Ok_0.len() ==> store_here(
                local_store,
                w,
            )[#[trigger] entry_chunks(remote, entries, depth)->Ok_0[i]]
                == store[entry_chunks(remote, entries, depth)->Ok_0[i]],
    decreases depth, entries.len() + 1,
{
    if entries.len() > 0 {
        let front = entries.drop_last();
        assert forall|i: int| 0 <= i < front.len() implies remote[parent]->List_0.contains(
            #[trigger] front[i],
        ) by {
            assert(front[i] == entries[i]);
        }
        lemma_reached_entries(
            local,
            local_store,
            w,
            remote,
            store,
            front,
            depth,
            parent,
            steps,
        );
        let id = entries.last();
        assert(entries[entries.len() - 1] == id);
        assert(remote.contains_key(id));
        assert(refs_of(remote[parent]).contains(id));
        assert(reached(remote, id, steps + 1)) by {
            assert(reached(remote, parent, ((steps + 1) - 1) as nat) && refs_of(
                remote[parent],
            ).contains(id));
        }
        lemma_reached_is_here(local, local_store, w, remote, store, id, steps + 1);
        let before = entry_chunks(remote, front, depth)->Ok_0;
        let all = entry_chunks(remote, entries, depth)->Ok_0;
        if remote[id] is List {
            lemma_reached_list(local, local_store, w, remote, store, id, depth, steps + 1);
            let part = list_chunks(remote, id, depth)->Ok_0;
            assert forall|i: int| 0 <= i < all.len() implies store_here(local_store, w)[
            #[trigger] all[i]] == store[all[i]] by {
                if i < before.len() {
                    assert(all[i] == before[i]);
                } else {
                    assert(all[i] == part[i - before.len()]);
                }
            }
        } else {
            assert forall|i: int| 0 <= i < all.len() implies store_here(local_store, w)[
            #[trigger] all[i]] == store[all[i]] by {
                if i < before.len() {
                    assert(all[i] == before[i]);
                }
            }
        }
    }
}

proof fn lemma_reached_list(
    local: Objects,
    local_store: Store,
    w: FetchView,
    remote: Objects,
    store: Store,
    id: Id,
    depth: nat,
    steps: nat,
)
    requires
        agrees(local, local_store, w, remote, store),
        reached(remote, id, steps),
        list_chunks(remote, id, depth) is Ok,
    ensures
        list_chunks(here(local, w), id, depth) == list_chunks(remote, id, depth),
        forall|i: int|
            0 <= i < list_chunks(remote, id, depth)->Ok_0.len() ==> store_here(local_store, w)[
            #[trigger] list_chunks(remote, id, depth)->Ok_0[i]] == store[list_chunks(
                remote,
                id,
                depth,
            )->Ok_0[i]],
    decreases depth, 0nat,
{
    lemma_reached_is_here(local, local_store, w, remote, store, id, steps);
    let entries = remote[id]->List_0;
    lemma_reached_entries(
        local,
        local_store,
        w,
        remote,
        store,
        entries,
        (depth - 1) as nat,
        id,
        steps,
    );
}

/// A file of a snapshot of the peer that can be read there can be read here once a walk has come to
/// its end: its blob leads to the same chunks, and these have the same bytes.
pub proof fn law_pulled_file_is_readable(
    local: Objects,
    local_store: Store,
    w: FetchView,
    remote: Objects,
    store: Store,
    blob: Id,
    chunks: Seq<Id>,
    steps: nat,
)
    requires
        agrees(local, local_store, w, remote, store),
        here(local, w).dom().finite(),
        reached(remote, blob, steps),
        leads_to(remote, blob, chunks),
    ensures
        leads_to(here(local, w), blob, chunks),
        bytes_of(store_here(local_store, w), chunks) == bytes_of(store, chunks),
{
    lemma_reached_is_here(local, local_store, w, remote, store, blob, steps);
    let list = remote[blob]->Blob_0.chunks;
    let depth = remote.len();
    assert(remote.contains_key(list));
    assert(refs_of(remote[blob])[0] == list);
    assert(refs_of(remote[blob]).contains(list));
    assert(reached(remote, list, steps + 1)) by {
        assert(reached(remote, blob, ((steps + 1) - 1) as nat) && refs_of(remote[blob]).contains(
            list,
        ));
    }
    lemma_reached_list(local, local_store, w, remote, store, list, depth, steps + 1);
    law_cycle_is_endless(here(local, w), list, depth);
    let a = store_here(local_store, w);
    assert(chunks.map_values(|id: Id| a[id]) =~= chunks.map_values(|id: Id| store[id]));
}

/// After a pull, that is a walk to its end and a merge of what has come, the head has the files of
/// the head of the peer, but for those that were changed later here, and each file of a snapshot of
/// the peer can be read as it can be there. This takes that nothing else has the ids of the merge
/// and its tree.
pub proof fn law_pull_brings_files(
    local: RepositoryView,
    local_store: Store,
    w: FetchView,
    remote: Objects,
    store: Store,
    date: Timestamp,
    blob: Id,
    chunks: Seq<Id>,
    steps: nat,
)
    requires
        agrees(local.objects, local_store, w, remote, store),
        local.objects.dom().finite(),
        w.objects.dom().finite(),
        local.head != w.head,
        has_tree(remote, w.head),
        merge_fits(local, remote_history(local, w.head, w.objects), date),
        reached(remote, blob, steps),
        leads_to(remote, blob, chunks),
    ensures
        ({
            let after = merged(local, remote_history(local, w.head, w.objects), date);
            let objects = here(local.objects, w);
            let files = files_of(after.objects, after.head);
            &&& leads_to(after.objects, blob, chunks)
            &&& bytes_of(store_here(local_store, w), chunks) == bytes_of(store, chunks)
            &&& files == merged_files(
                objects,
                files_of(objects, local.head),
                files_of(remote, w.head),
            )
        }),
{
    let incoming = remote_history(local, w.head, w.objects);
    let objects = here(local.objects, w);
    let both = local.objects.union_prefer_right(incoming.objects);
    assert(both =~= objects);
    assert(objects.dom() =~= local.objects.dom().union(w.objects.dom()));
    law_pulled_file_is_readable(
        local.objects,
        local_store,
        w,
        remote,
        store,
        blob,
        chunks,
        steps,
    );
    let files = merged_files(both, files_of(both, local.head), files_of(both, incoming.head));
    let snap = merge_snapshot(files, local.head, incoming.head, date);
    let after = merged(local, incoming, date);
    let with_tree = both.insert(map_id(files), ObjectView::PathMap(files));
    law_insert_grows(both, map_id(files), ObjectView::PathMap(files));
    law_insert_grows(with_tree, snapshot_id(snap), ObjectView::Snapshot(snap));
    law_grown_transitive(both, with_tree, after.objects);
    law_blobs_stay_readable(both, after.objects, blob, chunks);
    assert(reached(remote, w.head, 0));
    lemma_reached_is_here(local.objects, local_store, w, remote, store, w.head, 0);
    let tree = remote[w.head]->Snapshot_0.tree;
    assert(refs_of(remote[w.head])[0] == tree);
    assert(refs_of(remote[w.head]).contains(tree));
    assert(reached(remote, tree, 1)) by {
        assert(reached(remote, w.head, (1 - 1) as nat) && refs_of(remote[w.head]).contains(tree));
    }
    lemma_reached_is_here(local.objects, local_store, w, remote, store, tree, 1);
    assert(files_of(objects, w.head) == files_of(remote, w.head));
    assert(with_tree.contains_key(map_id(files)));
    assert(files_of(after.objects, after.head) == files);
}

/// A walk goes on in the same way whether the peer is a server or a client that answers in turn: each
/// answer to a batch brings the walk to its next step, if all its chunks can be read.
pub proof fn law_client_is_walked_as_a_server(
    task: Task,
    v: FetchView,
    repo: RepositoryView,
    reads: Seq<Option<Seq<u8>>>,
    store: Store,
)
    requires
        v.started,
        v.repo_uuid == repo.repo_uuid,
        ({
            let request = RequestView::PullObjects {
                repo_uuid: v.repo_uuid,
                object_ids: v.batch(),
            };
            handles_in_turn(task, request, repo) || handles(task, request, Some(repo))
        }),
        reads.len() == found_chunks(repo.objects, v.batch()).len(),
        forall|i: int|
            0 <= i < reads.len() ==> #[trigger] reads[i] == Some(
                store[found_chunks(repo.objects, v.batch())[i]],
            ),
    ensures
        task is ReadChunks,
        ({
            let answer = task->ReadChunks_0;
            let objects = object_views(answer.objects@);
            let chunk_ids = ids(answer.chunk_ids@);
            let next = Ok::<FetchView, FetchFaultView>(walk_step(v, repo.objects, store));
            &&& v.asked().answered(lenient_answer(objects, chunk_ids, reads)) == next
            &&& v.asked().answered(strict_answer(objects, chunk_ids, reads)) == next
        }),
{
    law_client_answers_as_a_server(task, v.repo_uuid, v.batch(), repo);
    let answer = task->ReadChunks_0;
    law_honest_answer(object_views(answer.objects@), ids(answer.chunk_ids@), reads, store);
}

/// The first answer of a server, or of a client that answers in turn, begins the walk.
pub proof fn law_walk_begins_with_any_peer(
    task: Task,
    local: IdSet,
    hint: Option<usize>,
    max: nat,
    repo: RepositoryView,
)
    requires
        ({
            let request = RequestView::PullSnapshotIds { repo_uuid: repo.repo_uuid };
            handles_in_turn(task, request, repo) || handles(task, request, Some(repo))
        }),
    ensures
        task is Reply,
        fetch_start(repo.repo_uuid, local, hint, max).answered((task->Reply_0)@) == Ok::<
            FetchView,
            FetchFaultView,
        >(walk_start(repo.repo_uuid, local, hint, max, repo.objects, repo.head)),
{
}

} // verus!
