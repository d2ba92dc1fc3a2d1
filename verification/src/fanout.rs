//! Lists over the chunks of a file, in levels whose borders the digests of the chunks set.

use crate::ids::{list_id, list_object_id};
use crate::lists::{chunks_of_list, entry_chunks, law_cycle_is_endless, list_chunks, ListFaultView};
use crate::model::{ids, Id, List, Object, ObjectId, ObjectView, Objects, Repository};
use crate::rollsum::FAN_MASKS;
use vstd::prelude::*;

verus! {

/// An id with the digest at which the bytes that it stands for end.
pub type Node = (Id, u64);

/// What nodes hold.
pub open spec fn nodes(s: Seq<(ObjectId, u64)>) -> Seq<Node> {
    s.map_values(|n: (ObjectId, u64)| (n.0@, n.1))
}

/// The ids of nodes.
pub open spec fn node_ids(s: Seq<Node>) -> Seq<Id> {
    s.map_values(|n: Node| n.0)
}

/// Whether a list ends after the node `n`: all bits of `mask` are set in its digest.
pub open spec fn closes(n: Node, mask: u64) -> bool {
    n.1 & mask == mask
}

/// The nodes of `level` in runs that end where a list ends.
pub open spec fn runs(level: Seq<Node>, mask: u64) -> Seq<Seq<Node>>
    decreases level.len(),
{
    if level.len() == 0 {
        Seq::<Seq<Node>>::empty()
    } else {
        let front = level.drop_last();
        let before = runs(front, mask);
        if front.len() == 0 || closes(front.last(), mask) {
            before.push(seq![level.last()])
        } else {
            before.drop_last().push(before.last().push(level.last()))
        }
    }
}

/// The node of the list over a run.
pub open spec fn run_node(run: Seq<Node>) -> Node {
    (list_id(node_ids(run)), run.last().1)
}

/// The nodes of the lists over `level`.
pub open spec fn next_level(level: Seq<Node>, mask: u64) -> Seq<Node> {
    runs(level, mask).map_values(|run: Seq<Node>| run_node(run))
}

/// The entries of the lists over `level`.
pub open spec fn level_lists(level: Seq<Node>, mask: u64) -> Seq<Seq<Id>> {
    runs(level, mask).map_values(|run: Seq<Node>| node_ids(run))
}

/// What is left of `level` after one level of lists for each mask, or when one node is left.
pub open spec fn top_level(level: Seq<Node>, masks: Seq<u64>) -> Seq<Node>
    decreases masks.len(),
{
    if level.len() <= 1 || masks.len() == 0 {
        level
    } else {
        top_level(next_level(level, masks[0]), masks.drop_first())
    }
}

/// The entries of the lists that are made on the way.
pub open spec fn inner_lists(level: Seq<Node>, masks: Seq<u64>) -> Seq<Seq<Id>>
    decreases masks.len(),
{
    if level.len() <= 1 || masks.len() == 0 {
        Seq::<Seq<Id>>::empty()
    } else {
        level_lists(level, masks[0]) + inner_lists(
            next_level(level, masks[0]),
            masks.drop_first(),
        )
    }
}

/// The entries of all lists over the chunks `leaves`.
pub open spec fn fanout_lists(leaves: Seq<Node>, masks: Seq<u64>) -> Seq<Seq<Id>> {
    if leaves.len() <= 1 {
        seq![node_ids(leaves)]
    } else {
        let top = top_level(leaves, masks);
        if top.len() > 1 {
            inner_lists(leaves, masks).push(node_ids(top))
        } else {
            inner_lists(leaves, masks)
        }
    }
}

/// The id of the list that leads to all chunks `leaves`.
pub open spec fn fanout_root(leaves: Seq<Node>, masks: Seq<u64>) -> Id {
    if leaves.len() <= 1 {
        list_id(node_ids(leaves))
    } else {
        let top = top_level(leaves, masks);
        if top.len() > 1 {
            list_id(node_ids(top))
        } else {
            top[0].0
        }
    }
}

/// `objects` with `object` under `id`, unless something is there already.
pub open spec fn with_absent(objects: Objects, id: Id, object: ObjectView) -> Objects {
    if objects.contains_key(id) {
        objects
    } else {
        objects.insert(id, object)
    }
}

/// `objects` with lists of the given entries, each unless something has its id already.
pub open spec fn with_lists(objects: Objects, lists: Seq<Seq<Id>>) -> Objects
    decreases lists.len(),
{
    if lists.len() == 0 {
        objects
    } else {
        with_absent(
            with_lists(objects, lists.drop_last()),
            list_id(lists.last()),
            ObjectView::List(lists.last()),
        )
    }
}

proof fn lemma_with_lists_concat(objects: Objects, a: Seq<Seq<Id>>, b: Seq<Seq<Id>>)
    ensures
        with_lists(objects, a + b) == with_lists(with_lists(objects, a), b),
    decreases b.len(),
{
    if b.len() == 0 {
        assert(a + b =~= a);
    } else {
        assert((a + b).drop_last() =~= a + b.drop_last());
        lemma_with_lists_concat(objects, a, b.drop_last());
    }
}

/// Puts the list of `entries` into `repo` and gives its id.
fn add_list(repo: &mut Repository, entries: Vec<ObjectId>) -> (id: ObjectId)
    ensures
        id@ == list_id(ids(entries@)),
        final(repo)@.objects == with_absent(
            old(repo)@.objects,
            list_id(ids(entries@)),
            ObjectView::List(ids(entries@)),
        ),
        final(repo).head == old(repo).head,
        final(repo).repo_uuid == old(repo).repo_uuid,
{
    let id = list_object_id(entries.as_slice());
    let object = Object::List(List { entries });
    repo.objects.insert_absent(id, object);
    id
}

/// Puts the lists over `level` into `repo` and gives their nodes.
fn add_level(repo: &mut Repository, level: &Vec<(ObjectId, u64)>, mask: u64) -> (r: Vec<
    (ObjectId, u64),
>)
    ensures
        nodes(r@) == next_level(nodes(level@), mask),
        final(repo)@.objects == with_lists(
            old(repo)@.objects,
            level_lists(nodes(level@), mask),
        ),
        final(repo).head == old(repo).head,
        final(repo).repo_uuid == old(repo).repo_uuid,
{
    let ghost all = nodes(level@);
    let mut grouped: Vec<(ObjectId, u64)> = Vec::new();
    let mut bucket: Vec<ObjectId> = Vec::new();
    let ghost mut done: Seq<Seq<Node>> = Seq::empty();
    let ghost mut open: Seq<Node> = Seq::empty();
    let mut i: usize = 0;
    assert(all.take(0) =~= Seq::<Node>::empty());
    assert(ids(bucket@) =~= node_ids(open));
    assert(nodes(grouped@) =~= done.map_values(|run: Seq<Node>| run_node(run)));
    assert(done.map_values(|run: Seq<Node>| node_ids(run)) =~= Seq::<Seq<Id>>::empty());
    while i < level.len()
        invariant
            all == nodes(level@),
            i <= level@.len(),
            runs(all.take(i as int), mask) == (if open.len() == 0 {
                done
            } else {
                done.push(open)
            }),
            i == 0 ==> open.len() == 0,
            i > 0 ==> (open.len() == 0 <==> closes(all[i - 1], mask)),
            open.len() > 0 ==> open.last() == all[i - 1],
            ids(bucket@) == node_ids(open),
            nodes(grouped@) == done.map_values(|run: Seq<Node>| run_node(run)),
            repo@.objects == with_lists(
                old(repo)@.objects,
                done.map_values(|run: Seq<Node>| node_ids(run)),
            ),
            repo.head == old(repo).head,
            repo.repo_uuid == old(repo).repo_uuid,
        decreases level@.len() - i,
    {
        let (id, digest) = level[i];
        let ghost node = all[i as int];
        let ghost before = bucket@;
        let ghost held = open;
        proof {
            assert(node == (id@, digest));
            assert(all.take(i + 1).drop_last() =~= all.take(i as int));
            if i > 0 {
                assert(all.take(i as int).last() == all[i - 1]);
            }
            open = open.push(node);
            assert(done.push(held).drop_last() =~= done);
            if held.len() == 0 {
                assert(open =~= seq![node]);
            }
            assert(runs(all.take(i + 1), mask) =~= done.push(open));
        }
        bucket.push(id);
        assert(ids(bucket@) =~= ids(before).push(id@));
        assert(node_ids(open) =~= node_ids(held).push(id@));
        if digest & mask == mask {
            let ghost old_grouped = nodes(grouped@);
            let ghost old_done = done;
            let mut entries: Vec<ObjectId> = Vec::new();
            std::mem::swap(&mut entries, &mut bucket);
            let list = add_list(repo, entries);
            grouped.push((list, digest));
            proof {
                done = done.push(open);
                assert(nodes(grouped@) =~= old_grouped.push(run_node(open)));
                assert(done.map_values(|run: Seq<Node>| run_node(run)) =~= old_done.map_values(
                    |run: Seq<Node>| run_node(run),
                ).push(run_node(open)));
                let a = done.map_values(|run: Seq<Node>| node_ids(run));
                assert(a.drop_last() =~= old_done.map_values(|run: Seq<Node>| node_ids(run)));
                assert(a.last() == node_ids(open));
                open = Seq::empty();
                assert(ids(bucket@) =~= node_ids(open));
            }
        }
        i += 1;
    }
    assert(all.take(i as int) =~= all);
    if bucket.len() > 0 {
        let ghost old_grouped = nodes(grouped@);
        let ghost old_done = done;
        assert(ids(bucket@).len() == node_ids(open).len());
        let (_, digest) = level[level.len() - 1];
        let list = add_list(repo, bucket);
        grouped.push((list, digest));
        proof {
            done = done.push(open);
            assert(nodes(grouped@) =~= old_grouped.push(run_node(open)));
            assert(done.map_values(|run: Seq<Node>| run_node(run)) =~= old_done.map_values(
                |run: Seq<Node>| run_node(run),
            ).push(run_node(open)));
            let a = done.map_values(|run: Seq<Node>| node_ids(run));
            assert(a.drop_last() =~= old_done.map_values(|run: Seq<Node>| node_ids(run)));
            assert(a.last() == node_ids(open));
        }
    } else {
        assert(ids(bucket@).len() == node_ids(open).len());
    }
    grouped
}

/// The ids of `level`.
fn level_ids(level: &[(ObjectId, u64)]) -> (r: Vec<ObjectId>)
    ensures
        ids(r@) == node_ids(nodes(level@)),
{
    let mut r: Vec<ObjectId> = Vec::new();
    let mut i: usize = 0;
    let ghost all = node_ids(nodes(level@));
    assert(ids(r@) =~= all.take(0));
    while i < level.len()
        invariant
            i <= level@.len(),
            all == node_ids(nodes(level@)),
            ids(r@) == all.take(i as int),
        decreases level@.len() - i,
    {
        let ghost before = ids(r@);
        r.push(level[i].0);
        assert(ids(r@) =~= before.push(all[i as int]));
        assert(all.take(i + 1) =~= all.take(i as int).push(all[i as int]));
        i += 1;
    }
    assert(all.take(i as int) =~= all);
    r
}

/// Puts the lists over the chunks `leaves` into `repo`, in levels as `masks` says, and gives the
/// id of the one that leads to them all.
fn fan_out(repo: &mut Repository, leaves: &[(ObjectId, u64)], masks: &[u64]) -> (id: ObjectId)
    ensures
        id@ == fanout_root(nodes(leaves@), masks@),
        final(repo)@.objects == with_lists(
            old(repo)@.objects,
            fanout_lists(nodes(leaves@), masks@),
        ),
        final(repo).head == old(repo).head,
        final(repo).repo_uuid == old(repo).repo_uuid,
{
    let ghost start = nodes(leaves@);
    if leaves.len() <= 1 {
        let entries = level_ids(leaves);
        proof {
            let lists = fanout_lists(start, masks@);
            assert(lists.drop_last() =~= Seq::<Seq<Id>>::empty());
            assert(lists.last() == ids(entries@));
            assert(with_lists(repo@.objects, lists.drop_last()) == repo@.objects);
        }
        return add_list(repo, entries);
    }
    let mut level: Vec<(ObjectId, u64)> = Vec::new();
    let mut i: usize = 0;
    while i < leaves.len()
        invariant
            i <= leaves@.len(),
            level@ == leaves@.take(i as int),
        decreases leaves@.len() - i,
    {
        level.push(leaves[i]);
        assert(leaves@.take(i + 1) =~= leaves@.take(i as int).push(leaves@[i as int]));
        i += 1;
    }
    assert(leaves@.take(i as int) =~= leaves@);
    let ghost mut made: Seq<Seq<Id>> = Seq::empty();
    let mut k: usize = 0;
    assert(masks@.skip(0) =~= masks@);
    assert(made + inner_lists(start, masks@) =~= inner_lists(start, masks@));
    while k < masks.len() && level.len() > 1
        invariant
            k <= masks@.len(),
            level@.len() > 0,
            top_level(nodes(level@), masks@.skip(k as int)) == top_level(start, masks@),
            made + inner_lists(nodes(level@), masks@.skip(k as int)) == inner_lists(start, masks@),
            repo@.objects == with_lists(old(repo)@.objects, made),
            repo.head == old(repo).head,
            repo.repo_uuid == old(repo).repo_uuid,
        decreases masks@.len() - k,
    {
        let ghost here = nodes(level@);
        let ghost rest = masks@.skip(k as int);
        proof {
            assert(rest.drop_first() =~= masks@.skip(k + 1));
            assert(rest[0] == masks@[k as int]);
            lemma_with_lists_concat(old(repo)@.objects, made, level_lists(here, rest[0]));
            lemma_runs(here, rest[0]);
        }
        level = add_level(repo, &level, masks[k]);
        proof {
            let old_made = made;
            made = made + level_lists(here, rest[0]);
            assert(made + inner_lists(nodes(level@), rest.drop_first()) =~= old_made
                + inner_lists(here, rest));
            assert(nodes(level@).len() == level@.len());
        }
        k += 1;
    }
    proof {
        let rest = masks@.skip(k as int);
        assert(inner_lists(nodes(level@), rest) =~= Seq::<Seq<Id>>::empty());
        assert(made =~= inner_lists(start, masks@));
        assert(nodes(level@) == top_level(start, masks@));
    }
    if level.len() > 1 {
        let entries = level_ids(level.as_slice());
        proof {
            let lists = fanout_lists(start, masks@);
            assert(lists.drop_last() =~= made);
        }
        add_list(repo, entries)
    } else {
        level[0].0
    }
}

/// Puts the lists over the chunks `leaves` of a file into `repo` and gives the id of the one that
/// leads to them all.
pub fn build_fanout_list(repo: &mut Repository, leaves: &[(ObjectId, u64)]) -> (id: ObjectId)
    ensures
        id@ == fanout_root(nodes(leaves@), FAN_MASKS@),
        final(repo)@.objects == with_lists(
            old(repo)@.objects,
            fanout_lists(nodes(leaves@), FAN_MASKS@),
        ),
        final(repo).head == old(repo).head,
        final(repo).repo_uuid == old(repo).repo_uuid,
{
    fan_out(repo, leaves, FAN_MASKS.as_slice())
}

/// Runs are not empty, and they are the level in pieces.
proof fn lemma_runs(level: Seq<Node>, mask: u64)
    ensures
        forall|i: int|
            0 <= i < runs(level, mask).len() ==> (#[trigger] runs(level, mask)[i]).len() > 0,
        runs(level, mask).len() <= level.len(),
        level.len() > 0 ==> runs(level, mask).len() > 0,
    decreases level.len(),
{
    if level.len() > 0 {
        lemma_runs(level.drop_last(), mask);
    }
}

/// Whether the lists of the given entries have ids of their own: an id that is taken already is
/// taken by the same list, and no two different lists share one.
pub open spec fn ids_are_free(objects: Objects, lists: Seq<Seq<Id>>) -> bool {
    &&& forall|i: int|
        0 <= i < lists.len() && objects.contains_key(list_id(#[trigger] lists[i]))
            ==> objects[list_id(lists[i])] == ObjectView::List(lists[i])
    &&& forall|i: int, j: int|
        0 <= i < lists.len() && 0 <= j < lists.len() && list_id(#[trigger] lists[i]) == list_id(
            #[trigger] lists[j],
        ) ==> lists[i] == lists[j]
}

/// Whether `objects` holds the lists of the given entries.
spec fn holds_lists(objects: Objects, lists: Seq<Seq<Id>>) -> bool {
    forall|i: int|
        0 <= i < lists.len() ==> objects.contains_key(list_id(#[trigger] lists[i]))
            && objects[list_id(lists[i])] == ObjectView::List(lists[i])
}

/// Adding lists leaves the other objects as they are.
pub proof fn lemma_with_lists_keeps(objects: Objects, lists: Seq<Seq<Id>>)
    ensures
        forall|id: Id| #[trigger]
            objects.contains_key(id) ==> with_lists(objects, lists).contains_key(id)
                && with_lists(objects, lists)[id] == objects[id],
        objects.dom().finite() ==> with_lists(objects, lists).dom().finite(),
    decreases lists.len(),
{
    if lists.len() > 0 {
        lemma_with_lists_keeps(objects, lists.drop_last());
    }
}

proof fn lemma_with_lists_holds(objects: Objects, lists: Seq<Seq<Id>>)
    requires
        ids_are_free(objects, lists),
    ensures
        holds_lists(with_lists(objects, lists), lists),
        forall|id: Id| #[trigger]
            with_lists(objects, lists).contains_key(id) ==> objects.contains_key(id) || exists|
                i: int,
            |
                0 <= i < lists.len() && id == list_id(#[trigger] lists[i])
                    && with_lists(objects, lists)[id] == ObjectView::List(lists[i]),
    decreases lists.len(),
{
    if lists.len() > 0 {
        let front = lists.drop_last();
        assert forall|i: int| 0 <= i < front.len() implies front[i] == lists[i] by {}
        lemma_with_lists_holds(objects, front);
        lemma_with_lists_keeps(objects, front);
        let before = with_lists(objects, front);
        let after = with_lists(objects, lists);
        let last = lists.last();
        assert(lists[lists.len() - 1] == last);
        if before.contains_key(list_id(last)) {
            if !objects.contains_key(list_id(last)) {
                let i = choose|i: int|
                    0 <= i < front.len() && list_id(last) == list_id(#[trigger] front[i])
                        && before[list_id(last)] == ObjectView::List(front[i]);
                assert(front[i] == lists[i]);
            }
        }
        assert forall|i: int| 0 <= i < lists.len() implies after.contains_key(
            list_id(#[trigger] lists[i]),
        ) && after[list_id(lists[i])] == ObjectView::List(lists[i]) by {
            if i < front.len() {
                assert(front[i] == lists[i]);
            }
        }
        assert forall|id: Id| #[trigger] after.contains_key(id) implies objects.contains_key(id)
            || exists|i: int|
            0 <= i < lists.len() && id == list_id(#[trigger] lists[i]) && after[id]
                == ObjectView::List(lists[i]) by {
            if !objects.contains_key(id) {
                if before.contains_key(id) {
                    let i = choose|i: int|
                        0 <= i < front.len() && id == list_id(#[trigger] front[i]) && before[id]
                            == ObjectView::List(front[i]);
                    assert(front[i] == lists[i]);
                } else {
                    assert(id == list_id(lists[lists.len() - 1]));
                }
            }
        }
    }
}

/// Entries lead to what their two halves lead to.
proof fn lemma_entries_concat(objects: Objects, a: Seq<Id>, b: Seq<Id>, depth: nat)
    requires
        entry_chunks(objects, a + b, depth) is Ok,
    ensures
        entry_chunks(objects, a, depth) is Ok,
        entry_chunks(objects, b, depth) is Ok,
        entry_chunks(objects, a + b, depth)->Ok_0 == entry_chunks(objects, a, depth)->Ok_0
            + entry_chunks(objects, b, depth)->Ok_0,
    decreases b.len(),
{
    if b.len() == 0 {
        assert(a + b =~= a);
        let x = entry_chunks(objects, a, depth)->Ok_0;
        assert(x + Seq::<Id>::empty() =~= x);
    } else {
        assert((a + b).drop_last() =~= a + b.drop_last());
        lemma_entries_concat(objects, a, b.drop_last(), depth);
        let x = entry_chunks(objects, a, depth)->Ok_0;
        let y = entry_chunks(objects, b.drop_last(), depth)->Ok_0;
        let id = b.last();
        if objects[id] is Chunk {
            assert((x + y).push(id) =~= x + y.push(id));
        } else {
            let part = list_chunks(objects, id, depth)->Ok_0;
            assert((x + y) + part =~= x + (y + part));
        }
    }
}

/// The nodes of runs, one run after the other.
spec fn flat(parts: Seq<Seq<Node>>) -> Seq<Node>
    decreases parts.len(),
{
    if parts.len() == 0 {
        Seq::<Node>::empty()
    } else {
        flat(parts.drop_last()) + parts.last()
    }
}

proof fn lemma_runs_flat(level: Seq<Node>, mask: u64)
    ensures
        flat(runs(level, mask)) == level,
    decreases level.len(),
{
    let all = runs(level, mask);
    if level.len() == 0 {
        assert(flat(all) =~= level);
    } else {
        let front = level.drop_last();
        let before = runs(front, mask);
        lemma_runs_flat(front, mask);
        lemma_runs(front, mask);
        if front.len() == 0 || closes(front.last(), mask) {
            assert(all.drop_last() =~= before);
            assert(flat(all) =~= level);
        } else {
            assert(all.drop_last() =~= before.drop_last());
            assert(flat(before) == flat(before.drop_last()) + before.last());
            assert(all.last() == before.last().push(level.last()));
            assert(front.push(level.last()) =~= level);
            assert(flat(all) =~= flat(before).push(level.last()));
        }
    }
}

/// The lists over runs lead to what the runs lead to.
proof fn lemma_runs_lead(objects: Objects, parts: Seq<Seq<Node>>, depth: nat)
    requires
        entry_chunks(objects, node_ids(flat(parts)), depth) is Ok,
        holds_lists(objects, parts.map_values(|run: Seq<Node>| node_ids(run))),
    ensures
        entry_chunks(
            objects,
            node_ids(parts.map_values(|run: Seq<Node>| run_node(run))),
            depth + 1,
        ) == entry_chunks(objects, node_ids(flat(parts)), depth),
    decreases parts.len(),
{
    let lists = parts.map_values(|run: Seq<Node>| node_ids(run));
    let tops = parts.map_values(|run: Seq<Node>| run_node(run));
    if parts.len() == 0 {
        assert(node_ids(flat(parts)) =~= Seq::<Id>::empty());
        assert(node_ids(tops) =~= Seq::<Id>::empty());
    } else {
        let front = parts.drop_last();
        let last = parts.last();
        assert(node_ids(flat(parts)) =~= node_ids(flat(front)) + node_ids(last));
        lemma_entries_concat(objects, node_ids(flat(front)), node_ids(last), depth);
        let front_lists = front.map_values(|run: Seq<Node>| node_ids(run));
        assert forall|i: int| 0 <= i < front_lists.len() implies objects.contains_key(
            list_id(#[trigger] front_lists[i]),
        ) && objects[list_id(front_lists[i])] == ObjectView::List(front_lists[i]) by {
            assert(front_lists[i] == lists[i]);
        }
        lemma_runs_lead(objects, front, depth);
        let front_tops = front.map_values(|run: Seq<Node>| run_node(run));
        assert(node_ids(tops).drop_last() =~= node_ids(front_tops));
        assert(lists[lists.len() - 1] == node_ids(last));
        let id = list_id(node_ids(last));
        assert(node_ids(tops).last() == id);
        assert(objects[id] == ObjectView::List(node_ids(last)));
        assert(list_chunks(objects, id, depth + 1) == entry_chunks(objects, node_ids(last), depth));
    }
}

/// After all levels of lists the nodes that are left lead to what those at the start led to, and
/// they are lists.
proof fn lemma_top_leads(objects: Objects, level: Seq<Node>, masks: Seq<u64>, depth: nat)
    requires
        entry_chunks(objects, node_ids(level), depth) is Ok,
        holds_lists(objects, inner_lists(level, masks)),
        level.len() > 0,
    ensures
        exists|d: nat| #[trigger]
            entry_chunks(objects, node_ids(top_level(level, masks)), d) == entry_chunks(
                objects,
                node_ids(level),
                depth,
            ),
        top_level(level, masks).len() > 0,
        level.len() > 1 && masks.len() > 0 ==> {
            let top = top_level(level, masks);
            forall|i: int|
                0 <= i < top.len() ==> objects.contains_key((#[trigger] top[i]).0)
                    && objects[top[i].0] is List
        },
    decreases masks.len(),
{
    if level.len() <= 1 || masks.len() == 0 {
        assert(entry_chunks(objects, node_ids(top_level(level, masks)), depth) == entry_chunks(
            objects,
            node_ids(level),
            depth,
        ));
    } else {
        let mask = masks[0];
        let next = next_level(level, mask);
        let lists = level_lists(level, mask);
        let rest = inner_lists(next, masks.drop_first());
        let all = inner_lists(level, masks);
        assert forall|i: int| 0 <= i < lists.len() implies objects.contains_key(
            list_id(#[trigger] lists[i]),
        ) && objects[list_id(lists[i])] == ObjectView::List(lists[i]) by {
            assert(all[i] == lists[i]);
        }
        assert forall|i: int| 0 <= i < rest.len() implies objects.contains_key(
            list_id(#[trigger] rest[i]),
        ) && objects[list_id(rest[i])] == ObjectView::List(rest[i]) by {
            assert(all[lists.len() + i] == rest[i]);
        }
        lemma_runs(level, mask);
        lemma_runs_flat(level, mask);
        lemma_runs_lead(objects, runs(level, mask), depth);
        lemma_top_leads(objects, next, masks.drop_first(), depth + 1);
        assert forall|i: int| 0 <= i < next.len() implies objects.contains_key(
            (#[trigger] next[i]).0,
        ) && objects[next[i].0] is List by {
            assert(next[i].0 == list_id(lists[i]));
        }
    }
}

/// Chunks lead to themselves.
proof fn lemma_chunks_lead(objects: Objects, entries: Seq<Id>)
    requires
        forall|i: int|
            0 <= i < entries.len() ==> objects.contains_key(#[trigger] entries[i])
                && objects[entries[i]] is Chunk,
    ensures
        entry_chunks(objects, entries, 0) == Ok::<Seq<Id>, ListFaultView>(entries),
    decreases entries.len(),
{
    if entries.len() > 0 {
        let front = entries.drop_last();
        assert forall|i: int| 0 <= i < front.len() implies objects.contains_key(
            #[trigger] front[i],
        ) && objects[front[i]] is Chunk by {
            assert(front[i] == entries[i]);
        }
        lemma_chunks_lead(objects, front);
        assert(entries[entries.len() - 1] == entries.last());
        assert(front.push(entries.last()) =~= entries);
    } else {
        assert(entries =~= Seq::<Id>::empty());
    }
}

/// The lists that are made over the chunks of a file lead back to these chunks, in their order.
/// This takes that no two of the lists, nor one of them and an object that was there before,
/// share an id.
pub proof fn law_fanout_leads_back(objects: Objects, leaves: Seq<Node>, masks: Seq<u64>)
    requires
        objects.dom().finite(),
        forall|i: int|
            0 <= i < leaves.len() ==> objects.contains_key((#[trigger] leaves[i]).0)
                && objects[leaves[i].0] is Chunk,
        ids_are_free(objects, fanout_lists(leaves, masks)),
    ensures
        chunks_of_list(
            with_lists(objects, fanout_lists(leaves, masks)),
            fanout_root(leaves, masks),
        ) == Ok::<Seq<Id>, ListFaultView>(node_ids(leaves)),
{
    let lists = fanout_lists(leaves, masks);
    let after = with_lists(objects, lists);
    let root = fanout_root(leaves, masks);
    lemma_with_lists_keeps(objects, lists);
    lemma_with_lists_holds(objects, lists);
    let entries = node_ids(leaves);
    assert forall|i: int| 0 <= i < entries.len() implies after.contains_key(#[trigger] entries[i])
        && after[entries[i]] is Chunk by {
        assert(entries[i] == leaves[i].0);
    }
    lemma_chunks_lead(after, entries);
    if leaves.len() <= 1 {
        assert(lists[0] == entries);
        assert(list_chunks(after, root, 1) == Ok::<Seq<Id>, ListFaultView>(entries));
        law_cycle_is_endless(after, root, 1);
    } else {
        let top = top_level(leaves, masks);
        let inner = inner_lists(leaves, masks);
        assert forall|i: int| 0 <= i < inner.len() implies after.contains_key(
            list_id(#[trigger] inner[i]),
        ) && after[list_id(inner[i])] == ObjectView::List(inner[i]) by {
            assert(lists[i] == inner[i]);
        }
        lemma_top_leads(after, leaves, masks, 0);
        let d = choose|d: nat| #[trigger]
            entry_chunks(after, node_ids(top), d) == entry_chunks(after, entries, 0);
        if top.len() > 1 {
            assert(lists[lists.len() - 1] == node_ids(top));
            assert(list_chunks(after, root, d + 1) == Ok::<Seq<Id>, ListFaultView>(entries));
            law_cycle_is_endless(after, root, d + 1);
        } else {
            assert(masks.len() > 0);
            let only = node_ids(top);
            assert(only.last() == top[0].0);
            assert(only.drop_last() =~= Seq::<Id>::empty());
            assert(entry_chunks(after, only.drop_last(), d) == Ok::<Seq<Id>, ListFaultView>(
                Seq::empty(),
            ));
            let part = list_chunks(after, root, d);
            assert(Seq::<Id>::empty() + part->Ok_0 =~= part->Ok_0);
            law_cycle_is_endless(after, root, d);
        }
    }
}

/// The runs of a level are the level, cut after each node whose digest has all bits of the mask, and
/// nowhere else: no run is empty, each but the last ends with such a node, and no such node stands
/// elsewhere.
pub proof fn law_runs_end_at_set_bits(level: Seq<Node>, mask: u64, i: int, k: int)
    requires
        0 <= i < runs(level, mask).len(),
        0 <= k < runs(level, mask)[i].len(),
    ensures
        runs(level, mask).flatten() == level,
        k < runs(level, mask)[i].len() - 1 ==> runs(level, mask)[i][k].1 & mask != mask,
        i < runs(level, mask).len() - 1 ==> runs(level, mask)[i].last().1 & mask == mask,
{
    lemma_runs_flat(level, mask);
    lemma_flat_is_flatten(runs(level, mask));
    lemma_run_ends(level, mask);
}

proof fn lemma_flat_is_flatten(parts: Seq<Seq<Node>>)
    ensures
        flat(parts) == parts.flatten(),
    decreases parts.len(),
{
    parts.lemma_flatten_and_flatten_alt_are_equivalent();
    if parts.len() > 0 {
        lemma_flat_is_flatten(parts.drop_last());
        parts.drop_last().lemma_flatten_and_flatten_alt_are_equivalent();
        assert(flat(parts) =~= parts.flatten_alt());
    } else {
        assert(flat(parts) =~= parts.flatten_alt());
    }
}

proof fn lemma_run_ends(level: Seq<Node>, mask: u64)
    ensures
        forall|i: int, k: int|
            0 <= i < runs(level, mask).len() && 0 <= k < runs(level, mask)[i].len() - 1 ==> (
            #[trigger] runs(level, mask)[i][k]).1 & mask != mask,
        forall|i: int|
            0 <= i < runs(level, mask).len() ==> (#[trigger] runs(level, mask)[i]).len() > 0 && (i
                < runs(level, mask).len() - 1 ==> runs(level, mask)[i].last().1 & mask == mask),
        level.len() > 0 ==> runs(level, mask).len() > 0 && runs(level, mask).last().last()
            == level.last(),
    decreases level.len(),
{
    if level.len() > 0 {
        let front = level.drop_last();
        let before = runs(front, mask);
        let all = runs(level, mask);
        lemma_run_ends(front, mask);
        if front.len() == 0 {
            assert(before =~= Seq::<Seq<Node>>::empty());
        } else {
            assert(before[before.len() - 1] == before.last());
        }
        assert forall|i: int| 0 <= i < all.len() implies (#[trigger] all[i]).len() > 0 && (i
            < all.len() - 1 ==> all[i].last().1 & mask == mask) by {
            if i < before.len() - 1 {
                assert(all[i] == before[i]);
            } else if front.len() > 0 && closes(front.last(), mask) && i == before.len() - 1 {
                assert(all[i] == before[i]);
            }
        }
        assert forall|i: int, k: int| 0 <= i < all.len() && 0 <= k < all[i].len() - 1 implies (
        #[trigger] all[i][k]).1 & mask != mask by {
            if i < before.len() - 1 {
                assert(all[i] == before[i]);
                assert(before[i][k].1 & mask != mask);
            } else if front.len() > 0 && closes(front.last(), mask) {
                if i < before.len() {
                    assert(all[i] == before[i]);
                    assert(before[i][k].1 & mask != mask);
                }
            } else if front.len() > 0 {
                let last = before.last();
                assert(all[i] == last.push(level.last()));
                if k < last.len() - 1 {
                    assert(before[before.len() - 1][k].1 & mask != mask);
                    assert(all[i][k] == last[k]);
                } else {
                    assert(all[i][k] == last.last());
                }
            }
        }
    }
}

/// Lists are put over a level until one list is left or there is no mask any more: no chunk or one has a
/// list of its own; else there is a list over each run, and the lists over these are those over a level
/// in which each run is one node, named after its ids and with the digest of its last one. Without a
/// mask one list holds the whole level.
pub proof fn law_lists_are_put_over_lists(level: Seq<Node>, masks: Seq<u64>)
    ensures
        level.len() <= 1 ==> fanout_root(level, masks) == list_id(
            level.map_values(|n: Node| n.0),
        ),
        masks.len() == 0 ==> fanout_root(level, masks) == list_id(level.map_values(|n: Node| n.0)),
        level.len() > 1 && masks.len() > 0 ==> ({
            let over = runs(level, masks[0]).map_values(
                |run: Seq<Node>| (list_id(run.map_values(|n: Node| n.0)), run.last().1),
            );
            fanout_root(level, masks) == if over.len() == 1 {
                over[0].0
            } else {
                fanout_root(over, masks.drop_first())
            }
        }),
{
    if level.len() > 1 && masks.len() > 0 {
        let over = runs(level, masks[0]).map_values(
            |run: Seq<Node>| (list_id(run.map_values(|n: Node| n.0)), run.last().1),
        );
        assert(over =~= next_level(level, masks[0]));
        lemma_run_ends(level, masks[0]);
        assert(over.len() > 0);
        let rest = masks.drop_first();
        assert(top_level(level, masks) == top_level(over, rest));
        if over.len() == 1 {
            assert(top_level(over, rest) == over);
        }
    }
}

/// What is said of nodes is said of all that they hold, one by one.
pub proof fn law_nodes_are_told_in_full(s: Seq<(ObjectId, u64)>, i: int)
    requires
        0 <= i < s.len(),
    ensures
        nodes(s).len() == s.len(),
        nodes(s)[i].0 == s[i].0.0@,
        nodes(s)[i].1 == s[i].1,
        node_ids(nodes(s)).len() == s.len(),
        node_ids(nodes(s))[i] == s[i].0.0@,
{
}

/// The lists that are made are one over each run of each level, and one over the nodes that are left in
/// the end, if these are more than one; and no other.
pub proof fn law_lists_that_are_made(level: Seq<Node>, masks: Seq<u64>)
    ensures
        level.len() <= 1 || masks.len() == 0 ==> fanout_lists(level, masks) == seq![
            level.map_values(|n: Node| n.0),
        ],
        level.len() > 1 && masks.len() > 0 ==> ({
            let parts = runs(level, masks[0]);
            let over = parts.map_values(
                |run: Seq<Node>| (list_id(run.map_values(|n: Node| n.0)), run.last().1),
            );
            fanout_lists(level, masks) == parts.map_values(
                |run: Seq<Node>| run.map_values(|n: Node| n.0),
            ) + if over.len() == 1 {
                Seq::<Seq<Id>>::empty()
            } else {
                fanout_lists(over, masks.drop_first())
            }
        }),
{
    if level.len() > 1 && masks.len() > 0 {
        let parts = runs(level, masks[0]);
        let over = parts.map_values(
            |run: Seq<Node>| (list_id(run.map_values(|n: Node| n.0)), run.last().1),
        );
        let lists = parts.map_values(|run: Seq<Node>| run.map_values(|n: Node| n.0));
        assert(over =~= next_level(level, masks[0]));
        assert(lists =~= level_lists(level, masks[0]));
        lemma_run_ends(level, masks[0]);
        let rest = masks.drop_first();
        assert(top_level(level, masks) == top_level(over, rest));
        assert(inner_lists(level, masks) == lists + inner_lists(over, rest));
        if over.len() == 1 {
            assert(top_level(over, rest) == over);
            assert(inner_lists(over, rest) == Seq::<Seq<Id>>::empty());
        } else {
            assert(fanout_lists(level, masks) =~= lists + fanout_lists(over, rest));
        }
    } else {
        assert(inner_lists(level, masks) =~= Seq::<Seq<Id>>::empty());
        assert(fanout_lists(level, masks) =~= seq![node_ids(level)]);
    }
}

/// What lists add to objects: an id that was free names the list of some of the entries, and an id that
/// was taken names what it did.
pub proof fn law_lists_add_nothing_else(objects: Objects, lists: Seq<Seq<Id>>, id: Id)
    requires
        with_lists(objects, lists).contains_key(id),
    ensures
        objects.contains_key(id) ==> with_lists(objects, lists)[id] == objects[id],
        !objects.contains_key(id) ==> exists|i: int|
            0 <= i < lists.len() && id == list_id(#[trigger] lists[i]) && with_lists(
                objects,
                lists,
            )[id] == ObjectView::List(lists[i]),
    decreases lists.len(),
{
    lemma_with_lists_keeps(objects, lists);
    if !objects.contains_key(id) && lists.len() > 0 {
        let front = lists.drop_last();
        assert(lists[lists.len() - 1] == lists.last());
        if with_lists(objects, front).contains_key(id) {
            law_lists_add_nothing_else(objects, front, id);
            let i = choose|i: int|
                0 <= i < front.len() && id == list_id(#[trigger] front[i]) && with_lists(
                    objects,
                    front,
                )[id] == ObjectView::List(front[i]);
            assert(lists[i] == front[i]);
        }
    }
}

} // verus!
