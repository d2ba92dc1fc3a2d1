//! The chunks that lists lead to.

use crate::hex::hex_text;
use crate::model::{ids, Id, Object, ObjectId, ObjectView, Objects, Repository};
use crate::text::copy_str;
use vstd::prelude::*;
use vstd::string::StringExecFns;

verus! {

/// Why a list does not lead to chunks.
#[derive(Clone, Copy, Debug, PartialEq, Eq)]
pub enum ListFault {
    /// There is no list of this id.
    MissingList(ObjectId),
    /// An entry names neither a chunk nor a list.
    NotChunkOrList(ObjectId),
    /// A list leads to itself.
    Cycle,
}

/// What a fault says.
pub enum ListFaultView {
    MissingList(Id),
    NotChunkOrList(Id),
    Cycle,
}

impl View for ListFault {
    type V = ListFaultView;

    open spec fn view(&self) -> ListFaultView {
        match *self {
            ListFault::MissingList(id) => ListFaultView::MissingList(id@),
            ListFault::NotChunkOrList(id) => ListFaultView::NotChunkOrList(id@),
            ListFault::Cycle => ListFaultView::Cycle,
        }
    }
}

/// The chunks to which the list `id` leads, in order, if lists are followed through at most
/// `depth` levels.
pub open spec fn list_chunks(objects: Objects, id: Id, depth: nat) -> Result<
    Seq<Id>,
    ListFaultView,
>
    decreases depth, 0nat,
{
    if objects.contains_key(id) && objects[id] is List {
        if depth == 0 {
            Err(ListFaultView::Cycle)
        } else {
            entry_chunks(objects, objects[id]->List_0, (depth - 1) as nat)
        }
    } else {
        Err(ListFaultView::MissingList(id))
    }
}

/// The chunks to which the entries of a list lead, up to the first fault.
pub open spec fn entry_chunks(objects: Objects, entries: Seq<Id>, depth: nat) -> Result<
    Seq<Id>,
    ListFaultView,
>
    decreases depth, entries.len() + 1,
{
    if entries.len() == 0 {
        Ok(Seq::<Id>::empty())
    } else {
        match entry_chunks(objects, entries.drop_last(), depth) {
            Err(e) => Err(e),
            Ok(front) => {
                let id = entries.last();
                if objects.contains_key(id) && objects[id] is Chunk {
                    Ok(front.push(id))
                } else if objects.contains_key(id) && objects[id] is List {
                    match list_chunks(objects, id, depth) {
                        Err(e) => Err(e),
                        Ok(part) => Ok(front + part),
                    }
                } else {
                    Err(ListFaultView::NotChunkOrList(id))
                }
            },
        }
    }
}

/// The chunks to which the list `id` leads: each object is a list at most once on the way, so
/// that there are no more levels than objects.
pub open spec fn chunks_of_list(objects: Objects, id: Id) -> Result<Seq<Id>, ListFaultView> {
    list_chunks(objects, id, objects.len())
}

proof fn lemma_entries_deeper(objects: Objects, entries: Seq<Id>, d: nat, e: nat)
    requires
        d <= e,
        entry_chunks(objects, entries, d) != Err::<Seq<Id>, ListFaultView>(ListFaultView::Cycle),
    ensures
        entry_chunks(objects, entries, e) == entry_chunks(objects, entries, d),
    decreases d, entries.len() + 1,
{
    if entries.len() > 0 {
        lemma_entries_deeper(objects, entries.drop_last(), d, e);
        let id = entries.last();
        if entry_chunks(objects, entries.drop_last(), d) is Ok && objects.contains_key(id)
            && objects[id] is List {
            lemma_list_deeper(objects, id, d, e);
        }
    }
}

/// More levels change nothing once they suffice.
pub proof fn lemma_list_deeper(objects: Objects, id: Id, d: nat, e: nat)
    requires
        d <= e,
        list_chunks(objects, id, d) != Err::<Seq<Id>, ListFaultView>(ListFaultView::Cycle),
    ensures
        list_chunks(objects, id, e) == list_chunks(objects, id, d),
    decreases d, 0nat,
{
    if objects.contains_key(id) && objects[id] is List {
        lemma_entries_deeper(objects, objects[id]->List_0, (d - 1) as nat, (e - 1) as nat);
    }
}

/// Where `d` levels suffice for some entries and one level fewer does not, the same holds of a
/// list among them.
proof fn lemma_deepest_entry(objects: Objects, entries: Seq<Id>, d: nat) -> (child: Id)
    requires
        d > 0,
        entry_chunks(objects, entries, d) != Err::<Seq<Id>, ListFaultView>(ListFaultView::Cycle),
        entry_chunks(objects, entries, (d - 1) as nat) == Err::<Seq<Id>, ListFaultView>(
            ListFaultView::Cycle,
        ),
    ensures
        list_chunks(objects, child, d) != Err::<Seq<Id>, ListFaultView>(ListFaultView::Cycle),
        list_chunks(objects, child, (d - 1) as nat) == Err::<Seq<Id>, ListFaultView>(
            ListFaultView::Cycle,
        ),
    decreases entries.len(),
{
    let front = entries.drop_last();
    let c = (d - 1) as nat;
    if entry_chunks(objects, front, c) == Err::<Seq<Id>, ListFaultView>(ListFaultView::Cycle) {
        lemma_deepest_entry(objects, front, d)
    } else {
        lemma_entries_deeper(objects, front, c, d);
        entries.last()
    }
}

/// Where a list needs `d` levels there are `d` lists.
proof fn lemma_levels_are_lists(objects: Objects, id: Id, d: nat) -> (s: Set<Id>)
    requires
        list_chunks(objects, id, d) != Err::<Seq<Id>, ListFaultView>(ListFaultView::Cycle),
        d > 0 ==> list_chunks(objects, id, (d - 1) as nat) == Err::<Seq<Id>, ListFaultView>(
            ListFaultView::Cycle,
        ),
    ensures
        s.finite(),
        s.len() == d,
        s.subset_of(objects.dom()),
        forall|x: Id| #[trigger]
            s.contains(x) ==> list_chunks(objects, x, d) != Err::<Seq<Id>, ListFaultView>(
                ListFaultView::Cycle,
            ),
    decreases d,
{
    if d == 0 {
        Set::<Id>::empty()
    } else if d == 1 {
        Set::<Id>::empty().insert(id)
    } else {
        let entries = objects[id]->List_0;
        let child = lemma_deepest_entry(objects, entries, (d - 1) as nat);
        let t = lemma_levels_are_lists(objects, child, (d - 1) as nat);
        assert(!t.contains(id));
        let s = t.insert(id);
        assert forall|x: Id| #[trigger] s.contains(x) implies list_chunks(objects, x, d) != Err::<
            Seq<Id>,
            ListFaultView,
        >(ListFaultView::Cycle) by {
            if x != id {
                lemma_list_deeper(objects, x, (d - 1) as nat, d);
            }
        }
        s
    }
}

/// If the lists under `id` can be followed to their ends at all, they are: a cycle is reported
/// only where no number of levels suffices.
pub proof fn law_cycle_is_endless(objects: Objects, id: Id, depth: nat)
    requires
        objects.dom().finite(),
        list_chunks(objects, id, depth) != Err::<Seq<Id>, ListFaultView>(ListFaultView::Cycle),
    ensures
        chunks_of_list(objects, id) == list_chunks(objects, id, depth),
    decreases depth,
{
    if depth <= objects.len() {
        lemma_list_deeper(objects, id, depth, objects.len());
    } else if list_chunks(objects, id, (depth - 1) as nat) == Err::<Seq<Id>, ListFaultView>(
        ListFaultView::Cycle,
    ) {
        let s = lemma_levels_are_lists(objects, id, depth);
        vstd::set_lib::lemma_len_subset(s, objects.dom());
    } else {
        lemma_list_deeper(objects, id, (depth - 1) as nat, depth);
        law_cycle_is_endless(objects, id, (depth - 1) as nat);
    }
}

fn collect_at_depth(repo: &Repository, list_id: ObjectId, depth: usize) -> (r: Result<
    Vec<ObjectId>,
    ListFault,
>)
    ensures
        r is Ok <==> list_chunks(repo@.objects, list_id@, depth as nat) is Ok,
        r matches Ok(found) ==> list_chunks(repo@.objects, list_id@, depth as nat) == Ok::<
            Seq<Id>,
            ListFaultView,
        >(ids(found@)),
        r matches Err(e) ==> list_chunks(repo@.objects, list_id@, depth as nat) == Err::<
            Seq<Id>,
            ListFaultView,
        >(e@),
    decreases depth,
{
    let ghost objects = repo@.objects;
    let entries: &Vec<ObjectId> = match repo.objects.get(&list_id) {
        Some(Object::List(list)) => &list.entries,
        _ => {
            return Err(ListFault::MissingList(list_id));
        },
    };
    if depth == 0 {
        return Err(ListFault::Cycle);
    }
    let mut out: Vec<ObjectId> = Vec::new();
    let mut i: usize = 0;
    let ghost all = ids(entries@);
    let ghost d = (depth - 1) as nat;
    assert(objects[list_id@] == ObjectView::List(all));
    assert(all.take(0) =~= Seq::<Id>::empty());
    assert(ids(out@) =~= Seq::<Id>::empty());
    while i < entries.len()
        invariant
            objects == repo@.objects,
            depth > 0,
            d == depth - 1,
            all == ids(entries@),
            i <= entries@.len(),
            objects.contains_key(list_id@),
            objects[list_id@] == ObjectView::List(all),
            entry_chunks(objects, all.take(i as int), d) == Ok::<Seq<Id>, ListFaultView>(
                ids(out@),
            ),
        decreases entries@.len() - i,
    {
        let entry: ObjectId = entries[i];
        let ghost before = ids(out@);
        assert(all.take(i + 1).drop_last() =~= all.take(i as int));
        assert(all.take(i + 1).last() == entry@);
        match repo.objects.get(&entry) {
            Some(Object::Chunk(_)) => {
                out.push(entry);
                assert(ids(out@) =~= before.push(entry@));
            },
            Some(Object::List(_)) => {
                match collect_at_depth(repo, entry, depth - 1) {
                    Ok(part) => {
                        let mut part = part;
                        let ghost more = ids(part@);
                        out.append(&mut part);
                        assert(ids(out@) =~= before + more);
                    },
                    Err(e) => {
                        proof {
                            lemma_entries_fault(objects, all, d, i as int + 1);
                        }
                        return Err(e);
                    },
                }
            },
            _ => {
                proof {
                    lemma_entries_fault(objects, all, d, i as int + 1);
                }
                return Err(ListFault::NotChunkOrList(entry));
            },
        }
        i += 1;
    }
    assert(all.take(i as int) =~= all);
    Ok(out)
}

/// A fault in the first entries is one of them all.
proof fn lemma_entries_fault(objects: Objects, entries: Seq<Id>, depth: nat, n: int)
    requires
        0 <= n <= entries.len(),
        entry_chunks(objects, entries.take(n), depth) is Err,
    ensures
        entry_chunks(objects, entries, depth) == entry_chunks(objects, entries.take(n), depth),
    decreases entries.len(),
{
    if n == entries.len() {
        assert(entries.take(n) =~= entries);
    } else {
        assert(entries.drop_last().take(n) =~= entries.take(n));
        lemma_entries_fault(objects, entries.drop_last(), depth, n);
    }
}

/// The chunks to which the list `list_id` leads, in order.
pub fn collect_chunk_ids(repo: &Repository, list_id: ObjectId) -> (r: Result<
    Vec<ObjectId>,
    ListFault,
>)
    ensures
        r is Ok <==> chunks_of_list(repo@.objects, list_id@) is Ok,
        r matches Ok(found) ==> chunks_of_list(repo@.objects, list_id@) == Ok::<
            Seq<Id>,
            ListFaultView,
        >(ids(found@)),
        r matches Err(e) ==> chunks_of_list(repo@.objects, list_id@) == Err::<
            Seq<Id>,
            ListFaultView,
        >(e@),
{
    let depth: usize = repo.objects.len();
    collect_at_depth(repo, list_id, depth)
}

impl ListFault {
    /// The fault in words.
    pub open spec fn words(self) -> Seq<char> {
        match self {
            ListFault::MissingList(id) => "missing list object "@ + hex_text(id@),
            ListFault::NotChunkOrList(id) => "list entry is neither chunk nor list: "@ + hex_text(
                id@,
            ),
            ListFault::Cycle => "list leads to itself"@,
        }
    }

    /// The fault in words.
    pub fn message(&self) -> (r: String)
        ensures
            r@ == self.words(),
    {
        match *self {
            ListFault::MissingList(id) => with_id("missing list object ", &id),
            ListFault::NotChunkOrList(id) => with_id("list entry is neither chunk nor list: ", &id),
            ListFault::Cycle => copy_str("list leads to itself"),
        }
    }
}

/// A text with an id after it.
pub fn with_id(text: &str, id: &ObjectId) -> (r: String)
    ensures
        r@ == text@ + hex_text(id@),
{
    let mut r = copy_str(text);
    r.append(id.to_hex().as_str());
    r
}

proof fn lemma_entries_flat(
    objects: Objects,
    entries: Seq<Id>,
    parts: Seq<Seq<Id>>,
    depth: nat,
)
    requires
        parts.len() == entries.len(),
        forall|i: int|
            0 <= i < entries.len() ==> objects.contains_key(#[trigger] entries[i]) && {
                ||| objects[entries[i]] is Chunk && parts[i] == seq![entries[i]]
                ||| objects[entries[i]] is List && list_chunks(objects, entries[i], depth) == Ok::<
                    Seq<Id>,
                    ListFaultView,
                >(parts[i])
            },
    ensures
        entry_chunks(objects, entries, depth) == Ok::<Seq<Id>, ListFaultView>(parts.flatten()),
    decreases entries.len(),
{
    parts.lemma_flatten_and_flatten_alt_are_equivalent();
    if entries.len() > 0 {
        let n = entries.len() - 1;
        let front = entries.drop_last();
        let before = parts.drop_last();
        assert forall|i: int| 0 <= i < front.len() implies objects.contains_key(
            #[trigger] front[i],
        ) && {
            ||| objects[front[i]] is Chunk && before[i] == seq![front[i]]
            ||| objects[front[i]] is List && list_chunks(objects, front[i], depth) == Ok::<
                Seq<Id>,
                ListFaultView,
            >(before[i])
        } by {
            assert(front[i] == entries[i] && before[i] == parts[i]);
        }
        lemma_entries_flat(objects, front, before, depth);
        before.lemma_flatten_and_flatten_alt_are_equivalent();
        assert(entries[n] == entries.last() && parts[n] == parts.last());
        assert(entry_chunks(objects, entries, depth)->Ok_0 =~= parts.flatten_alt());
    } else {
        assert(parts.flatten_alt() =~= Seq::<Id>::empty());
    }
}

/// The chunks of a list are those of its entries, one entry after the other: a chunk leads to itself,
/// and a list to the chunks that it leads to by itself.
pub proof fn law_list_leads_where_its_entries_lead(
    objects: Objects,
    id: Id,
    entries: Seq<Id>,
    parts: Seq<Seq<Id>>,
)
    requires
        objects.dom().finite(),
        objects.contains_key(id),
        objects[id] == ObjectView::List(entries),
        parts.len() == entries.len(),
        forall|i: int|
            0 <= i < entries.len() ==> objects.contains_key(#[trigger] entries[i]) && {
                ||| objects[entries[i]] is Chunk && parts[i] == seq![entries[i]]
                ||| objects[entries[i]] is List && chunks_of_list(objects, entries[i]) == Ok::<
                    Seq<Id>,
                    ListFaultView,
                >(parts[i])
            },
    ensures
        chunks_of_list(objects, id) == Ok::<Seq<Id>, ListFaultView>(parts.flatten()),
{
    lemma_entries_flat(objects, entries, parts, objects.len());
    assert(list_chunks(objects, id, objects.len() + 1) == Ok::<Seq<Id>, ListFaultView>(
        parts.flatten(),
    ));
    law_cycle_is_endless(objects, id, objects.len() + 1);
}

/// A list that leads to chunks is one, and each of its entries is a chunk or a list. Where the list is
/// not there, this is the fault; where the entries before one lead to chunks and that one is neither,
/// that is.
pub proof fn law_faults_of_a_list(
    objects: Objects,
    id: Id,
    entries: Seq<Id>,
    parts: Seq<Seq<Id>>,
    n: int,
)
    requires
        objects.dom().finite(),
    ensures
        !(objects.contains_key(id) && objects[id] is List) <==> chunks_of_list(objects, id) == Err::<
            Seq<Id>,
            ListFaultView,
        >(ListFaultView::MissingList(id)),
        objects.contains_key(id) && objects[id] == ObjectView::List(entries) && 0 <= n
            < entries.len() && parts.len() == n && (forall|i: int|
            0 <= i < n ==> objects.contains_key(#[trigger] entries[i]) && {
                ||| objects[entries[i]] is Chunk && parts[i] == seq![entries[i]]
                ||| objects[entries[i]] is List && chunks_of_list(objects, entries[i]) == Ok::<
                    Seq<Id>,
                    ListFaultView,
                >(parts[i])
            }) && !(objects.contains_key(entries[n]) && (objects[entries[n]] is Chunk
            || objects[entries[n]] is List)) ==> chunks_of_list(objects, id) == Err::<
            Seq<Id>,
            ListFaultView,
        >(ListFaultView::NotChunkOrList(entries[n])),
{
    if objects.contains_key(id) && objects[id] is List {
        assert(objects.dom().contains(id));
        let depth = objects.len();
        if depth > 0 {
            lemma_no_missing_list(objects, objects[id]->List_0, (depth - 1) as nat, id);
        }
    }
    if objects.contains_key(id) && objects[id] == ObjectView::List(entries) && 0 <= n < entries.len()
        && parts.len() == n && (forall|i: int|
        0 <= i < n ==> objects.contains_key(#[trigger] entries[i]) && {
            ||| objects[entries[i]] is Chunk && parts[i] == seq![entries[i]]
            ||| objects[entries[i]] is List && chunks_of_list(objects, entries[i]) == Ok::<
                Seq<Id>,
                ListFaultView,
            >(parts[i])
        }) && !(objects.contains_key(entries[n]) && (objects[entries[n]] is Chunk
        || objects[entries[n]] is List)) {
        let depth = objects.len();
        let front = entries.take(n);
        lemma_entries_flat(objects, front, parts, depth);
        let more = entries.take(n + 1);
        assert(more.drop_last() =~= front);
        assert(more.last() == entries[n]);
        lemma_entries_fault(objects, entries, depth, n + 1);
        assert(list_chunks(objects, id, depth + 1) == Err::<Seq<Id>, ListFaultView>(
            ListFaultView::NotChunkOrList(entries[n]),
        ));
        law_cycle_is_endless(objects, id, depth + 1);
    }
}

proof fn lemma_no_missing_list(objects: Objects, entries: Seq<Id>, depth: nat, id: Id)
    requires
        objects.contains_key(id),
        objects[id] is List,
    ensures
        entry_chunks(objects, entries, depth) != Err::<Seq<Id>, ListFaultView>(
            ListFaultView::MissingList(id),
        ),
    decreases depth, entries.len(),
{
    if entries.len() > 0 {
        lemma_no_missing_list(objects, entries.drop_last(), depth, id);
        let last = entries.last();
        if objects.contains_key(last) && objects[last] is List {
            if depth > 0 {
                lemma_no_missing_list(objects, objects[last]->List_0, (depth - 1) as nat, id);
            }
            assert(list_chunks(objects, last, depth) != Err::<Seq<Id>, ListFaultView>(
                ListFaultView::MissingList(id),
            ));
        }
    }
}

} // verus!
