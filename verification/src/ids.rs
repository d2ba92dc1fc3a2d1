//! The names of objects: digests of what they hold.

use crate::model::{ids, Id, ObjectId, Snapshot, SnapshotView};
use crate::order::SortKey;
use crate::sorted_map::{
    lemma_map_of_entry, lemma_sorted_entries_are_entries, sorted_entries, SortedMap,
};
use sha2::{Digest, Sha256};
use vstd::bytes::{
    lemma_auto_spec_u32_to_from_le_bytes, lemma_auto_spec_u64_to_from_le_bytes,
    spec_u32_to_le_bytes, spec_u64_to_le_bytes, u32_to_le_bytes, u64_to_le_bytes,
};
use vstd::prelude::*;
use vstd::utf8::encode_utf8;

verus! {

/// The SHA-256 digest of `data`.
pub uninterp spec fn sha256_digest(data: Seq<u8>) -> Seq<u8>;

/// `sha2::Sha256::digest` gives the SHA-256 digest of its argument, which is a function of the
/// bytes alone.
#[verifier::external_body]
fn sha256(data: &[u8]) -> (r: [u8; 32])
    ensures
        r@ == sha256_digest(data@),
{
    <[u8; 32]>::from(Sha256::digest(data))
}

/// `parts` one after the other.
pub open spec fn concat(parts: Seq<Seq<u8>>) -> Seq<u8>
    decreases parts.len(),
{
    if parts.len() == 0 {
        Seq::<u8>::empty()
    } else {
        concat(parts.drop_last()) + parts.last()
    }
}

/// `first` and then `rest`.
pub proof fn lemma_concat_first(first: Seq<u8>, rest: Seq<Seq<u8>>)
    ensures
        concat(seq![first] + rest) == first + concat(rest),
    decreases rest.len(),
{
    let all = seq![first] + rest;
    if rest.len() == 0 {
        assert(all.drop_last() =~= Seq::<Seq<u8>>::empty());
        assert(concat(all.drop_last()) =~= Seq::<u8>::empty());
        assert(concat(all) =~= first + concat(rest));
    } else {
        assert(all.drop_last() =~= seq![first] + rest.drop_last());
        lemma_concat_first(first, rest.drop_last());
        assert(concat(all) =~= first + concat(rest));
    }
}

/// The id of a chunk.
pub open spec fn chunk_id(data: Seq<u8>) -> Id {
    sha256_digest(data)
}

/// What the id of a list is the digest of: the word "list" and the ids of its entries.
pub open spec fn list_bytes(entries: Seq<Id>) -> Seq<u8> {
    seq![0x6c, 0x69, 0x73, 0x74] + concat(entries)
}

pub open spec fn list_id(entries: Seq<Id>) -> Id {
    sha256_digest(list_bytes(entries))
}

/// What the id of a blob is the digest of: the word "blob" and the id of its list.
pub open spec fn blob_bytes(list: Id) -> Seq<u8> {
    seq![0x62, 0x6c, 0x6f, 0x62] + list
}

pub open spec fn blob_id(list: Id) -> Id {
    sha256_digest(blob_bytes(list))
}

/// The length of `bytes` as four bytes, the lowest first, and then the bytes.
pub open spec fn with_length(bytes: Seq<u8>) -> Seq<u8> {
    spec_u32_to_le_bytes(bytes.len() as u32) + bytes
}

/// What one path of a map adds to what its id is the digest of.
pub open spec fn path_bytes(path: Seq<char>, blob: Id) -> Seq<u8> {
    with_length(encode_utf8(path)) + blob
}

/// What the paths of a map add to what its id is the digest of.
pub open spec fn paths_bytes(entries: Seq<(Seq<char>, Id)>) -> Seq<u8>
    decreases entries.len(),
{
    if entries.len() == 0 {
        Seq::<u8>::empty()
    } else {
        paths_bytes(entries.drop_last()) + path_bytes(entries.last().0, entries.last().1)
    }
}

/// What the id of a map is the digest of: the word "map" and the paths in their order, each with
/// its length before it and the id of its blob after it.
pub open spec fn map_bytes(files: Map<Seq<char>, Id>) -> Seq<u8> {
    seq![0x6d, 0x61, 0x70] + paths_bytes(sorted_entries::<String, Id>(files))
}

pub open spec fn map_id(files: Map<Seq<char>, Id>) -> Id {
    sha256_digest(map_bytes(files))
}

/// The text of a message, which is empty where there is none.
pub open spec fn message_text(message: Option<Seq<char>>) -> Seq<char> {
    match message {
        Some(m) => m,
        None => Seq::<char>::empty(),
    }
}

/// What the id of a snapshot is the digest of: the word "snapshot", the ids of its tree and its
/// parents, its message with the length before it, and the time from 1970 to its date.
pub open spec fn snapshot_bytes(s: SnapshotView) -> Seq<u8> {
    seq![0x73, 0x6e, 0x61, 0x70, 0x73, 0x68, 0x6f, 0x74] + s.tree + concat(s.parents) + with_length(
        encode_utf8(message_text(s.message)),
    ) + spec_u64_to_le_bytes(s.date.since_epoch().0) + spec_u32_to_le_bytes(
        s.date.since_epoch().1,
    )
}

pub open spec fn snapshot_id(s: SnapshotView) -> Id {
    sha256_digest(snapshot_bytes(s))
}

/// The id of a chunk.
pub fn chunk_object_id(data: &[u8]) -> (r: ObjectId)
    ensures
        r@ == chunk_id(data@),
{
    ObjectId(sha256(data))
}

/// Appends `more` to `out`.
fn append(out: &mut Vec<u8>, more: &[u8])
    ensures
        final(out)@ == old(out)@ + more@,
{
    out.extend_from_slice(more);
    assert(out@ =~= old(out)@ + more@);
}

/// Appends the ids `entries` to `out`.
fn append_ids(out: &mut Vec<u8>, entries: &[ObjectId])
    ensures
        final(out)@ == old(out)@ + concat(ids(entries@)),
{
    let mut i: usize = 0;
    assert(out@ + concat(ids(entries@).take(0)) =~= out@);
    while i < entries.len()
        invariant
            i <= entries@.len(),
            out@ == old(out)@ + concat(ids(entries@).take(i as int)),
        decreases entries@.len() - i,
    {
        append(out, entries[i].as_ref());
        let ghost s = ids(entries@);
        assert(s.take(i + 1).drop_last() =~= s.take(i as int));
        assert(out@ =~= old(out)@ + concat(s.take(i + 1)));
        i += 1;
    }
    assert(ids(entries@).take(i as int) =~= ids(entries@));
}

/// Appends a text to `out`, with its length before it.
fn append_text(out: &mut Vec<u8>, text: &str)
    ensures
        final(out)@ == old(out)@ + with_length(encode_utf8(text@)),
{
    let bytes = text.as_bytes();
    let length = u32_to_le_bytes(bytes.len() as u32);
    append(out, length.as_slice());
    append(out, bytes);
    assert(out@ =~= old(out)@ + with_length(encode_utf8(text@)));
}

/// The id of a list.
pub fn list_object_id(entries: &[ObjectId]) -> (r: ObjectId)
    ensures
        r@ == list_id(ids(entries@)),
{
    let mut h: Vec<u8> = vec![0x6c, 0x69, 0x73, 0x74];
    append_ids(&mut h, entries);
    assert(h@ =~= list_bytes(ids(entries@)));
    ObjectId(sha256(h.as_slice()))
}

/// The id of a blob.
pub fn blob_object_id(list: ObjectId) -> (r: ObjectId)
    ensures
        r@ == blob_id(list@),
{
    let mut h: Vec<u8> = vec![0x62, 0x6c, 0x6f, 0x62];
    append(&mut h, list.as_ref());
    assert(h@ =~= blob_bytes(list@));
    ObjectId(sha256(h.as_slice()))
}

/// The id of a map.
pub fn map_object_id(files: &SortedMap<String, ObjectId>) -> (r: ObjectId)
    ensures
        r@ == map_id(files@),
{
    let mut h: Vec<u8> = vec![0x6d, 0x61, 0x70];
    let n: usize = files.len();
    let ghost s = files.seq();
    let mut i: usize = 0;
    assert(h@ + paths_bytes(s.take(0)) =~= h@);
    while i < n
        invariant
            n == s.len(),
            s == files.seq(),
            i <= n,
            h@ == seq![0x6du8, 0x61, 0x70] + paths_bytes(s.take(i as int)),
        decreases n - i,
    {
        let (name, id) = files.entry(i);
        append_text(&mut h, name.as_str());
        append(&mut h, id.as_ref());
        assert(s.take(i + 1).drop_last() =~= s.take(i as int));
        assert(h@ =~= seq![0x6du8, 0x61, 0x70] + paths_bytes(s.take(i + 1)));
        i += 1;
    }
    assert(s.take(i as int) =~= s);
    ObjectId(sha256(h.as_slice()))
}

/// The id of a snapshot.
pub fn snapshot_object_id(snap: &Snapshot) -> (r: ObjectId)
    ensures
        r@ == snapshot_id(snap@),
{
    let mut h: Vec<u8> = vec![0x73, 0x6e, 0x61, 0x70, 0x73, 0x68, 0x6f, 0x74];
    append(&mut h, snap.tree.as_ref());
    append_ids(&mut h, snap.parents.as_slice());
    match &snap.message {
        Some(m) => append_text(&mut h, m.as_str()),
        None => {
            let empty = String::new();
            append_text(&mut h, empty.as_str());
        },
    }
    let (secs, nanos) = snap.date.duration_since_epoch();
    let secs = u64_to_le_bytes(secs);
    append(&mut h, secs.as_slice());
    let nanos = u32_to_le_bytes(nanos);
    append(&mut h, nanos.as_slice());
    assert(h@ =~= snapshot_bytes(snap@));
    ObjectId(sha256(h.as_slice()))
}

/// Objects of different kinds are never named after the same bytes: these begin with different
/// letters. (A chunk is named after its bytes alone, which may be any.)
pub proof fn law_kinds_differ(
    entries: Seq<Id>,
    list: Id,
    files: Map<Seq<char>, Id>,
    snap: SnapshotView,
)
    ensures
        list_bytes(entries) != blob_bytes(list),
        list_bytes(entries) != map_bytes(files),
        list_bytes(entries) != snapshot_bytes(snap),
        blob_bytes(list) != map_bytes(files),
        blob_bytes(list) != snapshot_bytes(snap),
        map_bytes(files) != snapshot_bytes(snap),
{
    assert(list_bytes(entries)[0] == 0x6c);
    assert(blob_bytes(list)[0] == 0x62);
    assert(map_bytes(files)[0] == 0x6d);
    assert(snapshot_bytes(snap)[0] == 0x73);
}

/// Whether all are ids: 32 bytes each.
pub open spec fn are_ids(s: Seq<Id>) -> bool {
    forall|i: int| 0 <= i < s.len() ==> (#[trigger] s[i]).len() == 32
}

proof fn lemma_concat_injective(a: Seq<Id>, b: Seq<Id>)
    requires
        are_ids(a),
        are_ids(b),
        concat(a) == concat(b),
    ensures
        a == b,
    decreases a.len(),
{
    if a.len() == 0 {
        if b.len() > 0 {
            assert(b[b.len() - 1] == b.last());
            assert(concat(b).len() >= 32);
        }
        assert(a =~= b);
    } else {
        assert(a[a.len() - 1] == a.last());
        assert(concat(a).len() >= 32);
        assert(b.len() > 0);
        assert(b[b.len() - 1] == b.last());
        let n = concat(a).len() - 32;
        assert(concat(a).skip(n) =~= a.last());
        assert(concat(b).skip(n) =~= b.last());
        assert(concat(a).take(n) =~= concat(a.drop_last()));
        assert(concat(b).take(n) =~= concat(b.drop_last()));
        assert forall|i: int| 0 <= i < a.len() - 1 implies (#[trigger] a.drop_last()[i]).len()
            == 32 by {
            assert(a.drop_last()[i] == a[i]);
        }
        assert forall|i: int| 0 <= i < b.len() - 1 implies (#[trigger] b.drop_last()[i]).len()
            == 32 by {
            assert(b.drop_last()[i] == b[i]);
        }
        lemma_concat_injective(a.drop_last(), b.drop_last());
        assert(a =~= a.drop_last().push(a.last()));
        assert(b =~= b.drop_last().push(b.last()));
    }
}

/// Different lists are named after different bytes.
pub proof fn law_list_bytes_injective(a: Seq<Id>, b: Seq<Id>)
    requires
        are_ids(a),
        are_ids(b),
        list_bytes(a) == list_bytes(b),
    ensures
        a == b,
{
    assert(list_bytes(a).skip(4) =~= concat(a));
    assert(list_bytes(b).skip(4) =~= concat(b));
    lemma_concat_injective(a, b);
}

/// Blobs of different lists are named after different bytes.
pub proof fn law_blob_bytes_injective(a: Id, b: Id)
    requires
        blob_bytes(a) == blob_bytes(b),
    ensures
        a == b,
{
    assert(blob_bytes(a).skip(4) =~= a);
    assert(blob_bytes(b).skip(4) =~= b);
}

/// Whether a path with its blob has a notation of its own: the id is one, and the length of the
/// path fits into four bytes.
pub open spec fn is_plain_entry(e: (Seq<char>, Id)) -> bool {
    e.1.len() == 32 && encode_utf8(e.0).len() <= u32::MAX
}

proof fn lemma_with_length(a: Seq<u8>, rest_a: Seq<u8>, b: Seq<u8>, rest_b: Seq<u8>)
    requires
        a.len() <= u32::MAX,
        b.len() <= u32::MAX,
        with_length(a) + rest_a == with_length(b) + rest_b,
    ensures
        a == b,
        rest_a == rest_b,
{
    lemma_auto_spec_u32_to_from_le_bytes();
    let x = with_length(a) + rest_a;
    let y = with_length(b) + rest_b;
    assert(x.take(4) =~= spec_u32_to_le_bytes(a.len() as u32));
    assert(y.take(4) =~= spec_u32_to_le_bytes(b.len() as u32));
    assert(a.len() == b.len());
    let n = a.len() as int;
    assert(x.subrange(4, 4 + n) =~= a);
    assert(y.subrange(4, 4 + n) =~= b);
    assert(x.skip(4 + n) =~= rest_a);
    assert(y.skip(4 + n) =~= rest_b);
}

proof fn lemma_paths_bytes_first(s: Seq<(Seq<char>, Id)>)
    requires
        s.len() > 0,
    ensures
        paths_bytes(s) == path_bytes(s[0].0, s[0].1) + paths_bytes(s.drop_first()),
    decreases s.len(),
{
    let first = path_bytes(s[0].0, s[0].1);
    if s.len() == 1 {
        assert(s.drop_last() =~= Seq::<(Seq<char>, Id)>::empty());
        assert(s.drop_first() =~= Seq::<(Seq<char>, Id)>::empty());
        assert(paths_bytes(s.drop_last()) =~= Seq::<u8>::empty());
        assert(paths_bytes(s) =~= first + paths_bytes(s.drop_first()));
    } else {
        lemma_paths_bytes_first(s.drop_last());
        assert(s.drop_last().drop_first() =~= s.drop_first().drop_last());
        assert(s.drop_first().last() == s.last());
        assert(paths_bytes(s) =~= first + paths_bytes(s.drop_first()));
    }
}

proof fn lemma_paths_bytes_injective(a: Seq<(Seq<char>, Id)>, b: Seq<(Seq<char>, Id)>)
    requires
        forall|i: int| 0 <= i < a.len() ==> is_plain_entry(#[trigger] a[i]),
        forall|i: int| 0 <= i < b.len() ==> is_plain_entry(#[trigger] b[i]),
        paths_bytes(a) == paths_bytes(b),
    ensures
        a == b,
    decreases a.len(),
{
    if a.len() > 0 {
        lemma_paths_bytes_first(a);
    }
    if b.len() > 0 {
        lemma_paths_bytes_first(b);
    }
    if a.len() == 0 {
        if b.len() > 0 {
            assert(is_plain_entry(b[0]));
            assert(paths_bytes(b).len() >= 32);
        }
        assert(a =~= b);
    } else {
        assert(is_plain_entry(a[0]));
        assert(paths_bytes(a).len() >= 32);
        assert(b.len() > 0);
        assert(is_plain_entry(b[0]));
        let rest_a = paths_bytes(a.drop_first());
        let rest_b = paths_bytes(b.drop_first());
        let x = encode_utf8(a[0].0);
        let y = encode_utf8(b[0].0);
        assert(paths_bytes(a) =~= with_length(x) + (a[0].1 + rest_a));
        assert(paths_bytes(b) =~= with_length(y) + (b[0].1 + rest_b));
        lemma_with_length(x, a[0].1 + rest_a, y, b[0].1 + rest_b);
        assert((a[0].1 + rest_a).take(32) =~= a[0].1);
        assert((b[0].1 + rest_b).take(32) =~= b[0].1);
        assert((a[0].1 + rest_a).skip(32) =~= rest_a);
        assert((b[0].1 + rest_b).skip(32) =~= rest_b);
        String::rank_injective(a[0].0, b[0].0);
        let ta = a.drop_first();
        let tb = b.drop_first();
        assert forall|i: int| 0 <= i < ta.len() implies is_plain_entry(#[trigger] ta[i]) by {
            assert(ta[i] == a[i + 1]);
        }
        assert forall|i: int| 0 <= i < tb.len() implies is_plain_entry(#[trigger] tb[i]) by {
            assert(tb[i] == b[i + 1]);
        }
        lemma_paths_bytes_injective(ta, tb);
        assert(a =~= seq![a[0]] + ta);
        assert(b =~= seq![b[0]] + tb);
    }
}

/// Different maps are named after different bytes.
pub proof fn law_map_bytes_injective(a: Map<Seq<char>, Id>, b: Map<Seq<char>, Id>)
    requires
        a.dom().finite(),
        b.dom().finite(),
        forall|path: Seq<char>| #[trigger]
            a.contains_key(path) ==> is_plain_entry((path, a[path])),
        forall|path: Seq<char>| #[trigger]
            b.contains_key(path) ==> is_plain_entry((path, b[path])),
        map_bytes(a) == map_bytes(b),
    ensures
        a == b,
{
    let x = sorted_entries::<String, Id>(a);
    let y = sorted_entries::<String, Id>(b);
    lemma_sorted_entries_are_entries::<String, Id>(a);
    lemma_sorted_entries_are_entries::<String, Id>(b);
    assert(map_bytes(a).skip(3) =~= paths_bytes(x));
    assert(map_bytes(b).skip(3) =~= paths_bytes(y));
    assert forall|i: int| 0 <= i < x.len() implies is_plain_entry(#[trigger] x[i]) by {
        lemma_map_of_entry::<String, Id>(x, i);
        assert(a.contains_key(x[i].0));
    }
    assert forall|i: int| 0 <= i < y.len() implies is_plain_entry(#[trigger] y[i]) by {
        lemma_map_of_entry::<String, Id>(y, i);
        assert(b.contains_key(y[i].0));
    }
    lemma_paths_bytes_injective(x, y);
}

/// Snapshots that differ in their tree, their parents, the text of their message or the time from
/// 1970 to their date are named after different bytes, if they have the same number of parents.
pub proof fn law_snapshot_bytes_injective(a: SnapshotView, b: SnapshotView)
    requires
        a.tree.len() == 32,
        b.tree.len() == 32,
        are_ids(a.parents),
        are_ids(b.parents),
        a.parents.len() == b.parents.len(),
        encode_utf8(message_text(a.message)).len() <= u32::MAX,
        encode_utf8(message_text(b.message)).len() <= u32::MAX,
        snapshot_bytes(a) == snapshot_bytes(b),
    ensures
        a.tree == b.tree,
        a.parents == b.parents,
        message_text(a.message) == message_text(b.message),
        a.date.since_epoch() == b.date.since_epoch(),
{
    lemma_auto_spec_u32_to_from_le_bytes();
    lemma_auto_spec_u64_to_from_le_bytes();
    lemma_concat_len(a.parents);
    lemma_concat_len(b.parents);
    let x = snapshot_bytes(a);
    let y = snapshot_bytes(b);
    let n = 40 + 32 * a.parents.len() as int;
    let ma = encode_utf8(message_text(a.message));
    let mb = encode_utf8(message_text(b.message));
    let da = spec_u64_to_le_bytes(a.date.since_epoch().0) + spec_u32_to_le_bytes(a.date.since_epoch().1);
    let db = spec_u64_to_le_bytes(b.date.since_epoch().0) + spec_u32_to_le_bytes(b.date.since_epoch().1);
    assert(x.subrange(8, 40) =~= a.tree);
    assert(y.subrange(8, 40) =~= b.tree);
    assert(x.subrange(40, n) =~= concat(a.parents));
    assert(y.subrange(40, n) =~= concat(b.parents));
    lemma_concat_injective(a.parents, b.parents);
    assert(x.skip(n) =~= with_length(ma) + da);
    assert(y.skip(n) =~= with_length(mb) + db);
    lemma_with_length(ma, da, mb, db);
    String::rank_injective(message_text(a.message), message_text(b.message));
    assert(da.take(8) =~= spec_u64_to_le_bytes(a.date.since_epoch().0));
    assert(db.take(8) =~= spec_u64_to_le_bytes(b.date.since_epoch().0));
    assert(da.skip(8) =~= spec_u32_to_le_bytes(a.date.since_epoch().1));
    assert(db.skip(8) =~= spec_u32_to_le_bytes(b.date.since_epoch().1));
}

proof fn lemma_concat_len(s: Seq<Id>)
    requires
        are_ids(s),
    ensures
        concat(s).len() == 32 * s.len(),
    decreases s.len(),
{
    if s.len() > 0 {
        assert(s[s.len() - 1] == s.last());
        assert forall|i: int| 0 <= i < s.len() - 1 implies (#[trigger] s.drop_last()[i]).len()
            == 32 by {
            assert(s.drop_last()[i] == s[i]);
        }
        lemma_concat_len(s.drop_last());
    }
}

/// Byte strings one after the other are the bytes of the first, of the second, and so on.
pub proof fn law_concat_is_flat(parts: Seq<Seq<u8>>)
    ensures
        concat(parts) == parts.flatten(),
    decreases parts.len(),
{
    parts.lemma_flatten_and_flatten_alt_are_equivalent();
    if parts.len() > 0 {
        law_concat_is_flat(parts.drop_last());
        parts.drop_last().lemma_flatten_and_flatten_alt_are_equivalent();
        assert(concat(parts) =~= parts.flatten_alt());
    } else {
        assert(concat(parts) =~= parts.flatten_alt());
    }
}

/// What ids are digests of, byte by byte: a chunk of its bytes alone, a list of the word "list" and
/// its entries, a blob of the word "blob" and its list, and a map of the word "map" and, for each path
/// in their order, the length of its text in UTF-8, this text, and the blob.
pub proof fn law_layout_of_named_bytes(
    data: Seq<u8>,
    entries: Seq<Id>,
    list: Id,
    files: Map<Seq<char>, Id>,
)
    ensures
        chunk_id(data) == sha256_digest(data),
        list_id(entries) == sha256_digest(list_bytes(entries)),
        list_bytes(entries).skip(4) == entries.flatten(),
        forall|i: int| 0 <= i < 4 ==> #[trigger] list_bytes(entries)[i] as int == "list"@[i] as int,
        blob_id(list) == sha256_digest(blob_bytes(list)),
        blob_bytes(list).skip(4) == list,
        forall|i: int| 0 <= i < 4 ==> #[trigger] blob_bytes(list)[i] as int == "blob"@[i] as int,
        map_id(files) == sha256_digest(map_bytes(files)),
        map_bytes(files).skip(3) == sorted_entries::<String, Id>(files).map_values(
            |e: (Seq<char>, Id)|
                spec_u32_to_le_bytes(encode_utf8(e.0).len() as u32) + encode_utf8(e.0) + e.1,
        ).flatten(),
        forall|i: int| 0 <= i < 3 ==> #[trigger] map_bytes(files)[i] as int == "map"@[i] as int,
{
    reveal_strlit("list");
    reveal_strlit("blob");
    reveal_strlit("map");
    law_concat_is_flat(entries);
    assert(list_bytes(entries).skip(4) =~= concat(entries));
    assert(blob_bytes(list).skip(4) =~= list);
    let paths = sorted_entries::<String, Id>(files);
    assert(map_bytes(files).skip(3) =~= paths_bytes(paths));
    lemma_paths_bytes_flat(paths);
}

proof fn lemma_paths_bytes_flat(entries: Seq<(Seq<char>, Id)>)
    ensures
        paths_bytes(entries) == entries.map_values(
            |e: (Seq<char>, Id)|
                spec_u32_to_le_bytes(encode_utf8(e.0).len() as u32) + encode_utf8(e.0) + e.1,
        ).flatten(),
    decreases entries.len(),
{
    let layout = |e: (Seq<char>, Id)|
        spec_u32_to_le_bytes(encode_utf8(e.0).len() as u32) + encode_utf8(e.0) + e.1;
    let parts = entries.map_values(layout);
    parts.lemma_flatten_and_flatten_alt_are_equivalent();
    if entries.len() > 0 {
        let front = entries.drop_last();
        lemma_paths_bytes_flat(front);
        let before = front.map_values(layout);
        before.lemma_flatten_and_flatten_alt_are_equivalent();
        assert(parts.drop_last() =~= before);
        assert(paths_bytes(entries) =~= parts.flatten_alt());
    } else {
        assert(paths_bytes(entries) =~= parts.flatten_alt());
    }
}

/// What the id of a snapshot is the digest of, part by part: the word "snapshot", the tree, each parent
/// in turn, the length of the message in UTF-8 and the message, where none counts as an empty one, and
/// the seconds and nanoseconds from 1970 to its date, none where it lies before.
pub proof fn law_layout_of_a_snapshot(s: SnapshotView)
    requires
        s.tree.len() == 32,
        are_ids(s.parents),
    ensures
        ({
            let bytes = snapshot_bytes(s);
            let n = 40 + 32 * s.parents.len() as int;
            let text = encode_utf8(
                match s.message {
                    Some(m) => m,
                    None => Seq::<char>::empty(),
                },
            );
            let at = n + 4 + text.len();
            &&& snapshot_id(s) == sha256_digest(bytes)
            &&& bytes.len() == at + 12
            &&& forall|i: int| 0 <= i < 8 ==> #[trigger] bytes[i] as int == "snapshot"@[i] as int
            &&& bytes.subrange(8, 40) == s.tree
            &&& bytes.subrange(40, n) == s.parents.flatten()
            &&& bytes.subrange(n, n + 4) == spec_u32_to_le_bytes(text.len() as u32)
            &&& bytes.subrange(n + 4, at) == text
            &&& bytes.subrange(at, at + 8) == spec_u64_to_le_bytes(
                if s.date.before_epoch {
                    0
                } else {
                    s.date.secs
                },
            )
            &&& bytes.subrange(at + 8, at + 12) == spec_u32_to_le_bytes(
                if s.date.before_epoch {
                    0
                } else {
                    s.date.nanos
                },
            )
        }),
{
    reveal_strlit("snapshot");
    lemma_auto_spec_u32_to_from_le_bytes();
    lemma_auto_spec_u64_to_from_le_bytes();
    lemma_concat_len(s.parents);
    law_concat_is_flat(s.parents);
    let bytes = snapshot_bytes(s);
    let n = 40 + 32 * s.parents.len() as int;
    let text = encode_utf8(message_text(s.message));
    let at = n + 4 + text.len();
    let secs = spec_u64_to_le_bytes(s.date.since_epoch().0);
    let nanos = spec_u32_to_le_bytes(s.date.since_epoch().1);
    assert(bytes.subrange(8, 40) =~= s.tree);
    assert(bytes.subrange(40, n) =~= concat(s.parents));
    assert(bytes.subrange(n, n + 4) =~= spec_u32_to_le_bytes(text.len() as u32));
    assert(bytes.subrange(n + 4, at) =~= text);
    assert(bytes.subrange(at, at + 8) =~= secs);
    assert(bytes.subrange(at + 8, at + 12) =~= nanos);
}

} // verus!
