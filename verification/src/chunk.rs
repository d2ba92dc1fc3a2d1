//! Files in chunks, cut where the bytes say so.

use crate::ids::{chunk_id, chunk_object_id, concat, lemma_concat_first};
use crate::model::ObjectId;
use crate::rollsum::{
    law_digest_is_local, slide, window_digest, zero_window, Rollsum, MAX_CHUNK_SIZE, SPLIT_MASK,
};
use vstd::prelude::*;
use vstd::slice::slice_subrange;

verus! {

/// The digest after the first `n` bytes of `data`.
pub open spec fn digest_at(data: Seq<u8>, n: int) -> u64 {
    window_digest(slide(zero_window(), data.take(n))) as u64
}

/// Whether a chunk that began at `start` ends at `end`.
pub open spec fn ends_at(data: Seq<u8>, start: int, end: int) -> bool {
    digest_at(data, end) & SPLIT_MASK == 0 || end - start >= MAX_CHUNK_SIZE
}

/// The first place after `from` at which a chunk that began at `start` ends.
pub open spec fn next_cut(data: Seq<u8>, start: int, from: int) -> Option<int>
    decreases data.len() - from,
{
    if from >= data.len() {
        None
    } else if ends_at(data, start, from + 1) {
        Some(from + 1)
    } else {
        next_cut(data, start, from + 1)
    }
}

/// The chunks of `data` from `start` on, each with the digest at its end.
pub open spec fn chunks_from(data: Seq<u8>, start: int) -> Seq<(Seq<u8>, u64)>
    decreases data.len() - start,
    when 0 <= start <= data.len()
    via chunks_from_decreases
{
    if start >= data.len() {
        Seq::<(Seq<u8>, u64)>::empty()
    } else {
        match next_cut(data, start, start) {
            Some(end) => seq![(data.subrange(start, end), digest_at(data, end))] + chunks_from(
                data,
                end,
            ),
            None => seq![(data.skip(start), digest_at(data, data.len() as int))],
        }
    }
}

#[via_fn]
proof fn chunks_from_decreases(data: Seq<u8>, start: int) {
    lemma_cut_range(data, start, start);
}

/// The chunks of a file.
pub open spec fn file_chunks(data: Seq<u8>) -> Seq<(Seq<u8>, u64)> {
    chunks_from(data, 0)
}

/// The bytes of chunks.
pub open spec fn chunk_data(chunks: Seq<(Seq<u8>, u64)>) -> Seq<Seq<u8>> {
    chunks.map_values(|c: (Seq<u8>, u64)| c.0)
}

proof fn lemma_cut_range(data: Seq<u8>, start: int, from: int)
    requires
        0 <= from,
    ensures
        next_cut(data, start, from) matches Some(end) ==> {
            &&& from < end <= data.len()
            &&& ends_at(data, start, end)
            &&& forall|e: int| from < e < end ==> !#[trigger] ends_at(data, start, e)
        },
        next_cut(data, start, from) is None ==> forall|e: int|
            from < e <= data.len() ==> !#[trigger] ends_at(data, start, e),
    decreases data.len() - from,
{
    if from < data.len() && !ends_at(data, start, from + 1) {
        lemma_cut_range(data, start, from + 1);
    }
}

/// Where a chunk ends does not depend on the bytes that follow.
pub proof fn law_cut_is_stable(data: Seq<u8>, more: Seq<u8>, start: int, from: int)
    requires
        0 <= from,
        next_cut(data, start, from) is Some,
    ensures
        next_cut(data + more, start, from) == next_cut(data, start, from),
        digest_at(data + more, next_cut(data, start, from)->0) == digest_at(
            data,
            next_cut(data, start, from)->0,
        ),
    decreases data.len() - from,
{
    lemma_cut_range(data, start, from);
    let end = next_cut(data, start, from)->0;
    assert((data + more).take(from + 1) =~= data.take(from + 1));
    assert((data + more).take(end) =~= data.take(end));
    if !ends_at(data, start, from + 1) {
        law_cut_is_stable(data, more, start, from + 1);
    }
}

/// The chunk that ends among the bytes that have come is the next one of the file, whatever bytes
/// follow.
pub proof fn law_next_chunk(fed: Seq<u8>, more: Seq<u8>, start: int)
    requires
        0 <= start <= fed.len(),
        next_cut(fed, start, start) is Some,
    ensures
        ({
            let end = next_cut(fed, start, start)->0;
            chunks_from(fed + more, start) == seq![
                (fed.subrange(start, end), digest_at(fed, end)),
            ] + chunks_from(fed + more, end)
        }),
{
    law_cut_is_stable(fed, more, start, start);
    lemma_cut_range(fed, start, start);
    let end = next_cut(fed, start, start)->0;
    assert((fed + more).subrange(start, end) =~= fed.subrange(start, end));
}

/// A chunk is never empty nor longer than the limit.
pub proof fn law_chunk_sizes(data: Seq<u8>, start: int)
    requires
        0 <= start <= data.len(),
    ensures
        forall|i: int|
            0 <= i < chunks_from(data, start).len() ==> 0 < (#[trigger] chunks_from(
                data,
                start,
            )[i]).0.len() <= MAX_CHUNK_SIZE,
    decreases data.len() - start,
{
    if start < data.len() {
        lemma_cut_range(data, start, start);
        match next_cut(data, start, start) {
            Some(end) => {
                if end - start > MAX_CHUNK_SIZE {
                    assert(ends_at(data, start, start + MAX_CHUNK_SIZE));
                }
                law_chunk_sizes(data, end);
                let rest = chunks_from(data, end);
                assert forall|i: int| 0 <= i < chunks_from(data, start).len() implies 0 < (
                #[trigger] chunks_from(data, start)[i]).0.len() <= MAX_CHUNK_SIZE by {
                    if i > 0 {
                        assert(chunks_from(data, start)[i] == rest[i - 1]);
                    }
                }
            },
            None => {
                if data.len() - start > MAX_CHUNK_SIZE {
                    assert(ends_at(data, start, start + MAX_CHUNK_SIZE));
                }
            },
        }
    }
}

/// The chunks of a file, one after the other, are the file.
pub proof fn law_chunks_concat(data: Seq<u8>, start: int)
    requires
        0 <= start <= data.len(),
    ensures
        concat(chunk_data(chunks_from(data, start))) == data.skip(start),
    decreases data.len() - start,
{
    let all = chunk_data(chunks_from(data, start));
    if start < data.len() {
        lemma_cut_range(data, start, start);
        match next_cut(data, start, start) {
            Some(end) => {
                law_chunks_concat(data, end);
                let rest = chunk_data(chunks_from(data, end));
                assert(all =~= seq![data.subrange(start, end)] + rest);
                lemma_concat_first(data.subrange(start, end), rest);
                assert(data.subrange(start, end) + data.skip(end) =~= data.skip(start));
            },
            None => {
                assert(all =~= seq![data.skip(start)] + Seq::<Seq<u8>>::empty());
                lemma_concat_first(data.skip(start), Seq::<Seq<u8>>::empty());
                assert(data.skip(start) + concat(Seq::<Seq<u8>>::empty()) =~= data.skip(start));
            },
        }
    } else {
        assert(all =~= Seq::<Seq<u8>>::empty());
        assert(concat(all) =~= data.skip(start));
    }
}

/// A change at the front of a file moves no border behind it: where two files agree on the last
/// window before a place, and on the place at which the chunk began, the chunk ends there in both
/// or in none.
pub proof fn law_borders_are_local(
    a: Seq<u8>,
    b: Seq<u8>,
    start_a: int,
    end_a: int,
    start_b: int,
    end_b: int,
)
    requires
        64 <= end_a <= a.len(),
        64 <= end_b <= b.len(),
        a.subrange(end_a - 64, end_a) == b.subrange(end_b - 64, end_b),
        end_a - start_a == end_b - start_b,
    ensures
        ends_at(a, start_a, end_a) == ends_at(b, start_b, end_b),
{
    assert(a.take(end_a).skip(end_a - 64) =~= a.subrange(end_a - 64, end_a));
    assert(b.take(end_b).skip(end_b - 64) =~= b.subrange(end_b - 64, end_b));
    law_digest_is_local(a.take(end_a), b.take(end_b));
}

/// What a reader has to say.
#[derive(Debug, PartialEq, Eq)]
pub enum ChunkStep {
    /// The next chunk: its id, its bytes and the digest at its end.
    Chunk { id: ObjectId, data: Vec<u8>, digest: u64 },
    /// More bytes of the file are needed.
    NeedInput,
    /// There are no more chunks.
    Done,
}

/// Cuts a file into chunks while its bytes come in.
pub struct ChunkReader {
    rs: Rollsum,
    read_buf: Vec<u8>,
    read_pos: usize,
    chunk_buf: Vec<u8>,
    eof: bool,
    done: bool,
    fed: Ghost<Seq<u8>>,
    start: Ghost<int>,
    pos: Ghost<int>,
}

/// A reader at the beginning of a file.
pub fn split_chunks() -> (r: ChunkReader)
    ensures
        r.fed() == Seq::<u8>::empty(),
        r.start() == 0,
        !r.at_end(),
        !r.finished(),
{
    ChunkReader::new()
}

impl ChunkReader {
    /// The bytes of the file that have come in.
    pub closed spec fn fed(&self) -> Seq<u8> {
        self.fed@
    }

    /// The place at which the next chunk begins.
    pub closed spec fn start(&self) -> int {
        self.start@
    }

    /// Whether the end of the file has been announced.
    pub closed spec fn at_end(&self) -> bool {
        self.eof
    }

    /// Whether the last chunk has been handed out.
    pub closed spec fn finished(&self) -> bool {
        self.done
    }

    #[verifier::type_invariant]
    spec fn consistent(&self) -> bool {
        &&& 0 <= self.start@ <= self.pos@ <= self.fed@.len()
        &&& self.rs@ == slide(zero_window(), self.fed@.take(self.pos@))
        &&& self.chunk_buf@ == self.fed@.subrange(self.start@, self.pos@)
        &&& self.read_pos <= self.read_buf@.len()
        &&& self.read_buf@.skip(self.read_pos as int) == self.fed@.skip(self.pos@)
        &&& forall|e: int|
            self.start@ < e <= self.pos@ ==> !#[trigger] ends_at(self.fed@, self.start@, e)
        &&& self.done ==> self.eof && self.start@ == self.fed@.len()
    }

    fn new() -> (r: Self)
        ensures
            r.fed() == Seq::<u8>::empty(),
            r.start() == 0,
            !r.at_end(),
            !r.finished(),
    {
        let rs = Rollsum::new();
        let read_buf: Vec<u8> = Vec::new();
        let chunk_buf: Vec<u8> = Vec::new();
        proof {
            let none = Seq::<u8>::empty();
            assert(slide(zero_window(), none.take(0)) =~= zero_window());
            assert(chunk_buf@ =~= none.subrange(0, 0));
            assert(read_buf@.skip(0) =~= none.skip(0));
        }
        ChunkReader {
            rs,
            read_buf,
            read_pos: 0,
            chunk_buf,
            eof: false,
            done: false,
            fed: Ghost(Seq::empty()),
            start: Ghost(0),
            pos: Ghost(0),
        }
    }

    /// Takes in more bytes of the file; no bytes announce its end. What comes after the end is
    /// passed over.
    pub fn refill(&mut self, buf: Vec<u8>)
        ensures
            final(self).fed() == if old(self).at_end() {
                old(self).fed()
            } else {
                old(self).fed() + buf@
            },
            final(self).at_end() == (old(self).at_end() || buf@.len() == 0),
            final(self).start() == old(self).start(),
            final(self).finished() == old(self).finished(),
    {
        let mut st = ChunkReader::new();
        std::mem::swap(self, &mut st);
        proof {
            use_type_invariant(&st);
        }
        let ChunkReader { rs, read_buf, read_pos, chunk_buf, eof, done, fed, start, pos } = st;
        let mut buf = buf;
        let mut read_buf = read_buf;
        let mut read_pos = read_pos;
        let mut eof = eof;
        let mut fed = fed;
        let ghost old_fed = fed@;
        let ghost more = buf@;
        if !eof {
            if buf.len() == 0 {
                eof = true;
                assert(old_fed + more =~= old_fed);
            } else {
                let ghost rest = read_buf@.skip(read_pos as int);
                if read_pos >= read_buf.len() {
                    read_buf = buf;
                    read_pos = 0;
                    assert(rest =~= Seq::<u8>::empty());
                } else {
                    read_buf.append(&mut buf);
                }
                fed = Ghost(old_fed + more);
                proof {
                    assert(read_buf@.skip(read_pos as int) =~= rest + more);
                    assert(fed@.skip(pos@) =~= old_fed.skip(pos@) + more);
                    assert(fed@.take(pos@) =~= old_fed.take(pos@));
                    assert(fed@.subrange(start@, pos@) =~= old_fed.subrange(start@, pos@));
                    assert forall|e: int| start@ < e <= pos@ implies !#[trigger] ends_at(
                        fed@,
                        start@,
                        e,
                    ) by {
                        assert(!ends_at(old_fed, start@, e));
                        assert(fed@.take(e) =~= old_fed.take(e));
                    }
                }
            }
        }
        *self = ChunkReader { rs, read_buf, read_pos, chunk_buf, eof, done, fed, start, pos };
    }

    /// Hands out the next chunk, if its end is among the bytes that have come in.
    pub fn next(&mut self) -> (r: ChunkStep)
        ensures
            final(self).fed() == old(self).fed(),
            final(self).at_end() == old(self).at_end(),
            old(self).finished() ==> {
                &&& r is Done
                &&& final(self).start() == old(self).start()
                &&& final(self).finished()
            },
            !old(self).finished() ==> {
                let data = old(self).fed();
                let start = old(self).start();
                match next_cut(data, start, start) {
                    Some(end) => {
                        &&& r is Chunk
                        &&& r->data@ == data.subrange(start, end)
                        &&& r->id@ == chunk_id(data.subrange(start, end))
                        &&& r->digest == digest_at(data, end)
                        &&& final(self).start() == end
                        &&& !final(self).finished()
                    },
                    None => if !old(self).at_end() {
                        &&& r is NeedInput
                        &&& final(self).start() == start
                        &&& !final(self).finished()
                    } else if start < data.len() {
                        &&& r is Chunk
                        &&& r->data@ == data.skip(start)
                        &&& r->id@ == chunk_id(data.skip(start))
                        &&& r->digest == digest_at(data, data.len() as int)
                        &&& final(self).start() == data.len()
                        &&& final(self).finished()
                    } else {
                        &&& r is Done
                        &&& final(self).start() == start
                        &&& final(self).finished()
                    },
                }
            },
            0 <= final(self).start() <= final(self).fed().len(),
    {
        let mut st = ChunkReader::new();
        std::mem::swap(self, &mut st);
        proof {
            use_type_invariant(&st);
        }
        if st.done {
            *self = st;
            return ChunkStep::Done;
        }
        let ChunkReader { rs, read_buf, read_pos, chunk_buf, eof, done, fed, start, pos } = st;
        let mut rs = rs;
        let mut read_pos = read_pos;
        let mut chunk_buf = chunk_buf;
        let ghost data = fed@;
        let ghost begin = start@;
        let ghost held = chunk_buf@;
        let ghost first = pos@;
        let ghost mut at = pos@;
        let from: usize = read_pos;
        let mut found: bool = false;
        proof {
            lemma_cut_range(data, begin, begin);
        }
        while !found && read_pos < read_buf.len()
            invariant
                from <= read_pos <= read_buf@.len(),
                0 <= begin <= first <= at <= data.len(),
                at - first == read_pos - from,
                held == data.subrange(begin, first),
                chunk_buf@ == held,
                read_buf@.skip(from as int) == data.skip(first),
                rs@ == slide(zero_window(), data.take(at)),
                forall|e: int| begin < e < at ==> !#[trigger] ends_at(data, begin, e),
                found ==> begin < at && ends_at(data, begin, at),
                !found && begin < at ==> !ends_at(data, begin, at),
            ensures
                from <= read_pos <= read_buf@.len(),
                0 <= begin <= first <= at <= data.len(),
                at - first == read_pos - from,
                chunk_buf@ == held,
                held == data.subrange(begin, first),
                read_buf@.skip(from as int) == data.skip(first),
                rs@ == slide(zero_window(), data.take(at)),
                forall|e: int| begin < e < at ==> !#[trigger] ends_at(data, begin, e),
                found ==> begin < at && ends_at(data, begin, at),
                !found && begin < at ==> !ends_at(data, begin, at),
                !found ==> read_pos == read_buf@.len(),
            decreases read_buf@.len() - read_pos,
        {
            let byte: u8 = read_buf[read_pos];
            proof {
                assert(read_buf@.skip(from as int)[read_pos - from] == byte);
                assert(read_buf@.skip(from as int).len() == data.skip(first).len());
                assert(data.skip(first)[at - first] == data[at]);
                assert(data[at] == byte);
                assert(slide(zero_window(), data.take(at)).drop_first().push(byte) =~= slide(
                    zero_window(),
                    data.take(at + 1),
                ));
                if begin < at && at - begin >= MAX_CHUNK_SIZE {
                    assert(ends_at(data, begin, at));
                }
                assert(held.len() == first - begin);
                at = at + 1;
            }
            read_pos += 1;
            rs.roll(byte);
            if rs.digest() as u64 & SPLIT_MASK == 0 || chunk_buf.len() + (read_pos - from)
                >= MAX_CHUNK_SIZE {
                found = true;
            }
        }
        let run = slice_subrange(read_buf.as_slice(), from, read_pos);
        proof {
            assert(run@ =~= data.subrange(first, at)) by {
                assert forall|i: int| 0 <= i < run@.len() implies run@[i] == data[first + i] by {
                    assert(read_buf@.skip(from as int)[i] == run@[i]);
                    assert(data.skip(first)[i] == data[first + i]);
                }
            }
        }
        chunk_buf.extend_from_slice(run);
        proof {
            assert(chunk_buf@ =~= data.subrange(begin, at));
            assert(read_buf@.skip(read_pos as int) =~= read_buf@.skip(from as int).skip(
                read_pos - from,
            ));
            assert(data.skip(at) =~= data.skip(first).skip(at - first));
            if found {
                let cut = next_cut(data, begin, begin);
                assert(cut == Some(at));
            } else {
                assert(data.skip(at).len() == 0);
                assert(at == data.len());
                assert(next_cut(data, begin, begin) is None);
            }
        }
        if found || (eof && chunk_buf.len() > 0) {
            let digest: u64 = rs.digest() as u64;
            let id = chunk_object_id(chunk_buf.as_slice());
            let mut fresh: Vec<u8> = Vec::new();
            std::mem::swap(&mut fresh, &mut chunk_buf);
            proof {
                assert(chunk_buf@ =~= data.subrange(at, at));
                assert(data.subrange(begin, data.len() as int) =~= data.skip(begin));
            }
            *self = ChunkReader {
                rs,
                read_buf,
                read_pos,
                chunk_buf,
                eof,
                done: !found,
                fed,
                start: Ghost(at),
                pos: Ghost(at),
            };
            ChunkStep::Chunk { id, data: fresh, digest }
        } else {
            *self = ChunkReader {
                rs,
                read_buf,
                read_pos,
                chunk_buf,
                eof,
                done: eof,
                fed,
                start,
                pos: Ghost(at),
            };
            if eof {
                ChunkStep::Done
            } else {
                ChunkStep::NeedInput
            }
        }
    }
}

/// A chunk ends after a byte exactly where the thirteen lowest bits of the digest are zero there, or
/// where it is 32768 bytes long.
pub proof fn law_where_a_chunk_ends(data: Seq<u8>, start: int, end: int)
    ensures
        ends_at(data, start, end) <==> digest_at(data, end) % 8192 == 0 || end - start >= 32768,
{
    let d = digest_at(data, end);
    assert(d & 0x1fff == 0 <==> d % 8192 == 0) by (bit_vector);
}

/// Each chunk of a file ends at the first place after its start at which it may, or with the file, and
/// comes with the digest there; the next one starts where it ends.
pub proof fn law_chunks_end_where_they_may(data: Seq<u8>, start: int, i: int)
    requires
        0 <= start <= data.len(),
        0 <= i < chunks_from(data, start).len(),
    ensures
        ({
            let all = chunks_from(data, start);
            let from = start + chunk_data(all.take(i)).flatten().len();
            let to = from + all[i].0.len();
            &&& from < to <= data.len()
            &&& all[i].0 == data.subrange(from, to)
            &&& all[i].1 == digest_at(data, to)
            &&& ends_at(data, from, to) || to == data.len()
            &&& forall|e: int| from < e < to ==> !#[trigger] ends_at(data, from, e)
            &&& i == all.len() - 1 <==> to == data.len()
        }),
    decreases data.len() - start,
{
    let all = chunks_from(data, start);
    lemma_cut_range(data, start, start);
    match next_cut(data, start, start) {
        Some(end) => {
            let rest = chunks_from(data, end);
            assert(all =~= seq![(data.subrange(start, end), digest_at(data, end))] + rest);
            if i == 0 {
                assert(chunk_data(all.take(0)) =~= Seq::<Seq<u8>>::empty());
                if end < data.len() {
                    lemma_some_chunk(data, end);
                }
            } else {
                law_chunks_end_where_they_may(data, end, i - 1);
                let before = chunk_data(all.take(i));
                assert(before.drop_first() =~= chunk_data(rest.take(i - 1)));
                assert(before.first() == data.subrange(start, end));
                assert(before.flatten() == before.first().add(before.drop_first().flatten()));
                assert(all[i] == rest[i - 1]);
            }
        },
        None => {
            assert(chunk_data(all.take(0)) =~= Seq::<Seq<u8>>::empty());
            assert(data.skip(start) =~= data.subrange(start, data.len() as int));
        },
    }
}

proof fn lemma_some_chunk(data: Seq<u8>, start: int)
    requires
        0 <= start < data.len(),
    ensures
        chunks_from(data, start).len() > 0,
{
    lemma_cut_range(data, start, start);
}

/// An empty file has no chunks, and any other has some.
pub proof fn law_files_have_chunks(data: Seq<u8>)
    ensures
        file_chunks(data).len() == 0 <==> data.len() == 0,
        file_chunks(data) == chunks_from(data, 0),
{
    if data.len() > 0 {
        lemma_some_chunk(data, 0);
    }
}

/// The digest at a place is that of the 64 bytes before it, with zeros for those that are missing at the
/// front of the file; where a chunk began makes no difference.
pub proof fn law_digest_looks_back(data: Seq<u8>, n: int)
    requires
        0 <= n <= data.len(),
    ensures
        n >= 64 ==> digest_at(data, n) == window_digest(data.subrange(n - 64, n)) as u64,
        n < 64 ==> digest_at(data, n) == window_digest(
            Seq::new((64 - n) as nat, |i: int| 0u8) + data.take(n),
        ) as u64,
{
    let window = slide(zero_window(), data.take(n));
    if n >= 64 {
        assert(window =~= data.subrange(n - 64, n));
    } else {
        assert(window =~= Seq::new((64 - n) as nat, |i: int| 0u8) + data.take(n));
    }
}

} // verus!
