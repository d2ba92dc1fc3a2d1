//! Where a repository keeps its files.

use crate::hex::{hex_text, law_hex_injective};
use crate::model::{Id, ObjectId, Repository};
use crate::text::{chars_of, copy_str};
use vstd::prelude::*;
use vstd::string::StringExecFns;

verus! {

/// The name of the program, of which the names of its files are made.
pub const CRATE_NAME: &'static str = "scup";

/// The directory that a repository keeps its files in.
pub const REPO_DIR_NAME: &'static str = ".scup";

/// What the path of a file in that directory begins with.
pub const REPO_DIR_PREFIX: &'static str = ".scup/";

/// The file that holds the objects of a repository.
pub const REPOSITORY_FILE: &'static str = ".scup/repository";

/// The directory that holds the bytes of chunks.
pub const CHUNKS_DIR: &'static str = ".scup/chunks";

/// The name under which the program is found in a local network.
pub const MDNS_SERVICE_TYPE: &'static str = "_scup._tcp.local.";

/// `rest` as a path that starts at the directory `base`.
pub open spec fn path_in(base: Seq<char>, rest: Seq<char>) -> Seq<char> {
    if base.len() == 0 || base.last() == '/' {
        base + rest
    } else {
        base.push('/') + rest
    }
}

/// `rest` as a path that starts at the directory `base`.
pub fn join_path(base: &str, rest: &str) -> (r: String)
    ensures
        r@ == path_in(base@, rest@),
{
    let cs = chars_of(base);
    let mut r = copy_str(base);
    if cs.len() > 0 && cs[cs.len() - 1] != '/' {
        r.push('/');
    }
    r.append(rest);
    r
}

/// The path of the file that holds the bytes of a chunk, seen from the working tree.
pub open spec fn chunk_file(id: Id) -> Seq<char> {
    CHUNKS_DIR@.push('/') + hex_text(id)
}

/// The path of the file that holds the bytes of a chunk, seen from the working tree.
pub fn chunk_file_path(id: &ObjectId) -> (r: String)
    ensures
        r@ == chunk_file(id@),
{
    let mut r = copy_str(CHUNKS_DIR);
    r.push('/');
    r.append(id.to_hex().as_str());
    r
}

/// Two chunks never share a file.
pub proof fn law_chunk_files_differ(a: Id, b: Id)
    requires
        chunk_file(a) == chunk_file(b),
    ensures
        a == b,
{
    let n = CHUNKS_DIR@.len() + 1;
    assert(chunk_file(a).skip(n as int) =~= hex_text(a));
    assert(chunk_file(b).skip(n as int) =~= hex_text(b));
    law_hex_injective(a, b);
}

/// Chunks in files of their own, under the working tree `base`.
#[derive(Debug, PartialEq, Eq)]
pub struct FilesystemChunkStorage {
    pub base: String,
}

impl FilesystemChunkStorage {
    pub fn new(base: &str) -> (r: Self)
        ensures
            r.base@ == base@,
    {
        FilesystemChunkStorage { base: copy_str(base) }
    }

    /// The directory that holds the chunks.
    pub fn chunks_path(&self) -> (r: String)
        ensures
            r@ == path_in(self.base@, CHUNKS_DIR@),
    {
        join_path(self.base.as_str(), CHUNKS_DIR)
    }

    /// The file that holds the bytes of a chunk.
    pub fn chunk_path(&self, id: ObjectId) -> (r: String)
        ensures
            r@ == path_in(self.base@, chunk_file(id@)),
    {
        join_path(self.base.as_str(), chunk_file_path(&id).as_str())
    }
}

/// Chunks in a database, under the working tree `base`.
#[derive(Debug, PartialEq, Eq)]
pub struct SledChunkStorage {
    pub base: String,
}

impl SledChunkStorage {
    pub fn new(base: &str) -> (r: Self)
        ensures
            r.base@ == base@,
    {
        SledChunkStorage { base: copy_str(base) }
    }

    /// The directory that holds the database.
    pub fn db_path(&self) -> (r: String)
        ensures
            r@ == path_in(self.base@, CHUNKS_DIR@ + "/sled"@),
    {
        let mut rest = copy_str(CHUNKS_DIR);
        rest.append("/sled");
        join_path(self.base.as_str(), rest.as_str())
    }
}

/// A repository and the working tree that it belongs to.
#[derive(Debug, PartialEq, Eq)]
pub struct RepositorySession {
    pub base: String,
    pub repository: Repository,
    pub chunk_storage: FilesystemChunkStorage,
}

impl RepositorySession {
    /// The session of `repository` in the working tree `base`.
    pub fn new(base: &str, repository: Repository) -> (r: Self)
        ensures
            r.base@ == base@,
            r.repository == repository,
            r.chunk_storage.base@ == base@,
    {
        RepositorySession {
            base: copy_str(base),
            repository,
            chunk_storage: FilesystemChunkStorage::new(base),
        }
    }

    /// The file that holds the objects of the repository.
    pub fn repository_path(&self) -> (r: String)
        ensures
            r@ == path_in(self.base@, REPOSITORY_FILE@),
    {
        join_path(self.base.as_str(), REPOSITORY_FILE)
    }
}

/// A path below a directory is the path of the directory, one slash, and the rest; below no directory
/// it is the rest alone. A chunk stands below `.scup/chunks` under the notation of its id.
pub proof fn law_paths_below_a_directory(base: Seq<char>, rest: Seq<char>, id: Id)
    ensures
        base.len() == 0 ==> path_in(base, rest) == rest,
        base.len() > 0 && base.last() != '/' ==> path_in(base, rest) == base + seq!['/'] + rest,
        path_in(base + seq!['/'], rest) == base + seq!['/'] + rest,
        chunk_file(id) == ".scup/chunks/"@ + hex_text(id),
{
    reveal_strlit(".scup/chunks");
    reveal_strlit(".scup/chunks/");
    assert(CHUNKS_DIR@.push('/') =~= ".scup/chunks/"@);
    assert(base.push('/') =~= base + seq!['/']);
    if base.len() == 0 {
        assert(base + rest =~= rest);
    }
    assert((base + seq!['/']).last() == '/');
}

} // verus!
