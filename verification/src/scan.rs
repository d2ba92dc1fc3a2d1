//! Hosts that offer repositories in the local network.

use crate::duplicate::Duplicate;
use crate::hex::{
    hex32, hex_text, law_hex32_round_trip, law_hex_injective, lemma_hex_text_is_plain, HexError,
};
use crate::model::{Id, RepositoryId};
use crate::storage::{CRATE_NAME, MDNS_SERVICE_TYPE};
use crate::text::{
    chars_of, copy_range, copy_str, has_prefix, has_suffix, join, joined, law_parts_of_texts,
    lemma_split_joined, lowered, same_text, split, split_on, stands_at, starts_with, string_of,
    texts, to_lower, trim, trimmed, views,
};
use vstd::prelude::*;
use vstd::string::StringExecFns;

verus! {

/// The name of a repository whose directory is not known.
pub const UNKNOWN_ROOT: &'static str = "<unknown>";

/// A repository that a host offers: its name, and that of its directory.
#[derive(Debug, PartialEq, Eq)]
pub struct ScannedRepo {
    pub repo_uuid: RepositoryId,
    pub root: String,
}

/// What an offered repository holds.
#[verifier::ext_equal]
pub struct ScannedRepoView {
    pub repo_uuid: Id,
    pub root: Seq<char>,
}

impl View for ScannedRepo {
    type V = ScannedRepoView;

    open spec fn view(&self) -> ScannedRepoView {
        ScannedRepoView { repo_uuid: self.repo_uuid@, root: self.root@ }
    }
}

/// What offered repositories hold.
pub open spec fn repo_views(repos: Seq<ScannedRepo>) -> Seq<ScannedRepoView> {
    repos.map_values(|r: ScannedRepo| r@)
}

impl Duplicate for ScannedRepo {
    fn duplicate(&self) -> (r: Self) {
        ScannedRepo { repo_uuid: self.repo_uuid, root: self.root.duplicate() }
    }
}

/// Those of `pieces` that hold more than white space, without the white space at their ends.
pub open spec fn trimmed_pieces(pieces: Seq<Seq<char>>) -> Seq<Seq<char>>
    decreases pieces.len(),
{
    if pieces.len() == 0 {
        Seq::<Seq<char>>::empty()
    } else {
        let front = trimmed_pieces(pieces.drop_last());
        let last = trimmed(pieces.last());
        if last.len() == 0 {
            front
        } else {
            front.push(last)
        }
    }
}

/// The fields of a text: what stands between commas, but for white space.
pub open spec fn fields_of(text: Seq<char>) -> Seq<Seq<char>> {
    trimmed_pieces(split_on(text, ','))
}

/// The ids that `fields` are the notations of; what is none is left out.
pub open spec fn ids_among(fields: Seq<Seq<char>>) -> Seq<Id>
    decreases fields.len(),
{
    if fields.len() == 0 {
        Seq::<Id>::empty()
    } else {
        let front = ids_among(fields.drop_last());
        match hex32(fields.last()) {
            Ok(id) => front.push(id),
            Err(_) => front,
        }
    }
}

/// What an optional text holds; nothing where there is none.
pub open spec fn text_or_empty(s: Option<&str>) -> Seq<char> {
    match s {
        Some(t) => t@,
        None => Seq::<char>::empty(),
    }
}

/// The repositories that a host offers: the ids in `repos`, each with the directory that stands at
/// the same place in `roots`.
pub open spec fn offered(repos: Seq<char>, roots: Seq<char>) -> Seq<ScannedRepoView> {
    let uuids = ids_among(fields_of(repos));
    let names = fields_of(roots);
    Seq::new(
        uuids.len(),
        |i: int|
            ScannedRepoView {
                repo_uuid: uuids[i],
                root: if i < names.len() {
                    names[i]
                } else {
                    UNKNOWN_ROOT@
                },
            },
    )
}

/// The fields of a text.
fn fields(text: &str) -> (r: Vec<String>)
    ensures
        views(r@) == fields_of(text@),
{
    let pieces = split(chars_of(text).as_slice(), ',');
    let ghost all = texts(pieces@);
    let mut r: Vec<String> = Vec::new();
    let mut i: usize = 0;
    assert(views(r@) =~= trimmed_pieces(all.take(0)));
    while i < pieces.len()
        invariant
            all == texts(pieces@),
            i <= pieces@.len(),
            views(r@) == trimmed_pieces(all.take(i as int)),
        decreases pieces@.len() - i,
    {
        let ghost before = views(r@);
        let piece = trim(pieces[i].as_slice());
        assert(all.take(i + 1).drop_last() =~= all.take(i as int));
        assert(all.take(i + 1).last() == pieces@[i as int]@);
        if piece.len() > 0 {
            r.push(string_of(piece.as_slice()));
            assert(views(r@) =~= before.push(piece@));
        }
        i += 1;
    }
    assert(all.take(i as int) =~= all);
    r
}

/// What ids of repositories hold.
pub open spec fn uuid_views(s: Seq<RepositoryId>) -> Seq<Id> {
    s.map_values(|id: RepositoryId| id@)
}

/// The ids that `fields` are the notations of.
fn parse_ids(fields: &Vec<String>) -> (r: Vec<RepositoryId>)
    ensures
        uuid_views(r@) == ids_among(views(fields@)),
{
    let ghost all = views(fields@);
    let mut r: Vec<RepositoryId> = Vec::new();
    let mut i: usize = 0;
    assert(uuid_views(r@) =~= ids_among(all.take(0)));
    while i < fields.len()
        invariant
            all == views(fields@),
            i <= fields@.len(),
            uuid_views(r@) == ids_among(all.take(i as int)),
        decreases fields@.len() - i,
    {
        let ghost before = uuid_views(r@);
        assert(all.take(i + 1).drop_last() =~= all.take(i as int));
        assert(all.take(i + 1).last() == fields@[i as int]@);
        if let Some(id) = RepositoryId::from_hex(fields[i].as_str()) {
            r.push(id);
            assert(uuid_views(r@) =~= before.push(id@));
        }
        i += 1;
    }
    assert(all.take(i as int) =~= all);
    r
}

impl ScannedRepo {
    /// The repositories that a host offers, as it makes them known.
    pub fn from_properties(repos: Option<&str>, roots: Option<&str>) -> (r: Vec<Self>)
        ensures
            repo_views(r@) == offered(text_or_empty(repos), text_or_empty(roots)),
    {
        let empty = String::new();
        let uuids = parse_ids(
            &fields(
                match repos {
                    Some(s) => s,
                    None => empty.as_str(),
                },
            ),
        );
        let names = fields(
            match roots {
                Some(s) => s,
                None => empty.as_str(),
            },
        );
        let ghost goal = offered(text_or_empty(repos), text_or_empty(roots));
        proof {
            assert(empty@ =~= Seq::<char>::empty());
            assert(uuid_views(uuids@) == ids_among(fields_of(text_or_empty(repos))));
            assert(views(names@) == fields_of(text_or_empty(roots)));
        }
        let mut r: Vec<ScannedRepo> = Vec::new();
        let mut i: usize = 0;
        assert(repo_views(r@) =~= goal.take(0));
        while i < uuids.len()
            invariant
                goal == offered(text_or_empty(repos), text_or_empty(roots)),
                uuid_views(uuids@) == ids_among(fields_of(text_or_empty(repos))),
                views(names@) == fields_of(text_or_empty(roots)),
                goal.len() == uuids@.len(),
                i <= uuids@.len(),
                repo_views(r@) == goal.take(i as int),
            decreases uuids@.len() - i,
        {
            let ghost before = repo_views(r@);
            assert(uuid_views(uuids@)[i as int] == uuids@[i as int]@);
            let root = if i < names.len() {
                assert(views(names@)[i as int] == names@[i as int]@);
                names[i].duplicate()
            } else {
                copy_str(UNKNOWN_ROOT)
            };
            let repo = ScannedRepo { repo_uuid: uuids[i], root };
            r.push(repo);
            assert(repo@ == goal[i as int]);
            assert(repo_views(r@) =~= before.push(repo@));
            assert(goal.take(i + 1) =~= goal.take(i as int).push(goal[i as int]));
            i += 1;
        }
        assert(goal.take(i as int) =~= goal);
        r
    }
}

/// The notations of ids.
pub open spec fn notations(uuids: Seq<Id>) -> Seq<Seq<char>> {
    uuids.map_values(|id: Id| hex_text(id))
}

/// How a host makes the ids of its repositories known: their notations with commas between them.
pub fn repos_property(repo_uuids: &Vec<RepositoryId>) -> (r: String)
    ensures
        r@ == joined(notations(uuid_views(repo_uuids@)), ","@),
{
    let ghost goal = notations(uuid_views(repo_uuids@));
    let mut parts: Vec<String> = Vec::new();
    let mut i: usize = 0;
    assert(views(parts@) =~= goal.take(0));
    while i < repo_uuids.len()
        invariant
            goal == notations(uuid_views(repo_uuids@)),
            i <= repo_uuids@.len(),
            views(parts@) == goal.take(i as int),
        decreases repo_uuids@.len() - i,
    {
        let ghost before = views(parts@);
        parts.push(repo_uuids[i].to_hex());
        assert(goal[i as int] == hex_text(repo_uuids@[i as int]@));
        assert(views(parts@) =~= before.push(goal[i as int]));
        assert(goal.take(i + 1) =~= goal.take(i as int).push(goal[i as int]));
        i += 1;
    }
    assert(goal.take(i as int) =~= goal);
    join(parts.as_slice(), ",")
}

/// How a host makes the directories of its repositories known.
pub fn roots_property(repo_roots: &Vec<String>) -> (r: String)
    ensures
        r@ == joined(views(repo_roots@), ","@),
{
    join(repo_roots.as_slice(), ",")
}

/// Whether a directory can be made known: its name is not empty, has no white space at its ends
/// and no comma.
pub open spec fn is_plain_root(s: Seq<char>) -> bool {
    s.len() > 0 && trimmed(s) == s && !s.contains(',')
}

proof fn lemma_trimmed_pieces(pieces: Seq<Seq<char>>)
    requires
        forall|i: int|
            0 <= i < pieces.len() ==> (#[trigger] pieces[i]).len() > 0 && trimmed(pieces[i])
                == pieces[i],
    ensures
        trimmed_pieces(pieces) == pieces,
    decreases pieces.len(),
{
    if pieces.len() > 0 {
        let front = pieces.drop_last();
        assert forall|i: int| 0 <= i < front.len() implies (#[trigger] front[i]).len() > 0
            && trimmed(front[i]) == front[i] by {
            assert(front[i] == pieces[i]);
        }
        lemma_trimmed_pieces(front);
        assert(pieces[pieces.len() - 1] == pieces.last());
        assert(front.push(pieces.last()) =~= pieces);
    } else {
        assert(trimmed_pieces(pieces) =~= pieces);
    }
}

proof fn lemma_ids_among_notations(uuids: Seq<Id>)
    requires
        forall|i: int| 0 <= i < uuids.len() ==> (#[trigger] uuids[i]).len() == 32,
    ensures
        ids_among(notations(uuids)) == uuids,
    decreases uuids.len(),
{
    let all = notations(uuids);
    if uuids.len() > 0 {
        let front = uuids.drop_last();
        assert forall|i: int| 0 <= i < front.len() implies (#[trigger] front[i]).len() == 32 by {
            assert(front[i] == uuids[i]);
        }
        lemma_ids_among_notations(front);
        assert(all.drop_last() =~= notations(front));
        assert(uuids[uuids.len() - 1] == uuids.last());
        law_hex32_round_trip(uuids.last());
        assert(front.push(uuids.last()) =~= uuids);
    } else {
        assert(ids_among(all) =~= uuids);
    }
}

/// What a host makes known is what others find, if the names of its directories can be made known.
pub proof fn law_properties_come_through(uuids: Seq<Id>, roots: Seq<Seq<char>>)
    requires
        uuids.len() == roots.len(),
        forall|i: int| 0 <= i < uuids.len() ==> (#[trigger] uuids[i]).len() == 32,
        forall|i: int| 0 <= i < roots.len() ==> is_plain_root(#[trigger] roots[i]),
    ensures
        offered(joined(notations(uuids), ","@), joined(roots, ","@)) == Seq::new(
            uuids.len(),
            |i: int| ScannedRepoView { repo_uuid: uuids[i], root: roots[i] },
        ),
{
    reveal_strlit(",");
    assert(","@ =~= seq![',']);
    let all = notations(uuids);
    let goal = Seq::new(
        uuids.len(),
        |i: int| ScannedRepoView { repo_uuid: uuids[i], root: roots[i] },
    );
    if uuids.len() == 0 {
        let none = Seq::<char>::empty();
        assert(joined(all, ","@) =~= none);
        assert(split_on(none, ',').drop_last() =~= Seq::<Seq<char>>::empty());
        assert(trimmed_pieces(split_on(none, ',').drop_last()) =~= Seq::<Seq<char>>::empty());
        assert(fields_of(none) =~= Seq::<Seq<char>>::empty());
        assert(offered(joined(all, ","@), joined(roots, ","@)) =~= goal);
    } else {
        assert forall|i: int| 0 <= i < all.len() implies (#[trigger] all[i]).len() > 0 && trimmed(
            all[i],
        ) == all[i] && !all[i].contains(',') by {
            lemma_hex_text_is_plain(uuids[i]);
        }
        lemma_split_joined(all, ',');
        lemma_trimmed_pieces(all);
        lemma_ids_among_notations(uuids);
        assert forall|i: int| 0 <= i < roots.len() implies (#[trigger] roots[i]).len() > 0
            && trimmed(roots[i]) == roots[i] && !roots[i].contains(',') by {
            assert(is_plain_root(roots[i]));
        }
        lemma_split_joined(roots, ',');
        lemma_trimmed_pieces(roots);
        assert(offered(joined(all, ","@), joined(roots, ","@)) =~= goal);
    }
}

/// What is to be made known of the repository that is served and of the name of its directory.
pub open spec fn made_known(repo_uuid: Option<Id>, root: Option<Seq<char>>) -> (
    Seq<Id>,
    Seq<Seq<char>>,
) {
    match repo_uuid {
        None => (Seq::empty(), Seq::empty()),
        Some(id) => (
            seq![id],
            seq![
                match root {
                    Some(name) => name,
                    None => UNKNOWN_ROOT@,
                },
            ],
        ),
    }
}

/// What is to be made known of the repository that is served, and of the name of its directory, if
/// there is one and the name is known.
pub fn advertised(repo_uuid: Option<RepositoryId>, root: Option<String>) -> (r: (
    Vec<RepositoryId>,
    Vec<String>,
))
    ensures
        match repo_uuid {
            None => r.0@ == Seq::<RepositoryId>::empty() && r.1@ == Seq::<String>::empty(),
            Some(id) => {
                &&& r.0@ == seq![id]
                &&& views(r.1@) == seq![
                    match root {
                        Some(name) => name@,
                        None => UNKNOWN_ROOT@,
                    },
                ]
            },
        },
        (uuid_views(r.0@), views(r.1@)) == made_known(
            match repo_uuid {
                Some(id) => Some(id@),
                None => None,
            },
            match root {
                Some(name) => Some(name@),
                None => None,
            },
        ),
{
    let mut uuids: Vec<RepositoryId> = Vec::new();
    let mut roots: Vec<String> = Vec::new();
    if let Some(id) = repo_uuid {
        uuids.push(id);
        let name = match root {
            Some(name) => name,
            None => copy_str(UNKNOWN_ROOT),
        };
        roots.push(name);
        assert(views(roots@) =~= seq![name@]);
        assert(uuid_views(uuids@) =~= seq![id@]);
    }
    assert(repo_uuid is None ==> uuid_views(uuids@) =~= Seq::empty() && views(roots@)
        =~= Seq::empty());
    (uuids, roots)
}

/// An address of a host.
#[derive(Clone, Copy, Debug, PartialEq, Eq, Structural)]
pub struct HostAddr {
    pub v6: bool,
    pub bits: u128,
}

impl HostAddr {
    /// The place of an address in their order: those of the fourth version come first.
    pub open spec fn key(self) -> int {
        if self.v6 {
            self.bits + u128::MAX + 1
        } else {
            self.bits as int
        }
    }

    fn is_after(&self, other: &HostAddr) -> (r: bool)
        ensures
            r == (self.key() > other.key()),
    {
        if self.v6 == other.v6 {
            self.bits > other.bits
        } else {
            self.v6
        }
    }
}

/// Whether addresses are in their order.
pub open spec fn in_addr_order(s: Seq<HostAddr>) -> bool {
    forall|i: int, j: int|
        0 <= i < j < s.len() ==> (#[trigger] s[i]).key() <= (#[trigger] s[j]).key()
}

/// The addresses in their order.
pub fn sort_addrs(addrs: &Vec<HostAddr>) -> (r: Vec<HostAddr>)
    ensures
        in_addr_order(r@),
        r@.to_multiset() == addrs@.to_multiset(),
{
    broadcast use vstd::seq_lib::group_to_multiset_ensures;

    let mut r: Vec<HostAddr> = Vec::new();
    let mut i: usize = 0;
    assert(r@ =~= addrs@.take(0));
    while i < addrs.len()
        invariant
            i <= addrs@.len(),
            in_addr_order(r@),
            r@.to_multiset() == addrs@.take(i as int).to_multiset(),
        decreases addrs@.len() - i,
    {
        let a = addrs[i];
        let mut k: usize = r.len();
        while k > 0 && r[k - 1].is_after(&a)
            invariant
                k <= r@.len(),
                in_addr_order(r@),
                forall|j: int| k <= j < r@.len() ==> (#[trigger] r@[j]).key() > a.key(),
            decreases k,
        {
            k -= 1;
        }
        let ghost before = r@;
        r.insert(k, a);
        proof {
            vstd::seq_lib::to_multiset_insert(before, k as int, a);
            assert(addrs@.take(i + 1) =~= addrs@.take(i as int).push(a));
            vstd::seq_lib::to_multiset_build(addrs@.take(i as int), a);
            let s = r@;
            assert forall|x: int, y: int| 0 <= x < y < s.len() implies (#[trigger] s[x]).key() <= (
            #[trigger] s[y]).key() by {
                let bx = if x < k { x } else { x - 1 };
                let by = if y < k { y } else { y - 1 };
                if x != k {
                    assert(s[x] == before[bx]);
                }
                if y != k {
                    assert(s[y] == before[by]);
                }
                if y == k {
                    assert(before[k - 1].key() <= a.key());
                    if x < k - 1 {
                        assert(before[x].key() <= before[k - 1].key());
                    }
                }
            }
        }
        i += 1;
    }
    assert(addrs@.take(i as int) =~= addrs@);
    r
}

/// A host that was found: its name, its full name, its addresses, its port, and what it offers.
#[derive(Debug, PartialEq, Eq)]
pub struct ScannedHost {
    pub id: String,
    pub fullname: String,
    pub addrs: Vec<HostAddr>,
    pub port: u16,
    pub repos: Vec<ScannedRepo>,
}

/// `s` without `prefix` at its front, if it begins with it.
pub open spec fn without_prefix(s: Seq<char>, prefix: Seq<char>) -> Seq<char> {
    if has_prefix(s, prefix) {
        s.skip(prefix.len() as int)
    } else {
        s
    }
}

/// `s` without `suffix` at its end, if it ends with it.
pub open spec fn without_suffix(s: Seq<char>, suffix: Seq<char>) -> Seq<char> {
    if has_suffix(s, suffix) {
        s.take(s.len() - suffix.len())
    } else {
        s
    }
}

/// What the name of a service begins with.
pub open spec fn instance_prefix() -> Seq<char> {
    CRATE_NAME@.push('-')
}

/// What the full name of a service ends with.
pub open spec fn service_suffix() -> Seq<char> {
    seq!['.'] + MDNS_SERVICE_TYPE@
}

/// The name of a host that goes by the full name `fullname`.
pub open spec fn id_of(fullname: Seq<char>) -> Seq<char> {
    without_prefix(without_suffix(fullname, service_suffix()), instance_prefix())
}

/// The name of the service of a host.
pub open spec fn instance_of(hostname: Seq<char>) -> Seq<char> {
    instance_prefix() + hostname
}

/// The full name of the service of a host.
pub open spec fn fullname_of(hostname: Seq<char>) -> Seq<char> {
    instance_of(hostname) + service_suffix()
}

/// The name of the service of a host.
pub fn instance_name(hostname: &str) -> (r: String)
    ensures
        r@ == instance_of(hostname@),
{
    let mut r = copy_str(CRATE_NAME);
    r.push('-');
    r.append(hostname);
    r
}

/// The name under which a host is found in the local network.
pub fn local_name(hostname: &str) -> (r: String)
    ensures
        r@ == hostname@ + ".local."@,
{
    let mut r = copy_str(hostname);
    r.append(".local.");
    r
}

/// The name of a host that goes by the full name `fullname`.
pub fn host_id(fullname: &str) -> (r: String)
    ensures
        r@ == id_of(fullname@),
{
    let cs = chars_of(fullname);
    let mut prefix = chars_of(CRATE_NAME);
    prefix.push('-');
    let mut suffix: Vec<char> = Vec::new();
    suffix.push('.');
    let mut kind = chars_of(MDNS_SERVICE_TYPE);
    suffix.append(&mut kind);
    assert(suffix@ =~= service_suffix());
    let mut end: usize = cs.len();
    if suffix.len() <= cs.len() {
        let at: usize = cs.len() - suffix.len();
        assert(cs@.subrange(at as int, at + suffix@.len()) =~= cs@.skip(at as int));
        if stands_at(cs.as_slice(), suffix.as_slice(), at) {
            end = at;
        }
    }
    let ghost front = without_suffix(fullname@, service_suffix());
    assert(cs@.take(end as int) =~= front);
    let mut begin: usize = 0;
    if prefix.len() <= end {
        assert(cs@.subrange(0, prefix@.len() as int) =~= front.take(prefix@.len() as int));
        if stands_at(cs.as_slice(), prefix.as_slice(), 0) {
            begin = prefix.len();
        }
    }
    let r = copy_range(cs.as_slice(), begin, end);
    assert(r@ =~= id_of(fullname@));
    string_of(r.as_slice())
}

/// The name under which a host makes itself known is the one under which others find it.
pub proof fn law_host_id_of_fullname(hostname: Seq<char>)
    ensures
        id_of(fullname_of(hostname)) == hostname,
{
    let full = fullname_of(hostname);
    let instance = instance_of(hostname);
    let suffix = service_suffix();
    assert(full.skip(full.len() - suffix.len()) =~= suffix);
    assert(full.take(full.len() - suffix.len()) =~= instance);
    assert(instance.take(instance_prefix().len() as int) =~= instance_prefix());
    assert(instance.skip(instance_prefix().len() as int) =~= hostname);
}

impl ScannedHost {
    /// A host as it was found.
    pub fn from_resolved(
        fullname: &str,
        addrs: &Vec<HostAddr>,
        port: u16,
        repos: Option<&str>,
        roots: Option<&str>,
    ) -> (r: Self)
        ensures
            r.id@ == id_of(fullname@),
            r.fullname@ == fullname@,
            in_addr_order(r.addrs@),
            r.addrs@.to_multiset() == addrs@.to_multiset(),
            r.port == port,
            repo_views(r.repos@) == offered(text_or_empty(repos), text_or_empty(roots)),
    {
        ScannedHost {
            id: host_id(fullname),
            fullname: copy_str(fullname),
            addrs: sort_addrs(addrs),
            port,
            repos: ScannedRepo::from_properties(repos, roots),
        }
    }

    /// Whether the host offers the repository `repo_uuid`.
    pub open spec fn has_repo(&self, repo_uuid: Id) -> bool {
        exists|i: int|
            0 <= i < self.repos@.len() && (#[trigger] self.repos@[i]).repo_uuid@ == repo_uuid
    }

    /// Whether the host offers the repository `repo_uuid`.
    pub fn offers(&self, repo_uuid: RepositoryId) -> (r: bool)
        ensures
            r == self.has_repo(repo_uuid@),
    {
        let mut i: usize = 0;
        while i < self.repos.len()
            invariant
                i <= self.repos@.len(),
                forall|j: int|
                    0 <= j < i ==> (#[trigger] self.repos@[j]).repo_uuid@ != repo_uuid@,
            decreases self.repos@.len() - i,
        {
            if self.repos[i].repo_uuid.is(&repo_uuid) {
                return true;
            }
            i += 1;
        }
        false
    }

    /// Whether the host is one to show: in a short list only where it offers the repository that is
    /// here, if there is one.
    pub fn is_shown(&self, local: Option<RepositoryId>, short: bool) -> (r: bool)
        ensures
            r == (!short || match local {
                Some(id) => self.has_repo(id@),
                None => true,
            }),
            r == self.shows(
                match local {
                    Some(id) => Some(id@),
                    None => None,
                },
                short,
            ),
    {
        match local {
            Some(id) => !short || self.offers(id),
            None => true,
        }
    }

    /// Whether the host is one to show: in a short list only where it offers the repository that is
    /// here, if there is one.
    pub open spec fn shows(&self, local: Option<Id>, short: bool) -> bool {
        short ==> match local {
            Some(id) => self.has_repo(id),
            None => true,
        }
    }

    /// Whether `name` is the name of the host or its full name.
    pub open spec fn answers_to(&self, name: Seq<char>) -> bool {
        self.id@ == name || self.fullname@ == name
    }

    /// Whether the host goes by `name`, its own or its full name.
    pub fn goes_by(&self, name: &str) -> (r: bool)
        ensures
            r == (self.id@ == name@ || self.fullname@ == name@),
            r == self.answers_to(name@),
    {
        same_text(self.id.as_str(), name) || same_text(self.fullname.as_str(), name)
    }
}

/// Whether a host of this full name is among `hosts`.
pub open spec fn has_host(hosts: Seq<ScannedHost>, fullname: Seq<char>) -> bool {
    exists|i: int| 0 <= i < hosts.len() && (#[trigger] hosts[i]).fullname@ == fullname
}

/// Whether no two hosts share their full name.
pub open spec fn are_distinct(hosts: Seq<ScannedHost>) -> bool {
    forall|i: int, j: int|
        0 <= i < j < hosts.len() ==> (#[trigger] hosts[i]).fullname@ != (
        #[trigger] hosts[j]).fullname@
}

/// Adds a host that was found, unless one of its full name was found before; tells whether it did.
pub fn add_host(hosts: &mut Vec<ScannedHost>, host: ScannedHost) -> (added: bool)
    ensures
        added == !has_host(old(hosts)@, host.fullname@),
        added ==> final(hosts)@ == old(hosts)@.push(host),
        !added ==> final(hosts)@ == old(hosts)@,
        are_distinct(old(hosts)@) ==> are_distinct(final(hosts)@),
{
    let mut i: usize = 0;
    while i < hosts.len()
        invariant
            hosts@ == old(hosts)@,
            i <= hosts@.len(),
            forall|j: int| 0 <= j < i ==> (#[trigger] hosts@[j]).fullname@ != host.fullname@,
        decreases hosts@.len() - i,
    {
        if same_text(hosts[i].fullname.as_str(), host.fullname.as_str()) {
            return false;
        }
        i += 1;
    }
    hosts.push(host);
    true
}

/// The first of `repos` whose directory has the name `selector`.
pub open spec fn by_root(repos: Seq<ScannedRepoView>, selector: Seq<char>) -> Option<int> {
    first_where(repos, |r: ScannedRepoView| r.root == selector)
}

/// The first of `repos` whose id begins with `selector`, large letters taken for small ones.
pub open spec fn by_id(repos: Seq<ScannedRepoView>, selector: Seq<char>) -> Option<int> {
    first_where(
        repos,
        |r: ScannedRepoView| has_prefix(hex_text(r.repo_uuid), lowered(selector)),
    )
}

/// The place of the first of `repos` of which `holds` is true.
pub open spec fn first_where(
    repos: Seq<ScannedRepoView>,
    holds: spec_fn(ScannedRepoView) -> bool,
) -> Option<int>
    decreases repos.len(),
{
    if repos.len() == 0 {
        None
    } else {
        match first_where(repos.drop_last(), holds) {
            Some(i) => Some(i),
            None => if holds(repos.last()) {
                Some(repos.len() - 1)
            } else {
                None
            },
        }
    }
}

/// The repository that `selector` stands for: one whose directory has this name or, where there is
/// none, one whose id begins so.
pub open spec fn selected(repos: Seq<ScannedRepoView>, selector: Seq<char>) -> Option<int> {
    match by_root(repos, selector) {
        Some(i) => Some(i),
        None => by_id(repos, selector),
    }
}

proof fn lemma_first_where(
    repos: Seq<ScannedRepoView>,
    holds: spec_fn(ScannedRepoView) -> bool,
    i: int,
)
    requires
        0 <= i <= repos.len(),
        forall|j: int| 0 <= j < i ==> !holds(#[trigger] repos[j]),
        i < repos.len() ==> holds(repos[i]),
    ensures
        first_where(repos, holds) == (if i < repos.len() {
            Some(i)
        } else {
            None::<int>
        }),
    decreases repos.len(),
{
    if repos.len() > 0 {
        let front = repos.drop_last();
        if i >= repos.len() - 1 {
            assert forall|j: int| 0 <= j < front.len() implies !holds(#[trigger] front[j]) by {
                assert(front[j] == repos[j]);
            }
            lemma_first_where(front, holds, repos.len() - 1);
            assert(repos[repos.len() - 1] == repos.last());
            if i == repos.len() {
                assert(!holds(repos[repos.len() - 1]));
            }
        } else {
            assert forall|j: int| 0 <= j < i implies !holds(#[trigger] front[j]) by {
                assert(front[j] == repos[j]);
            }
            assert(front[i] == repos[i]);
            lemma_first_where(front, holds, i);
        }
    }
}

/// The place of the repository that `selector` stands for.
pub fn select_repo(repos: &Vec<ScannedRepo>, selector: &str) -> (r: Option<usize>)
    ensures
        match r {
            Some(i) => selected(repo_views(repos@), selector@) == Some(i as int) && i
                < repos@.len(),
            None => selected(repo_views(repos@), selector@) is None,
        },
{
    let ghost all = repo_views(repos@);
    let ghost named = |r: ScannedRepoView| r.root == selector@;
    let mut i: usize = 0;
    while i < repos.len()
        invariant
            all == repo_views(repos@),
            named == (|r: ScannedRepoView| r.root == selector@),
            i <= repos@.len(),
            forall|j: int| 0 <= j < i ==> !named(#[trigger] all[j]),
        decreases repos@.len() - i,
    {
        assert(all[i as int] == repos@[i as int]@);
        if same_text(repos[i].root.as_str(), selector) {
            proof {
                lemma_first_where(all, named, i as int);
            }
            return Some(i);
        }
        i += 1;
    }
    proof {
        lemma_first_where(all, named, i as int);
    }
    let small = to_lower(selector);
    let ghost begins = |r: ScannedRepoView|
        has_prefix(hex_text(r.repo_uuid), lowered(selector@));
    let mut i: usize = 0;
    while i < repos.len()
        invariant
            all == repo_views(repos@),
            by_root(all, selector@) is None,
            begins == (|r: ScannedRepoView|
                has_prefix(hex_text(r.repo_uuid), lowered(selector@))),
            small@ == lowered(selector@),
            i <= repos@.len(),
            forall|j: int| 0 <= j < i ==> !begins(#[trigger] all[j]),
        decreases repos@.len() - i,
    {
        assert(all[i as int] == repos@[i as int]@);
        if starts_with(repos[i].repo_uuid.to_hex().as_str(), small.as_str()) {
            proof {
                lemma_first_where(all, begins, i as int);
            }
            return Some(i);
        }
        i += 1;
    }
    proof {
        lemma_first_where(all, begins, i as int);
    }
    None
}

/// A repository whose id is given in full is found, unless a directory has that name.
pub proof fn law_full_id_selects(repos: Seq<ScannedRepoView>, i: int)
    requires
        0 <= i < repos.len(),
        by_root(repos, hex_text(repos[i].repo_uuid)) is None,
        forall|j: int|
            0 <= j < i ==> (#[trigger] repos[j]).repo_uuid.len() == repos[i].repo_uuid.len()
                && repos[j].repo_uuid != repos[i].repo_uuid,
    ensures
        selected(repos, hex_text(repos[i].repo_uuid)) == Some(i),
{
    let id = repos[i].repo_uuid;
    let text = hex_text(id);
    lemma_hex_text_is_plain(id);
    assert(lowered(text) =~= text);
    let begins = |r: ScannedRepoView| has_prefix(hex_text(r.repo_uuid), lowered(text));
    assert(text.take(text.len() as int) =~= text);
    assert forall|j: int| 0 <= j < i implies !begins(#[trigger] repos[j]) by {
        let other = repos[j].repo_uuid;
        lemma_hex_text_is_plain(other);
        if has_prefix(hex_text(other), text) {
            assert(hex_text(other).take(text.len() as int) =~= hex_text(other));
            law_hex_injective(other, id);
        }
    }
    lemma_first_where(repos, begins, i);
}

/// The name of the directory of a clone.
pub open spec fn clone_dir(repo: ScannedRepoView) -> Seq<char> {
    if repo.root.len() == 0 || repo.root == UNKNOWN_ROOT@ {
        "repo-"@ + hex_text(repo.repo_uuid.take(4))
    } else {
        repo.root
    }
}

/// The name of the directory of a clone.
pub fn dest_name(repo: &ScannedRepo) -> (r: String)
    ensures
        r@ == clone_dir(repo@),
{
    let empty = String::new();
    let unnamed = same_text(repo.root.as_str(), empty.as_str());
    proof {
        if repo.root@.len() == 0 {
            assert(repo.root@ =~= empty@);
        }
    }
    if unnamed || same_text(repo.root.as_str(), UNKNOWN_ROOT) {
        let mut r = copy_str("repo-");
        r.append(repo.repo_uuid.to_short_hex().as_str());
        r
    } else {
        repo.root.duplicate()
    }
}

proof fn lemma_first_is_first(
    repos: Seq<ScannedRepoView>,
    holds: spec_fn(ScannedRepoView) -> bool,
)
    ensures
        match first_where(repos, holds) {
            Some(i) => 0 <= i < repos.len() && holds(repos[i]) && forall|j: int|
                0 <= j < i ==> !holds(#[trigger] repos[j]),
            None => forall|j: int| 0 <= j < repos.len() ==> !holds(#[trigger] repos[j]),
        },
    decreases repos.len(),
{
    if repos.len() > 0 {
        let front = repos.drop_last();
        lemma_first_is_first(front, holds);
        assert(repos[repos.len() - 1] == repos.last());
        assert forall|j: int| 0 <= j < front.len() implies front[j] == #[trigger] repos[j] by {}
    }
}

/// A name stands for the first repository whose directory has it. Only where no directory has it does
/// it stand for the first repository whose id, in hexadecimal notation, is the name in small letters
/// with something after it; and only where there is none of these either does it stand for none.
pub proof fn law_selection_of_a_repository(repos: Seq<ScannedRepoView>, selector: Seq<char>)
    ensures
        ({
            let named = |r: ScannedRepoView| r.root == selector;
            let begins = |r: ScannedRepoView|
                exists|rest: Seq<char>|
                    hex_text(r.repo_uuid) == #[trigger] (lowered(selector) + rest);
            match selected(repos, selector) {
                Some(i) => {
                    &&& 0 <= i < repos.len()
                    &&& {
                        ||| named(repos[i]) && forall|j: int|
                            0 <= j < i ==> !named(#[trigger] repos[j])
                        ||| begins(repos[i]) && (forall|j: int|
                            0 <= j < repos.len() ==> !named(#[trigger] repos[j])) && forall|j: int|
                            0 <= j < i ==> !begins(#[trigger] repos[j])
                    }
                },
                None => forall|j: int|
                    0 <= j < repos.len() ==> !named(#[trigger] repos[j]) && !begins(repos[j]),
            }
        }),
{
    let named = |r: ScannedRepoView| r.root == selector;
    let prefixed = |r: ScannedRepoView| has_prefix(hex_text(r.repo_uuid), lowered(selector));
    lemma_first_is_first(repos, named);
    lemma_first_is_first(repos, prefixed);
    assert forall|j: int| 0 <= j < repos.len() implies prefixed(#[trigger] repos[j]) == (exists|
        rest: Seq<char>,
    |
        hex_text(repos[j].repo_uuid) == #[trigger] (lowered(selector) + rest)) by {
        law_parts_of_texts(hex_text(repos[j].repo_uuid), lowered(selector));
    }
}

proof fn lemma_trimmed_pieces_in_order(pieces: Seq<Seq<char>>)
    ensures
        trimmed_pieces(pieces) == pieces.map_values(|p: Seq<char>| trimmed(p)).filter(
            |p: Seq<char>| p.len() > 0,
        ),
    decreases pieces.len(),
{
    reveal(Seq::filter);
    let cut = |p: Seq<char>| trimmed(p);
    let some = |p: Seq<char>| p.len() > 0;
    if pieces.len() > 0 {
        lemma_trimmed_pieces_in_order(pieces.drop_last());
        assert(pieces.map_values(cut).drop_last() =~= pieces.drop_last().map_values(cut));
        assert(pieces.map_values(cut).filter(some) =~= trimmed_pieces(pieces));
    } else {
        assert(pieces.map_values(cut).filter(some) =~= trimmed_pieces(pieces));
    }
}

proof fn lemma_ids_in_order(fields: Seq<Seq<char>>)
    ensures
        ids_among(fields) == fields.filter(|f: Seq<char>| hex32(f) is Ok).map_values(
            |f: Seq<char>| hex32(f)->Ok_0,
        ),
    decreases fields.len(),
{
    reveal(Seq::filter);
    let good = |f: Seq<char>| hex32(f) is Ok;
    let read = |f: Seq<char>| hex32(f)->Ok_0;
    if fields.len() > 0 {
        lemma_ids_in_order(fields.drop_last());
        assert(fields.filter(good).map_values(read) =~= ids_among(fields));
    } else {
        assert(fields.filter(good).map_values(read) =~= ids_among(fields));
    }
}

/// What a host makes known is read field by field, without white space at the ends of the fields and
/// without fields that hold nothing else. Each field that stands for an id is a repository, and its
/// directory is the field that stands at the place of this repository among the directories, if there
/// are so many.
pub proof fn law_properties_are_read_by_fields(repos: Seq<char>, roots: Seq<char>)
    ensures
        ({
            let uuids = split_on(repos, ',').map_values(|p: Seq<char>| trimmed(p)).filter(
                |p: Seq<char>| p.len() > 0,
            ).filter(|f: Seq<char>| hex32(f) is Ok);
            let names = split_on(roots, ',').map_values(|p: Seq<char>| trimmed(p)).filter(
                |p: Seq<char>| p.len() > 0,
            );
            let all = offered(repos, roots);
            &&& all.len() == uuids.len()
            &&& forall|i: int|
                0 <= i < all.len() ==> {
                    &&& hex32(uuids[i]) == Ok::<Id, HexError>((#[trigger] all[i]).repo_uuid)
                    &&& i < names.len() ==> all[i].root == names[i]
                    &&& i >= names.len() ==> all[i].root == "<unknown>"@
                }
        }),
{
    broadcast use vstd::seq_lib::group_filter_ensures;

    lemma_trimmed_pieces_in_order(split_on(repos, ','));
    lemma_trimmed_pieces_in_order(split_on(roots, ','));
    let fields = fields_of(repos);
    lemma_ids_in_order(fields);
    let uuids = fields.filter(|f: Seq<char>| hex32(f) is Ok);
    let all = offered(repos, roots);
    assert forall|i: int| 0 <= i < all.len() implies hex32(uuids[i]) == Ok::<Id, HexError>(
        (#[trigger] all[i]).repo_uuid,
    ) by {
        assert(ids_among(fields)[i] == hex32(uuids[i])->Ok_0);
    }
}

/// Addresses are in order where those of the fourth version come before those of the sixth, and those
/// of one version ascend as numbers.
pub proof fn law_order_of_addresses(s: Seq<HostAddr>)
    ensures
        in_addr_order(s) <==> forall|i: int, j: int|
            0 <= i < j < s.len() ==> {
                &&& (#[trigger] s[i]).v6 ==> (#[trigger] s[j]).v6
                &&& s[i].v6 == s[j].v6 ==> s[i].bits <= s[j].bits
            },
{
}

/// The name of a host is what is left of the full name of its service without `scup-` before it and
/// `._scup._tcp.local.` after it, as far as these are there; and the service is named so.
pub proof fn law_names_of_hosts(h: Seq<char>)
    ensures
        id_of("scup-"@ + h + "._scup._tcp.local."@) == h,
        !has_prefix(h, "scup-"@) ==> id_of(h + "._scup._tcp.local."@) == h,
        !has_suffix("scup-"@ + h, "._scup._tcp.local."@) ==> id_of("scup-"@ + h) == h,
        !has_prefix(h, "scup-"@) && !has_suffix(h, "._scup._tcp.local."@) ==> id_of(h) == h,
        instance_of(h) == "scup-"@ + h,
        fullname_of(h) == "scup-"@ + h + "._scup._tcp.local."@,
{
    reveal_strlit("scup");
    reveal_strlit("scup-");
    reveal_strlit("_scup._tcp.local.");
    reveal_strlit("._scup._tcp.local.");
    let suffix = "._scup._tcp.local."@;
    let prefix = "scup-"@;
    assert(instance_prefix() =~= prefix);
    assert(service_suffix() =~= suffix);
    law_host_id_of_fullname(h);
    assert(fullname_of(h) =~= prefix + h + suffix);
    let ended = h + suffix;
    assert(ended.skip(ended.len() - suffix.len()) =~= suffix);
    assert(ended.take(ended.len() - suffix.len()) =~= h);
    let begun = prefix + h;
    assert(begun.take(prefix.len() as int) =~= prefix);
    assert(begun.skip(prefix.len() as int) =~= h);
}

/// A clone is put into a directory of the name that the repository has with its host; where that is
/// empty or not known, into one that is named after the first eight digits of its id.
pub proof fn law_directory_of_a_clone(repo: ScannedRepoView)
    requires
        repo.repo_uuid.len() == 32,
    ensures
        repo.root.len() > 0 && repo.root != "<unknown>"@ ==> clone_dir(repo) == repo.root,
        repo.root.len() == 0 || repo.root == "<unknown>"@ ==> clone_dir(repo) == "repo-"@
            + hex_text(repo.repo_uuid).take(8),
{
    let id = repo.repo_uuid;
    lemma_hex_text_take(id, 4);
}

proof fn lemma_hex_text_take(bytes: Seq<u8>, n: int)
    requires
        0 <= n <= bytes.len(),
    ensures
        hex_text(bytes.take(n)) == hex_text(bytes).take(2 * n),
    decreases bytes.len(),
{
    lemma_hex_text_is_plain(bytes);
    if n == bytes.len() {
        assert(bytes.take(n) =~= bytes);
        assert(hex_text(bytes).take(2 * n) =~= hex_text(bytes));
    } else {
        let front = bytes.drop_last();
        lemma_hex_text_is_plain(front);
        lemma_hex_text_take(front, n);
        assert(front.take(n) =~= bytes.take(n));
        assert(hex_text(bytes).take(2 * n) =~= hex_text(front).take(2 * n));
    }
}

/// What is said of repositories and ids is said of all that they hold, one by one; a host offers just
/// the repositories in its list.
pub proof fn law_repositories_are_told_in_full(
    repos: Seq<ScannedRepo>,
    uuids: Seq<RepositoryId>,
    host: ScannedHost,
    id: Id,
)
    ensures
        repo_views(repos).len() == repos.len(),
        forall|i: int|
            0 <= i < repos.len() ==> (#[trigger] repo_views(repos)[i]).repo_uuid
                == repos[i].repo_uuid.0@ && repo_views(repos)[i].root == repos[i].root@,
        uuid_views(uuids).len() == uuids.len(),
        forall|i: int| 0 <= i < uuids.len() ==> #[trigger] uuid_views(uuids)[i] == uuids[i].0@,
        host.has_repo(id) <==> exists|i: int|
            0 <= i < host.repos@.len() && (#[trigger] host.repos@[i]).repo_uuid.0@ == id,
        text_or_empty(None) == Seq::<char>::empty(),
        forall|text: &str| #[trigger] text_or_empty(Some(text)) == text@,
{
}

/// A long list shows each host. A short one shows just those that offer the repository that is here,
/// and each where there is none.
pub proof fn law_hosts_that_are_shown(host: ScannedHost, id: Id)
    ensures
        host.shows(Some(id), false),
        host.shows(None, false),
        host.shows(None, true),
        host.shows(Some(id), true) <==> exists|i: int|
            0 <= i < host.repos@.len() && (#[trigger] host.repos@[i]).repo_uuid.0@ == id,
{
}

/// A host that makes itself known is found under its name and under the full name of its service, and
/// under no other.
pub proof fn law_host_is_found_by_its_names(host: ScannedHost, hostname: Seq<char>, name: Seq<char>)
    requires
        host.fullname@ == "scup-"@ + hostname + "._scup._tcp.local."@,
        host.id@ == id_of(host.fullname@),
    ensures
        host.answers_to(name) <==> name == hostname || name == "scup-"@ + hostname
            + "._scup._tcp.local."@,
{
    law_names_of_hosts(hostname);
}

/// The repository that a host serves, and its directory if its name is known and can be made known, is
/// what others find with it; one that serves none is found with none.
pub proof fn law_served_repository_is_found(id: Id, root: Seq<char>)
    requires
        id.len() == 32,
        root.len() > 0,
        trimmed(root) == root,
        !root.contains(','),
    ensures
        ({
            let (uuids, roots) = made_known(Some(id), Some(root));
            let found = offered(joined(notations(uuids), ","@), joined(roots, ","@));
            found.len() == 1 && found[0].repo_uuid == id && found[0].root == root
        }),
        ({
            let (uuids, roots) = made_known(Some(id), None);
            let found = offered(joined(notations(uuids), ","@), joined(roots, ","@));
            found.len() == 1 && found[0].repo_uuid == id && found[0].root == "<unknown>"@
        }),
        ({
            let (uuids, roots) = made_known(None, Some(root));
            offered(joined(notations(uuids), ","@), joined(roots, ","@)).len() == 0
        }),
{
    let (uuids, roots) = made_known(Some(id), Some(root));
    law_properties_come_through(uuids, roots);
    reveal_strlit("<unknown>");
    let unknown = "<unknown>"@;
    assert(unknown[0] == '<' && unknown[unknown.len() - 1] == '>');
    assert(trimmed(unknown) == unknown);
    assert(!unknown.contains(','));
    let (uuids, roots) = made_known(Some(id), None);
    law_properties_come_through(uuids, roots);
    let (uuids, roots) = made_known(None, Some(root));
    law_properties_come_through(uuids, roots);
}

/// A host is among others exactly where one of these has its full name, and hosts are distinct where no
/// two have the same.
pub proof fn law_hosts_go_by_their_full_names(hosts: Seq<ScannedHost>, host: ScannedHost)
    ensures
        has_host(hosts, host.fullname@) <==> exists|i: int|
            0 <= i < hosts.len() && (#[trigger] hosts[i]).fullname@ == host.fullname@,
        are_distinct(hosts.push(host)) <==> are_distinct(hosts) && !has_host(
            hosts,
            host.fullname@,
        ),
{
    let more = hosts.push(host);
    assert forall|i: int| 0 <= i < hosts.len() implies more[i] == #[trigger] hosts[i] by {}
    if are_distinct(more) {
        assert forall|i: int, j: int| 0 <= i < j < hosts.len() implies (#[trigger] hosts[i]).fullname@
            != (#[trigger] hosts[j]).fullname@ by {
            assert(more[i].fullname@ != more[j].fullname@);
        }
        if has_host(hosts, host.fullname@) {
            let i = choose|i: int|
                0 <= i < hosts.len() && (#[trigger] hosts[i]).fullname@ == host.fullname@;
            assert(more[i].fullname@ != more[hosts.len() as int].fullname@);
        }
    }
}

} // verus!
