//! What the program tells its user.

use crate::hex::hex_text;
use crate::model::{Id, ObjectId, RepositoryId};
use crate::order::{
    lemma_lex_irreflexive, lemma_lex_total, lemma_lex_transitive, lex_less, Relation, SortKey,
};
use crate::protocol::{Response, ResponseView};
use crate::rollsum::AVERAGE_CHUNK_SIZE;
use crate::scan::{repo_views, ScannedHost, ScannedRepo, ScannedRepoView};
use crate::storage::{CRATE_NAME, MDNS_SERVICE_TYPE, REPO_DIR_NAME};
use crate::text::{copy_str, decimal, join, joined, to_decimal, views};
use vstd::prelude::*;
use vstd::relations::{
    antisymmetric, reflexive, sorted_by, strongly_connected, total_ordering, transitive,
};
use vstd::string::StringExecFns;

verus! {

/// Texts in the order of their bytes.
pub open spec fn text_leq() -> spec_fn(Seq<char>, Seq<char>) -> bool {
    |a: Seq<char>, b: Seq<char>| !lex_less(String::rank(b), String::rank(a))
}

/// Texts in the order of their bytes.
pub open spec fn in_order_of_bytes(s: Seq<Seq<char>>) -> Seq<Seq<char>> {
    s.sort_by(text_leq())
}

proof fn lemma_text_leq_is_total()
    ensures
        total_ordering(text_leq()),
{
    let leq = text_leq();
    assert forall|a: Seq<char>| #[trigger] leq(a, a) by {
        lemma_lex_irreflexive(String::rank(a));
    }
    assert forall|a: Seq<char>, b: Seq<char>| #[trigger] leq(a, b) && #[trigger] leq(b, a) implies a
        == b by {
        lemma_lex_total(String::rank(a), String::rank(b));
        String::rank_injective(a, b);
    }
    assert forall|a: Seq<char>, b: Seq<char>| #[trigger] leq(a, b) || #[trigger] leq(b, a) by {
        if lex_less(String::rank(a), String::rank(b)) && lex_less(
            String::rank(b),
            String::rank(a),
        ) {
            lemma_lex_transitive(String::rank(a), String::rank(b), String::rank(a));
            lemma_lex_irreflexive(String::rank(a));
        }
    }
    assert forall|a: Seq<char>, b: Seq<char>, c: Seq<char>| #[trigger]
        leq(a, b) && #[trigger] leq(b, c) implies leq(a, c) by {
        let (x, y, z) = (String::rank(a), String::rank(b), String::rank(c));
        if lex_less(z, x) {
            lemma_lex_total(x, y);
            lemma_lex_total(y, z);
            if x == y {
            } else if y == z {
            } else {
                lemma_lex_transitive(x, y, z);
                lemma_lex_transitive(x, z, x);
                lemma_lex_irreflexive(x);
            }
        }
    }
    assert(reflexive(leq));
    assert(antisymmetric(leq));
    assert(strongly_connected(leq));
    assert(transitive(leq));
}

/// Texts in the order of their bytes.
fn sort_texts(texts: &Vec<String>) -> (r: Vec<String>)
    ensures
        views(r@) == in_order_of_bytes(views(texts@)),
{
    let ghost all = views(texts@);
    let ghost leq = text_leq();
    let mut r: Vec<String> = Vec::new();
    let mut i: usize = 0;
    assert(views(r@) =~= all.take(0));
    while i < texts.len()
        invariant
            all == views(texts@),
            leq == text_leq(),
            i <= texts@.len(),
            sorted_by(views(r@), leq),
            views(r@).to_multiset() == all.take(i as int).to_multiset(),
        decreases texts@.len() - i,
    {
        let t = copy_str(texts[i].as_str());
        let mut k: usize = r.len();
        let mut down: bool = true;
        while k > 0 && down
            invariant
                leq == text_leq(),
                k <= r@.len(),
                sorted_by(views(r@), leq),
                forall|j: int| k <= j < r@.len() ==> leq(t@, #[trigger] views(r@)[j]),
                !down ==> k > 0 && leq(views(r@)[k - 1], t@),
            decreases k + (if down { 1int } else { 0 }),
        {
            proof {
                lemma_text_leq_is_total();
                assert(views(r@)[k - 1] == r@[k - 1]@);
                assert(leq(t@, views(r@)[k - 1]) || leq(views(r@)[k - 1], t@));
            }
            match r[k - 1].compare(&t) {
                Relation::After => {
                    k -= 1;
                },
                _ => {
                    down = false;
                },
            }
        }
        let ghost before = views(r@);
        r.insert(k, t);
        proof {
            let s = views(r@);
            assert(s =~= before.insert(k as int, t@));
            vstd::seq_lib::to_multiset_insert(before, k as int, t@);
            assert(all.take(i + 1) =~= all.take(i as int).push(t@));
            vstd::seq_lib::to_multiset_build(all.take(i as int), t@);
            lemma_text_leq_is_total();
            assert forall|x: int, y: int| 0 <= x < y < s.len() implies #[trigger] leq(s[x], s[y]) by {
                let bx = if x < k { x } else { x - 1 };
                let by = if y < k { y } else { y - 1 };
                if x != k {
                    assert(s[x] == before[bx]);
                }
                if y != k {
                    assert(s[y] == before[by]);
                }
                if x != k && y != k {
                    assert(leq(before[bx], before[by]));
                } else if y == k {
                    assert(leq(before[k - 1], t@));
                    if x < k - 1 {
                        assert(leq(before[x], before[k - 1]));
                    }
                }
            }
        }
        i += 1;
    }
    proof {
        assert(all.take(i as int) =~= all);
        lemma_text_leq_is_total();
        all.lemma_sort_by_ensures(leq);
        vstd::seq_lib::lemma_sorted_unique(views(r@), all.sort_by(leq), leq);
    }
    r
}

/// What is shown in place of an address where there is none.
pub const NO_ADDRESS: &'static str = "<no-address>";

/// The addresses of a host as they are listed.
pub open spec fn address_list(addrs: Seq<Seq<char>>) -> Seq<char> {
    if addrs.len() == 0 {
        NO_ADDRESS@
    } else {
        joined(in_order_of_bytes(addrs), ","@)
    }
}

/// The addresses of a host as they are listed.
fn list_addresses(addrs: &Vec<String>) -> (r: String)
    ensures
        r@ == address_list(views(addrs@)),
{
    if addrs.len() == 0 {
        assert(views(addrs@).len() == 0);
        copy_str(NO_ADDRESS)
    } else {
        assert(views(addrs@).len() == addrs@.len());
        join(sort_texts(addrs).as_slice(), ",")
    }
}

/// A repository as it is listed.
pub open spec fn repo_entry(repo: ScannedRepoView) -> Seq<char> {
    hex_text(repo.repo_uuid) + ":"@ + repo.root
}

/// The repositories of a host as they are listed.
pub open spec fn repo_list(repos: Seq<ScannedRepoView>) -> Seq<char> {
    if repos.len() == 0 {
        "<none>"@
    } else {
        joined(repos.map_values(|r: ScannedRepoView| repo_entry(r)), ","@)
    }
}

/// The repositories of a host as they are listed.
fn list_repos(repos: &Vec<ScannedRepo>) -> (r: String)
    ensures
        r@ == repo_list(repo_views(repos@)),
{
    if repos.len() == 0 {
        return copy_str("<none>");
    }
    let ghost goal = repo_views(repos@).map_values(|r: ScannedRepoView| repo_entry(r));
    let mut parts: Vec<String> = Vec::new();
    let mut i: usize = 0;
    assert(views(parts@) =~= goal.take(0));
    while i < repos.len()
        invariant
            goal == repo_views(repos@).map_values(|r: ScannedRepoView| repo_entry(r)),
            i <= repos@.len(),
            views(parts@) == goal.take(i as int),
        decreases repos@.len() - i,
    {
        let ghost before = views(parts@);
        let mut part = repos[i].repo_uuid.to_hex();
        part.append(":");
        part.append(repos[i].root.as_str());
        assert(part@ == goal[i as int]);
        parts.push(part);
        assert(views(parts@) =~= before.push(goal[i as int]));
        assert(goal.take(i + 1) =~= goal.take(i as int).push(goal[i as int]));
        i += 1;
    }
    assert(goal.take(i as int) =~= goal);
    join(parts.as_slice(), ",")
}

/// What a search for hosts begins with.
pub fn browsing_line(timeout_secs: u64) -> (r: String)
    ensures
        r@ == "Browsing for "@ + MDNS_SERVICE_TYPE@ + " for "@ + decimal(timeout_secs as nat)
            + "s..."@,
{
    let mut r = copy_str("Browsing for ");
    r.append(MDNS_SERVICE_TYPE);
    r.append(" for ");
    r.append(to_decimal(timeout_secs).as_str());
    r.append("s...");
    r
}

/// A host without what it offers: its name, its addresses and its port.
pub open spec fn place_of(fullname: Seq<char>, addrs: Seq<Seq<char>>, port: u16) -> Seq<char> {
    "- "@ + fullname + " at "@ + address_list(addrs) + ":"@ + decimal(port as nat)
}

/// A host without what it offers, as it is listed.
pub fn discovery_line(fullname: &str, addrs: &Vec<String>, port: u16) -> (r: String)
    ensures
        r@ == place_of(fullname@, views(addrs@), port),
{
    let mut r = copy_str("- ");
    r.append(fullname);
    r.append(" at ");
    r.append(list_addresses(addrs).as_str());
    r.append(":");
    r.append(to_decimal(port as u64).as_str());
    r
}

/// A host as it is listed.
pub open spec fn host_entry(host: ScannedHost, addrs: Seq<Seq<char>>) -> Seq<char> {
    place_of(host.fullname@, addrs, host.port) + " repos="@ + repo_list(repo_views(host.repos@))
}

/// How many hosts were found, in words.
pub open spec fn count_of_hosts(n: nat) -> Seq<char> {
    if n == 0 {
        "No "@ + CRATE_NAME@ + " servers found."@
    } else {
        "Found "@ + decimal(n) + " server(s)."@
    }
}

/// How many hosts were found, in words.
pub fn found_line(count: usize) -> (r: String)
    ensures
        r@ == count_of_hosts(count as nat),
{
    if count == 0 {
        let mut r = copy_str("No ");
        r.append(CRATE_NAME);
        r.append(" servers found.");
        r
    } else {
        let mut r = copy_str("Found ");
        r.append(to_decimal(count as u64).as_str());
        r.append(" server(s).");
        r
    }
}

/// The hosts that were found, each with its addresses as texts, as they are listed, and how many
/// they are.
pub open spec fn listed_hosts(hosts: Seq<(ScannedHost, Vec<String>)>) -> Seq<Seq<char>> {
    hosts.map_values(|h: (ScannedHost, Vec<String>)| host_entry(h.0, views(h.1@))).push(
        count_of_hosts(hosts.len()),
    )
}

/// The hosts that were found, each with its addresses as texts, as they are listed, and how many
/// they are.
pub fn scan(hosts: &Vec<(ScannedHost, Vec<String>)>) -> (r: Vec<String>)
    ensures
        views(r@) == listed_hosts(hosts@),
{
    let ghost goal = listed_hosts(hosts@);
    let mut r: Vec<String> = Vec::new();
    let mut i: usize = 0;
    assert(views(r@) =~= goal.take(0));
    while i < hosts.len()
        invariant
            goal == listed_hosts(hosts@),
            i <= hosts@.len(),
            views(r@) == goal.take(i as int),
        decreases hosts@.len() - i,
    {
        let ghost before = views(r@);
        let h = &hosts[i];
        let mut line = discovery_line(h.0.fullname.as_str(), &h.1, h.0.port);
        line.append(" repos=");
        line.append(list_repos(&h.0.repos).as_str());
        assert(line@ == goal[i as int]);
        r.push(line);
        assert(views(r@) =~= before.push(goal[i as int]));
        assert(goal.take(i + 1) =~= goal.take(i as int).push(goal[i as int]));
        i += 1;
    }
    let ghost before = views(r@);
    r.push(found_line(hosts.len()));
    assert(views(r@) =~= before.push(goal[i as int]));
    assert(views(r@) =~= goal);
    r
}

/// An address and a port as they are shown.
pub open spec fn endpoint_text(addr: Option<Seq<char>>, port: u16) -> Seq<char> {
    (match addr {
        Some(a) => a,
        None => NO_ADDRESS@,
    }) + ":"@ + decimal(port as nat)
}

/// An address and a port as they are shown.
pub fn endpoint(addr: Option<&str>, port: u16) -> (r: String)
    ensures
        r@ == (match addr {
            Some(a) => a@,
            None => NO_ADDRESS@,
        }) + ":"@ + decimal(port as nat),
        r@ == endpoint_text(
            match addr {
                Some(a) => Some(a@),
                None => None,
            },
            port,
        ),
{
    let mut r = match addr {
        Some(a) => copy_str(a),
        None => copy_str(NO_ADDRESS),
    };
    r.append(":");
    r.append(to_decimal(port as u64).as_str());
    r
}

/// What there is to say of the head of a peer, in a word.
pub open spec fn state_of(local: Id, remote: Id) -> Seq<char> {
    if local == remote {
        "up-to-date"@
    } else {
        "out-of-date"@
    }
}

/// What there is to say of the head of a peer, in a word.
pub fn head_state(local: &ObjectId, remote: &ObjectId) -> (r: String)
    ensures
        r@ == state_of(local@, remote@),
{
    if local.is(remote) {
        copy_str("up-to-date")
    } else {
        copy_str("out-of-date")
    }
}

/// How a part of a line is set off from the rest.
#[derive(Clone, Copy, Debug, PartialEq, Eq, Structural)]
pub enum Tone {
    Plain,
    Good,
    Bad,
}

/// A part of a line, and how it is set off from the rest.
#[derive(Debug, PartialEq, Eq)]
pub struct Span {
    pub tone: Tone,
    pub text: String,
}

impl View for Span {
    type V = (Tone, Seq<char>);

    open spec fn view(&self) -> (Tone, Seq<char>) {
        (self.tone, self.text@)
    }
}

/// The parts of a line.
pub open spec fn spans(s: Seq<Span>) -> Seq<(Tone, Seq<char>)> {
    s.map_values(|p: Span| p@)
}

/// The state of the head of a peer, set off by whether it is the head here.
pub open spec fn state_span(local: Id, remote: Id) -> (Tone, Seq<char>) {
    (
        if local == remote {
            Tone::Good
        } else {
            Tone::Bad
        },
        state_of(local, remote),
    )
}

fn span_of_state(local: &ObjectId, remote: &ObjectId) -> (r: Span)
    ensures
        r@ == state_span(local@, remote@),
{
    let tone = if local.is(remote) {
        Tone::Good
    } else {
        Tone::Bad
    };
    Span { tone, text: head_state(local, remote) }
}

fn plain(text: String) -> (r: Span)
    ensures
        r@ == (Tone::Plain, text@),
{
    Span { tone: Tone::Plain, text }
}

fn surrounded(before: &str, text: &str, after: &str) -> (r: String)
    ensures
        r@ == before@ + text@ + after@,
{
    let mut r = copy_str(before);
    r.append(text);
    r.append(after);
    r
}

fn head_text(head: &ObjectId) -> (r: String)
    ensures
        r@ == "head="@ + hex_text(head@),
{
    let mut r = copy_str("head=");
    r.append(head.to_hex().as_str());
    r
}

/// What is shown of a host: how its head stands to the one here, and its head, or why it could not be
/// had.
pub open spec fn host_parts(local: Option<Id>, outcome: Result<Id, Seq<char>>) -> Seq<
    (Tone, Seq<char>),
> {
    match (outcome, local) {
        (Ok(head), Some(l)) => seq![
            state_span(l, head),
            (Tone::Plain, " (head="@ + hex_text(head) + ")"@),
        ],
        (Ok(head), None) => seq![(Tone::Plain, "head="@ + hex_text(head))],
        (Err(e), _) => seq![(Tone::Bad, "unreachable ("@ + e + ")"@)],
    }
}

/// What is shown of a repository of a host: its head and, where it is the one here, how this stands to
/// the head here; or why it could not be had.
pub open spec fn repo_parts(
    local: Option<(Id, Id)>,
    repo_uuid: Id,
    outcome: Result<Id, Seq<char>>,
) -> Seq<(Tone, Seq<char>)> {
    match outcome {
        Ok(head) => {
            let shown = (Tone::Plain, "head="@ + hex_text(head));
            match local {
                Some((uuid, l)) => if uuid == repo_uuid {
                    seq![shown, (Tone::Plain, " "@), state_span(l, head)]
                } else {
                    seq![shown]
                },
                None => seq![shown],
            }
        },
        Err(e) => seq![(Tone::Bad, "(unreachable: "@ + e + ")"@)],
    }
}

/// What an outcome holds.
pub open spec fn head_outcome(outcome: Result<ObjectId, String>) -> Result<Id, Seq<char>> {
    match outcome {
        Ok(head) => Ok(head@),
        Err(e) => Err(e@),
    }
}

/// What is shown of a host where `local` is the head here, if there is one, and `outcome` the head
/// of the host, or why it could not be had.
pub fn host_state(local: Option<&ObjectId>, outcome: &Result<ObjectId, String>) -> (r: Vec<Span>)
    ensures
        spans(r@) == match (*outcome, local) {
            (Ok(head), Some(l)) => seq![
                state_span(l@, head@),
                (Tone::Plain, " (head="@ + hex_text(head@) + ")"@),
            ],
            (Ok(head), None) => seq![(Tone::Plain, "head="@ + hex_text(head@))],
            (Err(e), _) => seq![(Tone::Bad, "unreachable ("@ + e@ + ")"@)],
        },
        spans(r@) == host_parts(
            match local {
                Some(l) => Some(l@),
                None => None,
            },
            head_outcome(*outcome),
        ),
{
    let mut r: Vec<Span> = Vec::new();
    match outcome {
        Ok(head) => match local {
            Some(l) => {
                r.push(span_of_state(l, head));
                r.push(plain(surrounded(" (head=", head.to_hex().as_str(), ")")));
                assert(spans(r@) =~= seq![r@[0]@, r@[1]@]);
            },
            None => {
                r.push(plain(head_text(head)));
                assert(spans(r@) =~= seq![r@[0]@]);
            },
        },
        Err(e) => {
            r.push(Span { tone: Tone::Bad, text: surrounded("unreachable (", e.as_str(), ")") });
            assert(spans(r@) =~= seq![r@[0]@]);
        },
    }
    r
}

/// What is shown of the repository `repo_uuid` of a host where `local` is the repository here and
/// its head, if there is one, and `outcome` the head that the host has, or why it could not be had.
pub fn repo_state(
    local: Option<(&RepositoryId, &ObjectId)>,
    repo_uuid: &RepositoryId,
    outcome: &Result<ObjectId, String>,
) -> (r: Vec<Span>)
    ensures
        spans(r@) == match *outcome {
            Ok(head) => {
                let shown = (Tone::Plain, "head="@ + hex_text(head@));
                match local {
                    Some((uuid, l)) => if uuid@ == repo_uuid@ {
                        seq![shown, (Tone::Plain, " "@), state_span(l@, head@)]
                    } else {
                        seq![shown]
                    },
                    None => seq![shown],
                }
            },
            Err(e) => seq![(Tone::Bad, "(unreachable: "@ + e@ + ")"@)],
        },
        spans(r@) == repo_parts(
            match local {
                Some((uuid, l)) => Some((uuid@, l@)),
                None => None,
            },
            repo_uuid@,
            head_outcome(*outcome),
        ),
{
    let mut r: Vec<Span> = Vec::new();
    match outcome {
        Ok(head) => {
            r.push(plain(head_text(head)));
            if let Some((uuid, l)) = local {
                if uuid.is(repo_uuid) {
                    r.push(plain(copy_str(" ")));
                    r.push(span_of_state(l, head));
                    assert(spans(r@) =~= seq![r@[0]@, r@[1]@, r@[2]@]);
                    return r;
                }
            }
            assert(spans(r@) =~= seq![r@[0]@]);
        },
        Err(e) => {
            r.push(Span { tone: Tone::Bad, text: surrounded("(unreachable: ", e.as_str(), ")") });
            assert(spans(r@) =~= seq![r@[0]@]);
        },
    }
    r
}

/// What comes before a list of `count` hosts, and where more is to be had if the list is short.
pub open spec fn heading(count: nat, minimal: bool) -> Seq<Seq<char>> {
    let first = if count == 0 {
        "No remotes found!"@
    } else {
        "Remote status:"@
    };
    if minimal {
        seq![first, "  (use \"scup scan\" to get more info)"@]
    } else {
        seq![first]
    }
}

/// What comes before a list of `count` hosts, and where more is to be had if the list is short.
pub fn remote_heading(count: usize, minimal: bool) -> (r: Vec<String>)
    ensures
        views(r@) == heading(count as nat, minimal),
{
    let mut r: Vec<String> = Vec::new();
    if count == 0 {
        r.push(copy_str("No remotes found!"));
    } else {
        r.push(copy_str("Remote status:"));
    }
    if minimal {
        r.push(copy_str("  (use \"scup scan\" to get more info)"));
    }
    assert(views(r@) =~= heading(count as nat, minimal));
    r
}

/// Where a chunk of a file ends that begins at `begin` and is `len` bytes long, if a machine counts
/// that far.
pub fn chunk_end(begin: u64, len: usize) -> (r: Option<u64>)
    ensures
        r is Some <==> begin + len <= u64::MAX,
        r matches Some(end) ==> end == begin + len,
{
    begin.checked_add(len as u64)
}

/// The borders of a chunk of a file and its length.
pub fn chunk_line(begin: u64, end: u64) -> (r: String)
    requires
        begin <= end,
    ensures
        r@ == "chunk ["@ + decimal(begin as nat) + ", "@ + decimal(end as nat) + "), len="@
            + decimal((end - begin) as nat),
{
    let mut r = copy_str("chunk [");
    r.append(to_decimal(begin).as_str());
    r.append(", ");
    r.append(to_decimal(end).as_str());
    r.append("), len=");
    r.append(to_decimal(end - begin).as_str());
    r
}

/// What an outcome of a question holds.
pub open spec fn answer_outcome(outcome: Result<Response, String>) -> Result<
    ResponseView,
    Seq<char>,
> {
    match outcome {
        Ok(response) => Ok(response@),
        Err(e) => Err(e@),
    }
}

/// What the answer to a question for the status of a host comes to, in words.
pub open spec fn status_text(fullname: Seq<char>, response: ResponseView) -> Seq<char> {
    match response {
        ResponseView::Status { head, object_count } => "- "@ + fullname + " status: head="@
            + hex_text(head) + " objects="@ + decimal(object_count),
        ResponseView::Error(e) => "- "@ + fullname + " error: "@ + e,
        _ => "- "@ + fullname + " returned an unexpected response"@,
    }
}

/// What a fetch from a host came to, with what went wrong if something did.
pub open spec fn fetch_text(fullname: Seq<char>, error: Option<Seq<char>>) -> Seq<char> {
    match error {
        None => "- fetched from "@ + fullname,
        Some(e) => "- fetch from "@ + fullname + " failed: "@ + e,
    }
}

/// What a push to a host came to, in words.
pub open spec fn push_text(
    fullname: Seq<char>,
    outcome: Result<ResponseView, Seq<char>>,
) -> Seq<char> {
    match outcome {
        Ok(ResponseView::PushComplete) => "- pushed to "@ + fullname,
        Ok(ResponseView::Error(e)) => "- push to "@ + fullname + " failed: "@ + e,
        Ok(_) => "- "@ + fullname + " returned unexpected response to push"@,
        Err(e) => "- push to "@ + fullname + " failed: "@ + e,
    }
}

/// What there is to say of a host that offers the repository whose head is `head`, in words.
pub open spec fn peer_text(
    fullname: Seq<char>,
    head: Id,
    outcome: Result<ResponseView, Seq<char>>,
) -> Seq<char> {
    "remote "@ + fullname + ": "@ + match outcome {
        Ok(ResponseView::Status { head: remote, .. }) => state_of(head, remote) + " (head="@
            + hex_text(remote) + ")"@,
        Ok(ResponseView::Error(e)) => "error "@ + e,
        Ok(_) => "unexpected response"@,
        Err(e) => "unreachable ("@ + e + ")"@,
    }
}

/// The head of a peer, if it has told it, or what went wrong.
pub open spec fn told_head(outcome: Result<ResponseView, Seq<char>>) -> Result<Id, Seq<char>> {
    match outcome {
        Ok(ResponseView::Status { head, .. }) => Ok(head),
        Ok(ResponseView::PullSnapshotIds { head, .. }) => Ok(head),
        Ok(ResponseView::Error(e)) => Err(e),
        Ok(_) => Err("unexpected response"@),
        Err(e) => Err(e),
    }
}

/// What the answer to a question for the status of a host comes to.
pub fn debug_status_line(fullname: &str, response: &Response) -> (r: String)
    ensures
        r@ == match response@ {
            ResponseView::Status { head, object_count } => "- "@ + fullname@ + " status: head="@
                + hex_text(head) + " objects="@ + decimal(object_count),
            ResponseView::Error(e) => "- "@ + fullname@ + " error: "@ + e,
            _ => "- "@ + fullname@ + " returned an unexpected response"@,
        },
        r@ == status_text(fullname@, response@),
{
    let mut r = copy_str("- ");
    r.append(fullname);
    match response {
        Response::Status { head, object_count } => {
            r.append(" status: head=");
            r.append(head.to_hex().as_str());
            r.append(" objects=");
            r.append(to_decimal(*object_count as u64).as_str());
        },
        Response::Error(e) => {
            r.append(" error: ");
            r.append(e.as_str());
        },
        _ => {
            r.append(" returned an unexpected response");
        },
    }
    r
}

/// What a push to a host came to.
pub fn push_line(fullname: &str, outcome: &Result<Response, String>) -> (r: String)
    ensures
        r@ == match *outcome {
            Ok(response) => match response@ {
                ResponseView::PushComplete => "- pushed to "@ + fullname@,
                ResponseView::Error(e) => "- push to "@ + fullname@ + " failed: "@ + e,
                _ => "- "@ + fullname@ + " returned unexpected response to push"@,
            },
            Err(e) => "- push to "@ + fullname@ + " failed: "@ + e@,
        },
        r@ == push_text(fullname@, answer_outcome(*outcome)),
{
    match outcome {
        Ok(Response::PushComplete) => {
            let mut r = copy_str("- pushed to ");
            r.append(fullname);
            r
        },
        Ok(Response::Error(e)) => failed("- push to ", fullname, e.as_str()),
        Ok(_) => {
            let mut r = copy_str("- ");
            r.append(fullname);
            r.append(" returned unexpected response to push");
            r
        },
        Err(e) => failed("- push to ", fullname, e.as_str()),
    }
}

/// That something with a host has failed.
fn failed(what: &str, fullname: &str, error: &str) -> (r: String)
    ensures
        r@ == what@ + fullname@ + " failed: "@ + error@,
{
    let mut r = copy_str(what);
    r.append(fullname);
    r.append(" failed: ");
    r.append(error);
    r
}

/// What a fetch from a host came to.
pub fn fetch_line(fullname: &str, outcome: &Result<(), String>) -> (r: String)
    ensures
        r@ == match *outcome {
            Ok(_) => "- fetched from "@ + fullname@,
            Err(e) => "- fetch from "@ + fullname@ + " failed: "@ + e@,
        },
        r@ == fetch_text(
            fullname@,
            match *outcome {
                Ok(_) => None,
                Err(e) => Some(e@),
            },
        ),
{
    match outcome {
        Ok(_) => {
            let mut r = copy_str("- fetched from ");
            r.append(fullname);
            r
        },
        Err(e) => failed("- fetch from ", fullname, e.as_str()),
    }
}

/// What there is to say of a host that offers the repository whose head is `head`.
pub fn remote_line(fullname: &str, head: &ObjectId, outcome: &Result<Response, String>) -> (r:
    String)
    ensures
        r@ == "remote "@ + fullname@ + ": "@ + match *outcome {
            Ok(response) => match response@ {
                ResponseView::Status { head: remote, .. } => state_of(head@, remote) + " (head="@
                    + hex_text(remote) + ")"@,
                ResponseView::Error(e) => "error "@ + e,
                _ => "unexpected response"@,
            },
            Err(e) => "unreachable ("@ + e@ + ")"@,
        },
        r@ == peer_text(fullname@, head@, answer_outcome(*outcome)),
{
    let mut tail = String::new();
    match outcome {
        Ok(Response::Status { head: remote, .. }) => {
            tail = head_state(head, remote);
            tail.append(" (head=");
            tail.append(remote.to_hex().as_str());
            tail.append(")");
        },
        Ok(Response::Error(e)) => {
            tail = copy_str("error ");
            tail.append(e.as_str());
        },
        Ok(_) => {
            tail = copy_str("unexpected response");
        },
        Err(e) => {
            tail = copy_str("unreachable (");
            tail.append(e.as_str());
            tail.append(")");
        },
    }
    let mut r = copy_str("remote ");
    r.append(fullname);
    r.append(": ");
    r.append(tail.as_str());
    r
}

/// The head of a peer, if it has told it, or what went wrong.
pub fn remote_head(outcome: Result<Response, String>) -> (r: Result<ObjectId, String>)
    ensures
        match outcome {
            Ok(response) => match response@ {
                ResponseView::Status { head, .. } => r matches Ok(id) && id@ == head,
                ResponseView::PullSnapshotIds { head, .. } => r matches Ok(id) && id@ == head,
                ResponseView::Error(e) => r matches Err(text) && text@ == e,
                _ => r matches Err(text) && text@ == "unexpected response"@,
            },
            Err(e) => r matches Err(text) && text@ == e@,
        },
        head_outcome(r) == told_head(answer_outcome(outcome)),
{
    match outcome {
        Ok(Response::Status { head, .. }) => Ok(head),
        Ok(Response::PullSnapshotIds { head, .. }) => Ok(head),
        Ok(Response::Error(e)) => Err(e),
        Ok(_) => Err(copy_str("unexpected response")),
        Err(e) => Err(e),
    }
}

/// That a directory holds no repository.
pub fn not_a_repository() -> (r: String)
    ensures
        r@ == "error: not a "@ + CRATE_NAME@ + " repository ("@ + REPO_DIR_NAME@
            + " directory not found)"@,
{
    let mut r = copy_str("error: not a ");
    r.append(CRATE_NAME);
    r.append(" repository (");
    r.append(REPO_DIR_NAME);
    r.append(" directory not found)");
    r
}

/// That a host offers no repository of this name.
pub fn repo_not_found(fullname: &str, selector: &str) -> (r: String)
    ensures
        r@ == "repo not found on host "@ + fullname@ + " for selector `"@ + selector@ + "`"@,
{
    let mut r = copy_str("repo not found on host ");
    r.append(fullname);
    r.append(" for selector `");
    r.append(selector);
    r.append("`");
    r
}

/// What is logged: of all crates or of this one alone, the more the more often it was asked for.
pub open spec fn log_filter(verbosity: u8) -> Seq<char> {
    if verbosity >= 2 {
        "debug"@
    } else if verbosity == 1 {
        "info,"@ + CRATE_NAME@ + "=debug"@
    } else {
        "info"@
    }
}

/// What is logged.
pub fn default_log_filter(verbosity: u8) -> (r: String)
    ensures
        r@ == log_filter(verbosity),
{
    if verbosity >= 2 {
        copy_str("debug")
    } else if verbosity >= 1 {
        let mut r = copy_str("info,");
        r.append(CRATE_NAME);
        r.append("=debug");
        r
    } else {
        copy_str("info")
    }
}

/// About how many chunks a file of `size` bytes has.
pub fn expected_chunks(size: usize) -> (r: usize)
    ensures
        r == size as int / AVERAGE_CHUNK_SIZE as int,
{
    size / AVERAGE_CHUNK_SIZE
}

/// The addresses of a host are listed in the order of the bytes of their texts, each as often as it
/// occurs, with commas between them.
pub proof fn law_addresses_are_listed_in_order(addrs: Seq<Seq<char>>)
    ensures
        addrs.len() == 0 ==> address_list(addrs) == "<no-address>"@,
        addrs.len() > 0 ==> exists|sorted: Seq<Seq<char>>|
            {
                &&& address_list(addrs) == #[trigger] joined(sorted, ","@)
                &&& sorted.to_multiset() == addrs.to_multiset()
                &&& forall|i: int, j: int|
                    0 <= i < j < sorted.len() ==> !lex_less(
                        vstd::utf8::encode_utf8(#[trigger] sorted[j]),
                        vstd::utf8::encode_utf8(#[trigger] sorted[i]),
                    )
            },
{
    let leq = text_leq();
    let sorted = in_order_of_bytes(addrs);
    lemma_text_leq_is_total();
    addrs.lemma_sort_by_ensures(leq);
    assert forall|i: int, j: int| 0 <= i < j < sorted.len() implies !lex_less(
        vstd::utf8::encode_utf8(#[trigger] sorted[j]),
        vstd::utf8::encode_utf8(#[trigger] sorted[i]),
    ) by {
        assert(leq(sorted[i], sorted[j]));
    }
    if addrs.len() > 0 {
        assert(address_list(addrs) == joined(sorted, ","@));
    }
}

/// The repositories of a host are listed one after the other: the id, a colon and the directory, with
/// commas between them.
pub proof fn law_repositories_are_listed(
    front: Seq<ScannedRepoView>,
    last: ScannedRepoView,
)
    ensures
        repo_list(Seq::<ScannedRepoView>::empty()) == "<none>"@,
        repo_list(seq![last]) == hex_text(last.repo_uuid) + ":"@ + last.root,
        front.len() > 0 ==> repo_list(front.push(last)) == repo_list(front) + ","@ + repo_list(
            seq![last],
        ),
{
    let entry = |r: ScannedRepoView| repo_entry(r);
    let one = seq![last].map_values(entry);
    assert(one =~= seq![repo_entry(last)]);
    if front.len() > 0 {
        let all = front.push(last).map_values(entry);
        assert(all.drop_last() =~= front.map_values(entry));
        assert(all.last() == repo_entry(last));
    }
}

/// A list of hosts has a line for each host, in their order, and one with their number.
pub proof fn law_each_host_is_listed(hosts: Seq<(ScannedHost, Vec<String>)>, i: int)
    requires
        0 <= i < hosts.len(),
    ensures
        listed_hosts(hosts).len() == hosts.len() + 1,
        listed_hosts(hosts)[i] == "- "@ + hosts[i].0.fullname@ + " at "@ + address_list(
            views(hosts[i].1@),
        ) + ":"@ + decimal(hosts[i].0.port as nat) + " repos="@ + repo_list(
            repo_views(hosts[i].0.repos@),
        ),
        listed_hosts(hosts).last() == "Found "@ + decimal(hosts.len()) + " server(s)."@,
        listed_hosts(Seq::empty()) == seq!["No scup servers found."@],
{
    reveal_strlit("No ");
    reveal_strlit("scup");
    reveal_strlit(" servers found.");
    reveal_strlit("No scup servers found.");
    assert("No "@ + "scup"@ + " servers found."@ =~= "No scup servers found."@);
    let none = Seq::<(ScannedHost, Vec<String>)>::empty();
    assert(listed_hosts(none) =~= seq![count_of_hosts(0)]);
}

/// A peer is up to date exactly where its head is the one here, and is shown as good exactly then.
pub proof fn law_state_of_a_peer(local: Id, remote: Id)
    ensures
        state_of(local, remote) == "up-to-date"@ <==> local == remote,
        state_of(local, remote) == "out-of-date"@ <==> local != remote,
        state_span(local, remote).0 == Tone::Good <==> local == remote,
        state_span(local, remote).0 == Tone::Bad <==> local != remote,
        state_span(local, remote).1 == state_of(local, remote),
{
    reveal_strlit("up-to-date");
    reveal_strlit("out-of-date");
    assert("up-to-date"@.len() != "out-of-date"@.len());
}

/// What comes before a list of hosts says whether there are any; just a short list says where more is
/// to be had.
pub proof fn law_heading_of_a_list(count: nat, minimal: bool)
    ensures
        heading(count, minimal).len() == (if minimal {
            2int
        } else {
            1
        }),
        heading(0, minimal)[0] == "No remotes found!"@,
        count > 0 ==> heading(count, minimal)[0] == "Remote status:"@,
        heading(count, true)[1] == "  (use \"scup scan\" to get more info)"@,
{
}

/// The more often it is asked for, the more is logged: first of this crate, then of all.
pub proof fn law_what_is_logged(verbosity: u8)
    ensures
        log_filter(0) == "info"@,
        log_filter(1) == "info,scup=debug"@,
        verbosity > 1 ==> log_filter(verbosity) == "debug"@,
{
    reveal_strlit("info,");
    reveal_strlit("scup");
    reveal_strlit("=debug");
    reveal_strlit("info,scup=debug");
    assert("info,"@ + "scup"@ + "=debug"@ =~= "info,scup=debug"@);
}

/// What is said of a line is said of all its parts, one after the other.
pub proof fn law_lines_are_told_in_full(line: Seq<Span>, i: int)
    requires
        0 <= i < line.len(),
    ensures
        spans(line).len() == line.len(),
        spans(line)[i].0 == line[i].tone,
        spans(line)[i].1 == line[i].text@,
{
}

/// What is shown of a host and of a repository of it: just where the head could be had it is shown, and
/// it is set against the head here just where there is one and, for a repository, where this is the
/// one here; else it is said, as something bad, why it could not be had.
pub proof fn law_what_is_shown_of_a_peer(
    head: Id,
    local: Id,
    uuid: Id,
    other: Id,
    error: Seq<char>,
)
    ensures
        host_parts(Some(local), Ok(head)) == seq![
            state_span(local, head),
            (Tone::Plain, " (head="@ + hex_text(head) + ")"@),
        ],
        host_parts(None, Ok(head)) == seq![(Tone::Plain, "head="@ + hex_text(head))],
        host_parts(Some(local), Err(error)) == seq![
            (Tone::Bad, "unreachable ("@ + error + ")"@),
        ],
        host_parts(None, Err(error)) == host_parts(Some(local), Err(error)),
        repo_parts(None, uuid, Ok(head)) == host_parts(None, Ok(head)),
        uuid != other ==> repo_parts(Some((other, local)), uuid, Ok(head)) == repo_parts(
            None,
            uuid,
            Ok(head),
        ),
        repo_parts(Some((uuid, local)), uuid, Ok(head)) == seq![
            (Tone::Plain, "head="@ + hex_text(head)),
            (Tone::Plain, " "@),
            state_span(local, head),
        ],
        repo_parts(None, uuid, Err(error)) == seq![
            (Tone::Bad, "(unreachable: "@ + error + ")"@),
        ],
        repo_parts(Some((other, local)), uuid, Err(error)) == repo_parts(None, uuid, Err(error)),
{
}

/// A push is said to have been done just where the host says that it is complete; an error is handed
/// on, whether the host or the way to it has it.
pub proof fn law_what_is_said_of_a_push(
    fullname: Seq<char>,
    error: Seq<char>,
    response: ResponseView,
)
    ensures
        push_text(fullname, Ok(ResponseView::PushComplete)) == "- pushed to "@ + fullname,
        push_text(fullname, Err(error)) == "- push to "@ + fullname + " failed: "@ + error,
        push_text(fullname, Ok(ResponseView::Error(error))) == push_text(fullname, Err(error)),
        !(response is PushComplete) && !(response is Error) ==> push_text(fullname, Ok(response))
            == "- "@ + fullname + " returned unexpected response to push"@,
{
}

/// The head of a peer is the one that it tells, with its status or with its snapshots; an error is
/// handed on, and any other answer is one.
pub proof fn law_head_is_what_the_peer_tells(
    head: Id,
    count: nat,
    snapshot_ids: Seq<Id>,
    error: Seq<char>,
    response: ResponseView,
)
    ensures
        told_head(Ok(ResponseView::Status { head, object_count: count })) == Ok::<Id, Seq<char>>(
            head,
        ),
        told_head(Ok(ResponseView::PullSnapshotIds { head, snapshot_ids })) == Ok::<Id, Seq<char>>(
            head,
        ),
        told_head(Err(error)) == Err::<Id, Seq<char>>(error),
        told_head(Ok(ResponseView::Error(error))) == Err::<Id, Seq<char>>(error),
        !(response is Status) && !(response is PullSnapshotIds) && !(response is Error)
            ==> told_head(Ok(response)) == Err::<Id, Seq<char>>("unexpected response"@),
{
}

/// What is said of a peer tells how its head stands to the one here where it tells its head, and what
/// went wrong where it does not.
pub proof fn law_what_is_said_of_a_peer(
    fullname: Seq<char>,
    local: Id,
    head: Id,
    count: nat,
    error: Seq<char>,
    response: ResponseView,
)
    ensures
        peer_text(fullname, local, Ok(ResponseView::Status { head, object_count: count }))
            == "remote "@ + fullname + ": "@ + (state_of(local, head) + " (head="@ + hex_text(head)
            + ")"@),
        peer_text(fullname, local, Err(error)) == "remote "@ + fullname + ": "@ + ("unreachable ("@
            + error + ")"@),
        peer_text(fullname, local, Ok(ResponseView::Error(error))) == "remote "@ + fullname + ": "@
            + ("error "@ + error),
        !(response is Status) && !(response is Error) ==> peer_text(fullname, local, Ok(response))
            == "remote "@ + fullname + ": "@ + "unexpected response"@,
{
}

/// The status of a host is said in full where it tells it, its error where it gives one, and else that
/// the answer is another; a fetch is said to have been done just where nothing went wrong; and an
/// address is shown with its port, or that there is none.
pub proof fn law_what_is_said_of_a_host(
    fullname: Seq<char>,
    head: Id,
    count: nat,
    error: Seq<char>,
    response: ResponseView,
    addr: Seq<char>,
    port: u16,
)
    ensures
        status_text(fullname, ResponseView::Status { head, object_count: count }) == "- "@
            + fullname + " status: head="@ + hex_text(head) + " objects="@ + decimal(count),
        status_text(fullname, ResponseView::Error(error)) == "- "@ + fullname + " error: "@ + error,
        !(response is Status) && !(response is Error) ==> status_text(fullname, response) == "- "@
            + fullname + " returned an unexpected response"@,
        fetch_text(fullname, None) == "- fetched from "@ + fullname,
        fetch_text(fullname, Some(error)) == "- fetch from "@ + fullname + " failed: "@ + error,
        endpoint_text(Some(addr), port) == addr + ":"@ + decimal(port as nat),
        endpoint_text(None, port) == "<no-address>"@ + ":"@ + decimal(port as nat),
{
}

} // verus!
