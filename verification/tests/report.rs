use scup::model::{ObjectId, RepositoryId};
use scup::protocol::Response;
use scup::report::{
    browsing_line, chunk_end, chunk_line, debug_status_line, default_log_filter, discovery_line, endpoint,
    expected_chunks, fetch_line, found_line, head_state, host_state, not_a_repository, push_line,
    remote_head, remote_heading, remote_line, repo_not_found, repo_state, scan, Span, Tone,
};
use scup::scan::{ScannedHost, ScannedRepo};
use scup::storage::{
    chunk_file_path, join_path, FilesystemChunkStorage, RepositorySession, SledChunkStorage,
};

fn strings(s: &[&str]) -> Vec<String> {
    s.iter().map(|t| t.to_string()).collect()
}

fn err<T>(e: &str) -> Result<T, String> {
    Err(e.to_string())
}

#[test]
fn hosts_are_listed() {
    let host = |repos| ScannedHost {
        id: "box".to_string(),
        fullname: "scup-box._scup._tcp.local.".to_string(),
        addrs: vec![],
        port: 6767,
        repos,
    };
    let repos = vec![
        ScannedRepo { repo_uuid: RepositoryId([1; 32]), root: "x".to_string() },
        ScannedRepo { repo_uuid: RepositoryId([2; 32]), root: "y".to_string() },
    ];
    let lines = scan(&vec![
        (host(repos), strings(&["192.168.0.9", "10.0.0.1", "::1", "10.0.0.1"])),
        (host(vec![]), vec![]),
    ]);
    assert_eq!(
        lines,
        vec![
            format!(
                "- scup-box._scup._tcp.local. at 10.0.0.1,10.0.0.1,192.168.0.9,::1:6767 \
                 repos={}:x,{}:y",
                "01".repeat(32),
                "02".repeat(32)
            ),
            "- scup-box._scup._tcp.local. at <no-address>:6767 repos=<none>".to_string(),
            "Found 2 server(s).".to_string(),
        ]
    );
    assert_eq!(scan(&vec![]), vec!["No scup servers found."]);
    assert_eq!(discovery_line("n", &strings(&["b", "a"]), 1), "- n at a,b:1");
    assert_eq!(found_line(0), "No scup servers found.");
    assert_eq!(browsing_line(3), "Browsing for _scup._tcp.local. for 3s...");
}

#[test]
fn status_of_a_host() {
    let head = ObjectId([1; 32]);
    assert_eq!(
        debug_status_line("n", &Response::Status { head, object_count: 12 }),
        format!("- n status: head={} objects=12", "01".repeat(32))
    );
    assert_eq!(debug_status_line("n", &Response::Error("e".to_string())), "- n error: e");
    assert_eq!(
        debug_status_line("n", &Response::PushComplete),
        "- n returned an unexpected response"
    );
}

#[test]
fn outcomes_of_push_and_fetch() {
    assert_eq!(push_line("n", &Ok(Response::PushComplete)), "- pushed to n");
    assert_eq!(push_line("n", &Ok(Response::Error("e".to_string()))), "- push to n failed: e");
    assert_eq!(push_line("n", &err("f")), "- push to n failed: f");
    assert_eq!(
        push_line("n", &Ok(Response::Version { version: 1 })),
        "- n returned unexpected response to push"
    );
    assert_eq!(fetch_line("n", &Ok(())), "- fetched from n");
    assert_eq!(fetch_line("n", &err("f")), "- fetch from n failed: f");
}

#[test]
fn heads_of_peers() {
    let (a, b) = (ObjectId([1; 32]), ObjectId([2; 32]));
    assert_eq!(head_state(&a, &a), "up-to-date");
    assert_eq!(head_state(&a, &b), "out-of-date");
    let status = || Ok(Response::Status { head: b, object_count: 1 });
    assert_eq!(
        remote_line("n", &a, &status()),
        format!("remote n: out-of-date (head={})", "02".repeat(32))
    );
    assert_eq!(remote_line("n", &a, &Ok(Response::Error("e".to_string()))), "remote n: error e");
    assert_eq!(remote_line("n", &a, &Ok(Response::PushComplete)), "remote n: unexpected response");
    assert_eq!(remote_line("n", &a, &err("x")), "remote n: unreachable (x)");
    assert_eq!(remote_head(status()), Ok(b));
    assert_eq!(
        remote_head(Ok(Response::PullSnapshotIds { head: a, snapshot_ids: vec![] })),
        Ok(a)
    );
    assert_eq!(remote_head(Ok(Response::Error("e".to_string()))), err("e"));
    assert_eq!(remote_head(Ok(Response::PushComplete)), err("unexpected response"));
    assert_eq!(remote_head(err("x")), err("x"));
}

#[test]
fn other_texts() {
    assert_eq!(endpoint(Some("10.0.0.1"), 80), "10.0.0.1:80");
    assert_eq!(endpoint(None, 80), "<no-address>:80");
    assert_eq!(
        not_a_repository(),
        "error: not a scup repository (.scup directory not found)"
    );
    assert_eq!(repo_not_found("n", "s"), "repo not found on host n for selector `s`");
    assert_eq!(default_log_filter(0), "info");
    assert_eq!(default_log_filter(1), "info,scup=debug");
    assert_eq!(default_log_filter(2), "debug");
    assert_eq!(default_log_filter(255), "debug");
    assert_eq!(expected_chunks(8191), 0);
    assert_eq!(expected_chunks(20000), 2);
}

#[test]
fn files_of_a_repository() {
    let id = ObjectId([0xab; 32]);
    let hex = "ab".repeat(32);
    assert_eq!(join_path("", "x"), "x");
    assert_eq!(join_path("a/", "x"), "a/x");
    assert_eq!(join_path(".", "x"), "./x");
    assert_eq!(chunk_file_path(&id), format!(".scup/chunks/{hex}"));
    let files = FilesystemChunkStorage::new(".");
    assert_eq!(files.chunks_path(), "./.scup/chunks");
    assert_eq!(files.chunk_path(id), format!("./.scup/chunks/{hex}"));
    assert_eq!(SledChunkStorage::new("w").db_path(), "w/.scup/chunks/sled");
    let repo = scup::model::Repository::init_at(
        RepositoryId([1; 32]),
        &vec![],
        scup::model::Timestamp { before_epoch: false, secs: 1, nanos: 0 },
    );
    let session = RepositorySession::new("w", repo.clone());
    assert_eq!(session.repository, repo);
    assert_eq!(session.repository_path(), "w/.scup/repository");
    assert_eq!(session.chunk_storage.chunk_path(id), format!("w/.scup/chunks/{hex}"));
}

fn span(tone: Tone, text: &str) -> Span {
    Span { tone, text: text.to_string() }
}

#[test]
fn what_is_shown_of_hosts() {
    let (a, b) = (ObjectId([1; 32]), ObjectId([2; 32]));
    let hex = "02".repeat(32);
    assert_eq!(
        host_state(Some(&a), &Ok(b)),
        vec![span(Tone::Bad, "out-of-date"), span(Tone::Plain, &format!(" (head={hex})"))]
    );
    assert_eq!(host_state(Some(&b), &Ok(b))[0], span(Tone::Good, "up-to-date"));
    assert_eq!(host_state(None, &Ok(b)), vec![span(Tone::Plain, &format!("head={hex}"))]);
    assert_eq!(host_state(Some(&a), &err("x")), vec![span(Tone::Bad, "unreachable (x)")]);
    assert_eq!(host_state(None, &err("x")), vec![span(Tone::Bad, "unreachable (x)")]);
    assert_eq!(remote_heading(0, false), vec!["No remotes found!"]);
    assert_eq!(remote_heading(2, false), vec!["Remote status:"]);
    let more = "  (use \"scup scan\" to get more info)";
    assert_eq!(remote_heading(0, true), vec!["No remotes found!", more]);
    assert_eq!(remote_heading(1, true), vec!["Remote status:", more]);
}

#[test]
fn what_is_shown_of_repositories() {
    let (a, b) = (ObjectId([1; 32]), ObjectId([2; 32]));
    let (ours, other) = (RepositoryId([3; 32]), RepositoryId([4; 32]));
    let shown = || span(Tone::Plain, &format!("head={}", "02".repeat(32)));
    assert_eq!(
        repo_state(Some((&ours, &a)), &ours, &Ok(b)),
        vec![shown(), span(Tone::Plain, " "), span(Tone::Bad, "out-of-date")]
    );
    assert_eq!(
        repo_state(Some((&ours, &b)), &ours, &Ok(b)),
        vec![shown(), span(Tone::Plain, " "), span(Tone::Good, "up-to-date")]
    );
    assert_eq!(repo_state(Some((&ours, &b)), &other, &Ok(b)), vec![shown()]);
    assert_eq!(repo_state(None, &ours, &Ok(b)), vec![shown()]);
    assert_eq!(
        repo_state(Some((&ours, &b)), &ours, &err("x")),
        vec![span(Tone::Bad, "(unreachable: x)")]
    );
}

#[test]
fn borders_of_chunks() {
    assert_eq!(chunk_line(0, 8192), "chunk [0, 8192), len=8192");
    assert_eq!(chunk_line(10, 25), "chunk [10, 25), len=15");
    assert_eq!(chunk_end(10, 15), Some(25));
    assert_eq!(chunk_end(u64::MAX - 1, 1), Some(u64::MAX));
    assert_eq!(chunk_end(u64::MAX, 1), None);
}
