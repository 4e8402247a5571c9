//! Single functions on chosen values.

use respawn::anchor;
use respawn::apfs;
use respawn::audit::{self, AuditEntry, LogLine};
use respawn::capture::{file_stamp, ignore_patterns, visit};
use respawn::cli;
use respawn::dates::{chrono_ts, days_to_ymd};
use respawn::digest::{hash_bytes, hash_eq};
use respawn::drift::DriftReport;
use respawn::guard::{push_signed, GuardReport};
use respawn::hashset::distinct;
use respawn::keychain::{self, KeychainRead, Lookup, Placement, TextRead};
use respawn::paths::{excluded, join, sanitize_rel, tmp_path};
use respawn::revert::{dest_ancestors, prune_order, resolve_dest, RevertReport, Stat};
use respawn::schedule::{self, ScheduleSpec, Surroundings};
use respawn::secure;
use respawn::snapshot::{self, FileEntry, Manifest, ManifestFile};
use respawn::store::{ContentHasher, ObjectTally, ReadOutcome};
use respawn::sync::{ManifestWalk, PullReport, WalkStep};
use respawn::watch::{changed_paths, is_tracked};
use respawn::wire::{self, Peer, Request};
use respawn::{Error, Result, Store};

fn corrupt_text<T>(r: Result<T>) -> String {
    match r {
        Err(Error::Corrupt(m)) => m,
        _ => panic!("expected a corrupt-state error"),
    }
}

fn sync_text<T>(r: Result<T>) -> String {
    match r {
        Err(Error::Sync(m)) => m,
        _ => panic!("expected a sync error"),
    }
}

fn io_error() -> std::io::Error {
    std::io::Error::other("disk on fire")
}

fn store() -> Store {
    Store::open("/w", true).unwrap()
}

fn strings(v: &[&str]) -> Vec<String> {
    v.iter().map(|s| s.to_string()).collect()
}

// ---------- hashes ----------

#[test]
fn blake3_of_nothing() {
    assert_eq!(
        respawn::hash_hex(&respawn::hash_bytes(b"")),
        "af1349b9f5f9a1a6a0404dea36dcc9499bcb25c9adc112b7cc9a93cae41f3262"
    );
}

#[test]
fn hashing_in_pieces_is_hashing_at_once() {
    let h = ContentHasher::new().update(b"hel").update(b"").update(b"lo");
    assert_eq!(h.total(), 5);
    let (hash, n) = h.finish();
    assert!(hash_eq(&hash, &respawn::hash_bytes(b"hello")));
    assert_eq!(n, 5);
}

#[test]
fn hash_text_round_trips() {
    let h = respawn::hash_bytes(b"x");
    let t = respawn::hash_hex(&h);
    assert_eq!(respawn::parse_hash(&t).unwrap(), h);
    assert_eq!(respawn::parse_hash(&t.to_uppercase()).unwrap(), h);
    assert_eq!(respawn::short(&h), t[..12]);
    assert!(respawn::is_hash_name(&t));
    assert!(!respawn::is_hash_name(&t.to_uppercase()));
    assert!(!respawn::is_hash_name(&t[1..]));
    for bad in ["", "zz", "abc", &t[2..], "é"] {
        assert!(matches!(respawn::parse_hash(bad), Err(Error::BadHash(m)) if m == bad));
    }
}

#[test]
fn distinct_hashes_come_sorted() {
    let (a, b, c) = ([1u8; 32], [2u8; 32], [3u8; 32]);
    assert_eq!(distinct(&vec![c, a, b, a, c]), vec![a, b, c]);
    assert!(distinct(&Vec::new()).is_empty());
}

// ---------- errors ----------

#[test]
fn error_messages() {
    let h = [0xabu8; 32];
    assert_eq!(Error::Corrupt("x".into()).message(), "corrupt state: x");
    assert_eq!(
        Error::MissingObject(h).message(),
        format!("missing object {}", "ab".repeat(32))
    );
    assert_eq!(
        Error::NotInitialized.message(),
        "not a respawn worktree (run `respawn init`)"
    );
    assert_eq!(Error::BadHash("x".into()).message(), "bad hash: x");
    assert_eq!(Error::Sync("x".into()).message(), "sync error: x");
    assert_eq!(
        Error::UnsafePath("a\"b".into()).message(),
        "unsafe path in manifest: \"a\\\"b\""
    );
    assert_eq!(Error::Locked("x".into()).message(), "locked: x");
    assert_eq!(Error::from(io_error()).message(), "disk on fire");
}

// ---------- paths ----------

#[test]
fn relative_paths_are_sanitized() {
    for good in ["a", "a/b.txt", "a//b", "..a/b..", ".hidden", "a/", "é"] {
        assert_eq!(sanitize_rel(good).unwrap(), good);
    }
    let long = "x".repeat(1025);
    for bad in ["", "/a", "..", "a/..", "./a", "a/.", "a\\b", "a\0b", &long] {
        assert!(matches!(sanitize_rel(bad), Err(Error::UnsafePath(p)) if p == bad));
    }
    assert!(sanitize_rel(&long[1..]).is_ok());
}

#[test]
fn reserved_names_are_excluded_by_component() {
    for p in [".respawn/x", "a/.git/b", ".DS_Store", "a/.DS_Store"] {
        assert!(excluded(p));
    }
    for p in ["a", ".github/x", "x.git", ".respawnx"] {
        assert!(!excluded(p));
    }
}

#[test]
fn joined_paths() {
    assert_eq!(join("/w", "a"), "/w/a");
    assert_eq!(join("/w/", "a"), "/w/a");
    assert_eq!(join("", "a"), "a");
    assert_eq!(join("/w", "/a"), "/a");
    assert_eq!(tmp_path("/w/.respawn/tmp", "revert", 42, 7), "/w/.respawn/tmp/.tmp-42-7-revert");
}

// ---------- store ----------

#[test]
fn object_files_are_compressed_and_verified() {
    let s = store();
    let data = vec![9u8; 10_000];
    let (h, w) = s.put_object(&data, false).unwrap();
    let w = w.unwrap();
    let hex = respawn::hash_hex(&h);
    assert_eq!(w.path, format!("/w/.respawn/objects/{}/{}", &hex[..2], &hex[2..]));
    assert_eq!(w.tmp, format!("{}.tmp", w.path));
    assert_eq!(w.dir, format!("/w/.respawn/objects/{}", &hex[..2]));
    assert!(w.data.len() < 100);
    assert_eq!(s.get_object(&h, ReadOutcome::Data(w.data)).unwrap(), data);
    assert!(s.put_object(&data, true).unwrap().1.is_none());

    assert!(matches!(s.get_object(&h, ReadOutcome::Missing), Err(Error::MissingObject(x)) if x == h));
    assert!(matches!(s.get_object(&h, ReadOutcome::Failed(io_error())), Err(Error::Io(_))));
    assert!(matches!(s.get_object(&h, ReadOutcome::Data(vec![1, 2, 3])), Err(Error::Io(_))));
    let other = s.put_object(b"other", false).unwrap().1.unwrap();
    assert_eq!(
        corrupt_text(s.get_object(&h, ReadOutcome::Data(other.data))),
        format!("object {} failed content verification", respawn::short(&h))
    );
    assert!(s.put_object_as(&h, &data, false).unwrap().is_some());
    assert!(s.put_object_as(&h, b"other", true).is_err());
}

#[test]
fn manifests_are_stored_under_their_hash() {
    let s = store();
    let (id, w) = s.put_manifest(b"{}", false);
    assert_eq!(w.unwrap().data, b"{}");
    assert_eq!(s.put_manifest(b"{}", true).1.map(|w| w.path), None);
    assert!(s.put_manifest_as(&id, b"{}", false).unwrap().is_some());
    assert_eq!(
        corrupt_text(s.put_manifest_as(&id, b"[]", false)),
        "manifest hash mismatch"
    );
    assert!(matches!(
        s.get_manifest_bytes(&id, ReadOutcome::Missing),
        Err(Error::MissingObject(x)) if x == id
    ));
    assert!(matches!(
        s.get_manifest_bytes(&id, ReadOutcome::Failed(io_error())),
        Err(Error::Io(_))
    ));
}

#[test]
fn head_round_trips() {
    let s = store();
    let h = respawn::hash_bytes(b"x");
    let w = s.set_head(Some(&h));
    assert_eq!((w.tmp.as_str(), w.path.as_str()), ("/w/.respawn/HEAD.tmp", "/w/.respawn/HEAD"));
    let text = String::from_utf8(w.data).unwrap();
    assert_eq!(Store::head(Some(&text)).unwrap(), Some(h));
    assert_eq!(Store::head(Some(&format!(" {text}\n"))).unwrap(), Some(h));
    assert!(s.set_head(None).data.is_empty());
    assert_eq!(Store::head(Some(" \n")).unwrap(), None);
    assert_eq!(Store::head(None).unwrap(), None);
    assert!(matches!(Store::head(Some(" junk ")), Err(Error::BadHash(m)) if m == "junk"));
}

// ---------- audit ----------

fn copy(e: &AuditEntry) -> AuditEntry {
    AuditEntry {
        seq: e.seq,
        ts: e.ts,
        event: e.event.clone(),
        detail: e.detail.clone(),
        prev: e.prev.clone(),
        hash: e.hash.clone(),
    }
}

fn line(e: &AuditEntry) -> LogLine {
    LogLine::Text("{..}".to_string(), Some(copy(e)))
}

fn three() -> Vec<AuditEntry> {
    let mut es: Vec<AuditEntry> = Vec::new();
    for (ts, event) in [(10, "a"), (11, "b"), (12, "c\n\"\u{1}é")] {
        let lines: Vec<LogLine> = es.iter().map(line).collect();
        es.push(audit::record(&lines, ts, event, "d"));
    }
    es
}

#[test]
fn entry_hash_covers_the_json_tuple() {
    let e = audit::record(&Vec::new(), 17, "q\"uote", "tab\tend");
    assert_eq!(e.seq, 0);
    assert_eq!(e.prev, "");
    let body = serde_json::to_string(&(0u64, 17u64, "q\"uote", "tab\tend", "")).unwrap();
    assert_eq!(body, "[0,17,\"q\\\"uote\",\"tab\\tend\",\"\"]");
    assert_eq!(e.hash, respawn::hash_hex(&respawn::hash_bytes(body.as_bytes())));
}

#[test]
fn recorded_entries_chain() {
    let es = three();
    assert_eq!(es[2].seq, 2);
    assert_eq!(es[2].prev, es[1].hash);
    let mut lines: Vec<LogLine> = es.iter().map(line).collect();
    lines.insert(1, LogLine::Text("  \t".to_string(), None));
    let r = audit::verify(lines).unwrap();
    assert!(r.valid && r.entries == 3 && r.first_bad.is_none());
    assert!(audit::verify(Vec::new()).unwrap().valid);
}

#[test]
fn deletion_and_reordering_break_the_chain() {
    let es = three();
    let r = audit::verify(vec![line(&es[0]), line(&es[2])]).unwrap();
    assert!(!r.valid && r.entries == 1 && r.first_bad == Some(2));
    let r = audit::verify(vec![line(&es[0]), line(&es[2]), line(&es[1])]).unwrap();
    assert!(!r.valid);
}

#[test]
fn bad_lines_are_errors_where_it_counts() {
    let es = three();
    let bad = || LogLine::Text("junk".to_string(), None);
    assert_eq!(
        corrupt_text(audit::verify(vec![line(&es[0]), bad()])),
        "audit line 2 unparsable"
    );
    assert_eq!(
        corrupt_text(audit::tip(vec![bad()])),
        "audit line 1 unparsable"
    );
    assert!(matches!(
        audit::verify(vec![LogLine::Unreadable(io_error())]),
        Err(Error::Io(_))
    ));
    assert!(matches!(
        audit::tip(vec![LogLine::Unreadable(io_error())]),
        Err(Error::Io(_))
    ));
    // Recording passes over junk, and stops reading where reading fails.
    let e = audit::record(&vec![line(&es[0]), bad()], 20, "x", "");
    assert_eq!((e.seq, &e.prev), (1, &es[0].hash));
    let lines = vec![line(&es[0]), LogLine::Unreadable(io_error()), line(&es[1])];
    assert_eq!(audit::record(&lines, 20, "x", "").seq, 1);
}

#[test]
fn sequence_numbers_wrap_rather_than_panic() {
    let mut e = three().pop().unwrap();
    e.seq = u64::MAX;
    assert_eq!(audit::record(&vec![line(&e)], 1, "x", "").seq, 0);
    assert_eq!(audit::tip(vec![line(&e)]).unwrap(), (0, e.hash));
}

#[test]
fn tip_and_prefix() {
    let es = three();
    let lines = || -> Vec<LogLine> { es.iter().map(line).collect() };
    assert_eq!(audit::tip(lines()).unwrap(), (3, es[2].hash.clone()));
    assert_eq!(audit::tip(Vec::new()).unwrap(), (0, String::new()));
    assert!(audit::tip_is_prefix(Some(lines()), 2, &es[1].hash).is_ok());
    assert!(audit::tip_is_prefix(Some(lines()), 3, &es[2].hash).is_ok());
    assert!(audit::tip_is_prefix(None, 0, "").is_ok());
    assert_eq!(
        corrupt_text(audit::tip_is_prefix(None, 1, "")),
        "audit log missing since anchor"
    );
    assert_eq!(
        corrupt_text(audit::tip_is_prefix(Some(lines()), 4, "")),
        "audit log truncated: anchor covers 4 entries, only 3 present"
    );
    let mut edited = three();
    edited[1].detail = "other".to_string();
    assert_eq!(
        corrupt_text(audit::tip_is_prefix(Some(edited.iter().map(line).collect()), 3, "")),
        "audit chain broken inside anchored region at seq 1"
    );
    // Junk behind the covered entries is not looked at; inside it is.
    let mut more = lines();
    more.push(LogLine::Text("junk".to_string(), None));
    assert!(audit::tip_is_prefix(Some(more), 3, &es[2].hash).is_ok());
    assert_eq!(
        corrupt_text(audit::tip_is_prefix(
            Some(vec![line(&es[0]), LogLine::Text("junk".to_string(), None)]),
            2,
            ""
        )),
        "audit line 2 unparsable"
    );
    assert!(matches!(
        audit::tip_is_prefix(Some(vec![LogLine::Unreadable(io_error())]), 1, ""),
        Err(Error::Io(_))
    ));
    assert_eq!(audit::audit_path(&store()), "/w/.respawn/audit.jsonl");
}

// ---------- manifests ----------

fn manifest(files: Vec<FileEntry>) -> Manifest {
    Manifest {
        version: 3,
        parent: None,
        timestamp_secs: 0,
        message: String::new(),
        files,
        unstable: Vec::new(),
    }
}

fn entry(path: &str, content: u8) -> FileEntry {
    FileEntry {
        path: path.to_string(),
        mode: 0o644,
        size: 1,
        mtime_secs: 0,
        mtime_nanos: 0,
        content: [content; 32],
        chunks: vec![[content; 32]],
    }
}

#[test]
fn manifest_versions_and_counts() {
    let mut m = manifest(vec![entry("a", 1)]);
    assert!(m.validate().is_ok());
    m.version = 2;
    assert!(m.validate().is_ok());
    for v in [0, 1, 4] {
        m.version = v;
        assert_eq!(
            corrupt_text(m.validate()),
            format!("unsupported manifest version {v}")
        );
    }
    m.version = 3;
    m.files[0].chunks.clear();
    assert_eq!(corrupt_text(m.validate()), "non-empty file with no chunks: a");
    m.files[0].size = 0;
    assert!(m.validate().is_ok());
    m.files[0].chunks = vec![[0; 32]; 8_000_001];
    assert_eq!(corrupt_text(m.validate()), "manifest exceeds chunk count cap");
    let one = entry("a", 1);
    m.files = (0..2_000_001).map(|_| FileEntry { chunks: Vec::new(), path: String::new(), ..one.copy() }).collect();
    assert_eq!(corrupt_text(m.validate()), "manifest exceeds file count cap");
}

#[test]
fn loading_says_what_is_wrong() {
    let id = [5u8; 32];
    assert!(matches!(snapshot::load(&id, ManifestFile::Missing), Err(Error::MissingObject(h)) if h == id));
    assert!(matches!(snapshot::load(&id, ManifestFile::Failed(io_error())), Err(Error::Io(_))));
    assert_eq!(
        corrupt_text(snapshot::load(&id, ManifestFile::Data(vec![1], Err("eof".to_string())))),
        "json: eof"
    );
    let big = vec![0u8; 268_435_457];
    assert_eq!(
        corrupt_text(snapshot::load(&id, ManifestFile::Data(big, Err("x".to_string())))),
        "manifest exceeds size cap"
    );
    let m = manifest(vec![entry("a", 1)]);
    assert_eq!(snapshot::load(&id, ManifestFile::Data(vec![1], Ok(m))).unwrap().files.len(), 1);
}

#[test]
fn references_resolve() {
    let a = format!("abcd{}", "0".repeat(60));
    let b = format!("abce{}", "0".repeat(60));
    let names = strings(&[&a, &b, "abcjunk"]);
    let bad = |r: &str| match snapshot::resolve(r, None, &names) {
        Err(Error::BadHash(m)) => m,
        _ => panic!("resolved"),
    };
    assert_eq!(snapshot::resolve("abcd", None, &names).unwrap(), respawn::parse_hash(&a).unwrap());
    assert_eq!(snapshot::resolve("ABCE0", None, &names).unwrap(), respawn::parse_hash(&b).unwrap());
    assert_eq!(bad("abc"), "abc");
    assert_eq!(bad("wxyz"), "wxyz");
    assert_eq!(bad("ffff"), "no snapshot matches 'ffff'");
    assert_eq!(bad(&"g".repeat(64)), "g".repeat(64));
    let twice = strings(&[&a, &a]);
    assert!(matches!(
        snapshot::resolve("abcd", None, &twice),
        Err(Error::BadHash(m)) if m == "ambiguous prefix 'abcd'"
    ));
    // A full id need not be stored.
    assert!(snapshot::resolve(&"1".repeat(64), None, &names).is_ok());
    assert_eq!(corrupt_text(snapshot::resolve("HEAD", None, &names)), "no HEAD snapshot");
    assert!(matches!(snapshot::resolve("head", Some("x"), &names), Err(Error::BadHash(_))));
}

#[test]
fn diff_takes_the_last_entry_of_a_path() {
    let a = manifest(vec![entry("z", 1), entry("b", 1), entry("b", 2)]);
    let b = manifest(vec![entry("b", 1), entry("y", 1), entry("c", 1)]);
    let (added, modified, deleted) = snapshot::diff_manifests(&a, &b);
    assert_eq!(added, vec!["z"]);
    assert_eq!(modified, vec!["b"]);
    assert_eq!(deleted, vec!["c", "y"]);
    let (x, y, z) = snapshot::diff_manifests(&a, &a);
    assert!(x.is_empty() && y.is_empty() && z.is_empty());
}

#[test]
fn walked_paths_enter_snapshots_slashed() {
    let none = Vec::new();
    assert_eq!(visit("a\\b", true, &none).unwrap(), Some("a/b".to_string()));
    assert_eq!(visit("a", false, &none).unwrap(), None);
    assert_eq!(visit(".git/x", true, &none).unwrap(), None);
    assert!(matches!(visit("a/../b", true, &none), Err(Error::UnsafePath(_))));
    let patterns = ignore_patterns(Some("#x\n\n *.o\r\ntmp"));
    assert_eq!(patterns, vec!["*.o", "tmp"]);
    assert_eq!(visit("a/tmpfile", true, &patterns).unwrap(), None);
    assert!(ignore_patterns(None).is_empty());
    assert_eq!(file_stamp(3, Some((2, 5))), (3, 2_000_000_005));
    assert_eq!(file_stamp(3, None), (3, 0));
}

// ---------- revert ----------

#[test]
fn destinations_are_checked_from_the_top() {
    assert_eq!(dest_ancestors("/w", "a/b//c"), vec!["/w/a", "/w/a/b"]);
    assert!(dest_ancestors("/w", "a").is_empty());
    let ok = vec![Stat::Dir, Stat::Missing];
    assert_eq!(resolve_dest("/w", "a/b/c", ok).unwrap(), "/w/a/b/c");
    assert!(matches!(
        resolve_dest("/w", "a/b/c", vec![Stat::Failed(io_error()), Stat::Symlink]),
        Err(Error::Io(_))
    ));
    assert!(matches!(resolve_dest("/w", "../x", vec![Stat::Dir]), Err(Error::UnsafePath(p)) if p == "../x"));
}

#[test]
fn directories_are_pruned_deepest_first() {
    let dirs = strings(&["a", "a/b", "a/b/c", ".git", "d", "d/e", ".respawn/objects"]);
    assert_eq!(prune_order(&dirs, &Vec::new()), vec!["a/b/c", "a/b", "d/e", "a", "d"]);
    let standing = vec!["a".to_string(), "d/e".to_string()];
    assert_eq!(prune_order(&dirs, &standing), vec!["a/b/c", "a/b", "d"]);
}

// ---------- wire ----------

#[test]
fn frames_carry_their_length() {
    let f = wire::write_frame(b"abc");
    assert_eq!(f, vec![3, 0, 0, 0, b'a', b'b', b'c']);
    assert_eq!(wire::frame_len(&f[..4]).unwrap(), 3);
    assert_eq!(wire::frame_len(&67_108_864u32.to_le_bytes()).unwrap(), 67_108_864);
    assert_eq!(sync_text(wire::frame_len(&67_108_865u32.to_le_bytes())), "frame too large");
    assert_eq!(wire::read_u64(&[1, 2, 0, 0, 0, 0, 0, 0, 9]).unwrap(), 513);
    assert_eq!(sync_text(wire::read_u64(&[1])), "short frame");
    let b = wire::blob_reply(b"xyz");
    assert_eq!(wire::frame_payload(&b).unwrap(), b"xyz");
    assert_eq!(wire::frame_payload(&wire::blob_reply(b"")).unwrap(), b"");
    assert_eq!(sync_text(wire::frame_payload(&b[..10])), "truncated frame payload");
    // Bytes behind the announced ones are not part of the payload.
    let mut longer = b;
    longer.push(0);
    assert_eq!(wire::frame_payload(&longer).unwrap(), b"xyz");
}

#[test]
fn requests_round_trip() {
    let h = [7u8; 32];
    assert!(matches!(wire::parse_request(&wire::head_request()), Ok(Request::GetHead)));
    assert!(matches!(wire::parse_request(&[1, 2, 3]), Ok(Request::GetHead)));
    assert!(matches!(wire::parse_request(&wire::manifest_request(&h)), Ok(Request::GetManifest(x)) if x == h));
    assert!(matches!(wire::parse_request(&wire::object_request(&h)), Ok(Request::GetObject(x)) if x == h));
    let hs = [h, [8u8; 32]];
    assert!(matches!(wire::parse_request(&wire::have_request(&hs)), Ok(Request::Have(x)) if x == hs));
    assert_eq!(sync_text(wire::parse_request(&[])), "unknown opcode");
    assert_eq!(sync_text(wire::parse_request(&[9])), "unknown opcode");
    assert_eq!(sync_text(wire::parse_request(&[2, 1])), "unknown opcode");
    assert_eq!(sync_text(wire::parse_request(&[3, 1])), "unknown opcode");
    assert_eq!(sync_text(wire::parse_request(&[3, 255, 255, 255, 255])), "malformed HAVE");
}

#[test]
fn beacons_round_trip() {
    assert_eq!(wire::beacon(4789, false), b"SFAB1\xb5\x12");
    assert_eq!(wire::parse_beacon(&wire::beacon(4789, false)), Some((4789, false)));
    assert_eq!(wire::parse_beacon(&wire::beacon(65535, true)), Some((65535, true)));
    assert_eq!(wire::parse_beacon(b"SFAB2\xb5\x12"), None);
    assert_eq!(wire::parse_beacon(b"SFAB1\xb5\x12\x02"), None);
    let mut peers: Vec<Peer> = Vec::new();
    wire::note_beacon(&mut peers, "10.0.0.1", &wire::beacon(4789, false));
    wire::note_beacon(&mut peers, "10.0.0.1", &wire::beacon(4789, false));
    wire::note_beacon(&mut peers, "10.0.0.1", b"noise");
    wire::note_beacon(&mut peers, "10.0.0.1", &wire::beacon(4789, true));
    let found: Vec<(&str, bool)> = peers.iter().map(|p| (p.addr.as_str(), p.secured)).collect();
    assert_eq!(found, vec![("10.0.0.1:4789", false), ("10.0.0.1:4789", true)]);
    assert!(wire::admits(63) && !wire::admits(64));
    assert_eq!(wire::sanitize("[fe80::1]:47/../x"), "_fe80__1__47_.._x");
}

#[test]
fn manifest_walk_is_guarded() {
    let store = store();
    let h = hash_bytes(b"{}");
    let head = wire::head_reply(Some(&h));
    let walk = ManifestWalk::begin(&head).unwrap().unwrap();
    assert_eq!(walk.wanted(), h);
    let asked = match walk.ask(false).unwrap() {
        WalkStep::Ask(a, frame) => {
            assert_eq!(frame, wire::manifest_request(&h));
            a
        }
        WalkStep::Known(_) => panic!("not here"),
    };
    // A manifest that names itself as its parent.
    let mut m = manifest(Vec::new());
    m.parent = Some(h);
    let (walk, more, write) = asked.follow(&store, b"{}", Ok(m)).unwrap();
    assert!(more);
    assert_eq!(write.unwrap().data, b"{}");
    match walk.ask(false) {
        Err(Error::Sync(m)) => assert_eq!(m, "manifest chain cycle"),
        _ => panic!("went round"),
    }
    assert!(ManifestWalk::begin(&wire::head_reply(None)).unwrap().is_none());
    assert_eq!(sync_text(ManifestWalk::begin(&[])), "malformed HEAD response");
    assert_eq!(sync_text(ManifestWalk::begin(&[1])), "malformed HEAD response");
}

#[test]
fn pull_asks_for_no_more_than_the_cap() {
    let store = store();
    let head = wire::head_reply(Some(&hash_bytes(b"{}")));
    let walk = ManifestWalk::begin(&head).unwrap().unwrap();
    let asked = match walk.ask(false).unwrap() {
        WalkStep::Ask(a, _) => a,
        WalkStep::Known(_) => panic!("not here"),
    };
    let mut m = manifest(vec![entry("a", 1)]);
    m.files[0].chunks = vec![[0; 32]; 8_000_000];
    m.parent = Some(hash_bytes(b"{ }"));
    let (walk, _, _) = asked.follow(&store, b"{}", Ok(m)).unwrap();
    let asked = match walk.ask(false).unwrap() {
        WalkStep::Ask(a, _) => a,
        WalkStep::Known(_) => panic!("not here"),
    };
    let m = manifest(vec![entry("a", 1)]);
    assert_eq!(sync_text(asked.follow(&store, b"{ }", Ok(m))), "pull exceeds object cap");
}

#[test]
fn noise_messages_are_bounded() {
    assert_eq!(secure::write_msg(b"ab").unwrap(), vec![2, 0, 0, 0, b'a', b'b']);
    assert_eq!(sync_text(secure::write_msg(&vec![0; 49217])), "noise message oversized");
    assert_eq!(secure::msg_len(&[5, 0, 0, 0], 5).unwrap(), 5);
    assert_eq!(sync_text(secure::msg_len(&[6, 0, 0, 0], 5)), "noise message length invalid");
    assert_eq!(sync_text(secure::msg_len(&[0, 0, 0, 0], 5)), "noise message length invalid");
    assert_eq!(secure::selector(), b"SFAB\x02\x01");
    match secure::handshake_ended(&Error::Sync("x".into())) {
        Error::Sync(m) => assert_eq!(
            m,
            "peer ended the handshake (wrong --psk or unsecured listener?): sync error: x"
        ),
        _ => panic!("not a sync error"),
    }
}

#[test]
fn psk_is_derived_with_its_context() {
    assert_eq!(
        secure::derive_psk("hunter2"),
        blake3::derive_key("respawn sync psk v1", b"hunter2")
    );
    assert_ne!(secure::derive_psk("a"), secure::derive_psk("b"));
}

#[test]
fn a_garbled_first_message_is_refused() {
    match secure::respond_handshake(&secure::derive_psk("k"), &[0; 48]) {
        Err(Error::Sync(m)) => assert!(m.starts_with("noise handshake rejected: ")),
        _ => panic!("accepted garbage"),
    }
    let (ini, first) = secure::Initiator::start(&secure::derive_psk("k")).unwrap();
    assert_eq!(first.len(), 48);
    assert!(ini.finish(b"short").is_err());
}

// ---------- anchors and keys ----------

#[test]
fn anchor_names_do_not_collide() {
    let taken = strings(&["anchor-5.json", "anchor-5-1.json"]);
    assert_eq!(anchor::next_name(5, &taken).unwrap(), "anchor-5-2.json");
    assert_eq!(anchor::next_name(6, &taken).unwrap(), "anchor-6.json");
    assert_eq!(
        anchor::next_name(u128::MAX, &taken).unwrap(),
        "anchor-340282366920938463463374607431768211455.json"
    );
    let mut full = strings(&["anchor-5.json"]);
    for n in 1..1000 {
        full.push(format!("anchor-5-{n}.json"));
    }
    assert_eq!(
        corrupt_text(anchor::next_name(5, &full)),
        "could not allocate a timestamped anchor name"
    );
}

#[test]
fn known_ed25519_key() {
    // RFC 8032, test 1.
    let seed =
        respawn::parse_hash("9d61b19deffd5a60ba844af492ec2cc44449c5697b326919703bac031cae7f60")
            .unwrap();
    assert_eq!(
        anchor::pubkey(&seed),
        "d75a980182b10ab7d54bfed3c964073a0ee172f3daa62325af021a68f707511a"
    );
    let f = anchor::sign(&seed, "");
    assert_eq!(
        f.sig,
        "e5564300c360ac729086e2cc806e828a84877f1eb8e5d974d873e065224901555\
         fb8821590a33bacc61e39701cf9b46bd25bf5f0595bbe24655141438e7a100b"
    );
    assert_eq!(f.format, "respawn-anchor/v1");
}

#[test]
fn fabric_ids_are_minted_once() {
    let (a, new) = anchor::fabric_id(TextRead::Missing).unwrap();
    assert!(new && respawn::is_hash_name(&a));
    let (b, _) = anchor::fabric_id(TextRead::Missing).unwrap();
    assert_ne!(a, b);
    assert_eq!(anchor::fabric_id(TextRead::Text(" x\n".into())).unwrap(), ("x".to_string(), false));
    assert!(matches!(anchor::fabric_id(TextRead::Failed(io_error())), Err(Error::Io(_))));
}

#[test]
fn secrets_are_found_where_they_are() {
    let raw = [3u8; 32];
    let text = keychain::secret_text(&raw);
    let file = |t: &str| keychain::read_secret_file(TextRead::Text(t.to_string()));
    assert_eq!(file(&format!("{text}\n")).unwrap(), Some(raw));
    assert_eq!(corrupt_text(file("zz")), "anchor secret is not hex");
    assert_eq!(corrupt_text(file("00")), "anchor secret is not 32 bytes");
    assert_eq!(keychain::read_secret_file(TextRead::Missing).unwrap(), None);
    assert!(matches!(keychain::read_secret_file(TextRead::Failed(io_error())), Err(Error::Io(_))));

    assert!(matches!(
        keychain::get(KeychainRead::Found([9; 32]), Err(Error::NotInitialized)),
        Ok(Lookup::Key(k, Placement::Keychain)) if k == [9; 32]
    ));
    assert!(matches!(
        keychain::get(KeychainRead::Off, Ok(Some(raw))),
        Ok(Lookup::Key(k, Placement::File)) if k == raw
    ));
    assert!(matches!(
        keychain::get(KeychainRead::Absent, Ok(Some(raw))),
        Ok(Lookup::Migrate(k)) if k == raw
    ));
    assert!(matches!(
        keychain::get(KeychainRead::Failed("locked".into()), Ok(Some(raw))),
        Ok(Lookup::Migrate(_))
    ));
    assert!(matches!(
        keychain::get(KeychainRead::Absent, Err(Error::NotInitialized)),
        Err(Error::NotInitialized)
    ));
    assert_eq!(
        corrupt_text(keychain::get(KeychainRead::Off, Ok(None))),
        "no anchor key — run `respawn anchor keygen`"
    );
    assert_eq!(
        corrupt_text(keychain::get(KeychainRead::Failed("locked".into()), Ok(None))),
        "anchor key lookup failed (locked) and no key file — if the key lives in Keychain, \
         this session cannot reach it (locked keychain or no GUI session)"
    );
    assert_eq!(
        keychain::migrated(Ok(())),
        (
            Placement::Keychain,
            "migrated anchor key from .respawn/anchor.secret into login Keychain".to_string()
        )
    );
    assert_eq!(
        keychain::migrated(Err("x".into())),
        (Placement::File, "Keychain unavailable (x) — using key file".to_string())
    );
    let s = store();
    assert_eq!(keychain::put(&s, Some(Ok(()))), (Placement::Keychain, None));
    assert_eq!(
        keychain::put(&s, Some(Err("x".into()))).1.unwrap(),
        "Keychain unavailable (x) — key stored in /w/.respawn/anchor.secret (0600)"
    );
    assert!(keychain::key_exists(false, &KeychainRead::Found(raw)));
    assert!(keychain::key_exists(true, &KeychainRead::Off));
    assert!(!keychain::key_exists(false, &KeychainRead::Absent));
}

// ---------- schedule ----------

fn surroundings() -> Surroundings<'static> {
    Surroundings {
        key_loads: true,
        home: Some("/Users/x"),
        macos: true,
        base: "/Users/x",
        rest: "anchors",
        fabric: "/w/.respawn",
        exe: "/bin/respawn",
        exe_exists: true,
    }
}

#[test]
fn schedules_are_planned() {
    let id = "0123456789abcdef";
    let p = schedule::plan("/w", None, 300, id, &surroundings()).unwrap();
    assert_eq!(p.label, "com.respawn.anchor.0123456789ab");
    assert_eq!(
        p.anchor_dir,
        "/Users/x/Library/Application Support/respawn/anchors/0123456789ab"
    );
    assert_eq!(
        p.plist_path,
        "/Users/x/Library/LaunchAgents/com.respawn.anchor.0123456789ab.plist"
    );
    assert_eq!(
        p.log,
        "/Users/x/Library/Logs/respawn/anchor-com.respawn.anchor.0123456789ab.log"
    );
    assert_eq!(
        schedule::plan("/w", Some("/a"), 60, id, &surroundings()).unwrap().anchor_dir,
        "/a"
    );
    assert_eq!(
        schedule::default_anchor_dir(Some("/home/x"), false, "abc").unwrap(),
        "/home/x/.respawn-anchors/abc"
    );
    let fault = |every: u64, change: &dyn Fn(&mut Surroundings<'static>)| {
        let mut s = surroundings();
        change(&mut s);
        corrupt_text(schedule::plan("/w", None, every, id, &s).map(|p| p.label))
    };
    assert_eq!(fault(59, &|_| {}), "--every must be >= 60s");
    assert_eq!(
        fault(60, &|s| s.key_loads = false),
        "no anchor key — run `respawn anchor keygen` first"
    );
    assert_eq!(
        fault(60, &|s| s.home = None),
        "HOME is not set — cannot locate LaunchAgents"
    );
    assert_eq!(
        fault(60, &|s| (s.base, s.rest) = ("/w/.respawn", "anchors")),
        "anchor dir must live outside .respawn/"
    );
    assert_eq!(
        fault(60, &|s| (s.base, s.rest) = ("/w", ".respawn/not/there")),
        "anchor dir must live outside .respawn/"
    );
    assert_eq!(
        fault(60, &|s| s.exe_exists = false),
        "respawn binary not found at /bin/respawn"
    );
}

#[test]
fn plist_is_well_formed() {
    let spec = ScheduleSpec {
        label: "l".into(),
        exe: "/bin/a&b".into(),
        worktree: "/w<t>".into(),
        anchor_dir: "/a".into(),
        every: 300,
        log: "/log".into(),
        plist_path: "/p".into(),
    };
    let xml = schedule::plist_xml(&spec);
    assert!(xml.starts_with("<?xml version=\"1.0\" encoding=\"UTF-8\"?>\n<!DOCTYPE plist PUBLIC"));
    assert!(xml.contains("\t\t<string>/bin/a&amp;b</string>\n\t\t<string>anchor</string>\n\t\t<string>next</string>\n\t\t<string>/a</string>\n"));
    assert!(xml.contains("<key>WorkingDirectory</key>\n\t<string>/w&lt;t&gt;</string>"));
    assert!(xml.contains("<key>StartInterval</key>\n\t<integer>300</integer>"));
    assert!(xml.ends_with("<key>StandardErrorPath</key>\n\t<string>/log</string>\n</dict>\n</plist>\n"));

    let plan = schedule::install(&spec, true, "501\n").unwrap();
    assert_eq!(plan.first, vec!["bootstrap", "gui/501", "/p"]);
    assert_eq!(plan.fallback, vec!["load", "-w", "/p"]);
    assert_eq!(
        corrupt_text(schedule::install(&spec, false, "").map(|p| p.plist_path)),
        "anchor schedule uses launchd — macOS-only (use systemd timers or cron elsewhere)"
    );
    let plan = schedule::uninstall(Some("/h"), "abc", true, true, "501").unwrap();
    assert_eq!(plan.plist_path, "/h/Library/LaunchAgents/com.respawn.anchor.abc.plist");
    assert_eq!(plan.first, vec!["bootout", "gui/501/com.respawn.anchor.abc"]);
    assert_eq!(plan.fallback, vec!["unload", &plan.plist_path]);
    assert_eq!(
        corrupt_text(schedule::uninstall(Some("/h"), "abc", true, false, "").map(|p| p.plist_path)),
        "no scheduled anchor for this fabric (/h/Library/LaunchAgents/com.respawn.anchor.abc.plist)"
    );
    assert!(schedule::uninstall(None, "abc", true, true, "").is_err());
    assert!(schedule::uninstall(Some("/h"), "abc", false, true, "").is_err());
}

// ---------- APFS ----------

const TABLE: &str = "/dev/disk3s1s1 on / (apfs, sealed, local)\n\
                     devfs on /dev (devfs, local)\n\
                     /dev/disk3s5 on /System/Volumes/Data (apfs, local, root data)\r\n\
                     /dev/disk5s1 on /Volumes/Ext  (apfs, local)\n";

#[test]
fn mount_table_is_read() {
    let vs = apfs::volumes(TABLE);
    let found: Vec<(&str, &str)> =
        vs.iter().map(|v| (v.device.as_str(), v.mount.as_str())).collect();
    assert_eq!(
        found,
        vec![
            ("/dev/disk3s1s1", "/"),
            ("/dev/disk3s5", "/System/Volumes/Data"),
            ("/dev/disk5s1", "/Volumes/Ext"),
        ]
    );
    assert_eq!(
        apfs::data_volume(TABLE).unwrap(),
        ("/dev/disk3s5".to_string(), "/System/Volumes/Data".to_string())
    );
    assert_eq!(
        apfs::data_volume("/dev/disk1 on / (apfs)").unwrap(),
        ("/dev/disk1".to_string(), "/".to_string())
    );
    assert_eq!(corrupt_text(apfs::data_volume("x on / (hfs)")), "no APFS boot volume found");
    let devs = vec![Some(1), None, Some(7)];
    assert_eq!(apfs::volume_of("/v", &vs, &devs, 7).unwrap().1, "/Volumes/Ext");
    assert_eq!(corrupt_text(apfs::volume_of("/v", &vs, &devs, 9)), "no APFS volume backs /v");
}

#[test]
fn snapshot_names_are_parsed() {
    let name = |s: &str| apfs::snapshot_name_from_output(s);
    assert_eq!(
        name("Created local snapshot with date: com.apple.TimeMachine.2023-10-15-143022.local)").unwrap(),
        "com.apple.TimeMachine.2023-10-15-143022.local"
    );
    assert_eq!(
        name("Created local snapshot with date: 2023-10-15-143022\n").unwrap(),
        "com.apple.TimeMachine.2023-10-15-143022"
    );
    assert_eq!(
        corrupt_text(name("com.apple.TimeMachine. 23-10-15-143022 1-2")),
        "could not parse snapshot name from tmutil output: com.apple.TimeMachine. 23-10-15-143022 1-2"
    );
    let list = "Snapshots for disk3s5 (2 found)\n  Name:   com.apple.TimeMachine.d.local \n Name: other\n";
    let resolve = |c: &str| apfs::resolve_snapshot_name(list, "disk3s5", c);
    assert_eq!(resolve("com.apple.TimeMachine.d").unwrap(), "com.apple.TimeMachine.d.local");
    assert_eq!(resolve("other").unwrap(), "other");
    assert_eq!(
        corrupt_text(resolve("gone")),
        "snapshot gone not found on disk3s5 (have: com.apple.TimeMachine.d.local, other)"
    );
    assert_eq!(
        apfs::delete_snapshot("com.apple.TimeMachine.2023-10-15-143022.local"),
        Some("2023-10-15-143022".to_string())
    );
    assert_eq!(apfs::delete_snapshot("com.apple.TimeMachine.2023-10-15-143022"), None);
    assert_eq!(apfs::delete_snapshot("x.local"), None);
}

#[test]
fn frozen_views_mirror_the_worktree() {
    let data = "/System/Volumes/Data";
    assert_eq!(apfs::frozen_path("/Users/x/w", data, "/tmp/m"), "/tmp/m/Users/x/w");
    assert_eq!(
        apfs::frozen_path("/System/Volumes/Data/Users/x/w", data, "/tmp/m"),
        "/tmp/m/Users/x/w"
    );
    let view = |visible: bool| apfs::FrozenView {
        name: "n".into(),
        device: "d".into(),
        mount: "/m".into(),
        worktree: "/w".into(),
        scan_root: "/m/w".into(),
        visible,
    };
    let snap = apfs::create(Some(view(true))).unwrap();
    assert_eq!(
        (snap.name(), snap.device(), snap.mount(), snap.scan_root()),
        ("n", "d", "/m", "/m/w")
    );
    assert_eq!(
        corrupt_text(apfs::create(Some(view(false))).map(|_| ())),
        "worktree /w is not visible inside the frozen volume"
    );
    assert_eq!(
        corrupt_text(apfs::create(None).map(|_| ())),
        "--apfs point-in-time snapshots are macOS-only"
    );
    assert!(apfs::mount_failed("Operation not permitted").message().contains("macOS 26+"));
    assert_eq!(
        apfs::mount_failed("x").message(),
        "corrupt state: APFS snapshot created but mounting needs root (run with sudo or --ask-admin): x"
    );
    assert_eq!(
        apfs::wrong_volume("/v", "/Volumes/Ext").message(),
        "corrupt state: --apfs snapshots the boot volume group; /v lives on /Volumes/Ext"
    );
}

// ---------- watch, guard, dates, command line ----------

#[test]
fn watch_reports_each_path_once() {
    let rels = strings(&["b", "a\\c", ".git/x", ".github/y", "b", ".respawn/HEAD", "dir/.git"]);
    assert_eq!(changed_paths(&rels), vec![".github/y", "a/c", "b"]);
    assert!(!is_tracked(".DS_Store"));
    assert!(!is_tracked("a/.DS_Store"));
    assert!(is_tracked("a/DS_Store"));
    assert!(!is_tracked("a/.respawn"));
}

fn report(exit_code: Option<i32>, signal: Option<i32>) -> GuardReport {
    GuardReport {
        snapshot: [1; 32],
        exit_code,
        signal,
        drift: DriftReport::default(),
        reverted: false,
    }
}

#[test]
fn exit_codes_follow_the_shell() {
    assert_eq!(report(Some(3), None).process_exit_code(), 3);
    assert_eq!(report(None, Some(9)).process_exit_code(), 137);
    assert_eq!(report(None, None).process_exit_code(), 1);
    assert_eq!(cli::exit_line(&report(Some(-1), None)), "command exited -1");
    assert_eq!(cli::exit_line(&report(None, Some(9))), "command killed by signal 9");
    assert_eq!(cli::exit_line(&report(None, None)), "command status unknown");
    let mut s = String::new();
    push_signed(&mut s, i32::MIN);
    assert_eq!(s, "-2147483648");
    let mut r = report(Some(0), None);
    assert_eq!(cli::undo_line(&r), None);
    r.drift.added.push("x".into());
    assert_eq!(
        cli::undo_line(&r).unwrap(),
        format!("undo with: respawn revert {} --force", "01".repeat(32))
    );
    r.reverted = true;
    assert_eq!(cli::undo_line(&r).unwrap(), "worktree restored to guard snapshot");
}

#[test]
fn dates_of_days() {
    assert_eq!(days_to_ymd(0), (1970, 1, 1));
    assert_eq!(days_to_ymd(11016), (2000, 2, 29));
    assert_eq!(days_to_ymd(11017), (2000, 3, 1));
    assert_eq!(days_to_ymd(20408), (2025, 11, 16));
    assert_eq!(chrono_ts(0), "1970-01-01 00:00:00Z");
    assert_eq!(chrono_ts(1_700_000_000), "2023-11-14 22:13:20Z");
    assert_eq!(chrono_ts(951_782_399), "2000-02-28 23:59:59Z");
}

#[test]
fn loopback_addresses() {
    assert!(cli::is_loopback("127.0.0.1:4789"));
    assert!(cli::is_loopback("localhost"));
    assert!(!cli::is_loopback("10.0.0.1:4789"));
    assert!(!cli::is_loopback("127.0.0.1.evil:1"));
    assert!(cli::is_loopback("::1"));
    assert!(cli::is_loopback("[::1]"));
    assert!(cli::is_loopback("[::1]:4789"));
    assert!(!cli::is_loopback("[::1].evil:1"));
    assert!(!cli::is_loopback("::1:4789"));
    assert!(!cli::is_loopback("[fe80::1]:4789"));
    assert_eq!(cli::serve_warning("localhost:1", false), None);
    assert_eq!(
        cli::serve_warning("10.0.0.1:1", true).unwrap(),
        "serving secured on 10.0.0.1:1 (Noise NNpsk0)"
    );
    assert!(cli::serve_warning("10.0.0.1:1", false).unwrap().starts_with("warning: plaintext serve on 10.0.0.1:1 — anyone"));
    assert_eq!(cli::serve_line("x", true, true), "serving on x (secured) (announcing)");
    assert_eq!(cli::serve_line("x", false, false), "serving on x");
}

#[test]
fn reports_are_told() {
    let d = DriftReport {
        added: strings(&["n"]),
        modified: strings(&["m"]),
        deleted: strings(&["d"]),
        touched: strings(&["t"]),
    };
    assert_eq!(
        cli::drift_lines(&d),
        vec!["  + n", "  ~ m", "  - d", "  . t (metadata only)", "1 added, 1 modified, 1 deleted"]
    );
    assert_eq!(
        cli::drift_lines(&DriftReport::default()),
        vec!["clean — worktree matches snapshot"]
    );
    assert_eq!(
        cli::diff_lines(&d.added, &Vec::new(), &d.deleted),
        vec!["  + n", "  - d", "1 added, 0 modified, 1 deleted"]
    );
    let id = [0xabu8; 32];
    let mut m = manifest(vec![entry("a", 1)]);
    assert_eq!(cli::log_line(&id, "T", &m, None), "abababababab  T  (1 files)");
    m.message = "hi".into();
    assert_eq!(
        cli::log_line(&id, "T", &m, Some(&id)),
        "abababababab  T  hi  (1 files) <-- HEAD"
    );
    let r = RevertReport {
        restored: strings(&["a", "b"]),
        removed: strings(&["c"]),
        skipped_extra: Vec::new(),
    };
    assert_eq!(cli::revert_detail(&id, &r), "abababababab restored 2 removed 1");
    assert_eq!(
        cli::revert_line(&id, &r),
        "reverted to abababababab: 2 restored, 1 removed, 0 extra kept"
    );
    let p = PullReport {
        remote_head: Some(id),
        manifests_fetched: 1,
        objects_fetched: 2,
        objects_skipped: 3,
    };
    assert_eq!(cli::pull_detail("h:1", &id, &p), "h:1 head abababababab objects 2");
    assert_eq!(cli::pull_line("h:1", &p), "pulled 1 manifests, 2 objects (3 skipped) from h:1");
    let ok = audit::VerifyReport { entries: 2, valid: true, first_bad: None };
    let bad = audit::VerifyReport { entries: 2, valid: false, first_bad: Some(2) };
    assert_eq!(cli::audit_line(&ok), "audit chain valid (2 entries)");
    assert_eq!(cli::audit_line(&bad), "audit chain BROKEN at seq Some(2)");
    let none = ObjectTally::new();
    assert_eq!(cli::objects_line(&none), "objects: 0 verified, 0 corrupt");
    assert!(cli::verify_verdict(Some(&none), &ok).is_ok());
    assert!(cli::verify_verdict(None, &ok).is_ok());
    assert_eq!(corrupt_text(cli::verify_verdict(Some(&none), &bad)), "audit chain invalid");
    let one = none.add(&store(), &"ab".repeat(32), ReadOutcome::Missing);
    assert_eq!(corrupt_text(cli::verify_verdict(Some(&one), &bad)), "object verification failed");
    assert_eq!(corrupt_text(cli::verify_verdict(None, &bad)), "audit chain invalid");
    assert_eq!(corrupt_text::<()>(Err(cli::revert_refused())), "revert refused");
    assert_eq!(
        cli::command_failed("tmutil", &strings(&["a", "b"]), " no \n").message(),
        "corrupt state: tmutil a b failed: no"
    );
}

#[test]
fn anchor_outcomes_are_told() {
    let mut v = anchor::VerifyOutcome {
        signer_pubkey: "k".into(),
        audit_len: 1,
        anchored_head: Some("a".into()),
        current_head: Some("a".into()),
        file_hash: "f".into(),
        prev_anchor: None,
    };
    assert_eq!(cli::head_line(&v), "HEAD unchanged since anchor");
    v.current_head = None;
    assert_eq!(cli::head_line(&v), "HEAD moved (normal — new snapshots): a -> none");
    let say = |r: Result<cli::LinkCheck>| match r {
        Ok(cli::LinkCheck::Say(t)) => t,
        _ => panic!("nothing said"),
    };
    assert_eq!(say(cli::link_check(&v, false)), "chain link: none (first anchor)");
    assert_eq!(
        corrupt_text(cli::link_check(&v, true)),
        "--prev given but anchor has no chain link"
    );
    v.prev_anchor = Some("0123456789abcdef".into());
    assert_eq!(
        say(cli::link_check(&v, false)),
        "chain link: anchors to 0123456789ab (pass --prev <file> to check it)"
    );
    assert!(matches!(cli::link_check(&v, true), Ok(cli::LinkCheck::Check)));
}
