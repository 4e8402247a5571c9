//! Whole operations on an in-memory worktree and store.

use respawn::anchor::{self, AnchorDoc, AnchorFile, AnchorPayload};
use respawn::audit::{self, AuditEntry, LogLine};
use respawn::capture::{
    commit, ignore_patterns, settle, unstable_notice, visit, Capture, Captured, Settle,
    SnapshotBuilder,
};
use respawn::cdc;
use respawn::cli;
use respawn::drift::{Baseline, DriftReport, Observed};
use respawn::guard;
use respawn::history::Stored;
use respawn::keychain::{self, KeychainRead, Lookup, Placement, TextRead};
use respawn::revert::{self, Apply, Decision, Live, RevertReport, Stat, Walked};
use respawn::secure;
use respawn::snapshot::{self, FileEntry, Manifest, ManifestFile};
use respawn::store::{Candidate, FileWrite, ObjectTally, ReadOutcome};
use respawn::sync::{self, FetchStep, Found, ManifestWalk, PullReport, WalkStep};
use respawn::wire::{self, Request};
use respawn::{Error, Result, Store};
use std::collections::{BTreeMap, HashSet};

#[derive(Clone)]
enum Node {
    File { data: Vec<u8>, mode: u32, mtime: u64 },
    Link,
}

/// A worktree at `/w` with its fabric, all in memory. Manifests are serialized
/// as their debug text; `known` is the parser.
struct World {
    store: Store,
    tree: BTreeMap<String, Node>,
    disk: BTreeMap<String, Vec<u8>>,
    known: BTreeMap<Vec<u8>, Manifest>,
    log: Vec<(String, AuditEntry)>,
    clock: u64,
}

fn empty_world() -> World {
    let (store, plan) = Store::init("/w", false);
    assert_eq!(plan.dirs, vec!["/w/.respawn/objects", "/w/.respawn/manifests"]);
    let mut disk = BTreeMap::new();
    disk.insert(plan.head.unwrap(), Vec::new());
    World {
        store,
        tree: BTreeMap::new(),
        disk,
        known: BTreeMap::new(),
        log: Vec::new(),
        clock: 1000,
    }
}

fn fixture() -> World {
    let mut w = empty_world();
    w.write("a.txt", b"hello");
    w.write("dir/b.txt", b"world");
    w.write("dir/deep/c.bin", &[7u8; 200_000]); // multi-chunk file
    w
}

fn small_fixture() -> World {
    let mut w = empty_world();
    w.write("a.txt", b"hello");
    w.write("dir/b.txt", b"world");
    w
}

impl World {
    fn write(&mut self, rel: &str, data: &[u8]) {
        self.clock += 1;
        let mtime = self.clock;
        self.tree.insert(
            rel.to_string(),
            Node::File { data: data.to_vec(), mode: 0o100644, mtime },
        );
    }

    fn content(&self, rel: &str) -> Option<Vec<u8>> {
        match self.tree.get(rel) {
            Some(Node::File { data, .. }) => Some(data.clone()),
            _ => None,
        }
    }

    fn perform(&mut self, w: FileWrite) {
        assert!(w.path.starts_with(&w.dir));
        self.disk.insert(w.path, w.data);
    }

    fn read(&self, path: &str) -> ReadOutcome {
        match self.disk.get(path) {
            Some(d) => ReadOutcome::Data(d.clone()),
            None => ReadOutcome::Missing,
        }
    }

    fn text(&self, name: &str) -> Option<String> {
        let path = format!("{}/{}", self.store.fabric_dir(), name);
        self.disk.get(&path).map(|d| String::from_utf8(d.clone()).unwrap())
    }

    fn head(&self) -> Result<Option<respawn::Hash>> {
        Store::head(self.text("HEAD").as_deref())
    }

    fn put_object(&mut self, data: &[u8]) -> Result<respawn::Hash> {
        let path = self.store.object_path(&respawn::hash_bytes(data));
        let present = self.disk.contains_key(&path);
        let (h, w) = self.store.put_object(data, present)?;
        if let Some(w) = w {
            self.perform(w);
        }
        Ok(h)
    }

    fn get_object(&self, h: &respawn::Hash) -> Result<Vec<u8>> {
        self.store.get_object(h, self.read(&self.store.object_path(h)))
    }

    fn has_object(&self, h: &respawn::Hash) -> bool {
        self.disk.contains_key(&self.store.object_path(h))
    }

    fn has_manifest(&self, h: &respawn::Hash) -> bool {
        self.disk.contains_key(&self.store.manifest_path(h))
    }

    fn parse(&self, bytes: &[u8]) -> std::result::Result<Manifest, String> {
        self.known.get(bytes).cloned().ok_or_else(|| "no manifest".to_string())
    }

    fn put_manifest(&mut self, m: &Manifest) -> respawn::Hash {
        let bytes = serialize(m);
        let present = self.has_manifest(&respawn::hash_bytes(&bytes));
        let (id, w) = self.store.put_manifest(&bytes, present);
        self.known.insert(bytes, m.clone());
        if let Some(w) = w {
            self.perform(w);
        }
        id
    }

    fn manifest_file(&self, id: &respawn::Hash) -> ManifestFile {
        match self.disk.get(&self.store.manifest_path(id)) {
            None => ManifestFile::Missing,
            Some(d) => ManifestFile::Data(d.clone(), self.parse(d)),
        }
    }

    fn load(&self, id: &respawn::Hash) -> Result<Manifest> {
        snapshot::load(id, self.manifest_file(id))
    }

    fn chunk_file(&mut self, data: &[u8]) -> Result<Captured> {
        let mut c = Capture::new();
        for piece in cdc::chunk_bytes(data)? {
            let present = self.has_object(&respawn::hash_bytes(&piece));
            let (next, w) = c.add(&self.store, &piece, present)?;
            if let Some(w) = w {
                self.perform(w);
            }
            c = next;
        }
        Ok(c.finish())
    }

    fn create(&mut self, message: &str) -> Result<respawn::Hash> {
        let ignore = self.content(".fabricignore").map(|d| String::from_utf8(d).unwrap());
        let patterns = ignore_patterns(ignore.as_deref());
        let mut b = SnapshotBuilder::new();
        for (rel, node) in self.tree.clone() {
            let is_file = matches!(node, Node::File { .. });
            let path = match visit(&rel, is_file, &patterns)? {
                Some(p) => p,
                None => continue,
            };
            if let Node::File { data, mode, mtime } = node {
                let captured = self.chunk_file(&data)?;
                b.add(&path, mode, Some((mtime, 5)), captured, true);
            }
        }
        self.clock += 1;
        let m = b.finish(self.head()?, self.clock, message);
        assert!(unstable_notice(&m).is_none());
        let bytes = serialize(&m);
        let present = self.has_manifest(&respawn::hash_bytes(&bytes));
        let made = commit(&self.store, &bytes, present);
        self.known.insert(bytes, m);
        if let Some(w) = made.manifest {
            self.perform(w);
        }
        self.perform(made.head);
        Ok(made.id)
    }

    fn detect(&self, m: &Manifest, full: bool) -> DriftReport {
        let ignore = self.content(".fabricignore").map(|d| String::from_utf8(d).unwrap());
        let b = Baseline::new(m.clone(), ignore_patterns(ignore.as_deref()), full);
        let mut walk = Vec::new();
        for (rel, node) in &self.tree {
            if let Node::File { data, mtime, .. } = node {
                let mut o = Observed {
                    rel: rel.clone(),
                    size: data.len() as u64,
                    modified: Some((*mtime, 5)),
                    content: None,
                };
                if b.needs_hash(&o) {
                    o.content = Some(respawn::hash_bytes(data));
                }
                walk.push(o);
            }
        }
        b.detect(&walk)
    }

    fn stat(&self, path: &str) -> Stat {
        let rel = path.strip_prefix("/w/").unwrap();
        match self.tree.get(rel) {
            Some(Node::Link) => Stat::Symlink,
            Some(Node::File { .. }) => Stat::Other,
            None => {
                let dir = format!("{rel}/");
                if self.tree.keys().any(|k| k.starts_with(&dir)) {
                    Stat::Dir
                } else {
                    Stat::Missing
                }
            }
        }
    }

    fn apply(&mut self, m: &Manifest, keep_extra: bool) -> Result<RevertReport> {
        self.apply_beside(m, keep_extra, &Vec::new())
    }

    fn apply_beside(
        &mut self,
        m: &Manifest,
        keep_extra: bool,
        standing: &Vec<String>,
    ) -> Result<RevertReport> {
        let mut a = Apply::begin(m.clone(), "/w")?;
        while let Some(dirs) = a.target() {
            let stats = dirs.iter().map(|d| self.stat(d)).collect();
            let placed = a.place(stats)?;
            let rel = placed.destination().strip_prefix("/w/").unwrap().to_string();
            let live = match self.tree.get(&rel) {
                Some(Node::File { data, .. }) => Live::File(respawn::hash_bytes(data)),
                _ => Live::Other,
            };
            a = match placed.decide(&live) {
                Decision::Keep(next, install) => {
                    assert_eq!(install.dest, format!("/w/{rel}"));
                    if let Some(Node::File { mode, .. }) = self.tree.get_mut(&rel) {
                        *mode = install.mode;
                    }
                    next
                }
                Decision::Write(mut w) => {
                    let mut out = Vec::new();
                    while let Some(h) = w.next_chunk() {
                        let read = self.read(&self.store.object_path(&h));
                        let (next, data) = w.add(&self.store, read)?;
                        out.extend_from_slice(&data);
                        w = next;
                    }
                    let (next, install) = w.finish()?;
                    assert_eq!(install.dest, format!("/w/{rel}"));
                    self.clock += 1;
                    self.tree.insert(
                        rel,
                        Node::File { data: out, mode: install.mode, mtime: self.clock },
                    );
                    next
                }
            };
        }
        let walk: Vec<Walked> = self
            .tree
            .keys()
            .map(|rel| Walked { rel: rel.clone(), removable: true })
            .collect();
        let sweep = a.extras(keep_extra, standing, &walk);
        for i in &sweep.remove {
            self.tree.remove(&walk[*i].rel);
        }
        Ok(a.finish(sweep))
    }

    fn check_then_apply(
        &mut self,
        m: &Manifest,
        keep_extra: bool,
        force: bool,
    ) -> Result<(DriftReport, Option<RevertReport>)> {
        let head = match self.head()? {
            Some(h) => Some(self.load(&h)?),
            None => None,
        };
        let (base, full) = revert::gate_baseline(head);
        let report = self.detect(&base, full);
        if !revert::check_then_apply(&report, force) {
            return Ok((report, None));
        }
        let r = self.apply(m, keep_extra)?;
        Ok((report, Some(r)))
    }

    fn names(&self) -> Vec<String> {
        let base = "/w/.respawn/manifests/";
        self.disk
            .keys()
            .filter_map(|p| p.strip_prefix(base))
            .map(|p| p.replacen('/', "", 1))
            .collect()
    }

    fn list(&self) -> Result<Vec<(respawn::Hash, Manifest)>> {
        let mut stored = Vec::new();
        for n in self.names() {
            if respawn::is_hash_name(&n) {
                let id = respawn::parse_hash(&n)?;
                stored.push(Stored { id, loaded: self.load(&id) });
            }
        }
        snapshot::list(self.head()?, stored)
    }

    fn lines(&self) -> Vec<LogLine> {
        self.log
            .iter()
            .map(|(t, e)| LogLine::Text(t.clone(), Some(copy_entry(e))))
            .collect()
    }

    fn record(&mut self, event: &str, detail: &str) {
        self.clock += 1;
        let e = audit::record(&self.lines(), self.clock, event, detail);
        self.log.push((format!("{e:?}"), e));
    }

    /// Answers a peer's frame.
    fn respond_frame(&self, frame: &[u8]) -> Result<Vec<u8>> {
        sync::respond(match wire::parse_request(frame)? {
            Request::GetHead => Found::Head(self.head()),
            Request::GetManifest(h) => Found::Manifest(if self.has_manifest(&h) {
                let read = self.read(&self.store.manifest_path(&h));
                Some(self.store.get_manifest_bytes(&h, read))
            } else {
                None
            }),
            Request::Have(hs) => Found::Have(hs.iter().map(|h| self.has_object(h)).collect()),
            Request::GetObject(h) => Found::Object(self.get_object(&h)),
        })
    }

    /// Pulls from whatever answers frames.
    fn pull(&mut self, peer: &mut dyn FnMut(&[u8]) -> Result<Vec<u8>>) -> Result<PullReport> {
        let resp = peer(&wire::head_request())?;
        let mut walk = match ManifestWalk::begin(&resp)? {
            None => return Ok(PullReport::default()),
            Some(w) => w,
        };
        loop {
            let here = self.has_manifest(&walk.wanted());
            match walk.ask(here)? {
                WalkStep::Known(w) => {
                    walk = w;
                    break;
                }
                WalkStep::Ask(asked, frame) => {
                    let resp = peer(&frame)?;
                    let data = asked.take(&resp)?;
                    let parsed = self.parse(&data);
                    let (next, more, w) = asked.follow(&self.store, &data, parsed)?;
                    self.perform(w.unwrap());
                    walk = next;
                    if !more {
                        break;
                    }
                }
            }
        }
        let mut fetch = walk.finish();
        loop {
            match fetch.next() {
                FetchStep::AskBatch(frame) => {
                    let resp = peer(&frame)?;
                    fetch = fetch.open(&resp)?;
                }
                FetchStep::PassOver => fetch = fetch.pass_over(),
                FetchStep::Look(h) => {
                    if self.has_object(&h) {
                        fetch = fetch.pass_over();
                    } else {
                        let resp = peer(&fetch.ask())?;
                        let (next, w) = fetch.take(&self.store, &resp)?;
                        self.perform(w.unwrap());
                        fetch = next;
                    }
                }
                FetchStep::Finished => break,
            }
        }
        let (report, note) = fetch.finish(&self.store, "127.0.0.1:4789");
        assert_eq!(note.path, "/w/.respawn/remotes/127.0.0.1_4789");
        self.disk.insert(note.path, note.text.into_bytes());
        Ok(report)
    }
}

fn serialize(m: &Manifest) -> Vec<u8> {
    format!("{m:?}").into_bytes()
}

fn copy_entry(e: &AuditEntry) -> AuditEntry {
    AuditEntry {
        seq: e.seq,
        ts: e.ts,
        event: e.event.clone(),
        detail: e.detail.clone(),
        prev: e.prev.clone(),
        hash: e.hash.clone(),
    }
}

fn manifest_with(path: &str, mode: u32) -> Manifest {
    Manifest {
        version: respawn::snapshot::MANIFEST_VERSION,
        parent: None,
        timestamp_secs: 0,
        message: String::new(),
        files: vec![FileEntry {
            path: path.to_string(),
            mode,
            size: 5,
            mtime_secs: 0,
            mtime_nanos: 0,
            content: respawn::hash_bytes(b"hello"),
            chunks: vec![],
        }],
        unstable: Vec::new(),
    }
}

fn scripted(script: Vec<Vec<u8>>) -> impl FnMut(&[u8]) -> Result<Vec<u8>> {
    let mut it = script.into_iter();
    move |_frame: &[u8]| it.next().ok_or_else(|| Error::Sync("connection closed".to_string()))
}

fn len_frame(data: &[u8]) -> Vec<u8> {
    let mut out = (data.len() as u64).to_le_bytes().to_vec();
    out.extend_from_slice(data);
    out
}

#[test]
fn snapshot_and_drift() {
    let mut w = fixture();
    let id = w.create("first").unwrap();
    assert_eq!(w.head().unwrap(), Some(id));

    let m = w.load(&id).unwrap();
    assert_eq!(m.files.len(), 3);
    assert!(m.parent.is_none());

    // Clean tree → no drift.
    let r = w.detect(&m, false);
    assert!(r.clean(), "{:?}", r);

    // Modify, add, delete → all three buckets report.
    w.write("a.txt", b"changed");
    w.write("new.txt", b"new");
    w.tree.remove("dir/b.txt");
    let r = w.detect(&m, false);
    assert_eq!(r.added, vec!["new.txt"]);
    assert_eq!(r.modified, vec!["a.txt"]);
    assert_eq!(r.deleted, vec!["dir/b.txt"]);
}

#[test]
fn revert_restores_exact_state() {
    let mut w = fixture();
    let v1 = w.create("v1").unwrap();
    w.write("a.txt", b"v2 content");
    w.write("extra.txt", b"extra");
    w.tree.remove("dir/b.txt");
    let v2 = w.create("v2").unwrap();

    // Refused without --force when dirty.
    w.write("a.txt", b"dirty");
    let m1 = w.load(&v1).unwrap();
    let (_, applied) = w.check_then_apply(&m1, false, false).unwrap();
    assert!(applied.is_none());

    // Forced revert to v1.
    let (_, applied) = w.check_then_apply(&m1, false, true).unwrap();
    let r = applied.unwrap();
    assert_eq!(w.content("a.txt").unwrap(), b"hello");
    assert_eq!(w.content("dir/b.txt").unwrap(), b"world");
    assert!(!w.tree.contains_key("extra.txt")); // removed: not in v1
    assert!(r.restored.contains(&"a.txt".to_string()));
    assert!(r.removed.contains(&"extra.txt".to_string()));
    assert_eq!(w.head().unwrap(), Some(v2)); // head unchanged until caller sets it
}

#[test]
fn revert_keep_extra() {
    let mut w = fixture();
    let v1 = w.create("v1").unwrap();
    w.write("keepme.txt", b"keep");
    let m1 = w.load(&v1).unwrap();
    let r = w.apply(&m1, true).unwrap();
    assert!(w.tree.contains_key("keepme.txt"));
    assert!(r.skipped_extra.contains(&"keepme.txt".to_string()));
}

#[test]
fn multi_chunk_file_roundtrip() {
    let mut w = fixture();
    w.create("").unwrap();
    w.tree.remove("dir/deep/c.bin");
    let head = w.head().unwrap().unwrap();
    let m = w.load(&head).unwrap();
    assert!(m.files[2].chunks.len() > 1);
    w.apply(&m, false).unwrap();
    assert_eq!(w.content("dir/deep/c.bin").unwrap(), vec![7u8; 200_000]);
}

#[test]
fn tampered_object_detected() {
    let mut w = fixture();
    w.create("").unwrap();
    let head = w.head().unwrap().unwrap();
    let m = w.load(&head).unwrap();
    let chunk = m.files.iter().find(|f| f.path == "a.txt").unwrap().chunks[0];

    // Corrupt the stored object on disk.
    let hex = respawn::hash_hex(&chunk);
    let obj = format!("/w/.respawn/objects/{}/{}", &hex[..2], &hex[2..]);
    let raw = w.disk.get_mut(&obj).unwrap();
    raw[0] ^= 0xff;

    // Read path verifies → error, not bad data.
    assert!(w.get_object(&chunk).is_err());
}

#[test]
fn audit_chain_detects_tamper() {
    let mut w = fixture();
    w.record("init", "test");
    w.record("snap", "abc");
    let r = audit::verify(w.lines()).unwrap();
    assert!(r.valid && r.entries == 2);

    // Edit a line → chain breaks.
    for (_, e) in w.log.iter_mut() {
        e.event = e.event.replace("snap", "span");
    }
    let r = audit::verify(w.lines()).unwrap();
    assert!(!r.valid);
    assert_eq!(r.first_bad, Some(1));
}

#[test]
fn sync_pull_replicates_objects() {
    // Source fabric with content.
    let mut src = fixture();
    let head = src.create("src v1").unwrap();

    // Fresh destination pulls everything.
    let mut dst = empty_world();
    dst.known = src.known.clone();
    let report = dst.pull(&mut |f| src.respond_frame(f)).unwrap();

    assert_eq!(report.remote_head, Some(head));
    assert!(report.manifests_fetched >= 1);
    assert!(report.objects_fetched >= 3);
    assert_eq!(dst.disk["/w/.respawn/remotes/127.0.0.1_4789"], respawn::hash_hex(&head).as_bytes());

    // Destination can materialize the remote snapshot locally.
    let m = dst.load(&head).unwrap();
    dst.write("seed.txt", b"seed"); // something to overwrite is fine
    let r = dst.apply(&m, false).unwrap();
    assert!(!r.restored.is_empty());
    assert_eq!(dst.content("a.txt").unwrap(), b"hello");
    assert_eq!(dst.content("dir/deep/c.bin").unwrap(), vec![7u8; 200_000]);

    // A second pull finds everything here.
    let again = dst.pull(&mut |f| src.respond_frame(f)).unwrap();
    assert_eq!(again.manifests_fetched, 0);
    assert_eq!(again.objects_fetched, 0);
}

#[test]
fn pull_from_a_peer_without_head() {
    let src = empty_world();
    let mut dst = empty_world();
    let report = dst.pull(&mut |f| src.respond_frame(f)).unwrap();
    assert_eq!(report.remote_head, None);
    assert_eq!(report.objects_fetched, 0);
}

#[test]
fn manifest_traversal_rejected() {
    for bad in [
        "../escape.txt",
        "../../etc/x",
        "/abs/x",
        "a/../../b",
        "a/./b",
        "",
    ] {
        let m = manifest_with(bad, 0o644);
        assert!(m.validate().is_err(), "accepted {bad:?}");
    }

    // Even if a bad manifest reaches the store (e.g. written directly),
    // load() and apply() both refuse it.
    let mut w = fixture();
    let m = manifest_with("../escape.txt", 0o644);
    let id = w.put_manifest(&m);
    assert!(w.load(&id).is_err());
    assert!(w.apply(&m, false).is_err());
    assert!(!w.tree.contains_key("escape.txt"));
}

#[test]
fn manifest_setuid_mode_stripped() {
    let mut w = fixture();
    let chunk = w.put_object(b"hello").unwrap();
    let mut m = manifest_with("evil.sh", 0o4777); // setuid + rwxrwxrwx
    m.files[0].chunks = vec![chunk];
    w.apply(&m, false).unwrap();

    match w.tree.get("evil.sh") {
        Some(Node::File { mode, .. }) => {
            let mode = *mode;
            assert_eq!(mode & 0o7000, 0, "special bits propagated: {mode:o}");
            assert_eq!(mode, 0o777);
        }
        _ => panic!("not restored"),
    }
}

#[test]
fn revert_replaces_symlink_not_target() {
    let mut w = fixture();
    let id = w.create("").unwrap();
    w.tree.insert("a.txt".to_string(), Node::Link);

    let m = w.load(&id).unwrap();
    w.apply(&m, false).unwrap();
    // The link was replaced by the snapshotted file.
    assert_eq!(w.content("a.txt").unwrap(), b"hello");
}

#[test]
fn revert_blocks_symlink_ancestor() {
    let mut w = fixture();

    // Manifest legitimately wants to write under dir/, but dir is now
    // a symlink out of the worktree.
    let chunk = w.put_object(b"payload").unwrap();
    let mut m = manifest_with("dir/pwned.txt", 0o644);
    m.files[0].chunks = vec![chunk];
    m.files[0].content = respawn::hash_bytes(b"payload");
    w.tree.retain(|k, _| !k.starts_with("dir/"));
    w.tree.insert("dir".to_string(), Node::Link);

    match w.apply(&m, false) {
        Err(Error::UnsafePath(p)) => {
            assert_eq!(p, "dir/pwned.txt passes through symlink /w/dir")
        }
        _ => panic!("wrote through a symlink"),
    }
    assert!(!w.tree.contains_key("dir/pwned.txt"));
}

#[test]
fn revert_blocks_file_ancestor() {
    let mut w = empty_world();
    let mut m = manifest_with("x/y.txt", 0o644);
    m.files[0].chunks = vec![w.put_object(b"hello").unwrap()];
    w.write("x", b"a file");
    match w.apply(&m, false) {
        Err(Error::UnsafePath(p)) => assert_eq!(p, "x/y.txt blocked by non-directory /w/x"),
        _ => panic!("a file is no directory"),
    }
}

#[test]
fn revert_refuses_content_that_does_not_match() {
    let mut w = empty_world();
    let mut m = manifest_with("x.txt", 0o644);
    m.files[0].chunks = vec![w.put_object(b"other").unwrap()];
    match w.apply(&m, false) {
        Err(Error::Corrupt(t)) => assert_eq!(t, "reconstructed content mismatch for x.txt"),
        _ => panic!("accepted the wrong content"),
    }
    assert!(!w.tree.contains_key("x.txt"));

    // A chunk that is not there is named.
    let gone = respawn::hash_bytes(b"gone");
    m.files[0].chunks = vec![gone];
    assert!(matches!(w.apply(&m, false), Err(Error::MissingObject(h)) if h == gone));
}

#[test]
fn pull_short_frames_error_not_panic() {
    let mut w = empty_world();

    // Truncated HEAD response: 2 bytes, need 33.
    assert!(w.pull(&mut scripted(vec![vec![1u8, 0xAA]])).is_err());

    // Valid HEAD, then a 3-byte manifest response.
    let head = respawn::hash_bytes(b"x");
    let mut head_resp = vec![1u8];
    head_resp.extend_from_slice(&head);
    match w.pull(&mut scripted(vec![head_resp, vec![0, 1, 2]])) {
        Err(Error::Sync(m)) => assert_eq!(m, "short frame"),
        _ => panic!("accepted a short frame"),
    }
}

#[test]
fn pull_rejects_traversal_manifest_over_wire() {
    let mut w = empty_world();
    let evil = manifest_with("../owned.txt", 0o644);
    let bytes = serialize(&evil);
    w.known.insert(bytes.clone(), evil);
    let id = respawn::hash_bytes(&bytes);
    let mut head_resp = vec![1u8];
    head_resp.extend_from_slice(&id);
    match w.pull(&mut scripted(vec![head_resp, len_frame(&bytes)])) {
        Err(Error::UnsafePath(p)) => assert_eq!(p, "../owned.txt"),
        _ => panic!("accepted a traversal"),
    }
    // Nor is it stored, where a later pull would take it for known.
    assert!(!w.has_manifest(&id));
}

#[test]
fn pull_survives_hostile_frame_lengths() {
    let mut w = empty_world();

    // A manifest response whose u64 length field is u64::MAX: the client
    // must error, never crash.
    let head = respawn::hash_bytes(b"x");
    let mut head_resp = vec![1u8];
    head_resp.extend_from_slice(&head);
    let mut evil = u64::MAX.to_le_bytes().to_vec();
    evil.extend_from_slice(b"tiny");
    match w.pull(&mut scripted(vec![head_resp, evil])) {
        Err(Error::Sync(m)) => assert_eq!(m, "truncated frame payload"),
        _ => panic!("accepted a hostile length"),
    }
}

#[test]
fn pull_rejects_bytes_under_a_foreign_hash() {
    let mut w = empty_world();
    let mut head_resp = vec![1u8];
    head_resp.extend_from_slice(&respawn::hash_bytes(b"x"));
    match w.pull(&mut scripted(vec![head_resp.clone(), len_frame(b"y")])) {
        Err(Error::Corrupt(m)) => assert_eq!(m, "manifest hash mismatch"),
        _ => panic!("accepted foreign bytes"),
    }
    match w.pull(&mut scripted(vec![head_resp, len_frame(b"")])) {
        Err(Error::Sync(m)) => assert_eq!(
            m,
            format!("remote missing manifest {}", respawn::short(&respawn::hash_bytes(b"x")))
        ),
        _ => panic!("accepted a missing manifest"),
    }
}

#[test]
fn pull_rejects_a_poisoned_object() {
    let mut src = small_fixture();
    let head = src.create("s").unwrap();
    let mut dst = empty_world();
    dst.known = src.known.clone();
    let mut peer = |f: &[u8]| {
        if f[0] == wire::OP_GET_OBJECT {
            Ok(len_frame(b"poison"))
        } else {
            src.respond_frame(f)
        }
    };
    match dst.pull(&mut peer) {
        Err(Error::Corrupt(m)) => assert!(m.ends_with(" failed content verification")),
        _ => panic!("accepted poison"),
    }
    assert!(dst.has_manifest(&head));
    assert!(!dst.has_object(&respawn::hash_bytes(b"poison")));
}

#[test]
fn pull_notices_a_truncated_have() {
    let mut src = small_fixture();
    src.create("s").unwrap();
    let mut dst = empty_world();
    dst.known = src.known.clone();
    let mut peer = |f: &[u8]| {
        let mut r = src.respond_frame(f)?;
        if f[0] == wire::OP_HAVE {
            r.pop();
        }
        Ok(r)
    };
    match dst.pull(&mut peer) {
        Err(Error::Sync(m)) => assert_eq!(m, "HAVE response truncated"),
        _ => panic!("accepted a truncated HAVE"),
    }
}

#[test]
fn pull_skips_what_the_peer_lacks() {
    let mut src = small_fixture();
    src.create("s").unwrap();
    let gone = respawn::hash_bytes(b"hello");
    let path = src.store.object_path(&gone);
    src.disk.remove(&path);
    let mut dst = empty_world();
    dst.known = src.known.clone();
    let report = dst.pull(&mut |f| src.respond_frame(f)).unwrap();
    assert_eq!(report.objects_fetched, 1);
    assert_eq!(report.objects_skipped, 1);
}

#[test]
fn mtime_forgery_caught_by_full_scan() {
    let mut w = fixture();
    let id = w.create("").unwrap();
    let m = w.load(&id).unwrap();
    let fe = m.files.iter().find(|f| f.path == "a.txt").unwrap();

    // Attacker modifies content but restores size+mtime exactly.
    w.tree.insert(
        "a.txt".to_string(),
        Node::File { data: b"FORGE".to_vec(), mode: 0o644, mtime: fe.mtime_secs },
    );

    assert!(w.detect(&m, false).clean());
    let r = w.detect(&m, true);
    assert_eq!(r.modified, vec!["a.txt"]);
}

#[test]
fn junk_files_dont_break_store_scans() {
    let mut w = fixture();
    let id = w.create("").unwrap();

    // Drop foreign files into the fan-out dirs.
    let hex = respawn::hash_hex(&id);
    w.disk.insert(format!("/w/.respawn/manifests/{}/junk", &hex[..2]), b"x".to_vec());
    w.disk.insert("/w/.respawn/objects/zz".to_string(), b"x".to_vec());

    let names = w.names();
    let head = w.text("HEAD");
    assert_eq!(
        snapshot::resolve(&respawn::hash_hex(&id), head.as_deref(), &names).unwrap(),
        id
    );
    assert_eq!(snapshot::resolve(&hex[..6], head.as_deref(), &names).unwrap(), id);
    assert_eq!(snapshot::resolve("head", head.as_deref(), &names).unwrap(), id);
    assert!(w.list().unwrap().iter().any(|(i, _)| *i == id));
}

#[test]
fn manifest_diff() {
    let mut w = fixture();
    let v1 = w.create("v1").unwrap();
    w.write("a.txt", b"changed");
    w.write("added.txt", b"x");
    w.tree.remove("dir/b.txt");
    let v2 = w.create("v2").unwrap();

    let m1 = w.load(&v1).unwrap();
    let m2 = w.load(&v2).unwrap();
    assert_eq!(m2.parent, Some(v1));
    let (added, modified, deleted) = snapshot::diff_manifests(&m2, &m1);
    assert_eq!(added, vec!["added.txt"]);
    assert_eq!(modified, vec!["a.txt"]);
    assert_eq!(deleted, vec!["dir/b.txt"]);

    // Back again: added and deleted change places.
    let (added, modified, deleted) = snapshot::diff_manifests(&m1, &m2);
    assert_eq!(added, vec!["dir/b.txt"]);
    assert_eq!(modified, vec!["a.txt"]);
    assert_eq!(deleted, vec!["added.txt"]);
}

#[test]
fn snapshots_are_listed_newest_first() {
    let mut w = small_fixture();
    let v1 = w.create("one").unwrap();
    w.write("a.txt", b"two");
    let v2 = w.create("two").unwrap();

    // An orphan from a peer, older than both, and one that does not load.
    let mut orphan = manifest_with("o.txt", 0o644);
    orphan.files[0].chunks = vec![respawn::hash_bytes(b"hello")];
    orphan.timestamp_secs = 5;
    let o = w.put_manifest(&orphan);
    w.put_manifest(&manifest_with("../bad", 0o644));

    let all = w.list().unwrap();
    let ids: Vec<respawn::Hash> = all.iter().map(|(i, _)| *i).collect();
    assert_eq!(ids, vec![v2, v1, o]);

    // A manifest on HEAD's chain has to load.
    let path = w.store.manifest_path(&v1);
    w.disk.remove(&path);
    assert!(matches!(w.list(), Err(Error::MissingObject(h)) if h == v1));
}

#[test]
fn a_parent_cycle_ends_the_walk() {
    let mut w = empty_world();
    let mut m = manifest_with("a", 0o644);
    m.files.clear();
    let id = respawn::hash_bytes(b"some id");
    m.parent = Some(id);
    let stored = vec![Stored { id, loaded: Ok(m) }];
    let all = snapshot::list(Some(id), stored).unwrap();
    assert_eq!(all.len(), 1);
    assert!(w.list().unwrap().is_empty());
    w.create("").unwrap();
    assert_eq!(w.list().unwrap().len(), 1);
}

// ---------- guard ----------

/// Runs `child` on the tree under guard.
fn guarded(
    w: &mut World,
    argv: &[&str],
    policy: guard::RevertPolicy,
    child: impl FnOnce(&mut World) -> Option<i32>,
) -> Result<guard::GuardReport> {
    let argv: Vec<String> = argv.iter().map(|s| s.to_string()).collect();
    let (display, message) = guard::begin(&argv)?;
    let prev = w.head()?;
    let snap = w.create(&message)?;
    let standing: Vec<String> = w.tree.keys().cloned().collect();
    let outcome = match child(w) {
        Some(c) => guard::Spawned::Ended(guard::Exit {
            succeeded: c == 0,
            code: Some(c),
            signal: None,
        }),
        None => guard::Spawned::Failed(std::io::Error::other("no such command")),
    };
    let ran = match guard::after_run(&w.store, prev.as_ref(), snap, policy, outcome) {
        guard::GuardNext::Undo(head, e) => {
            w.perform(head);
            return Err(e);
        }
        guard::GuardNext::Look(ran) => ran,
    };
    let m = w.load(&snap)?;
    let observed = ran.observe(w.detect(&m, false));
    if observed.restores() {
        w.apply_beside(&m, false, &standing)?;
    }
    let end = observed.finish(&w.store, &display);
    w.perform(end.head);
    w.record("guard", &end.detail);
    Ok(end.report)
}

#[test]
fn guard_reports_drift_and_child_exit() {
    let mut w = small_fixture();
    let prev = w.create("baseline").unwrap();

    let report = guarded(
        &mut w,
        &["sh", "-c", "echo agent-output > agent.txt && echo changed > a.txt"],
        guard::RevertPolicy::Never,
        |w| {
            w.write("agent.txt", b"agent-output\n");
            w.write("a.txt", b"changed\n");
            Some(0)
        },
    )
    .unwrap();

    assert_eq!(report.exit_code, Some(0));
    assert!(report.drift.added.contains(&"agent.txt".to_string()));
    assert!(report.drift.modified.contains(&"a.txt".to_string()));
    assert!(!report.reverted);
    // HEAD advanced to the guard snapshot, parent chain intact.
    let head = w.head().unwrap().unwrap();
    assert_eq!(head, report.snapshot);
    assert_eq!(w.load(&head).unwrap().parent, Some(prev));
    assert_eq!(
        w.log[0].1.detail,
        "sh -c echo agent-output > agent.txt && echo changed > a.txt exit 0 drift +1 ~1 -0"
    );
}

#[test]
fn guard_onfail_reverts_only_on_failure() {
    // Failing command → reverted.
    let mut w = small_fixture();
    let report = guarded(
        &mut w,
        &["sh", "-c", "echo bad > damage.txt; exit 3"],
        guard::RevertPolicy::OnFail,
        |w| {
            w.write("damage.txt", b"bad\n");
            Some(3)
        },
    )
    .unwrap();
    assert_eq!(report.exit_code, Some(3));
    assert!(report.reverted);
    assert!(!w.tree.contains_key("damage.txt"));
    assert_eq!(report.process_exit_code(), 3);

    // Succeeding command → kept.
    let mut w2 = small_fixture();
    let report2 = guarded(
        &mut w2,
        &["sh", "-c", "echo ok > keep.txt"],
        guard::RevertPolicy::OnFail,
        |w| {
            w.write("keep.txt", b"ok\n");
            Some(0)
        },
    )
    .unwrap();
    assert!(!report2.reverted);
    assert!(w2.tree.contains_key("keep.txt"));
}

#[test]
fn guard_always_reverts() {
    let mut w = small_fixture();
    let report = guarded(
        &mut w,
        &["sh", "-c", "echo x > a.txt"],
        guard::RevertPolicy::Always,
        |w| {
            w.write("a.txt", b"x\n");
            Some(0)
        },
    )
    .unwrap();
    assert_eq!(report.exit_code, Some(0));
    assert!(report.reverted);
    assert_eq!(w.content("a.txt").unwrap(), b"hello");
}

#[test]
fn guard_spawn_failure_restores_head() {
    let mut w = small_fixture();
    let prev = w.create("before").unwrap();
    assert!(guarded(
        &mut w,
        &["/definitely/not/a/binary"],
        guard::RevertPolicy::Never,
        |_| None,
    )
    .is_err());
    // The guard snapshot must not masquerade as a checkpoint.
    assert_eq!(w.head().unwrap(), Some(prev));
}

#[test]
fn guard_spawn_failure_leaves_no_trace() {
    // Even where everything is restored, and where there was no HEAD.
    let mut w = small_fixture();
    let r = guarded(&mut w, &["nothing"], guard::RevertPolicy::Always, |_| None);
    match r {
        Err(Error::Io(e)) => assert_eq!(e.to_string(), "no such command"),
        _ => panic!("nothing ran"),
    }
    assert_eq!(w.head().unwrap(), None);
    assert!(w.log.is_empty());
}

#[test]
fn guard_leaves_what_its_snapshot_left_out() {
    let mut w = small_fixture();
    w.write(".fabricignore", b"secrets/\n");
    w.write("secrets/key", b"not in any snapshot");
    w.tree.insert("link".to_string(), Node::Link);
    let report = guarded(&mut w, &["make"], guard::RevertPolicy::Always, |w| {
        w.write("made.txt", b"made");
        w.tree.insert("made-link".to_string(), Node::Link);
        w.write("secrets/made", b"made too");
        Some(0)
    })
    .unwrap();
    assert!(report.reverted);
    // What stood there before the run still does; what it made is gone.
    assert_eq!(w.content("secrets/key").unwrap(), b"not in any snapshot");
    assert!(matches!(w.tree.get("link"), Some(Node::Link)));
    assert!(!w.tree.contains_key("made.txt"));
    assert!(!w.tree.contains_key("made-link"));
    assert!(!w.tree.contains_key("secrets/made"));
    assert_eq!(w.head().unwrap(), Some(report.snapshot));
    // A revert that was asked for sweeps all that the snapshot does not know.
    let m = w.load(&report.snapshot).unwrap();
    let r = w.apply(&m, false).unwrap();
    assert_eq!(r.removed, vec!["link", "secrets/key"]);
}

#[test]
fn revert_materializes_every_file() {
    let mut w = fixture();
    w.write("same.txt", b"same");
    let id = w.create("s").unwrap();
    let m = w.load(&id).unwrap();
    w.write("a.txt", b"changed");
    w.tree.remove("dir/b.txt");
    w.tree.insert("dir/deep/c.bin".to_string(), Node::Link);
    w.write("same.txt", b"same");
    let r = w.apply(&m, true).unwrap();
    // What is restored is what differed, a link in a file's place among it.
    assert_eq!(r.restored, vec!["a.txt", "dir/b.txt", "dir/deep/c.bin"]);
    for f in &m.files {
        match w.tree.get(&f.path) {
            Some(Node::File { data, mode, .. }) => {
                assert_eq!(respawn::hash_bytes(data), f.content);
                assert_eq!(*mode, f.mode & 0o777);
            }
            _ => panic!("{} is not there", f.path),
        }
    }
    assert!(w.apply(&m, true).unwrap().restored.is_empty());
}

#[test]
fn revert_restores_the_mode_of_a_kept_file() {
    let mut w = small_fixture();
    let id = w.create("s").unwrap();
    let m = w.load(&id).unwrap();
    if let Some(Node::File { mode, .. }) = w.tree.get_mut("a.txt") {
        *mode = 0o100777;
    }
    let r = w.apply(&m, false).unwrap();
    assert!(r.restored.is_empty());
    match w.tree.get("a.txt") {
        Some(Node::File { mode, .. }) => assert_eq!(*mode, 0o644),
        _ => panic!("the file is gone"),
    }
}

#[test]
fn created_snapshots_chain_from_head() {
    let mut w = small_fixture();
    let first = w.create("one").unwrap();
    assert_eq!(w.head().unwrap(), Some(first));
    assert_eq!(w.load(&first).unwrap().parent, None);
    let before = w.tree.len();
    let second = w.create("two").unwrap();
    let m = w.load(&second).unwrap();
    assert_eq!(w.head().unwrap(), Some(second));
    assert_eq!((m.parent, m.message.as_str(), m.version), (Some(first), "two", 3));
    assert_eq!(second, respawn::hash_bytes(&serialize(&m)));
    assert_eq!(w.tree.len(), before);
    assert!(w.disk.keys().all(|p| p.starts_with("/w/.respawn/")));
}

#[test]
fn objects_are_tallied() {
    let mut w = small_fixture();
    let a = w.put_object(b"a").unwrap();
    let b = w.put_object(b"b").unwrap();
    let name = |h: &respawn::Hash| respawn::hash_hex(h);
    assert_eq!(ObjectTally::object_of(&name(&a)), Some(a));
    assert_eq!(ObjectTally::object_of(&format!("{}.tmp", name(&a))), None);
    assert_eq!(ObjectTally::object_of(&name(&a).to_uppercase()), None);
    let data = |h: &respawn::Hash| w.read(&w.store.object_path(h));
    let t = ObjectTally::new()
        .add(&w.store, &name(&a), data(&a))
        .add(&w.store, "stray.tmp", data(&a));
    assert_eq!((t.verified(), t.corrupt()), (1, 0));
    let fine = audit::VerifyReport { entries: 0, valid: true, first_bad: None };
    assert!(cli::verify_verdict(Some(&t), &fine).is_ok());
    // Another object's content, bytes that do not decode, and nothing at all.
    let t = t
        .add(&w.store, &name(&b), data(&a))
        .add(&w.store, &name(&b), ReadOutcome::Data(b"junk".to_vec()))
        .add(&w.store, &name(&b), ReadOutcome::Missing)
        .add(&w.store, &name(&b), data(&b));
    assert_eq!(cli::objects_line(&t), "objects: 2 verified, 3 corrupt");
    match cli::verify_verdict(Some(&t), &fine) {
        Err(Error::Corrupt(m)) => assert_eq!(m, "object verification failed"),
        _ => panic!("missed a corrupt object"),
    }
}

#[test]
fn guard_requires_a_command() {
    match guard::begin(&Vec::new()) {
        Err(Error::Corrupt(m)) => assert_eq!(m, "guard requires a command"),
        _ => panic!("a guard without a command"),
    }
}

// ---------- anchors ----------

/// A key, kept where there is no Keychain.
fn keygen(w: &mut World) -> Result<String> {
    let path = keychain::secret_path(&w.store);
    let (seed, pk) =
        anchor::keygen(keychain::key_exists(w.disk.contains_key(&path), &KeychainRead::Off))?;
    fabric_id(w)?;
    let (placement, note) = keychain::put(&w.store, None);
    assert_eq!(placement, Placement::File);
    assert!(note.is_none());
    w.disk.insert(path, keychain::secret_text(&seed).into_bytes());
    Ok(pk)
}

fn fabric_id(w: &mut World) -> Result<String> {
    let read = match w.text("fabric_id") {
        Some(t) => TextRead::Text(t),
        None => TextRead::Missing,
    };
    let (id, new) = anchor::fabric_id(read)?;
    if new {
        w.disk.insert(anchor::fabric_id_path(&w.store), id.clone().into_bytes());
    }
    Ok(id)
}

fn seed(w: &World) -> Result<respawn::Hash> {
    let read = match w.text("anchor.secret") {
        Some(t) => TextRead::Text(t),
        None => TextRead::Missing,
    };
    match keychain::get(KeychainRead::Off, keychain::read_secret_file(read))? {
        Lookup::Key(raw, Placement::File) => Ok(raw),
        _ => panic!("there is no Keychain here"),
    }
}

fn make_anchor(w: &mut World, out: &str) -> Result<AnchorDoc> {
    anchor::check_outside("/", out, &w.store.fabric_dir())?;
    let seed = seed(w)?;
    let tip = audit::tip(w.lines())?;
    let last = w.text("last_anchor");
    let payload = anchor::statement(fabric_id(w)?, tip, w.head()?, last.as_deref(), w.clock);
    let text = format!("{payload:?}");
    let file = anchor::sign(&seed, &text);
    let bytes = format!("{file:?}").into_bytes();
    w.disk.insert(anchor::last_anchor_path(&w.store), anchor::link_of(&bytes).into_bytes());
    Ok(AnchorDoc { bytes, file: Ok(file), payload: Ok(payload) })
}

fn copy_doc(d: &AnchorDoc) -> AnchorDoc {
    let f = d.file.as_ref().unwrap();
    let p = d.payload.as_ref().unwrap();
    AnchorDoc {
        bytes: d.bytes.clone(),
        file: Ok(AnchorFile {
            format: f.format.clone(),
            pubkey: f.pubkey.clone(),
            payload: f.payload.clone(),
            sig: f.sig.clone(),
        }),
        payload: Ok(AnchorPayload {
            kind: p.kind.clone(),
            version: p.version,
            fabric_id: p.fabric_id.clone(),
            audit_len: p.audit_len,
            audit_tip: p.audit_tip.clone(),
            head: p.head.clone(),
            prev_anchor: p.prev_anchor.clone(),
            ts: p.ts,
        }),
    }
}

fn verify_anchor(w: &mut World, d: &AnchorDoc, key: Option<&str>) -> Result<anchor::VerifyOutcome> {
    anchor::check_signer(d, key)?;
    let id = fabric_id(w);
    let log = if w.log.is_empty() { None } else { Some(w.lines()) };
    let head = w.text("HEAD");
    anchor::verify(copy_doc(d), key, id, log, head.as_deref())
}

#[test]
fn anchor_roundtrip_and_append_tolerance() {
    let mut w = small_fixture();
    let pubkey = keygen(&mut w).unwrap();
    assert_eq!(pubkey, anchor::pubkey(&seed(&w).unwrap()));
    w.create("s1").unwrap();
    w.record("snap", "x");

    let doc = make_anchor(&mut w, "/outside/anchor.json").unwrap();
    let out = verify_anchor(&mut w, &doc, Some(&pubkey)).unwrap();
    assert!(out.audit_len >= 1);
    assert_eq!(out.signer_pubkey, pubkey);
    assert_eq!(out.anchored_head, out.current_head);
    assert_eq!(out.file_hash, w.text("last_anchor").unwrap());

    // Later audit entries are legitimate continuation.
    w.record("post-anchor", "work");
    verify_anchor(&mut w, &doc, Some(&pubkey)).unwrap();
    // The case of the pinned key does not matter.
    verify_anchor(&mut w, &doc, Some(&pubkey.to_uppercase())).unwrap();

    // Wrong pinned key → refusal.
    assert!(verify_anchor(&mut w, &doc, Some(&"0".repeat(64))).is_err());
    assert_eq!(anchor::verify_detached_bytes(copy_doc(&doc)).unwrap(), pubkey);
}

#[test]
fn anchor_catches_rewritten_and_truncated_history() {
    let mut w = small_fixture();
    keygen(&mut w).unwrap();
    w.record("a", "1");
    w.record("b", "2");
    w.record("c", "3");
    let doc = make_anchor(&mut w, "/outside/anchor.json").unwrap();

    // Wholesale replacement: a fresh, internally-consistent log is
    // exactly what an internal chain cannot detect; the anchor must.
    let original: Vec<(String, AuditEntry)> =
        w.log.iter().map(|(t, e)| (t.clone(), copy_entry(e))).collect();
    w.log.clear();
    w.record("fresh", "log");
    assert!(audit::verify(w.lines()).unwrap().valid); // internally consistent
    match verify_anchor(&mut w, &doc, None) {
        Err(Error::Corrupt(m)) => {
            assert_eq!(m, "audit log truncated: anchor covers 3 entries, only 1 present")
        }
        _ => panic!("anchored prefix gone"),
    }

    // A fresh log of the same length has another tip.
    w.record("fresh", "two");
    w.record("fresh", "three");
    match verify_anchor(&mut w, &doc, None) {
        Err(Error::Corrupt(m)) => assert_eq!(
            m,
            "audit tip diverged from anchor — covered history was altered"
        ),
        _ => panic!("history was replaced"),
    }

    // Truncation of the tail also fails the prefix check.
    w.log = original.into_iter().take(1).collect();
    assert!(verify_anchor(&mut w, &doc, None).is_err());

    // And so does a log that is gone.
    w.log.clear();
    match verify_anchor(&mut w, &doc, None) {
        Err(Error::Corrupt(m)) => assert_eq!(m, "audit log missing since anchor"),
        _ => panic!("the log is gone"),
    }
}

#[test]
fn anchor_refuses_to_live_inside_fabric() {
    let mut w = small_fixture();
    keygen(&mut w).unwrap();
    // An anchor inside .respawn/ can be replaced with the log it proves.
    assert!(make_anchor(&mut w, "/w/.respawn/anchor.json").is_err());
    assert!(make_anchor(&mut w, "/w/.respawn/objects/x.json").is_err());
    // Also where the directories on the way are not there yet.
    assert!(make_anchor(&mut w, "/w/.respawn/not/there/x.json").is_err());
    assert!(make_anchor(&mut w, "/w/not/there/../.././.respawn/x.json").is_err());
    assert!(anchor::check_outside("/w/.respawn", "x.json", "/w/.respawn").is_err());
    assert!(anchor::check_outside("/w/.respawn", "../x.json", "/w/.respawn").is_ok());
    // A name that merely begins like the fabric's is outside.
    assert!(make_anchor(&mut w, "/w/.respawn-anchors/x.json").is_ok());
}

#[test]
fn anchor_rejects_foreign_fabric() {
    let mut w1 = small_fixture();
    keygen(&mut w1).unwrap();
    w1.record("x", "y");
    let doc = make_anchor(&mut w1, "/outside/a.json").unwrap();

    // Same file, different fabric → fabric_id mismatch.
    let mut w2 = small_fixture();
    match verify_anchor(&mut w2, &doc, None) {
        Err(Error::Corrupt(m)) => assert_eq!(m, "anchor belongs to a different fabric"),
        _ => panic!("accepted a foreign anchor"),
    }
}

#[test]
fn keygen_never_overwrites() {
    let mut w = small_fixture();
    keygen(&mut w).unwrap();
    match keygen(&mut w) {
        Err(Error::Corrupt(m)) => assert_eq!(m, "anchor key already exists"),
        _ => panic!("clobbered the key"),
    }
}

#[test]
fn anchors_chain_pairwise() {
    let mut w = small_fixture();
    keygen(&mut w).unwrap();
    w.record("a", "1");
    let first = make_anchor(&mut w, "/o/1.json").unwrap();
    let second = make_anchor(&mut w, "/o/2.json").unwrap();
    let third = make_anchor(&mut w, "/o/3.json").unwrap();

    anchor::verify_link(copy_doc(&second), copy_doc(&first)).unwrap();
    anchor::verify_link(copy_doc(&third), copy_doc(&second)).unwrap();
    match anchor::verify_link(copy_doc(&third), copy_doc(&first)) {
        Err(Error::Corrupt(m)) => assert_eq!(m, "anchor does not chain to the given predecessor"),
        _ => panic!("a member was left out"),
    }
    match anchor::verify_link(copy_doc(&first), copy_doc(&second)) {
        Err(Error::Corrupt(m)) => {
            assert_eq!(m, "anchor has no chain link (first anchor, or pre-chain format)")
        }
        _ => panic!("the first anchor has no link"),
    }
}

#[test]
fn anchor_faults_are_told_apart() {
    let mut w = small_fixture();
    keygen(&mut w).unwrap();
    let doc = make_anchor(&mut w, "/o/1.json").unwrap();
    let fault = |change: &dyn Fn(&mut AnchorDoc)| {
        let mut d = copy_doc(&doc);
        change(&mut d);
        match anchor::verify_detached_bytes(d) {
            Err(Error::Corrupt(m)) => m,
            _ => panic!("accepted"),
        }
    };
    assert_eq!(
        fault(&|d| d.file = Err("bad".to_string())),
        "anchor file unparsable: bad"
    );
    assert_eq!(
        fault(&|d| d.file.as_mut().unwrap().format = "x".to_string()),
        "unknown anchor format x"
    );
    assert_eq!(
        fault(&|d| d.file.as_mut().unwrap().pubkey = "zz".to_string()),
        "anchor pubkey is not hex"
    );
    assert_eq!(
        fault(&|d| d.file.as_mut().unwrap().pubkey = "00".to_string()),
        "anchor pubkey is not 32 bytes"
    );
    assert_eq!(
        fault(&|d| d.file.as_mut().unwrap().pubkey = format!("02{}", "00".repeat(31))),
        "anchor pubkey is not a valid ed25519 key"
    );
    assert_eq!(
        fault(&|d| d.file.as_mut().unwrap().sig = "x".to_string()),
        "anchor sig is not hex"
    );
    assert_eq!(
        fault(&|d| d.file.as_mut().unwrap().sig = "00".to_string()),
        "anchor sig is not 64 bytes"
    );
    assert_eq!(
        fault(&|d| d.file.as_mut().unwrap().payload.push(' ')),
        "anchor signature invalid"
    );
    assert_eq!(
        fault(&|d| d.payload = Err("worse".to_string())),
        "anchor payload unparsable: worse"
    );
    assert_eq!(
        fault(&|d| d.payload.as_mut().unwrap().version = 2),
        "anchor payload version/type mismatch"
    );
}

#[test]
fn anchor_verify_rejects_oversized_file() {
    let mut w = small_fixture();
    keygen(&mut w).unwrap();
    let doc = make_anchor(&mut w, "/o/1.json").unwrap();
    let oversized = |r: Option<Error>| match r {
        Some(Error::Corrupt(m)) => assert_eq!(m, "anchor file exceeds 4194304 bytes"),
        _ => panic!("read an oversized file"),
    };
    let mut big = copy_doc(&doc);
    big.bytes = vec![b' '; 5 * 1024 * 1024];
    oversized(anchor::verify_detached(copy_doc(&big)).err());
    oversized(verify_anchor(&mut w, &big, None).err());
    oversized(anchor::verify_link(copy_doc(&big), copy_doc(&doc)).err());
    oversized(anchor::verify_link(copy_doc(&doc), copy_doc(&big)).err());
    assert!(anchor::check_size(4 * 1024 * 1024).is_ok());
    assert!(anchor::verify_detached(copy_doc(&doc)).is_ok());
    big.bytes.truncate(4 * 1024 * 1024);
    assert!(anchor::verify_detached(big).is_ok());
}

#[test]
fn anchor_that_does_not_stand_mints_no_id() {
    let mut w = small_fixture();
    keygen(&mut w).unwrap();
    let mut doc = make_anchor(&mut w, "/o/1.json").unwrap();
    let mut other = small_fixture();
    assert!(verify_anchor(&mut other, &doc, Some(&"0".repeat(64))).is_err());
    doc.file.as_mut().unwrap().payload.push(' ');
    assert!(verify_anchor(&mut other, &doc, None).is_err());
    assert_eq!(other.text("fabric_id"), None);
}

// ---------- secured sync ----------

/// Runs the handshake between two ends.
fn channels(client: &str, server: &str) -> Result<(secure::Channel, secure::Channel)> {
    let (ini, first) = secure::Initiator::start(&secure::derive_psk(client))?;
    let (s, reply) = secure::respond_handshake(&secure::derive_psk(server), &first)?;
    let c = ini.finish(&reply)?;
    Ok((c, s))
}

/// Sends a frame from one end to the other.
fn send(from: &mut secure::Channel, to: &mut secure::Channel, frame: &[u8]) -> Result<Vec<u8>> {
    let mut reader = secure::FrameReader::new();
    for sealed in from.write_frame(frame)? {
        let wire = secure::write_msg(&sealed)?;
        let n = secure::msg_len(&wire[..4], secure::MAX_SEALED)?;
        assert_eq!(n, sealed.len());
        assert!(!reader.complete());
        reader = reader.push(&to.open(&wire[4..])?)?;
    }
    assert!(reader.complete());
    Ok(reader.into_frame())
}

#[test]
fn secured_pull_roundtrip() {
    let mut src = small_fixture();
    let head = src.create("secured").unwrap();
    let (mut c, mut s) = channels("hunter2", "hunter2").unwrap();

    let mut dst = empty_world();
    dst.known = src.known.clone();
    let report = dst
        .pull(&mut |f| {
            let request = send(&mut c, &mut s, f)?;
            let reply = src.respond_frame(&request)?;
            send(&mut s, &mut c, &reply)
        })
        .unwrap();
    assert_eq!(report.remote_head, Some(head));
    assert!(report.objects_fetched >= 2);
}

#[test]
fn secured_server_rejects_plaintext_and_wrong_key() {
    // Plaintext client against a --psk listener: its first bytes are no
    // selector, so it is refused, no downgrade.
    let first = wire::write_frame(&wire::head_request());
    match secure::let_in(&first) {
        Err(Error::Sync(m)) => assert_eq!(m, "peer did not ask for the secured transport"),
        _ => panic!("let a plaintext peer in"),
    }
    assert!(secure::let_in(&secure::selector()).is_ok());
    assert!(secure::let_in(&secure::selector()[..5]).is_err());
    // Wrong passphrase: handshake dies, not silent acceptance.
    match channels("wrong", "right") {
        Err(Error::Sync(m)) => assert!(m.starts_with("noise handshake rejected: "), "{m}"),
        _ => panic!("accepted a wrong passphrase"),
    }
}

#[test]
fn plaintext_server_still_works_and_rejects_noise_client() {
    let mut src = small_fixture();
    src.create("s").unwrap();
    let mut dst = empty_world();
    dst.known = src.known.clone();
    assert!(dst.pull(&mut |f| src.respond_frame(f)).is_ok());
    // A secured client must not be let in by accident either: its selector
    // announces a frame that is too large.
    match wire::frame_len(&secure::selector()[..4]) {
        Err(Error::Sync(m)) => assert_eq!(m, "frame too large"),
        _ => panic!("took the selector for a frame"),
    }
}

#[test]
fn large_frames_cross_the_channel() {
    let (mut c, mut s) = channels("k", "k").unwrap();
    for size in [0usize, 1, 49151, 49152, 49153, 200_000] {
        let frame: Vec<u8> = (0..size).map(|i| (i * 7) as u8).collect();
        assert_eq!(send(&mut c, &mut s, &frame).unwrap(), frame);
        let sealed = c.write_frame(&frame).unwrap();
        assert_eq!(sealed.len(), 1 + size.div_ceil(49152));
        assert_ne!(sealed[0], frame);
        for m in &sealed {
            s.open(m).unwrap();
        }
    }
}

#[test]
fn tampered_ciphertext_is_refused() {
    let (mut c, mut s) = channels("k", "k").unwrap();
    let mut sealed = c.write_frame(b"frame").unwrap();
    sealed[0][0] ^= 1;
    match s.open(&sealed[0]) {
        Err(Error::Sync(m)) => assert!(m.starts_with("noise decrypt: "), "{m}"),
        _ => panic!("accepted tampered bytes"),
    }
}

#[test]
fn frame_reader_refuses_malformed_frames() {
    let header = |n: u32| secure::FrameReader::new().push(&n.to_le_bytes());
    let text = |r: Result<secure::FrameReader>| match r {
        Err(Error::Sync(m)) => m,
        _ => panic!("accepted"),
    };
    assert_eq!(
        text(secure::FrameReader::new().push(b"abc")),
        "noise frame header malformed"
    );
    assert_eq!(text(header(u32::MAX)), "frame too large");
    assert_eq!(text(header(2).unwrap().push(b"abc")), "noise frame overflow");
    assert_eq!(text(header(2).unwrap().push(b"")), "noise frame stalled");
    assert_eq!(text(header(0).unwrap().push(b"")), "noise frame stalled");
    assert!(header(0).unwrap().complete());
}

// ---------- content-defined chunking ----------

#[test]
fn cdc_respects_bounds_and_dedups_inserts() {
    // Deterministic pseudo-random content so boundaries are real.
    let mut data = Vec::new();
    let mut state = 0x9e3779b97f4a7c15u64;
    for _ in 0..1_000_000 {
        state ^= state << 13;
        state ^= state >> 7;
        state ^= state << 17;
        data.push((state >> 32) as u8);
    }

    let chunks = cdc::chunk_bytes(&data).unwrap();
    assert!(chunks.len() > 4);
    let total: usize = chunks.iter().map(|c| c.len()).sum();
    assert_eq!(total, data.len());
    for c in &chunks {
        assert!(c.len() <= respawn::CDC_MAX);
        // Normalized CDC may emit a final short tail chunk; the bound
        // that matters is the max: every chunk but the last is >= MIN.
    }
    assert_eq!(chunks.concat(), data);
    for c in &chunks[..chunks.len() - 1] {
        assert!(c.len() >= respawn::CDC_MIN);
    }

    // Insert a byte near the front: fixed chunking would shift every
    // boundary; CDC should preserve most downstream chunks.
    let mut edited = data.clone();
    edited.insert(100, 0xAB);
    let chunks2 = cdc::chunk_bytes(&edited).unwrap();
    let h1: HashSet<_> = chunks.iter().map(|c| respawn::hash_bytes(c)).collect();
    let kept = chunks2
        .iter()
        .filter(|c| h1.contains(&respawn::hash_bytes(c)))
        .count();
    assert!(
        kept >= chunks.len() - 2,
        "insert invalidated too many chunks: kept {kept} of {}",
        chunks.len()
    );
}

#[test]
fn v2_manifest_without_unstable_field_loads() {
    let json = r#"{
        "version": 2, "parent": null, "timestamp_secs": 0,
        "message": "old", "files": []
    }"#;
    let parsed = Manifest {
        version: 2,
        parent: None,
        timestamp_secs: 0,
        message: "old".to_string(),
        files: Vec::new(),
        unstable: Vec::new(),
    };
    let m = Manifest::deserialize(json.as_bytes(), Ok(parsed)).unwrap();
    m.validate().unwrap();
    assert!(m.unstable.is_empty());
    assert_eq!(m.version, 2);
}

#[test]
fn snapshot_records_files_not_unstable_when_quiet() {
    let mut w = small_fixture();
    let id = w.create("").unwrap();
    let m = w.load(&id).unwrap();
    assert!(m.unstable.is_empty());
    assert_eq!(m.files.len(), 2);
    // Multi-chunk fixture file sanity: a >64KiB file still round-trips.
    w.write("big.bin", &vec![42u8; 300_000]);
    let id2 = w.create("").unwrap();
    let m2 = w.load(&id2).unwrap();
    let big = m2.files.iter().find(|f| f.path == "big.bin").unwrap();
    assert!(big.chunks.len() >= 2);
    assert_eq!(big.size, 300_000);
}

#[test]
fn snapshot_never_reads_through_symlinks() {
    let mut w = small_fixture();
    w.tree.insert("link.txt".to_string(), Node::Link);
    let id = w.create("").unwrap();
    let m = w.load(&id).unwrap();
    // The link is skipped: not followed, not captured.
    assert!(!m.files.iter().any(|f| f.path == "link.txt"));
    // And no object in the store holds the outside content.
    let secret_hash = respawn::hash_bytes(b"DO-NOT-SNAPSHOT");
    assert!(!w.has_object(&secret_hash));
}

#[test]
fn ignored_and_reserved_files_stay_out() {
    let mut w = small_fixture();
    w.write(".fabricignore", b"# comment\n\n  target/ \r\n.log\n");
    w.write("target/x", b"1");
    w.write("app.log", b"2");
    w.write(".git/config", b"3");
    w.write(".github/ci", b"4");
    w.write("dir/.DS_Store", b"5");
    let id = w.create("").unwrap();
    let m = w.load(&id).unwrap();
    let paths: Vec<&str> = m.files.iter().map(|f| f.path.as_str()).collect();
    assert_eq!(paths, vec![".fabricignore", ".github/ci", "a.txt", "dir/b.txt"]);
    // Nor do they count as drift, or get swept away by a revert of git's.
    assert!(w.detect(&m, false).clean());
    let r = w.apply(&m, false).unwrap();
    assert_eq!(r.removed, vec!["app.log", "target/x"]);
    assert!(w.tree.contains_key(".git/config"));
}

#[test]
fn churning_files_are_flagged() {
    assert_eq!(settle(0, (1, 2), (1, 2)), Settle::Stable);
    assert_eq!(settle(0, (1, 2), (1, 3)), Settle::Again);
    assert_eq!(settle(2, (1, 2), (2, 2)), Settle::Again);
    assert_eq!(settle(3, (1, 2), (2, 2)), Settle::Unstable);
    assert_eq!(settle(3, (1, 2), (1, 2)), Settle::Stable);

    let mut b = SnapshotBuilder::new();
    let c = Capture::new().finish();
    b.add("x", 0o100755, None, c, false);
    let m = b.finish(None, 7, "m");
    assert_eq!(m.unstable, vec!["x"]);
    assert_eq!(m.files[0].mode, 0o755);
    assert_eq!(m.files[0].mtime_secs, 0);
    assert_eq!(
        unstable_notice(&m).unwrap(),
        "1 file(s) captured while still changing: x"
    );
}

#[test]
fn touched_files_are_told_from_modified() {
    let mut w = small_fixture();
    let id = w.create("").unwrap();
    let m = w.load(&id).unwrap();
    w.write("a.txt", b"hello"); // same content, new time
    let r = w.detect(&m, false);
    assert_eq!(r.touched, vec!["a.txt"]);
    assert!(r.modified.is_empty() && !r.clean());
    // Metadata alone does not stand in the way of a revert.
    let (_, applied) = w.check_then_apply(&m, false, false).unwrap();
    assert!(applied.unwrap().restored.is_empty());
}

#[test]
fn fabric_is_found_upwards() {
    let c = |dir: &str, has_objects: bool| Candidate { dir: dir.to_string(), has_objects };
    let found = Store::find_root(&vec![c("/a/b/c", false), c("/a/b", true), c("/a", true)]);
    assert_eq!(found.unwrap(), "/a/b");
    assert!(matches!(Store::find_root(&vec![c("/", false)]), Err(Error::NotInitialized)));
    assert!(matches!(Store::open("/w", false), Err(Error::NotInitialized)));
    assert_eq!(Store::open("/w", true).unwrap().fabric_dir(), "/w/.respawn");

    let (_, plan) = sync::ensure_init("/w", true, true);
    assert!(plan.is_none());
    let (_, plan) = sync::ensure_init("/w", false, true);
    assert!(plan.unwrap().head.is_none());
}

// ---------- APFS ----------

#[test]
fn apfs_snapshot_if_privileged() {
    // A frozen view exists only where the system can mount one.
    let mut w = small_fixture();
    let live_id = w.create("live").unwrap();

    match respawn::apfs::create(None) {
        Ok(_) => panic!("there is no such view here"),
        Err(e) => println!("apfs unavailable in this environment: {}", e.message()),
    }

    let view = respawn::apfs::FrozenView {
        name: "com.apple.TimeMachine.x.local".to_string(),
        device: "/dev/disk3s5".to_string(),
        mount: "/m".to_string(),
        worktree: "/w".to_string(),
        scan_root: respawn::apfs::frozen_path("/w", "/System/Volumes/Data", "/m"),
        visible: true,
    };
    let frozen = respawn::apfs::create(Some(view)).unwrap();
    assert_eq!(frozen.scan_root(), "/m/w");
    let frozen_id = w.create("frozen").unwrap();
    let live = w.load(&live_id).unwrap();
    let froz = w.load(&frozen_id).unwrap();
    // Same tree → identical file maps (timestamps/parent differ).
    let live_paths: Vec<_> = live.files.iter().map(|f| &f.path).collect();
    let froz_paths: Vec<_> = froz.files.iter().map(|f| &f.path).collect();
    assert_eq!(live_paths, froz_paths);
    for f in &froz.files {
        assert_eq!(
            f.content,
            live.files
                .iter()
                .find(|g| g.path == f.path)
                .unwrap()
                .content
        );
    }
}
