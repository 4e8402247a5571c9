//! What holds of the library as a whole, on chosen values.

use respawn::admin::{as_escape, sh_quote};
use respawn::audit;
use respawn::cdc;
use respawn::drift::{detect, Observed};
use respawn::schedule;
use respawn::snapshot::{diff_manifests, FileEntry, Manifest};
use respawn::sync::HAVE_BATCH;
use respawn::wire;
use respawn::Store;

/// Reads a word as a shell does, where nothing expands.
fn shell_word(s: &str) -> Option<String> {
    let mut out = String::new();
    let mut quoted = false;
    let mut it = s.chars();
    while let Some(c) = it.next() {
        match (c, quoted) {
            ('\'', _) => quoted = !quoted,
            (_, true) => out.push(c),
            ('\\', false) => out.push(it.next()?),
            _ => return None,
        }
    }
    if quoted {
        None
    } else {
        Some(out)
    }
}

#[test]
fn a_shell_reads_back_what_was_quoted() {
    for s in ["", "'", "''", "a'b\\c", "$HOME `x` \"y\"", "\n\t;|&", "é'è"] {
        assert_eq!(shell_word(&sh_quote(s)).as_deref(), Some(s));
    }
}

#[test]
fn applescript_reads_back_what_was_escaped() {
    for s in ["", "\\", "\"", "a\\\"b", "it's"] {
        let e = as_escape(s);
        let mut out = String::new();
        let mut it = e.chars();
        while let Some(c) = it.next() {
            assert_ne!(c, '"');
            out.push(if c == '\\' { it.next().unwrap() } else { c });
        }
        assert_eq!(out, s);
    }
}

#[test]
fn xml_reads_back_what_was_escaped() {
    for s in ["", "&", "&amp;", "<a b=\"c\">'d'</a>", "&&lt;"] {
        let e = schedule::xml_escape(s);
        assert!(!e.contains(['<', '>', '"', '\'']));
        let back = e
            .replace("&lt;", "<")
            .replace("&gt;", ">")
            .replace("&quot;", "\"")
            .replace("&apos;", "'")
            .replace("&amp;", "&");
        assert_eq!(back, s);
    }
}

#[test]
fn no_two_entries_share_a_hash_input() {
    // What joining with a separator would confuse.
    let hash = |ts: u64, event: &str, detail: &str| {
        audit::record(&Vec::new(), ts, event, detail).hash
    };
    assert_ne!(hash(1, "a", "b,c"), hash(1, "a,b", "c"));
    assert_ne!(hash(1, "a\",\"b", "c"), hash(1, "a", "b\",\"c"));
    assert_ne!(hash(1, "\\", "n"), hash(1, "", "\\n"));
    assert_ne!(hash(1, "2", ""), hash(12, "", ""));
    assert_eq!(hash(1, "a", "b"), hash(1, "a", "b"));
}

#[test]
fn different_hashes_lie_in_different_files() {
    let s = Store::open("/w", true).unwrap();
    let mut a = [0u8; 32];
    let b = a;
    a[31] = 1;
    assert_ne!(s.object_path(&a), s.object_path(&b));
    assert_ne!(s.manifest_path(&a), s.manifest_path(&b));
    assert_ne!(s.object_path(&a), s.manifest_path(&a));
    assert!(s.object_path(&a).starts_with("/w/.respawn/"));
}

#[test]
fn identical_files_chunk_identically() {
    let data: Vec<u8> = (0..300_000u32).map(|i| (i.wrapping_mul(2_654_435_761) >> 24) as u8).collect();
    assert_eq!(cdc::chunk_bytes(&data).unwrap(), cdc::chunk_bytes(&data.clone()).unwrap());
    assert!(cdc::chunk_bytes(&[]).unwrap().is_empty());
    assert_eq!(cdc::chunk_bytes(&[1]).unwrap(), vec![vec![1]]);
    let same = cdc::chunk_bytes(&[7; 200_000]).unwrap();
    assert_eq!(same.iter().map(|c| c.len()).collect::<Vec<_>>(), vec![131_072, 68_928]);
}

fn entry(path: &str, content: u8) -> FileEntry {
    FileEntry {
        path: path.to_string(),
        mode: 0o644,
        size: 1,
        mtime_secs: 9,
        mtime_nanos: 0,
        content: [content; 32],
        chunks: vec![[content; 32]],
    }
}

fn manifest(files: Vec<FileEntry>) -> Manifest {
    Manifest {
        version: 3,
        parent: None,
        timestamp_secs: 0,
        message: String::new(),
        files,
        unstable: Vec::new(),
    }
}

fn observed(path: &str, content: u8) -> Observed {
    Observed {
        rel: path.to_string(),
        size: 1,
        modified: Some((9, 0)),
        content: Some([content; 32]),
    }
}

#[test]
fn full_drift_is_the_diff_with_a_fresh_snapshot() {
    let m = manifest(vec![entry("a", 1), entry("b", 1), entry("z", 1), entry("c", 1)]);
    let fresh = manifest(vec![entry("x", 1), entry("b", 2), entry("a", 1), entry("d", 4)]);
    let walk = vec![observed("x", 1), observed("b", 2), observed("a", 1), observed("d", 4)];
    let r = detect(m.copy(), Vec::new(), true, &walk);
    let (added, modified, deleted) = diff_manifests(&fresh, &m);
    assert_eq!(r.added, added);
    assert_eq!(r.modified, modified);
    assert_eq!(r.deleted, deleted);
    assert_eq!(added, vec!["d", "x"]);
    assert_eq!(modified, vec!["b"]);
    assert_eq!(deleted, vec!["c", "z"]);

    // The same tree as the manifest's has no drift.
    let walk = vec![observed("a", 1), observed("b", 1), observed("c", 1), observed("z", 1)];
    assert!(detect(m, Vec::new(), true, &walk).clean());
}

#[test]
fn a_whole_batch_fits_a_frame() {
    let batch = vec![[3u8; 32]; HAVE_BATCH];
    let request = wire::have_request(&batch);
    assert_eq!(request.len(), 16_000_005);
    assert!(request.len() <= wire::MAX_FRAME);
    let framed = wire::write_frame(&request);
    assert_eq!(wire::frame_len(&framed[..4]).unwrap(), request.len());
}

#[test]
fn minted_ids_give_plain_labels() {
    let id = "0f".repeat(32);
    assert_eq!(schedule::label(&id), "com.respawn.anchor.0f0f0f0f0f0f");
    assert_eq!(
        schedule::agent_plist(Some("/h"), &id).unwrap(),
        "/h/Library/LaunchAgents/com.respawn.anchor.0f0f0f0f0f0f.plist"
    );
}
