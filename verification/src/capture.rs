//! Taking a snapshot: which files it holds, and how their content gets into
//! the store.

use vstd::prelude::*;
use vstd::string::*;
use vstd::utf8::*;
use crate::cdc::concat;
use crate::cdc::pieces_follow_each_other;
use crate::digest::blake3_hash;
use crate::error::ErrorView;
use crate::error::Result;
use crate::paths::FABRIC_DIR;
use crate::paths::components;
use crate::paths::excluded;
use crate::paths::exclusion_goes_by_whole_names;
use crate::paths::is_excluded;
use crate::paths::join_text;
use crate::paths::reserved;
use crate::paths::safe_rel;
use crate::paths::sanitize_rel;
use crate::snapshot::FileEntry;
use crate::snapshot::FileView;
use crate::snapshot::MANIFEST_VERSION;
use crate::snapshot::MAX_MANIFEST_BYTES;
use crate::snapshot::MAX_MANIFEST_CHUNKS;
use crate::snapshot::MAX_MANIFEST_FILES;
use crate::snapshot::Manifest;
use crate::snapshot::ManifestFile;
use crate::snapshot::ManifestView;
use crate::snapshot::chunk_total;
use crate::snapshot::file_fault;
use crate::snapshot::file_views;
use crate::snapshot::hash_opt;
use crate::snapshot::hashes;
use crate::snapshot::loaded;
use crate::snapshot::valid_manifest;
use crate::store::ContentHasher;
use crate::store::FileWrite;
use crate::store::Store;
use crate::store::ZSTD_LEVEL;
use crate::store::head_of_text;
use crate::store::head_round_trip;
use crate::store::head_stays_in_the_fabric;
use crate::store::stored_files_stay_in_the_fabric;
use crate::store::zstd_encodes;
use crate::text::chars_contain;
use crate::text::chars_of;
use crate::text::dec;
use crate::text::join_texts;
use crate::text::joined;
use crate::text::lemma_push_has;
use crate::text::lemma_strs_push;
use crate::text::occurs;
use crate::text::push_dec;
use crate::text::replace;
use crate::text::replaced;
use crate::text::replacing_a_character_keeps_the_others;
use crate::text::split;
use crate::text::split_chars;
use crate::text::stands_at;
use crate::text::strs;
use crate::text::text_of;
use crate::text::texts;
use crate::text::trim;
use crate::text::trim_chars;

verus! {

/// The patterns among the first `n` lines: each line trimmed, without the
/// empty ones and those that begin with `#`.
pub open spec fn patterns_in(lines: Seq<Seq<char>>) -> Seq<Seq<char>>
    decreases lines.len(),
{
    if lines.len() == 0 {
        Seq::empty()
    } else {
        let t = trim(lines.last());
        let head = patterns_in(lines.drop_last());
        if t.len() > 0 && t[0] != '#' {
            head.push(t)
        } else {
            head
        }
    }
}

/// The patterns of an ignore file; one that cannot be read has none.
pub open spec fn patterns_of(text: Option<&str>) -> Seq<Seq<char>> {
    match text {
        None => Seq::empty(),
        Some(t) => patterns_in(split(t@, '\n')),
    }
}

/// Read `.fabricignore` patterns (one glob-ish substring per line, `#`
/// comments allowed) from the text of the file.
pub fn ignore_patterns(text: Option<&str>) -> (r: Vec<String>)
    ensures
        strs(r@) == patterns_of(text),
{
    let mut out: Vec<String> = Vec::new();
    assert(strs(out@) =~= Seq::empty());
    match text {
        None => {},
        Some(t) => {
            let v = chars_of(t);
            let lines = split_chars(&v, '\n');
            let ghost all = texts(lines@);
            let mut i: usize = 0;
            assert(all.take(0) =~= Seq::empty());
            while i < lines.len()
                invariant
                    i <= lines@.len(),
                    all == texts(lines@),
                    strs(out@) == patterns_in(all.take(i as int)),
                decreases lines@.len() - i,
            {
                assert(all[i as int] == lines@[i as int]@);
                assert(all.take(i + 1).drop_last() =~= all.take(i as int));
                let line = trim_chars(&lines[i]);
                if line.len() > 0 && line[0] != '#' {
                    let p = text_of(&line);
                    proof {
                        lemma_strs_push(out@, p);
                    }
                    out.push(p);
                }
                i = i + 1;
            }
            assert(all.take(i as int) =~= all);
        },
    }
    out
}

/// Whether one of the patterns occurs in the path. Matching is
/// substring-on-path: simple and predictable.
pub open spec fn is_ignored(rel: Seq<char>, patterns: Seq<Seq<char>>) -> bool {
    exists|i: int| 0 <= i < patterns.len() && occurs(rel, #[trigger] patterns[i])
}

/// Whether one of the patterns occurs in the path.
pub fn ignored(rel: &str, patterns: &Vec<String>) -> (r: bool)
    ensures
        r == is_ignored(rel@, strs(patterns@)),
{
    let v = chars_of(rel);
    let ghost all = strs(patterns@);
    let mut i: usize = 0;
    while i < patterns.len()
        invariant
            i <= patterns@.len(),
            all == strs(patterns@),
            v@ == rel@,
            forall|k: int| 0 <= k < i ==> !occurs(rel@, #[trigger] all[k]),
        decreases patterns@.len() - i,
    {
        assert(all[i as int] == patterns@[i as int]@);
        let p = chars_of(patterns[i].as_str());
        if chars_contain(&v, &p) {
            return true;
        }
        i = i + 1;
    }
    false
}

/// A path with '/' as its only separator.
pub open spec fn slashed(rel: Seq<char>) -> Seq<char> {
    replace(rel, '\\', seq!['/'])
}

/// A path with '/' as its only separator.
pub fn with_slashes(rel: &str) -> (r: String)
    ensures
        r@ == slashed(rel@),
{
    proof {
        reveal_strlit("/");
        assert("/"@ =~= seq!['/']);
    }
    replaced(rel, '\\', "/")
}

/// Whether a walked file is left out of snapshots and drift: reserved names,
/// and paths that match an ignore pattern.
pub open spec fn left_out(rel: Seq<char>, patterns: Seq<Seq<char>>) -> bool {
    is_excluded(rel) || is_ignored(slashed(rel), patterns)
}

/// The path under which a walked entry enters a snapshot: nothing for what is
/// no regular file or is left out, an error for a path that could escape the
/// worktree.
pub fn visit(rel: &str, is_file: bool, patterns: &Vec<String>) -> (r: Result<Option<String>>)
    ensures
        if !is_file || left_out(rel@, strs(patterns@)) {
            r is Ok && r->Ok_0 is None
        } else if safe_rel(slashed(rel@)) {
            r is Ok && r->Ok_0 is Some && r->Ok_0->0@ == slashed(rel@)
        } else {
            r is Err && r->Err_0@ == ErrorView::UnsafePath(slashed(rel@))
        },
{
    if !is_file || excluded(rel) {
        return Ok(None);
    }
    let path = with_slashes(rel);
    if ignored(path.as_str(), patterns) {
        return Ok(None);
    }
    match sanitize_rel(path.as_str()) {
        Err(e) => Err(e),
        Ok(_) => Ok(Some(path)),
    }
}

/// The hashes of a list of chunks.
pub open spec fn chunk_hashes(ps: Seq<Seq<u8>>) -> Seq<Seq<u8>> {
    ps.map_values(|p: Seq<u8>| blake3_hash(p))
}

/// What was captured of a file.
#[derive(Debug)]
pub struct Captured {
    pub content: crate::Hash,
    pub chunks: Vec<crate::Hash>,
    pub size: u64,
}

impl Captured {
    /// Whether this is what the given chunks, one behind the other, amount to.
    pub open spec fn of(&self, ps: Seq<Seq<u8>>) -> bool {
        &&& self.content@ == blake3_hash(concat(ps))
        &&& hashes(self.chunks@) == chunk_hashes(ps)
        &&& self.size == concat(ps).len()
    }
}

/// A file on its way into the store, chunk by chunk.
pub struct Capture {
    hasher: ContentHasher,
    chunks: Vec<crate::Hash>,
    seen: Ghost<Seq<Seq<u8>>>,
}

impl Capture {
    /// The chunks so far.
    pub closed spec fn seen(&self) -> Seq<Seq<u8>> {
        self.seen@
    }

    #[verifier::type_invariant]
    spec fn wf(&self) -> bool {
        &&& self.hasher.fed() == concat(self.seen@)
        &&& hashes(self.chunks@) == chunk_hashes(self.seen@)
    }

    /// A file of which nothing was read yet.
    pub fn new() -> (r: Capture)
        ensures
            r.seen() == Seq::<Seq<u8>>::empty(),
    {
        let chunks: Vec<crate::Hash> = Vec::new();
        assert(hashes(chunks@) =~= chunk_hashes(Seq::empty()));
        Capture { hasher: ContentHasher::new(), chunks, seen: Ghost(Seq::empty()) }
    }

    /// How many bytes were read so far.
    pub fn size(&self) -> (r: u64)
        ensures
            r == concat(self.seen()).len(),
    {
        proof {
            use_type_invariant(self);
        }
        self.hasher.total()
    }

    /// Takes the next chunk; returns the write that stores it where it is not
    /// there yet. The only error is one of the compressor. The size of a file
    /// is a `u64`.
    pub fn add(self, store: &Store, data: &[u8], present: bool) -> (r: Result<
        (Capture, Option<FileWrite>),
    >)
        requires
            concat(self.seen()).len() + data@.len() <= u64::MAX,
        ensures
            match r {
                Ok(p) => {
                    &&& p.0.seen() == self.seen().push(data@)
                    &&& present ==> p.1 is None
                    &&& !present ==> p.1 is Some && store.writes_object(
                        blake3_hash(data@),
                        data@,
                        p.1->0,
                    )
                },
                Err(e) => !present && !zstd_encodes(data@, ZSTD_LEVEL as int) && e is Io,
            },
    {
        proof {
            use_type_invariant(&self);
        }
        let ghost ps = self.seen@;
        let Capture { hasher, mut chunks, seen: _ } = self;
        match store.put_object(data, present) {
            Err(e) => Err(e),
            Ok(p) => {
                let more = hasher.update(data);
                let ghost before = hashes(chunks@);
                chunks.push(p.0);
                proof {
                    assert(hashes(chunks@) =~= before.push(blake3_hash(data@)));
                    assert(chunk_hashes(ps.push(data@)) =~= before.push(blake3_hash(data@)));
                    assert(ps.push(data@).drop_last() =~= ps);
                }
                Ok((Capture { hasher: more, chunks, seen: Ghost(ps.push(data@)) }, p.1))
            },
        }
    }

    /// The content hash, chunk hashes and size of the file.
    pub fn finish(self) -> (r: Captured)
        ensures
            r.of(self.seen()),
    {
        proof {
            use_type_invariant(&self);
        }
        let (content, size) = self.hasher.finish();
        Captured { content, chunks: self.chunks, size }
    }
}

/// How often a file that changes while it is read is read again.
pub const QUIESCE_RETRIES: u32 = 3;

/// What to do with a file after it was read.
#[derive(Debug, Clone, Copy, PartialEq, Eq, Structural)]
pub enum Settle {
    /// It changed meanwhile: read it again.
    Again,
    /// It did not change: keep what was read.
    Stable,
    /// It is still changing: keep what was read, and say so.
    Unstable,
}

/// Nanoseconds per second.
pub const NANOS: u64 = 1000000000;

/// A modification time in nanoseconds, zero where it is not known.
pub open spec fn stamp_nanos(modified: Option<(u64, u32)>) -> int {
    match modified {
        None => 0,
        Some(t) => t.0 * NANOS + t.1,
    }
}

/// Size and modification time of a file, the time in nanoseconds, zero where
/// it is not known. A time has to fit into a `u64`.
pub fn file_stamp(len: u64, modified: Option<(u64, u32)>) -> (r: (u64, u64))
    requires
        stamp_nanos(modified) <= u64::MAX,
    ensures
        r.0 == len,
        r.1 == stamp_nanos(modified),
        modified is None ==> r.1 == 0,
        modified is Some ==> r.1 == modified->Some_0.0 * 1_000_000_000 + modified->Some_0.1,
{
    match modified {
        None => (len, 0),
        Some(t) => (len, t.0 * NANOS + t.1 as u64),
    }
}

/// A file that changed mid-capture is re-read: its stamps before and after
/// have to agree. Not a true point-in-time cut, but it shrinks the mutation
/// window to a single file read; a file still churning after
/// QUIESCE_RETRIES is flagged, not silently snapshotted.
pub fn settle(attempt: u32, before: (u64, u64), after: (u64, u64)) -> (r: Settle)
    ensures
        r == if before == after {
            Settle::Stable
        } else if attempt >= QUIESCE_RETRIES {
            Settle::Unstable
        } else {
            Settle::Again
        },
{
    if before.0 == after.0 && before.1 == after.1 {
        Settle::Stable
    } else if attempt >= QUIESCE_RETRIES {
        Settle::Unstable
    } else {
        Settle::Again
    }
}

/// A snapshot in the making: the files captured so far.
pub struct SnapshotBuilder {
    files: Vec<FileEntry>,
    unstable: Vec<String>,
}

/// The entry for a captured file: permission bits only, and a modification
/// time of zero where it is not known.
pub open spec fn captured_entry(
    path: Seq<char>,
    mode: u32,
    modified: Option<(u64, u32)>,
    c: Captured,
) -> FileView {
    FileView {
        path,
        mode: mode & 0o777,
        size: c.size,
        mtime_secs: match modified {
            Some(t) => t.0,
            None => 0,
        },
        mtime_nanos: match modified {
            Some(t) => t.1,
            None => 0,
        },
        content: c.content@,
        chunks: hashes(c.chunks@),
    }
}

impl SnapshotBuilder {
    /// The files so far.
    pub closed spec fn files(&self) -> Seq<FileView> {
        file_views(self.files@)
    }

    /// The paths of those that were still changing.
    pub closed spec fn unstable(&self) -> Seq<Seq<char>> {
        strs(self.unstable@)
    }

    /// A snapshot without files.
    pub fn new() -> (r: SnapshotBuilder)
        ensures
            r.files() == Seq::<FileView>::empty(),
            r.unstable() == Seq::<Seq<char>>::empty(),
    {
        let files: Vec<FileEntry> = Vec::new();
        let unstable: Vec<String> = Vec::new();
        assert(file_views(files@) =~= Seq::empty());
        assert(strs(unstable@) =~= Seq::empty());
        SnapshotBuilder { files, unstable }
    }

    /// Adds a captured file.
    pub fn add(
        &mut self,
        path: &str,
        mode: u32,
        modified: Option<(u64, u32)>,
        captured: Captured,
        stable: bool,
    )
        ensures
            final(self).files() == old(self).files().push(
                captured_entry(path@, mode, modified, captured),
            ),
            final(self).unstable() == if stable {
                old(self).unstable()
            } else {
                old(self).unstable().push(path@)
            },
    {
        let ghost before = file_views(self.files@);
        let ghost e = captured_entry(path@, mode, modified, captured);
        let (mtime_secs, mtime_nanos) = match modified {
            Some(t) => t,
            None => (0, 0),
        };
        if !stable {
            let p = path.to_owned();
            proof {
                lemma_strs_push(self.unstable@, p);
            }
            self.unstable.push(p);
        }
        self.files.push(
            FileEntry {
                path: path.to_owned(),
                mode: mode & 0o777,
                size: captured.size,
                mtime_secs,
                mtime_nanos,
                content: captured.content,
                chunks: captured.chunks,
            },
        );
        assert(file_views(self.files@) =~= before.push(e));
    }

    /// The manifest of the snapshot.
    pub fn finish(self, parent: Option<crate::Hash>, timestamp_secs: u64, message: &str) -> (r:
        Manifest)
        ensures
            r@ == (ManifestView {
                version: MANIFEST_VERSION,
                parent: hash_opt(parent),
                timestamp_secs,
                message: message@,
                files: self.files(),
                unstable: self.unstable(),
            }),
    {
        Manifest {
            version: MANIFEST_VERSION,
            parent,
            timestamp_secs,
            message: message.to_owned(),
            files: self.files,
            unstable: self.unstable,
        }
    }
}

/// What makes a snapshot the current one: its id, the write that stores its
/// manifest where it is not there yet, and the write that moves HEAD to it,
/// in this order.
#[derive(Debug)]
pub struct Commit {
    pub id: crate::Hash,
    pub manifest: Option<FileWrite>,
    pub head: FileWrite,
}

/// Whether `c` stores the manifest whose bytes are given and moves HEAD to it.
pub open spec fn commits(store: Store, bytes: Seq<u8>, present: bool, c: Commit) -> bool {
    &&& c.id@ == blake3_hash(bytes)
    &&& present ==> c.manifest is None
    &&& !present ==> c.manifest is Some && store.writes_manifest(c.id@, bytes, c.manifest->Some_0)
    &&& store.writes_head(Some(c.id@), c.head)
}

/// Makes a snapshot the current one: `bytes` is its manifest, serialized, and
/// `present` says whether it is in the store already.
pub fn commit(store: &Store, bytes: &[u8], present: bool) -> (r: Commit)
    ensures
        commits(*store, bytes@, present, r),
        r.id@ == blake3_hash(bytes@),
        r.manifest is None <==> present,
{
    let (id, manifest) = store.put_manifest(bytes, present);
    let head = store.set_head(Some(&id));
    Commit { id, manifest, head }
}

/// A snapshot that was created is the new HEAD, and its parent the old one:
/// HEAD's file, read back, says the new id, which is the BLAKE3 of the
/// manifest's bytes, and loading that id gives the manifest that was built,
/// with the parent, the message and the version it was built with. Everything
/// that is written lies inside the fabric's directory. `before` is the text of
/// HEAD's file when the snapshot was taken, `built` the manifest, of captured
/// files within the caps on counts, `objects` the writes of the chunks `ps`
/// that capturing them gave, and `parsed` what parsing the manifest's bytes
/// gives back.
pub proof fn created_snapshot_becomes_head(
    store: Store,
    before: Option<&str>,
    old_head: Option<crate::Hash>,
    ps: Seq<Seq<u8>>,
    objects: Seq<FileWrite>,
    timestamp_secs: u64,
    message: Seq<char>,
    built: ManifestView,
    bytes: Vec<u8>,
    parsed: Manifest,
    present: bool,
    c: Commit,
    t: &str,
    r: Result<Manifest>,
)
    requires
        built == (ManifestView {
            version: MANIFEST_VERSION,
            parent: hash_opt(old_head),
            timestamp_secs,
            message,
            files: built.files,
            unstable: built.unstable,
        }),
        head_of_text(before) == std::result::Result::<Option<Seq<u8>>, Seq<char>>::Ok(
            hash_opt(old_head),
        ),
        built.files.len() <= MAX_MANIFEST_FILES,
        chunk_total(built.files) <= MAX_MANIFEST_CHUNKS,
        forall|i: int|
            0 <= i < built.files.len() ==> safe_rel((#[trigger] built.files[i]).path) && exists|
                ps: Seq<Seq<u8>>,
            | #[trigger] records(built.files[i], ps),
        objects.len() == ps.len(),
        forall|i: int|
            0 <= i < objects.len() ==> blake3_hash(ps[i]).len() == 32 && store.writes_object(
                blake3_hash(ps[i]),
                ps[i],
                #[trigger] objects[i],
            ),
        bytes@.len() <= MAX_MANIFEST_BYTES,
        parsed@ == built,
        commits(store, bytes@, present, c),
        encode_utf8(t@) == c.head.data@,
        loaded(c.id@, ManifestFile::Data(bytes, Ok(parsed)), r),
    ensures
        head_of_text(Some(t)) == std::result::Result::<Option<Seq<u8>>, Seq<char>>::Ok(Some(c.id@)),
        c.id@ == blake3_hash(bytes@),
        c.manifest is None <==> present,
        r is Ok,
        r->Ok_0@ == built,
        head_of_text(before) == std::result::Result::<Option<Seq<u8>>, Seq<char>>::Ok(
            r->Ok_0@.parent,
        ),
        r->Ok_0@.message == message,
        r->Ok_0@.version == 3,
        c.manifest is Some ==> c.manifest->Some_0.data@ == bytes@ && store.holds(
            c.manifest->Some_0.path@,
        ) && store.holds(c.manifest->Some_0.tmp@),
        forall|i: int|
            0 <= i < objects.len() ==> store.holds((#[trigger] objects[i]).path@) && store.holds(
                objects[i].tmp@,
            ),
        c.head.path@ == join_text(store.fabric_text(), "HEAD"@),
        store.holds(c.head.path@),
        store.holds(c.head.tmp@),
{
    built_manifest_is_valid(built);
    head_round_trip(store, Some(c.id@), c.head, t);
    head_stays_in_the_fabric(store, Some(c.id@), c.head);
    if c.manifest is Some {
        stored_files_stay_in_the_fabric(store, c.id@, bytes@, c.manifest->Some_0);
    }
    assert forall|i: int| 0 <= i < objects.len() implies store.holds((#[trigger] objects[i]).path@)
        && store.holds(objects[i].tmp@) by {
        stored_files_stay_in_the_fabric(store, blake3_hash(ps[i]), ps[i], objects[i]);
    }
}

/// The notice for files that were still changing when they were captured.
pub fn unstable_notice(m: &Manifest) -> (r: Option<String>)
    ensures
        match r {
            None => m@.unstable.len() == 0,
            Some(t) => m@.unstable.len() > 0 && t@ == dec(m@.unstable.len())
                + " file(s) captured while still changing: "@ + joined(m@.unstable, ", "@),
        },
{
    if m.unstable.len() == 0 {
        return None;
    }
    let mut t: String = String::new();
    push_dec(&mut t, m.unstable.len() as u64);
    t.append(" file(s) captured while still changing: ");
    t.append(join_texts(&m.unstable, ", ").as_str());
    assert(t@ =~= dec(m@.unstable.len()) + " file(s) captured while still changing: "@ + joined(
        m@.unstable,
        ", "@,
    ));
    Some(t)
}

/// Whether an entry records a file whose content is the given chunks, one
/// behind the other.
pub open spec fn records(f: FileView, ps: Seq<Seq<u8>>) -> bool {
    &&& f.content == blake3_hash(concat(ps))
    &&& f.chunks == chunk_hashes(ps)
    &&& f.size == concat(ps).len()
}

/// The entry for a captured file records the chunks that were read.
pub proof fn captured_entry_records(
    path: Seq<char>,
    mode: u32,
    modified: Option<(u64, u32)>,
    c: Captured,
    ps: Seq<Seq<u8>>,
)
    requires
        c.of(ps),
    ensures
        records(captured_entry(path, mode, modified, c), ps),
{
}

/// A manifest of captured files under safe paths, within the caps on counts,
/// is one that loading accepts.
pub proof fn built_manifest_is_valid(m: ManifestView)
    requires
        m.version == MANIFEST_VERSION,
        m.files.len() <= MAX_MANIFEST_FILES,
        chunk_total(m.files) <= MAX_MANIFEST_CHUNKS,
        forall|i: int|
            0 <= i < m.files.len() ==> safe_rel((#[trigger] m.files[i]).path) && exists|
                ps: Seq<Seq<u8>>,
            | #[trigger] records(m.files[i], ps),
    ensures
        valid_manifest(m),
{
    assert forall|i: int| 0 <= i < m.files.len() implies #[trigger] file_fault(
        m.files,
        i,
    ) is None by {
        let f = m.files[i];
        assert(safe_rel(f.path));
        let ps = choose|ps: Seq<Seq<u8>>| #[trigger] records(f, ps);
        assert(f.chunks.len() == ps.len());
        lemma_chunk_total_prefix(m.files, i + 1);
    }
}

proof fn lemma_chunk_total_prefix(files: Seq<FileView>, n: int)
    requires
        0 <= n <= files.len(),
    ensures
        chunk_total(files.take(n)) <= chunk_total(files),
    decreases files.len() - n,
{
    if n < files.len() {
        lemma_chunk_total_prefix(files, n + 1);
        assert(files.take(n + 1).drop_last() =~= files.take(n));
    } else {
        assert(files.take(n) =~= files);
    }
}

/// Only permission bits are recorded: never setuid, setgid or sticky.
pub proof fn recorded_mode_is_plain(
    path: Seq<char>,
    mode: u32,
    modified: Option<(u64, u32)>,
    c: Captured,
)
    ensures
        captured_entry(path, mode, modified, c).mode <= 0o777,
{
    assert(mode & 0o777 <= 0o777) by (bit_vector);
}

/// The paths of a walk that enter a snapshot lie outside the fabric.
pub proof fn snapshots_leave_the_fabric_out(rel: Seq<char>, patterns: Seq<Seq<char>>, i: int)
    requires
        !left_out(rel, patterns),
        0 <= i < components(rel).len(),
    ensures
        components(rel)[i] != FABRIC_DIR@,
        components(rel)[i] != ".git"@,
        components(rel)[i] != ".DS_Store"@,
{
    assert(!reserved(components(rel)[i]));
}

/// A path is written with '/' for every backslash and is otherwise as it was.
pub proof fn only_separators_are_rewritten(rel: Seq<char>)
    ensures
        slashed(rel).len() == rel.len(),
        forall|i: int|
            0 <= i < rel.len() ==> #[trigger] slashed(rel)[i] == if rel[i] == '\\' {
                '/'
            } else {
                rel[i]
            },
{
    replacing_a_character_keeps_the_others(rel, '\\', '/');
}

/// What a snapshot holds of a tree: a regular file is left out exactly where a
/// name along its path is the fabric's, git's or the Finder's, or where an
/// ignore pattern stands somewhere in the path. Nothing else keeps a file out:
/// not its size, its age or its name.
pub proof fn files_are_left_out_by_name_or_pattern(
    names: Seq<Seq<char>>,
    patterns: Seq<Seq<char>>,
)
    requires
        names.len() > 0,
        forall|i: int| 0 <= i < names.len() ==> !(#[trigger] names[i]).contains('/'),
    ensures
        ({
            let rel = joined(names, seq!['/']);
            left_out(rel, patterns) <==> (exists|i: int|
                0 <= i < names.len() && (#[trigger] names[i] == ".respawn"@ || names[i] == ".git"@
                    || names[i] == ".DS_Store"@)) || (exists|k: int, at: int|
                0 <= k < patterns.len() && 0 <= at && at + patterns[k].len() <= slashed(rel).len()
                    && #[trigger] slashed(rel).subrange(at, at + patterns[k].len())
                    == #[trigger] patterns[k])
        }),
{
    let rel = joined(names, seq!['/']);
    let p = slashed(rel);
    exclusion_goes_by_whole_names(names);
    if is_ignored(p, patterns) {
        let k = choose|k: int| 0 <= k < patterns.len() && occurs(p, #[trigger] patterns[k]);
        let at = choose|at: int| #[trigger] stands_at(p, patterns[k], at);
        assert(p.subrange(at, at + patterns[k].len()) == patterns[k]);
    }
    if exists|k: int, at: int|
        0 <= k < patterns.len() && 0 <= at && at + patterns[k].len() <= p.len()
            && #[trigger] p.subrange(at, at + patterns[k].len()) == #[trigger] patterns[k] {
        let (k, at) = choose|k: int, at: int|
            0 <= k < patterns.len() && 0 <= at && at + patterns[k].len() <= p.len()
                && #[trigger] p.subrange(at, at + patterns[k].len()) == #[trigger] patterns[k];
        assert(stands_at(p, patterns[k], at));
        assert(occurs(p, patterns[k]));
    }
}

/// What an ignore file asks for: every line that is neither blank nor begins
/// with `#` is a pattern, without the whitespace around it, and nothing else
/// is.
pub proof fn every_line_of_an_ignore_file_counts(lines: Seq<Seq<char>>, p: Seq<char>)
    ensures
        patterns_in(lines).contains(p) <==> p.len() > 0 && p[0] != '#' && exists|i: int|
            0 <= i < lines.len() && trim(#[trigger] lines[i]) == p,
        patterns_in(lines).len() <= lines.len(),
    decreases lines.len(),
{
    if lines.len() > 0 {
        let rest = lines.drop_last();
        let t = trim(lines.last());
        every_line_of_an_ignore_file_counts(rest, p);
        lemma_push_has(patterns_in(rest), t, p);
        if exists|i: int| 0 <= i < rest.len() && trim(#[trigger] rest[i]) == p {
            let i = choose|i: int| 0 <= i < rest.len() && trim(#[trigger] rest[i]) == p;
            assert(trim(lines[i]) == p);
        }
        if exists|i: int| 0 <= i < lines.len() && trim(#[trigger] lines[i]) == p {
            let i = choose|i: int| 0 <= i < lines.len() && trim(#[trigger] lines[i]) == p;
            if i < rest.len() {
                assert(trim(rest[i]) == p);
            }
        }
        if t == p {
            assert(trim(lines[lines.len() - 1]) == p);
        }
    }
}

/// A file without ignore patterns leaves nothing out.
pub proof fn no_ignore_file_ignores_nothing(rel: Seq<char>)
    ensures
        patterns_of(None).len() == 0,
        !is_ignored(rel, patterns_of(None)),
{
}

/// The entry of a captured file says what was read of it: its path, size,
/// content and chunks as they are, its time where it is known, and its
/// permission bits.
pub proof fn entry_says_what_was_captured(
    path: Seq<char>,
    mode: u32,
    secs: u64,
    nanos: u32,
    c: Captured,
)
    ensures
        ({
            let e = captured_entry(path, mode, Some((secs, nanos)), c);
            &&& e.path == path
            &&& e.size == c.size
            &&& e.content == c.content@
            &&& e.chunks == hashes(c.chunks@)
            &&& e.mtime_secs == secs
            &&& e.mtime_nanos == nanos
            &&& e.mode == mode & 0o777
        }),
        ({
            let e = captured_entry(path, mode, None, c);
            e.path == path && e.size == c.size && e.content == c.content@ && e.chunks == hashes(
                c.chunks@,
            ) && e.mtime_secs == 0 && e.mtime_nanos == 0 && e.mode == mode & 0o777
        }),
{
}

/// A file's capture says how its bytes hash, how many they are, and how each
/// chunk hashes, in order.
pub proof fn capture_says_what_was_read(c: Captured, ps: Seq<Seq<u8>>)
    requires
        c.of(ps),
    ensures
        c.content@ == blake3_hash(ps.flatten()),
        c.size == ps.flatten().len(),
        c.chunks@.len() == ps.len(),
        forall|i: int| 0 <= i < ps.len() ==> (#[trigger] c.chunks@[i])@ == blake3_hash(ps[i]),
{
    pieces_follow_each_other(ps);
    assert(hashes(c.chunks@).len() == c.chunks@.len());
    assert(chunk_hashes(ps).len() == ps.len());
    assert forall|i: int| 0 <= i < ps.len() implies (#[trigger] c.chunks@[i])@ == blake3_hash(
        ps[i],
    ) by {
        assert(hashes(c.chunks@)[i] == c.chunks@[i]@);
    }
}

} // verus!
