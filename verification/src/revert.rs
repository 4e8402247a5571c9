//! Revert: materialize a manifest into the worktree.
//!
//! Files are written to a temp file in the fabric directory and renamed
//! over the destination: each file swap is atomic at the VFS level, so a
//! crash mid-revert leaves per-file torn state, never half-written files.
//! Files absent from the manifest are removed unless `keep_extra` is set.
//! Empty directories left behind are pruned.

use vstd::prelude::*;
use vstd::string::*;
use crate::audit::collide;
use crate::capture::left_out;
use crate::capture::records;
use crate::capture::slashed;
use crate::capture::with_slashes;
use crate::cdc::concat;
use crate::digest::blake3_hash;
use crate::digest::hash_eq;
use crate::digest::hasher_fed;
use crate::digest::hasher_finalize;
use crate::digest::hasher_new;
use crate::digest::hasher_update;
use crate::drift::DriftReport;
use crate::drift::drift_lists_say;
use crate::drift::drift_of;
use crate::error::Error;
use crate::error::ErrorView;
use crate::error::Result;
use crate::index::TextIndex;
use crate::paths::components;
use crate::paths::excluded;
use crate::paths::is_excluded;
use crate::paths::join;
use crate::paths::join_text;
use crate::paths::plain_component;
use crate::paths::safe_rel;
use crate::paths::sanitize_rel;
use crate::snapshot::FileEntry;
use crate::snapshot::FileView;
use crate::snapshot::MANIFEST_VERSION;
use crate::snapshot::Manifest;
use crate::snapshot::ManifestView;
use crate::snapshot::entry_is_the_last_of_its_path;
use crate::snapshot::entry_of;
use crate::snapshot::file_views;
use crate::snapshot::lemma_entry_some;
use crate::snapshot::manifest_error;
use crate::snapshot::paths;
use crate::snapshot::paths_of;
use crate::snapshot::valid_manifest;
use crate::store::FileWrite;
use crate::store::ObjectRead;
use crate::store::ReadOutcome;
use crate::store::Store;
use crate::store::object_mismatch_text;
use crate::store::object_read;
use crate::text::chars_of;
use crate::text::joined;
use crate::text::joined_pieces_are_cut_apart;
use crate::text::lemma_plus_has;
use crate::text::lemma_push_has;
use crate::text::lemma_strs_push;
use crate::text::split_chars;
use crate::text::strs;
use crate::text::text_of;
use crate::text::texts;

verus! {

#[derive(Debug)]
pub struct RevertReport {
    pub restored: Vec<String>,
    pub removed: Vec<String>,
    pub skipped_extra: Vec<String>,
}

impl Default for RevertReport {
    fn default() -> (r: RevertReport)
        ensures
            r.restored@.len() == 0,
            r.removed@.len() == 0,
            r.skipped_extra@.len() == 0,
    {
        RevertReport { restored: Vec::new(), removed: Vec::new(), skipped_extra: Vec::new() }
    }
}

/// What stands at a path, links not followed.
#[derive(Debug)]
pub enum Stat {
    Symlink,
    Dir,
    Other,
    Missing,
    Failed(std::io::Error),
}

/// Only plain permission bits are honored: a manifest carrying
/// setuid/setgid/sticky bits must not propagate them to the disk.
pub fn plain_mode(mode: u32) -> (r: u32)
    ensures
        r == mode & 0o777,
        r <= 0o777,
{
    assert(mode & 0o777 <= 0o777) by (bit_vector);
    mode & 0o777
}

/// The components of a path that name something: those that are not empty.
pub open spec fn names(cs: Seq<Seq<char>>) -> Seq<Seq<char>>
    decreases cs.len(),
{
    if cs.len() == 0 {
        cs
    } else if cs.last().len() > 0 {
        names(cs.drop_last()).push(cs.last())
    } else {
        names(cs.drop_last())
    }
}

/// The names along a path.
pub open spec fn names_of(p: Seq<char>) -> Seq<Seq<char>> {
    names(components(p))
}

/// The path of the first `n` names under `root`.
pub open spec fn under(root: Seq<char>, ns: Seq<Seq<char>>, n: int) -> Seq<char>
    decreases n,
{
    if n <= 0 {
        root
    } else {
        join_text(under(root, ns, n - 1), ns[n - 1])
    }
}

/// The directories between `root` and the file at `rel`.
pub open spec fn ancestors(root: Seq<char>, rel: Seq<char>) -> Seq<Seq<char>> {
    let ns = names_of(rel);
    Seq::new(
        if ns.len() > 0 {
            (ns.len() - 1) as nat
        } else {
            0
        },
        |i: int| under(root, ns, i + 1),
    )
}

/// The names along a path.
pub fn name_list(p: &str) -> (r: Vec<String>)
    ensures
        strs(r@) == names_of(p@),
{
    let v = chars_of(p);
    let parts = split_chars(&v, '/');
    let ghost cs = texts(parts@);
    let mut out: Vec<String> = Vec::new();
    let mut i: usize = 0;
    assert(cs.take(0) =~= Seq::empty());
    assert(strs(out@) =~= Seq::empty());
    while i < parts.len()
        invariant
            i <= parts@.len(),
            cs == texts(parts@),
            strs(out@) == names(cs.take(i as int)),
        decreases parts@.len() - i,
    {
        assert(cs[i as int] == parts@[i as int]@);
        assert(cs.take(i + 1).drop_last() =~= cs.take(i as int));
        if parts[i].len() > 0 {
            let t = text_of(&parts[i]);
            proof {
                lemma_strs_push(out@, t);
            }
            out.push(t);
        }
        i = i + 1;
    }
    assert(cs.take(i as int) =~= cs);
    out
}

/// The directories between `root` and the file at `rel`, from the top down:
/// what has to be looked at before the file is written.
pub fn dest_ancestors(root: &str, rel: &str) -> (r: Vec<String>)
    ensures
        strs(r@) == ancestors(root@, rel@),
{
    let ns = name_list(rel);
    let ghost all = names_of(rel@);
    let mut out: Vec<String> = Vec::new();
    let mut cur: String = root.to_owned();
    let mut i: usize = 0;
    assert(strs(out@) =~= Seq::empty());
    let last: usize = if ns.len() == 0 {
        0
    } else {
        ns.len() - 1
    };
    while i < last
        invariant
            i <= last,
            last == 0 || last == ns@.len() - 1,
            all == strs(ns@),
            all == names_of(rel@),
            cur@ == under(root@, all, i as int),
            strs(out@) == Seq::new(i as nat, |k: int| under(root@, all, k + 1)),
        decreases last - i,
    {
        assert(all[i as int] == ns@[i as int]@);
        cur = join(cur.as_str(), ns[i].as_str());
        let c = cur.clone();
        proof {
            lemma_strs_push(out@, c);
        }
        out.push(c);
        i = i + 1;
        assert(strs(out@) =~= Seq::new(i as nat, |k: int| under(root@, all, k + 1)));
    }
    assert(strs(out@) =~= ancestors(root@, rel@));
    out
}

/// Whether nothing stands in the way at an ancestor: a directory, or nothing
/// yet.
pub open spec fn passable(s: Stat) -> bool {
    s is Dir || s is Missing
}

/// The error for an ancestor that stands in the way.
pub open spec fn blocked(rel: Seq<char>, at: Seq<char>, s: Stat) -> ErrorView {
    match s {
        Stat::Symlink => ErrorView::UnsafePath(rel + " passes through symlink "@ + at),
        Stat::Failed(e) => ErrorView::Io(e),
        _ => ErrorView::UnsafePath(rel + " blocked by non-directory "@ + at),
    }
}

/// What resolving a destination gives: the path under the root, or the error
/// of the first ancestor that stands in the way.
pub open spec fn dest_of(
    root: Seq<char>,
    rel: Seq<char>,
    stats: Seq<Stat>,
    r: Result<String>,
) -> bool {
    match r {
        Ok(d) => safe_rel(rel) && d@ == join_text(root, rel) && forall|i: int|
            0 <= i < stats.len() ==> passable(#[trigger] stats[i]),
        Err(e) => if !safe_rel(rel) {
            e@ == ErrorView::UnsafePath(rel)
        } else {
            exists|i: int|
                0 <= i < stats.len() && !passable(#[trigger] stats[i]) && e@ == blocked(
                    rel,
                    ancestors(root, rel)[i],
                    stats[i],
                ) && forall|j: int| 0 <= j < i ==> passable(#[trigger] stats[j])
        },
    }
}

/// Resolve a manifest path to a destination inside `root`, verifying
/// that no existing ancestor component is a symlink: a planted link
/// (e.g. from an extracted archive or a malicious script) must not let
/// a revert write outside the worktree. `stats` says what stands at each of
/// `dest_ancestors`.
pub fn resolve_dest(root: &str, rel: &str, stats: Vec<Stat>) -> (r: Result<String>)
    requires
        stats@.len() == ancestors(root@, rel@).len(),
    ensures
        dest_of(root@, rel@, stats@, r),
{
    match sanitize_rel(rel) {
        Err(e) => {
            return Err(e);
        },
        Ok(_) => {},
    }
    let ghost given = stats@;
    let dirs = dest_ancestors(root, rel);
    let n: usize = stats.len();
    assert(strs(dirs@).len() == dirs@.len());
    let mut rest = stats;
    let mut i: usize = 0;
    while i < n
        invariant
            i <= n,
            n == given.len(),
            rest@ == given,
            given == stats@,
            dirs@.len() == n,
            strs(dirs@) == ancestors(root@, rel@),
            safe_rel(rel@),
            forall|j: int| 0 <= j < i ==> passable(#[trigger] given[j]),
        decreases n - i,
    {
        let ok: bool = match &rest[i] {
            Stat::Dir => true,
            Stat::Missing => true,
            _ => false,
        };
        if !ok {
            assert(strs(dirs@)[i as int] == dirs@[i as int]@);
            let r: Result<String> = Err(obstacle(rel, dirs[i].as_str(), rest.swap_remove(i)));
            assert(!passable(given[i as int]));
            return r;
        }
        i = i + 1;
    }
    Ok(join(root, rel))
}

/// The error for an ancestor that stands in the way.
fn obstacle(rel: &str, at: &str, s: Stat) -> (r: Error)
    ensures
        r@ == blocked(rel@, at@, s),
{
    let mut m: String = rel.to_owned();
    match s {
        Stat::Failed(e) => {
            return Error::Io(e);
        },
        Stat::Symlink => {
            m.append(" passes through symlink ");
        },
        _ => {
            m.append(" blocked by non-directory ");
        },
    }
    m.append(at);
    Error::UnsafePath(m)
}

/// What stands at a destination: a regular file with its content's hash, or
/// anything else or nothing. A symlink is no match: it gets replaced rather
/// than followed.
#[derive(Debug)]
pub enum Live {
    File(crate::Hash),
    Other,
}

/// The hash of the regular file that stands at a destination, where one does.
pub open spec fn found(live: Live) -> Option<Seq<u8>> {
    match live {
        Live::File(h) => Some(h@),
        Live::Other => None,
    }
}

/// Whether a destination has to be written: unless the live file already has
/// the content of the manifest.
pub fn needs_write(fe: &FileEntry, live: &Live) -> (r: bool)
    ensures
        r == (found(*live) != Some(fe@.content)),
{
    match live {
        Live::File(h) => !hash_eq(h, &fe.content),
        Live::Other => true,
    }
}

/// A file that is put together from its chunks.
pub struct Rebuild {
    hasher: blake3::Hasher,
}

impl Rebuild {
    /// The bytes so far.
    pub closed spec fn fed(&self) -> Seq<u8> {
        hasher_fed(self.hasher)
    }

    /// A file without bytes.
    pub fn new() -> (r: Rebuild)
        ensures
            r.fed() == Seq::<u8>::empty(),
    {
        Rebuild { hasher: hasher_new() }
    }

    /// Takes the next chunk from the store; returns the bytes to write. A
    /// chunk that is missing, unreadable or tampered with is an error.
    pub fn add(&mut self, store: &Store, h: &crate::Hash, read: ReadOutcome) -> (r: Result<Vec<u8>>)
        ensures
            match object_read(h@, read) {
                ObjectRead::Content(data) => r is Ok && r->Ok_0@ == data && final(self).fed()
                    == old(self).fed() + data,
                ObjectRead::Missing => r is Err && r->Err_0@ == ErrorView::MissingObject(h@),
                ObjectRead::Unreadable(e) => r is Err && r->Err_0@ == ErrorView::Io(e),
                ObjectRead::Undecodable => r is Err && r->Err_0 is Io,
                ObjectRead::Mismatch => r is Err && r->Err_0@ == ErrorView::Corrupt(
                    object_mismatch_text(h@),
                ),
            },
            r is Err ==> final(self).fed() == old(self).fed(),
    {
        match store.get_object(h, read) {
            Err(e) => Err(e),
            Ok(data) => {
                hasher_update(&mut self.hasher, data.as_slice());
                Ok(data)
            },
        }
    }

    /// Accepts the file only if its content is the one the manifest records:
    /// a tampered object aborts the revert before the swap.
    pub fn finish(self, fe: &FileEntry) -> (r: Result<()>)
        ensures
            match r {
                Ok(_) => blake3_hash(self.fed()) == fe@.content,
                Err(e) => blake3_hash(self.fed()) != fe@.content && e@ == ErrorView::Corrupt(
                    "reconstructed content mismatch for "@ + fe@.path,
                ),
            },
    {
        if !hash_eq(&hasher_finalize(&self.hasher), &fe.content) {
            let mut m: String = String::from_str("reconstructed content mismatch for ");
            m.append(fe.path.as_str());
            return Err(Error::Corrupt(m));
        }
        Ok(())
    }
}

/// Where files are put together before they are moved to their place: inside
/// the fabric dir (same filesystem as the worktree), so that the move stays
/// atomic and a pre-planted file at a predictable name can't be followed.
pub fn tmp_dir(store: &Store) -> (r: String)
    ensures
        r@ == join_text(store.fabric_text(), "tmp"@),
{
    join(store.fabric_dir().as_str(), "tmp")
}

/// A file that a revert has dealt with: its path, where it stands, the
/// permission bits it was given, the hash of the file that stood there before,
/// where one did, and the hash of the one that stands there now.
pub struct Settled {
    pub path: Seq<char>,
    pub dest: Seq<char>,
    pub mode: u32,
    pub found: Option<Seq<u8>>,
    pub content: Seq<u8>,
}

/// Whether a file was dealt with as its entry says.
pub open spec fn settles(root: Seq<char>, f: FileView, s: Settled) -> bool {
    &&& s.path == f.path
    &&& s.dest == join_text(root, f.path)
    &&& s.mode == f.mode & 0o777
    &&& s.content == f.content
}

/// Whether the files of a manifest, each of them and in their order, were
/// dealt with as their entries say.
pub open spec fn materialized(root: Seq<char>, m: ManifestView, done: Seq<Settled>) -> bool {
    &&& done.len() == m.files.len()
    &&& forall|i: int| 0 <= i < done.len() ==> settles(root, m.files[i], #[trigger] done[i])
}

/// Whether a file had to be written: unless one with its content stood there.
pub open spec fn differed(s: Settled) -> bool {
    s.found != Some(s.content)
}

/// The paths of the files that had to be written, in order.
pub open spec fn rewritten(done: Seq<Settled>) -> Seq<Seq<char>>
    decreases done.len(),
{
    if done.len() == 0 {
        Seq::empty()
    } else if differed(done.last()) {
        rewritten(done.drop_last()).push(done.last().path)
    } else {
        rewritten(done.drop_last())
    }
}

/// A revert in progress: the manifest's files are materialized one by one.
/// Defense in depth: a manifest that escapes validation anywhere must still
/// not write here, so a revert begins with it.
pub struct Apply {
    manifest: Manifest,
    root: String,
    at: usize,
    restored: Vec<String>,
    settled: Ghost<Seq<Settled>>,
}

/// A file of a revert whose destination is known to be safe.
pub struct Placed {
    apply: Apply,
    dest: String,
}

/// A file of a revert that is put together from its chunks.
pub struct Writing {
    placed: Placed,
    rebuild: Rebuild,
    chunk: usize,
    found: Ghost<Option<Seq<u8>>>,
}

/// What to do about a file.
pub enum Decision {
    /// The live file matches already: see to its permission bits and go on
    /// with the next one.
    Keep(Apply, Install),
    /// Put the file together.
    Write(Writing),
}

/// A file that is ready: once it stands at `dest`, it gets the permission bits
/// `mode`.
#[derive(Debug)]
pub struct Install {
    pub dest: String,
    pub mode: u32,
}

impl Apply {
    /// The manifest that is materialized.
    pub closed spec fn manifest(&self) -> ManifestView {
        self.manifest@
    }

    /// The worktree root.
    pub closed spec fn root(&self) -> Seq<char> {
        self.root@
    }

    /// How many files are dealt with.
    pub closed spec fn at(&self) -> int {
        self.at as int
    }

    /// The paths of the files that were written.
    pub closed spec fn restored(&self) -> Seq<Seq<char>> {
        strs(self.restored@)
    }

    /// The files that are dealt with.
    pub closed spec fn settled(&self) -> Seq<Settled> {
        self.settled@
    }

    /// The file that is next.
    pub open spec fn file(&self) -> FileView {
        self.manifest().files[self.at()]
    }

    #[verifier::type_invariant]
    spec fn wf(&self) -> bool {
        &&& valid_manifest(self.manifest@)
        &&& self.at <= self.manifest.files@.len()
        &&& self.settled@.len() == self.at
        &&& forall|i: int|
            0 <= i < self.at ==> settles(
                self.root@,
                self.manifest@.files[i],
                #[trigger] self.settled@[i],
            )
        &&& strs(self.restored@) == rewritten(self.settled@)
    }

    /// Begins to materialize `manifest` into `root`.
    pub fn begin(manifest: Manifest, root: &str) -> (r: Result<Apply>)
        ensures
            match r {
                Ok(a) => valid_manifest(manifest@) && a.manifest() == manifest@ && a.root() == root@
                    && a.at() == 0 && a.restored() == Seq::<Seq<char>>::empty() && a.settled()
                    == Seq::<Settled>::empty(),
                Err(e) => !valid_manifest(manifest@) && manifest_error(manifest@, e@),
            },
    {
        match manifest.validate() {
            Err(e) => Err(e),
            Ok(_) => {
                let restored: Vec<String> = Vec::new();
                assert(strs(restored@) =~= Seq::empty());
                let settled = Ghost(Seq::<Settled>::empty());
                Ok(Apply { manifest, root: root.to_owned(), at: 0, restored, settled })
            },
        }
    }

    /// The directories to look at before the next file is written; `None`
    /// where all files are dealt with.
    pub fn target(&self) -> (r: Option<Vec<String>>)
        ensures
            match r {
                Some(dirs) => self.at() < self.manifest().files.len() && strs(dirs@) == ancestors(
                    self.root(),
                    self.file().path,
                ),
                None => self.at() == self.manifest().files.len(),
            },
    {
        proof {
            use_type_invariant(self);
        }
        if self.at >= self.manifest.files.len() {
            return None;
        }
        assert(self.file() == self.manifest.files@[self.at as int]@);
        Some(dest_ancestors(self.root.as_str(), self.manifest.files[self.at].path.as_str()))
    }

    /// Finds the destination of the next file; `stats` says what stands at
    /// each of the directories of `target`.
    pub fn place(self, stats: Vec<Stat>) -> (r: Result<Placed>)
        requires
            self.at() < self.manifest().files.len(),
            stats@.len() == ancestors(self.root(), self.file().path).len(),
        ensures
            match r {
                Ok(p) => {
                    &&& p.apply() == self
                    &&& safe_rel(self.file().path)
                    &&& p.dest() == join_text(self.root(), self.file().path)
                    &&& forall|i: int| 0 <= i < stats@.len() ==> passable(#[trigger] stats@[i])
                },
                Err(e) => dest_of(
                    self.root(),
                    self.file().path,
                    stats@,
                    std::result::Result::<String, Error>::Err(e),
                ),
            },
    {
        proof {
            use_type_invariant(&self);
            assert(self.file() == self.manifest.files@[self.at as int]@);
        }
        match resolve_dest(
            self.root.as_str(),
            self.manifest.files[self.at].path.as_str(),
            stats,
        ) {
            Err(e) => Err(e),
            Ok(dest) => Ok(Placed { apply: self, dest }),
        }
    }

    /// All files are dealt with: what the revert did, once the extra entries
    /// are swept. Every file of the manifest stands at its place with the
    /// content and the permission bits that its entry records, and those that
    /// were restored are the ones whose content differed.
    pub fn finish(self, sweep: Sweep) -> (r: RevertReport)
        requires
            self.at() == self.manifest().files.len(),
        ensures
            materialized(self.root(), self.manifest(), self.settled()),
            strs(r.restored@) == self.restored(),
            strs(r.restored@) == rewritten(self.settled()),
            r.removed@ == sweep.removed@,
            r.skipped_extra@ == sweep.skipped@,
    {
        proof {
            use_type_invariant(&self);
        }
        RevertReport {
            restored: self.restored,
            removed: sweep.removed,
            skipped_extra: sweep.skipped,
        }
    }

    /// All files are dealt with: the extra entries of the worktree, see
    /// `sweep`.
    pub fn extras(&self, keep_extra: bool, standing: &Vec<String>, walk: &Vec<Walked>) -> (r: Sweep)
        requires
            self.at() == self.manifest().files.len(),
        ensures
            swept(self.manifest(), keep_extra, strs(standing@), walk@, r),
    {
        sweep(&self.manifest, keep_extra, standing, walk)
    }
}

impl Placed {
    /// The revert that this is a step of.
    pub closed spec fn apply(&self) -> Apply {
        self.apply
    }

    /// Where the file goes.
    pub closed spec fn dest(&self) -> Seq<char> {
        self.dest@
    }

    #[verifier::type_invariant]
    spec fn wf(&self) -> bool {
        &&& self.apply.at < self.apply.manifest.files@.len()
        &&& self.dest@ == join_text(self.apply.root@, self.apply.file().path)
    }

    /// Where the file goes.
    pub fn destination(&self) -> (r: &str)
        ensures
            r@ == self.dest(),
    {
        self.dest.as_str()
    }

    /// Decides whether the file has to be written, from what stands at its
    /// destination: not, if that has the content already.
    pub fn decide(self, live: &Live) -> (r: Decision)
        ensures
            ({
                let a = self.apply();
                let same = found(*live) == Some(a.file().content);
                match r {
                    Decision::Keep(n, i) => {
                        &&& same
                        &&& live is File && live->File_0@ == a.file().content
                        &&& i.dest@ == self.dest()
                        &&& i.mode == a.file().mode & 0o777
                        &&& n.manifest() == a.manifest()
                        &&& n.root() == a.root()
                        &&& n.at() == a.at() + 1
                        &&& n.restored() == a.restored()
                        &&& n.settled() == a.settled().push(
                            (Settled {
                                path: a.file().path,
                                dest: i.dest@,
                                mode: i.mode,
                                found: found(*live),
                                content: live->File_0@,
                            }),
                        )
                    },
                    Decision::Write(w) => {
                        &&& !same
                        &&& live is File ==> live->File_0@ != a.file().content
                        &&& w.placed() == self
                        &&& w.found() == found(*live)
                        &&& w.taken() == 0
                        &&& w.fed() == Seq::<u8>::empty()
                    },
                }
            }),
    {
        proof {
            use_type_invariant(&self);
            use_type_invariant(&self.apply);
            let a = self.apply;
            assert(a.file() == a.manifest.files@[a.at as int]@);
        }
        if needs_write(&self.apply.manifest.files[self.apply.at], live) {
            return Decision::Write(
                Writing {
                    placed: self,
                    rebuild: Rebuild::new(),
                    chunk: 0,
                    found: Ghost(found(*live)),
                },
            );
        }
        let Placed { apply, dest } = self;
        let Apply { manifest, root, at, restored, settled: Ghost(done) } = apply;
        let mode: u32 = plain_mode(manifest.files[at].mode);
        let ghost now = done.push(
            Settled {
                path: manifest@.files[at as int].path,
                dest: dest@,
                mode,
                found: found(*live),
                content: live->File_0@,
            },
        );
        assert(now.drop_last() =~= done);
        Decision::Keep(
            Apply { manifest, root, at: at + 1, restored, settled: Ghost(now) },
            Install { dest, mode },
        )
    }
}

impl Writing {
    /// The placed file.
    pub closed spec fn placed(&self) -> Placed {
        self.placed
    }

    /// How many chunks were taken.
    pub closed spec fn taken(&self) -> int {
        self.chunk as int
    }

    /// The bytes so far.
    pub closed spec fn fed(&self) -> Seq<u8> {
        self.rebuild.fed()
    }

    /// The hash of the file that stood at the destination, where one did.
    pub closed spec fn found(&self) -> Option<Seq<u8>> {
        self.found@
    }

    /// The entry of the file.
    pub open spec fn file(&self) -> FileView {
        self.placed().apply().file()
    }

    #[verifier::type_invariant]
    spec fn wf(&self) -> bool {
        &&& self.placed.apply.at < self.placed.apply.manifest.files@.len()
        &&& self.chunk <= self.placed.apply.manifest.files@[self.placed.apply.at as int].chunks@.len()
        &&& self.found@ != Some(self.placed.apply.file().content)
    }

    /// The chunk that is next; `None` where the file is complete.
    pub fn next_chunk(&self) -> (r: Option<crate::Hash>)
        ensures
            match r {
                Some(h) => self.taken() < self.file().chunks.len() && h@
                    == self.file().chunks[self.taken()],
                None => self.taken() == self.file().chunks.len(),
            },
    {
        proof {
            use_type_invariant(self);
            let a = self.placed.apply;
            assert(self.file() == a.manifest.files@[a.at as int]@);
        }
        let fe = &self.placed.apply.manifest.files[self.placed.apply.at];
        if self.chunk < fe.chunks.len() {
            Some(fe.chunks[self.chunk])
        } else {
            None
        }
    }

    /// Takes the next chunk from the store; returns the bytes to write.
    pub fn add(self, store: &Store, read: ReadOutcome) -> (r: Result<(Writing, Vec<u8>)>)
        requires
            self.taken() < self.file().chunks.len(),
        ensures
            ({
                let h = self.file().chunks[self.taken()];
                match object_read(h, read) {
                    ObjectRead::Content(data) => r is Ok && r->Ok_0.1@ == data && r->Ok_0.0.placed()
                        == self.placed() && r->Ok_0.0.found() == self.found()
                        && r->Ok_0.0.taken() == self.taken() + 1 && r->Ok_0.0.fed() == self.fed()
                        + data,
                    ObjectRead::Missing => r is Err && r->Err_0@ == ErrorView::MissingObject(h),
                    ObjectRead::Unreadable(e) => r is Err && r->Err_0@ == ErrorView::Io(e),
                    ObjectRead::Undecodable => r is Err && r->Err_0 is Io,
                    ObjectRead::Mismatch => r is Err && r->Err_0@ == ErrorView::Corrupt(
                        object_mismatch_text(h),
                    ),
                }
            }),
    {
        proof {
            use_type_invariant(&self);
            let a = self.placed.apply;
            assert(self.file() == a.manifest.files@[a.at as int]@);
        }
        let Writing { placed, mut rebuild, chunk, found } = self;
        assert(chunk < placed.apply.manifest.files[placed.apply.at as int].chunks.len());
        let h = placed.apply.manifest.files[placed.apply.at].chunks[chunk];
        match rebuild.add(store, &h, read) {
            Err(e) => Err(e),
            Ok(data) => Ok((Writing { placed, rebuild, chunk: chunk + 1, found }, data)),
        }
    }

    /// The file is complete: it is installed only if its content is the one
    /// the manifest records. A tampered object aborts the revert before the
    /// swap.
    pub fn finish(self) -> (r: Result<(Apply, Install)>)
        ensures
            ({
                let a = self.placed().apply();
                match r {
                    Ok(p) => {
                        &&& blake3_hash(self.fed()) == self.file().content
                        &&& p.0.manifest() == a.manifest()
                        &&& p.0.root() == a.root()
                        &&& p.0.at() == a.at() + 1
                        &&& p.0.restored() == a.restored().push(self.file().path)
                        &&& p.0.settled() == a.settled().push(
                            (Settled {
                                path: self.file().path,
                                dest: p.1.dest@,
                                mode: p.1.mode,
                                found: self.found(),
                                content: blake3_hash(self.fed()),
                            }),
                        )
                        &&& p.1.dest@ == self.placed().dest()
                        &&& p.1.mode == self.file().mode & 0o777
                    },
                    Err(e) => blake3_hash(self.fed()) != self.file().content && e@
                        == ErrorView::Corrupt(
                        "reconstructed content mismatch for "@ + self.file().path,
                    ),
                }
            }),
    {
        proof {
            use_type_invariant(&self);
            let a = self.placed.apply;
            use_type_invariant(&self.placed);
            use_type_invariant(&self.placed.apply);
            assert(self.file() == a.manifest.files@[a.at as int]@);
        }
        let ghost before = self.found();
        let ghost bytes = self.fed();
        let Writing { placed, rebuild, chunk: _, found: _ } = self;
        let Placed { apply, dest } = placed;
        match rebuild.finish(&apply.manifest.files[apply.at]) {
            Err(e) => Err(e),
            Ok(_) => {
                let Apply { manifest, root, at, mut restored, settled: Ghost(done) } = apply;
                let path = manifest.files[at].path.clone();
                let mode: u32 = plain_mode(manifest.files[at].mode);
                proof {
                    lemma_strs_push(restored@, path);
                }
                restored.push(path);
                let ghost now = done.push(
                    Settled {
                        path: manifest@.files[at as int].path,
                        dest: dest@,
                        mode,
                        found: before,
                        content: blake3_hash(bytes),
                    },
                );
                assert(now.drop_last() =~= done);
                Ok(
                    (
                        Apply { manifest, root, at: at + 1, restored, settled: Ghost(now) },
                        Install { dest, mode },
                    ),
                )
            },
        }
    }
}

/// An entry of the worktree: its path relative to the root, and whether it is
/// a regular file or a symlink.
#[derive(Debug)]
pub struct Walked {
    pub rel: String,
    pub removable: bool,
}

/// Whether the manifest does not know about a worktree entry, which is not one
/// of those that were `standing` before. Symlinks count as removable entries:
/// a link the manifest doesn't know about gets unlinked (the link itself,
/// never its target).
pub open spec fn is_extra(m: ManifestView, standing: Seq<Seq<char>>, w: Walked) -> bool {
    w.removable && !is_excluded(w.rel@) && entry_of(m.files, slashed(w.rel@)) is None
        && !standing.contains(w.rel@)
}

/// The positions of the extra entries.
pub open spec fn extras_at(m: ManifestView, standing: Seq<Seq<char>>, walk: Seq<Walked>) -> Seq<int>
    decreases walk.len(),
{
    if walk.len() == 0 {
        Seq::empty()
    } else if is_extra(m, standing, walk.last()) {
        extras_at(m, standing, walk.drop_last()).push(walk.len() - 1)
    } else {
        extras_at(m, standing, walk.drop_last())
    }
}

/// The paths of the extra entries.
pub open spec fn extra_paths(
    m: ManifestView,
    standing: Seq<Seq<char>>,
    walk: Seq<Walked>,
) -> Seq<Seq<char>>
    decreases walk.len(),
{
    if walk.len() == 0 {
        Seq::empty()
    } else if is_extra(m, standing, walk.last()) {
        extra_paths(m, standing, walk.drop_last()).push(slashed(walk.last().rel@))
    } else {
        extra_paths(m, standing, walk.drop_last())
    }
}

/// What to do about entries that the manifest does not know about.
#[derive(Debug)]
pub struct Sweep {
    /// Positions of the entries to remove, in order.
    pub remove: Vec<usize>,
    /// Their paths.
    pub removed: Vec<String>,
    /// Paths of the entries that are kept.
    pub skipped: Vec<String>,
}

/// Whether `r` says what to do: remove the extra entries, or keep them where
/// `keep_extra` is set.
pub open spec fn swept(
    m: ManifestView,
    keep_extra: bool,
    standing: Seq<Seq<char>>,
    walk: Seq<Walked>,
    r: Sweep,
) -> bool {
    if keep_extra {
        &&& r.remove@.len() == 0
        &&& r.removed@.len() == 0
        &&& strs(r.skipped@) == extra_paths(m, standing, walk)
    } else {
        &&& r.remove@.map_values(|i: usize| i as int) == extras_at(m, standing, walk)
        &&& strs(r.removed@) == extra_paths(m, standing, walk)
        &&& r.skipped@.len() == 0
    }
}

/// Find the entries the manifest doesn't know about: they are removed, or
/// kept where `keep_extra` is set. Entries that were `standing` before the
/// work that is undone, and that its snapshot left out, are no concern of it:
/// they are left alone.
pub fn sweep(
    manifest: &Manifest,
    keep_extra: bool,
    standing: &Vec<String>,
    walk: &Vec<Walked>,
) -> (r: Sweep)
    ensures
        swept(manifest@, keep_extra, strs(standing@), walk@, r),
{
    let stood = TextIndex::new(standing);
    let ghost standing = strs(standing@);
    let wanted = TextIndex::new(&paths_of(&manifest.files));
    let ghost m = manifest@;
    let mut at: Vec<usize> = Vec::new();
    let mut extra: Vec<String> = Vec::new();
    let mut i: usize = 0;
    let ghost as_int = |i: usize| i as int;
    proof {
        assert(walk@.take(0) =~= Seq::empty());
        assert(strs(extra@) =~= Seq::empty());
        assert(at@.map_values(as_int) =~= Seq::empty());
    }
    while i < walk.len()
        invariant
            i <= walk@.len(),
            m == manifest@,
            wanted.source() == paths(m.files),
            stood.source() == standing,
            as_int == |i: usize| i as int,
            at@.map_values(as_int) == extras_at(m, standing, walk@.take(i as int)),
            strs(extra@) == extra_paths(m, standing, walk@.take(i as int)),
        decreases walk@.len() - i,
    {
        let w = &walk[i];
        proof {
            assert(walk@.take(i + 1).drop_last() =~= walk@.take(i as int));
            lemma_entry_some(m.files, slashed(w.rel@));
        }
        let left: bool = match stood.lookup(w.rel.as_str()) {
            Some(k) => {
                assert(standing[k as int] == w.rel@);
                true
            },
            None => false,
        };
        if w.removable && !left && !excluded(w.rel.as_str()) {
            let path = with_slashes(w.rel.as_str());
            match wanted.lookup(path.as_str()) {
                Some(k) => {
                    assert(paths(m.files)[k as int] == path@);
                },
                None => {
                    let ghost had = at@.map_values(as_int);
                    proof {
                        lemma_strs_push(extra@, path);
                    }
                    at.push(i);
                    extra.push(path);
                    assert(at@.map_values(as_int) =~= had.push(i as int));
                },
            }
        }
        i = i + 1;
    }
    assert(walk@.take(i as int) =~= walk@);
    if keep_extra {
        Sweep { remove: Vec::new(), removed: Vec::new(), skipped: extra }
    } else {
        Sweep { remove: at, removed: extra, skipped: Vec::new() }
    }
}

/// How deep a path lies.
pub open spec fn depth(p: Seq<char>) -> nat {
    names_of(p).len()
}

/// Whether a directory may be pruned: neither fabric internals nor one that
/// was standing before.
pub open spec fn prunable(standing: Seq<Seq<char>>, dir: Seq<char>) -> bool {
    !is_excluded(dir) && !standing.contains(dir)
}

/// The directories at one depth that may be pruned, in their order.
pub open spec fn at_depth(dirs: Seq<Seq<char>>, standing: Seq<Seq<char>>, d: nat) -> Seq<Seq<char>>
    decreases dirs.len(),
{
    if dirs.len() == 0 {
        dirs
    } else if prunable(standing, dirs.last()) && depth(dirs.last()) == d {
        at_depth(dirs.drop_last(), standing, d).push(dirs.last())
    } else {
        at_depth(dirs.drop_last(), standing, d)
    }
}

/// The directories that may be pruned down to depth `d`, deepest first.
pub open spec fn deepest_first(
    dirs: Seq<Seq<char>>,
    standing: Seq<Seq<char>>,
    d: nat,
) -> Seq<Seq<char>>
    decreases d,
{
    if d == 0 {
        at_depth(dirs, standing, 0)
    } else {
        at_depth(dirs, standing, d) + deepest_first(dirs, standing, (d - 1) as nat)
    }
}

/// The order in which to try to remove directories under the root: deepest
/// first, those of one depth in the order given, without fabric internals and
/// without those that were `standing` before.
pub fn prune_order(dirs: &Vec<String>, standing: &Vec<String>) -> (r: Vec<String>)
    ensures
        exists|top: nat|
            strs(r@) == #[trigger] deepest_first(strs(dirs@), strs(standing@), top) && forall|i: int|
                0 <= i < dirs@.len() ==> depth((#[trigger] dirs@[i])@) <= top,
{
    let stood = TextIndex::new(standing);
    let ghost standing = strs(standing@);
    let ghost all = strs(dirs@);
    let mut depths: Vec<usize> = Vec::new();
    let mut top: usize = 0;
    let mut i: usize = 0;
    while i < dirs.len()
        invariant
            i <= dirs@.len(),
            all == strs(dirs@),
            depths@.len() == i,
            forall|k: int| 0 <= k < i ==> #[trigger] depths@[k] == depth(all[k]),
            forall|k: int| 0 <= k < i ==> depth(#[trigger] all[k]) <= top,
        decreases dirs@.len() - i,
    {
        let ns = name_list(dirs[i].as_str());
        let d: usize = ns.len();
        assert(all[i as int] == dirs@[i as int]@);
        assert(strs(ns@).len() == d);
        if d > top {
            top = d;
        }
        depths.push(d);
        i = i + 1;
    }
    let mut out: Vec<String> = Vec::new();
    let mut d: usize = top;
    let mut going: bool = true;
    assert(strs(out@) =~= Seq::empty());
    assert(Seq::<Seq<char>>::empty() + deepest_first(all, standing, top as nat) =~= deepest_first(
        all,
        standing,
        top as nat,
    ));
    while going
        invariant
            all == strs(dirs@),
            stood.source() == standing,
            depths@.len() == dirs@.len(),
            forall|k: int| 0 <= k < depths@.len() ==> #[trigger] depths@[k] == depth(all[k]),
            going ==> strs(out@) + deepest_first(all, standing, d as nat) == deepest_first(
                all,
                standing,
                top as nat,
            ),
            !going ==> strs(out@) == deepest_first(all, standing, top as nat),
        decreases d + if going { 1int } else { 0int },
    {
        let ghost before = strs(out@);
        let mut k: usize = 0;
        assert(all.take(0) =~= Seq::empty());
        assert(before + at_depth(all.take(0), standing, d as nat) =~= before);
        while k < dirs.len()
            invariant
                k <= dirs@.len(),
                all == strs(dirs@),
                stood.source() == standing,
                depths@.len() == dirs@.len(),
                forall|j: int| 0 <= j < depths@.len() ==> #[trigger] depths@[j] == depth(all[j]),
                strs(out@) == before + at_depth(all.take(k as int), standing, d as nat),
            decreases dirs@.len() - k,
        {
            assert(all[k as int] == dirs@[k as int]@);
            assert(all.take(k + 1).drop_last() =~= all.take(k as int));
            assert(depths@[k as int] == depth(all[k as int]));
            let left: bool = match stood.lookup(dirs[k].as_str()) {
                Some(j) => {
                    assert(standing[j as int] == all[k as int]);
                    true
                },
                None => false,
            };
            if depths[k] == d && !left && !excluded(dirs[k].as_str()) {
                let c = dirs[k].clone();
                proof {
                    lemma_strs_push(out@, c);
                    assert((before + at_depth(all.take(k as int), standing, d as nat)).push(c@) =~= before
                        + at_depth(all.take(k as int), standing, d as nat).push(c@));
                }
                out.push(c);
            }
            k = k + 1;
        }
        assert(all.take(k as int) =~= all);
        if d == 0 {
            going = false;
        } else {
            d = d - 1;
            assert(strs(out@) + deepest_first(all, standing, d as nat) =~= before + deepest_first(
                all,
                standing,
                (d + 1) as nat,
            ));
        }
    }
    assert forall|i: int| 0 <= i < dirs@.len() implies depth((#[trigger] dirs@[i])@) <= top by {
        assert(all[i] == dirs@[i]@);
    }
    out
}

/// What a revert is checked against before it may destroy work: the snapshot
/// at HEAD, compared by content; without one, an empty tree.
pub fn gate_baseline(head: Option<Manifest>) -> (r: (Manifest, bool))
    ensures
        match head {
            Some(m) => r.0 == m && r.1,
            None => r.0@ == (ManifestView {
                version: MANIFEST_VERSION,
                parent: None,
                timestamp_secs: 0,
                message: Seq::empty(),
                files: Seq::empty(),
                unstable: Seq::empty(),
            }) && !r.1,
        },
{
    match head {
        // Full rehash: this gate decides whether to destroy work, so the
        // mtime fast path is not trusted here.
        Some(m) => (m, true),
        None => {
            let files: Vec<FileEntry> = Vec::new();
            let unstable: Vec<String> = Vec::new();
            assert(file_views(files@) =~= Seq::empty());
            assert(strs(unstable@) =~= Seq::empty());
            (
                Manifest {
                    version: MANIFEST_VERSION,
                    parent: None,
                    timestamp_secs: 0,
                    message: String::new(),
                    files,
                    unstable,
                },
                false,
            )
        },
    }
}

/// Whether there is work that a revert would destroy: new, changed or missing
/// files. Metadata does not count.
pub open spec fn is_dirty(report: DriftReport) -> bool {
    report.added@.len() > 0 || report.modified@.len() > 0 || report.deleted@.len() > 0
}

/// Drift check before a revert: refuses one that would silently destroy
/// un-snapshotted work. Whether the revert may go on.
pub fn check_then_apply(report: &DriftReport, force: bool) -> (r: bool)
    ensures
        r == (force || !is_dirty(*report)),
        force ==> r,
        !force ==> (r <==> report.added@.len() == 0 && report.modified@.len() == 0
            && report.deleted@.len() == 0),
{
    let dirty: bool = report.added.len() != 0 || report.modified.len() != 0 || report.deleted.len()
        != 0;
    !dirty || force
}

/// A revert that was not forced destroys no work: where it goes on after a full
/// comparison of the tree with HEAD's snapshot, every file of the tree that
/// counts has an entry in that snapshot, with its content, and every file of
/// the snapshot is in the tree. `goes` says whether the revert goes on.
pub proof fn unforced_revert_destroys_nothing(
    head: ManifestView,
    ignore: Seq<Seq<char>>,
    walk: Seq<crate::drift::Observed>,
    report: DriftReport,
    goes: bool,
)
    requires
        drift_of(head, ignore, true, walk, report),
        goes == !is_dirty(report),
    ensures
        goes <==> report.added@.len() == 0 && report.modified@.len() == 0 && report.deleted@.len()
            == 0,
        goes ==> forall|i: int|
            0 <= i < walk.len() && !left_out((#[trigger] walk[i]).rel@, ignore) ==> exists|k: int|
                0 <= k < head.files.len() && (#[trigger] head.files[k]).path == slashed(
                    walk[i].rel@,
                ) && head.files[k].content == walk[i].content->Some_0@,
        goes ==> forall|k: int|
            0 <= k < head.files.len() ==> exists|i: int|
                0 <= i < walk.len() && !left_out((#[trigger] walk[i]).rel@, ignore) && slashed(
                    walk[i].rel@,
                ) == (#[trigger] head.files[k]).path,
{
    if goes {
        drift_lists_say(head, ignore, true, walk, report);
        assert forall|i: int|
            0 <= i < walk.len() && !left_out((#[trigger] walk[i]).rel@, ignore) implies exists|
            k: int,
        |
            0 <= k < head.files.len() && (#[trigger] head.files[k]).path == slashed(walk[i].rel@)
                && head.files[k].content == walk[i].content->Some_0@ by {
            let p = slashed(walk[i].rel@);
            assert(!strs(report.added@).contains(p));
            assert(!strs(report.modified@).contains(p));
            entry_is_the_last_of_its_path(head.files, p);
        }
        assert forall|k: int| 0 <= k < head.files.len() implies exists|i: int|
            0 <= i < walk.len() && !left_out((#[trigger] walk[i]).rel@, ignore) && slashed(
                walk[i].rel@,
            ) == (#[trigger] head.files[k]).path by {
            let p = head.files[k].path;
            entry_is_the_last_of_its_path(head.files, p);
            assert(!strs(report.deleted@).contains(p));
        }
    }
}

/// A captured file is restored byte for byte: reading back the objects that
/// its capture wrote and putting them together gives the content that was
/// captured, and the revert accepts it.
pub proof fn captured_file_is_restored(
    store: Store,
    fe: FileView,
    ps: Seq<Seq<u8>>,
    writes: Seq<FileWrite>,
    got: Seq<Seq<u8>>,
)
    requires
        records(fe, ps),
        writes.len() == ps.len(),
        got.len() == ps.len(),
        forall|i: int|
            0 <= i < ps.len() ==> store.writes_object(
                #[trigger] blake3_hash(ps[i]),
                ps[i],
                writes[i],
            ),
        forall|i: int|
            0 <= i < ps.len() ==> object_read(
                fe.chunks[i],
                ReadOutcome::Data(#[trigger] writes[i].data),
            ) == ObjectRead::Content(got[i]),
    ensures
        concat(got) == concat(ps),
        blake3_hash(concat(got)) == fe.content,
{
    assert forall|i: int| 0 <= i < ps.len() implies got[i] == ps[i] by {
        let h = blake3_hash(ps[i]);
        assert(fe.chunks[i] == h);
        assert(store.writes_object(h, ps[i], writes[i]));
        let d = writes[i].data;
        assert(object_read(fe.chunks[i], ReadOutcome::Data(d)) == ObjectRead::Content(got[i]));
    }
    assert(got =~= ps);
}

/// A file that a revert keeps has the content that was captured, unless the
/// two collide under BLAKE3.
pub proof fn kept_file_has_the_captured_content(fe: FileView, ps: Seq<Seq<u8>>, live: Seq<u8>)
    requires
        records(fe, ps),
        blake3_hash(live) == fe.content,
    ensures
        live == concat(ps) || collide(live, concat(ps)),
{
}

/// A revert that is through has restored exactly the files of the manifest
/// whose content was not what stood at their place, and where it restored
/// nothing, all of them stood there before.
pub proof fn revert_restores_what_differed(
    root: Seq<char>,
    m: ManifestView,
    done: Seq<Settled>,
    p: Seq<char>,
)
    requires
        materialized(root, m, done),
    ensures
        rewritten(done).contains(p) <==> exists|i: int|
            0 <= i < m.files.len() && m.files[i].path == p && (#[trigger] done[i]).found != Some(
                m.files[i].content,
            ),
        rewritten(done).len() == 0 ==> forall|i: int|
            0 <= i < m.files.len() ==> (#[trigger] done[i]).found == Some(m.files[i].content),
{
    lemma_rewritten(done, p);
    if rewritten(done).contains(p) {
        let i = choose|i: int|
            0 <= i < done.len() && differed(#[trigger] done[i]) && done[i].path == p;
        assert(settles(root, m.files[i], done[i]));
    }
    if exists|i: int|
        0 <= i < m.files.len() && m.files[i].path == p && (#[trigger] done[i]).found != Some(
            m.files[i].content,
        ) {
        let i = choose|i: int|
            0 <= i < m.files.len() && m.files[i].path == p && (#[trigger] done[i]).found != Some(
                m.files[i].content,
            );
        assert(settles(root, m.files[i], done[i]));
        assert(differed(done[i]));
    }
    if rewritten(done).len() == 0 {
        assert forall|i: int| 0 <= i < m.files.len() implies (#[trigger] done[i]).found == Some(
            m.files[i].content,
        ) by {
            lemma_rewritten(done, done[i].path);
            assert(settles(root, m.files[i], done[i]));
        }
    }
}

proof fn lemma_rewritten(done: Seq<Settled>, p: Seq<char>)
    ensures
        rewritten(done).contains(p) <==> exists|i: int|
            0 <= i < done.len() && differed(#[trigger] done[i]) && done[i].path == p,
    decreases done.len(),
{
    if done.len() > 0 {
        let rest = done.drop_last();
        let l = done.last();
        lemma_rewritten(rest, p);
        lemma_push_has(rewritten(rest), l.path, p);
        if rewritten(rest).contains(p) {
            let i = choose|i: int|
                0 <= i < rest.len() && differed(#[trigger] rest[i]) && rest[i].path == p;
            assert(differed(done[i]) && done[i].path == p);
        }
        if exists|i: int| 0 <= i < done.len() && differed(#[trigger] done[i]) && done[i].path == p {
            let i = choose|i: int|
                0 <= i < done.len() && differed(#[trigger] done[i]) && done[i].path == p;
            if i < rest.len() {
                assert(differed(rest[i]) && rest[i].path == p);
            }
        }
    }
}

/// A path that a revert writes to lies under the root: the root, one
/// separator, and components none of which leads back up.
pub proof fn destination_stays_under_root(
    root: Seq<char>,
    rel: Seq<char>,
    stats: Seq<Stat>,
    r: Result<String>,
)
    requires
        dest_of(root, rel, stats, r),
        r is Ok,
        root.len() > 0,
        root.last() != '/',
    ensures
        r->Ok_0@ == root + seq!['/'] + rel,
        forall|i: int|
            0 <= i < components(rel).len() ==> (#[trigger] components(rel)[i]) != seq!['.', '.']
                && components(rel)[i] != seq!['.'],
{
    assert forall|i: int| 0 <= i < components(rel).len() implies (#[trigger] components(rel)[i])
        != seq!['.', '.'] && components(rel)[i] != seq!['.'] by {
        assert(plain_component(components(rel)[i]));
    }
}

/// A revert never goes through a symlink.
pub proof fn no_write_through_symlink(
    root: Seq<char>,
    rel: Seq<char>,
    stats: Seq<Stat>,
    r: Result<String>,
    i: int,
)
    requires
        dest_of(root, rel, stats, r),
        0 <= i < stats.len(),
        stats[i] is Symlink,
    ensures
        r is Err,
{
}

proof fn lemma_extras_at(m: ManifestView, standing: Seq<Seq<char>>, walk: Seq<Walked>)
    ensures
        forall|i: int| #[trigger]
            extras_at(m, standing, walk).contains(i) <==> 0 <= i < walk.len() && is_extra(
                m,
                standing,
                walk[i],
            ),
    decreases walk.len(),
{
    if walk.len() > 0 {
        let rest = walk.drop_last();
        lemma_extras_at(m, standing, rest);
        let had = extras_at(m, standing, rest);
        let all = extras_at(m, standing, walk);
        assert forall|i: int| #[trigger] all.contains(i) <==> 0 <= i < walk.len() && is_extra(
            m,
            standing,
            walk[i],
        ) by {
            lemma_push_has(had, walk.len() - 1, i);
            assert(had.contains(i) <==> 0 <= i < rest.len() && is_extra(m, standing, rest[i]));
        }
    }
}

/// What a revert removes is unknown to the manifest and lies outside the
/// fabric and git's directory; everything the manifest does not know is
/// removed, but for what was standing before.
pub proof fn sweep_removes_exactly_the_extras(
    m: ManifestView,
    standing: Seq<Seq<char>>,
    walk: Seq<Walked>,
    i: int,
)
    ensures
        extras_at(m, standing, walk).contains(i) <==> 0 <= i < walk.len() && walk[i].removable
            && !is_excluded(walk[i].rel@) && entry_of(m.files, slashed(walk[i].rel@)) is None
            && !standing.contains(walk[i].rel@),
{
    lemma_extras_at(m, standing, walk);
}

proof fn lemma_at_depth(dirs: Seq<Seq<char>>, standing: Seq<Seq<char>>, d: nat)
    ensures
        forall|i: int|
            0 <= i < at_depth(dirs, standing, d).len() ==> depth(
                #[trigger] at_depth(dirs, standing, d)[i],
            ) == d,
        forall|p: Seq<char>| #[trigger]
            at_depth(dirs, standing, d).contains(p) <==> dirs.contains(p) && prunable(standing, p) && depth(p)
                == d,
    decreases dirs.len(),
{
    if dirs.len() > 0 {
        let rest = dirs.drop_last();
        let l = dirs.last();
        lemma_at_depth(rest, standing, d);
        let had = at_depth(rest, standing, d);
        let all = at_depth(dirs, standing, d);
        assert(dirs =~= rest.push(l));
        assert forall|p: Seq<char>| #[trigger]
            all.contains(p) <==> dirs.contains(p) && prunable(standing, p) && depth(p) == d by {
            lemma_push_has(rest, l, p);
            lemma_push_has(had, l, p);
            assert(had.contains(p) <==> rest.contains(p) && prunable(standing, p) && depth(p) == d);
        }
        assert forall|i: int| 0 <= i < all.len() implies depth(#[trigger] all[i]) == d by {
            if i < had.len() {
                assert(depth(had[i]) == d);
            }
        }
    }
}

/// Directories are pruned from the bottom up, so that one that held only
/// empty directories is empty when its turn comes; and none of the fabric's, nor
/// one that was standing before.
pub proof fn pruning_goes_bottom_up(
    dirs: Seq<Seq<char>>,
    standing: Seq<Seq<char>>,
    top: nat,
)
    ensures
        forall|i: int, j: int|
            0 <= i < j < deepest_first(dirs, standing, top).len() ==> depth(
                #[trigger] deepest_first(dirs, standing, top)[i],
            ) >= depth(#[trigger] deepest_first(dirs, standing, top)[j]),
        forall|p: Seq<char>| #[trigger]
            deepest_first(dirs, standing, top).contains(p) <==> dirs.contains(p) && !is_excluded(p)
                && !standing.contains(p) && names_of(p).len() <= top,
    decreases top,
{
    lemma_at_depth(dirs, standing, top);
    let a = at_depth(dirs, standing, top);
    let all = deepest_first(dirs, standing, top);
    if top > 0 {
        let b = deepest_first(dirs, standing, (top - 1) as nat);
        pruning_goes_bottom_up(dirs, standing, (top - 1) as nat);
        assert forall|j: int| 0 <= j < b.len() implies depth(#[trigger] b[j]) < top by {
            assert(b.contains(b[j]));
        }
        assert forall|i: int, j: int| 0 <= i < j < all.len() implies depth(#[trigger] all[i])
            >= depth(#[trigger] all[j]) by {
            if i >= a.len() {
                assert(depth(b[i - a.len()]) >= depth(b[j - a.len()]));
            } else if j < a.len() {
                assert(depth(a[i]) == top && depth(a[j]) == top);
            } else {
                assert(depth(a[i]) == top && depth(b[j - a.len()]) < top);
            }
        }
        assert forall|p: Seq<char>| #[trigger]
            all.contains(p) <==> dirs.contains(p) && prunable(standing, p) && depth(p) <= top by {
            lemma_plus_has(a, b, p);
            assert(a.contains(p) <==> dirs.contains(p) && prunable(standing, p) && depth(p) == top);
            assert(b.contains(p) <==> dirs.contains(p) && prunable(standing, p) && depth(p) <= top - 1);
        }
    }
}

/// A revert that is through has put every file of the manifest in its place:
/// under the root, at its path, with its content and its permission bits.
pub proof fn revert_puts_every_file_in_place(
    root: Seq<char>,
    m: ManifestView,
    done: Seq<Settled>,
    i: int,
)
    requires
        materialized(root, m, done),
        0 <= i < m.files.len(),
    ensures
        done.len() == m.files.len(),
        done[i].path == m.files[i].path,
        done[i].dest == join_text(root, m.files[i].path),
        done[i].content == m.files[i].content,
        done[i].mode == m.files[i].mode & 0o777,
{
    assert(settles(root, m.files[i], done[i]));
}

/// A destination is found exactly where the path is safe and every directory
/// on the way is one or is not there yet; a symlink, a file or an error on the
/// way stops the revert.
pub proof fn destination_is_found_exactly(
    root: Seq<char>,
    rel: Seq<char>,
    stats: Seq<Stat>,
    r: Result<String>,
)
    requires
        dest_of(root, rel, stats, r),
    ensures
        r is Ok <==> safe_rel(rel) && forall|i: int|
            0 <= i < stats.len() ==> (#[trigger] stats[i]) is Dir || stats[i] is Missing,
        r is Ok ==> r->Ok_0@ == join_text(root, rel),
{
    if r is Err && safe_rel(rel) {
        let i = choose|i: int|
            0 <= i < stats.len() && !passable(#[trigger] stats[i]) && r->Err_0@ == blocked(
                rel,
                ancestors(root, rel)[i],
                stats[i],
            ) && forall|j: int| 0 <= j < i ==> passable(#[trigger] stats[j]);
        assert(!passable(stats[i]));
    }
    if r is Ok {
        assert forall|i: int| 0 <= i < stats.len() implies (#[trigger] stats[i]) is Dir
            || stats[i] is Missing by {
            assert(passable(stats[i]));
        }
    }
}

proof fn lemma_names_plain(cs: Seq<Seq<char>>)
    requires
        forall|i: int| 0 <= i < cs.len() ==> (#[trigger] cs[i]).len() > 0,
    ensures
        names(cs) == cs,
    decreases cs.len(),
{
    if cs.len() > 0 {
        let rest = cs.drop_last();
        assert forall|i: int| 0 <= i < rest.len() implies (#[trigger] rest[i]).len() > 0 by {
            assert(cs[i].len() > 0);
        }
        lemma_names_plain(rest);
        assert(cs[cs.len() - 1].len() > 0);
        assert(rest.push(cs.last()) =~= cs);
    }
}

/// The names along a path are the pieces between its separators, without the
/// empty ones.
pub proof fn names_are_what_stands_between_separators(cs: Seq<Seq<char>>)
    requires
        cs.len() > 0,
        forall|i: int| 0 <= i < cs.len() ==> !(#[trigger] cs[i]).contains('/'),
    ensures
        names_of(joined(cs, seq!['/'])) == cs.filter(|c: Seq<char>| c.len() > 0),
        (forall|i: int| 0 <= i < cs.len() ==> (#[trigger] cs[i]).len() > 0) ==> names_of(
            joined(cs, seq!['/']),
        ) == cs,
{
    joined_pieces_are_cut_apart(cs, '/');
    lemma_names_filter(cs);
    if forall|i: int| 0 <= i < cs.len() ==> (#[trigger] cs[i]).len() > 0 {
        lemma_names_plain(cs);
    }
}

proof fn lemma_names_filter(cs: Seq<Seq<char>>)
    ensures
        names(cs) == cs.filter(|c: Seq<char>| c.len() > 0),
    decreases cs.len(),
{
    reveal(Seq::filter);
    if cs.len() > 0 {
        lemma_names_filter(cs.drop_last());
    } else {
        assert(names(cs) =~= cs.filter(|c: Seq<char>| c.len() > 0));
    }
}

/// Before a file is written, every directory on the way to it is looked at,
/// from the top down: under the root, each beginning of the path that is not
/// the whole of it.
pub proof fn every_directory_on_the_way_is_looked_at(
    root: Seq<char>,
    cs: Seq<Seq<char>>,
    n: int,
)
    requires
        root.len() > 0,
        root.last() != '/',
        1 <= n < cs.len(),
        forall|i: int| 0 <= i < cs.len() ==> (#[trigger] cs[i]).len() > 0 && !cs[i].contains('/'),
    ensures
        ancestors(root, joined(cs, seq!['/'])).len() == cs.len() - 1,
        ancestors(root, joined(cs, seq!['/']))[n - 1] == root + seq!['/'] + joined(
            cs.take(n),
            seq!['/'],
        ),
{
    assert forall|i: int| 0 <= i < cs.len() implies !(#[trigger] cs[i]).contains('/') by {
        assert(cs[i].len() > 0);
    }
    assert forall|i: int| 0 <= i < cs.len() implies (#[trigger] cs[i]).len() > 0 by {
        assert(!cs[i].contains('/'));
    }
    names_are_what_stands_between_separators(cs);
    lemma_under(root, cs, n);
}

proof fn lemma_under(root: Seq<char>, cs: Seq<Seq<char>>, n: int)
    requires
        root.len() > 0,
        root.last() != '/',
        1 <= n <= cs.len(),
        forall|i: int| 0 <= i < cs.len() ==> (#[trigger] cs[i]).len() > 0 && !cs[i].contains('/'),
    ensures
        under(root, cs, n) == root + seq!['/'] + joined(cs.take(n), seq!['/']),
        under(root, cs, n).last() != '/',
    decreases n,
{
    let x = cs[n - 1];
    assert(x.len() > 0 && !x.contains('/'));
    assert(x[0] != '/') by {
        assert(x.contains(x[0]));
    }
    assert(x.last() != '/') by {
        assert(x.contains(x[x.len() - 1]));
    }
    if n == 1 {
        assert(under(root, cs, 0) == root);
        assert(cs.take(1) =~= seq![x]);
        assert(under(root, cs, 1) =~= root + seq!['/'] + x);
    } else {
        lemma_under(root, cs, n - 1);
        assert(cs.take(n).drop_last() =~= cs.take(n - 1));
        assert(cs.take(n).last() == x);
        assert(under(root, cs, n) =~= root + seq!['/'] + joined(cs.take(n), seq!['/']));
    }
}

/// What a sweep tells: the paths of exactly the entries that it removes or
/// keeps, one for each.
pub proof fn sweep_names_what_it_finds(
    m: ManifestView,
    standing: Seq<Seq<char>>,
    walk: Seq<Walked>,
)
    ensures
        extra_paths(m, standing, walk) == extras_at(m, standing, walk).map_values(
            |i: int| slashed(walk[i].rel@),
        ),
        forall|k: int, l: int|
            0 <= k < l < extras_at(m, standing, walk).len() ==> (#[trigger] extras_at(
                m,
                standing,
                walk,
            )[k]) < (#[trigger] extras_at(m, standing, walk)[l]),
    decreases walk.len(),
{
    if walk.len() > 0 {
        let rest = walk.drop_last();
        sweep_names_what_it_finds(m, standing, rest);
        lemma_extras_at(m, standing, rest);
        let had = extras_at(m, standing, rest);
        let all = extras_at(m, standing, walk);
        assert forall|k: int| 0 <= k < had.len() implies 0 <= #[trigger] had[k] < rest.len() by {
            assert(had.contains(had[k]));
        }
        let f = |i: int| slashed(walk[i].rel@);
        let g = |i: int| slashed(rest[i].rel@);
        assert(had.map_values(f) =~= had.map_values(g));
        assert(extra_paths(m, standing, walk) =~= all.map_values(f));
    } else {
        assert(extra_paths(m, standing, walk) =~= extras_at(m, standing, walk).map_values(
            |i: int| slashed(walk[i].rel@),
        ));
    }
}

/// With `keep_extra` nothing is removed; without it, exactly the entries are
/// removed that the manifest has no entry for, outside the fabric, git's
/// directory and the Finder's droppings, and that were not standing before.
pub proof fn sweep_removes_what_the_manifest_does_not_know(
    m: ManifestView,
    keep_extra: bool,
    standing: Seq<Seq<char>>,
    walk: Seq<Walked>,
    r: Sweep,
    i: int,
)
    requires
        swept(m, keep_extra, standing, walk, r),
        0 <= i < walk.len() <= usize::MAX,
    ensures
        keep_extra ==> r.remove@.len() == 0 && r.removed@.len() == 0,
        !keep_extra ==> r.skipped@.len() == 0,
        !keep_extra ==> (r.remove@.contains(i as usize) <==> walk[i].removable && !is_excluded(
            walk[i].rel@,
        ) && !standing.contains(walk[i].rel@) && !(exists|k: int|
            0 <= k < m.files.len() && (#[trigger] m.files[k]).path == slashed(walk[i].rel@))),
        !keep_extra ==> r.removed@.len() == r.remove@.len(),
        !keep_extra ==> forall|k: int|
            0 <= k < r.remove@.len() ==> (#[trigger] r.remove@[k]) < walk.len()
                && r.removed@[k]@ == slashed(walk[r.remove@[k] as int].rel@),
{
    sweep_removes_exactly_the_extras(m, standing, walk, i);
    sweep_names_what_it_finds(m, standing, walk);
    entry_is_the_last_of_its_path(m.files, slashed(walk[i].rel@));
    if !keep_extra {
        let f = |i: usize| i as int;
        let at = r.remove@.map_values(f);
        let want = extras_at(m, standing, walk);
        assert(at == want);
        assert(at.len() == r.remove@.len());
        if r.remove@.contains(i as usize) {
            let k = choose|k: int| 0 <= k < r.remove@.len() && r.remove@[k] == i as usize;
            assert(at[k] == i);
            assert(want.contains(i));
        }
        if want.contains(i) {
            let k = choose|k: int| 0 <= k < want.len() && want[k] == i;
            assert(at[k] == r.remove@[k] as int);
            assert(r.remove@[k] == i as usize);
        }
        assert(strs(r.removed@).len() == r.removed@.len());
        assert forall|k: int| 0 <= k < r.remove@.len() implies (#[trigger] r.remove@[k])
            < walk.len() && r.removed@[k]@ == slashed(walk[r.remove@[k] as int].rel@) by {
            assert(at[k] == r.remove@[k] as int);
            lemma_extras_at(m, standing, walk);
            assert(want.contains(want[k]));
            assert(strs(r.removed@)[k] == r.removed@[k]@);
        }
    }
}

/// Directories of one depth are tried in the order in which they were found.
pub proof fn directories_of_one_depth_keep_their_order(
    dirs: Seq<Seq<char>>,
    standing: Seq<Seq<char>>,
    d: nat,
)
    ensures
        at_depth(dirs, standing, d) == dirs.filter(
            |p: Seq<char>|
                !is_excluded(p) && !standing.contains(p) && names_of(p).len() == d,
        ),
        deepest_first(dirs, standing, 0) == at_depth(dirs, standing, 0),
        d > 0 ==> deepest_first(dirs, standing, d) == at_depth(dirs, standing, d) + deepest_first(
            dirs,
            standing,
            (d - 1) as nat,
        ),
    decreases dirs.len(),
{
    reveal(Seq::filter);
    if dirs.len() > 0 {
        directories_of_one_depth_keep_their_order(dirs.drop_last(), standing, d);
    } else {
        assert(at_depth(dirs, standing, d) =~= dirs.filter(
            |p: Seq<char>|
                !is_excluded(p) && !standing.contains(p) && names_of(p).len() == d,
        ));
    }
}

} // verus!
