//! Drift detection: compare the live worktree against a manifest.
//!
//! Fast path trusts (size, mtime) to skip hashing unchanged files; any
//! file whose metadata differs is rehashed. The report is the same shape
//! as a manifest diff: added / modified / deleted.

use vstd::prelude::*;
use vstd::string::*;
use crate::capture::ignored;
use crate::capture::left_out;
use crate::capture::slashed;
use crate::capture::with_slashes;
use crate::digest::hash_eq;
use crate::index::TextIndex;
use crate::index::ascending;
use crate::index::chosen;
use crate::index::is_last;
use crate::index::lemma_chosen_step;
use crate::index::lists;
use crate::order::lemma_sorted_elements;
use crate::order::sort_texts;
use crate::order::sorted;
use crate::order::text_le;
use crate::order::text_order;
use crate::paths::excluded;
use crate::snapshot::FileEntry;
use crate::snapshot::FileView;
use crate::snapshot::Manifest;
use crate::snapshot::ManifestView;
use crate::snapshot::differing;
use crate::snapshot::entry_is_the_last_of_its_path;
use crate::snapshot::entry_of;
use crate::snapshot::file_views;
use crate::snapshot::lemma_entry_at;
use crate::snapshot::lemma_entry_some;
use crate::snapshot::lemma_listed;
use crate::snapshot::only_in;
use crate::snapshot::paths;
use crate::snapshot::paths_of;
use crate::text::lemma_push_has;
use crate::text::lemma_strs_push;
use crate::text::strs;

verus! {

#[derive(Debug)]
pub struct DriftReport {
    pub added: Vec<String>,
    pub modified: Vec<String>,
    pub deleted: Vec<String>,
    /// Files whose metadata changed but content did not.
    pub touched: Vec<String>,
}

impl Default for DriftReport {
    fn default() -> (r: DriftReport)
        ensures
            r.added@.len() == 0,
            r.modified@.len() == 0,
            r.deleted@.len() == 0,
            r.touched@.len() == 0,
    {
        DriftReport {
            added: Vec::new(),
            modified: Vec::new(),
            deleted: Vec::new(),
            touched: Vec::new(),
        }
    }
}

impl DriftReport {
    /// Whether nothing was found to report.
    pub open spec fn is_clean(&self) -> bool {
        &&& self.added@.len() == 0
        &&& self.modified@.len() == 0
        &&& self.deleted@.len() == 0
        &&& self.touched@.len() == 0
    }

    pub fn clean(&self) -> (r: bool)
        ensures
            r <==> self.added@.len() == 0 && self.modified@.len() == 0 && self.deleted@.len() == 0
                && self.touched@.len() == 0,
            r == self.is_clean(),
    {
        self.added.len() == 0 && self.modified.len() == 0 && self.deleted.len() == 0
            && self.touched.len() == 0
    }
}

/// A regular file that a walk of the worktree came upon: its path relative to
/// the root, its size, its modification time where it is known, and the hash
/// of its content where it was read.
#[derive(Debug)]
pub struct Observed {
    pub rel: String,
    pub size: u64,
    pub modified: Option<(u64, u32)>,
    pub content: Option<crate::Hash>,
}

/// The second in which a file was modified, zero where it is not known.
pub open spec fn modified_secs(t: Option<(u64, u32)>) -> u64 {
    match t {
        Some(t) => t.0,
        None => 0,
    }
}

/// Whether size or time of a live file differ from its entry.
pub open spec fn metadata_differs(o: Observed, f: FileView) -> bool {
    o.size != f.size || modified_secs(o.modified) != f.mtime_secs
}

/// Whether a live file counts: it is not left out.
pub open spec fn counts(o: Observed, ignore: Seq<Seq<char>>) -> bool {
    !left_out(o.rel@, ignore)
}

/// Whether the content of a live file has to be compared: its entry exists,
/// and either everything is rehashed or its metadata differs.
pub open spec fn must_hash(
    m: ManifestView,
    ignore: Seq<Seq<char>>,
    full: bool,
    o: Observed,
) -> bool {
    &&& counts(o, ignore)
    &&& entry_of(m.files, slashed(o.rel@)) is Some
    &&& full || metadata_differs(o, entry_of(m.files, slashed(o.rel@))->0)
}

/// What is to be said of a live file.
pub enum Finding {
    Nothing,
    Added,
    Modified,
    Touched,
}

/// What is to be said of a live file: it is new, its content changed, or only
/// its metadata did.
pub open spec fn finding(
    m: ManifestView,
    ignore: Seq<Seq<char>>,
    full: bool,
    o: Observed,
) -> Finding {
    let e = entry_of(m.files, slashed(o.rel@));
    if !counts(o, ignore) {
        Finding::Nothing
    } else if e is None {
        Finding::Added
    } else if !must_hash(m, ignore, full, o) {
        Finding::Nothing
    } else if o.content->0@ != e->0.content {
        Finding::Modified
    } else if metadata_differs(o, e->0) {
        Finding::Touched
    } else {
        Finding::Nothing
    }
}

/// The paths of which `f` is to be said, in the order of the walk.
pub open spec fn found(
    m: ManifestView,
    ignore: Seq<Seq<char>>,
    full: bool,
    walk: Seq<Observed>,
    f: Finding,
) -> Seq<Seq<char>>
    decreases walk.len(),
{
    if walk.len() == 0 {
        Seq::empty()
    } else {
        let rest = found(m, ignore, full, walk.drop_last(), f);
        if finding(m, ignore, full, walk.last()) == f {
            rest.push(slashed(walk.last().rel@))
        } else {
            rest
        }
    }
}

/// Whether the walk came upon a file that counts under path `p`.
pub open spec fn present(walk: Seq<Observed>, ignore: Seq<Seq<char>>, p: Seq<char>) -> bool {
    exists|i: int|
        0 <= i < walk.len() && counts(#[trigger] walk[i], ignore) && slashed(walk[i].rel@) == p
}

/// The manifest's paths that the walk did not come upon.
pub open spec fn missing(
    m: ManifestView,
    ignore: Seq<Seq<char>>,
    walk: Seq<Observed>,
) -> spec_fn(Seq<char>) -> bool {
    |p: Seq<char>| entry_of(m.files, p) is Some && !present(walk, ignore, p)
}

/// A manifest made ready for comparison with a worktree.
pub struct Baseline {
    manifest: Manifest,
    index: TextIndex,
    ignore: Vec<String>,
    full: bool,
}

impl Baseline {
    /// The manifest to compare with.
    pub closed spec fn manifest(&self) -> ManifestView {
        self.manifest@
    }

    /// The patterns of files that do not count.
    pub closed spec fn ignore(&self) -> Seq<Seq<char>> {
        strs(self.ignore@)
    }

    /// Whether every file is rehashed.
    pub closed spec fn full(&self) -> bool {
        self.full
    }

    #[verifier::type_invariant]
    spec fn wf(&self) -> bool {
        self.index.source() == paths(file_views(self.manifest.files@))
    }

    /// Makes `manifest` ready. With `full`, size and time are not trusted.
    pub fn new(manifest: Manifest, ignore: Vec<String>, full: bool) -> (r: Baseline)
        ensures
            r.manifest() == manifest@,
            r.ignore() == strs(ignore@),
            r.full() == full,
    {
        let index = TextIndex::new(&paths_of(&manifest.files));
        Baseline { manifest, index, ignore, full }
    }

    /// The entry of a path.
    fn entry(&self, path: &str) -> (r: Option<&FileEntry>)
        ensures
            match r {
                Some(f) => entry_of(self.manifest().files, path@) == Some(f@),
                None => entry_of(self.manifest().files, path@) is None,
            },
    {
        proof {
            use_type_invariant(self);
            lemma_entry_some(file_views(self.manifest.files@), path@);
        }
        match self.index.lookup(path) {
            None => None,
            Some(i) => {
                proof {
                    lemma_entry_at(file_views(self.manifest.files@), path@, i as int);
                }
                Some(&self.manifest.files[i])
            },
        }
    }

    /// Whether the content of a live file has to be hashed before `detect`
    /// can tell what became of it.
    pub fn needs_hash(&self, o: &Observed) -> (r: bool)
        ensures
            r == must_hash(self.manifest(), self.ignore(), self.full(), *o),
    {
        if excluded(o.rel.as_str()) {
            return false;
        }
        let path = with_slashes(o.rel.as_str());
        if ignored(path.as_str(), &self.ignore) {
            return false;
        }
        match self.entry(path.as_str()) {
            None => false,
            Some(f) => self.full || differs(o, f),
        }
    }

    /// What became of a live file.
    fn judge(&self, o: &Observed) -> (r: Option<(String, Verdict)>)
        requires
            must_hash(self.manifest(), self.ignore(), self.full(), *o) ==> o.content is Some,
        ensures
            match r {
                None => !counts(*o, self.ignore()),
                Some(v) => counts(*o, self.ignore()) && v.0@ == slashed(o.rel@) && v.1.finding()
                    == finding(self.manifest(), self.ignore(), self.full(), *o),
            },
    {
        if excluded(o.rel.as_str()) {
            return None;
        }
        let path = with_slashes(o.rel.as_str());
        if ignored(path.as_str(), &self.ignore) {
            return None;
        }
        let verdict = match self.entry(path.as_str()) {
            None => Verdict::Added,
            Some(f) => {
                let moved: bool = differs(o, f);
                if !self.full && !moved {
                    Verdict::Nothing
                } else {
                    match &o.content {
                        Some(h) => if !hash_eq(h, &f.content) {
                            Verdict::Modified
                        } else if moved {
                            Verdict::Touched
                        } else {
                            Verdict::Nothing
                        },
                        None => Verdict::Nothing,
                    }
                }
            },
        };
        Some((path, verdict))
    }

    /// Compute drift of the live worktree vs the manifest. A file that
    /// `needs_hash` comes with its hash.
    pub fn detect(&self, walk: &Vec<Observed>) -> (r: DriftReport)
        requires
            forall|i: int|
                0 <= i < walk@.len() ==> (must_hash(
                    self.manifest(),
                    self.ignore(),
                    self.full(),
                    #[trigger] walk@[i],
                ) ==> walk@[i].content is Some),
        ensures
            drift_of(self.manifest(), self.ignore(), self.full(), walk@, r),
    {
        let ghost m = self.manifest();
        let ghost ig = self.ignore();
        let ghost full = self.full();
        let mut added: Vec<String> = Vec::new();
        let mut modified: Vec<String> = Vec::new();
        let mut touched: Vec<String> = Vec::new();
        let mut seen: Vec<String> = Vec::new();
        let mut i: usize = 0;
        proof {
            assert(walk@.take(0) =~= Seq::empty());
            assert(strs(added@) =~= Seq::empty());
            assert(strs(modified@) =~= Seq::empty());
            assert(strs(touched@) =~= Seq::empty());
        }
        while i < walk.len()
            invariant
                i <= walk@.len(),
                m == self.manifest(),
                ig == self.ignore(),
                full == self.full(),
                forall|k: int|
                    0 <= k < walk@.len() ==> (must_hash(m, ig, full, #[trigger] walk@[k])
                        ==> walk@[k].content is Some),
                strs(added@) == found(m, ig, full, walk@.take(i as int), Finding::Added),
                strs(modified@) == found(m, ig, full, walk@.take(i as int), Finding::Modified),
                strs(touched@) == found(m, ig, full, walk@.take(i as int), Finding::Touched),
                forall|p: Seq<char>|
                    strs(seen@).contains(p) <==> #[trigger] present(walk@.take(i as int), ig, p),
            decreases walk@.len() - i,
        {
            let ghost before = walk@.take(i as int);
            let ghost after = walk@.take(i + 1);
            let ghost o = walk@[i as int];
            proof {
                assert(after.drop_last() =~= before);
                assert(after.last() == o);
                lemma_present_push(before, ig, o);
                assert(after =~= before.push(o));
            }
            match self.judge(&walk[i]) {
                None => {},
                Some((path, verdict)) => {
                    let ghost had = strs(seen@);
                    let p = path.clone();
                    proof {
                        lemma_strs_push(seen@, p);
                    }
                    seen.push(p);
                    proof {
                        assert forall|q: Seq<char>|
                            strs(seen@).contains(q) <==> #[trigger] present(after, ig, q) by {
                            lemma_push_has(had, p@, q);
                            assert(had.contains(q) <==> present(before, ig, q));
                        }
                    }
                    match verdict {
                        Verdict::Nothing => {},
                        Verdict::Added => {
                            proof {
                                lemma_strs_push(added@, path);
                            }
                            added.push(path);
                        },
                        Verdict::Modified => {
                            proof {
                                lemma_strs_push(modified@, path);
                            }
                            modified.push(path);
                        },
                        Verdict::Touched => {
                            proof {
                                lemma_strs_push(touched@, path);
                            }
                            touched.push(path);
                        },
                    }
                },
            }
            i = i + 1;
        }
        assert(walk@.take(i as int) =~= walk@);
        let deleted = self.unseen(&seen);
        proof {
            assert(lists(strs(deleted@), missing(m, ig, walk@))) by {
                let v = strs(deleted@);
                assert forall|p: Seq<char>| #[trigger] v.contains(p) <==> missing(
                    m,
                    ig,
                    walk@,
                )(p) by {
                    assert(strs(seen@).contains(p) <==> present(walk@, ig, p));
                    assert(v.contains(p) <==> absent(m, strs(seen@))(p));
                }
            }
        }
        DriftReport {
            added: sort_texts(&added),
            modified: sort_texts(&modified),
            deleted,
            touched: sort_texts(&touched),
        }
    }

    /// The manifest's paths that are not among `seen`, in order.
    fn unseen(&self, seen: &Vec<String>) -> (r: Vec<String>)
        ensures
            lists(strs(r@), absent(self.manifest(), strs(seen@))),
    {
        proof {
            use_type_invariant(self);
        }
        let live = TextIndex::new(seen);
        let ghost m = self.manifest();
        let ghost files = file_views(self.manifest.files@);
        let ghost pred = absent(m, strs(seen@));
        let ghost keys = self.index.keys();
        let n: usize = self.index.len();
        let mut out: Vec<String> = Vec::new();
        let mut i: usize = 0;
        assert(keys.take(0) =~= Seq::empty());
        assert(strs(out@) =~= Seq::empty());
        while i < n
            invariant
                i <= n,
                n == keys.len(),
                keys == self.index.keys(),
                live.source() == strs(seen@),
                self.index.source() == paths(files),
                files == file_views(self.manifest.files@),
                files == m.files,
                pred == absent(m, strs(seen@)),
                strs(out@) == chosen(keys.take(i as int), pred),
            decreases n - i,
        {
            let at: usize = self.index.position(i);
            let f = &self.manifest.files[at];
            proof {
                assert(paths(files)[at as int] == f.path@);
                lemma_entry_at(files, keys[i as int], at as int);
                lemma_chosen_step(keys, i as int, pred);
            }
            match live.lookup(f.path.as_str()) {
                Some(k) => {
                    assert(strs(seen@)[k as int] == f.path@);
                },
                None => {
                    let c = f.path.clone();
                    proof {
                        lemma_strs_push(out@, c);
                    }
                    out.push(c);
                },
            }
            i = i + 1;
        }
        proof {
            assert(keys.take(i as int) =~= keys);
            lemma_listed(files, keys, pred);
        }
        out
    }
}

/// What became of a live file.
enum Verdict {
    Nothing,
    Added,
    Modified,
    Touched,
}

impl Verdict {
    spec fn finding(self) -> Finding {
        match self {
            Verdict::Nothing => Finding::Nothing,
            Verdict::Added => Finding::Added,
            Verdict::Modified => Finding::Modified,
            Verdict::Touched => Finding::Touched,
        }
    }
}

/// The manifest's paths that are not among `seen`.
pub open spec fn absent(m: ManifestView, seen: Seq<Seq<char>>) -> spec_fn(Seq<char>) -> bool {
    |p: Seq<char>| entry_of(m.files, p) is Some && !seen.contains(p)
}

/// Whether size or time of a live file differ from its entry.
fn differs(o: &Observed, f: &FileEntry) -> (r: bool)
    ensures
        r == metadata_differs(*o, f@),
{
    let secs: u64 = match o.modified {
        Some(t) => t.0,
        None => 0,
    };
    o.size != f.size || secs != f.mtime_secs
}

proof fn lemma_present_push(walk: Seq<Observed>, ignore: Seq<Seq<char>>, o: Observed)
    ensures
        forall|p: Seq<char>| #[trigger]
            present(walk.push(o), ignore, p) <==> present(walk, ignore, p) || (counts(o, ignore)
                && slashed(o.rel@) == p),
{
    assert forall|p: Seq<char>| #[trigger]
        present(walk.push(o), ignore, p) <==> present(walk, ignore, p) || (counts(o, ignore)
            && slashed(o.rel@) == p) by {
        let w = walk.push(o);
        if present(walk, ignore, p) {
            let i = choose|i: int|
                0 <= i < walk.len() && counts(#[trigger] walk[i], ignore) && slashed(walk[i].rel@)
                    == p;
            assert(w[i] == walk[i]);
        }
        assert(w[walk.len() as int] == o);
        if present(w, ignore, p) {
            let i = choose|i: int|
                0 <= i < w.len() && counts(#[trigger] w[i], ignore) && slashed(w[i].rel@) == p;
            if i < walk.len() {
                assert(walk[i] == w[i]);
            }
        }
    }
}

/// Whether `r` reports the drift: new, changed and touched files of the walk,
/// and files of the manifest that the walk did not come upon, each list in
/// order.
pub open spec fn drift_of(
    m: ManifestView,
    ignore: Seq<Seq<char>>,
    full: bool,
    walk: Seq<Observed>,
    r: DriftReport,
) -> bool {
    &&& strs(r.added@) == sorted(found(m, ignore, full, walk, Finding::Added))
    &&& strs(r.modified@) == sorted(found(m, ignore, full, walk, Finding::Modified))
    &&& strs(r.touched@) == sorted(found(m, ignore, full, walk, Finding::Touched))
    &&& lists(strs(r.deleted@), missing(m, ignore, walk))
}

/// Compute drift of the live worktree vs `manifest`: the regular files that a
/// walk came upon, each with its hash where it needs one.
pub fn detect(manifest: Manifest, ignore: Vec<String>, full: bool, walk: &Vec<Observed>) -> (r:
    DriftReport)
    requires
        forall|i: int|
            0 <= i < walk@.len() ==> (must_hash(
                manifest@,
                strs(ignore@),
                full,
                #[trigger] walk@[i],
            ) ==> walk@[i].content is Some),
    ensures
        drift_of(manifest@, strs(ignore@), full, walk@, r),
{
    let b = Baseline::new(manifest, ignore, full);
    b.detect(walk)
}

proof fn lemma_found(
    m: ManifestView,
    ignore: Seq<Seq<char>>,
    full: bool,
    walk: Seq<Observed>,
    f: Finding,
)
    ensures
        forall|p: Seq<char>| #[trigger]
            found(m, ignore, full, walk, f).contains(p) <==> exists|i: int|
                0 <= i < walk.len() && finding(m, ignore, full, #[trigger] walk[i]) == f && slashed(
                    walk[i].rel@,
                ) == p,
    decreases walk.len(),
{
    let all = found(m, ignore, full, walk, f);
    if walk.len() > 0 {
        let rest = walk.drop_last();
        let o = walk.last();
        lemma_found(m, ignore, full, rest, f);
        let had = found(m, ignore, full, rest, f);
        assert forall|p: Seq<char>| #[trigger] all.contains(p) <==> exists|i: int|
            0 <= i < walk.len() && finding(m, ignore, full, #[trigger] walk[i]) == f && slashed(
                walk[i].rel@,
            ) == p by {
            lemma_push_has(had, slashed(o.rel@), p);
            if had.contains(p) {
                let i = choose|i: int|
                    0 <= i < rest.len() && finding(m, ignore, full, #[trigger] rest[i]) == f
                        && slashed(rest[i].rel@) == p;
                assert(walk[i] == rest[i]);
            }
            assert(walk[walk.len() - 1] == o);
            if exists|i: int|
                0 <= i < walk.len() && finding(m, ignore, full, #[trigger] walk[i]) == f && slashed(
                    walk[i].rel@,
                ) == p {
                let i = choose|i: int|
                    0 <= i < walk.len() && finding(m, ignore, full, #[trigger] walk[i]) == f
                        && slashed(walk[i].rel@) == p;
                if i < rest.len() {
                    assert(rest[i] == walk[i]);
                    assert(had.contains(p));
                }
            }
        }
    }
}

/// What a drift report says. A path is reported as added exactly where a file
/// that counts has no entry. It is reported as modified exactly where the
/// content of a file that counts differs from its entry's, and as touched
/// exactly where the content is the same and size or modification second are
/// not; without a full comparison, a file whose size and second are those of
/// its entry is passed over. It is reported as deleted exactly where an entry
/// has no file that counts. Every list is in order.
pub proof fn drift_lists_say(
    m: ManifestView,
    ignore: Seq<Seq<char>>,
    full: bool,
    walk: Seq<Observed>,
    r: DriftReport,
)
    requires
        drift_of(m, ignore, full, walk, r),
    ensures
        forall|p: Seq<char>| #[trigger]
            strs(r.added@).contains(p) <==> exists|i: int|
                0 <= i < walk.len() && !left_out((#[trigger] walk[i]).rel@, ignore) && slashed(
                    walk[i].rel@,
                ) == p && entry_of(m.files, p) is None,
        forall|p: Seq<char>| #[trigger]
            strs(r.modified@).contains(p) <==> exists|i: int|
                0 <= i < walk.len() && !left_out((#[trigger] walk[i]).rel@, ignore) && slashed(
                    walk[i].rel@,
                ) == p && entry_of(m.files, p) is Some && walk[i].content->Some_0@ != entry_of(
                    m.files,
                    p,
                )->Some_0.content && (full || walk[i].size != entry_of(m.files, p)->Some_0.size
                    || modified_secs(walk[i].modified) != entry_of(m.files, p)->Some_0.mtime_secs),
        forall|p: Seq<char>| #[trigger]
            strs(r.touched@).contains(p) <==> exists|i: int|
                0 <= i < walk.len() && !left_out((#[trigger] walk[i]).rel@, ignore) && slashed(
                    walk[i].rel@,
                ) == p && entry_of(m.files, p) is Some && walk[i].content->Some_0@ == entry_of(
                    m.files,
                    p,
                )->Some_0.content && (walk[i].size != entry_of(m.files, p)->Some_0.size || modified_secs(
                    walk[i].modified,
                ) != entry_of(m.files, p)->Some_0.mtime_secs),
        forall|p: Seq<char>| #[trigger]
            strs(r.deleted@).contains(p) <==> entry_of(m.files, p) is Some && !(exists|i: int|
                0 <= i < walk.len() && !left_out((#[trigger] walk[i]).rel@, ignore) && slashed(
                    walk[i].rel@,
                ) == p),
        forall|i: int, j: int|
            0 <= i < j < r.added@.len() ==> text_le(
                (#[trigger] r.added@[i])@,
                (#[trigger] r.added@[j])@,
            ),
        forall|i: int, j: int|
            0 <= i < j < r.modified@.len() ==> text_le(
                (#[trigger] r.modified@[i])@,
                (#[trigger] r.modified@[j])@,
            ),
        forall|i: int, j: int|
            0 <= i < j < r.touched@.len() ==> text_le(
                (#[trigger] r.touched@[i])@,
                (#[trigger] r.touched@[j])@,
            ),
        forall|i: int, j: int|
            0 <= i < j < r.deleted@.len() ==> text_le(
                (#[trigger] r.deleted@[i])@,
                (#[trigger] r.deleted@[j])@,
            ) && r.deleted@[i]@ != r.deleted@[j]@,
{
    lemma_in_order(r.added@, found(m, ignore, full, walk, Finding::Added));
    lemma_in_order(r.modified@, found(m, ignore, full, walk, Finding::Modified));
    lemma_in_order(r.touched@, found(m, ignore, full, walk, Finding::Touched));
    assert forall|i: int, j: int| 0 <= i < j < r.deleted@.len() implies text_le(
        (#[trigger] r.deleted@[i])@,
        (#[trigger] r.deleted@[j])@,
    ) && r.deleted@[i]@ != r.deleted@[j]@ by {
        assert(strs(r.deleted@)[i] == r.deleted@[i]@ && strs(r.deleted@)[j] == r.deleted@[j]@);
    }
    lemma_found(m, ignore, full, walk, Finding::Added);
    lemma_found(m, ignore, full, walk, Finding::Modified);
    lemma_found(m, ignore, full, walk, Finding::Touched);
    lemma_sorted_elements(found(m, ignore, full, walk, Finding::Added));
    lemma_sorted_elements(found(m, ignore, full, walk, Finding::Modified));
    lemma_sorted_elements(found(m, ignore, full, walk, Finding::Touched));
    let a = found(m, ignore, full, walk, Finding::Added);
    let b = found(m, ignore, full, walk, Finding::Modified);
    let c = found(m, ignore, full, walk, Finding::Touched);
    assert forall|p: Seq<char>| #[trigger] strs(r.added@).contains(p) <==> exists|i: int|
        0 <= i < walk.len() && !left_out((#[trigger] walk[i]).rel@, ignore) && slashed(walk[i].rel@)
            == p && entry_of(m.files, p) is None by {
        assert(sorted(a).contains(p) <==> a.contains(p));
        if a.contains(p) {
            let i = choose|i: int|
                0 <= i < walk.len() && finding(m, ignore, full, #[trigger] walk[i])
                    == Finding::Added && slashed(walk[i].rel@) == p;
            assert(!left_out(walk[i].rel@, ignore));
        }
        if exists|i: int|
            0 <= i < walk.len() && !left_out((#[trigger] walk[i]).rel@, ignore) && slashed(
                walk[i].rel@,
            ) == p && entry_of(m.files, p) is None {
            let i = choose|i: int|
                0 <= i < walk.len() && !left_out((#[trigger] walk[i]).rel@, ignore) && slashed(
                    walk[i].rel@,
                ) == p && entry_of(m.files, p) is None;
            assert(finding(m, ignore, full, walk[i]) == Finding::Added);
        }
    }
    assert forall|p: Seq<char>| #[trigger] strs(r.modified@).contains(p) <==> exists|i: int|
        0 <= i < walk.len() && !left_out((#[trigger] walk[i]).rel@, ignore) && slashed(walk[i].rel@)
            == p && entry_of(m.files, p) is Some && walk[i].content->Some_0@ != entry_of(
            m.files,
            p,
        )->Some_0.content && (full || walk[i].size != entry_of(m.files, p)->Some_0.size || modified_secs(
            walk[i].modified,
        ) != entry_of(m.files, p)->Some_0.mtime_secs) by {
        assert(sorted(b).contains(p) <==> b.contains(p));
        if b.contains(p) {
            let i = choose|i: int|
                0 <= i < walk.len() && finding(m, ignore, full, #[trigger] walk[i])
                    == Finding::Modified && slashed(walk[i].rel@) == p;
            assert(!left_out(walk[i].rel@, ignore));
        }
        if exists|i: int|
            0 <= i < walk.len() && !left_out((#[trigger] walk[i]).rel@, ignore) && slashed(
                walk[i].rel@,
            ) == p && entry_of(m.files, p) is Some && walk[i].content->Some_0@ != entry_of(
                m.files,
                p,
            )->Some_0.content && (full || walk[i].size != entry_of(m.files, p)->Some_0.size
                || modified_secs(walk[i].modified) != entry_of(m.files, p)->Some_0.mtime_secs) {
            let i = choose|i: int|
                0 <= i < walk.len() && !left_out((#[trigger] walk[i]).rel@, ignore) && slashed(
                    walk[i].rel@,
                ) == p && entry_of(m.files, p) is Some && walk[i].content->Some_0@ != entry_of(
                    m.files,
                    p,
                )->Some_0.content && (full || walk[i].size != entry_of(m.files, p)->Some_0.size
                    || modified_secs(walk[i].modified) != entry_of(m.files, p)->Some_0.mtime_secs);
            assert(finding(m, ignore, full, walk[i]) == Finding::Modified);
        }
    }
    assert forall|p: Seq<char>| #[trigger] strs(r.touched@).contains(p) <==> exists|i: int|
        0 <= i < walk.len() && !left_out((#[trigger] walk[i]).rel@, ignore) && slashed(walk[i].rel@)
            == p && entry_of(m.files, p) is Some && walk[i].content->Some_0@ == entry_of(
            m.files,
            p,
        )->Some_0.content && (walk[i].size != entry_of(m.files, p)->Some_0.size || modified_secs(
            walk[i].modified,
        ) != entry_of(m.files, p)->Some_0.mtime_secs) by {
        assert(sorted(c).contains(p) <==> c.contains(p));
        if c.contains(p) {
            let i = choose|i: int|
                0 <= i < walk.len() && finding(m, ignore, full, #[trigger] walk[i])
                    == Finding::Touched && slashed(walk[i].rel@) == p;
            assert(!left_out(walk[i].rel@, ignore));
        }
        if exists|i: int|
            0 <= i < walk.len() && !left_out((#[trigger] walk[i]).rel@, ignore) && slashed(
                walk[i].rel@,
            ) == p && entry_of(m.files, p) is Some && walk[i].content->Some_0@ == entry_of(
                m.files,
                p,
            )->Some_0.content && (walk[i].size != entry_of(m.files, p)->Some_0.size || modified_secs(
                walk[i].modified,
            ) != entry_of(m.files, p)->Some_0.mtime_secs) {
            let i = choose|i: int|
                0 <= i < walk.len() && !left_out((#[trigger] walk[i]).rel@, ignore) && slashed(
                    walk[i].rel@,
                ) == p && entry_of(m.files, p) is Some && walk[i].content->Some_0@ == entry_of(
                    m.files,
                    p,
                )->Some_0.content && (walk[i].size != entry_of(m.files, p)->Some_0.size || modified_secs(
                    walk[i].modified,
                ) != entry_of(m.files, p)->Some_0.mtime_secs);
            assert(finding(m, ignore, full, walk[i]) == Finding::Touched);
        }
    }
    assert forall|p: Seq<char>| #[trigger]
        strs(r.deleted@).contains(p) <==> entry_of(m.files, p) is Some && !(exists|i: int|
            0 <= i < walk.len() && !left_out((#[trigger] walk[i]).rel@, ignore) && slashed(
                walk[i].rel@,
            ) == p) by {
        assert(strs(r.deleted@).contains(p) <==> missing(m, ignore, walk)(p));
        if exists|i: int|
            0 <= i < walk.len() && !left_out((#[trigger] walk[i]).rel@, ignore) && slashed(
                walk[i].rel@,
            ) == p {
            let i = choose|i: int|
                0 <= i < walk.len() && !left_out((#[trigger] walk[i]).rel@, ignore) && slashed(
                    walk[i].rel@,
                ) == p;
            assert(counts(walk[i], ignore));
            assert(present(walk, ignore, p));
        }
        if present(walk, ignore, p) {
            let i = choose|i: int|
                0 <= i < walk.len() && counts(#[trigger] walk[i], ignore) && slashed(walk[i].rel@)
                    == p;
            assert(!left_out(walk[i].rel@, ignore));
        }
    }
}

/// A clean report of a full comparison means that the worktree holds exactly
/// the manifest's files: every file that counts has an entry with its content,
/// size and time, and every entry has its file.
pub proof fn clean_full_report_means_same_tree(
    m: ManifestView,
    ignore: Seq<Seq<char>>,
    walk: Seq<Observed>,
    r: DriftReport,
)
    requires
        drift_of(m, ignore, true, walk, r),
        r.is_clean(),
    ensures
        forall|i: int|
            0 <= i < walk.len() && counts(#[trigger] walk[i], ignore) ==> ({
                let e = entry_of(m.files, slashed(walk[i].rel@));
                e is Some && walk[i].content->0@ == e->0.content && !metadata_differs(
                    walk[i],
                    e->0,
                )
            }),
        forall|p: Seq<char>| entry_of(m.files, p) is Some ==> #[trigger] present(walk, ignore, p),
{
    lemma_found(m, ignore, true, walk, Finding::Added);
    lemma_found(m, ignore, true, walk, Finding::Modified);
    lemma_found(m, ignore, true, walk, Finding::Touched);
    lemma_sorted_elements(found(m, ignore, true, walk, Finding::Added));
    lemma_sorted_elements(found(m, ignore, true, walk, Finding::Modified));
    lemma_sorted_elements(found(m, ignore, true, walk, Finding::Touched));
    let a = found(m, ignore, true, walk, Finding::Added);
    let b = found(m, ignore, true, walk, Finding::Modified);
    let c = found(m, ignore, true, walk, Finding::Touched);
    assert(a.len() == 0 && b.len() == 0 && c.len() == 0);
    assert forall|i: int| 0 <= i < walk.len() && counts(#[trigger] walk[i], ignore) implies ({
        let e = entry_of(m.files, slashed(walk[i].rel@));
        e is Some && walk[i].content->0@ == e->0.content && !metadata_differs(walk[i], e->0)
    }) by {
        let p = slashed(walk[i].rel@);
        assert(!a.contains(p) && !b.contains(p) && !c.contains(p));
        assert(finding(m, ignore, true, walk[i]) != Finding::Added);
        assert(finding(m, ignore, true, walk[i]) != Finding::Modified);
        assert(finding(m, ignore, true, walk[i]) != Finding::Touched);
    }
    assert forall|p: Seq<char>| entry_of(m.files, p) is Some implies #[trigger] present(
        walk,
        ignore,
        p,
    ) by {
        let d = strs(r.deleted@);
        assert(d.len() == 0);
        assert(!d.contains(p));
        assert(!missing(m, ignore, walk)(p));
    }
}

/// A worktree that holds the manifest's files, and of those that count no
/// others, has no drift: at most metadata differs.
pub proof fn matching_tree_has_no_drift(
    m: ManifestView,
    ignore: Seq<Seq<char>>,
    full: bool,
    walk: Seq<Observed>,
    r: DriftReport,
)
    requires
        drift_of(m, ignore, full, walk, r),
        forall|i: int|
            0 <= i < walk.len() && counts(#[trigger] walk[i], ignore) ==> ({
                let e = entry_of(m.files, slashed(walk[i].rel@));
                e is Some && walk[i].content->0@ == e->0.content
            }),
        forall|p: Seq<char>| entry_of(m.files, p) is Some ==> #[trigger] present(walk, ignore, p),
    ensures
        r.added@.len() == 0,
        r.modified@.len() == 0,
        r.deleted@.len() == 0,
{
    let a = found(m, ignore, full, walk, Finding::Added);
    let b = found(m, ignore, full, walk, Finding::Modified);
    lemma_found(m, ignore, full, walk, Finding::Added);
    lemma_found(m, ignore, full, walk, Finding::Modified);
    lemma_sorted_elements(a);
    lemma_sorted_elements(b);
    if a.len() > 0 {
        assert(a.contains(a[0]));
        let i = choose|i: int|
            0 <= i < walk.len() && finding(m, ignore, full, #[trigger] walk[i]) == Finding::Added
                && slashed(walk[i].rel@) == a[0];
        assert(counts(walk[i], ignore));
    }
    if b.len() > 0 {
        assert(b.contains(b[0]));
        let i = choose|i: int|
            0 <= i < walk.len() && finding(m, ignore, full, #[trigger] walk[i])
                == Finding::Modified && slashed(walk[i].rel@) == b[0];
        assert(counts(walk[i], ignore));
    }
    let d = strs(r.deleted@);
    if d.len() > 0 {
        assert(d.contains(d[0]));
        assert(missing(m, ignore, walk)(d[0]));
        assert(present(walk, ignore, d[0]));
    }
}

/// Whether a walk comes upon no path twice.
pub open spec fn one_file_per_path(walk: Seq<Observed>, ignore: Seq<Seq<char>>) -> bool {
    forall|i: int, j: int|
        0 <= i < j < walk.len() && counts(#[trigger] walk[i], ignore) && counts(
            #[trigger] walk[j],
            ignore,
        ) ==> slashed(walk[i].rel@) != slashed(walk[j].rel@)
}

proof fn lemma_found_distinct(
    m: ManifestView,
    ignore: Seq<Seq<char>>,
    full: bool,
    walk: Seq<Observed>,
    f: Finding,
)
    requires
        one_file_per_path(walk, ignore),
        f != Finding::Nothing,
    ensures
        found(m, ignore, full, walk, f).no_duplicates(),
    decreases walk.len(),
{
    if walk.len() > 0 {
        let rest = walk.drop_last();
        let o = walk.last();
        assert(one_file_per_path(rest, ignore)) by {
            assert forall|i: int, j: int|
                0 <= i < j < rest.len() && counts(#[trigger] rest[i], ignore) && counts(
                    #[trigger] rest[j],
                    ignore,
                ) implies slashed(rest[i].rel@) != slashed(rest[j].rel@) by {
                assert(counts(walk[i], ignore) && counts(walk[j], ignore));
            }
        }
        lemma_found_distinct(m, ignore, full, rest, f);
        lemma_found(m, ignore, full, rest, f);
        let had = found(m, ignore, full, rest, f);
        let p = slashed(o.rel@);
        if finding(m, ignore, full, o) == f {
            assert(!had.contains(p)) by {
                if had.contains(p) {
                    let i = choose|i: int|
                        0 <= i < rest.len() && finding(m, ignore, full, #[trigger] rest[i]) == f
                            && slashed(rest[i].rel@) == p;
                    assert(counts(walk[i], ignore) && counts(walk[walk.len() - 1], ignore));
                }
            }
            let all = had.push(p);
            assert forall|i: int, j: int|
                0 <= i < all.len() && 0 <= j < all.len() && i != j implies all[i] != all[j] by {
                if i < had.len() && j < had.len() {
                    assert(had[i] != had[j]);
                } else if i < had.len() {
                    assert(had.contains(had[i]));
                } else {
                    assert(had.contains(had[j]));
                }
            }
        }
    }
}

/// A sorted list without repetitions is strictly ascending.
proof fn lemma_sorted_ascending(s: Seq<Seq<char>>)
    requires
        s.no_duplicates(),
    ensures
        ascending(sorted(s)),
{
    lemma_sorted_elements(s);
    s.lemma_multiset_has_no_duplicates();
    let t = sorted(s);
    t.lemma_multiset_has_no_duplicates_conv();
    assert forall|i: int, j: int| 0 <= i < j < t.len() implies text_le(
        #[trigger] t[i],
        #[trigger] t[j],
    ) && t[i] != t[j] by {
        assert(text_order()(t[i], t[j]));
    }
}

/// Drift is a manifest diff: a full comparison of the worktree with a
/// manifest reports what the diff between a fresh snapshot of the worktree
/// and the manifest does.
pub proof fn full_drift_is_a_manifest_diff(
    m: ManifestView,
    ignore: Seq<Seq<char>>,
    walk: Seq<Observed>,
    r: DriftReport,
    fresh: ManifestView,
)
    requires
        drift_of(m, ignore, true, walk, r),
        one_file_per_path(walk, ignore),
        forall|p: Seq<char>|
            entry_of(fresh.files, p) is Some <==> #[trigger] present(walk, ignore, p),
        forall|i: int|
            0 <= i < walk.len() && counts(#[trigger] walk[i], ignore) ==> entry_of(
                fresh.files,
                slashed(walk[i].rel@),
            )->0.content == walk[i].content->0@,
    ensures
        lists(strs(r.added@), only_in(fresh.files, m.files)),
        lists(strs(r.modified@), differing(fresh.files, m.files)),
        lists(strs(r.deleted@), only_in(m.files, fresh.files)),
{
    let a = found(m, ignore, true, walk, Finding::Added);
    let b = found(m, ignore, true, walk, Finding::Modified);
    lemma_found(m, ignore, true, walk, Finding::Added);
    lemma_found(m, ignore, true, walk, Finding::Modified);
    lemma_found_distinct(m, ignore, true, walk, Finding::Added);
    lemma_found_distinct(m, ignore, true, walk, Finding::Modified);
    lemma_sorted_elements(a);
    lemma_sorted_elements(b);
    lemma_sorted_ascending(a);
    lemma_sorted_ascending(b);
    assert forall|p: Seq<char>| #[trigger] sorted(a).contains(p) <==> only_in(
        fresh.files,
        m.files,
    )(p) by {
        if a.contains(p) {
            let i = choose|i: int|
                0 <= i < walk.len() && finding(m, ignore, true, #[trigger] walk[i])
                    == Finding::Added && slashed(walk[i].rel@) == p;
            assert(counts(walk[i], ignore));
            assert(present(walk, ignore, p));
        }
        if only_in(fresh.files, m.files)(p) {
            assert(present(walk, ignore, p));
            let i = choose|i: int|
                0 <= i < walk.len() && counts(#[trigger] walk[i], ignore) && slashed(walk[i].rel@)
                    == p;
            assert(finding(m, ignore, true, walk[i]) == Finding::Added);
            assert(a.contains(p));
        }
    }
    assert forall|p: Seq<char>| #[trigger] sorted(b).contains(p) <==> differing(
        fresh.files,
        m.files,
    )(p) by {
        if b.contains(p) {
            let i = choose|i: int|
                0 <= i < walk.len() && finding(m, ignore, true, #[trigger] walk[i])
                    == Finding::Modified && slashed(walk[i].rel@) == p;
            assert(counts(walk[i], ignore));
            assert(present(walk, ignore, p));
        }
        if differing(fresh.files, m.files)(p) {
            assert(present(walk, ignore, p));
            let i = choose|i: int|
                0 <= i < walk.len() && counts(#[trigger] walk[i], ignore) && slashed(walk[i].rel@)
                    == p;
            assert(finding(m, ignore, true, walk[i]) == Finding::Modified);
            assert(b.contains(p));
        }
    }
    let d = strs(r.deleted@);
    assert forall|p: Seq<char>| #[trigger] d.contains(p) <==> only_in(m.files, fresh.files)(p) by {
        assert(d.contains(p) <==> missing(m, ignore, walk)(p));
        assert(entry_of(fresh.files, p) is Some <==> present(walk, ignore, p));
    }
}

/// The time of a file counts in whole seconds; one that is not known counts as
/// zero.
pub proof fn times_count_in_seconds(secs: u64, nanos: u32)
    ensures
        modified_secs(Some((secs, nanos))) == secs,
        modified_secs(None) == 0,
{
}

/// Which files have to be read before drift can be told: those that count and
/// have an entry, all of them in a full comparison, otherwise those whose size
/// or second differ from their entry's.
pub proof fn unchanged_metadata_is_trusted_unless_full(
    m: ManifestView,
    ignore: Seq<Seq<char>>,
    full: bool,
    o: Observed,
)
    ensures
        must_hash(m, ignore, full, o) <==> !left_out(o.rel@, ignore) && exists|k: int|
            0 <= k < m.files.len() && (#[trigger] m.files[k]).path == slashed(o.rel@) && (forall|
                l: int,
            |
                k < l < m.files.len() ==> (#[trigger] m.files[l]).path != slashed(o.rel@)) && (full
                || o.size != m.files[k].size || modified_secs(o.modified)
                != m.files[k].mtime_secs),
{
    let p = slashed(o.rel@);
    entry_is_the_last_of_its_path(m.files, p);
    if must_hash(m, ignore, full, o) {
        let f = entry_of(m.files, p)->Some_0;
        let k = choose|k: int|
            0 <= k < m.files.len() && (#[trigger] m.files[k]) == f && f.path == p && forall|l: int|
                k < l < m.files.len() ==> (#[trigger] m.files[l]).path != p;
        assert(m.files[k].path == p);
    }
    if exists|k: int|
        0 <= k < m.files.len() && (#[trigger] m.files[k]).path == p && (forall|l: int|
            k < l < m.files.len() ==> (#[trigger] m.files[l]).path != p) && (full || o.size
            != m.files[k].size || modified_secs(o.modified) != m.files[k].mtime_secs) {
        let k = choose|k: int|
            0 <= k < m.files.len() && (#[trigger] m.files[k]).path == p && (forall|l: int|
                k < l < m.files.len() ==> (#[trigger] m.files[l]).path != p) && (full || o.size
                != m.files[k].size || modified_secs(o.modified) != m.files[k].mtime_secs);
        assert(is_last(paths(m.files), p, k)) by {
            assert forall|j: int| k < j < paths(m.files).len() implies #[trigger] paths(
                m.files,
            )[j] != p by {
                assert(m.files[j].path != p);
            }
        }
        lemma_entry_at(m.files, p, k);
    }
}

proof fn lemma_in_order(v: Seq<String>, s: Seq<Seq<char>>)
    requires
        strs(v) == sorted(s),
    ensures
        forall|i: int, j: int|
            0 <= i < j < v.len() ==> text_le((#[trigger] v[i])@, (#[trigger] v[j])@),
{
    lemma_sorted_elements(s);
    let t = sorted(s);
    assert forall|i: int, j: int| 0 <= i < j < v.len() implies text_le(
        (#[trigger] v[i])@,
        (#[trigger] v[j])@,
    ) by {
        assert(t[i] == v[i]@ && t[j] == v[j]@);
        assert(text_order()(t[i], t[j]));
    }
}

} // verus!
