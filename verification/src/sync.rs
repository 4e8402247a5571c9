//! LAN sync: replicate objects and manifests between peers.
//!
//! Receivers verify every object's BLAKE3 before storing: a hostile or
//! corrupted peer cannot poison the store.

use vstd::prelude::*;
use vstd::string::*;
use crate::digest::array32;
use crate::digest::blake3_hash;
use crate::digest::hash_bytes;
use crate::digest::hash_eq;
use crate::digest::hash_hex;
use crate::digest::hex_text;
use crate::digest::short;
use crate::error::Error;
use crate::error::ErrorView;
use crate::error::Result;
use crate::error::corrupt;
use crate::hashset::distinct;
use crate::hashset::distinct_hashes_occur_once;
use crate::hashset::distinct_of;
use crate::hashset::has_hash;
use crate::paths::join;
use crate::paths::join_text;
use crate::snapshot::FileView;
use crate::snapshot::MAX_MANIFEST_BYTES;
use crate::snapshot::Manifest;
use crate::snapshot::ManifestView;
use crate::snapshot::file_views;
use crate::snapshot::hash_opt;
use crate::snapshot::hashes;
use crate::snapshot::manifest_error;
use crate::snapshot::valid_manifest;
use crate::store::FileWrite;
use crate::store::InitPlan;
use crate::store::Store;
use crate::store::ZSTD_LEVEL;
use crate::store::object_mismatch_text;
use crate::store::zstd_content;
use crate::store::zstd_encodes;
use crate::text::lemma_plus_has;
use crate::text::strs;
use crate::wire::MAX_FRAME;
use crate::wire::RequestView;
use crate::wire::blob_reply;
use crate::wire::blob_text;
use crate::wire::frame_payload;
use crate::wire::have_reply;
use crate::wire::have_request;
use crate::wire::have_text;
use crate::wire::head_in;
use crate::wire::head_reply;
use crate::wire::head_text;
use crate::wire::le_round_trip;
use crate::wire::lemma_concat_hashes;
use crate::wire::lemma_radix;
use crate::wire::manifest_request;
use crate::wire::object_request;
use crate::wire::payload_of;
use crate::wire::peer_name;
use crate::wire::request_text;
use crate::wire::sanitize;
use crate::wire::sync_error;

pub use crate::wire::BEACON_PORT;
pub use crate::wire::DEFAULT_PORT;

verus! {

/// The longest chain of manifests that is pulled.
pub const MAX_MANIFESTS_PER_PULL: usize = 100000;

/// The most objects that a pull asks for.
pub const MAX_OBJECTS_PER_PULL: usize = 8000000;

/// Hashes per HAVE request: keeps request frames well under MAX_FRAME.
pub const HAVE_BATCH: usize = 500000;

/// What the store holds of what a peer asked for.
#[derive(Debug)]
pub enum Found {
    Head(Result<Option<crate::Hash>>),
    /// `None` where there is no such manifest.
    Manifest(Option<Result<Vec<u8>>>),
    /// For each hash whether the object is there.
    Have(Vec<bool>),
    Object(Result<Vec<u8>>),
}

/// The payload of the reply to a peer, from what the store holds. A missing
/// manifest, and an object that is missing or cannot be read, are answered
/// with no bytes; other errors end the connection.
pub fn respond(found: Found) -> (r: Result<Vec<u8>>)
    ensures
        match found {
            Found::Head(Ok(h)) => r is Ok && r->Ok_0@ == head_text(hash_opt(h)),
            Found::Head(Err(e)) => r is Err && r->Err_0 == e,
            Found::Manifest(None) => r is Ok && r->Ok_0@ == blob_text(Seq::empty()),
            Found::Manifest(Some(Ok(d))) => r is Ok && r->Ok_0@ == blob_text(d@),
            Found::Manifest(Some(Err(e))) => r is Err && r->Err_0 == e,
            Found::Have(flags) => r is Ok && r->Ok_0@ == have_text(flags@),
            Found::Object(Ok(d)) => r is Ok && r->Ok_0@ == blob_text(d@),
            Found::Object(Err(_)) => r is Ok && r->Ok_0@ == blob_text(Seq::empty()),
        },
{
    let none: Vec<u8> = Vec::new();
    assert(none@ =~= Seq::empty());
    match found {
        Found::Head(Ok(h)) => match h {
            Some(h) => Ok(head_reply(Some(&h))),
            None => Ok(head_reply(None)),
        },
        Found::Head(Err(e)) => Err(e),
        Found::Manifest(None) => Ok(blob_reply(none.as_slice())),
        Found::Manifest(Some(Ok(d))) => Ok(blob_reply(d.as_slice())),
        Found::Manifest(Some(Err(e))) => Err(e),
        Found::Have(flags) => Ok(have_reply(&flags)),
        Found::Object(Ok(d)) => Ok(blob_reply(d.as_slice())),
        Found::Object(Err(_)) => Ok(blob_reply(none.as_slice())),
    }
}

#[derive(Debug)]
pub struct PullReport {
    pub remote_head: Option<crate::Hash>,
    pub manifests_fetched: u64,
    pub objects_fetched: u64,
    pub objects_skipped: u64,
}

impl Default for PullReport {
    fn default() -> (r: PullReport)
        ensures
            r.remote_head is None,
            r.manifests_fetched == 0,
            r.objects_fetched == 0,
            r.objects_skipped == 0,
    {
        PullReport {
            remote_head: None,
            manifests_fetched: 0,
            objects_fetched: 0,
            objects_skipped: 0,
        }
    }
}

/// The message for something that the peer should have.
pub open spec fn remote_missing_text(what: Seq<char>, h: Seq<u8>) -> Seq<char> {
    "remote missing "@ + what + hex_text(h.subrange(0, 6))
}

fn remote_missing(what: &str, h: &crate::Hash) -> (r: Error)
    ensures
        r@ == ErrorView::Sync(remote_missing_text(what@, h@)),
{
    let mut m: String = String::from_str("remote missing ");
    m.append(what);
    m.append(short(h).as_str());
    Error::Sync(m)
}

/// All chunks of all files, in order.
pub open spec fn chunks_of(files: Seq<FileView>) -> Seq<Seq<u8>>
    decreases files.len(),
{
    if files.len() == 0 {
        Seq::empty()
    } else {
        chunks_of(files.drop_last()) + files.last().chunks
    }
}

/// Whether every chunk of every file of the manifests is among the hashes.
spec fn needs_all(ms: Seq<ManifestView>, hs: Seq<Seq<u8>>) -> bool {
    forall|a: int, i: int, j: int|
        0 <= a < ms.len() && 0 <= i < ms[a].files.len() && 0 <= j < ms[a].files[i].chunks.len()
            ==> hs.contains(#[trigger] ms[a].files[i].chunks[j])
}

/// Whether the manifests were accepted along the chain: from HEAD, each as the
/// parent of the one before it, and the next that is wanted is the parent of
/// the last.
spec fn goes_back(
    head: Seq<u8>,
    cur: Seq<u8>,
    visited: Seq<Seq<u8>>,
    ms: Seq<ManifestView>,
) -> bool {
    &&& ms.len() <= visited.len() <= ms.len() + 1
    &&& visited.len() == 0 ==> cur == head
    &&& visited.len() > 0 ==> visited[0] == head
    &&& forall|k: int|
        0 <= k < ms.len() && k + 1 < visited.len() ==> (#[trigger] ms[k]).parent == Some(
            visited[k + 1],
        )
    &&& visited.len() == ms.len() + 1 ==> cur == visited.last()
    &&& visited.len() == ms.len() && ms.len() > 0 && ms.last().parent is Some ==> cur
        == ms.last().parent->Some_0
    &&& visited.len() == ms.len() && ms.len() > 0 && ms.last().parent is None ==> cur
        == visited.last()
}

/// Whether every hash is a chunk of a file of the manifests.
spec fn needs_only(ms: Seq<ManifestView>, hs: Seq<Seq<u8>>) -> bool {
    forall|h: Seq<u8>| #[trigger]
        hs.contains(h) ==> exists|a: int, i: int, j: int|
            0 <= a < ms.len() && 0 <= i < ms[a].files.len() && 0 <= j
                < ms[a].files[i].chunks.len() && #[trigger] ms[a].files[i].chunks[j] == h
}

/// The chunks of files are the chunks of each, one file behind the other.
pub proof fn chunks_of_files_follow_each_other(files: Seq<FileView>)
    ensures
        chunks_of(files) == files.map_values(|f: FileView| f.chunks).flatten(),
    decreases files.len(),
{
    let lists = files.map_values(|f: FileView| f.chunks);
    lists.lemma_flatten_and_flatten_alt_are_equivalent();
    if files.len() > 0 {
        let rest = files.drop_last();
        chunks_of_files_follow_each_other(rest);
        let fewer = rest.map_values(|f: FileView| f.chunks);
        fewer.lemma_flatten_and_flatten_alt_are_equivalent();
        assert(lists.drop_last() =~= fewer);
        assert(lists.last() == files.last().chunks);
    }
}

/// A hash is among the chunks of files exactly where some file has it as a
/// chunk.
pub proof fn every_chunk_of_every_file_is_listed(files: Seq<FileView>, h: Seq<u8>)
    ensures
        chunks_of(files).contains(h) <==> exists|i: int, j: int|
            0 <= i < files.len() && 0 <= j < files[i].chunks.len()
                && #[trigger] files[i].chunks[j] == h,
    decreases files.len(),
{
    if files.len() > 0 {
        let rest = files.drop_last();
        let l = files.last();
        every_chunk_of_every_file_is_listed(rest, h);
        lemma_plus_has(chunks_of(rest), l.chunks, h);
        if chunks_of(rest).contains(h) {
            let (i, j) = choose|i: int, j: int|
                0 <= i < rest.len() && 0 <= j < rest[i].chunks.len()
                    && #[trigger] rest[i].chunks[j] == h;
            assert(files[i].chunks[j] == h);
        }
        if l.chunks.contains(h) {
            let j = choose|j: int| 0 <= j < l.chunks.len() && l.chunks[j] == h;
            assert(files[files.len() - 1].chunks[j] == h);
        }
        if exists|i: int, j: int|
            0 <= i < files.len() && 0 <= j < files[i].chunks.len()
                && #[trigger] files[i].chunks[j] == h {
            let (i, j) = choose|i: int, j: int|
                0 <= i < files.len() && 0 <= j < files[i].chunks.len()
                    && #[trigger] files[i].chunks[j] == h;
            if i < rest.len() {
                assert(rest[i].chunks[j] == h);
            } else {
                assert(l.chunks[j] == h);
            }
        }
    }
}

proof fn lemma_needed_grows(had: Seq<ManifestView>, before: Seq<Seq<u8>>, m: ManifestView)
    requires
        needs_all(had, before),
        needs_only(had, before),
    ensures
        needs_all(had.push(m), before + chunks_of(m.files)),
        needs_only(had.push(m), before + chunks_of(m.files)),
        forall|i: int, j: int|
            0 <= i < m.files.len() && 0 <= j < m.files[i].chunks.len() ==> (before + chunks_of(
                m.files,
            )).contains(#[trigger] m.files[i].chunks[j]),
        forall|h: Seq<u8>| #[trigger]
            (before + chunks_of(m.files)).contains(h) <==> before.contains(h) || exists|
                i: int,
                j: int,
            |
                0 <= i < m.files.len() && 0 <= j < m.files[i].chunks.len()
                    && #[trigger] m.files[i].chunks[j] == h,
{
    let now = had.push(m);
    let all = before + chunks_of(m.files);
    assert forall|i: int, j: int|
        0 <= i < m.files.len() && 0 <= j < m.files[i].chunks.len() implies all.contains(
        #[trigger] m.files[i].chunks[j],
    ) by {
        let h = m.files[i].chunks[j];
        every_chunk_of_every_file_is_listed(m.files, h);
        lemma_plus_has(before, chunks_of(m.files), h);
    }
    assert forall|h: Seq<u8>| #[trigger] all.contains(h) <==> before.contains(h) || exists|
        i: int,
        j: int,
    |
        0 <= i < m.files.len() && 0 <= j < m.files[i].chunks.len()
            && #[trigger] m.files[i].chunks[j] == h by {
        every_chunk_of_every_file_is_listed(m.files, h);
        lemma_plus_has(before, chunks_of(m.files), h);
    }
    assert forall|a: int, i: int, j: int|
        0 <= a < now.len() && 0 <= i < now[a].files.len() && 0 <= j
            < now[a].files[i].chunks.len() implies all.contains(
        #[trigger] now[a].files[i].chunks[j],
    ) by {
        let h = now[a].files[i].chunks[j];
        if a < had.len() {
            assert(before.contains(had[a].files[i].chunks[j]));
            lemma_plus_has(before, chunks_of(m.files), h);
        } else {
            assert(all.contains(m.files[i].chunks[j]));
        }
    }
    assert forall|h: Seq<u8>| #[trigger] all.contains(h) implies exists|a: int, i: int, j: int|
        0 <= a < now.len() && 0 <= i < now[a].files.len() && 0 <= j < now[a].files[i].chunks.len()
            && #[trigger] now[a].files[i].chunks[j] == h by {
        if before.contains(h) {
            let (a, i, j) = choose|a: int, i: int, j: int|
                0 <= a < had.len() && 0 <= i < had[a].files.len() && 0 <= j
                    < had[a].files[i].chunks.len() && #[trigger] had[a].files[i].chunks[j] == h;
            assert(now[a].files[i].chunks[j] == h);
        } else {
            let (i, j) = choose|i: int, j: int|
                0 <= i < m.files.len() && 0 <= j < m.files[i].chunks.len()
                    && #[trigger] m.files[i].chunks[j] == h;
            assert(now[had.len() as int].files[i].chunks[j] == h);
        }
    }
}

/// The walk along a peer's chain of manifests: which one is wanted next,
/// which were asked for, and which objects they need.
///
/// Everything the remote sends is attacker-controlled: every slice is
/// bounds-checked, every object and manifest is hash-verified and
/// validated before it is accepted, the parent walk is cycle-guarded
/// and capped, and nothing from the wire ever reaches the worktree.
pub struct ManifestWalk {
    head: crate::Hash,
    cur: crate::Hash,
    visited: Vec<crate::Hash>,
    needed: Vec<crate::Hash>,
    fetched: u64,
    accepted: Ghost<Seq<ManifestView>>,
}

/// What to do next on a walk.
pub enum WalkStep {
    /// The manifest is here already, and its ancestors are too: the walk is
    /// over.
    Known(ManifestWalk),
    /// Send this request.
    Ask(AskedWalk, Vec<u8>),
}

/// A walk that waits for the manifest it asked for.
pub struct AskedWalk {
    walk: ManifestWalk,
}

impl ManifestWalk {
    /// The peer's HEAD.
    pub closed spec fn head(&self) -> Seq<u8> {
        self.head@
    }

    /// The manifest that is wanted next.
    pub closed spec fn cur(&self) -> Seq<u8> {
        self.cur@
    }

    /// The manifests that were asked for.
    pub closed spec fn visited(&self) -> Seq<Seq<u8>> {
        hashes(self.visited@)
    }

    /// The objects that the manifests need.
    pub closed spec fn needed(&self) -> Seq<Seq<u8>> {
        hashes(self.needed@)
    }

    /// How many manifests were accepted.
    pub closed spec fn fetched(&self) -> u64 {
        self.fetched
    }

    /// The manifests that were accepted.
    pub closed spec fn accepted(&self) -> Seq<ManifestView> {
        self.accepted@
    }

    #[verifier::type_invariant]
    spec fn wf(&self) -> bool {
        &&& self.fetched <= self.visited@.len()
        &&& self.visited@.len() <= MAX_MANIFESTS_PER_PULL
        &&& self.needed@.len() <= MAX_OBJECTS_PER_PULL
        &&& hashes(self.visited@).no_duplicates()
        &&& self.fetched == self.accepted@.len()
        &&& needs_all(self.accepted@, hashes(self.needed@))
        &&& needs_only(self.accepted@, hashes(self.needed@))
        &&& goes_back(self.head@, self.cur@, hashes(self.visited@), self.accepted@)
    }

    /// Begins a walk at what a peer says is its HEAD: none where it has none.
    pub fn begin(resp: &[u8]) -> (r: Result<Option<ManifestWalk>>)
        ensures
            match head_in(resp@) {
                None => r is Err && r->Err_0@ == ErrorView::Sync("malformed HEAD response"@),
                Some(None) => r is Ok && r->Ok_0 is None,
                Some(Some(h)) => r is Ok && r->Ok_0 is Some && r->Ok_0->Some_0.head() == h
                    && r->Ok_0->Some_0.cur() == h && r->Ok_0->Some_0.visited().len() == 0
                    && r->Ok_0->Some_0.needed().len() == 0 && r->Ok_0->Some_0.fetched() == 0
                    && r->Ok_0->Some_0.accepted() == Seq::<ManifestView>::empty(),
            },
    {
        let n: usize = resp.len();
        if n == 33 && resp[0] == 1 {
            let h = array32(vstd::slice::slice_subrange(resp, 1, 33));
            assert(h@ =~= resp@.skip(1));
            let visited: Vec<crate::Hash> = Vec::new();
            return Ok(
                Some(
                    ManifestWalk {
                        head: h,
                        cur: h,
                        visited,
                        needed: Vec::new(),
                        fetched: 0,
                        accepted: Ghost(Seq::empty()),
                    },
                ),
            );
        }
        if n > 0 && resp[0] == 0 {
            return Ok(None);
        }
        Err(sync_error("malformed HEAD response"))
    }

    /// The manifest that is wanted next: whether it is here decides how the
    /// walk goes on.
    /// No manifest is asked for twice, and not more than the cap allows.
    pub fn wanted(&self) -> (r: crate::Hash)
        ensures
            r@ == self.cur(),
            self.visited().no_duplicates(),
            self.visited().len() <= MAX_MANIFESTS_PER_PULL,
            self.needed().len() <= MAX_OBJECTS_PER_PULL,
            self.accepted().len() == self.fetched(),
            self.visited().len() == 0 ==> self.cur() == self.head(),
            self.visited().len() > 0 ==> self.visited()[0] == self.head(),
            forall|k: int|
                0 <= k < self.accepted().len() && k + 1 < self.visited().len() ==> (
                #[trigger] self.accepted()[k]).parent == Some(self.visited()[k + 1]),
            self.visited().len() == self.accepted().len() && self.accepted().len() > 0
                && self.accepted().last().parent is Some ==> self.cur()
                == self.accepted().last().parent->Some_0,
    {
        proof {
            use_type_invariant(self);
        }
        self.cur
    }

    /// Goes on with the manifest that is wanted next: nothing is left to do
    /// where it is `here`; otherwise it is asked for. A chain that comes back
    /// to a manifest, and one that is too long, are errors.
    pub fn ask(self, here: bool) -> (r: Result<WalkStep>)
        ensures
            if here {
                r is Ok && r->Ok_0 == WalkStep::Known(self)
            } else if self.visited().contains(self.cur()) {
                r is Err && r->Err_0@ == ErrorView::Sync("manifest chain cycle"@)
            } else if self.visited().len() >= MAX_MANIFESTS_PER_PULL {
                r is Err && r->Err_0@ == ErrorView::Sync("manifest chain too long"@)
            } else {
                &&& r is Ok
                &&& r->Ok_0 is Ask
                &&& r->Ok_0->Ask_1@ == request_text(RequestView::GetManifest(self.cur()))
                &&& r->Ok_0->Ask_0.walk().head() == self.head()
                &&& r->Ok_0->Ask_0.walk().cur() == self.cur()
                &&& r->Ok_0->Ask_0.walk().visited() == self.visited().push(self.cur())
                &&& r->Ok_0->Ask_0.walk().needed() == self.needed()
                &&& r->Ok_0->Ask_0.walk().fetched() == self.fetched()
                &&& r->Ok_0->Ask_0.walk().accepted() == self.accepted()
            },
    {
        proof {
            use_type_invariant(&self);
        }
        if here {
            return Ok(WalkStep::Known(self));
        }
        if has_hash(&self.visited, &self.cur) {
            return Err(sync_error("manifest chain cycle"));
        }
        if self.visited.len() >= MAX_MANIFESTS_PER_PULL {
            return Err(sync_error("manifest chain too long"));
        }
        let ManifestWalk { head, cur, mut visited, needed, fetched, accepted } = self;
        let ghost before = hashes(visited@);
        visited.push(cur);
        assert(hashes(visited@) =~= before.push(cur@));
        proof {
            let ms = accepted@;
            if before.len() == ms.len() + 1 || (ms.len() > 0 && ms.last().parent is None) {
                assert(before[before.len() - 1] == cur@);
                assert(before.contains(cur@));
            }
            assert(goes_back(head@, cur@, before.push(cur@), ms)) by {
                let v = before.push(cur@);
                assert forall|k: int| 0 <= k < ms.len() && k + 1 < v.len() implies (
                #[trigger] ms[k]).parent == Some(v[k + 1]) by {
                    if k + 1 < before.len() {
                        assert(v[k + 1] == before[k + 1]);
                    } else {
                        assert(ms[k] == ms.last());
                    }
                }
            }
        }
        let frame = manifest_request(&cur);
        let walk = ManifestWalk { head, cur, visited, needed, fetched, accepted };
        Ok(WalkStep::Ask(AskedWalk { walk }, frame))
    }

    /// The walk is over: the objects that are needed, each once, in order.
    pub fn finish(self) -> (r: Fetch)
        ensures
            r.head() == self.head(),
            r.manifests() == self.fetched(),
            r.accepted() == self.accepted(),
            r.accepted().len() == r.manifests(),
            self.visited().len() > 0 ==> self.visited()[0] == r.head(),
            forall|k: int|
                0 <= k < r.accepted().len() && k + 1 < self.visited().len() ==> (
                #[trigger] r.accepted()[k]).parent == Some(self.visited()[k + 1]),
            distinct_of(r.wanted(), self.needed()),
            r.wanted().no_duplicates(),
            forall|h: Seq<u8>| #[trigger] r.wanted().contains(h) <==> self.needed().contains(h),
            forall|a: int, i: int, j: int|
                0 <= a < r.accepted().len() && 0 <= i < r.accepted()[a].files.len() && 0 <= j
                    < r.accepted()[a].files[i].chunks.len() ==> r.wanted().contains(
                    #[trigger] r.accepted()[a].files[i].chunks[j],
                ),
            forall|h: Seq<u8>| #[trigger]
                r.wanted().contains(h) ==> exists|a: int, i: int, j: int|
                    0 <= a < r.accepted().len() && 0 <= i < r.accepted()[a].files.len() && 0 <= j
                        < r.accepted()[a].files[i].chunks.len()
                        && #[trigger] r.accepted()[a].files[i].chunks[j] == h,
            r.done() == 0,
            r.fetched() == 0,
            r.skipped() == 0,
            r.offers().len() == 0,
    {
        proof {
            use_type_invariant(&self);
        }
        let wanted = distinct(&self.needed);
        proof {
            let w = hashes(wanted@);
            assert forall|i: int, j: int| 0 <= i < w.len() && 0 <= j < w.len() && i != j implies w[i]
                != w[j] by {
                if i < j {
                    distinct_hashes_occur_once(w, i, j);
                } else {
                    distinct_hashes_occur_once(w, j, i);
                }
            }
            assert(distinct_of(hashes(wanted@), self.needed()));
        }
        Fetch {
            accepted: self.accepted,
            dealt: Ghost(Seq::empty()),
            head: self.head,
            manifests: self.fetched,
            wanted,
            at: 0,
            have: Vec::new(),
            used: 0,
            fetched: 0,
            skipped: 0,
        }
    }
}

impl AskedWalk {
    /// The walk as it was when it asked.
    pub closed spec fn walk(&self) -> ManifestWalk {
        self.walk
    }

    #[verifier::type_invariant]
    spec fn wf(&self) -> bool {
        &&& self.walk.fetched() < self.walk.visited().len()
        &&& self.walk.visited().len() == self.walk.accepted().len() + 1
    }

    /// Takes the manifest's bytes from the reply: they are accepted only
    /// under their own hash.
    pub fn take(&self, resp: &[u8]) -> (r: Result<Vec<u8>>)
        ensures
            match payload_of(resp@) {
                Err(m) => r is Err && r->Err_0@ == ErrorView::Sync(m),
                Ok(data) => if data.len() == 0 {
                    r is Err && r->Err_0@ == ErrorView::Sync(
                        remote_missing_text("manifest "@, self.walk().cur()),
                    )
                } else if blake3_hash(data) != self.walk().cur() {
                    r is Err && r->Err_0@ == ErrorView::Corrupt("manifest hash mismatch"@)
                } else {
                    r is Ok && r->Ok_0@ == data
                },
            },
    {
        let data = match frame_payload(resp) {
            Ok(d) => d,
            Err(e) => {
                return Err(e);
            },
        };
        if data.len() == 0 {
            return Err(remote_missing("manifest ", &self.walk.cur));
        }
        if !hash_eq(&hash_bytes(data), &self.walk.cur) {
            return Err(corrupt("manifest hash mismatch"));
        }
        Ok(vstd::slice::slice_to_vec(data))
    }

    /// Goes on to the parent of the manifest, and notes the objects that the
    /// manifest needs. `parsed` is what the JSON parser makes of `data`.
    /// Returns whether there is a parent, and the write that stores the
    /// manifest: only one that was validated is ever stored.
    pub fn follow(
        self,
        store: &Store,
        data: &[u8],
        parsed: std::result::Result<Manifest, String>,
    ) -> (r: Result<(ManifestWalk, bool, Option<FileWrite>)>)
        ensures
            if blake3_hash(data@) != self.walk().cur() {
                r is Err && r->Err_0@ == ErrorView::Corrupt("manifest hash mismatch"@)
            } else if data@.len() > MAX_MANIFEST_BYTES {
                r is Err && r->Err_0@ == ErrorView::Corrupt("manifest exceeds size cap"@)
            } else {
                match parsed {
                    Err(t) => r is Err && r->Err_0@ == ErrorView::Corrupt("json: "@ + t@),
                    Ok(m) => if !valid_manifest(m@) {
                        r is Err && manifest_error(m@, r->Err_0@)
                    } else if self.walk().needed().len() + chunks_of(m@.files).len()
                        > MAX_OBJECTS_PER_PULL {
                        r is Err && r->Err_0@ == ErrorView::Sync("pull exceeds object cap"@)
                    } else {
                        &&& r is Ok
                        &&& r->Ok_0.1 == (m@.parent is Some)
                        &&& r->Ok_0.2 is Some
                        &&& store.writes_manifest(self.walk().cur(), data@, r->Ok_0.2->Some_0)
                        &&& r->Ok_0.0.head() == self.walk().head()
                        &&& r->Ok_0.0.visited() == self.walk().visited()
                        &&& r->Ok_0.0.needed() == self.walk().needed() + chunks_of(m@.files)
                        &&& m@.parent is Some ==> r->Ok_0.0.cur() == m@.parent->Some_0
                        &&& m@.parent is None ==> r->Ok_0.0.cur() == self.walk().cur()
                        &&& r->Ok_0.0.fetched() == self.walk().fetched() + 1
                        &&& r->Ok_0.0.accepted() == self.walk().accepted().push(m@)
                        &&& forall|i: int, j: int|
                            0 <= i < m@.files.len() && 0 <= j < m@.files[i].chunks.len()
                                ==> r->Ok_0.0.needed().contains(
                                #[trigger] m@.files[i].chunks[j],
                            )
                        &&& forall|h: Seq<u8>| #[trigger]
                            r->Ok_0.0.needed().contains(h) <==> self.walk().needed().contains(h)
                                || exists|i: int, j: int|
                                0 <= i < m@.files.len() && 0 <= j < m@.files[i].chunks.len()
                                    && #[trigger] m@.files[i].chunks[j] == h
                    },
                }
            },
    {
        proof {
            use_type_invariant(&self);
            use_type_invariant(&self.walk);
        }
        let write = match store.put_manifest_as(&self.walk.cur, data, false) {
            Ok(w) => w,
            Err(e) => {
                return Err(e);
            },
        };
        let m = match Manifest::deserialize(data, parsed) {
            Ok(m) => m,
            Err(e) => {
                return Err(e);
            },
        };
        match m.validate() {
            Ok(_) => {},
            Err(e) => {
                return Err(e);
            },
        }
        let ManifestWalk { head, cur, visited, mut needed, fetched, accepted: Ghost(had) } =
            self.walk;
        let ghost before = hashes(needed@);
        let ghost now = had.push(m@);
        let ghost files = m@.files;
        let mut i: usize = 0;
        assert(files.take(0) =~= Seq::empty());
        assert(before + chunks_of(files.take(0)) =~= before);
        while i < m.files.len()
            invariant
                i <= m.files@.len(),
                files == file_views(m.files@),
                hashes(needed@) == before + chunks_of(files.take(i as int)),
            decreases m.files@.len() - i,
        {
            let f = &m.files[i];
            proof {
                assert(files[i as int] == f@);
                assert(files.take(i + 1).drop_last() =~= files.take(i as int));
                assert(f@.chunks.take(0) =~= Seq::empty());
                assert(hashes(needed@) + f@.chunks.take(0) =~= hashes(needed@));
            }
            let ghost had = hashes(needed@);
            let mut k: usize = 0;
            while k < f.chunks.len()
                invariant
                    k <= f.chunks@.len(),
                    hashes(needed@) == had + f@.chunks.take(k as int),
                decreases f.chunks@.len() - k,
            {
                let ghost now = hashes(needed@);
                let h = f.chunks[k];
                needed.push(h);
                proof {
                    assert(f@.chunks[k as int] == h@);
                    assert(hashes(needed@) =~= now.push(h@));
                    assert(f@.chunks.take(k + 1) =~= f@.chunks.take(k as int).push(h@));
                    assert(had + f@.chunks.take(k + 1) =~= now.push(h@));
                }
                k = k + 1;
            }
            proof {
                assert(f@.chunks.take(k as int) =~= f@.chunks);
                assert(had + f@.chunks =~= before + chunks_of(files.take(i + 1)));
            }
            i = i + 1;
        }
        assert(files.take(i as int) =~= files);
        if needed.len() > MAX_OBJECTS_PER_PULL {
            return Err(sync_error("pull exceeds object cap"));
        }
        let count: u64 = fetched + 1;
        proof {
            lemma_needed_grows(had, before, m@);
            assert(hashes(needed@) == before + chunks_of(m@.files));
            let v = hashes(visited@);
            assert forall|k: int| 0 <= k < now.len() && k + 1 < v.len() implies (
            #[trigger] now[k]).parent == Some(v[k + 1]) by {
                assert(now[k] == had[k]);
            }
        }
        let accepted: Ghost<Seq<ManifestView>> = Ghost(now);
        match m.parent {
            Some(p) => Ok(
                (
                    ManifestWalk { head, cur: p, visited, needed, fetched: count, accepted },
                    true,
                    write,
                ),
            ),
            None => Ok(
                (
                    ManifestWalk { head, cur, visited, needed, fetched: count, accepted },
                    false,
                    write,
                ),
            ),
        }
    }
}

/// The fetch of the objects that are needed, in batches: the peer says which
/// it has, and those that are not here yet are asked for one by one.
pub struct Fetch {
    head: crate::Hash,
    manifests: u64,
    wanted: Vec<crate::Hash>,
    at: usize,
    have: Vec<u8>,
    used: usize,
    fetched: u64,
    skipped: u64,
    accepted: Ghost<Seq<ManifestView>>,
    dealt: Ghost<Seq<Option<FileWrite>>>,
}

/// What to do next in a fetch.
pub enum FetchStep {
    /// Send this HAVE request; the reply opens the next batch.
    AskBatch(Vec<u8>),
    /// The peer has this object: look whether it is here.
    Look(crate::Hash),
    /// The peer does not have the object: pass over it.
    PassOver,
    /// All objects are dealt with.
    Finished,
}

/// How many hashes the next batch has when `n` are left.
pub open spec fn batch_len(n: int) -> int {
    if n < HAVE_BATCH {
        n
    } else {
        HAVE_BATCH as int
    }
}

/// Whether what a write puts down is the object with this hash.
spec fn holds_object(w: FileWrite, h: Seq<u8>) -> bool {
    zstd_content(w.data@) is Some && blake3_hash(zstd_content(w.data@)->Some_0) == h
}

impl Fetch {
    /// The peer's HEAD.
    pub closed spec fn head(&self) -> Seq<u8> {
        self.head@
    }

    /// How many manifests were accepted.
    pub closed spec fn manifests(&self) -> u64 {
        self.manifests
    }

    /// The objects that are needed.
    pub closed spec fn wanted(&self) -> Seq<Seq<u8>> {
        hashes(self.wanted@)
    }

    /// How many of them are dealt with.
    pub closed spec fn done(&self) -> int {
        self.at as int
    }

    /// What the peer said of those of the open batch that are not dealt with
    /// yet.
    pub closed spec fn offers(&self) -> Seq<u8> {
        self.have@.skip(self.used as int)
    }

    /// How many objects were accepted.
    pub closed spec fn fetched(&self) -> int {
        self.fetched as int
    }

    /// How many were passed over.
    pub closed spec fn skipped(&self) -> int {
        self.skipped as int
    }

    #[verifier::type_invariant]
    spec fn wf(&self) -> bool {
        &&& self.used <= self.have@.len()
        &&& self.at + (self.have@.len() - self.used) <= self.wanted@.len()
        &&& self.fetched + self.skipped == self.at
        &&& self.dealt@.len() == self.at
        &&& needs_all(self.accepted@, hashes(self.wanted@))
        &&& forall|k: int|
            0 <= k < self.at && (#[trigger] self.dealt@[k]) is Some ==> holds_object(
                self.dealt@[k]->Some_0,
                hashes(self.wanted@)[k],
            )
        &&& self.fetched == self.dealt@.filter(|d: Option<FileWrite>| d is Some).len()
    }

    /// The manifests whose objects are fetched.
    pub closed spec fn accepted(&self) -> Seq<ManifestView> {
        self.accepted@
    }

    /// What became of the objects that are dealt with: the write that stores
    /// one that was accepted, nothing for one that was passed over.
    pub closed spec fn dealt(&self) -> Seq<Option<FileWrite>> {
        self.dealt@
    }

    /// The hashes of the next batch.
    pub open spec fn batch(&self) -> Seq<Seq<u8>> {
        self.wanted().subrange(
            self.done(),
            self.done() + batch_len(self.wanted().len() - self.done()),
        )
    }

    /// What to do next. Every object that is dealt with was accepted or passed
    /// over, and no more are offered than are wanted.
    pub fn next(&self) -> (r: FetchStep)
        ensures
            self.done() == self.fetched() + self.skipped(),
            self.done() + self.offers().len() <= self.wanted().len(),
            forall|a: int, i: int, j: int|
                0 <= a < self.accepted().len() && 0 <= i < self.accepted()[a].files.len() && 0 <= j
                    < self.accepted()[a].files[i].chunks.len() ==> self.wanted().contains(
                    #[trigger] self.accepted()[a].files[i].chunks[j],
                ),
            self.dealt().len() == self.done(),
            forall|k: int|
                0 <= k < self.done() && (#[trigger] self.dealt()[k]) is Some ==> zstd_content(
                    self.dealt()[k]->Some_0.data@,
                ) is Some && blake3_hash(zstd_content(self.dealt()[k]->Some_0.data@)->Some_0)
                    == self.wanted()[k],
            match r {
                FetchStep::AskBatch(f) => self.offers().len() == 0 && self.done()
                    < self.wanted().len() && f@ == request_text(RequestView::Have(self.batch()))
                    && 0 < self.batch().len() <= HAVE_BATCH && self.batch() =~= self.wanted().skip(
                    self.done(),
                ).take(self.batch().len() as int) && (self.batch().len() < HAVE_BATCH
                    ==> self.batch() =~= self.wanted().skip(self.done())),
                FetchStep::Look(h) => self.offers().len() > 0 && self.offers()[0] == 1 && h@
                    == self.wanted()[self.done()],
                FetchStep::PassOver => self.offers().len() > 0 && self.offers()[0] != 1,
                FetchStep::Finished => self.offers().len() == 0 && self.done()
                    == self.wanted().len(),
            },
    {
        proof {
            use_type_invariant(self);
        }
        if self.used < self.have.len() {
            if self.have[self.used] == 1 {
                return FetchStep::Look(self.wanted[self.at]);
            }
            return FetchStep::PassOver;
        }
        let left: usize = self.wanted.len() - self.at;
        if left == 0 {
            return FetchStep::Finished;
        }
        let n: usize = if left < HAVE_BATCH {
            left
        } else {
            HAVE_BATCH
        };
        let batch = vstd::slice::slice_subrange(self.wanted.as_slice(), self.at, self.at + n);
        assert(hashes(batch@) =~= self.batch());
        FetchStep::AskBatch(have_request(batch))
    }

    /// Opens the next batch with the peer's reply to HAVE: one byte for each
    /// hash.
    pub fn open(self, resp: &[u8]) -> (r: Result<Fetch>)
        requires
            self.offers().len() == 0,
        ensures
            if resp@.len() != self.batch().len() {
                r is Err && r->Err_0@ == ErrorView::Sync("HAVE response truncated"@)
            } else {
                &&& r is Ok
                &&& r->Ok_0.offers() == resp@
                &&& r->Ok_0.head() == self.head()
                &&& r->Ok_0.manifests() == self.manifests()
                &&& r->Ok_0.wanted() == self.wanted()
                &&& r->Ok_0.done() == self.done()
                &&& r->Ok_0.accepted() == self.accepted()
                &&& r->Ok_0.dealt() == self.dealt()
                &&& r->Ok_0.fetched() == self.fetched()
                &&& r->Ok_0.skipped() == self.skipped()
            },
    {
        proof {
            use_type_invariant(&self);
        }
        let left: usize = self.wanted.len() - self.at;
        let n: usize = if left < HAVE_BATCH {
            left
        } else {
            HAVE_BATCH
        };
        assert(n == self.batch().len());
        if resp.len() != n {
            return Err(sync_error("HAVE response truncated"));
        }
        let have = vstd::slice::slice_to_vec(resp);
        assert(have@.skip(0) =~= resp@);
        Ok(
            Fetch {
                head: self.head,
                manifests: self.manifests,
                wanted: self.wanted,
                at: self.at,
                have,
                used: 0,
                fetched: self.fetched,
                skipped: self.skipped,
                accepted: self.accepted,
                dealt: self.dealt,
            },
        )
    }

    /// Passes over the next object: the peer does not have it, or it is here
    /// already.
    pub fn pass_over(self) -> (r: Fetch)
        requires
            self.offers().len() > 0,
        ensures
            r.offers() == self.offers().drop_first(),
            r.head() == self.head(),
            r.manifests() == self.manifests(),
            r.wanted() == self.wanted(),
            r.done() == self.done() + 1,
            r.accepted() == self.accepted(),
            r.dealt() == self.dealt().push(None),
            r.fetched() == self.fetched(),
            r.skipped() == self.skipped() + 1,
    {
        proof {
            use_type_invariant(&self);
            assert(self.have@.skip(self.used + 1) =~= self.offers().drop_first());
        }
        assert(self.at < self.wanted.len() && self.used < self.have.len());
        proof {
            lemma_dealt_push(self.dealt@, None);
        }
        Fetch {
            accepted: self.accepted,
            dealt: Ghost(self.dealt@.push(None)),
            head: self.head,
            manifests: self.manifests,
            wanted: self.wanted,
            at: self.at + 1,
            have: self.have,
            used: self.used + 1,
            fetched: self.fetched,
            skipped: self.skipped + 1,
        }
    }

    /// The request for the next object.
    pub fn ask(&self) -> (r: Vec<u8>)
        requires
            self.offers().len() > 0,
        ensures
            r@ == request_text(RequestView::GetObject(self.wanted()[self.done()])),
    {
        proof {
            use_type_invariant(self);
        }
        object_request(&self.wanted[self.at])
    }

    /// Takes the next object from the reply: it is accepted only under its
    /// own hash. Returns the write that stores it; past that, the only error
    /// is one of the compressor.
    pub fn take(self, store: &Store, resp: &[u8]) -> (r: Result<(Fetch, Option<FileWrite>)>)
        requires
            self.offers().len() > 0,
        ensures
            ({
                let h = self.wanted()[self.done()];
                match payload_of(resp@) {
                    Err(m) => r is Err && r->Err_0@ == ErrorView::Sync(m),
                    Ok(data) => if data.len() == 0 {
                        r is Err && r->Err_0@ == ErrorView::Sync(
                            remote_missing_text("object "@, h),
                        )
                    } else if blake3_hash(data) != h {
                        r is Err && r->Err_0@ == ErrorView::Corrupt(object_mismatch_text(h))
                    } else {
                        match r {
                            Err(e) => !zstd_encodes(data, ZSTD_LEVEL as int) && e is Io,
                            Ok(p) => {
                                &&& p.1 is Some
                                &&& store.writes_object(h, data, p.1->Some_0)
                                &&& p.0.offers() == self.offers().drop_first()
                                &&& p.0.head() == self.head()
                                &&& p.0.manifests() == self.manifests()
                                &&& p.0.wanted() == self.wanted()
                                &&& p.0.done() == self.done() + 1
                                &&& p.0.accepted() == self.accepted()
                                &&& p.0.dealt() == self.dealt().push(p.1)
                                &&& p.0.fetched() == self.fetched() + 1
                                &&& p.0.skipped() == self.skipped()
                            },
                        }
                    },
                }
            }),
    {
        proof {
            use_type_invariant(&self);
            assert(self.have@.skip(self.used + 1) =~= self.offers().drop_first());
        }
        assert(self.at < self.wanted.len() && self.used < self.have.len());
        let h = self.wanted[self.at];
        assert(self.wanted()[self.done()] == h@);
        let data = match frame_payload(resp) {
            Ok(d) => d,
            Err(e) => {
                return Err(e);
            },
        };
        if data.len() == 0 {
            return Err(remote_missing("object ", &h));
        }
        match store.put_object_as(&h, data, false) {
            Err(e) => Err(e),
            Ok(w) => {
                proof {
                    lemma_dealt_push(self.dealt@, w);
                }
                let next = Fetch {
                    accepted: self.accepted,
                    dealt: Ghost(self.dealt@.push(w)),
                    head: self.head,
                    manifests: self.manifests,
                    wanted: self.wanted,
                    at: self.at + 1,
                    have: self.have,
                    used: self.used + 1,
                    fetched: self.fetched + 1,
                    skipped: self.skipped,
                };
                Ok((next, w))
            },
        }
    }

    /// What the pull did, and the note of the peer's HEAD to write: its
    /// directory, path and content.
    pub fn finish(&self, store: &Store, addr: &str) -> (r: (PullReport, RemoteNote))
        ensures
            r.0.remote_head is Some,
            r.0.remote_head->Some_0@ == self.head(),
            r.0.manifests_fetched == self.manifests(),
            r.0.objects_fetched == self.fetched(),
            r.0.objects_skipped == self.skipped(),
            r.0.objects_fetched + r.0.objects_skipped == self.done(),
            r.0.objects_fetched == self.dealt().filter(|d: Option<FileWrite>| d is Some).len(),
            r.1.dir@ == join_text(store.fabric_text(), "remotes"@),
            r.1.path@ == join_text(r.1.dir@, peer_name(addr@)),
            r.1.text@ == hex_text(self.head()),
    {
        proof {
            use_type_invariant(self);
        }
        let dir = join(store.fabric_dir().as_str(), "remotes");
        let path = join(dir.as_str(), sanitize(addr).as_str());
        (
            PullReport {
                remote_head: Some(self.head),
                manifests_fetched: self.manifests,
                objects_fetched: self.fetched,
                objects_skipped: self.skipped,
            },
            RemoteNote { dir, path, text: hash_hex(&self.head) },
        )
    }
}

/// The note of a peer's HEAD.
#[derive(Debug)]
pub struct RemoteNote {
    pub dir: String,
    pub path: String,
    pub text: String,
}

/// Ensure a fabric exists at `root`: opens one that is there, and says what
/// has to be made for a new one.
pub fn ensure_init(root: &str, has_objects: bool, head_exists: bool) -> (r: (
    Store,
    Option<InitPlan>,
))
    ensures
        r.0.root_text() == root@,
        has_objects ==> r.1 is None,
        !has_objects ==> r.1 is Some && strs(r.1->Some_0.dirs@) == seq![
            r.0.objects_text(),
            r.0.manifests_text(),
        ] && match r.1->Some_0.head {
            None => head_exists,
            Some(path) => !head_exists && path@ == join_text(r.0.fabric_text(), "HEAD"@),
        },
{
    match Store::open(root, has_objects) {
        Ok(s) => (s, None),
        Err(_) => {
            let (s, plan) = Store::init(root, head_exists);
            (s, Some(plan))
        },
    }
}

proof fn lemma_dealt_push(dealt: Seq<Option<FileWrite>>, d: Option<FileWrite>)
    ensures
        dealt.push(d).filter(|d: Option<FileWrite>| d is Some).len() == dealt.filter(
            |d: Option<FileWrite>| d is Some,
        ).len() + if d is Some {
            1int
        } else {
            0int
        },
{
    reveal(Seq::filter);
    assert(dealt.push(d).drop_last() =~= dealt);
}

/// A pull that is through has replicated the peer's history: once every object
/// that is wanted is dealt with, those that were passed over were there, and
/// those that were written are there now, every chunk of every file of every
/// manifest that was accepted is there, under its own hash. `there` says which
/// objects are in the store at the end.
pub proof fn finished_pull_has_every_chunk(
    accepted: Seq<ManifestView>,
    wanted: Seq<Seq<u8>>,
    dealt: Seq<Option<FileWrite>>,
    there: spec_fn(Seq<u8>) -> bool,
    a: int,
    i: int,
    j: int,
)
    requires
        forall|a: int, i: int, j: int|
            0 <= a < accepted.len() && 0 <= i < accepted[a].files.len() && 0 <= j
                < accepted[a].files[i].chunks.len() ==> wanted.contains(
                #[trigger] accepted[a].files[i].chunks[j],
            ),
        dealt.len() == wanted.len(),
        forall|k: int|
            0 <= k < wanted.len() && (#[trigger] dealt[k]) is None ==> there(wanted[k]),
        forall|k: int|
            0 <= k < wanted.len() && (#[trigger] dealt[k]) is Some && zstd_content(
                dealt[k]->Some_0.data@,
            ) is Some ==> there(blake3_hash(zstd_content(dealt[k]->Some_0.data@)->Some_0)),
        forall|k: int|
            0 <= k < wanted.len() && (#[trigger] dealt[k]) is Some ==> zstd_content(
                dealt[k]->Some_0.data@,
            ) is Some && blake3_hash(zstd_content(dealt[k]->Some_0.data@)->Some_0) == wanted[k],
        0 <= a < accepted.len(),
        0 <= i < accepted[a].files.len(),
        0 <= j < accepted[a].files[i].chunks.len(),
    ensures
        there(accepted[a].files[i].chunks[j]),
{
    let h = accepted[a].files[i].chunks[j];
    assert(wanted.contains(h));
    let k = choose|k: int| 0 <= k < wanted.len() && wanted[k] == h;
    assert(dealt[k] is Some || dealt[k] is None);
}

/// A request for a whole batch fits into a frame.
pub proof fn batch_request_fits_a_frame(hs: Seq<Seq<u8>>)
    requires
        hs.len() <= HAVE_BATCH,
        forall|i: int| 0 <= i < hs.len() ==> (#[trigger] hs[i]).len() == 32,
    ensures
        request_text(RequestView::Have(hs)).len() <= MAX_FRAME,
{
    lemma_radix();
    le_round_trip(hs.len(), 4);
    lemma_concat_hashes(hs);
}

} // verus!
