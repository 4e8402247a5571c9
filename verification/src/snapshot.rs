//! Snapshot graph: manifests of file trees.
//!
//! A manifest is a record of every file under the worktree root: path,
//! mode, size, mtime, content hash, and the ordered chunk hashes the
//! content is split into. The manifest bytes live in the store; the
//! snapshot id is the BLAKE3 of those bytes, so the id itself is
//! tamper-evident and replication-safe.

use vstd::prelude::*;
use vstd::string::*;
use vstd::utf8::*;
use crate::digest::hash_eq;
use crate::digest::hash_name;
use crate::digest::hash_of_text;
use crate::digest::hash_text_round_trip;
use crate::digest::hex_text;
use crate::digest::is_hash_name;
use crate::digest::is_hex;
use crate::digest::is_hex_digit;
use crate::digest::parse_hash;
use crate::error::Error;
use crate::error::ErrorView;
use crate::error::Result;
use crate::error::corrupt;
use crate::error::json_error;
use crate::index::TextIndex;
use crate::index::ascending;
use crate::index::chosen;
use crate::index::is_last;
use crate::index::lemma_ascending_unique;
use crate::index::lemma_chosen;
use crate::index::lemma_chosen_step;
use crate::index::lists;
use crate::order::text_le;
use crate::paths::safe_rel;
use crate::paths::sanitize_rel;
use crate::store::Store;
use crate::store::head_of_text;
use crate::text::begins_with;
use crate::text::chars_of;
use crate::text::clone_strs;
use crate::text::dec;
use crate::text::lemma_push_has;
use crate::text::lemma_strs_push;
use crate::text::push_dec;
use crate::text::strs;
use crate::text::text_eq;

pub use crate::history::list;

verus! {

/// Current manifest version. v3 = content-defined chunks (CDC); the
/// format itself is unchanged: chunk boundaries live in the object set.
/// v2 manifests (fixed 64 KiB chunks) remain readable.
pub const MANIFEST_VERSION: u32 = 3;

/// Oldest manifest version that is loaded.
pub const MIN_MANIFEST_VERSION: u32 = 2;

/// Hard caps applied when accepting a manifest, chiefly from `pull`,
/// where a hostile peer controls the bytes.
pub const MAX_MANIFEST_FILES: usize = 2000000;

pub const MAX_MANIFEST_CHUNKS: usize = 8000000;

/// The largest serialized manifest that is parsed.
pub const MAX_MANIFEST_BYTES: usize = 268435456;

#[derive(Debug, Clone)]
pub struct FileEntry {
    /// Relative path from worktree root, '/'-separated.
    pub path: String,
    /// Permission bits only (masked with 0o777 on apply: special bits
    /// like setuid are never honored).
    pub mode: u32,
    pub size: u64,
    pub mtime_secs: u64,
    pub mtime_nanos: u32,
    /// BLAKE3 of the full file content.
    pub content: crate::Hash,
    /// Ordered chunk hashes; file content = concat(chunk bytes).
    pub chunks: Vec<crate::Hash>,
}

#[derive(Debug, Clone)]
pub struct Manifest {
    pub version: u32,
    pub parent: Option<crate::Hash>,
    pub timestamp_secs: u64,
    pub message: String,
    pub files: Vec<FileEntry>,
    /// Files whose content was still changing when captured (metadata
    /// disagreed across the read window after all retries). Recorded so
    /// it is known which entries may not reflect a quiet tree.
    pub unstable: Vec<String>,
}

/// A file entry with its texts as characters and its hashes as bytes.
pub struct FileView {
    pub path: Seq<char>,
    pub mode: u32,
    pub size: u64,
    pub mtime_secs: u64,
    pub mtime_nanos: u32,
    pub content: Seq<u8>,
    pub chunks: Seq<Seq<u8>>,
}

/// A manifest with its texts as characters and its hashes as bytes.
pub struct ManifestView {
    pub version: u32,
    pub parent: Option<Seq<u8>>,
    pub timestamp_secs: u64,
    pub message: Seq<char>,
    pub files: Seq<FileView>,
    pub unstable: Seq<Seq<char>>,
}

/// The bytes of a list of hashes.
pub open spec fn hashes(v: Seq<crate::Hash>) -> Seq<Seq<u8>> {
    v.map_values(|h: crate::Hash| h@)
}

/// The bytes of a hash that may be missing.
pub open spec fn hash_opt(h: Option<crate::Hash>) -> Option<Seq<u8>> {
    match h {
        Some(h) => Some(h@),
        None => None,
    }
}

impl View for FileEntry {
    type V = FileView;

    open spec fn view(&self) -> FileView {
        FileView {
            path: self.path@,
            mode: self.mode,
            size: self.size,
            mtime_secs: self.mtime_secs,
            mtime_nanos: self.mtime_nanos,
            content: self.content@,
            chunks: hashes(self.chunks@),
        }
    }
}

/// The entries of a list of files.
pub open spec fn file_views(v: Seq<FileEntry>) -> Seq<FileView> {
    v.map_values(|f: FileEntry| f@)
}

impl View for Manifest {
    type V = ManifestView;

    open spec fn view(&self) -> ManifestView {
        ManifestView {
            version: self.version,
            parent: hash_opt(self.parent),
            timestamp_secs: self.timestamp_secs,
            message: self.message@,
            files: file_views(self.files@),
            unstable: strs(self.unstable@),
        }
    }
}

/// How many chunks the files have together.
pub open spec fn chunk_total(files: Seq<FileView>) -> nat
    decreases files.len(),
{
    if files.len() == 0 {
        0
    } else {
        chunk_total(files.drop_last()) + files.last().chunks.len()
    }
}

/// What is wrong with the file at position `i`, where something is.
pub open spec fn file_fault(files: Seq<FileView>, i: int) -> Option<ErrorView> {
    let f = files[i];
    if !safe_rel(f.path) {
        Some(ErrorView::UnsafePath(f.path))
    } else if chunk_total(files.take(i + 1)) > MAX_MANIFEST_CHUNKS {
        Some(ErrorView::Corrupt("manifest exceeds chunk count cap"@))
    } else if f.chunks.len() == 0 && f.size > 0 {
        Some(ErrorView::Corrupt("non-empty file with no chunks: "@ + f.path))
    } else {
        None
    }
}

/// Whether none of the first `n` files has a fault.
pub open spec fn faultless(files: Seq<FileView>, n: int) -> bool {
    forall|i: int| 0 <= i < n ==> #[trigger] file_fault(files, i) is None
}

/// A manifest that may be used: a known version, counts under the caps, safe
/// paths, and chunks for every file that is not empty.
pub open spec fn valid_manifest(m: ManifestView) -> bool {
    &&& MIN_MANIFEST_VERSION <= m.version <= MANIFEST_VERSION
    &&& m.files.len() <= MAX_MANIFEST_FILES
    &&& faultless(m.files, m.files.len() as int)
}

/// The error for a manifest that may not be used: that of its first fault.
pub open spec fn manifest_error(m: ManifestView, e: ErrorView) -> bool {
    if m.version > MANIFEST_VERSION || m.version < MIN_MANIFEST_VERSION {
        e == ErrorView::Corrupt("unsupported manifest version "@ + dec(m.version as nat))
    } else if m.files.len() > MAX_MANIFEST_FILES {
        e == ErrorView::Corrupt("manifest exceeds file count cap"@)
    } else {
        exists|i: int|
            0 <= i < m.files.len() && faultless(m.files, i) && #[trigger] file_fault(m.files, i)
                == Some(e)
    }
}

impl FileEntry {
    /// A copy of the entry.
    pub fn copy(&self) -> (r: FileEntry)
        ensures
            r@ == self@,
    {
        let chunks = copy_hashes(&self.chunks);
        FileEntry {
            path: self.path.clone(),
            mode: self.mode,
            size: self.size,
            mtime_secs: self.mtime_secs,
            mtime_nanos: self.mtime_nanos,
            content: self.content,
            chunks,
        }
    }
}

/// A copy of a list of hashes.
pub fn copy_hashes(v: &Vec<crate::Hash>) -> (r: Vec<crate::Hash>)
    ensures
        r@ == v@,
{
    let mut out: Vec<crate::Hash> = Vec::new();
    let mut i: usize = 0;
    while i < v.len()
        invariant
            i <= v@.len(),
            out@ == v@.take(i as int),
        decreases v@.len() - i,
    {
        out.push(v[i]);
        i = i + 1;
        assert(out@ =~= v@.take(i as int));
    }
    assert(out@ =~= v@);
    out
}

impl Manifest {
    /// A copy of the manifest.
    pub fn copy(&self) -> (r: Manifest)
        ensures
            r@ == self@,
    {
        let mut files: Vec<FileEntry> = Vec::new();
        let mut i: usize = 0;
        while i < self.files.len()
            invariant
                i <= self.files@.len(),
                file_views(files@) == file_views(self.files@).take(i as int),
            decreases self.files@.len() - i,
        {
            let f = self.files[i].copy();
            let ghost before = file_views(files@);
            files.push(f);
            i = i + 1;
            assert(file_views(files@) =~= before.push(f@));
            assert(file_views(self.files@).take(i as int) =~= before.push(f@));
        }
        assert(file_views(files@) =~= file_views(self.files@));
        Manifest {
            version: self.version,
            parent: self.parent,
            timestamp_secs: self.timestamp_secs,
            message: self.message.clone(),
            files,
            unstable: clone_strs(&self.unstable),
        }
    }

    /// Manifests are JSON, inspectable with any tool. A size bound on
    /// the bytes keeps a hostile peer from driving decode allocations
    /// with a huge length prefix. `parsed` is what the JSON parser makes of
    /// `data`: a manifest, or its message.
    pub fn deserialize(data: &[u8], parsed: std::result::Result<Manifest, String>) -> (r: Result<
        Manifest,
    >)
        ensures
            if data@.len() > MAX_MANIFEST_BYTES {
                r is Err && r->Err_0@ == ErrorView::Corrupt("manifest exceeds size cap"@)
            } else {
                match parsed {
                    Ok(m) => r is Ok && r->Ok_0 == m,
                    Err(t) => r is Err && r->Err_0@ == ErrorView::Corrupt("json: "@ + t@),
                }
            },
    {
        if data.len() > MAX_MANIFEST_BYTES {
            return Err(corrupt("manifest exceeds size cap"));
        }
        match parsed {
            Ok(m) => Ok(m),
            Err(t) => Err(json_error(t.as_str())),
        }
    }

    /// Reject manifests that could not have been produced by `create`:
    /// wrong version, unsafe paths, or absurd counts. Called on every
    /// load and again before `revert` writes anything: a manifest that
    /// arrived over the wire is attacker-controlled bytes.
    pub fn validate(&self) -> (r: Result<()>)
        ensures
            match r {
                Ok(_) => valid_manifest(self@),
                Err(e) => !valid_manifest(self@) && manifest_error(self@, e@),
            },
    {
        if self.version > MANIFEST_VERSION || self.version < MIN_MANIFEST_VERSION {
            let mut m: String = String::from_str("unsupported manifest version ");
            push_dec(&mut m, self.version as u64);
            return Err(Error::Corrupt(m));
        }
        if self.files.len() > MAX_MANIFEST_FILES {
            return Err(corrupt("manifest exceeds file count cap"));
        }
        let ghost files = file_views(self.files@);
        let mut total: usize = 0;
        let mut i: usize = 0;
        assert(files.take(0) =~= Seq::empty());
        while i < self.files.len()
            invariant
                i <= self.files@.len(),
                files == file_views(self.files@),
                files == self@.files,
                MIN_MANIFEST_VERSION <= self.version <= MANIFEST_VERSION,
                self.files@.len() <= MAX_MANIFEST_FILES,
                total == chunk_total(files.take(i as int)),
                total <= MAX_MANIFEST_CHUNKS,
                faultless(files, i as int),
            decreases self.files@.len() - i,
        {
            let f = &self.files[i];
            assert(files[i as int] == f@);
            assert(files.take(i + 1).drop_last() =~= files.take(i as int));
            match sanitize_rel(f.path.as_str()) {
                Ok(_) => {},
                Err(e) => {
                    assert(file_fault(files, i as int) == Some(e@));
                    return Err(e);
                },
            }
            let n: usize = f.chunks.len();
            assert(n == f@.chunks.len());
            if n > MAX_MANIFEST_CHUNKS - total {
                let e = corrupt("manifest exceeds chunk count cap");
                assert(file_fault(files, i as int) == Some(e@));
                return Err(e);
            }
            total = total + n;
            if n == 0 && f.size > 0 {
                let mut m: String = String::from_str("non-empty file with no chunks: ");
                m.append(f.path.as_str());
                let e = Error::Corrupt(m);
                assert(file_fault(files, i as int) == Some(e@));
                return Err(e);
            }
            assert(file_fault(files, i as int) is None);
            i = i + 1;
        }
        Ok(())
    }
}

/// What reading a manifest file gave: its bytes and what the JSON parser
/// makes of them, or why there are none.
#[derive(Debug)]
pub enum ManifestFile {
    Missing,
    Failed(std::io::Error),
    Data(Vec<u8>, std::result::Result<Manifest, String>),
}

/// What loading a manifest gives.
pub open spec fn loaded(id: Seq<u8>, file: ManifestFile, r: Result<Manifest>) -> bool {
    match file {
        ManifestFile::Missing => r is Err && r->Err_0@ == ErrorView::MissingObject(id),
        ManifestFile::Failed(e) => r is Err && r->Err_0@ == ErrorView::Io(e),
        ManifestFile::Data(bytes, parsed) => if bytes@.len() > MAX_MANIFEST_BYTES {
            r is Err && r->Err_0@ == ErrorView::Corrupt("manifest exceeds size cap"@)
        } else {
            match parsed {
                Err(t) => r is Err && r->Err_0@ == ErrorView::Corrupt("json: "@ + t@),
                Ok(m) => if valid_manifest(m@) {
                    r is Ok && r->Ok_0 == m
                } else {
                    r is Err && manifest_error(m@, r->Err_0@)
                },
            }
        },
    }
}

/// Load a manifest by snapshot id. Validates before returning: the
/// caller can trust paths are safe to join under the worktree root.
pub fn load(id: &crate::Hash, file: ManifestFile) -> (r: Result<Manifest>)
    ensures
        loaded(id@, file, r),
        r is Ok ==> valid_manifest(r->Ok_0@),
{
    match file {
        ManifestFile::Missing => Err(Error::MissingObject(*id)),
        ManifestFile::Failed(e) => Err(Error::Io(e)),
        ManifestFile::Data(bytes, parsed) => {
            match Manifest::deserialize(bytes.as_slice(), parsed) {
                Err(e) => Err(e),
                Ok(m) => match m.validate() {
                    Err(e) => Err(e),
                    Ok(_) => Ok(m),
                },
            }
        },
    }
}

/// ASCII capitals replaced by small letters.
pub open spec fn lowered(s: Seq<char>) -> Seq<char> {
    s.map_values(
        |c: char|
            if 65 <= c as u32 && c as u32 <= 90 {
                ((c as u32 + 32) as u8) as char
            } else {
                c
            },
    )
}

/// ASCII capitals replaced by small letters.
pub fn to_lower(s: &str) -> (r: Vec<char>)
    ensures
        r@ == lowered(s@),
{
    let v = chars_of(s);
    let mut out: Vec<char> = Vec::new();
    let mut i: usize = 0;
    while i < v.len()
        invariant
            i <= v@.len(),
            out@ == lowered(v@).take(i as int),
        decreases v@.len() - i,
    {
        let c = v[i];
        let n: u32 = c as u32;
        let d = if 65 <= n && n <= 90 {
            ((n + 32) as u8) as char
        } else {
            c
        };
        out.push(d);
        i = i + 1;
        assert(out@ =~= lowered(v@).take(i as int));
    }
    assert(out@ =~= lowered(v@));
    out
}

/// Whether a text can be the beginning of a snapshot id: four or more
/// hexadecimal digits of either case.
pub open spec fn is_id_prefix(s: Seq<char>) -> bool {
    let b = encode_utf8(s);
    b.len() >= 4 && forall|i: int| 0 <= i < b.len() ==> is_hex_digit(#[trigger] b[i])
}

/// The names among `names` that are snapshot ids and begin with `prefix`.
pub open spec fn ids_with_prefix(names: Seq<Seq<char>>, prefix: Seq<char>) -> Seq<Seq<char>>
    decreases names.len(),
{
    if names.len() == 0 {
        Seq::empty()
    } else {
        let n = names.last();
        let head = ids_with_prefix(names.drop_last(), prefix);
        if prefix.is_prefix_of(n) && hash_name(encode_utf8(n)) {
            head.push(n)
        } else {
            head
        }
    }
}

/// What a snapshot reference stands for: `head` or `HEAD`, a full id, or the
/// beginning of exactly one of the stored ids.
pub open spec fn resolved(
    reference: Seq<char>,
    head: std::result::Result<Option<Seq<u8>>, Seq<char>>,
    names: Seq<Seq<char>>,
) -> std::result::Result<Seq<u8>, ErrorView> {
    if reference == "head"@ || reference == "HEAD"@ {
        match head {
            Err(m) => Err(ErrorView::BadHash(m)),
            Ok(None) => Err(ErrorView::Corrupt("no HEAD snapshot"@)),
            Ok(Some(h)) => Ok(h),
        }
    } else if encode_utf8(reference).len() == 64 {
        match hash_of_text(reference) {
            Some(h) => Ok(h),
            None => Err(ErrorView::BadHash(reference)),
        }
    } else if !is_id_prefix(reference) {
        Err(ErrorView::BadHash(reference))
    } else {
        let hits = ids_with_prefix(names, lowered(reference));
        if hits.len() == 0 {
            Err(ErrorView::BadHash("no snapshot matches '"@ + reference + "'"@))
        } else if hits.len() == 1 {
            Ok(hash_of_text(hits[0])->0)
        } else {
            Err(ErrorView::BadHash("ambiguous prefix '"@ + reference + "'"@))
        }
    }
}

fn quoted(what: &str, reference: &str) -> (r: Error)
    ensures
        r@ == ErrorView::BadHash(what@ + reference@ + "'"@),
{
    let mut m: String = String::from_str(what);
    m.append(reference);
    m.append("'");
    Error::BadHash(m)
}

/// Resolve a snapshot reference: full hex, unique hex prefix, or "head".
/// `head` is the text of the HEAD file, `names` the names of the files in the
/// manifest directories, each with its directory's name in front.
pub fn resolve(reference: &str, head: Option<&str>, names: &Vec<String>) -> (r: Result<crate::Hash>)
    ensures
        match resolved(reference@, head_of_text(head), strs(names@)) {
            Ok(h) => r is Ok && r->Ok_0@ == h,
            Err(e) => r is Err && r->Err_0@ == e,
        },
{
    if text_eq(reference, "head") || text_eq(reference, "HEAD") {
        return match Store::head(head) {
            Err(e) => Err(e),
            Ok(None) => Err(corrupt("no HEAD snapshot")),
            Ok(Some(h)) => Ok(h),
        };
    }
    let bytes = reference.as_bytes();
    if bytes.len() == 64 {
        return parse_hash(reference);
    }
    if bytes.len() < 4 {
        return Err(Error::BadHash(reference.to_owned()));
    }
    let mut i: usize = 0;
    while i < bytes.len()
        invariant
            i <= bytes@.len(),
            bytes@ == encode_utf8(reference@),
            bytes@.len() != 64,
            reference@ != "head"@,
            reference@ != "HEAD"@,
            forall|k: int| 0 <= k < i ==> is_hex_digit(#[trigger] bytes@[k]),
        decreases bytes@.len() - i,
    {
        let b: u8 = bytes[i];
        if !((48 <= b && b <= 57) || (65 <= b && b <= 70) || (97 <= b && b <= 102)) {
            assert(!is_hex_digit(bytes@[i as int]));
            return Err(Error::BadHash(reference.to_owned()));
        }
        i = i + 1;
    }
    let prefix = to_lower(reference);
    let ghost all = strs(names@);
    let mut count: usize = 0;
    let mut hit: Option<crate::Hash> = None;
    let mut k: usize = 0;
    assert(all.take(0) =~= Seq::empty());
    while k < names.len()
        invariant
            k <= names@.len(),
            count <= k,
            all == strs(names@),
            prefix@ == lowered(reference@),
            count == ids_with_prefix(all.take(k as int), prefix@).len(),
            count >= 1 ==> hit is Some && hash_of_text(
                ids_with_prefix(all.take(k as int), prefix@)[0],
            ) == Some(hit->0@),
        decreases names@.len() - k,
    {
        let full = &names[k];
        assert(all[k as int] == full@);
        assert(all.take(k + 1).drop_last() =~= all.take(k as int));
        let v = chars_of(full.as_str());
        if begins_with(&v, &prefix) && is_hash_name(full.as_str()) {
            match parse_hash(full.as_str()) {
                Err(e) => {
                    assert(is_hex(encode_utf8(full@))) by {
                        assert forall|j: int| 0 <= j < 64 implies is_hex_digit(
                            #[trigger] encode_utf8(full@)[j],
                        ) by {}
                    }
                    assert(false);
                    return Err(e);
                },
                Ok(h) => {
                    if count == 0 {
                        hit = Some(h);
                    }
                    count = count + 1;
                },
            }
        }
        k = k + 1;
    }
    assert(all.take(k as int) =~= all);
    if count == 0 {
        return Err(quoted("no snapshot matches '", reference));
    }
    match hit {
        Some(h) if count == 1 => Ok(h),
        _ => Err(quoted("ambiguous prefix '", reference)),
    }
}

/// A full snapshot id always resolves to itself, whatever is stored.
pub proof fn full_id_resolves(
    id: Seq<u8>,
    head: std::result::Result<Option<Seq<u8>>, Seq<char>>,
    names: Seq<Seq<char>>,
)
    requires
        id.len() == 32,
    ensures
        resolved(hex_text(id), head, names) == std::result::Result::<Seq<u8>, ErrorView>::Ok(id),
{
    hash_text_round_trip(id);
    reveal_strlit("head");
    reveal_strlit("HEAD");
    assert(hex_text(id).len() == 64);
}

/// What a reference resolves to by prefix is a stored id that begins with it.
pub proof fn prefix_resolves_to_stored(
    reference: Seq<char>,
    head: std::result::Result<Option<Seq<u8>>, Seq<char>>,
    names: Seq<Seq<char>>,
)
    requires
        reference != "head"@,
        reference != "HEAD"@,
        encode_utf8(reference).len() != 64,
        resolved(reference, head, names) is Ok,
    ensures
        exists|i: int|
            0 <= i < names.len() && lowered(reference).is_prefix_of(#[trigger] names[i])
                && hash_of_text(names[i]) == Some(resolved(reference, head, names)->Ok_0),
{
    let prefix = lowered(reference);
    let hits = ids_with_prefix(names, prefix);
    lemma_ids_with_prefix(names, prefix);
    let n = hits[0];
    assert(hits.contains(n));
    let i = choose|i: int| 0 <= i < names.len() && names[i] == n;
    assert(names[i] == n);
    assert(is_hex(encode_utf8(n))) by {
        assert forall|j: int| 0 <= j < 64 implies is_hex_digit(#[trigger] encode_utf8(n)[j]) by {}
    }
}

proof fn lemma_ids_with_prefix(names: Seq<Seq<char>>, prefix: Seq<char>)
    ensures
        forall|n: Seq<char>|
            #[trigger] ids_with_prefix(names, prefix).contains(n) <==> names.contains(n)
                && prefix.is_prefix_of(n) && hash_name(encode_utf8(n)),
    decreases names.len(),
{
    if names.len() > 0 {
        let rest = names.drop_last();
        let l = names.last();
        lemma_ids_with_prefix(rest, prefix);
        assert(names =~= rest.push(l));
        let a = ids_with_prefix(rest, prefix);
        assert forall|n: Seq<char>|
            #[trigger] ids_with_prefix(names, prefix).contains(n) <==> names.contains(n)
                && prefix.is_prefix_of(n) && hash_name(encode_utf8(n)) by {
            lemma_push_has(rest, l, n);
            lemma_push_has(a, l, n);
        }
    }
}

/// The paths of a list of files.
pub open spec fn paths(files: Seq<FileView>) -> Seq<Seq<char>> {
    files.map_values(|f: FileView| f.path)
}

/// The entry for a path: the last one that has it, where several do.
pub open spec fn entry_of(files: Seq<FileView>, p: Seq<char>) -> Option<FileView>
    decreases files.len(),
{
    if files.len() == 0 {
        None
    } else if files.last().path == p {
        Some(files.last())
    } else {
        entry_of(files.drop_last(), p)
    }
}

/// The entry for a path stands at the path's last position.
pub proof fn lemma_entry_at(files: Seq<FileView>, p: Seq<char>, i: int)
    requires
        is_last(paths(files), p, i),
    ensures
        entry_of(files, p) == Some(files[i]),
    decreases files.len(),
{
    if i < files.len() - 1 {
        let rest = files.drop_last();
        assert(paths(files)[files.len() - 1] != p);
        assert(is_last(paths(rest), p, i)) by {
            assert forall|j: int| i < j < rest.len() implies #[trigger] paths(rest)[j] != p by {
                assert(paths(files)[j] != p);
            }
        }
        lemma_entry_at(rest, p, i);
    }
}

/// There is an entry exactly for the paths that occur.
pub proof fn lemma_entry_some(files: Seq<FileView>, p: Seq<char>)
    ensures
        entry_of(files, p) is Some <==> paths(files).contains(p),
    decreases files.len(),
{
    if files.len() > 0 {
        let rest = files.drop_last();
        lemma_entry_some(rest, p);
        assert(paths(files) =~= paths(rest).push(files.last().path));
        lemma_push_has(paths(rest), files.last().path, p);
    }
}

/// The paths of a list of files.
pub fn paths_of(files: &Vec<FileEntry>) -> (r: Vec<String>)
    ensures
        strs(r@) == paths(file_views(files@)),
{
    let mut out: Vec<String> = Vec::new();
    let mut i: usize = 0;
    let ghost all = paths(file_views(files@));
    while i < files.len()
        invariant
            i <= files@.len(),
            all == paths(file_views(files@)),
            strs(out@) == all.take(i as int),
        decreases files@.len() - i,
    {
        let p = files[i].path.clone();
        proof {
            lemma_strs_push(out@, p);
            assert(all.take(i + 1) =~= all.take(i as int).push(p@));
        }
        out.push(p);
        i = i + 1;
    }
    assert(all.take(i as int) =~= all);
    out
}

/// Files that one manifest has and the other has not.
pub open spec fn only_in(a: Seq<FileView>, b: Seq<FileView>) -> spec_fn(Seq<char>) -> bool {
    |p: Seq<char>| entry_of(a, p) is Some && entry_of(b, p) is None
}

/// Files that both manifests have, with different content.
pub open spec fn differing(a: Seq<FileView>, b: Seq<FileView>) -> spec_fn(Seq<char>) -> bool {
    |p: Seq<char>|
        entry_of(a, p) is Some && entry_of(b, p) is Some && entry_of(a, p)->0.content != entry_of(
            b,
            p,
        )->0.content
}

/// Files in `a` that differ from `b`: (added, modified, deleted).
/// `a` and `b` are manifests; diff is computed b to a (a is "newer").
pub fn diff_manifests(a: &Manifest, b: &Manifest) -> (r: (Vec<String>, Vec<String>, Vec<String>))
    ensures
        lists(strs(r.0@), only_in(a@.files, b@.files)),
        lists(strs(r.1@), differing(a@.files, b@.files)),
        lists(strs(r.2@), only_in(b@.files, a@.files)),
{
    let ia = TextIndex::new(&paths_of(&a.files));
    let ib = TextIndex::new(&paths_of(&b.files));
    let ghost fa = a@.files;
    let ghost fb = b@.files;
    let ghost new = only_in(fa, fb);
    let ghost changed = differing(fa, fb);
    let ghost gone = only_in(fb, fa);
    let na: usize = ia.len();
    let nb: usize = ib.len();
    let mut added: Vec<String> = Vec::new();
    let mut modified: Vec<String> = Vec::new();
    let mut deleted: Vec<String> = Vec::new();
    let mut i: usize = 0;
    assert(ia.keys().take(0) =~= Seq::empty());
    assert(ib.keys().take(0) =~= Seq::empty());
    assert(strs(added@) =~= Seq::empty());
    assert(strs(modified@) =~= Seq::empty());
    assert(strs(deleted@) =~= Seq::empty());
    while i < na
        invariant
            i <= na,
            na == ia.keys().len(),
            ia.source() == paths(fa),
            ib.source() == paths(fb),
            fa == file_views(a.files@),
            fb == file_views(b.files@),
            new == only_in(fa, fb),
            changed == differing(fa, fb),
            strs(added@) == chosen(ia.keys().take(i as int), new),
            strs(modified@) == chosen(ia.keys().take(i as int), changed),
        decreases na - i,
    {
        let at: usize = ia.position(i);
        let f = &a.files[at];
        let ghost p = ia.keys()[i as int];
        proof {
            assert(paths(fa)[at as int] == f.path@);
            lemma_entry_at(fa, p, at as int);
            lemma_entry_some(fb, p);
            lemma_chosen_step(ia.keys(), i as int, new);
            lemma_chosen_step(ia.keys(), i as int, changed);
        }
        match ib.lookup(f.path.as_str()) {
            None => {
                let c = f.path.clone();
                proof {
                    lemma_strs_push(added@, c);
                }
                added.push(c);
            },
            Some(k) => {
                proof {
                    lemma_entry_at(fb, p, k as int);
                }
                if !hash_eq(&b.files[k].content, &f.content) {
                    let c = f.path.clone();
                    proof {
                        lemma_strs_push(modified@, c);
                    }
                    modified.push(c);
                }
            },
        }
        i = i + 1;
    }
    let mut j: usize = 0;
    while j < nb
        invariant
            j <= nb,
            nb == ib.keys().len(),
            ia.source() == paths(fa),
            ib.source() == paths(fb),
            fa == file_views(a.files@),
            fb == file_views(b.files@),
            gone == only_in(fb, fa),
            strs(deleted@) == chosen(ib.keys().take(j as int), gone),
        decreases nb - j,
    {
        let at: usize = ib.position(j);
        let f = &b.files[at];
        let ghost p = ib.keys()[j as int];
        proof {
            assert(paths(fb)[at as int] == f.path@);
            lemma_entry_at(fb, p, at as int);
            lemma_entry_some(fa, p);
            lemma_chosen_step(ib.keys(), j as int, gone);
        }
        if ia.lookup(f.path.as_str()).is_none() {
            let c = f.path.clone();
            proof {
                lemma_strs_push(deleted@, c);
            }
            deleted.push(c);
        } else {
            assert(paths(fa).contains(p));
        }
        j = j + 1;
    }
    proof {
        assert(ia.keys().take(i as int) =~= ia.keys());
        assert(ib.keys().take(j as int) =~= ib.keys());
        lemma_listed(fa, ia.keys(), new);
        lemma_listed(fa, ia.keys(), changed);
        lemma_listed(fb, ib.keys(), gone);
    }
    (added, modified, deleted)
}

/// What is chosen from a manifest's paths lists what a predicate holds of, if
/// it holds of those paths only.
pub proof fn lemma_listed(
    files: Seq<FileView>,
    keys: Seq<Seq<char>>,
    pred: spec_fn(Seq<char>) -> bool,
)
    requires
        ascending(keys),
        forall|p: Seq<char>| keys.contains(p) <==> paths(files).contains(p),
        forall|p: Seq<char>| #[trigger] pred(p) ==> entry_of(files, p) is Some,
    ensures
        lists(chosen(keys, pred), pred),
{
    lemma_chosen(keys, pred);
    let c = chosen(keys, pred);
    assert forall|p: Seq<char>| #[trigger] c.contains(p) <==> pred(p) by {
        lemma_entry_some(files, p);
        assert(keys.contains(p) <==> paths(files).contains(p));
    }
}

/// A manifest does not differ from itself.
pub proof fn diff_with_itself_is_empty(m: ManifestView, v: Seq<Seq<char>>)
    requires
        lists(v, only_in(m.files, m.files)) || lists(v, differing(m.files, m.files)),
    ensures
        v.len() == 0,
{
    if v.len() > 0 {
        assert(v.contains(v[0]));
    }
}

/// What is added one way is deleted the other way, and what is modified is
/// the same both ways.
pub proof fn diff_is_symmetric(
    a: ManifestView,
    b: ManifestView,
    added: Seq<Seq<char>>,
    deleted_back: Seq<Seq<char>>,
    modified: Seq<Seq<char>>,
    modified_back: Seq<Seq<char>>,
)
    requires
        lists(added, only_in(a.files, b.files)),
        lists(deleted_back, only_in(a.files, b.files)),
        lists(modified, differing(a.files, b.files)),
        lists(modified_back, differing(b.files, a.files)),
    ensures
        added == deleted_back,
        modified == modified_back,
{
    assert forall|p: Seq<char>| added.contains(p) <==> deleted_back.contains(p) by {}
    assert forall|p: Seq<char>| modified.contains(p) <==> modified_back.contains(p) by {
        assert(modified.contains(p) <==> differing(a.files, b.files)(p));
        assert(modified_back.contains(p) <==> differing(b.files, a.files)(p));
    }
    lemma_ascending_unique(added, deleted_back);
    lemma_ascending_unique(modified, modified_back);
}

/// Where the diff of two manifests is empty, they hold the same paths with
/// the same content.
pub proof fn empty_diff_means_same_content(a: ManifestView, b: ManifestView, p: Seq<char>)
    requires
        lists(Seq::empty(), only_in(a.files, b.files)),
        lists(Seq::empty(), differing(a.files, b.files)),
        lists(Seq::empty(), only_in(b.files, a.files)),
    ensures
        entry_of(a.files, p) is Some <==> entry_of(b.files, p) is Some,
        entry_of(a.files, p) is Some ==> entry_of(a.files, p)->0.content == entry_of(
            b.files,
            p,
        )->0.content,
{
    let none = Seq::<Seq<char>>::empty();
    assert(!none.contains(p));
    assert(!only_in(a.files, b.files)(p));
    assert(!differing(a.files, b.files)(p));
    assert(!only_in(b.files, a.files)(p));
}

/// The entry for a path is the last that has it; a path without one has none.
pub proof fn entry_is_the_last_of_its_path(files: Seq<FileView>, p: Seq<char>)
    ensures
        match entry_of(files, p) {
            Some(f) => exists|k: int|
                0 <= k < files.len() && (#[trigger] files[k]) == f && f.path == p && forall|l: int|
                    k < l < files.len() ==> (#[trigger] files[l]).path != p,
            None => forall|k: int| 0 <= k < files.len() ==> (#[trigger] files[k]).path != p,
        },
    decreases files.len(),
{
    if files.len() > 0 {
        if files.last().path == p {
            assert(files[files.len() - 1] == files.last());
        } else {
            let rest = files.drop_last();
            entry_is_the_last_of_its_path(rest, p);
            match entry_of(rest, p) {
                Some(f) => {
                    let k = choose|k: int|
                        0 <= k < rest.len() && (#[trigger] rest[k]) == f && f.path == p && forall|
                            l: int,
                        |
                            k < l < rest.len() ==> (#[trigger] rest[l]).path != p;
                    assert(files[k] == f);
                    assert forall|l: int| k < l < files.len() implies (#[trigger] files[l]).path
                        != p by {
                        if l < rest.len() {
                            assert(rest[l].path != p);
                        }
                    }
                },
                None => {
                    assert forall|k: int| 0 <= k < files.len() implies (#[trigger] files[k]).path
                        != p by {
                        if k < rest.len() {
                            assert(rest[k].path != p);
                        }
                    }
                },
            }
        }
    }
}

/// What a diff says: a path is added exactly where the newer manifest has an
/// entry for it and the older has none, deleted the other way round, and
/// modified exactly where both have one and the contents differ; no path is in
/// two of the lists, and each list is in order.
pub proof fn diff_lists_say(
    a: ManifestView,
    b: ManifestView,
    added: Seq<Seq<char>>,
    modified: Seq<Seq<char>>,
    deleted: Seq<Seq<char>>,
    p: Seq<char>,
)
    requires
        lists(added, only_in(a.files, b.files)),
        lists(modified, differing(a.files, b.files)),
        lists(deleted, only_in(b.files, a.files)),
    ensures
        added.contains(p) <==> (exists|i: int|
            0 <= i < a.files.len() && (#[trigger] a.files[i]).path == p) && !(exists|j: int|
            0 <= j < b.files.len() && (#[trigger] b.files[j]).path == p),
        deleted.contains(p) <==> (exists|j: int|
            0 <= j < b.files.len() && (#[trigger] b.files[j]).path == p) && !(exists|i: int|
            0 <= i < a.files.len() && (#[trigger] a.files[i]).path == p),
        modified.contains(p) <==> exists|i: int, j: int|
            0 <= i < a.files.len() && 0 <= j < b.files.len() && (#[trigger] a.files[i]).path == p
                && (#[trigger] b.files[j]).path == p && a.files[i].content != b.files[j].content
                && (forall|k: int| i < k < a.files.len() ==> (#[trigger] a.files[k]).path != p) && (
            forall|k: int| j < k < b.files.len() ==> (#[trigger] b.files[k]).path != p),
        !(added.contains(p) && modified.contains(p)),
        !(added.contains(p) && deleted.contains(p)),
        !(deleted.contains(p) && modified.contains(p)),
        added.no_duplicates() && modified.no_duplicates() && deleted.no_duplicates(),
        forall|i: int, j: int|
            0 <= i < j < added.len() ==> text_le(#[trigger] added[i], #[trigger] added[j]),
        forall|i: int, j: int|
            0 <= i < j < modified.len() ==> text_le(#[trigger] modified[i], #[trigger] modified[j]),
        forall|i: int, j: int|
            0 <= i < j < deleted.len() ==> text_le(#[trigger] deleted[i], #[trigger] deleted[j]),
{
    entry_is_the_last_of_its_path(a.files, p);
    entry_is_the_last_of_its_path(b.files, p);
    assert(added.contains(p) <==> only_in(a.files, b.files)(p));
    assert(modified.contains(p) <==> differing(a.files, b.files)(p));
    assert(deleted.contains(p) <==> only_in(b.files, a.files)(p));
    lemma_entry_some(a.files, p);
    lemma_entry_some(b.files, p);
    if entry_of(a.files, p) is Some && entry_of(b.files, p) is Some {
        let f = entry_of(a.files, p)->Some_0;
        let g = entry_of(b.files, p)->Some_0;
        let i = choose|k: int|
            0 <= k < a.files.len() && (#[trigger] a.files[k]) == f && f.path == p && forall|l: int|
                k < l < a.files.len() ==> (#[trigger] a.files[l]).path != p;
        let j = choose|k: int|
            0 <= k < b.files.len() && (#[trigger] b.files[k]) == g && g.path == p && forall|l: int|
                k < l < b.files.len() ==> (#[trigger] b.files[l]).path != p;
        assert(a.files[i].path == p && b.files[j].path == p);
        if exists|i: int, j: int|
            0 <= i < a.files.len() && 0 <= j < b.files.len() && (#[trigger] a.files[i]).path == p
                && (#[trigger] b.files[j]).path == p && a.files[i].content != b.files[j].content
                && (forall|k: int| i < k < a.files.len() ==> (#[trigger] a.files[k]).path != p) && (
            forall|k: int| j < k < b.files.len() ==> (#[trigger] b.files[k]).path != p) {
            let (x, y) = choose|x: int, y: int|
                0 <= x < a.files.len() && 0 <= y < b.files.len() && (#[trigger] a.files[x]).path == p
                    && (#[trigger] b.files[y]).path == p && a.files[x].content != b.files[y].content
                    && (forall|k: int| x < k < a.files.len() ==> (#[trigger] a.files[k]).path != p)
                    && (forall|k: int| y < k < b.files.len() ==> (#[trigger] b.files[k]).path != p);
            assert(x == i) by {
                if x < i {
                    assert(a.files[i].path != p);
                }
                if i < x {
                    assert(a.files[x].path != p);
                }
            }
            assert(y == j) by {
                if y < j {
                    assert(b.files[j].path != p);
                }
                if j < y {
                    assert(b.files[y].path != p);
                }
            }
        }
    }
}

/// How many chunks files have: each file's, together.
pub proof fn chunks_are_counted_by_file(files: Seq<FileView>)
    ensures
        chunk_total(files) == files.map_values(|f: FileView| f.chunks).flatten().len(),
    decreases files.len(),
{
    let all = files.map_values(|f: FileView| f.chunks);
    all.lemma_flatten_and_flatten_alt_are_equivalent();
    if files.len() > 0 {
        let rest = files.drop_last();
        let fewer = rest.map_values(|f: FileView| f.chunks);
        chunks_are_counted_by_file(rest);
        fewer.lemma_flatten_and_flatten_alt_are_equivalent();
        assert(all.drop_last() =~= fewer);
        assert(all.last() == files.last().chunks);
    }
}

proof fn lemma_fewer_chunks(files: Seq<FileView>, n: int)
    requires
        0 <= n <= files.len(),
    ensures
        chunk_total(files.take(n)) <= chunk_total(files),
    decreases files.len() - n,
{
    if n < files.len() {
        lemma_fewer_chunks(files, n + 1);
        assert(files.take(n + 1).drop_last() =~= files.take(n));
    } else {
        assert(files.take(n) =~= files);
    }
}

/// Which manifests may be used: those of version 2 or 3, of at most two
/// million files and eight million chunks, all of whose paths are safe and all
/// of whose files that are not empty have chunks.
pub proof fn usable_manifests(m: ManifestView)
    ensures
        valid_manifest(m) <==> {
            &&& m.version == 2 || m.version == 3
            &&& m.files.len() <= 2_000_000
            &&& m.files.map_values(|f: FileView| f.chunks).flatten().len() <= 8_000_000
            &&& forall|i: int| 0 <= i < m.files.len() ==> safe_rel((#[trigger] m.files[i]).path)
            &&& forall|i: int|
                0 <= i < m.files.len() && (#[trigger] m.files[i]).size > 0
                    ==> m.files[i].chunks.len() > 0
        },
{
    chunks_are_counted_by_file(m.files);
    let n = m.files.len() as int;
    if valid_manifest(m) {
        assert forall|i: int| 0 <= i < n implies safe_rel((#[trigger] m.files[i]).path) && (
        m.files[i].size > 0 ==> m.files[i].chunks.len() > 0) by {
            assert(file_fault(m.files, i) is None);
        }
        if n > 0 {
            assert(file_fault(m.files, n - 1) is None);
            assert(m.files.take(n) =~= m.files);
        }
    }
    if (m.version == 2 || m.version == 3) && m.files.len() <= 2_000_000 && chunk_total(m.files)
        <= 8_000_000 && (forall|i: int|
        0 <= i < n ==> safe_rel((#[trigger] m.files[i]).path)) && (forall|i: int|
        0 <= i < n && (#[trigger] m.files[i]).size > 0 ==> m.files[i].chunks.len() > 0) {
        assert forall|i: int| 0 <= i < n implies #[trigger] file_fault(m.files, i) is None by {
            lemma_fewer_chunks(m.files, i + 1);
            assert(safe_rel(m.files[i].path));
        }
    }
}

/// What loading gives: the manifest that the file holds, exactly where the
/// file was read, is within the size cap, parses, and may be used.
pub proof fn loading_gives_what_is_stored(id: Seq<u8>, file: ManifestFile, r: Result<Manifest>)
    requires
        loaded(id, file, r),
    ensures
        r is Ok <==> file is Data && (file->Data_0)@.len() <= 268_435_456 && file->Data_1 is Ok
            && valid_manifest((file->Data_1)->Ok_0@),
        r is Ok ==> r->Ok_0 == (file->Data_1)->Ok_0,
        file is Missing ==> r->Err_0@ == ErrorView::MissingObject(id),
{
}

/// What a beginning of an id stands for: the one stored id that begins with
/// it, whatever the case of its letters; where two stored names do, or none,
/// it stands for nothing.
pub proof fn unique_prefix_resolves(
    reference: Seq<char>,
    head: std::result::Result<Option<Seq<u8>>, Seq<char>>,
    names: Seq<Seq<char>>,
)
    requires
        reference != "head"@,
        reference != "HEAD"@,
        encode_utf8(reference).len() != 64,
        encode_utf8(reference).len() >= 4,
        forall|i: int|
            0 <= i < encode_utf8(reference).len() ==> is_hex_digit(
                #[trigger] encode_utf8(reference)[i],
            ),
    ensures
        forall|i: int|
            0 <= i < names.len() && begins_id(reference, #[trigger] names[i]) && (forall|j: int|
                0 <= j < names.len() && j != i ==> !begins_id(reference, #[trigger] names[j]))
                ==> resolved(reference, head, names) == std::result::Result::<
                Seq<u8>,
                ErrorView,
            >::Ok(hash_of_text(names[i])->Some_0),
        forall|i: int, j: int|
            0 <= i < j < names.len() && begins_id(reference, #[trigger] names[i]) && begins_id(
                reference,
                #[trigger] names[j],
            ) ==> resolved(reference, head, names) is Err,
        (forall|i: int| 0 <= i < names.len() ==> !begins_id(reference, #[trigger] names[i]))
            ==> resolved(reference, head, names) is Err,
{
    let p = lowered(reference);
    let hits = ids_with_prefix(names, p);
    assert(is_id_prefix(reference));
    lemma_ids_counted(names, reference);
    let good = names.filter(|n: Seq<char>| begins_id(reference, n));
    assert(hits == good);
    assert forall|i: int|
        0 <= i < names.len() && begins_id(reference, #[trigger] names[i]) && (forall|j: int|
            0 <= j < names.len() && j != i ==> !begins_id(
                reference,
                #[trigger] names[j],
            )) implies resolved(reference, head, names) == std::result::Result::<
        Seq<u8>,
        ErrorView,
    >::Ok(hash_of_text(names[i])->Some_0) by {
        lemma_one_hit(names, reference, i);
    }
    assert forall|i: int, j: int|
        0 <= i < j < names.len() && begins_id(reference, #[trigger] names[i]) && begins_id(
            reference,
            #[trigger] names[j],
        ) implies resolved(reference, head, names) is Err by {
        lemma_two_hits(names, reference, i, j);
    }
    if forall|i: int| 0 <= i < names.len() ==> !begins_id(reference, #[trigger] names[i]) {
        lemma_ids_with_prefix(names, p);
        if hits.len() > 0 {
            assert(hits.contains(hits[0]));
            let i = choose|i: int| 0 <= i < names.len() && names[i] == hits[0];
            assert(begins_id(reference, names[i]));
        }
    }
}

/// Whether a stored name is an id, 64 digits or small letters up to `f`, that
/// begins with the reference, capitals read as small letters.
pub open spec fn begins_id(reference: Seq<char>, name: Seq<char>) -> bool {
    &&& hash_name(encode_utf8(name))
    &&& reference.len() <= name.len()
    &&& forall|i: int|
        0 <= i < reference.len() ==> #[trigger] name[i] == if 65 <= reference[i] as u32 <= 90 {
            ((reference[i] as u32 + 32) as u8) as char
        } else {
            reference[i]
        }
}

proof fn lemma_begins_id(reference: Seq<char>, name: Seq<char>)
    ensures
        begins_id(reference, name) <==> lowered(reference).is_prefix_of(name) && hash_name(
            encode_utf8(name),
        ),
{
    let p = lowered(reference);
    if begins_id(reference, name) {
        assert(p =~= name.subrange(0, p.len() as int));
    }
    if p.is_prefix_of(name) {
        assert forall|i: int| 0 <= i < reference.len() implies #[trigger] name[i] == (if 65
            <= reference[i] as u32 <= 90 {
            ((reference[i] as u32 + 32) as u8) as char
        } else {
            reference[i]
        }) by {
            assert(p[i] == name.subrange(0, p.len() as int)[i]);
        }
    }
}

proof fn lemma_ids_counted(names: Seq<Seq<char>>, reference: Seq<char>)
    ensures
        ids_with_prefix(names, lowered(reference)) == names.filter(
            |n: Seq<char>| begins_id(reference, n),
        ),
    decreases names.len(),
{
    reveal(Seq::filter);
    if names.len() > 0 {
        lemma_ids_counted(names.drop_last(), reference);
        lemma_begins_id(reference, names.last());
    }
}

proof fn lemma_no_hits(names: Seq<Seq<char>>, reference: Seq<char>)
    requires
        forall|j: int| 0 <= j < names.len() ==> !begins_id(reference, #[trigger] names[j]),
    ensures
        names.filter(|n: Seq<char>| begins_id(reference, n)).len() == 0,
    decreases names.len(),
{
    reveal(Seq::filter);
    if names.len() > 0 {
        let rest = names.drop_last();
        assert forall|j: int| 0 <= j < rest.len() implies !begins_id(
            reference,
            #[trigger] rest[j],
        ) by {
            assert(!begins_id(reference, names[j]));
        }
        lemma_no_hits(rest, reference);
        assert(!begins_id(reference, names[names.len() - 1]));
    }
}

proof fn lemma_one_hit(names: Seq<Seq<char>>, reference: Seq<char>, i: int)
    requires
        0 <= i < names.len(),
        begins_id(reference, names[i]),
        forall|j: int|
            0 <= j < names.len() && j != i ==> !begins_id(reference, #[trigger] names[j]),
    ensures
        names.filter(|n: Seq<char>| begins_id(reference, n)) == seq![names[i]],
    decreases names.len(),
{
    reveal(Seq::filter);
    let rest = names.drop_last();
    if i == names.len() - 1 {
        assert forall|j: int| 0 <= j < rest.len() implies !begins_id(
            reference,
            #[trigger] rest[j],
        ) by {
            assert(!begins_id(reference, names[j]));
        }
        lemma_no_hits(rest, reference);
        assert(names.filter(|n: Seq<char>| begins_id(reference, n)) =~= seq![names[i]]);
    } else {
        assert forall|j: int| 0 <= j < rest.len() && j != i implies !begins_id(
            reference,
            #[trigger] rest[j],
        ) by {
            assert(!begins_id(reference, names[j]));
        }
        lemma_one_hit(rest, reference, i);
        assert(!begins_id(reference, names[names.len() - 1]));
    }
}

proof fn lemma_some_hit(names: Seq<Seq<char>>, reference: Seq<char>, i: int)
    requires
        0 <= i < names.len(),
        begins_id(reference, names[i]),
    ensures
        names.filter(|n: Seq<char>| begins_id(reference, n)).len() >= 1,
    decreases names.len(),
{
    reveal(Seq::filter);
    if i < names.len() - 1 {
        lemma_some_hit(names.drop_last(), reference, i);
    }
}

proof fn lemma_two_hits(names: Seq<Seq<char>>, reference: Seq<char>, i: int, j: int)
    requires
        0 <= i < j < names.len(),
        begins_id(reference, names[i]),
        begins_id(reference, names[j]),
    ensures
        names.filter(|n: Seq<char>| begins_id(reference, n)).len() >= 2,
    decreases names.len(),
{
    reveal(Seq::filter);
    if j < names.len() - 1 {
        lemma_two_hits(names.drop_last(), reference, i, j);
    } else {
        lemma_some_hit(names.drop_last(), reference, i);
    }
}

/// `head` and `HEAD` stand for the HEAD snapshot, where there is one.
pub proof fn head_resolves_to_head(h: Option<Seq<u8>>, names: Seq<Seq<char>>)
    ensures
        ({
            let head = std::result::Result::<Option<Seq<u8>>, Seq<char>>::Ok(h);
            &&& h is Some ==> resolved("head"@, head, names) == std::result::Result::<
                Seq<u8>,
                ErrorView,
            >::Ok(h->Some_0)
            &&& h is Some ==> resolved("HEAD"@, head, names) == std::result::Result::<
                Seq<u8>,
                ErrorView,
            >::Ok(h->Some_0)
            &&& h is None ==> resolved("head"@, head, names) is Err
        }),
{
}

/// A manifest and its entries are compared, checked and shown by all that they
/// hold.
pub proof fn views_keep_every_field(m: Manifest, f: FileEntry)
    ensures
        m@.version == m.version,
        m@.parent is Some == m.parent is Some,
        m.parent is Some ==> m@.parent->Some_0 == m.parent->Some_0@,
        m@.timestamp_secs == m.timestamp_secs,
        m@.message == m.message@,
        m@.files.len() == m.files@.len(),
        forall|i: int| 0 <= i < m.files@.len() ==> #[trigger] m@.files[i] == m.files@[i]@,
        m@.unstable.len() == m.unstable@.len(),
        forall|i: int| 0 <= i < m.unstable@.len() ==> #[trigger] m@.unstable[i] == m.unstable@[i]@,
        f@.path == f.path@,
        f@.mode == f.mode,
        f@.size == f.size,
        f@.mtime_secs == f.mtime_secs,
        f@.mtime_nanos == f.mtime_nanos,
        f@.content == f.content@,
        f@.chunks.len() == f.chunks@.len(),
        forall|i: int| 0 <= i < f.chunks@.len() ==> #[trigger] f@.chunks[i] == f.chunks@[i]@,
{
}

/// A reference that is neither `head`, nor 64 bytes, nor four or more
/// hexadecimal digits stands for nothing; one of 64 bytes stands for the hash
/// whose digits it is, and for nothing where it is none.
pub proof fn other_references_are_refused(
    reference: Seq<char>,
    head: std::result::Result<Option<Seq<u8>>, Seq<char>>,
    names: Seq<Seq<char>>,
)
    requires
        reference != "head"@,
        reference != "HEAD"@,
    ensures
        encode_utf8(reference).len() < 4 ==> resolved(reference, head, names) is Err,
        encode_utf8(reference).len() != 64 && (exists|i: int|
            0 <= i < encode_utf8(reference).len() && !is_hex_digit(
                #[trigger] encode_utf8(reference)[i],
            )) ==> resolved(reference, head, names) is Err,
        encode_utf8(reference).len() == 64 ==> (resolved(reference, head, names) is Ok
            <==> hash_of_text(reference) is Some) && (hash_of_text(reference) is Some ==> resolved(
            reference,
            head,
            names,
        )->Ok_0 == hash_of_text(reference)->Some_0),
{
}

} // verus!
