//! Content-addressed object store.
//!
//! Objects are zstd-compressed blobs keyed by BLAKE3 hash of their
//! *uncompressed* bytes, fanned out into `objects/<2-hex>/<62-hex>`.
//! Writes are atomic (tmp + rename). Reads verify the hash, so a
//! corrupted or tampered object is detected on access, not on audit.

use vstd::prelude::*;
use vstd::string::*;
use crate::digest::blake3_hash;
use crate::digest::hash_bytes;
use crate::digest::hash_eq;
use crate::digest::hash_hex;
use crate::digest::hash_name;
use crate::digest::hash_of_text;
use crate::digest::hash_text_injective;
use crate::digest::hash_text_round_trip;
use crate::digest::hasher_fed;
use crate::digest::hasher_finalize;
use crate::digest::hasher_new;
use crate::digest::hasher_update;
use crate::digest::hex_text;
use crate::digest::is_hash_name;
use crate::digest::is_hex;
use crate::digest::is_hex_digit;
use crate::digest::lemma_hex_chars;
use crate::digest::parse_hash;
use crate::digest::short;
use crate::error::Error;
use crate::error::ErrorView;
use crate::error::Result;
use crate::error::corrupt;
use crate::paths::FABRIC_DIR;
use crate::paths::join;
use crate::paths::join_text;
use crate::paths::lemma_join_parts;
use crate::text::chars_of;
use crate::text::is_white;
use crate::text::strs;
use crate::text::text_between;
use crate::text::trim;
use crate::text::trimmed;
use crate::text::trimming_cuts_whitespace_only;

verus! {

/// A file to write: make `dir`, write `data` to `tmp`, rename `tmp` to `path`.
#[derive(Debug)]
pub struct FileWrite {
    pub dir: String,
    pub tmp: String,
    pub path: String,
    pub data: Vec<u8>,
}

/// What reading a file gave.
#[derive(Debug)]
pub enum ReadOutcome {
    Data(Vec<u8>),
    Missing,
    Failed(std::io::Error),
}

/// A directory that may be the worktree root: its path, and whether a
/// fabric's object directory lies in it.
#[derive(Debug)]
pub struct Candidate {
    pub dir: String,
    pub has_objects: bool,
}

/// What `zstd::decode_all` makes of a byte string: the bytes that its frames
/// hold, or nothing where they do not decode.
pub uninterp spec fn zstd_content(data: Seq<u8>) -> Option<Seq<u8>>;

/// Whether `zstd::encode_all` encodes a byte string at a level.
pub uninterp spec fn zstd_encodes(data: Seq<u8>, level: int) -> bool;

/// `zstd::encode_all` on a byte slice: whether it succeeds depends on the
/// bytes and the level, as long as there is memory to encode in, and what it
/// gives decodes to the bytes it was given. Which of the encodings of those
/// bytes comes out is left unsaid.
#[verifier::external_body]
fn zstd_encode(data: &[u8], level: i32) -> (r: std::result::Result<Vec<u8>, std::io::Error>)
    ensures
        r is Ok <==> zstd_encodes(data@, level as int),
        r is Ok ==> zstd_content(r->Ok_0@) == Some(data@),
{
    zstd::encode_all(data, level)
}

/// `zstd::decode_all` on a byte slice: what comes out, and whether anything
/// does, depends on the bytes alone, as long as there is memory to decode
/// into.
#[verifier::external_body]
fn zstd_decode(data: &[u8]) -> (r: std::result::Result<Vec<u8>, std::io::Error>)
    ensures
        match r {
            Ok(v) => zstd_content(data@) == Some(v@),
            Err(_) => zstd_content(data@) is None,
        },
{
    zstd::decode_all(data)
}

/// The compression level of stored objects.
pub const ZSTD_LEVEL: i32 = 3;

/// The fan-out directory of a hash under `base`.
pub open spec fn fan_dir_text(base: Seq<char>, h: Seq<u8>) -> Seq<char> {
    join_text(base, hex_text(h).subrange(0, 2))
}

/// The path of a hash under `base`: two digits name the directory, the other
/// sixty-two the file.
pub open spec fn fan_path_text(base: Seq<char>, h: Seq<u8>) -> Seq<char> {
    join_text(fan_dir_text(base, h), hex_text(h).subrange(2, 64))
}

/// The directory and the path of `h` under `base`.
fn fan_path(base: &str, h: &crate::Hash) -> (r: (String, String))
    ensures
        r.0@ == fan_dir_text(base@, h@),
        r.1@ == fan_path_text(base@, h@),
{
    let hex = chars_of(hash_hex(h).as_str());
    let dir = join(base, text_between(&hex, 0, 2).as_str());
    let path = join(dir.as_str(), text_between(&hex, 2, 64).as_str());
    (dir, path)
}

/// The message for content that does not have the hash it is stored under.
pub open spec fn object_mismatch_text(h: Seq<u8>) -> Seq<char> {
    "object "@ + hex_text(h.subrange(0, 6)) + " failed content verification"@
}

fn object_mismatch(h: &crate::Hash) -> (r: Error)
    ensures
        r@ == ErrorView::Corrupt(object_mismatch_text(h@)),
{
    let mut m: String = String::from_str("object ");
    m.append(short(h).as_str());
    m.append(" failed content verification");
    Error::Corrupt(m)
}

/// What a fabric needs on disk before it can be used: directories to make,
/// and the empty file to create where it is not there yet.
#[derive(Debug)]
pub struct InitPlan {
    pub dirs: Vec<String>,
    pub head: Option<String>,
}

pub struct Store {
    root: String,
}

impl Store {
    /// The worktree root.
    pub closed spec fn root_text(&self) -> Seq<char> {
        self.root@
    }

    /// Where the fabric lies.
    pub open spec fn fabric_text(&self) -> Seq<char> {
        join_text(self.root_text(), FABRIC_DIR@)
    }

    /// Whether a path lies inside the fabric's directory.
    pub open spec fn holds(&self, path: Seq<char>) -> bool {
        (self.fabric_text() + seq!['/']).is_prefix_of(path)
    }

    /// Where the objects lie.
    pub open spec fn objects_text(&self) -> Seq<char> {
        join_text(self.fabric_text(), "objects"@)
    }

    /// Where the manifests lie.
    pub open spec fn manifests_text(&self) -> Seq<char> {
        join_text(self.fabric_text(), "manifests"@)
    }

    /// A new fabric inside `root`, and what has to be made for it: the object
    /// and manifest directories, and an empty HEAD where there is none.
    pub fn init(root: &str, head_exists: bool) -> (r: (Store, InitPlan))
        ensures
            r.0.root_text() == root@,
            strs(r.1.dirs@) == seq![r.0.objects_text(), r.0.manifests_text()],
            match r.1.head {
                None => head_exists,
                Some(path) => !head_exists && path@ == join_text(r.0.fabric_text(), "HEAD"@),
            },
    {
        let store = Store { root: root.to_owned() };
        let fabric = store.fabric_dir();
        let mut dirs: Vec<String> = Vec::new();
        dirs.push(join(fabric.as_str(), "objects"));
        dirs.push(join(fabric.as_str(), "manifests"));
        let head = if head_exists {
            None
        } else {
            Some(join(fabric.as_str(), "HEAD"))
        };
        assert(strs(dirs@) =~= seq![store.objects_text(), store.manifests_text()]);
        (store, InitPlan { dirs, head })
    }

    /// Open an existing fabric: one whose object directory is there.
    pub fn open(root: &str, has_objects: bool) -> (r: Result<Store>)
        ensures
            match r {
                Ok(s) => has_objects && s.root_text() == root@,
                Err(e) => !has_objects && e is NotInitialized,
            },
    {
        if !has_objects {
            return Err(Error::NotInitialized);
        }
        Ok(Store { root: root.to_owned() })
    }

    /// Find the worktree root: the first of the directories from the start
    /// upwards in which a fabric lies.
    pub fn find_root(candidates: &Vec<Candidate>) -> (r: Result<String>)
        ensures
            match r {
                Ok(d) => exists|i: int|
                    0 <= i < candidates@.len() && (#[trigger] candidates@[i]).has_objects
                        && candidates@[i].dir@ == d@ && forall|j: int|
                        0 <= j < i ==> !(#[trigger] candidates@[j]).has_objects,
                Err(e) => e is NotInitialized && forall|j: int|
                    0 <= j < candidates@.len() ==> !(#[trigger] candidates@[j]).has_objects,
            },
    {
        let mut i: usize = 0;
        while i < candidates.len()
            invariant
                i <= candidates@.len(),
                forall|j: int| 0 <= j < i ==> !(#[trigger] candidates@[j]).has_objects,
            decreases candidates@.len() - i,
        {
            if candidates[i].has_objects {
                return Ok(candidates[i].dir.clone());
            }
            i = i + 1;
        }
        Err(Error::NotInitialized)
    }

    /// Where the fabric lies.
    pub fn fabric_dir(&self) -> (r: String)
        ensures
            r@ == self.fabric_text(),
    {
        join(self.root.as_str(), FABRIC_DIR)
    }

    /// Where the object with hash `h` lies.
    pub fn object_path(&self, h: &crate::Hash) -> (r: String)
        ensures
            r@ == fan_path_text(self.objects_text(), h@),
    {
        fan_path(join(self.fabric_dir().as_str(), "objects").as_str(), h).1
    }

    /// Where the manifest with id `h` lies.
    pub fn manifest_path(&self, h: &crate::Hash) -> (r: String)
        ensures
            r@ == fan_path_text(self.manifests_text(), h@),
    {
        fan_path(join(self.fabric_dir().as_str(), "manifests").as_str(), h).1
    }

    /// The write that puts `content` where the object with hash `h` lies.
    pub open spec fn writes_object(&self, h: Seq<u8>, content: Seq<u8>, w: FileWrite) -> bool {
        &&& w.dir@ == fan_dir_text(self.objects_text(), h)
        &&& w.path@ == fan_path_text(self.objects_text(), h)
        &&& w.tmp@ == w.path@ + ".tmp"@
        &&& zstd_content(w.data@) == Some(content)
    }

    /// The write that puts `data` where the manifest with id `h` lies.
    pub open spec fn writes_manifest(&self, h: Seq<u8>, data: Seq<u8>, w: FileWrite) -> bool {
        &&& w.dir@ == fan_dir_text(self.manifests_text(), h)
        &&& w.path@ == fan_path_text(self.manifests_text(), h)
        &&& w.tmp@ == w.path@ + ".tmp"@
        &&& w.data@ == data
    }

    /// Store bytes, returning the content hash and the write that is needed.
    /// Idempotent: where the object is already there, nothing is written.
    /// The only error is one of the compressor.
    pub fn put_object(&self, data: &[u8], present: bool) -> (r: Result<
        (crate::Hash, Option<FileWrite>),
    >)
        ensures
            match r {
                Ok(p) => {
                    &&& p.0@ == blake3_hash(data@)
                    &&& present ==> p.1 is None
                    &&& !present ==> zstd_encodes(data@, ZSTD_LEVEL as int) && p.1 is Some
                        && self.writes_object(p.0@, data@, p.1->0)
                },
                Err(e) => !present && !zstd_encodes(data@, ZSTD_LEVEL as int) && e is Io,
            },
    {
        let h = hash_bytes(data);
        if present {
            return Ok((h, None));
        }
        match zstd_encode(data, ZSTD_LEVEL) {
            Err(e) => Err(Error::Io(e)),
            Ok(compressed) => {
                let base = join(self.fabric_dir().as_str(), "objects");
                let (dir, path) = fan_path(base.as_str(), &h);
                let tmp = path.clone().concat(".tmp");
                Ok((h, Some(FileWrite { dir, tmp, path, data: compressed })))
            },
        }
    }

    /// Store raw bytes pre-hashed by the caller (used by sync: the hash
    /// arrives over the wire, content is verified before accepting).
    pub fn put_object_as(&self, h: &crate::Hash, data: &[u8], present: bool) -> (r: Result<
        Option<FileWrite>,
    >)
        ensures
            match r {
                Ok(w) => {
                    &&& blake3_hash(data@) == h@
                    &&& present ==> w is None
                    &&& !present ==> w is Some && self.writes_object(h@, data@, w->0)
                },
                Err(e) => if blake3_hash(data@) != h@ {
                    e@ == ErrorView::Corrupt(object_mismatch_text(h@))
                } else {
                    !present && !zstd_encodes(data@, ZSTD_LEVEL as int) && e is Io
                },
            },
    {
        if !hash_eq(&hash_bytes(data), h) {
            return Err(object_mismatch(h));
        }
        match self.put_object(data, present) {
            Ok(p) => Ok(p.1),
            Err(e) => Err(e),
        }
    }

    /// What an object file holds: its content, decompressed and verified
    /// against the hash.
    pub fn get_object(&self, h: &crate::Hash, read: ReadOutcome) -> (r: Result<Vec<u8>>)
        ensures
            match object_read(h@, read) {
                ObjectRead::Content(data) => r is Ok && r->Ok_0@ == data,
                ObjectRead::Missing => r is Err && r->Err_0@ == ErrorView::MissingObject(h@),
                ObjectRead::Unreadable(e) => r is Err && r->Err_0@ == ErrorView::Io(e),
                ObjectRead::Undecodable => r is Err && r->Err_0 is Io,
                ObjectRead::Mismatch => r is Err && r->Err_0@ == ErrorView::Corrupt(
                    object_mismatch_text(h@),
                ),
            },
    {
        match read {
            ReadOutcome::Missing => Err(Error::MissingObject(*h)),
            ReadOutcome::Failed(e) => Err(Error::Io(e)),
            ReadOutcome::Data(c) => match zstd_decode(c.as_slice()) {
                Err(e) => Err(Error::Io(e)),
                Ok(data) => {
                    if !hash_eq(&hash_bytes(data.as_slice()), h) {
                        return Err(object_mismatch(h));
                    }
                    Ok(data)
                },
            },
        }
    }

    /// Store a serialized manifest; returns its snapshot id, and the write
    /// that is needed where the manifest is not there yet.
    pub fn put_manifest(&self, data: &[u8], present: bool) -> (r: (crate::Hash, Option<FileWrite>))
        ensures
            r.0@ == blake3_hash(data@),
            present ==> r.1 is None,
            !present ==> r.1 is Some && self.writes_manifest(r.0@, data@, r.1->0),
    {
        let h = hash_bytes(data);
        if present {
            return (h, None);
        }
        let base = join(self.fabric_dir().as_str(), "manifests");
        let (dir, path) = fan_path(base.as_str(), &h);
        let tmp = path.clone().concat(".tmp");
        (h, Some(FileWrite { dir, tmp, path, data: vstd::slice::slice_to_vec(data) }))
    }

    /// Store manifest bytes under a caller-supplied id (sync path).
    pub fn put_manifest_as(&self, h: &crate::Hash, data: &[u8], present: bool) -> (r: Result<
        Option<FileWrite>,
    >)
        ensures
            match r {
                Ok(w) => {
                    &&& blake3_hash(data@) == h@
                    &&& present ==> w is None
                    &&& !present ==> w is Some && self.writes_manifest(h@, data@, w->0)
                },
                Err(e) => blake3_hash(data@) != h@ && e@ == ErrorView::Corrupt(
                    "manifest hash mismatch"@,
                ),
            },
    {
        if !hash_eq(&hash_bytes(data), h) {
            return Err(corrupt("manifest hash mismatch"));
        }
        Ok(self.put_manifest(data, present).1)
    }

    /// What a manifest file holds.
    pub fn get_manifest_bytes(&self, h: &crate::Hash, read: ReadOutcome) -> (r: Result<Vec<u8>>)
        ensures
            match read {
                ReadOutcome::Missing => r is Err && r->Err_0@ == ErrorView::MissingObject(h@),
                ReadOutcome::Failed(e) => r is Err && r->Err_0@ == ErrorView::Io(e),
                ReadOutcome::Data(c) => r is Ok && r->Ok_0@ == c@,
            },
    {
        match read {
            ReadOutcome::Missing => Err(Error::MissingObject(*h)),
            ReadOutcome::Failed(e) => Err(Error::Io(e)),
            ReadOutcome::Data(c) => Ok(c),
        }
    }

    /// Current HEAD snapshot id, if any, from the text of the HEAD file; a
    /// HEAD that cannot be read counts as empty.
    pub fn head(text: Option<&str>) -> (r: Result<Option<crate::Hash>>)
        ensures
            match head_of_text(text) {
                Ok(h) => r is Ok && match h {
                    None => r->Ok_0 is None,
                    Some(h) => r->Ok_0 is Some && r->Ok_0->0@ == h,
                },
                Err(m) => r is Err && r->Err_0@ == ErrorView::BadHash(m),
            },
    {
        let s = match text {
            None => String::new(),
            Some(t) => trimmed(t),
        };
        if s.as_str().is_empty() {
            return Ok(None);
        }
        match parse_hash(s.as_str()) {
            Ok(h) => Ok(Some(h)),
            Err(e) => Err(e),
        }
    }

    /// Whether a write makes `h` the HEAD.
    pub open spec fn writes_head(&self, h: Option<Seq<u8>>, w: FileWrite) -> bool {
        &&& w.dir@ == self.fabric_text()
        &&& w.tmp@ == join_text(self.fabric_text(), "HEAD.tmp"@)
        &&& w.path@ == join_text(self.fabric_text(), "HEAD"@)
        &&& w.data@ == vstd::utf8::encode_utf8(head_file_text(h))
    }

    /// Swap HEAD, the O(1) part of "undo": the write that makes `h` the HEAD.
    pub fn set_head(&self, h: Option<&crate::Hash>) -> (r: FileWrite)
        ensures
            self.writes_head(
                match h {
                    Some(h) => Some(h@),
                    None => None,
                },
                r,
            ),
    {
        let content = match h {
            Some(h) => hash_hex(h),
            None => String::new(),
        };
        let dir = self.fabric_dir();
        FileWrite {
            tmp: join(dir.as_str(), "HEAD.tmp"),
            path: join(dir.as_str(), "HEAD"),
            dir,
            data: vstd::slice::slice_to_vec(content.as_str().as_bytes()),
        }
    }
}

/// What a read object file amounts to.
pub enum ObjectRead {
    /// Content that has the hash it is stored under.
    Content(Seq<u8>),
    Missing,
    Unreadable(std::io::Error),
    Undecodable,
    Mismatch,
}

/// What reading the file of the object with hash `h` amounts to.
pub open spec fn object_read(h: Seq<u8>, read: ReadOutcome) -> ObjectRead {
    match read {
        ReadOutcome::Missing => ObjectRead::Missing,
        ReadOutcome::Failed(e) => ObjectRead::Unreadable(e),
        ReadOutcome::Data(c) => match zstd_content(c@) {
            None => ObjectRead::Undecodable,
            Some(data) => if blake3_hash(data) == h {
                ObjectRead::Content(data)
            } else {
                ObjectRead::Mismatch
            },
        },
    }
}

/// The text of a HEAD file.
pub open spec fn head_file_text(h: Option<Seq<u8>>) -> Seq<char> {
    match h {
        Some(h) => hex_text(h),
        None => Seq::empty(),
    }
}

/// What the text of the HEAD file says: a snapshot, none where it is blank,
/// or, where it is neither, the text that is no hash.
pub open spec fn head_of_text(text: Option<&str>) -> std::result::Result<
    Option<Seq<u8>>,
    Seq<char>,
> {
    match text {
        None => Ok(None),
        Some(t) => {
            let s = trim(t@);
            if s.len() == 0 {
                Ok(None)
            } else {
                match hash_of_text(s) {
                    Some(h) => Ok(Some(h)),
                    None => Err(s),
                }
            }
        },
    }
}

/// Whether a file's name and content are those of a sound object.
pub open spec fn is_sound(o: (Seq<char>, ReadOutcome)) -> bool {
    hash_name(vstd::utf8::encode_utf8(o.0)) && object_read(
        hash_of_text(o.0)->Some_0,
        o.1,
    ) is Content
}

/// Whether a file has an object's name, and not its content.
pub open spec fn is_corrupt(o: (Seq<char>, ReadOutcome)) -> bool {
    hash_name(vstd::utf8::encode_utf8(o.0)) && !(object_read(
        hash_of_text(o.0)->Some_0,
        o.1,
    ) is Content)
}

/// How many of the files are sound objects.
pub open spec fn sound_objects(seen: Seq<(Seq<char>, ReadOutcome)>) -> nat
    decreases seen.len(),
{
    if seen.len() == 0 {
        0
    } else {
        sound_objects(seen.drop_last()) + if is_sound(seen.last()) {
            1nat
        } else {
            0nat
        }
    }
}

/// How many of the files are corrupt objects.
pub open spec fn corrupt_objects(seen: Seq<(Seq<char>, ReadOutcome)>) -> nat
    decreases seen.len(),
{
    if seen.len() == 0 {
        0
    } else {
        corrupt_objects(seen.drop_last()) + if is_corrupt(seen.last()) {
            1nat
        } else {
            0nat
        }
    }
}

/// A check of the objects of a store, one by one. Files that have no object's
/// name are foreign and count for nothing.
pub struct ObjectTally {
    checked: u64,
    corrupt: u64,
    seen: Ghost<Seq<(Seq<char>, ReadOutcome)>>,
}

impl ObjectTally {
    /// The files that were looked at: their names, and what reading them
    /// gave.
    pub closed spec fn seen(&self) -> Seq<(Seq<char>, ReadOutcome)> {
        self.seen@
    }

    #[verifier::type_invariant]
    spec fn counts(&self) -> bool {
        &&& self.checked == sound_objects(self.seen@)
        &&& self.corrupt == corrupt_objects(self.seen@)
        &&& self.checked + self.corrupt <= self.seen@.len()
    }

    /// A check that has looked at nothing yet.
    pub fn new() -> (r: ObjectTally)
        ensures
            r.seen() == Seq::<(Seq<char>, ReadOutcome)>::empty(),
    {
        ObjectTally { checked: 0, corrupt: 0, seen: Ghost(Seq::empty()) }
    }

    /// The object that a file should hold, by its name: `None` for a foreign
    /// file.
    pub fn object_of(name: &str) -> (r: Option<crate::Hash>)
        ensures
            match r {
                Some(h) => hash_name(vstd::utf8::encode_utf8(name@)) && hash_of_text(name@) == Some(
                    h@,
                ),
                None => !hash_name(vstd::utf8::encode_utf8(name@)),
            },
    {
        if !is_hash_name(name) {
            return None;
        }
        match parse_hash(name) {
            Ok(h) => Some(h),
            Err(_) => {
                assert(is_hex(vstd::utf8::encode_utf8(name@))) by {
                    assert forall|j: int| 0 <= j < 64 implies is_hex_digit(
                        #[trigger] vstd::utf8::encode_utf8(name@)[j],
                    ) by {}
                }
                None
            },
        }
    }

    /// Looks at a file: an object is sound if its content has the hash that
    /// its name says, and corrupt otherwise.
    pub fn add(self, store: &Store, name: &str, read: ReadOutcome) -> (r: ObjectTally)
        requires
            self.seen().len() < u64::MAX,
        ensures
            r.seen() == self.seen().push((name@, read)),
    {
        proof {
            use_type_invariant(&self);
            assert(self.seen@.push((name@, read)).drop_last() =~= self.seen@);
        }
        let ObjectTally { checked, corrupt, seen: Ghost(seen) } = self;
        let ghost more = seen.push((name@, read));
        match ObjectTally::object_of(name) {
            None => ObjectTally { checked, corrupt, seen: Ghost(more) },
            Some(h) => match store.get_object(&h, read) {
                Ok(_) => ObjectTally { checked: checked + 1, corrupt, seen: Ghost(more) },
                Err(_) => ObjectTally { checked, corrupt: corrupt + 1, seen: Ghost(more) },
            },
        }
    }

    /// How many objects are sound.
    pub fn verified(&self) -> (r: u64)
        ensures
            r == sound_objects(self.seen()),
    {
        proof {
            use_type_invariant(self);
        }
        self.checked
    }

    /// How many objects are corrupt.
    pub fn corrupt(&self) -> (r: u64)
        ensures
            r == corrupt_objects(self.seen()),
    {
        proof {
            use_type_invariant(self);
        }
        self.corrupt
    }
}

/// Hashes bytes as they come in, without holding them all in memory.
pub struct ContentHasher {
    hasher: blake3::Hasher,
    total: u64,
}

impl ContentHasher {
    /// The bytes taken in so far.
    pub closed spec fn fed(&self) -> Seq<u8> {
        hasher_fed(self.hasher)
    }

    #[verifier::type_invariant]
    spec fn counts(&self) -> bool {
        self.total == hasher_fed(self.hasher).len()
    }

    /// A hasher that has taken in nothing.
    pub fn new() -> (r: ContentHasher)
        ensures
            r.fed() == Seq::<u8>::empty(),
    {
        ContentHasher { hasher: hasher_new(), total: 0 }
    }

    /// Takes in `data` behind what came before. The count of bytes is a
    /// `u64`.
    pub fn update(self, data: &[u8]) -> (r: ContentHasher)
        requires
            self.fed().len() + data@.len() <= u64::MAX,
        ensures
            r.fed() == self.fed() + data@,
    {
        proof {
            use_type_invariant(&self);
        }
        let mut hasher = self.hasher;
        hasher_update(&mut hasher, data);
        ContentHasher { hasher, total: self.total + data.len() as u64 }
    }

    /// How many bytes were taken in.
    pub fn total(&self) -> (r: u64)
        ensures
            r == self.fed().len(),
    {
        proof {
            use_type_invariant(self);
        }
        self.total
    }

    /// The hash and the number of the bytes taken in.
    pub fn finish(&self) -> (r: (crate::Hash, u64))
        ensures
            r.0@ == blake3_hash(self.fed()),
            r.1 == self.fed().len(),
    {
        proof {
            use_type_invariant(self);
        }
        (hasher_finalize(&self.hasher), self.total)
    }
}

/// What was put can be got: reading back the file that `put_object` writes
/// gives the bytes that were stored.
pub proof fn stored_object_reads_back(store: Store, data: Seq<u8>, w: FileWrite)
    requires
        store.writes_object(blake3_hash(data), data, w),
    ensures
        object_read(blake3_hash(data), ReadOutcome::Data(w.data)) == ObjectRead::Content(data),
{
}

/// Tampering is detected on access: whatever stands in an object's file, what
/// is read from it has the object's hash.
pub proof fn read_content_has_its_hash(h: Seq<u8>, read: ReadOutcome)
    requires
        object_read(h, read) is Content,
    ensures
        blake3_hash(object_read(h, read)->Content_0) == h,
{
}

/// Different hashes are stored in different files.
pub proof fn object_paths_differ(store: Store, g: Seq<u8>, h: Seq<u8>)
    requires
        g.len() == 32,
        h.len() == 32,
        fan_path_text(store.objects_text(), g) == fan_path_text(store.objects_text(), h),
    ensures
        g == h,
{
    let base = store.objects_text();
    let a = hex_text(g);
    let b = hex_text(h);
    lemma_hex_chars(g);
    lemma_hex_chars(h);
    lemma_join_parts(base, a.subrange(0, 2));
    lemma_join_parts(base, b.subrange(0, 2));
    lemma_join_parts(fan_dir_text(base, g), a.subrange(2, 64));
    lemma_join_parts(fan_dir_text(base, h), b.subrange(2, 64));
    let x = fan_path_text(base, g);
    let y = fan_path_text(base, h);
    let n = x.len() as int;
    assert(x.subrange(n - 62, n) =~= a.subrange(2, 64));
    assert(y.subrange(n - 62, n) =~= b.subrange(2, 64));
    assert(x.subrange(n - 65, n - 63) =~= a.subrange(0, 2));
    assert(y.subrange(n - 65, n - 63) =~= b.subrange(0, 2));
    assert(a =~= a.subrange(0, 2) + a.subrange(2, 64));
    assert(b =~= b.subrange(0, 2) + b.subrange(2, 64));
    hash_text_injective(g, h);
}

/// What `set_head` writes, read back as text, says the HEAD that was set.
pub proof fn head_round_trip(store: Store, h: Option<Seq<u8>>, w: FileWrite, t: &str)
    requires
        h is Some ==> h->0.len() == 32,
        store.writes_head(h, w),
        vstd::utf8::encode_utf8(t@) == w.data@,
    ensures
        head_of_text(Some(t)) == std::result::Result::<Option<Seq<u8>>, Seq<char>>::Ok(h),
{
    vstd::utf8::encode_utf8_decode_utf8(t@);
    vstd::utf8::encode_utf8_decode_utf8(head_file_text(h));
    assert(t@ == head_file_text(h));
    match h {
        None => {
            assert(trim(t@).len() == 0);
        },
        Some(h) => {
            lemma_hex_chars(h);
            let s = hex_text(h);
            assert(s.len() == 64);
            assert(!is_white(s[0]));
            assert(!is_white(s.last()));
            assert(trim(s) == s);
            hash_text_round_trip(h);
        },
    }
}

/// A path under a directory begins with it.
proof fn lemma_join_begins(dir: Seq<char>, name: Seq<char>)
    requires
        name.len() == 0 || name[0] != '/',
    ensures
        dir.is_prefix_of(join_text(dir, name)),
{
    assert(join_text(dir, name).subrange(0, dir.len() as int) =~= dir);
}

proof fn lemma_begins_transitive(a: Seq<char>, b: Seq<char>, c: Seq<char>)
    requires
        a.is_prefix_of(b),
        b.is_prefix_of(c),
    ensures
        a.is_prefix_of(c),
{
    assert(c.subrange(0, a.len() as int) =~= b.subrange(0, a.len() as int));
}

proof fn lemma_fan_path_begins(base: Seq<char>, h: Seq<u8>)
    requires
        h.len() == 32,
    ensures
        base.is_prefix_of(fan_path_text(base, h)),
{
    lemma_hex_chars(h);
    let t = hex_text(h);
    assert(t.subrange(0, 2)[0] == t[0]);
    assert(t.subrange(2, 64)[0] == t[2]);
    lemma_join_begins(base, t.subrange(0, 2));
    lemma_join_begins(fan_dir_text(base, h), t.subrange(2, 64));
    lemma_begins_transitive(base, fan_dir_text(base, h), fan_path_text(base, h));
}

/// The fabric's directory has a name, so what lies in it lies behind a
/// separator.
proof fn lemma_in_fabric(store: Store, name: Seq<char>)
    requires
        name.len() == 0 || name[0] != '/',
    ensures
        store.holds(join_text(store.fabric_text(), name)),
{
    reveal_strlit(".respawn");
    let d = store.fabric_text();
    assert(d.last() == FABRIC_DIR@.last());
    assert(join_text(d, name) =~= d + seq!['/'] + name);
    assert((d + seq!['/'] + name).subrange(0, (d.len() + 1) as int) =~= d + seq!['/']);
}

/// What is stored lands inside the fabric's directory, whatever the bytes:
/// nothing that a peer sends reaches the worktree.
pub proof fn stored_files_stay_in_the_fabric(store: Store, h: Seq<u8>, data: Seq<u8>, w: FileWrite)
    requires
        h.len() == 32,
        store.writes_object(h, data, w) || store.writes_manifest(h, data, w),
    ensures
        store.holds(w.path@),
        store.holds(w.tmp@),
{
    reveal_strlit("objects");
    reveal_strlit("manifests");
    let base = if w.path@ == fan_path_text(store.objects_text(), h) {
        store.objects_text()
    } else {
        store.manifests_text()
    };
    lemma_in_fabric(store, "objects"@);
    lemma_in_fabric(store, "manifests"@);
    lemma_fan_path_begins(base, h);
    lemma_begins_transitive(store.fabric_text() + seq!['/'], base, w.path@);
    assert(w.tmp@.subrange(0, w.path@.len() as int) =~= w.path@);
    lemma_begins_transitive(store.fabric_text() + seq!['/'], w.path@, w.tmp@);
}

/// Swapping HEAD touches the fabric's directory only.
pub proof fn head_stays_in_the_fabric(store: Store, h: Option<Seq<u8>>, w: FileWrite)
    requires
        store.writes_head(h, w),
    ensures
        store.holds(w.path@),
        store.holds(w.tmp@),
{
    reveal_strlit("HEAD");
    reveal_strlit("HEAD.tmp");
    lemma_in_fabric(store, "HEAD"@);
    lemma_in_fabric(store, "HEAD.tmp"@);
}

/// When an object passes: exactly where its file was read, decodes, and its
/// content has the hash it is stored under.
pub proof fn object_passes_exactly(h: Seq<u8>, read: ReadOutcome, data: Seq<u8>)
    ensures
        object_read(h, read) == ObjectRead::Content(data) <==> read is Data && zstd_content(
            (read->Data_0)@,
        ) == Some(data) && blake3_hash(data) == h,
        read is Missing <==> object_read(h, read) is Missing,
        read is Failed <==> object_read(h, read) is Unreadable,
{
}

/// The objects that a check counts: sound are the files that have an object's
/// name, 64 digits or small letters up to `f`, and decode to content with that
/// hash; corrupt are those that have such a name and do not. No other file
/// counts, and none counts twice.
pub proof fn every_object_is_counted(seen: Seq<(Seq<char>, ReadOutcome)>)
    ensures
        sound_objects(seen) == seen.filter(
            |o: (Seq<char>, ReadOutcome)|
                hash_name(vstd::utf8::encode_utf8(o.0)) && o.1 is Data && zstd_content(
                    (o.1->Data_0)@,
                ) is Some && Some(blake3_hash(zstd_content((o.1->Data_0)@)->Some_0))
                    == hash_of_text(o.0),
        ).len(),
        corrupt_objects(seen) == seen.filter(
            |o: (Seq<char>, ReadOutcome)|
                hash_name(vstd::utf8::encode_utf8(o.0)) && !(o.1 is Data && zstd_content(
                    (o.1->Data_0)@,
                ) is Some && Some(blake3_hash(zstd_content((o.1->Data_0)@)->Some_0))
                    == hash_of_text(o.0)),
        ).len(),
    decreases seen.len(),
{
    reveal(Seq::filter);
    if seen.len() > 0 {
        every_object_is_counted(seen.drop_last());
        let o = seen.last();
        if hash_name(vstd::utf8::encode_utf8(o.0)) {
            assert(is_hex(vstd::utf8::encode_utf8(o.0))) by {
                assert forall|j: int| 0 <= j < 64 implies is_hex_digit(
                    #[trigger] vstd::utf8::encode_utf8(o.0)[j],
                ) by {}
            }
        }
    }
}

/// A check finds nothing corrupt exactly where every file with an object's name
/// holds that object.
pub proof fn clean_check_means_sound_objects(seen: Seq<(Seq<char>, ReadOutcome)>)
    ensures
        corrupt_objects(seen) == 0 <==> forall|i: int|
            0 <= i < seen.len() && hash_name(
                vstd::utf8::encode_utf8((#[trigger] seen[i]).0),
            ) ==> object_read(hash_of_text(seen[i].0)->Some_0, seen[i].1) is Content,
    decreases seen.len(),
{
    if seen.len() > 0 {
        let rest = seen.drop_last();
        clean_check_means_sound_objects(rest);
        if corrupt_objects(seen) == 0 {
            assert forall|i: int|
                0 <= i < seen.len() && hash_name(
                    vstd::utf8::encode_utf8((#[trigger] seen[i]).0),
                ) implies object_read(hash_of_text(seen[i].0)->Some_0, seen[i].1) is Content by {
                if i < rest.len() {
                    assert(rest[i] == seen[i]);
                }
            }
        }
        if forall|i: int|
            0 <= i < seen.len() && hash_name(
                vstd::utf8::encode_utf8((#[trigger] seen[i]).0),
            ) ==> object_read(hash_of_text(seen[i].0)->Some_0, seen[i].1) is Content {
            assert forall|i: int|
                0 <= i < rest.len() && hash_name(
                    vstd::utf8::encode_utf8((#[trigger] rest[i]).0),
                ) implies object_read(hash_of_text(rest[i].0)->Some_0, rest[i].1) is Content by {
                assert(seen[i] == rest[i]);
            }
            assert(seen[seen.len() - 1] == seen.last());
        }
    }
}

/// What a HEAD file says: with nothing but whitespace in it, or where there is
/// none, that there is no HEAD; else the hash whose digits it holds, with
/// whitespace around them, and nothing where it holds anything else.
pub proof fn head_says_a_hash_or_nothing(t: &str)
    ensures
        head_of_text(None) == std::result::Result::<Option<Seq<u8>>, Seq<char>>::Ok(None),
        (forall|i: int| 0 <= i < t@.len() ==> is_white(#[trigger] t@[i])) <==> head_of_text(Some(t))
            == std::result::Result::<Option<Seq<u8>>, Seq<char>>::Ok(None),
        head_of_text(Some(t)) is Err <==> trim(t@).len() > 0 && hash_of_text(trim(t@)) is None,
        head_of_text(Some(t)) is Ok && trim(t@).len() > 0 ==> head_of_text(Some(t))->Ok_0
            == hash_of_text(trim(t@)),
{
    let cut = trimming_cuts_whitespace_only(t@);
    assert(trim(t@).len() == cut.1 - cut.0);
    if trim(t@).len() == 0 {
        assert forall|i: int| 0 <= i < t@.len() implies is_white(#[trigger] t@[i]) by {
            if i >= cut.0 {
                assert(cut.1 <= i);
            }
        }
    }
}

/// Where an object lies: under `objects`, in the directory of its hash's first
/// two digits, under the other sixty-two.
pub proof fn objects_lie_by_their_digits(store: Store, h: Seq<u8>)
    requires
        h.len() == 32,
    ensures
        fan_path_text(store.objects_text(), h) == store.fabric_text() + "/objects/"@
            + hex_text(h).take(2) + "/"@ + hex_text(h).skip(2),
        fan_path_text(store.manifests_text(), h) == store.fabric_text() + "/manifests/"@
            + hex_text(h).take(2) + "/"@ + hex_text(h).skip(2),
{
    reveal_strlit("objects");
    reveal_strlit("manifests");
    reveal_strlit("/objects/");
    reveal_strlit("/manifests/");
    reveal_strlit("/");
    reveal_strlit(".respawn");
    lemma_hex_chars(h);
    let t = hex_text(h);
    let a = t.subrange(0, 2);
    let b = t.subrange(2, 64);
    assert(a[0] == t[0] && a.last() == t[1] && b[0] == t[2]);
    let d = store.fabric_text();
    assert(d.last() == FABRIC_DIR@.last());
    assert("/objects/"@ =~= seq!['/'] + "objects"@ + seq!['/']);
    assert("/manifests/"@ =~= seq!['/'] + "manifests"@ + seq!['/']);
    assert("/"@ =~= seq!['/']);
    assert(t.take(2) =~= a);
    assert(t.skip(2) =~= b);
    assert(store.objects_text() =~= d + seq!['/'] + "objects"@);
    assert(store.manifests_text() =~= d + seq!['/'] + "manifests"@);
    assert(fan_dir_text(store.objects_text(), h) =~= store.objects_text() + seq!['/'] + a);
    assert(fan_dir_text(store.manifests_text(), h) =~= store.manifests_text() + seq!['/'] + a);
    assert(fan_path_text(store.objects_text(), h) =~= store.fabric_text() + "/objects/"@ + t.take(2)
        + "/"@ + t.skip(2));
    assert(fan_path_text(store.manifests_text(), h) =~= store.fabric_text() + "/manifests/"@
        + t.take(2) + "/"@ + t.skip(2));
}

/// What storing an object writes: the object's content, compressed, to its
/// path, by way of a file beside it; a manifest's bytes as they are.
pub proof fn stores_write_to_the_hashs_path(
    store: Store,
    h: Seq<u8>,
    data: Seq<u8>,
    w: FileWrite,
)
    requires
        h.len() == 32,
    ensures
        store.writes_object(h, data, w) ==> w.path@ == store.fabric_text() + "/objects/"@
            + hex_text(h).take(2) + "/"@ + hex_text(h).skip(2) && w.tmp@ == w.path@ + ".tmp"@
            && zstd_content(w.data@) == Some(data),
        store.writes_manifest(h, data, w) ==> w.path@ == store.fabric_text() + "/manifests/"@
            + hex_text(h).take(2) + "/"@ + hex_text(h).skip(2) && w.tmp@ == w.path@ + ".tmp"@
            && w.data@ == data,
{
    objects_lie_by_their_digits(store, h);
}

} // verus!
