//! Paths inside the worktree, as '/'-separated text.

use vstd::prelude::*;
use vstd::string::*;
use vstd::utf8::*;
use crate::error::Error;
use crate::error::ErrorView;
use crate::error::Result;
use crate::text::chars_of;
use crate::text::dec;
use crate::text::has_char;
use crate::text::is_digit;
use crate::text::joined;
use crate::text::joined_pieces_are_cut_apart;
use crate::text::lemma_dec_digits;
use crate::text::lemma_dec_injective;
use crate::text::push_dec;
use crate::text::split;
use crate::text::split_chars;
use crate::text::text_eq;
use crate::text::text_of;
use crate::text::texts;

verus! {

/// Directory inside the worktree that holds all fabric state.
pub const FABRIC_DIR: &'static str = ".respawn";

/// `name` under directory `dir`: an absolute name stands for itself, a
/// relative one follows `dir` behind one separator.
pub open spec fn join_text(dir: Seq<char>, name: Seq<char>) -> Seq<char> {
    if name.len() > 0 && name[0] == '/' {
        name
    } else if dir.len() == 0 || dir.last() == '/' {
        dir + name
    } else {
        dir + seq!['/'] + name
    }
}

/// A relative name stands at the end of the joined path, behind a separator
/// or at the very front.
pub proof fn lemma_join_parts(dir: Seq<char>, name: Seq<char>)
    requires
        name.len() > 0,
        name[0] != '/',
    ensures
        join_text(dir, name).len() >= name.len(),
        join_text(dir, name).subrange(
            join_text(dir, name).len() - name.len(),
            join_text(dir, name).len() as int,
        ) == name,
        dir.len() > 0 ==> join_text(dir, name).len() > name.len() && join_text(
            dir,
            name,
        )[join_text(dir, name).len() - name.len() - 1] == '/',
        dir.len() > 0 && dir.last() != '/' ==> join_text(dir, name).take(dir.len() as int) == dir
            && join_text(dir, name).len() == dir.len() + 1 + name.len(),
{
    let j = join_text(dir, name);
    assert(j.subrange(j.len() - name.len(), j.len() as int) =~= name);
    if dir.len() > 0 && dir.last() != '/' {
        assert(j.take(dir.len() as int) =~= dir);
    }
}

/// `name` under directory `dir`.
pub fn join(dir: &str, name: &str) -> (r: String)
    ensures
        r@ == join_text(dir@, name@),
{
    let d = chars_of(dir);
    let n = chars_of(name);
    if n.len() > 0 && n[0] == '/' {
        return name.to_owned();
    }
    let mut out: String = dir.to_owned();
    if !(d.len() == 0 || d[d.len() - 1] == '/') {
        out.push('/');
        assert(out@ =~= dir@ + seq!['/']);
    }
    out.append(name);
    out
}

/// The components of a path: the pieces between separators, empty ones too.
pub open spec fn components(p: Seq<char>) -> Seq<Seq<char>> {
    split(p, '/')
}

/// Whether a piece of a path names an entry of its directory, rather than
/// the directory itself or its parent.
pub open spec fn plain_component(c: Seq<char>) -> bool {
    c != seq!['.'] && c != seq!['.', '.']
}

/// A path that stays under whatever directory it is joined to: not empty, at
/// most 1024 bytes, relative, without NUL or backslash, and without `.` or
/// `..` among its components.
pub open spec fn safe_rel(p: Seq<char>) -> bool {
    &&& p.len() > 0
    &&& encode_utf8(p).len() <= 1024
    &&& !p.contains('\0')
    &&& !p.contains('\\')
    &&& p[0] != '/'
    &&& forall|i: int|
        0 <= i < components(p).len() ==> plain_component(#[trigger] components(p)[i])
}

/// Whether `v` is `.` or `..`.
fn is_dots(v: &Vec<char>) -> (r: bool)
    ensures
        r == !plain_component(v@),
{
    if v.len() == 1 && v[0] == '.' {
        assert(v@ =~= seq!['.']);
        return true;
    }
    if v.len() == 2 && v[0] == '.' && v[1] == '.' {
        assert(v@ =~= seq!['.', '.']);
        return true;
    }
    assert(v@ != seq!['.']) by {
        if v@ == seq!['.'] {
            assert(v@.len() == 1 && v@[0] == '.');
        }
    }
    assert(v@ != seq!['.', '.']) by {
        if v@ == seq!['.', '.'] {
            assert(v@.len() == 2 && v@[0] == '.' && v@[1] == '.');
        }
    }
    false
}

/// A relative path is only acceptable if every component is a plain
/// directory/file name: no root, no `..`, no `.`, no NUL or separators
/// that could escape the worktree or smuggle a host-absolute path.
pub fn sanitize_rel(p: &str) -> (r: Result<String>)
    ensures
        match r {
            Ok(q) => safe_rel(p@) && q@ == p@,
            Err(e) => !safe_rel(p@) && e@ == ErrorView::UnsafePath(p@),
        },
{
    let v = chars_of(p);
    let size: usize = p.as_bytes().len();
    if v.len() == 0 || size > 1024 || has_char(&v, '\0') || has_char(&v, '\\') || v[0] == '/' {
        return Err(Error::UnsafePath(p.to_owned()));
    }
    let parts = split_chars(&v, '/');
    let mut i: usize = 0;
    while i < parts.len()
        invariant
            i <= parts@.len(),
            texts(parts@) == components(p@),
            forall|k: int| 0 <= k < i ==> plain_component(#[trigger] components(p@)[k]),
        decreases parts@.len() - i,
    {
        assert(texts(parts@)[i as int] == parts@[i as int]@);
        if is_dots(&parts[i]) {
            return Err(Error::UnsafePath(p.to_owned()));
        }
        i = i + 1;
    }
    assert(texts(parts@).len() == parts@.len());
    Ok(p.to_owned())
}

/// Names that never enter a snapshot and are never touched by a revert: the
/// fabric itself, git's directory, and the Finder's droppings.
pub open spec fn reserved(c: Seq<char>) -> bool {
    c == FABRIC_DIR@ || c == ".git"@ || c == ".DS_Store"@
}

/// Whether some component of the path is reserved.
pub open spec fn is_excluded(p: Seq<char>) -> bool {
    exists|i: int| 0 <= i < components(p).len() && reserved(#[trigger] components(p)[i])
}

/// Should this path be excluded from snapshots?
pub fn excluded(rel: &str) -> (r: bool)
    ensures
        r == is_excluded(rel@),
{
    let v = chars_of(rel);
    let parts = split_chars(&v, '/');
    let mut i: usize = 0;
    while i < parts.len()
        invariant
            i <= parts@.len(),
            texts(parts@) == components(rel@),
            forall|k: int| 0 <= k < i ==> !reserved(#[trigger] components(rel@)[k]),
        decreases parts@.len() - i,
    {
        assert(texts(parts@)[i as int] == parts@[i as int]@);
        let part = text_of(&parts[i]);
        if text_eq(part.as_str(), FABRIC_DIR) || text_eq(part.as_str(), ".git") || text_eq(
            part.as_str(),
            ".DS_Store",
        ) {
            assert(reserved(components(rel@)[i as int]));
            return true;
        }
        i = i + 1;
    }
    assert(texts(parts@).len() == parts@.len());
    false
}

/// The name of the `n`th temporary file of process `pid`.
pub open spec fn tmp_name(pid: u32, n: u64, tag: Seq<char>) -> Seq<char> {
    ".tmp-"@ + dec(pid as nat) + "-"@ + dec(n as nat) + "-"@ + tag
}

/// Unique tmp filename inside `dir`: no two calls with different counters in
/// one process, and no two processes, share a name for the same tag.
pub fn tmp_path(dir: &str, tag: &str, pid: u32, n: u64) -> (r: String)
    ensures
        r@ == join_text(dir@, tmp_name(pid, n, tag@)),
{
    let mut name: String = String::from_str(".tmp-");
    push_dec(&mut name, pid as u64);
    name.append("-");
    push_dec(&mut name, n);
    name.append("-");
    name.append(tag);
    join(dir, name.as_str())
}

/// What a snapshot never holds and a revert never touches: a path is excluded
/// exactly where one of the names along it is the fabric's, git's or the
/// Finder's, whole: a name that merely begins like one of them is not.
pub proof fn exclusion_goes_by_whole_names(names: Seq<Seq<char>>)
    requires
        names.len() > 0,
        forall|i: int| 0 <= i < names.len() ==> !(#[trigger] names[i]).contains('/'),
    ensures
        is_excluded(joined(names, seq!['/'])) <==> exists|i: int|
            0 <= i < names.len() && (#[trigger] names[i] == ".respawn"@ || names[i] == ".git"@
                || names[i] == ".DS_Store"@),
{
    let p = joined(names, seq!['/']);
    joined_pieces_are_cut_apart(names, '/');
    if is_excluded(p) {
        let i = choose|i: int| 0 <= i < components(p).len() && reserved(#[trigger] components(p)[i]);
        assert(names[i] == ".respawn"@ || names[i] == ".git"@ || names[i] == ".DS_Store"@);
    }
    if exists|i: int|
        0 <= i < names.len() && (#[trigger] names[i] == ".respawn"@ || names[i] == ".git"@
            || names[i] == ".DS_Store"@) {
        let i = choose|i: int|
            0 <= i < names.len() && (#[trigger] names[i] == ".respawn"@ || names[i] == ".git"@
                || names[i] == ".DS_Store"@);
        assert(reserved(components(p)[i]));
    }
}

/// Which relative paths are accepted: those of names none of which is `.` or
/// `..`, the first not empty, without NUL and backslash, of at most 1024
/// bytes.
pub proof fn accepted_paths_are_plain_names(names: Seq<Seq<char>>)
    requires
        names.len() > 0,
        forall|i: int| 0 <= i < names.len() ==> !(#[trigger] names[i]).contains('/'),
    ensures
        safe_rel(joined(names, seq!['/'])) <==> {
            &&& names[0].len() > 0
            &&& encode_utf8(joined(names, seq!['/'])).len() <= 1024
            &&& !joined(names, seq!['/']).contains('\0')
            &&& !joined(names, seq!['/']).contains('\\')
            &&& forall|i: int|
                0 <= i < names.len() ==> (#[trigger] names[i]) != "."@ && names[i] != ".."@
        },
{
    let p = joined(names, seq!['/']);
    joined_pieces_are_cut_apart(names, '/');
    reveal_strlit(".");
    reveal_strlit("..");
    assert("."@ =~= seq!['.']);
    assert(".."@ =~= seq!['.', '.']);
    assert(components(p) == names);
    lemma_first_char(names, seq!['/']);
    if safe_rel(p) {
        assert forall|i: int| 0 <= i < names.len() implies (#[trigger] names[i]) != "."@ && names[i]
            != ".."@ by {
            assert(plain_component(components(p)[i]));
        }
        if names[0].len() == 0 {
            assert(p.len() == 0 || p[0] == '/');
        }
    }
    if names[0].len() > 0 {
        assert(p[0] == names[0][0]);
        assert(p[0] != '/') by {
            assert(names[0].contains(names[0][0]));
        }
    }
}

proof fn lemma_first_char(names: Seq<Seq<char>>, sep: Seq<char>)
    requires
        names.len() > 0,
    ensures
        names[0].len() > 0 ==> joined(names, sep).len() > 0 && joined(names, sep)[0] == names[0][0],
        names[0].len() == 0 && sep.len() > 0 && names.len() > 1 ==> joined(names, sep).len() > 0
            && joined(names, sep)[0] == sep[0],
        names.len() == 1 ==> joined(names, sep) == names[0],
    decreases names.len(),
{
    if names.len() > 1 {
        lemma_first_char(names.drop_last(), sep);
    }
}

/// A relative name under a directory stands behind it and one separator; an
/// absolute name stands for itself.
pub proof fn names_stand_under_their_directory(dir: Seq<char>, name: Seq<char>)
    ensures
        name.len() > 0 && name[0] == '/' ==> join_text(dir, name) == name,
        !(name.len() > 0 && name[0] == '/') && dir.len() > 0 && dir.last() != '/' ==> join_text(
            dir,
            name,
        ) == dir + seq!['/'] + name,
        !(name.len() > 0 && name[0] == '/') && (dir.len() == 0 || dir.last() == '/') ==> join_text(
            dir,
            name,
        ) == dir + name,
{
}

/// No two temporary files of one purpose share a name, whichever process made
/// them.
pub proof fn temporary_names_differ(p: u32, n: u64, q: u32, m: u64, tag: Seq<char>)
    requires
        tmp_name(p, n, tag) == tmp_name(q, m, tag),
    ensures
        p == q && n == m,
{
    reveal_strlit(".tmp-");
    reveal_strlit("-");
    assert("-"@ =~= seq!['-']);
    lemma_dec_digits(p as nat);
    lemma_dec_digits(q as nat);
    lemma_dec_digits(n as nat);
    lemma_dec_digits(m as nat);
    let a = dec(p as nat);
    let b = dec(q as nat);
    let s = tmp_name(p, n, tag);
    let t = s.subrange(5, s.len() - tag.len() - 1);
    assert('-' as u32 == 45);
    assert(t =~= a + seq!['-'] + dec(n as nat));
    assert(t =~= b + seq!['-'] + dec(m as nat));
    assert(a.len() == b.len()) by {
        if a.len() < b.len() {
            assert(t[a.len() as int] == '-');
            assert(is_digit(b[a.len() as int]));
        }
        if b.len() < a.len() {
            assert(t[b.len() as int] == '-');
            assert(is_digit(a[b.len() as int]));
        }
    }
    assert(a =~= t.take(a.len() as int));
    assert(b =~= t.take(b.len() as int));
    assert(dec(n as nat) =~= t.skip((a.len() + 1) as int));
    assert(dec(m as nat) =~= t.skip((b.len() + 1) as int));
    lemma_dec_injective(p as nat, q as nat);
    lemma_dec_injective(n as nat, m as nat);
}

} // verus!
