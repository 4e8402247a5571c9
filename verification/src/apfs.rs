//! APFS point-in-time snapshots (macOS).
//!
//! `respawn snap --apfs` freezes the whole volume at the APFS layer and
//! snapshots the frozen view: every file is captured at the same
//! instant, which serial reads cannot promise. The mechanism:
//!
//!   1. `tmutil snapshot`: mint an APFS local snapshot of the boot
//!      volume group (the *Data* volume on modern macOS, where all
//!      writable firmlinked content actually lives)
//!   2. `mount_apfs -s <name> <data-vol> <mnt>`: mount it read-only
//!   3. the snapshot reads through the mount instead of the live tree
//!   4. afterwards: unmount, then delete the cut (`tmutil
//!      deletelocalsnapshots` needs no root; diskutil is the fallback)
//!
//! This module reads what those commands print and decides by it.

use vstd::prelude::*;
use vstd::string::*;
use crate::anchor::inside;
use crate::anchor::lies_under;
use crate::anchor::text_opt;
use crate::error::Error;
use crate::error::ErrorView;
use crate::error::Result;
use crate::error::corrupt;
use crate::index::TextIndex;
use crate::paths::join;
use crate::paths::join_text;
use crate::revert::name_list;
use crate::revert::names_of;
use crate::text::begins_with;
use crate::text::chars_at;
use crate::text::chars_contain;
use crate::text::chars_of;
use crate::text::copy_between;
use crate::text::cut_once;
use crate::text::is_digit;
use crate::text::join_texts;
use crate::text::joined;
use crate::text::joined_pieces_are_cut_apart;
use crate::text::lemma_strs_push;
use crate::text::lines;
use crate::text::lines_of;
use crate::text::occurs;
use crate::text::split;
use crate::text::split_chars;
use crate::text::split_once;
use crate::text::stands_at;
use crate::text::strs;
use crate::text::text_between;
use crate::text::text_eq;
use crate::text::text_is_cut_at_the_first_mark;
use crate::text::text_of;
use crate::text::texts;
use crate::text::trim;
use crate::text::trim_chars;
use crate::text::words;
use crate::text::words_of;

verus! {

/// An APFS volume in the mount table: its device, where it is mounted, and
/// its attributes.
#[derive(Debug)]
pub struct Volume {
    pub device: String,
    pub mount: String,
    pub attrs: String,
}

/// A volume with its texts as characters.
pub struct VolumeView {
    pub device: Seq<char>,
    pub mount: Seq<char>,
    pub attrs: Seq<char>,
}

impl View for Volume {
    type V = VolumeView;

    open spec fn view(&self) -> VolumeView {
        VolumeView { device: self.device@, mount: self.mount@, attrs: self.attrs@ }
    }
}

/// The volumes of a list.
pub open spec fn volume_views(v: Seq<Volume>) -> Seq<VolumeView> {
    v.map_values(|x: Volume| x@)
}

/// The APFS volume that a line of the mount table describes:
/// `/dev/disk3s5 on /System/Volumes/Data (apfs, local, ...)`.
pub open spec fn volume_in(line: Seq<char>) -> Option<VolumeView> {
    match split_once(line, " on "@) {
        None => None,
        Some(a) => match split_once(a.1, " ("@) {
            None => None,
            Some(b) => if "apfs"@.is_prefix_of(b.1) {
                Some(VolumeView { device: a.0, mount: trim(b.0), attrs: b.1 })
            } else {
                None
            },
        },
    }
}

/// The APFS volumes that the lines of the mount table describe, in order.
pub open spec fn volumes_in(ls: Seq<Seq<char>>) -> Seq<VolumeView>
    decreases ls.len(),
{
    if ls.len() == 0 {
        Seq::empty()
    } else {
        match volume_in(ls.last()) {
            Some(v) => volumes_in(ls.drop_last()).push(v),
            None => volumes_in(ls.drop_last()),
        }
    }
}

/// The APFS volumes of the mount table that `mount` prints.
pub fn volumes(table: &str) -> (r: Vec<Volume>)
    ensures
        volume_views(r@) == volumes_in(lines(table@)),
{
    let ls = lines_of(table);
    let ghost all = texts(ls@);
    let mut out: Vec<Volume> = Vec::new();
    let mut i: usize = 0;
    assert(all.take(0) =~= Seq::empty());
    assert(volume_views(out@) =~= Seq::empty());
    while i < ls.len()
        invariant
            i <= ls@.len(),
            all == texts(ls@),
            volume_views(out@) == volumes_in(all.take(i as int)),
        decreases ls@.len() - i,
    {
        assert(all[i as int] == ls@[i as int]@);
        assert(all.take(i + 1).drop_last() =~= all.take(i as int));
        let ghost before = volume_views(out@);
        match volume_of_line(&ls[i]) {
            None => {},
            Some(v) => {
                out.push(v);
                assert(volume_views(out@) =~= before.push(v@));
            },
        }
        i = i + 1;
    }
    assert(all.take(i as int) =~= all);
    out
}

fn volume_of_line(line: &Vec<char>) -> (r: Option<Volume>)
    ensures
        match volume_in(line@) {
            Some(v) => r is Some && r->Some_0@ == v,
            None => r is None,
        },
{
    match cut_once(line, " on ") {
        None => None,
        Some((device, rest)) => match cut_once(&rest, " (") {
            None => None,
            Some((mount, attrs)) => {
                if !begins_with(&attrs, &chars_of("apfs")) {
                    return None;
                }
                Some(
                    Volume {
                        device: text_of(&device),
                        mount: text_of(&trim_chars(&mount)),
                        attrs: text_of(&attrs),
                    },
                )
            },
        },
    }
}

/// The volume that is flagged "root data", the first one where there are
/// several.
pub open spec fn data_at(vs: Seq<VolumeView>, i: int) -> bool {
    0 <= i < vs.len() && occurs(vs[i].attrs, "root data"@) && forall|j: int|
        0 <= j < i ==> !occurs((#[trigger] vs[j]).attrs, "root data"@)
}

/// The volume that is mounted at the root, the last one where there are
/// several.
pub open spec fn boot_at(vs: Seq<VolumeView>, i: int) -> bool {
    0 <= i < vs.len() && vs[i].mount == "/"@ && forall|j: int|
        i < j < vs.len() ==> (#[trigger] vs[j]).mount != "/"@
}

/// The volume `tmutil snapshot` actually cuts: the member of the
/// boot volume group flagged "root data" in the mount table (the
/// Data volume). On pre-split macOS with no Data volume, `/` itself.
/// st_dev cannot distinguish group members (firmlinks make them
/// one filesystem), so the flag, not the device id, identifies it.
/// Returns its device and where it is mounted.
pub fn data_volume(table: &str) -> (r: Result<(String, String)>)
    ensures
        ({
            let vs = volumes_in(lines(table@));
            match r {
                Ok(p) => exists|i: int|
                    0 <= i < vs.len() && p.0@ == vs[i].device && p.1@ == (#[trigger] vs[i]).mount
                        && (data_at(vs, i) || (boot_at(vs, i) && forall|j: int|
                        0 <= j < vs.len() ==> !occurs((#[trigger] vs[j]).attrs, "root data"@))),
                Err(e) => e@ == ErrorView::Corrupt("no APFS boot volume found"@) && forall|j: int|
                    0 <= j < vs.len() ==> !occurs((#[trigger] vs[j]).attrs, "root data"@)
                        && vs[j].mount != "/"@,
            }
        }),
{
    let all = volumes(table);
    let ghost vs = volume_views(all@);
    let mark = chars_of("root data");
    let mut boot: Option<usize> = None;
    let mut i: usize = 0;
    while i < all.len()
        invariant
            i <= all@.len(),
            vs == volume_views(all@),
            vs == volumes_in(lines(table@)),
            mark@ == "root data"@,
            forall|j: int| 0 <= j < i ==> !occurs((#[trigger] vs[j]).attrs, "root data"@),
            match boot {
                None => forall|j: int| 0 <= j < i ==> (#[trigger] vs[j]).mount != "/"@,
                Some(k) => k < i && vs[k as int].mount == "/"@ && forall|j: int|
                    k < j < i ==> (#[trigger] vs[j]).mount != "/"@,
            },
        decreases all@.len() - i,
    {
        assert(vs[i as int] == all@[i as int]@);
        let attrs = chars_of(all[i].attrs.as_str());
        if chars_contain(&attrs, &mark) {
            assert(data_at(vs, i as int));
            return Ok((all[i].device.clone(), all[i].mount.clone()));
        }
        if text_eq(all[i].mount.as_str(), "/") {
            boot = Some(i);
        }
        i = i + 1;
    }
    match boot {
        None => Err(corrupt("no APFS boot volume found")),
        Some(k) => {
            assert(vs[k as int] == all@[k as int]@);
            assert(boot_at(vs, k as int));
            Ok((all[k].device.clone(), all[k].mount.clone()))
        },
    }
}

/// Find the APFS volume that actually *backs* `path`. Prefix-matching the
/// mount table is wrong on modern macOS: the worktree reaches the Data
/// volume through firmlinks, so paths never carry the volume's own
/// mountpoint as a prefix. st_dev equality is the truth: a path and its
/// backing volume share a device id. `devs` holds the device id of each
/// volume's mountpoint, where it can be had; `want` is that of the path.
pub fn volume_of(path: &str, all: &Vec<Volume>, devs: &Vec<Option<u64>>, want: u64) -> (r: Result<
    (String, String),
>)
    requires
        devs@.len() == all@.len(),
    ensures
        match r {
            Ok(p) => exists|i: int|
                0 <= i < all@.len() && p.0@ == all@[i].device@ && p.1@ == all@[i].mount@
                    && #[trigger] devs@[i] == Some(want) && forall|j: int|
                    0 <= j < i ==> #[trigger] devs@[j] != Some(want),
            Err(e) => e@ == ErrorView::Corrupt("no APFS volume backs "@ + path@) && forall|j: int|
                0 <= j < devs@.len() ==> #[trigger] devs@[j] != Some(want),
        },
{
    let mut i: usize = 0;
    while i < all.len()
        invariant
            i <= all@.len(),
            devs@.len() == all@.len(),
            forall|j: int| 0 <= j < i ==> #[trigger] devs@[j] != Some(want),
        decreases all@.len() - i,
    {
        match devs[i] {
            Some(d) => {
                if d == want {
                    assert(devs@[i as int] == Some(want));
                    return Ok((all[i].device.clone(), all[i].mount.clone()));
                }
            },
            None => {},
        }
        i = i + 1;
    }
    Err(Error::Corrupt(String::from_str("no APFS volume backs ").concat(path)))
}

/// Whether a character can stand at the end of a snapshot name.
pub open spec fn name_char(c: char) -> bool {
    let n = c as u32;
    48 <= n <= 57 || 65 <= n <= 90 || 97 <= n <= 122 || c == '-' || c == '.'
}

/// `s` without what cannot stand at the end of a snapshot name.
pub open spec fn trim_name(s: Seq<char>) -> Seq<char>
    decreases s.len(),
{
    if s.len() > 0 && !name_char(s.last()) {
        trim_name(s.drop_last())
    } else {
        s
    }
}

fn trimmed_name(s: &Vec<char>) -> (r: Vec<char>)
    ensures
        r@ == trim_name(s@),
{
    let mut n: usize = s.len();
    assert(s@.take(n as int) =~= s@);
    while n > 0 && !is_name_char(s[n - 1])
        invariant
            n <= s@.len(),
            trim_name(s@) == trim_name(s@.take(n as int)),
        decreases n,
    {
        assert(s@.take(n as int).drop_last() =~= s@.take(n - 1));
        n = n - 1;
    }
    assert(s@.take(n as int) =~= s@.subrange(0, n as int));
    copy_between(s, 0, n)
}

fn is_name_char(c: char) -> (r: bool)
    ensures
        r == name_char(c),
{
    let n: u32 = c as u32;
    (48 <= n && n <= 57) || (65 <= n && n <= 90) || (97 <= n && n <= 122) || c == '-' || c == '.'
}

/// The prefix of the names of local snapshots.
pub open spec fn snap_prefix() -> Seq<char> {
    "com.apple.TimeMachine."@
}

/// Whether a word is a date as tmutil prints it: four groups of digits with
/// hyphens between them, the first of four digits.
pub open spec fn is_stamp(s: Seq<char>) -> bool {
    let ps = split(s, '-');
    &&& ps.len() == 4
    &&& ps[0].len() == 4
    &&& forall|i: int, k: int|
        0 <= i < 4 && 0 <= k < ps[i].len() ==> is_digit(#[trigger] ps[i][k])
}

fn all_digits(v: &Vec<char>) -> (r: bool)
    ensures
        r == forall|k: int| 0 <= k < v@.len() ==> is_digit(#[trigger] v@[k]),
{
    let mut i: usize = 0;
    while i < v.len()
        invariant
            i <= v@.len(),
            forall|k: int| 0 <= k < i ==> is_digit(#[trigger] v@[k]),
        decreases v@.len() - i,
    {
        let n: u32 = v[i] as u32;
        if !(48 <= n && n <= 57) {
            assert(!is_digit(v@[i as int]));
            return false;
        }
        i = i + 1;
    }
    true
}

fn looks_like_stamp(s: &Vec<char>) -> (r: bool)
    ensures
        r == is_stamp(s@),
{
    let ps = split_chars(s, '-');
    let ghost all = split(s@, '-');
    assert(texts(ps@).len() == ps@.len());
    if ps.len() != 4 {
        return false;
    }
    assert(all[0] == ps@[0]@ && all[1] == ps@[1]@ && all[2] == ps@[2]@ && all[3] == ps@[3]@);
    if ps[0].len() != 4 {
        return false;
    }
    let r: bool = all_digits(&ps[0]) && all_digits(&ps[1]) && all_digits(&ps[2]) && all_digits(
        &ps[3],
    );
    proof {
        if r {
            assert forall|i: int, k: int| 0 <= i < 4 && 0 <= k < all[i].len() implies is_digit(
                #[trigger] all[i][k],
            ) by {
                assert(i == 0 || i == 1 || i == 2 || i == 3);
            }
        } else if is_stamp(s@) {
            assert forall|k: int| 0 <= k < ps@[0]@.len() implies is_digit(
                #[trigger] ps@[0]@[k],
            ) by {
                assert(is_digit(all[0][k]));
            }
            assert forall|k: int| 0 <= k < ps@[1]@.len() implies is_digit(
                #[trigger] ps@[1]@[k],
            ) by {
                assert(is_digit(all[1][k]));
            }
            assert forall|k: int| 0 <= k < ps@[2]@.len() implies is_digit(
                #[trigger] ps@[2]@[k],
            ) by {
                assert(is_digit(all[2][k]));
            }
            assert forall|k: int| 0 <= k < ps@[3]@.len() implies is_digit(
                #[trigger] ps@[3]@[k],
            ) by {
                assert(is_digit(all[3][k]));
            }
        }
    }
    r
}

/// The snapshot name that a word gives, where it gives one: the name itself,
/// or a bare date under the prefix.
pub open spec fn name_in(word: Seq<char>) -> Option<Seq<char>> {
    let n = trim_name(word);
    if snap_prefix().is_prefix_of(n) && n.len() > snap_prefix().len() {
        Some(n)
    } else if is_stamp(n) {
        Some(snap_prefix() + n)
    } else {
        None
    }
}

/// Parse the snapshot name tmutil itself reports. Output shape:
/// `Created local snapshot with date: com.apple.TimeMachine.<stamp>`; older
/// tmutil prints only the date portion. Parsing the name (rather than
/// diffing the snapshot list before and after) avoids a race where a
/// *concurrent* Time Machine snapshot is mistaken for ours and later
/// mounted or deleted.
pub fn snapshot_name_from_output(out: &str) -> (r: Result<String>)
    ensures
        ({
            let ws = words(out@);
            match r {
                Ok(n) => exists|i: int|
                    0 <= i < ws.len() && name_in(#[trigger] ws[i]) == Some(n@) && forall|j: int|
                        0 <= j < i ==> name_in(#[trigger] ws[j]) is None,
                Err(e) => e@ == ErrorView::Corrupt(
                    "could not parse snapshot name from tmutil output: "@ + out@,
                ) && forall|j: int| 0 <= j < ws.len() ==> name_in(#[trigger] ws[j]) is None,
            }
        }),
{
    let ws = words_of(out);
    let ghost all = words(out@);
    let prefix = chars_of("com.apple.TimeMachine.");
    let mut i: usize = 0;
    assert(texts(ws@).len() == ws@.len());
    while i < ws.len()
        invariant
            i <= ws@.len(),
            all == texts(ws@),
            all == words(out@),
            prefix@ == snap_prefix(),
            forall|j: int| 0 <= j < i ==> name_in(#[trigger] all[j]) is None,
        decreases ws@.len() - i,
    {
        assert(all[i as int] == ws@[i as int]@);
        let name = trimmed_name(&ws[i]);
        if begins_with(&name, &prefix) && name.len() > prefix.len() {
            assert(name_in(all[i as int]) == Some(name@));
            return Ok(text_of(&name));
        }
        if looks_like_stamp(&name) {
            let full = String::from_str("com.apple.TimeMachine.").concat(text_of(&name).as_str());
            assert(name_in(all[i as int]) == Some(full@));
            return Ok(full);
        }
        assert(name_in(all[i as int]) is None);
        i = i + 1;
    }
    Err(
        Error::Corrupt(
            String::from_str("could not parse snapshot name from tmutil output: ").concat(out),
        ),
    )
}

/// The name that a line of a snapshot list gives: what follows `Name:`.
pub open spec fn listed_name(line: Seq<char>) -> Option<Seq<char>> {
    let t = trim(line);
    if "Name:"@.is_prefix_of(t) {
        Some(trim(t.skip("Name:"@.len() as int)))
    } else {
        None
    }
}

/// The names that a snapshot list gives.
pub open spec fn listed_names(ls: Seq<Seq<char>>) -> Seq<Seq<char>>
    decreases ls.len(),
{
    if ls.len() == 0 {
        Seq::empty()
    } else {
        match listed_name(ls.last()) {
            Some(n) => listed_names(ls.drop_last()).push(n),
            None => listed_names(ls.drop_last()),
        }
    }
}

fn snapshot_names(list: &str) -> (r: Vec<String>)
    ensures
        strs(r@) == listed_names(lines(list@)),
{
    let ls = lines_of(list);
    let ghost all = texts(ls@);
    let tag = chars_of("Name:");
    let mut out: Vec<String> = Vec::new();
    let mut i: usize = 0;
    assert(all.take(0) =~= Seq::empty());
    assert(strs(out@) =~= Seq::empty());
    while i < ls.len()
        invariant
            i <= ls@.len(),
            all == texts(ls@),
            tag@ == "Name:"@,
            strs(out@) == listed_names(all.take(i as int)),
        decreases ls@.len() - i,
    {
        assert(all[i as int] == ls@[i as int]@);
        assert(all.take(i + 1).drop_last() =~= all.take(i as int));
        let t = trim_chars(&ls[i]);
        if begins_with(&t, &tag) {
            let rest = copy_between(&t, tag.len(), t.len());
            assert(rest@ =~= t@.skip(tag@.len() as int));
            let n = text_of(&trim_chars(&rest));
            proof {
                lemma_strs_push(out@, n);
            }
            out.push(n);
        }
        i = i + 1;
    }
    assert(all.take(i as int) =~= all);
    out
}

/// The parsed candidate and reality can differ: tmutil prints a
/// bare date while APFS knows the snapshot as
/// `com.apple.TimeMachine.<date>.local`. Resolve against the volume's
/// own snapshot list, as diskutil prints it, rather than guessing a naming
/// convention.
pub fn resolve_snapshot_name(list: &str, device: &str, candidate: &str) -> (r: Result<String>)
    ensures
        ({
            let names = listed_names(lines(list@));
            if names.contains(candidate@) {
                r is Ok && r->Ok_0@ == candidate@
            } else if names.contains(candidate@ + ".local"@) {
                r is Ok && r->Ok_0@ == candidate@ + ".local"@
            } else {
                r is Err && r->Err_0@ == ErrorView::Corrupt(
                    "snapshot "@ + candidate@ + " not found on "@ + device@ + " (have: "@ + joined(
                        names,
                        ", "@,
                    ) + ")"@,
                )
            }
        }),
{
    let names = snapshot_names(list);
    let index = TextIndex::new(&names);
    let ghost all = strs(names@);
    let local = candidate.to_owned().concat(".local");
    match index.lookup(candidate) {
        Some(i) => {
            assert(all[i as int] == candidate@);
            return Ok(candidate.to_owned());
        },
        None => {},
    }
    match index.lookup(local.as_str()) {
        Some(i) => {
            assert(all[i as int] == local@);
            return Ok(local);
        },
        None => {},
    }
    let mut m: String = String::from_str("snapshot ");
    m.append(candidate);
    m.append(" not found on ");
    m.append(device);
    m.append(" (have: ");
    m.append(join_texts(&names, ", ").as_str());
    m.append(")");
    Err(Error::Corrupt(m))
}

/// The date by which tmutil can delete a snapshot, where its name has one:
/// what stands between the prefix and `.local`.
pub open spec fn date_in(name: Seq<char>) -> Option<Seq<char>> {
    if snap_prefix().is_prefix_of(name) {
        let d = name.skip(snap_prefix().len() as int);
        if ".local"@.is_suffix_of(d) {
            Some(d.take(d.len() - ".local"@.len()))
        } else {
            None
        }
    } else {
        None
    }
}

/// How to delete a local snapshot. `tmutil deletelocalsnapshots`
/// needs no root, so it is the first choice: cleanups often run
/// unprivileged. `None` for names the date-parse cannot express, which
/// `diskutil apfs deleteSnapshot` (root) has to delete.
pub fn delete_snapshot(name: &str) -> (r: Option<String>)
    ensures
        text_opt(r) == date_in(name@),
{
    let n = chars_of(name);
    let prefix = chars_of("com.apple.TimeMachine.");
    let suffix = chars_of(".local");
    if !begins_with(&n, &prefix) {
        return None;
    }
    let d = copy_between(&n, prefix.len(), n.len());
    assert(d@ =~= n@.skip(prefix@.len() as int));
    if suffix.len() > d.len() {
        return None;
    }
    let cut: usize = d.len() - suffix.len();
    assert(cut + suffix@.len() == d@.len());
    assert(stands_at(d@, suffix@, cut as int) == (suffix@ == d@.subrange(
        cut as int,
        d@.len() as int,
    )));
    if !chars_at(&d, &suffix, cut) {
        return None;
    }
    assert(d@.subrange(0, cut as int) =~= d@.take(cut as int));
    Some(text_between(&d, 0, cut))
}

/// The error for a frozen view that could not be mounted, from what the
/// attempt printed.
pub fn mount_failed(message: &str) -> (r: Error)
    ensures
        r@ == if occurs(message@, "Operation not permitted"@) {
            ErrorView::Corrupt(
                "the kernel refused to mount the boot volume's snapshot (macOS 26+ blocks this even for root) \u{2014} point-in-time capture is unavailable on this volume; a plain `snap` still gets per-file quiescence"@,
            )
        } else {
            ErrorView::Corrupt(
                "APFS snapshot created but mounting needs root (run with sudo or --ask-admin): "@
                    + message@,
            )
        },
{
    if chars_contain(&chars_of(message), &chars_of("Operation not permitted")) {
        // EPERM *as root* is not a privilege problem: a mounted Data
        // snapshot would bypass TCC on all user data, so the boundary is
        // enforced below userland.
        return corrupt(
            "the kernel refused to mount the boot volume's snapshot (macOS 26+ blocks this even for root) \u{2014} point-in-time capture is unavailable on this volume; a plain `snap` still gets per-file quiescence",
        );
    }
    Error::Corrupt(
        String::from_str(
            "APFS snapshot created but mounting needs root (run with sudo or --ask-admin): ",
        ).concat(message),
    )
}

/// The error for a worktree outside the boot volume group.
pub fn wrong_volume(root: &str, mount: &str) -> (r: Error)
    ensures
        r@ == ErrorView::Corrupt(
            "--apfs snapshots the boot volume group; "@ + root@ + " lives on "@ + mount@,
        ),
{
    let mut m: String = String::from_str("--apfs snapshots the boot volume group; ");
    m.append(root);
    m.append(" lives on ");
    m.append(mount);
    Error::Corrupt(m)
}

/// The path inside the frozen volume: what follows the volume's own
/// mountpoint, where the worktree was addressed through it; otherwise it
/// arrived via a firmlink, and the in-volume path is the synthetic path minus
/// its slash.
pub open spec fn frozen_text(canon: Seq<char>, mount: Seq<char>, mnt: Seq<char>) -> Seq<char> {
    let ns = names_of(canon);
    let k = if lies_under(canon, mount) {
        names_of(mount).len() as int
    } else {
        0
    };
    join_text(mnt, joined(ns.skip(k), "/"@))
}

/// Where the worktree lies inside the frozen view that is mounted at `mnt`.
pub fn frozen_path(canon: &str, mount: &str, mnt: &str) -> (r: String)
    ensures
        r@ == frozen_text(canon@, mount@, mnt@),
{
    let ns = name_list(canon);
    let ms = name_list(mount);
    let ghost all = names_of(canon@);
    assert(strs(ms@).len() == ms@.len());
    assert(strs(ns@).len() == ns@.len());
    let under: bool = inside(canon, mount);
    let k: usize = if under {
        ms.len()
    } else {
        0
    };
    let mut rest: Vec<String> = Vec::new();
    let mut i: usize = k;
    assert(strs(rest@) =~= all.subrange(k as int, k as int));
    while i < ns.len()
        invariant
            k <= i <= ns@.len(),
            all == strs(ns@),
            strs(rest@) == all.subrange(k as int, i as int),
        decreases ns@.len() - i,
    {
        let c = ns[i].clone();
        proof {
            assert(all[i as int] == c@);
            lemma_strs_push(rest@, c);
            assert(all.subrange(k as int, i + 1) =~= all.subrange(k as int, i as int).push(c@));
        }
        rest.push(c);
        i = i + 1;
    }
    assert(all.subrange(k as int, i as int) =~= all.skip(k as int));
    join(mnt, join_texts(&rest, "/").as_str())
}

/// A mounted APFS local snapshot.
pub struct ApfsSnap {
    /// Snapshot name as APFS knows it (com.apple.TimeMachine.<stamp>).
    name: String,
    /// Device node of the snapped volume (e.g. /dev/disk3s1s1).
    device: String,
    /// Temp mount point of the frozen view.
    mount: String,
    /// Path inside the mount that mirrors the worktree root: the
    /// directory that is read instead of the live tree.
    scan_root: String,
}

/// A frozen view as it was mounted.
#[derive(Debug)]
pub struct FrozenView {
    pub name: String,
    pub device: String,
    pub mount: String,
    /// The worktree's canonical path.
    pub worktree: String,
    /// Where the worktree lies inside the view, and whether a directory is
    /// there.
    pub scan_root: String,
    pub visible: bool,
}

impl ApfsSnap {
    pub closed spec fn parts(&self) -> (Seq<char>, Seq<char>, Seq<char>, Seq<char>) {
        (self.name@, self.device@, self.mount@, self.scan_root@)
    }

    /// The directory that is read instead of the live tree.
    pub fn scan_root(&self) -> (r: &str)
        ensures
            r@ == self.parts().3,
    {
        self.scan_root.as_str()
    }

    /// Where the frozen view is mounted.
    pub fn mount(&self) -> (r: &str)
        ensures
            r@ == self.parts().2,
    {
        self.mount.as_str()
    }

    /// The snapped volume's device.
    pub fn device(&self) -> (r: &str)
        ensures
            r@ == self.parts().1,
    {
        self.device.as_str()
    }

    /// The snapshot's name.
    pub fn name(&self) -> (r: &str)
        ensures
            r@ == self.parts().0,
    {
        self.name.as_str()
    }
}

/// Accept a mounted frozen view; `None` where the system has no such thing.
/// Never scan the wrong tree silently: a worktree that is not visible inside
/// the view is a loud error, not a wrong snapshot.
pub fn create(view: Option<FrozenView>) -> (r: Result<ApfsSnap>)
    ensures
        match view {
            None => r is Err && r->Err_0@ == ErrorView::Corrupt(
                "--apfs point-in-time snapshots are macOS-only"@,
            ),
            Some(v) => if v.visible {
                r is Ok && r->Ok_0.parts() == (v.name@, v.device@, v.mount@, v.scan_root@)
            } else {
                r is Err && r->Err_0@ == ErrorView::Corrupt(
                    "worktree "@ + v.worktree@ + " is not visible inside the frozen volume"@,
                )
            },
        },
{
    match view {
        None => Err(corrupt("--apfs point-in-time snapshots are macOS-only")),
        Some(v) => {
            if !v.visible {
                let mut m: String = String::from_str("worktree ");
                m.append(v.worktree.as_str());
                m.append(" is not visible inside the frozen volume");
                return Err(Error::Corrupt(m));
            }
            Ok(
                ApfsSnap {
                    name: v.name,
                    device: v.device,
                    mount: v.mount,
                    scan_root: v.scan_root,
                },
            )
        },
    }
}

/// The mount table is read line by line: a line describes a volume exactly
/// where it names a device, " on ", a place, " (", and attributes that begin
/// with apfs.
pub proof fn mount_lines_name_device_and_place(line: Seq<char>) -> (place: Seq<char>)
    ensures
        volume_in(line) is Some ==> ({
            let v = volume_in(line)->Some_0;
            &&& v.device + " on "@ + (place + " ("@ + v.attrs) == line
            &&& v.mount == trim(place)
            &&& "apfs"@.is_prefix_of(v.attrs)
            &&& forall|at: int|
                0 <= at < v.device.len() ==> !#[trigger] stands_at(line, " on "@, at)
        }),
        volume_in(line) is None ==> ({
            ||| !occurs(line, " on "@)
            ||| !occurs(split_once(line, " on "@)->Some_0.1, " ("@)
            ||| !"apfs"@.is_prefix_of(
                split_once(split_once(line, " on "@)->Some_0.1, " ("@)->Some_0.1,
            )
        }),
{
    text_is_cut_at_the_first_mark(line, " on "@);
    match split_once(line, " on "@) {
        None => {
            assert(!occurs(line, " on "@));
            Seq::empty()
        },
        Some(a) => {
            text_is_cut_at_the_first_mark(a.1, " ("@);
            match split_once(a.1, " ("@) {
                None => {
                    assert(!occurs(a.1, " ("@));
                    Seq::empty()
                },
                Some(b) => {
                    assert(a.0 + " on "@ + a.1 == line);
                    assert(b.0 + " ("@ + b.1 == a.1);
                    b.0
                },
            }
        },
    }
}

/// Every line of the mount table counts, in order.
pub proof fn every_mount_line_counts(ls: Seq<Seq<char>>)
    ensures
        volumes_in(ls) == ls.filter(|l: Seq<char>| volume_in(l) is Some).map_values(
            |l: Seq<char>| volume_in(l)->Some_0,
        ),
        listed_names(ls) == ls.filter(|l: Seq<char>| listed_name(l) is Some).map_values(
            |l: Seq<char>| listed_name(l)->Some_0,
        ),
    decreases ls.len(),
{
    reveal(Seq::filter);
    let f = |l: Seq<char>| volume_in(l)->Some_0;
    let g = |l: Seq<char>| listed_name(l)->Some_0;
    let vs = ls.filter(|l: Seq<char>| volume_in(l) is Some);
    let ns = ls.filter(|l: Seq<char>| listed_name(l) is Some);
    if ls.len() > 0 {
        let rest = ls.drop_last();
        every_mount_line_counts(rest);
        let us = rest.filter(|l: Seq<char>| volume_in(l) is Some);
        let ms = rest.filter(|l: Seq<char>| listed_name(l) is Some);
        if volume_in(ls.last()) is Some {
            assert(vs =~= us.push(ls.last()));
            assert(vs.map_values(f) =~= us.map_values(f).push(f(ls.last())));
        }
        if listed_name(ls.last()) is Some {
            assert(ns =~= ms.push(ls.last()));
            assert(ns.map_values(g) =~= ms.map_values(g).push(g(ls.last())));
        }
    } else {
        assert(volumes_in(ls) =~= vs.map_values(f));
        assert(listed_names(ls) =~= ns.map_values(g));
    }
}

/// The volume that is cut is the first that is flagged as the data volume; only
/// where none is, the one mounted at the root.
pub proof fn flagged_volume_is_cut(vs: Seq<VolumeView>, i: int)
    ensures
        data_at(vs, i) <==> 0 <= i < vs.len() && occurs(vs[i].attrs, "root data"@) && forall|j: int|
            0 <= j < i ==> !occurs((#[trigger] vs[j]).attrs, "root data"@),
        boot_at(vs, i) <==> 0 <= i < vs.len() && vs[i].mount == "/"@ && forall|j: int|
            i < j < vs.len() ==> (#[trigger] vs[j]).mount != "/"@,
{
}

/// A snapshot that tmutil names is deleted by its date: what stands between the
/// prefix and `.local`, and only where both are there.
pub proof fn snapshots_are_deleted_by_date(date: Seq<char>, name: Seq<char>)
    ensures
        date_in("com.apple.TimeMachine."@ + date + ".local"@) == Some(date),
        date_in(name) == Some(date) ==> name == "com.apple.TimeMachine."@ + date + ".local"@,
{
    let p = "com.apple.TimeMachine."@;
    let q = ".local"@;
    let n = p + date + q;
    assert(p =~= n.subrange(0, p.len() as int));
    let d = n.skip(p.len() as int);
    assert(d =~= date + q);
    assert(q =~= d.subrange(d.len() - q.len(), d.len() as int));
    assert(d.take(d.len() - q.len()) =~= date);
    if date_in(name) == Some(date) {
        let e = name.skip(p.len() as int);
        assert(name =~= name.subrange(0, p.len() as int) + e);
        assert(e =~= e.take(e.len() - q.len()) + e.subrange(e.len() - q.len(), e.len() as int));
        assert(name =~= p + date + q);
    }
}

/// The worktree lies inside the frozen view where it lay inside the volume:
/// what its path says behind the volume's mountpoint, or all of it where it was
/// reached another way.
pub proof fn frozen_tree_mirrors_the_live_one(canon: Seq<char>, mount: Seq<char>, mnt: Seq<char>)
    ensures
        lies_under(canon, mount) ==> frozen_text(canon, mount, mnt) == join_text(
            mnt,
            joined(names_of(canon).skip(names_of(mount).len() as int), "/"@),
        ),
        !lies_under(canon, mount) ==> frozen_text(canon, mount, mnt) == join_text(
            mnt,
            joined(names_of(canon), "/"@),
        ),
{
    assert(names_of(canon).skip(0) =~= names_of(canon));
}

/// The name that tmutil reports is taken as it is, without what cannot end a
/// name; a bare date stands for the name with the prefix before it.
pub proof fn reported_names_are_taken_whole(n: Seq<char>, word: Seq<char>)
    requires
        n.len() > 0,
        name_char(n.last()),
    ensures
        trim_name(n) == n,
        "com.apple.TimeMachine."@.is_prefix_of(n) && n.len() > "com.apple.TimeMachine."@.len()
            ==> name_in(n) == Some(n),
        !("com.apple.TimeMachine."@.is_prefix_of(n)) && is_stamp(n) ==> name_in(n) == Some(
            "com.apple.TimeMachine."@ + n,
        ),
        name_in(word) is Some ==> trim_name(word) == name_in(word)->Some_0 || is_stamp(
            trim_name(word),
        ),
        trim_name(word).is_prefix_of(word),
{
    lemma_trim_name(word);
}

proof fn lemma_trim_name(s: Seq<char>)
    ensures
        trim_name(s).is_prefix_of(s),
        forall|i: int| trim_name(s).len() <= i < s.len() ==> !name_char(#[trigger] s[i]),
        trim_name(s).len() > 0 ==> name_char(trim_name(s).last()),
    decreases s.len(),
{
    if s.len() > 0 && !name_char(s.last()) {
        let t = s.drop_last();
        lemma_trim_name(t);
        let n = trim_name(t).len() as int;
        assert(s.subrange(0, n) =~= t.subrange(0, n));
        assert forall|i: int| n <= i < s.len() implies !name_char(#[trigger] s[i]) by {
            if i < t.len() {
                assert(t[i] == s[i]);
            }
        }
    } else {
        assert(s =~= s.subrange(0, s.len() as int));
    }
}

/// A line of a snapshot list gives a name exactly where, without the
/// whitespace around it, it begins with `Name:`; the name is what follows,
/// without the whitespace around it.
pub proof fn list_lines_name_snapshots(line: Seq<char>, rest: Seq<char>)
    ensures
        trim(line) == "Name:"@ + rest ==> listed_name(line) == Some(trim(rest)),
        !("Name:"@.is_prefix_of(trim(line))) ==> listed_name(line) is None,
{
    if trim(line) == "Name:"@ + rest {
        let t = trim(line);
        assert("Name:"@ =~= t.subrange(0, "Name:"@.len() as int));
        assert(t.skip("Name:"@.len() as int) =~= rest);
    }
}

/// A date as tmutil prints it: four groups of digits with hyphens between them,
/// the first of four digits.
pub proof fn dates_are_four_groups_of_digits(gs: Seq<Seq<char>>)
    requires
        gs.len() > 0,
        forall|i: int| 0 <= i < gs.len() ==> !(#[trigger] gs[i]).contains('-'),
    ensures
        is_stamp(joined(gs, seq!['-'])) <==> gs.len() == 4 && gs[0].len() == 4 && forall|
            i: int,
            k: int,
        |
            0 <= i < 4 && 0 <= k < gs[i].len() ==> (48 <= (#[trigger] gs[i][k]) as u32 && gs[i][k] as u32
                <= 57),
{
    joined_pieces_are_cut_apart(gs, '-');
    let s = joined(gs, seq!['-']);
    assert(split(s, '-') == gs);
    if is_stamp(s) {
        assert forall|i: int, k: int| 0 <= i < 4 && 0 <= k < gs[i].len() implies (48
            <= (#[trigger] gs[i][k]) as u32 && gs[i][k] as u32 <= 57) by {
            assert(is_digit(split(s, '-')[i][k]));
        }
    }
    if gs.len() == 4 && gs[0].len() == 4 && forall|i: int, k: int|
        0 <= i < 4 && 0 <= k < gs[i].len() ==> (48 <= (#[trigger] gs[i][k]) as u32 && gs[i][k] as u32
            <= 57) {
        assert forall|i: int, k: int| 0 <= i < 4 && 0 <= k < gs[i].len() implies is_digit(
            #[trigger] gs[i][k],
        ) by {}
    }
}

/// What can end a snapshot's name: letters, digits, hyphens and dots.
pub proof fn names_end_in_letters_digits_hyphens_or_dots(c: char)
    ensures
        name_char(c) <==> (48 <= c as u32 && c as u32 <= 57) || (65 <= c as u32 && c as u32 <= 90)
            || (97 <= c as u32 && c as u32 <= 122) || c == '-' || c == '.',
{
}

/// A volume is told by its device, its place and its attributes.
pub proof fn volumes_keep_every_field(v: Volume)
    ensures
        v@.device == v.device@,
        v@.mount == v.mount@,
        v@.attrs == v.attrs@,
{
}

} // verus!
