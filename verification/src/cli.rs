//! What the command line tells the operator.

use vstd::prelude::*;
use vstd::string::*;
use vstd::utf8::*;
use crate::anchor::VerifyOutcome;
use crate::anchor::text_opt;
use crate::audit::VerifyReport;
use crate::digest::hash_eq;
use crate::digest::hash_hex;
use crate::digest::hex_text;
use crate::digest::short;
use crate::drift::DriftReport;
use crate::error::Error;
use crate::error::ErrorView;
use crate::error::Result;
use crate::error::corrupt;
use crate::guard::GuardReport;
use crate::guard::push_signed;
use crate::guard::signed_dec;
use crate::revert::RevertReport;
use crate::snapshot::Manifest;
use crate::snapshot::ManifestView;
use crate::store::ObjectTally;
use crate::store::corrupt_objects;
use crate::store::sound_objects;
use crate::sync::PullReport;
use crate::text::begins_with;
use crate::text::chars_of;
use crate::text::dec;
use crate::text::join_texts;
use crate::text::joined;
use crate::text::lemma_strs_push;
use crate::text::push_dec;
use crate::text::strs;
use crate::text::text_eq;
use crate::text::trim;
use crate::text::trimmed;

verus! {

/// Whether an address is the host `h`, alone or with a port behind it.
pub open spec fn at_host(addr: Seq<char>, h: Seq<char>) -> bool {
    addr == h || (h + ":"@).is_prefix_of(addr)
}

/// Whether the host of an address is this machine. An IPv6 host that is
/// followed by a port stands in brackets: a bare one is the whole address.
pub open spec fn loopback(addr: Seq<char>) -> bool {
    at_host(addr, "127.0.0.1"@) || at_host(addr, "localhost"@) || at_host(addr, "[::1]"@) || addr
        == "::1"@
}

fn is_at_host(addr: &str, h: &str) -> (r: bool)
    ensures
        r == at_host(addr@, h@),
{
    let v = chars_of(addr);
    let p = chars_of(h.to_owned().concat(":").as_str());
    text_eq(addr, h) || begins_with(&v, &p)
}

/// Whether an address is one that only this machine can reach.
pub fn is_loopback(addr: &str) -> (r: bool)
    ensures
        r == loopback(addr@),
{
    is_at_host(addr, "127.0.0.1") || is_at_host(addr, "localhost") || is_at_host(addr, "[::1]")
        || text_eq(addr, "::1")
}

/// The error for a command that did not succeed.
pub fn command_failed(cmd: &str, args: &Vec<String>, stderr: &str) -> (r: Error)
    ensures
        r@ == ErrorView::Corrupt(
            cmd@ + " "@ + joined(strs(args@), " "@) + " failed: "@ + trim(stderr@),
        ),
{
    let mut m: String = cmd.to_owned();
    m.append(" ");
    m.append(join_texts(args, " ").as_str());
    m.append(" failed: ");
    m.append(trimmed(stderr).as_str());
    Error::Corrupt(m)
}

/// Each text between a mark and a tail.
pub open spec fn marked(v: Seq<Seq<char>>, mark: Seq<char>, tail: Seq<char>) -> Seq<Seq<char>> {
    v.map_values(|p: Seq<char>| mark + p + tail)
}

/// Appends each text between a mark and a tail.
fn push_marked(out: &mut Vec<String>, v: &Vec<String>, mark: &str, tail: &str)
    ensures
        strs(final(out)@) == strs(old(out)@) + marked(strs(v@), mark@, tail@),
{
    let ghost before = strs(out@);
    let ghost all = marked(strs(v@), mark@, tail@);
    let mut i: usize = 0;
    assert(before + all.take(0) =~= before);
    while i < v.len()
        invariant
            i <= v@.len(),
            before == strs(old(out)@),
            all == marked(strs(v@), mark@, tail@),
            strs(out@) == before + all.take(i as int),
        decreases v@.len() - i,
    {
        let mut s: String = mark.to_owned();
        s.append(v[i].as_str());
        s.append(tail);
        proof {
            assert(all[i as int] == s@);
            lemma_strs_push(out@, s);
            assert(before + all.take(i + 1) =~= (before + all.take(i as int)).push(s@));
        }
        out.push(s);
        i = i + 1;
    }
    assert(all.take(i as int) =~= all);
}

/// The line that counts changes.
pub open spec fn counts_text(added: nat, modified: nat, deleted: nat) -> Seq<char> {
    dec(added) + " added, "@ + dec(modified) + " modified, "@ + dec(deleted) + " deleted"@
}

fn counts_line(added: usize, modified: usize, deleted: usize) -> (r: String)
    ensures
        r@ == counts_text(added as nat, modified as nat, deleted as nat),
{
    let mut s: String = String::new();
    push_dec(&mut s, added as u64);
    s.append(" added, ");
    push_dec(&mut s, modified as u64);
    s.append(" modified, ");
    push_dec(&mut s, deleted as u64);
    s.append(" deleted");
    assert(s@ =~= counts_text(added as nat, modified as nat, deleted as nat));
    s
}

/// The lines of a diff.
pub open spec fn diff_text(
    added: Seq<Seq<char>>,
    modified: Seq<Seq<char>>,
    deleted: Seq<Seq<char>>,
) -> Seq<Seq<char>> {
    marked(added, "  + "@, Seq::empty()) + marked(modified, "  ~ "@, Seq::empty()) + marked(
        deleted,
        "  - "@,
        Seq::empty(),
    )
}

fn push_changes(
    out: &mut Vec<String>,
    added: &Vec<String>,
    modified: &Vec<String>,
    deleted: &Vec<String>,
)
    requires
        old(out)@.len() == 0,
    ensures
        strs(final(out)@) == diff_text(strs(added@), strs(modified@), strs(deleted@)),
{
    proof {
        reveal_strlit("");
        assert(""@ =~= Seq::empty());
        assert(strs(out@) =~= Seq::empty());
    }
    push_marked(out, added, "  + ", "");
    push_marked(out, modified, "  ~ ", "");
    push_marked(out, deleted, "  - ", "");
    assert(strs(out@) =~= diff_text(strs(added@), strs(modified@), strs(deleted@)));
}

/// What is said of two snapshots: each change on a line, then the counts.
pub fn diff_lines(added: &Vec<String>, modified: &Vec<String>, deleted: &Vec<String>) -> (r: Vec<
    String,
>)
    ensures
        strs(r@) == diff_text(strs(added@), strs(modified@), strs(deleted@)).push(
            counts_text(added@.len(), modified@.len(), deleted@.len()),
        ),
{
    let mut out: Vec<String> = Vec::new();
    push_changes(&mut out, added, modified, deleted);
    let c = counts_line(added.len(), modified.len(), deleted.len());
    proof {
        lemma_strs_push(out@, c);
    }
    out.push(c);
    out
}

/// What is said of drift: that there is none, or each change on a line, then
/// the counts.
pub fn drift_lines(d: &DriftReport) -> (r: Vec<String>)
    ensures
        if d.is_clean() {
            strs(r@) == seq!["clean \u{2014} worktree matches snapshot"@]
        } else {
            strs(r@) == (diff_text(strs(d.added@), strs(d.modified@), strs(d.deleted@)) + marked(
                strs(d.touched@),
                "  . "@,
                " (metadata only)"@,
            )).push(counts_text(d.added@.len(), d.modified@.len(), d.deleted@.len()))
        },
{
    let mut out: Vec<String> = Vec::new();
    if d.clean() {
        out.push(String::from_str("clean \u{2014} worktree matches snapshot"));
        assert(strs(out@) =~= seq!["clean \u{2014} worktree matches snapshot"@]);
        return out;
    }
    push_changes(&mut out, &d.added, &d.modified, &d.deleted);
    push_marked(&mut out, &d.touched, "  . ", " (metadata only)");
    let c = counts_line(d.added.len(), d.modified.len(), d.deleted.len());
    proof {
        lemma_strs_push(out@, c);
    }
    out.push(c);
    out
}

/// The line of the log for a snapshot, given the text of its time.
pub open spec fn log_text(
    id: Seq<u8>,
    time: Seq<char>,
    m: ManifestView,
    is_head: bool,
) -> Seq<char> {
    hex_text(id.subrange(0, 6)) + "  "@ + time + (if m.message.len() == 0 {
        Seq::<char>::empty()
    } else {
        "  "@ + m.message
    }) + "  ("@ + dec(m.files.len()) + " files)"@ + if is_head {
        " <-- HEAD"@
    } else {
        Seq::<char>::empty()
    }
}

/// The line of the log for a snapshot: short id, time, message, number of
/// files, and a mark for HEAD.
pub fn log_line(id: &crate::Hash, time: &str, m: &Manifest, head: Option<&crate::Hash>) -> (r:
    String)
    ensures
        r@ == log_text(id@, time@, m@, head is Some && head->Some_0@ == id@),
{
    let is_head: bool = match head {
        Some(h) => hash_eq(h, id),
        None => false,
    };
    let mut s: String = short(id);
    s.append("  ");
    s.append(time);
    if !m.message.as_str().is_empty() {
        s.append("  ");
        s.append(m.message.as_str());
    }
    s.append("  (");
    push_dec(&mut s, m.files.len() as u64);
    s.append(" files)");
    if is_head {
        s.append(" <-- HEAD");
    }
    assert(s@ =~= log_text(id@, time@, m@, is_head));
    s
}

/// What the audit log says of a revert.
pub fn revert_detail(id: &crate::Hash, r: &RevertReport) -> (t: String)
    ensures
        t@ == hex_text(id@.subrange(0, 6)) + " restored "@ + dec(r.restored@.len()) + " removed "@
            + dec(r.removed@.len()),
{
    let mut s: String = short(id);
    s.append(" restored ");
    push_dec(&mut s, r.restored.len() as u64);
    s.append(" removed ");
    push_dec(&mut s, r.removed.len() as u64);
    s
}

/// What the operator is told of a revert.
pub fn revert_line(id: &crate::Hash, r: &RevertReport) -> (t: String)
    ensures
        t@ == "reverted to "@ + hex_text(id@.subrange(0, 6)) + ": "@ + dec(r.restored@.len())
            + " restored, "@ + dec(r.removed@.len()) + " removed, "@ + dec(r.skipped_extra@.len())
            + " extra kept"@,
{
    let mut s: String = String::from_str("reverted to ");
    s.append(short(id).as_str());
    s.append(": ");
    push_dec(&mut s, r.restored.len() as u64);
    s.append(" restored, ");
    push_dec(&mut s, r.removed.len() as u64);
    s.append(" removed, ");
    push_dec(&mut s, r.skipped_extra.len() as u64);
    s.append(" extra kept");
    s
}

/// What the operator is told of the audit chain.
pub fn audit_line(v: &VerifyReport) -> (t: String)
    ensures
        t@ == if v.valid {
            "audit chain valid ("@ + dec(v.entries as nat) + " entries)"@
        } else {
            "audit chain BROKEN at seq "@ + match v.first_bad {
                Some(n) => "Some("@ + dec(n as nat) + ")"@,
                None => "None"@,
            }
        },
{
    if v.valid {
        let mut s: String = String::from_str("audit chain valid (");
        push_dec(&mut s, v.entries);
        s.append(" entries)");
        return s;
    }
    let mut s: String = String::from_str("audit chain BROKEN at seq ");
    match v.first_bad {
        Some(n) => {
            s.append("Some(");
            push_dec(&mut s, n);
            s.append(")");
            assert(s@ =~= "audit chain BROKEN at seq "@ + ("Some("@ + dec(n as nat) + ")"@));
        },
        None => {
            s.append("None");
        },
    }
    s
}

/// What a check of the objects found.
pub fn objects_line(objects: &ObjectTally) -> (r: String)
    ensures
        r@ == "objects: "@ + dec(sound_objects(objects.seen())) + " verified, "@ + dec(
            corrupt_objects(objects.seen()),
        ) + " corrupt"@,
{
    let mut s: String = String::from_str("objects: ");
    push_dec(&mut s, objects.verified());
    s.append(" verified, ");
    push_dec(&mut s, objects.corrupt());
    s.append(" corrupt");
    s
}

/// The verdict of a verification: corrupt objects count first, where objects
/// were checked, then the audit chain.
pub fn verify_verdict(objects: Option<&ObjectTally>, v: &VerifyReport) -> (r: Result<()>)
    ensures
        if objects is Some && corrupt_objects(objects->Some_0.seen()) > 0 {
            r is Err && r->Err_0@ == ErrorView::Corrupt("object verification failed"@)
        } else if !v.valid {
            r is Err && r->Err_0@ == ErrorView::Corrupt("audit chain invalid"@)
        } else {
            r is Ok
        },
{
    match objects {
        Some(t) => {
            if t.corrupt() > 0 {
                return Err(corrupt("object verification failed"));
            }
        },
        None => {},
    }
    if !v.valid {
        return Err(corrupt("audit chain invalid"));
    }
    Ok(())
}

/// What the operator is warned of before serving: a plaintext listener that
/// others can reach, or that a reachable one is secured.
pub fn serve_warning(addr: &str, secured: bool) -> (r: Option<String>)
    ensures
        match r {
            None => loopback(addr@),
            Some(t) => !loopback(addr@) && t@ == if secured {
                "serving secured on "@ + addr@ + " (Noise NNpsk0)"@
            } else {
                "warning: plaintext serve on "@ + addr@
                    + " \u{2014} anyone who can reach it can read snapshotted content (use --psk for encrypted sync)"@
            },
        },
{
    if is_loopback(addr) {
        return None;
    }
    let mut s: String = String::new();
    if secured {
        s.append("serving secured on ");
        s.append(addr);
        s.append(" (Noise NNpsk0)");
        assert(s@ =~= "serving secured on "@ + addr@ + " (Noise NNpsk0)"@);
    } else {
        s.append("warning: plaintext serve on ");
        s.append(addr);
        s.append(
            " \u{2014} anyone who can reach it can read snapshotted content (use --psk for encrypted sync)",
        );
        assert(s@ =~= "warning: plaintext serve on "@ + addr@
            + " \u{2014} anyone who can reach it can read snapshotted content (use --psk for encrypted sync)"@);
    }
    Some(s)
}

/// What the operator is told while serving.
pub fn serve_line(addr: &str, secured: bool, announce: bool) -> (r: String)
    ensures
        r@ == "serving on "@ + addr@ + (if secured {
            " (secured)"@
        } else {
            Seq::<char>::empty()
        }) + if announce {
            " (announcing)"@
        } else {
            Seq::<char>::empty()
        },
{
    let mut s: String = String::from_str("serving on ");
    s.append(addr);
    if secured {
        s.append(" (secured)");
    }
    if announce {
        s.append(" (announcing)");
    }
    assert(s@ =~= "serving on "@ + addr@ + (if secured {
        " (secured)"@
    } else {
        Seq::<char>::empty()
    }) + if announce {
        " (announcing)"@
    } else {
        Seq::<char>::empty()
    });
    s
}

/// What the audit log says of a pull that found a HEAD.
pub fn pull_detail(addr: &str, head: &crate::Hash, p: &PullReport) -> (r: String)
    ensures
        r@ == addr@ + " head "@ + hex_text(head@.subrange(0, 6)) + " objects "@ + dec(
            p.objects_fetched as nat,
        ),
{
    let mut s: String = addr.to_owned();
    s.append(" head ");
    s.append(short(head).as_str());
    s.append(" objects ");
    push_dec(&mut s, p.objects_fetched);
    s
}

/// What the operator is told of a pull that found a HEAD.
pub fn pull_line(addr: &str, p: &PullReport) -> (r: String)
    ensures
        r@ == "pulled "@ + dec(p.manifests_fetched as nat) + " manifests, "@ + dec(
            p.objects_fetched as nat,
        ) + " objects ("@ + dec(p.objects_skipped as nat) + " skipped) from "@ + addr@,
{
    let mut s: String = String::from_str("pulled ");
    push_dec(&mut s, p.manifests_fetched);
    s.append(" manifests, ");
    push_dec(&mut s, p.objects_fetched);
    s.append(" objects (");
    push_dec(&mut s, p.objects_skipped);
    s.append(" skipped) from ");
    s.append(addr);
    s
}

/// What the operator is told of how a guarded command ended.
pub fn exit_line(r: &GuardReport) -> (t: String)
    ensures
        t@ == match (r.exit_code, r.signal) {
            (Some(c), _) => "command exited "@ + signed_dec(c as int),
            (None, Some(sig)) => "command killed by signal "@ + signed_dec(sig as int),
            (None, None) => "command status unknown"@,
        },
{
    match (r.exit_code, r.signal) {
        (Some(c), _) => {
            let mut s: String = String::from_str("command exited ");
            push_signed(&mut s, c);
            s
        },
        (None, Some(sig)) => {
            let mut s: String = String::from_str("command killed by signal ");
            push_signed(&mut s, sig);
            s
        },
        (None, None) => String::from_str("command status unknown"),
    }
}

/// What the operator is told about undoing a guarded command: that it was
/// undone, or how to undo it where it left drift.
pub fn undo_line(r: &GuardReport) -> (t: Option<String>)
    ensures
        match t {
            None => !r.reverted && r.drift.is_clean(),
            Some(s) => if r.reverted {
                s@ == "worktree restored to guard snapshot"@
            } else {
                !r.drift.is_clean() && s@ == "undo with: respawn revert "@ + hex_text(r.snapshot@)
                    + " --force"@
            },
        },
{
    if r.reverted {
        return Some(String::from_str("worktree restored to guard snapshot"));
    }
    if r.drift.clean() {
        return None;
    }
    let mut s: String = String::from_str("undo with: respawn revert ");
    s.append(hash_hex(&r.snapshot).as_str());
    s.append(" --force");
    Some(s)
}

/// A hexadecimal HEAD, or "none".
pub open spec fn or_none(h: Option<Seq<char>>) -> Seq<char> {
    match h {
        Some(t) => t,
        None => "none"@,
    }
}

/// What the operator is told about HEAD when an anchor stands.
pub fn head_line(v: &VerifyOutcome) -> (t: String)
    ensures
        t@ == if text_opt(v.anchored_head) == text_opt(v.current_head) {
            "HEAD unchanged since anchor"@
        } else {
            "HEAD moved (normal \u{2014} new snapshots): "@ + or_none(text_opt(v.anchored_head))
                + " -> "@ + or_none(text_opt(v.current_head))
        },
{
    let same: bool = match (&v.anchored_head, &v.current_head) {
        (None, None) => true,
        (Some(a), Some(b)) => text_eq(a.as_str(), b.as_str()),
        _ => false,
    };
    if same {
        return String::from_str("HEAD unchanged since anchor");
    }
    let mut s: String = String::from_str("HEAD moved (normal \u{2014} new snapshots): ");
    match &v.anchored_head {
        Some(a) => {
            s.append(a.as_str());
        },
        None => {
            s.append("none");
        },
    }
    s.append(" -> ");
    match &v.current_head {
        Some(b) => {
            s.append(b.as_str());
        },
        None => {
            s.append("none");
        },
    }
    s
}

/// What is to be done about the link to the previous anchor.
#[derive(Debug)]
pub enum LinkCheck {
    /// Tell this.
    Say(String),
    /// Verify the link against the given file.
    Check,
}

/// Whether a link can be shortened for display: its twelfth byte ends a
/// character.
pub open spec fn can_show(link: Seq<char>) -> bool {
    encode_utf8(link).len() >= 12 && is_char_boundary(encode_utf8(link), 12)
}

/// Decides about the link to the previous anchor: `prev_given` says whether
/// the operator named a file to check it against.
pub fn link_check(v: &VerifyOutcome, prev_given: bool) -> (r: Result<LinkCheck>)
    requires
        v.prev_anchor is Some && !prev_given ==> can_show(v.prev_anchor->Some_0@),
    ensures
        match (v.prev_anchor, prev_given) {
            (None, false) => r is Ok && r->Ok_0 is Say && r->Ok_0->Say_0@
                == "chain link: none (first anchor)"@,
            (Some(h), false) => r is Ok && r->Ok_0 is Say && r->Ok_0->Say_0@
                == "chain link: anchors to "@ + decode_utf8(encode_utf8(h@).subrange(0, 12))
                + " (pass --prev <file> to check it)"@,
            (None, true) => r is Err && r->Err_0@ == ErrorView::Corrupt(
                "--prev given but anchor has no chain link"@,
            ),
            (Some(_), true) => r is Ok && r->Ok_0 is Check,
        },
{
    match &v.prev_anchor {
        None => {
            if prev_given {
                return Err(corrupt("--prev given but anchor has no chain link"));
            }
            Ok(LinkCheck::Say(String::from_str("chain link: none (first anchor)")))
        },
        Some(h) => {
            if prev_given {
                return Ok(LinkCheck::Check);
            }
            let (a, _) = h.as_str().split_at(12);
            proof {
                encode_utf8_decode_utf8(a@);
            }
            let mut s: String = String::from_str("chain link: anchors to ");
            s.append(a);
            s.append(" (pass --prev <file> to check it)");
            Ok(LinkCheck::Say(s))
        },
    }
}

/// Refuses a revert for which there was no leave.
pub fn revert_refused() -> (r: Error)
    ensures
        r@ == ErrorView::Corrupt("revert refused"@),
{
    corrupt("revert refused")
}

/// Every change has a line of its own, added files first, then modified, then
/// deleted ones, each behind its mark; nothing else is listed.
pub proof fn every_change_has_its_line(
    added: Seq<Seq<char>>,
    modified: Seq<Seq<char>>,
    deleted: Seq<Seq<char>>,
)
    ensures
        diff_text(added, modified, deleted).len() == added.len() + modified.len() + deleted.len(),
        forall|i: int|
            0 <= i < added.len() ==> #[trigger] diff_text(added, modified, deleted)[i] == "  + "@
                + added[i],
        forall|i: int|
            0 <= i < modified.len() ==> diff_text(added, modified, deleted)[added.len() + i]
                == "  ~ "@ + #[trigger] modified[i],
        forall|i: int|
            0 <= i < deleted.len() ==> diff_text(added, modified, deleted)[added.len()
                + modified.len() + i] == "  - "@ + #[trigger] deleted[i],
{
    let none = Seq::<char>::empty();
    assert forall|x: Seq<char>, p: Seq<char>| #[trigger] (x + p) + none == x + p by {
        assert((x + p) + none =~= x + p);
    }
}

/// A file whose metadata alone changed is listed as such.
pub proof fn touched_files_are_marked(touched: Seq<Seq<char>>, i: int)
    requires
        0 <= i < touched.len(),
    ensures
        marked(touched, "  . "@, " (metadata only)"@).len() == touched.len(),
        marked(touched, "  . "@, " (metadata only)"@)[i] == "  . "@ + touched[i]
            + " (metadata only)"@,
{
}

/// The counts are told in the order added, modified, deleted.
pub proof fn counts_are_told_in_order(a: nat, m: nat, d: nat)
    ensures
        counts_text(a, m, d) == dec(a) + " added, "@ + dec(m) + " modified, "@ + dec(d)
            + " deleted"@,
{
}

/// A line of the log: the first six bytes of the id, the time, the message
/// where there is one, the number of files, and a mark on HEAD's.
pub proof fn log_lines_say(id: Seq<u8>, time: Seq<char>, m: ManifestView)
    ensures
        m.message.len() > 0 ==> log_text(id, time, m, false) == hex_text(id.take(6)) + "  "@ + time
            + ("  "@ + m.message) + "  ("@ + dec(m.files.len()) + " files)"@,
        m.message.len() == 0 ==> log_text(id, time, m, false) == hex_text(id.take(6)) + "  "@ + time
            + "  ("@ + dec(m.files.len()) + " files)"@,
        log_text(id, time, m, true) == log_text(id, time, m, false) + " <-- HEAD"@,
{
    let none = Seq::<char>::empty();
    assert(id.take(6) =~= id.subrange(0, 6));
    let a = hex_text(id.take(6)) + "  "@ + time;
    assert(a + none =~= a);
    let b = a + (if m.message.len() == 0 {
        none
    } else {
        "  "@ + m.message
    }) + "  ("@ + dec(m.files.len()) + " files)"@;
    assert(b + none =~= b);
}

/// Which addresses only this machine can reach: its own names, with or without
/// a port, an IPv6 one in brackets where a port follows.
pub proof fn own_addresses(addr: Seq<char>, port: Seq<char>)
    ensures
        loopback("127.0.0.1"@ + ":"@ + port),
        loopback("localhost"@ + ":"@ + port),
        loopback("[::1]"@ + ":"@ + port),
        loopback("127.0.0.1"@) && loopback("localhost"@) && loopback("[::1]"@) && loopback("::1"@),
        loopback(addr) ==> addr == "127.0.0.1"@ || addr == "localhost"@ || addr == "[::1]"@ || addr
            == "::1"@ || ("127.0.0.1"@ + ":"@).is_prefix_of(addr) || ("localhost"@
            + ":"@).is_prefix_of(addr) || ("[::1]"@ + ":"@).is_prefix_of(addr),
{
    let a = "127.0.0.1"@ + ":"@;
    let b = "localhost"@ + ":"@;
    let c = "[::1]"@ + ":"@;
    assert(a =~= (a + port).subrange(0, a.len() as int));
    assert(b =~= (b + port).subrange(0, b.len() as int));
    assert(c =~= (c + port).subrange(0, c.len() as int));
}

} // verus!
