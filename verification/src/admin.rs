//! `snap --apfs --ask-admin`: re-run the snapshot through macOS admin
//! authorization instead of requiring `sudo respawn`.
//!
//! `mount_apfs` needs root, and `do shell script ... with
//! administrator privileges` is the smallest honest escalation: one
//! GUI prompt, one privileged child, no installed helper. The
//! privileged command is `respawn snap --apfs` itself, followed by a
//! `chown -R` of `.respawn/` back to the invoking user: without it,
//! root-written objects and HEAD would poison every later unprivileged
//! snap.
//!
//! Two distinct escape layers keep paths safe: each argv element is
//! single-quoted for `/bin/sh` (what `do shell script` runs), then the
//! assembled command is escaped for the AppleScript string literal.
//! Nothing is ever interpolated raw.

use vstd::prelude::*;
use vstd::string::*;
use crate::error::Error;
use crate::error::ErrorView;
use crate::error::Result;
use crate::error::corrupt;
use crate::text::chars_contain;
use crate::text::chars_of;
use crate::text::occurs;
use crate::text::replace;
use crate::text::replaced;
use crate::text::text_eq;
use crate::text::trim;
use crate::text::trimmed;

verus! {

/// A string in single quotes for POSIX sh: each embedded `'` becomes `'\''`.
pub open spec fn sh_quoted(s: Seq<char>) -> Seq<char> {
    seq!['\''] + replace(s, '\'', seq!['\'', '\\', '\'', '\'']) + seq!['\'']
}

/// Single-quote a string for POSIX sh: wrap in `'…'`, each embedded
/// `'` becomes `'\''`. Inside single quotes nothing expands: no `$`,
/// no backticks, no escapes.
pub fn sh_quote(s: &str) -> (r: String)
    ensures
        r@ == sh_quoted(s@),
{
    proof {
        reveal_strlit("'\\''");
        assert("'\\''"@ =~= seq!['\'', '\\', '\'', '\'']);
    }
    let mut out: String = String::new();
    out.push('\'');
    out.append(replaced(s, '\'', "'\\''").as_str());
    out.push('\'');
    assert(out@ =~= sh_quoted(s@));
    out
}

/// The word that a POSIX shell reads from a text without expansions: inside
/// single quotes every character stands for itself, outside a backslash makes
/// the next character stand for itself. Nothing, where a character that the
/// shell might interpret stands outside quotes, or a quote is left open.
pub open spec fn sh_word(s: Seq<char>, quoted: bool) -> Option<Seq<char>>
    decreases s.len(),
{
    if s.len() == 0 {
        if quoted {
            None
        } else {
            Some(Seq::empty())
        }
    } else if s[0] == '\'' {
        sh_word(s.drop_first(), !quoted)
    } else if quoted {
        match sh_word(s.drop_first(), true) {
            Some(w) => Some(seq![s[0]] + w),
            None => None,
        }
    } else if s[0] == '\\' && s.len() > 1 {
        match sh_word(s.drop_first().drop_first(), false) {
            Some(w) => Some(seq![s[1]] + w),
            None => None,
        }
    } else {
        None
    }
}

/// What the rest of a quoted string means once what comes behind it is known.
proof fn lemma_quoted_rest(s: Seq<char>, rest: Seq<char>)
    requires
        sh_word(rest, true) is Some,
    ensures
        sh_word(replace(s, '\'', seq!['\'', '\\', '\'', '\'']) + rest, true) == Some(
            s + sh_word(rest, true)->0,
        ),
    decreases s.len(),
{
    let esc = seq!['\'', '\\', '\'', '\''];
    let w = sh_word(rest, true)->0;
    if s.len() == 0 {
        assert(replace(s, '\'', esc) + rest =~= rest);
        assert(s + w =~= w);
    } else {
        let init = s.drop_last();
        let l = s.last();
        let tail = if l == '\'' {
            esc + rest
        } else {
            seq![l] + rest
        };
        assert(replace(s, '\'', esc) + rest =~= replace(init, '\'', esc) + tail);
        if l == '\'' {
            // Leave the quotes, an escaped quote, enter them again.
            let t1 = tail.drop_first();
            let t2 = t1.drop_first().drop_first();
            let t3 = t2.drop_first();
            assert(t3 =~= rest);
            assert(t1[0] == '\\' && t1[1] == '\'');
            assert(t2[0] == '\'');
            assert(sh_word(t2, false) == sh_word(rest, true));
            assert(sh_word(t1, false) == Some(seq!['\''] + w));
            assert(sh_word(tail, true) == Some(seq!['\''] + w));
        } else {
            assert(tail.drop_first() =~= rest);
            assert(sh_word(tail, true) == Some(seq![l] + w));
        }
        lemma_quoted_rest(init, tail);
        assert(init + (seq![l] + w) =~= s + w);
    }
}

/// A shell reads the quoted form of a string as that string, whatever stands
/// in it.
pub proof fn shell_reads_back_the_quoted(s: Seq<char>)
    ensures
        sh_word(sh_quoted(s), false) == Some(s),
{
    let q = seq!['\''];
    assert(q.drop_first() =~= Seq::empty());
    assert(sh_word(Seq::empty(), false) == Some(Seq::<char>::empty()));
    assert(sh_word(q, true) == Some(Seq::<char>::empty()));
    lemma_quoted_rest(s, q);
    let all = sh_quoted(s);
    assert(all.drop_first() =~= replace(s, '\'', seq!['\'', '\\', '\'', '\'']) + q);
    assert(s + Seq::<char>::empty() =~= s);
}

/// One character inside an AppleScript string literal.
pub open spec fn as_char(c: char) -> Seq<char> {
    if c == '\\' {
        seq!['\\', '\\']
    } else if c == '"' {
        seq!['\\', '"']
    } else {
        seq![c]
    }
}

/// A string inside an AppleScript literal: only `\` and `"` are special there.
pub open spec fn as_escaped(s: Seq<char>) -> Seq<char>
    decreases s.len(),
{
    if s.len() == 0 {
        s
    } else {
        as_escaped(s.drop_last()) + as_char(s.last())
    }
}

/// Escape a string for an AppleScript double-quoted literal: only
/// `\` and `"` are special there.
pub fn as_escape(s: &str) -> (r: String)
    ensures
        r@ == as_escaped(s@),
{
    let v = chars_of(s);
    let mut out: String = String::new();
    let mut i: usize = 0;
    while i < v.len()
        invariant
            i <= v@.len(),
            out@ == as_escaped(v@.take(i as int)),
        decreases v@.len() - i,
    {
        assert(v@.take(i + 1).drop_last() =~= v@.take(i as int));
        let c = v[i];
        if c == '\\' || c == '"' {
            out.push('\\');
        }
        out.push(c);
        i = i + 1;
        assert(out@ =~= as_escaped(v@.take(i as int)));
    }
    assert(v@.take(i as int) =~= v@);
    out
}

/// What the inside of an AppleScript literal stands for: a backslash makes
/// the next character stand for itself, and a bare quote would end the
/// literal.
pub open spec fn as_literal(s: Seq<char>) -> Option<Seq<char>>
    decreases s.len(),
{
    if s.len() == 0 {
        Some(Seq::empty())
    } else if s[0] == '"' {
        None
    } else if s[0] == '\\' {
        if s.len() == 1 {
            None
        } else {
            match as_literal(s.drop_first().drop_first()) {
                Some(w) => Some(seq![s[1]] + w),
                None => None,
            }
        }
    } else {
        match as_literal(s.drop_first()) {
            Some(w) => Some(seq![s[0]] + w),
            None => None,
        }
    }
}

proof fn lemma_literal_rest(s: Seq<char>, rest: Seq<char>)
    requires
        as_literal(rest) is Some,
    ensures
        as_literal(as_escaped(s) + rest) == Some(s + as_literal(rest)->0),
    decreases s.len(),
{
    let w = as_literal(rest)->0;
    if s.len() == 0 {
        assert(as_escaped(s) + rest =~= rest);
        assert(s + w =~= w);
    } else {
        let init = s.drop_last();
        let l = s.last();
        let tail = as_char(l) + rest;
        assert(as_escaped(s) + rest =~= as_escaped(init) + tail);
        if l == '\\' || l == '"' {
            assert(tail.drop_first().drop_first() =~= rest);
        } else {
            assert(tail.drop_first() =~= rest);
        }
        assert(as_literal(tail) == Some(seq![l] + w));
        lemma_literal_rest(init, tail);
        assert(init + (seq![l] + w) =~= s + w);
    }
}

/// AppleScript reads the escaped form of a string as that string, and the
/// literal does not end inside it.
pub proof fn applescript_reads_back_the_escaped(s: Seq<char>)
    ensures
        as_literal(as_escaped(s)) == Some(s),
{
    let none = Seq::<char>::empty();
    lemma_literal_rest(s, none);
    assert(as_escaped(s) + none =~= as_escaped(s));
    assert(s + none =~= s);
}

/// A numeric id as `id -u` or `id -g` prints it.
pub fn id_text(stdout: &str) -> (r: String)
    ensures
        r@ == trim(stdout@),
{
    trimmed(stdout)
}

/// The shell command that takes the snapshot and hands the fabric back.
pub open spec fn admin_command(
    exe: Seq<char>,
    worktree: Seq<char>,
    fabric: Seq<char>,
    message: Seq<char>,
    uid: Seq<char>,
    gid: Seq<char>,
) -> Seq<char> {
    "cd "@ + sh_quoted(worktree) + " && "@ + sh_quoted(exe) + " snap --apfs -m "@ + sh_quoted(
        message,
    ) + " && /usr/sbin/chown -R "@ + uid + ":"@ + gid + " "@ + sh_quoted(fabric)
}

/// Build the AppleScript: separated from execution so it can be inspected
/// exactly as it would run.
pub fn admin_script(
    exe: &str,
    worktree: &str,
    fabric: &str,
    message: &str,
    uid: &str,
    gid: &str,
) -> (r: String)
    ensures
        r@ == "do shell script \""@ + as_escaped(
            admin_command(exe@, worktree@, fabric@, message@, uid@, gid@),
        ) + "\" with administrator privileges"@,
{
    let mut shell: String = String::from_str("cd ");
    shell.append(sh_quote(worktree).as_str());
    shell.append(" && ");
    shell.append(sh_quote(exe).as_str());
    shell.append(" snap --apfs -m ");
    shell.append(sh_quote(message).as_str());
    shell.append(" && /usr/sbin/chown -R ");
    shell.append(uid);
    shell.append(":");
    shell.append(gid);
    shell.append(" ");
    shell.append(sh_quote(fabric).as_str());
    let mut out: String = String::from_str("do shell script \"");
    out.append(as_escape(shell.as_str()).as_str());
    out.append("\" with administrator privileges");
    out
}

/// What became of the privileged child: `None` where there is no such
/// authorization on this system; else whether it succeeded and what it wrote
/// to stderr. Cancelled authorization (osascript -128) is a distinct honest
/// error from a failed snapshot.
pub fn snap_as_admin(child: Option<(bool, String)>) -> (r: Result<()>)
    ensures
        match child {
            None => r is Err && r->Err_0@ == ErrorView::Corrupt(
                "--ask-admin uses macOS administrator authorization \u{2014} macOS-only"@,
            ),
            Some(c) => if c.0 {
                r is Ok
            } else if occurs(c.1@, "-128"@) || occurs(c.1@, "User canceled"@) {
                r is Err && r->Err_0@ == ErrorView::Corrupt("admin authorization cancelled"@)
            } else {
                r is Err && r->Err_0@ == ErrorView::Corrupt(
                    "privileged snapshot failed: "@ + trim(c.1@),
                )
            },
        },
{
    match child {
        None => Err(
            corrupt("--ask-admin uses macOS administrator authorization \u{2014} macOS-only"),
        ),
        Some((success, stderr)) => {
            if success {
                return Ok(());
            }
            let v = chars_of(stderr.as_str());
            if chars_contain(&v, &chars_of("-128")) || chars_contain(
                &v,
                &chars_of("User canceled"),
            ) {
                return Err(corrupt("admin authorization cancelled"));
            }
            let mut m: String = String::from_str("privileged snapshot failed: ");
            m.append(trimmed(stderr.as_str()).as_str());
            Err(Error::Corrupt(m))
        },
    }
}

/// True when euid is 0: `--ask-admin` is pointless (and the osascript
/// round-trip needless) when already root. `uid` is what `id -u` printed, if
/// it ran.
pub fn is_root(uid: Option<&str>) -> (r: bool)
    ensures
        r == (uid is Some && trim(uid->Some_0@) == "0"@),
{
    match uid {
        None => false,
        Some(u) => text_eq(id_text(u).as_str(), "0"),
    }
}

/// What the privileged shell runs: it goes to the worktree, takes a snapshot of
/// a frozen view with the message, and then hands the fabric back to its owner;
/// each word reaches the shell as it was given.
pub proof fn privileged_snapshot_hands_the_fabric_back(
    exe: Seq<char>,
    worktree: Seq<char>,
    fabric: Seq<char>,
    message: Seq<char>,
    uid: Seq<char>,
    gid: Seq<char>,
)
    ensures
        admin_command(exe, worktree, fabric, message, uid, gid) == "cd "@ + sh_quoted(worktree)
            + " && "@ + sh_quoted(exe) + " snap --apfs -m "@ + sh_quoted(message)
            + " && /usr/sbin/chown -R "@ + uid + ":"@ + gid + " "@ + sh_quoted(fabric),
        sh_word(sh_quoted(exe), false) == Some(exe),
        sh_word(sh_quoted(worktree), false) == Some(worktree),
        sh_word(sh_quoted(fabric), false) == Some(fabric),
        sh_word(sh_quoted(message), false) == Some(message),
{
    shell_reads_back_the_quoted(exe);
    shell_reads_back_the_quoted(worktree);
    shell_reads_back_the_quoted(fabric);
    shell_reads_back_the_quoted(message);
}

} // verus!
