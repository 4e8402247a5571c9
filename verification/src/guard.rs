//! Guard: snapshot the worktree, run a command, report what it changed.
//!
//! Wrap anything that writes to the tree and get a before-state, a drift
//! report, and a one-command undo path (`revert head --force` restores the
//! guard snapshot). The fabric lock is held for the child's whole lifetime:
//! nothing else may mutate the fabric while a guarded process is mid-write.

use vstd::prelude::*;
use vstd::string::*;
use vstd::utf8::*;
use crate::drift::DriftReport;
use crate::error::Error;
use crate::error::ErrorView;
use crate::error::Result;
use crate::error::corrupt;
use crate::store::FileWrite;
use crate::store::Store;
use crate::store::head_of_text;
use crate::store::head_round_trip;
use crate::text::dec;
use crate::text::join_texts;
use crate::text::joined;
use crate::text::push_dec;
use crate::text::strs;

verus! {

#[derive(Debug, Clone, Copy, PartialEq, Eq, Structural)]
pub enum RevertPolicy {
    /// Leave the tree as the command left it.
    Never,
    /// Restore the guard snapshot only if the command failed.
    OnFail,
    /// Always restore the guard snapshot (ephemeral run).
    Always,
}

#[derive(Debug)]
pub struct GuardReport {
    /// The pre-command snapshot; restoring it undoes everything the
    /// command wrote.
    pub snapshot: crate::Hash,
    /// Child exit code; None if the child was killed by a signal.
    pub exit_code: Option<i32>,
    /// Signal that killed the child, if any.
    pub signal: Option<i32>,
    /// What the command changed, relative to the guard snapshot.
    pub drift: DriftReport,
    /// Whether the worktree was restored to the guard snapshot.
    pub reverted: bool,
}

impl GuardReport {
    /// Process exit code suitable for propagating out of `main`: the
    /// child's own code, or 128+signal, the shell convention, so a
    /// guard-wrapped pipeline sees the same status as the bare command.
    pub fn process_exit_code(&self) -> (r: i32)
        requires
            self.exit_code is None && self.signal is Some ==> 128 + self.signal->Some_0
                <= i32::MAX,
        ensures
            r == match (self.exit_code, self.signal) {
                (Some(c), _) => c as int,
                (None, Some(sig)) => 128 + sig,
                (None, None) => 1,
            },
    {
        match (self.exit_code, self.signal) {
            (Some(c), _) => c,
            (None, Some(sig)) => 128 + sig,
            (None, None) => 1,
        }
    }
}

/// The command as one line, and the message of the snapshot taken before it
/// runs. A guard without a command is an error.
pub fn begin(argv: &Vec<String>) -> (r: Result<(String, String)>)
    ensures
        if argv@.len() == 0 {
            r is Err && r->Err_0@ == ErrorView::Corrupt("guard requires a command"@)
        } else {
            &&& r is Ok
            &&& r->Ok_0.0@ == joined(strs(argv@), " "@)
            &&& r->Ok_0.1@ == "guard: "@ + joined(strs(argv@), " "@)
        },
{
    if argv.len() == 0 {
        return Err(corrupt("guard requires a command"));
    }
    let display = join_texts(argv, " ");
    let message = String::from_str("guard: ").concat(display.as_str());
    Ok((display, message))
}

/// Whether a policy restores the guard snapshot.
pub open spec fn reverts(policy: RevertPolicy, succeeded: bool) -> bool {
    match policy {
        RevertPolicy::Always => true,
        RevertPolicy::OnFail => !succeeded,
        RevertPolicy::Never => false,
    }
}

/// Whether the guard snapshot is restored after the command ran.
pub fn should_revert(policy: RevertPolicy, succeeded: bool) -> (r: bool)
    ensures
        r == reverts(policy, succeeded),
        policy == RevertPolicy::Never ==> !r,
        policy == RevertPolicy::Always ==> r,
        policy == RevertPolicy::OnFail ==> r == !succeeded,
{
    match policy {
        RevertPolicy::Always => true,
        RevertPolicy::OnFail => !succeeded,
        RevertPolicy::Never => false,
    }
}

/// A number in decimal, with a minus sign where it is negative.
pub open spec fn signed_dec(n: int) -> Seq<char> {
    if n < 0 {
        "-"@ + dec((-n) as nat)
    } else {
        dec(n as nat)
    }
}

/// Appends a number in decimal.
pub fn push_signed(s: &mut String, n: i32)
    ensures
        final(s)@ == old(s)@ + signed_dec(n as int),
{
    if n < 0 {
        s.append("-");
        push_dec(s, (-(n as i64)) as u64);
        assert(s@ =~= old(s)@ + signed_dec(n as int));
    } else {
        push_dec(s, n as u64);
    }
}

/// What the audit log says of a guarded command.
pub open spec fn detail_text(
    display: Seq<char>,
    exit_code: Option<i32>,
    drift: DriftReport,
    reverted: bool,
) -> Seq<char> {
    display + " exit "@ + signed_dec(
        match exit_code {
            Some(c) => c as int,
            None => -1,
        },
    ) + " drift +"@ + dec(drift.added@.len()) + " ~"@ + dec(drift.modified@.len()) + " -"@ + dec(
        drift.deleted@.len(),
    ) + if reverted {
        " reverted"@
    } else {
        Seq::<char>::empty()
    }
}

/// What the audit log says of a guarded command: how it exited, how many
/// files it added, modified and deleted, and whether they were restored.
pub fn audit_detail(
    display: &str,
    exit_code: Option<i32>,
    drift: &DriftReport,
    reverted: bool,
) -> (r: String)
    ensures
        r@ == detail_text(display@, exit_code, *drift, reverted),
{
    let mut s: String = display.to_owned();
    s.append(" exit ");
    let code: i32 = match exit_code {
        Some(c) => c,
        None => -1,
    };
    push_signed(&mut s, code);
    s.append(" drift +");
    push_dec(&mut s, drift.added.len() as u64);
    s.append(" ~");
    push_dec(&mut s, drift.modified.len() as u64);
    s.append(" -");
    push_dec(&mut s, drift.deleted.len() as u64);
    if reverted {
        s.append(" reverted");
    }
    assert(s@ =~= detail_text(display@, exit_code, *drift, reverted));
    s
}

/// How the attempt to run a command went.
#[derive(Debug)]
pub enum Spawned {
    /// It could not be started.
    Failed(std::io::Error),
    /// It ran to its end.
    Ended(Exit),
}

/// How a command ended.
#[derive(Debug, Clone, Copy)]
pub struct Exit {
    pub succeeded: bool,
    /// Exit code; None if the command was killed by a signal.
    pub code: Option<i32>,
    /// Signal that killed the command, if any.
    pub signal: Option<i32>,
}

/// What a guard does once its command is through.
pub enum GuardNext {
    /// Nothing ran. This write puts HEAD back, so that the guard snapshot does
    /// not masquerade as a checkpoint of a run that never happened; behind it
    /// comes the error. Nothing is restored and nothing goes to the audit log.
    Undo(FileWrite, Error),
    /// The command ran: compare the tree with the guard snapshot.
    Look(Ran),
}

/// A guarded command that ran; what it changed is not known yet.
pub struct Ran {
    snap: crate::Hash,
    policy: RevertPolicy,
    exit: Exit,
}

/// A guarded command that ran, and what it changed: known before anything is
/// restored.
pub struct Observed {
    ran: Ran,
    drift: DriftReport,
}

/// What ends a guard: the write that leaves HEAD at the guard snapshot, the
/// detail of the entry in the audit log, and the report.
pub struct GuardEnd {
    pub head: FileWrite,
    pub detail: String,
    pub report: GuardReport,
}

/// What comes next once the command of a guard was tried; `prev_head` is the
/// HEAD from before the guard snapshot `snap`.
pub fn after_run(
    store: &Store,
    prev_head: Option<&crate::Hash>,
    snap: crate::Hash,
    policy: RevertPolicy,
    outcome: Spawned,
) -> (r: GuardNext)
    ensures
        match outcome {
            Spawned::Failed(e) => r is Undo && r->Undo_1@ == ErrorView::Io(e) && store.writes_head(
                match prev_head {
                    Some(h) => Some(h@),
                    None => None,
                },
                r->Undo_0,
            ),
            Spawned::Ended(x) => r is Look && r->Look_0.snap() == snap && r->Look_0.policy()
                == policy && r->Look_0.exit() == x,
        },
{
    match outcome {
        Spawned::Failed(e) => GuardNext::Undo(store.set_head(prev_head), Error::Io(e)),
        Spawned::Ended(exit) => GuardNext::Look(Ran { snap, policy, exit }),
    }
}

impl Ran {
    /// The guard snapshot.
    pub closed spec fn snap(&self) -> crate::Hash {
        self.snap
    }

    /// When to restore it.
    pub closed spec fn policy(&self) -> RevertPolicy {
        self.policy
    }

    /// How the command ended.
    pub closed spec fn exit(&self) -> Exit {
        self.exit
    }

    /// Takes what the command changed, relative to the guard snapshot.
    pub fn observe(self, drift: DriftReport) -> (r: Observed)
        ensures
            r.ran() == self,
            r.drift() == drift,
    {
        Observed { ran: self, drift }
    }
}

impl Observed {
    /// The command that ran.
    pub closed spec fn ran(&self) -> Ran {
        self.ran
    }

    /// What it changed.
    pub closed spec fn drift(&self) -> DriftReport {
        self.drift
    }

    /// Whether the guard snapshot is restored now.
    pub fn restores(&self) -> (r: bool)
        ensures
            r == reverts(self.ran().policy(), self.ran().exit().succeeded),
            self.ran().policy() == RevertPolicy::Never ==> !r,
            self.ran().policy() == RevertPolicy::Always ==> r,
            self.ran().policy() == RevertPolicy::OnFail ==> r == !self.ran().exit().succeeded,
    {
        should_revert(self.ran.policy, self.ran.exit.succeeded)
    }

    /// Ends the guard, once the guard snapshot is restored where it has to be:
    /// HEAD is the guard snapshot, restored or not. `display` is the command
    /// as one line.
    pub fn finish(self, store: &Store, display: &str) -> (r: GuardEnd)
        ensures
            ({
                let ran = self.ran();
                let back = reverts(ran.policy(), ran.exit().succeeded);
                &&& store.writes_head(Some(ran.snap()@), r.head)
                &&& ran.policy() == RevertPolicy::Never ==> !r.report.reverted
                &&& ran.policy() == RevertPolicy::Always ==> r.report.reverted
                &&& ran.policy() == RevertPolicy::OnFail ==> r.report.reverted
                    == !ran.exit().succeeded
                &&& r.detail@ == detail_text(display@, ran.exit().code, self.drift(), back)
                &&& r.report == (GuardReport {
                    snapshot: ran.snap(),
                    exit_code: ran.exit().code,
                    signal: ran.exit().signal,
                    drift: self.drift(),
                    reverted: back,
                })
            }),
    {
        let reverted: bool = self.restores();
        let Observed { ran, drift } = self;
        let head = store.set_head(Some(&ran.snap));
        let detail = audit_detail(display, ran.exit.code, &drift, reverted);
        GuardEnd {
            head,
            detail,
            report: GuardReport {
                snapshot: ran.snap,
                exit_code: ran.exit.code,
                signal: ran.exit.signal,
                drift,
                reverted,
            },
        }
    }
}

/// When a guard puts the tree back: under `Never` it leaves the tree as the
/// command left it, however that ended; under `Always` it never does; under
/// `OnFail` a command that succeeded keeps its work, and one that did not
/// loses it. So a command that succeeded is undone only by `Always`.
pub proof fn policies_restore_as_named(policy: RevertPolicy, succeeded: bool)
    ensures
        !reverts(RevertPolicy::Never, succeeded),
        reverts(RevertPolicy::Always, succeeded),
        reverts(RevertPolicy::OnFail, succeeded) != succeeded,
        reverts(policy, true) ==> policy == RevertPolicy::Always,
        reverts(policy, true) ==> reverts(policy, false),
{
}

/// A guard whose command could not be started leaves HEAD as it was before:
/// what it writes, read back, says the HEAD from before the guard snapshot.
pub proof fn unstarted_command_leaves_head(
    store: Store,
    prev_head: Option<crate::Hash>,
    w: FileWrite,
    t: &str,
)
    requires
        store.writes_head(
            match prev_head {
                Some(h) => Some(h@),
                None => None,
            },
            w,
        ),
        encode_utf8(t@) == w.data@,
    ensures
        head_of_text(Some(t)) == std::result::Result::<Option<Seq<u8>>, Seq<char>>::Ok(
            match prev_head {
                Some(h) => Some(h@),
                None => None,
            },
        ),
{
    let h = match prev_head {
        Some(h) => Some(h@),
        None => None,
    };
    head_round_trip(store, h, w, t);
}

/// A guard whose command ran leaves HEAD at the guard snapshot, whatever the
/// policy.
pub proof fn guard_leaves_head_at_its_snapshot(
    store: Store,
    snap: crate::Hash,
    w: FileWrite,
    t: &str,
)
    requires
        store.writes_head(Some(snap@), w),
        encode_utf8(t@) == w.data@,
    ensures
        head_of_text(Some(t)) == std::result::Result::<Option<Seq<u8>>, Seq<char>>::Ok(Some(snap@)),
{
    head_round_trip(store, Some(snap@), w, t);
}

/// What the audit log says of a guarded command: the command, its exit code or
/// minus one where it has none, how many files it added, modified and deleted,
/// and whether they were restored.
pub proof fn guarded_commands_are_logged(
    display: Seq<char>,
    code: Option<i32>,
    drift: DriftReport,
    n: nat,
)
    ensures
        detail_text(display, code, drift, false) == display + " exit "@ + signed_dec(
            if code is Some {
                code->Some_0 as int
            } else {
                -1
            },
        ) + " drift +"@ + dec(drift.added@.len()) + " ~"@ + dec(drift.modified@.len()) + " -"@ + dec(
            drift.deleted@.len(),
        ),
        detail_text(display, code, drift, true) == detail_text(display, code, drift, false)
            + " reverted"@,
        signed_dec(n as int) == dec(n),
        n > 0 ==> signed_dec(-(n as int)) == "-"@ + dec(n),
{
    let none = Seq::<char>::empty();
    let a = display + " exit "@ + signed_dec(
        if code is Some {
            code->Some_0 as int
        } else {
            -1
        },
    ) + " drift +"@ + dec(drift.added@.len()) + " ~"@ + dec(drift.modified@.len()) + " -"@ + dec(
        drift.deleted@.len(),
    );
    assert(a + none =~= a);
}

} // verus!
