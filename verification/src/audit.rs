//! Hash-chained audit log.
//!
//! Every state-changing operation appends a JSON line to
//! `.respawn/audit.jsonl`. Each entry's `hash` covers the previous
//! hash plus the entry body: deleting, editing, or reordering lines
//! breaks the chain and is detected by `verify`.
//!
//! The functions here work on the log as a list of lines, each with its text
//! and the entry that it parses to.

use vstd::prelude::*;
use vstd::string::*;
use vstd::utf8::*;
use crate::digest::blake3_hash;
use crate::digest::hash_bytes;
use crate::digest::hash_hex;
use crate::digest::hash_text_injective;
use crate::digest::hex_text;
use crate::error::Error;
use crate::error::ErrorView;
use crate::error::Result;
use crate::error::corrupt;
use crate::json::json_tuple;
use crate::json::json_tuple_injective;
use crate::json::tuple_to_json;
use crate::paths::join;
use crate::paths::join_text;
use crate::store::Store;
use crate::text::chars_of;
use crate::text::dec;
use crate::text::is_white;
use crate::text::lemma_encoding_injective;
use crate::text::push_dec;
use crate::text::text_eq;
use crate::text::trim;
use crate::text::trim_chars;
use crate::text::trimming_cuts_whitespace_only;

verus! {

#[derive(Debug)]
pub struct AuditEntry {
    pub seq: u64,
    pub ts: u64,
    pub event: String,
    pub detail: String,
    pub prev: String,
    pub hash: String,
}

/// An audit entry with its texts as characters.
pub struct EntryView {
    pub seq: u64,
    pub ts: u64,
    pub event: Seq<char>,
    pub detail: Seq<char>,
    pub prev: Seq<char>,
    pub hash: Seq<char>,
}

impl View for AuditEntry {
    type V = EntryView;

    open spec fn view(&self) -> EntryView {
        EntryView {
            seq: self.seq,
            ts: self.ts,
            event: self.event@,
            detail: self.detail@,
            prev: self.prev@,
            hash: self.hash@,
        }
    }
}

/// One line of the log: what reading it gave, and the entry its text parses
/// to, if it does.
#[derive(Debug)]
pub enum LogLine {
    Unreadable(std::io::Error),
    Text(String, Option<AuditEntry>),
}

/// What a line of the log amounts to.
pub enum LineView {
    Unreadable(std::io::Error),
    Blank,
    Unparsable,
    Entry(EntryView),
}

impl View for LogLine {
    type V = LineView;

    open spec fn view(&self) -> LineView {
        match self {
            LogLine::Unreadable(e) => LineView::Unreadable(*e),
            LogLine::Text(t, e) => {
                if trim(t@).len() == 0 {
                    LineView::Blank
                } else {
                    match e {
                        Some(e) => LineView::Entry(e@),
                        None => LineView::Unparsable,
                    }
                }
            },
        }
    }
}

/// What the lines of a log amount to.
pub open spec fn log_view(lines: Seq<LogLine>) -> Seq<LineView> {
    lines.map_values(|l: LogLine| l@)
}

/// The entries among the lines, in order.
pub open spec fn entries(lines: Seq<LineView>) -> Seq<EntryView>
    decreases lines.len(),
{
    if lines.len() == 0 {
        Seq::empty()
    } else {
        match lines.last() {
            LineView::Entry(e) => entries(lines.drop_last()).push(e),
            _ => entries(lines.drop_last()),
        }
    }
}

/// The text that an entry's hash covers.
pub open spec fn entry_body(e: EntryView, prev: Seq<char>) -> Seq<char> {
    json_tuple(e.seq as nat, e.ts as nat, e.event, e.detail, prev)
}

/// The hash of an entry that follows `prev`.
pub open spec fn entry_hash_of(e: EntryView, prev: Seq<char>) -> Seq<char> {
    hex_text(blake3_hash(encode_utf8(entry_body(e, prev))))
}

/// The hash that the entry at position `i` has to follow: that of the entry
/// before it, and nothing for the first.
pub open spec fn tip_before(es: Seq<EntryView>, i: int) -> Seq<char> {
    if i == 0 {
        Seq::empty()
    } else {
        es[i - 1].hash
    }
}

/// Whether `e` may follow `n` entries of which the last has the hash `prev`.
pub open spec fn follows(e: EntryView, n: int, prev: Seq<char>) -> bool {
    e.seq == n && e.prev == prev && e.hash == entry_hash_of(e, prev)
}

/// A chain: every entry follows the ones before it.
pub open spec fn chained(es: Seq<EntryView>) -> bool {
    forall|i: int| 0 <= i < es.len() ==> follows(#[trigger] es[i], i, tip_before(es, i))
}

/// The hash of a chain's last entry, empty where it has none.
pub open spec fn chain_tip(es: Seq<EntryView>) -> Seq<char> {
    tip_before(es, es.len() as int)
}

/// Whether a line can be passed over or is an entry.
pub open spec fn well_read(l: LineView) -> bool {
    l is Blank || l is Entry
}

fn entry_hash(seq: u64, ts: u64, event: &str, detail: &str, prev: &str) -> (r: String)
    ensures
        r@ == hex_text(
            blake3_hash(
                encode_utf8(json_tuple(seq as nat, ts as nat, event@, detail@, prev@)),
            ),
        ),
{
    // The tuple is serialised rather than joined with a separator: a
    // delimiter inside a field could otherwise collide two different
    // entries onto the same hash input.
    let body = match tuple_to_json(seq, ts, event, detail, prev) {
        Some(t) => t,
        None => {
            let mut t: String = String::new();
            push_dec(&mut t, seq);
            push_dec(&mut t, ts);
            t
        },
    };
    hash_hex(&hash_bytes(body.as_str().as_bytes()))
}

/// Where the log of a fabric lies.
pub fn audit_path(store: &Store) -> (r: String)
    ensures
        r@ == join_text(store.fabric_text(), "audit.jsonl"@),
{
    join(store.fabric_dir().as_str(), "audit.jsonl")
}

/// Whether nothing but whitespace stands in `t`.
fn is_blank(t: &str) -> (r: bool)
    ensures
        r == (trim(t@).len() == 0),
{
    let v = chars_of(t);
    trim_chars(&v).len() == 0
}

/// The lines before the first that cannot be read.
pub open spec fn readable(lines: Seq<LineView>) -> Seq<LineView>
    decreases lines.len(),
{
    if lines.len() == 0 || lines[0] is Unreadable {
        Seq::empty()
    } else {
        seq![lines[0]] + readable(lines.drop_first())
    }
}

/// The sequence number behind the last of `es`, which wraps round at the
/// largest number.
pub open spec fn next_seq(es: Seq<EntryView>) -> u64 {
    if es.len() == 0 {
        0
    } else if es.last().seq == u64::MAX {
        0
    } else {
        (es.last().seq + 1) as u64
    }
}

proof fn lemma_entries_push(lines: Seq<LineView>, l: LineView)
    ensures
        entries(lines.push(l)) == match l {
            LineView::Entry(e) => entries(lines).push(e),
            _ => entries(lines),
        },
{
    assert(lines.push(l).drop_last() =~= lines);
}

proof fn lemma_log_take(lines: Seq<LogLine>, i: int)
    requires
        0 <= i < lines.len(),
    ensures
        log_view(lines).take(i + 1) == log_view(lines).take(i).push(lines[i]@),
        log_view(lines)[i] == lines[i]@,
{
    assert(log_view(lines).take(i + 1) =~= log_view(lines).take(i).push(lines[i]@));
}

/// The lines up to the first unreadable one.
proof fn lemma_readable(lines: Seq<LineView>, k: int)
    requires
        0 <= k <= lines.len(),
        forall|j: int| 0 <= j < k ==> !(#[trigger] lines[j] is Unreadable),
        k == lines.len() || lines[k] is Unreadable,
    ensures
        readable(lines) == lines.take(k),
    decreases lines.len(),
{
    if lines.len() == 0 || lines[0] is Unreadable {
        assert(readable(lines) =~= lines.take(k));
    } else {
        let rest = lines.drop_first();
        assert forall|j: int| 0 <= j < k - 1 implies !(#[trigger] rest[j] is Unreadable) by {
            assert(!(lines[j + 1] is Unreadable));
        }
        lemma_readable(rest, k - 1);
        assert(readable(lines) =~= lines.take(k));
    }
}

/// The entry to append for an event at time `ts`. `detail` is a short
/// free-form string (snapshot id, peer addr, drift counts, ...). It follows
/// the last entry among the readable lines; lines that parse to no entry are
/// passed over.
pub fn record(lines: &Vec<LogLine>, ts: u64, event: &str, detail: &str) -> (r: AuditEntry)
    ensures
        ({
            let es = entries(readable(log_view(lines@)));
            &&& r.seq == next_seq(es)
            &&& r.ts == ts
            &&& r.event@ == event@
            &&& r.detail@ == detail@
            &&& r.prev@ == chain_tip(es)
            &&& r.hash@ == entry_hash_of(r@, r.prev@)
        }),
{
    let mut seq: u64 = 0;
    let mut prev: String = String::new();
    let mut i: usize = 0;
    let mut going: bool = true;
    let ghost log = log_view(lines@);
    assert(log.take(0) =~= Seq::empty());
    while i < lines.len() && going
        invariant
            i <= lines@.len(),
            log == log_view(lines@),
            seq == next_seq(entries(log.take(i as int))),
            prev@ == chain_tip(entries(log.take(i as int))),
            forall|j: int| 0 <= j < i ==> !(#[trigger] log[j] is Unreadable),
            !going ==> i < lines@.len() && log[i as int] is Unreadable,
        decreases lines@.len() - i + if going { 1int } else { 0int },
    {
        proof {
            lemma_log_take(lines@, i as int);
            lemma_entries_push(log.take(i as int), log[i as int]);
        }
        match &lines[i] {
            LogLine::Unreadable(_) => {
                going = false;
            },
            LogLine::Text(t, entry) => {
                if !is_blank(t.as_str()) {
                    match entry {
                        Some(e) => {
                            seq = e.seq.wrapping_add(1);
                            prev = e.hash.clone();
                        },
                        None => {},
                    }
                }
                i = i + 1;
            },
        }
    }
    proof {
        lemma_readable(log, i as int);
    }
    let hash = entry_hash(seq, ts, event, detail, prev.as_str());
    AuditEntry { seq, ts, event: event.to_owned(), detail: detail.to_owned(), prev, hash }
}

/// The outcome of checking a log: how many entries are in order, and the
/// sequence number of the first that is not.
#[derive(Debug)]
pub struct VerifyReport {
    pub entries: u64,
    pub valid: bool,
    pub first_bad: Option<u64>,
}

/// The message for line `n` that does not parse.
pub open spec fn unparsable_text(n: nat) -> Seq<char> {
    "audit line "@ + dec(n) + " unparsable"@
}

fn unparsable(n: u64) -> (r: Error)
    ensures
        r@ == ErrorView::Corrupt(unparsable_text(n as nat)),
{
    let mut m: String = String::from_str("audit line ");
    push_dec(&mut m, n);
    m.append(" unparsable");
    Error::Corrupt(m)
}

/// Whether the first `k` lines are blank or entries and the entries form a
/// chain.
pub open spec fn sound_before(log: Seq<LineView>, k: int) -> bool {
    &&& 0 <= k <= log.len()
    &&& forall|j: int| 0 <= j < k ==> well_read(#[trigger] log[j])
    &&& chained(entries(log.take(k)))
}

/// Whether the line at `k` is an entry that breaks the chain before it.
pub open spec fn breaks_at(log: Seq<LineView>, k: int) -> bool {
    let es = entries(log.take(k));
    0 <= k < log.len() && log[k] is Entry && !follows(
        log[k]->Entry_0,
        es.len() as int,
        chain_tip(es),
    )
}

proof fn lemma_chained_push(es: Seq<EntryView>, e: EntryView)
    requires
        chained(es),
    ensures
        chained(es.push(e)) <==> follows(e, es.len() as int, chain_tip(es)),
{
    let fs = es.push(e);
    assert forall|i: int| 0 <= i < es.len() implies follows(#[trigger] fs[i], i, tip_before(fs, i)) by {
        assert(follows(es[i], i, tip_before(es, i)));
    }
    assert(fs[es.len() as int] == e);
    assert(tip_before(fs, es.len() as int) == chain_tip(es));
}

proof fn lemma_entries_len(log: Seq<LineView>)
    ensures
        entries(log).len() <= log.len(),
    decreases log.len(),
{
    if log.len() > 0 {
        lemma_entries_len(log.drop_last());
    }
}

/// What checking a log gives: valid where every line is sound; broken at the
/// first entry that does not follow the ones before it; an error at the first
/// line that cannot be read or parsed.
pub open spec fn verified_as(log: Seq<LineView>, r: Result<VerifyReport>) -> bool {
    match r {
        Ok(v) => if v.valid {
            &&& sound_before(log, log.len() as int)
            &&& v.entries == entries(log).len()
            &&& v.first_bad is None
        } else {
            exists|k: int| #[trigger]
                sound_before(log, k) && breaks_at(log, k) && v.entries == entries(
                    log.take(k),
                ).len() && v.first_bad == Some((log[k]->Entry_0).seq)
        },
        Err(e) => exists|k: int| #[trigger]
            sound_before(log, k) && k < log.len() && match log[k] {
                LineView::Unreadable(x) => e@ == ErrorView::Io(x),
                LineView::Unparsable => e@ == ErrorView::Corrupt(unparsable_text((k + 1) as nat)),
                _ => false,
            },
    }
}

/// The error of the unreadable line `i`.
fn take_unreadable(lines: Vec<LogLine>, i: usize) -> (r: Error)
    requires
        i < lines@.len(),
        lines@[i as int] is Unreadable,
    ensures
        r@ == ErrorView::Io(lines@[i as int]->Unreadable_0),
{
    let mut rest = lines;
    match rest.swap_remove(i) {
        LogLine::Unreadable(e) => Error::Io(e),
        LogLine::Text(_, _) => Error::NotInitialized,
    }
}

/// Recompute the chain from the first line. Detects edits, deletes and
/// reordering; truncation of the tail only if the file was replaced
/// wholesale: a chain that is internally valid but *shorter* than the
/// last-seen state cannot be distinguished from a fresh log without an
/// external anchor.
pub fn verify(lines: Vec<LogLine>) -> (r: Result<VerifyReport>)
    ensures
        verified_as(log_view(lines@), r),
{
    let mut count: u64 = 0;
    let mut prev: String = String::new();
    let ghost log = log_view(lines@);
    let n: usize = lines.len();
    let mut i: usize = 0;
    assert(log.take(0) =~= Seq::empty());
    while i < n
        invariant
            i <= n,
            n == lines@.len(),
            log == log_view(lines@),
            sound_before(log, i as int),
            count == entries(log.take(i as int)).len(),
            count <= i,
            prev@ == chain_tip(entries(log.take(i as int))),
        decreases n - i,
    {
        let ghost es = entries(log.take(i as int));
        proof {
            lemma_log_take(lines@, i as int);
            lemma_entries_push(log.take(i as int), log[i as int]);
        }
        match &lines[i] {
            LogLine::Unreadable(_) => {
                return Err(take_unreadable(lines, i));
            },
            LogLine::Text(t, entry) => {
                if !is_blank(t.as_str()) {
                    match entry {
                        None => {
                            return Err(unparsable(i as u64 + 1));
                        },
                        Some(e) => {
                            let expected = entry_hash(
                                e.seq,
                                e.ts,
                                e.event.as_str(),
                                e.detail.as_str(),
                                prev.as_str(),
                            );
                            if e.seq != count || !text_eq(e.prev.as_str(), prev.as_str())
                                || !text_eq(e.hash.as_str(), expected.as_str()) {
                                assert(breaks_at(log, i as int));
                                return Ok(
                                    VerifyReport {
                                        entries: count,
                                        valid: false,
                                        first_bad: Some(e.seq),
                                    },
                                );
                            }
                            proof {
                                lemma_chained_push(es, e@);
                            }
                            prev = e.hash.clone();
                            count = count + 1;
                        },
                    }
                }
            },
        }
        i = i + 1;
    }
    assert(log.take(i as int) =~= log);
    Ok(VerifyReport { entries: count, valid: true, first_bad: None })
}

/// Current (entries, tip hash) of the audit log, the state an anchor
/// records. Strict: a non-empty unparseable line is an error, not a
/// skip: an anchor must never checkpoint a corrupt log.
pub fn tip(lines: Vec<LogLine>) -> (r: Result<(u64, String)>)
    ensures
        ({
            let log = log_view(lines@);
            match r {
                Ok(t) => {
                    &&& forall|j: int| 0 <= j < log.len() ==> well_read(#[trigger] log[j])
                    &&& t.0 == next_seq(entries(log))
                    &&& t.1@ == chain_tip(entries(log))
                },
                Err(e) => exists|k: int|
                    0 <= k < log.len() && (forall|j: int|
                        0 <= j < k ==> well_read(#[trigger] log[j])) && match #[trigger] log[k] {
                        LineView::Unreadable(x) => e@ == ErrorView::Io(x),
                        LineView::Unparsable => e@ == ErrorView::Corrupt(
                            unparsable_text((k + 1) as nat),
                        ),
                        _ => false,
                    },
            }
        }),
{
    let mut count: u64 = 0;
    let mut last: String = String::new();
    let ghost log = log_view(lines@);
    let n: usize = lines.len();
    let mut i: usize = 0;
    assert(log.take(0) =~= Seq::empty());
    while i < n
        invariant
            i <= n,
            n == lines@.len(),
            log == log_view(lines@),
            forall|j: int| 0 <= j < i ==> well_read(#[trigger] log[j]),
            count == next_seq(entries(log.take(i as int))),
            last@ == chain_tip(entries(log.take(i as int))),
        decreases n - i,
    {
        proof {
            lemma_log_take(lines@, i as int);
            lemma_entries_push(log.take(i as int), log[i as int]);
        }
        match &lines[i] {
            LogLine::Unreadable(_) => {
                return Err(take_unreadable(lines, i));
            },
            LogLine::Text(t, entry) => {
                if !is_blank(t.as_str()) {
                    match entry {
                        None => {
                            return Err(unparsable(i as u64 + 1));
                        },
                        Some(e) => {
                            count = e.seq.wrapping_add(1);
                            last = e.hash.clone();
                        },
                    }
                }
            },
        }
        i = i + 1;
    }
    assert(log.take(i as int) =~= log);
    Ok((count, last))
}

/// Whether the line at `k` lies inside the first `len` entries and keeps
/// their chain, or is blank.
pub open spec fn covered(log: Seq<LineView>, len: u64, k: int) -> bool {
    let es = entries(log.take(k));
    match log[k] {
        LineView::Blank => true,
        LineView::Entry(e) => es.len() < len && follows(e, es.len() as int, chain_tip(es)),
        _ => false,
    }
}

/// Where the check of the first `len` entries ends: at the first line that is
/// not covered.
pub open spec fn coverage_ends(log: Seq<LineView>, len: u64, k: int) -> bool {
    &&& 0 <= k <= log.len()
    &&& forall|j: int| 0 <= j < k ==> #[trigger] covered(log, len, j)
    &&& k < log.len() ==> !covered(log, len, k)
}

/// The messages of a log that no longer holds what an anchor recorded.
pub open spec fn missing_text() -> Seq<char> {
    "audit log missing since anchor"@
}

pub open spec fn broken_text(seq: nat) -> Seq<char> {
    "audit chain broken inside anchored region at seq "@ + dec(seq)
}

pub open spec fn truncated_text(len: nat, present: nat) -> Seq<char> {
    "audit log truncated: anchor covers "@ + dec(len) + " entries, only "@ + dec(present)
        + " present"@
}

pub open spec fn diverged_text() -> Seq<char> {
    "audit tip diverged from anchor \u{2014} covered history was altered"@
}

/// What checking the first `len` entries gives when the check ends at `k`.
pub open spec fn prefix_outcome(
    log: Seq<LineView>,
    len: u64,
    tip: Seq<char>,
    k: int,
    r: Result<()>,
) -> bool {
    let es = entries(log.take(k));
    if k < log.len() && log[k] is Unreadable {
        r is Err && r->Err_0@ == ErrorView::Io(log[k]->Unreadable_0)
    } else if es.len() >= len {
        if chain_tip(es) == tip {
            r is Ok
        } else {
            r is Err && r->Err_0@ == ErrorView::Corrupt(diverged_text())
        }
    } else if k == log.len() {
        r is Err && r->Err_0@ == ErrorView::Corrupt(truncated_text(len as nat, es.len()))
    } else if log[k] is Entry {
        r is Err && r->Err_0@ == ErrorView::Corrupt(broken_text((log[k]->Entry_0).seq as nat))
    } else {
        r is Err && r->Err_0@ == ErrorView::Corrupt(unparsable_text(es.len() + 1))
    }
}

/// What checking the first `len` entries of a log against `tip` gives.
pub open spec fn prefix_checked(
    log: Seq<LineView>,
    len: u64,
    tip: Seq<char>,
    r: Result<()>,
) -> bool {
    exists|k: int| #[trigger] coverage_ends(log, len, k) && prefix_outcome(log, len, tip, k, r)
}

/// What checking the first `len` entries of a log that may be missing gives.
pub open spec fn prefix_result(
    lines: Option<Vec<LogLine>>,
    len: u64,
    tip: Seq<char>,
    r: Result<()>,
) -> bool {
    if len == 0 {
        // The anchor covers no entries: nothing to check; HEAD and
        // fabric_id carry the verifiable content.
        r is Ok
    } else {
        match lines {
            None => r is Err && r->Err_0@ == ErrorView::Corrupt(missing_text()),
            Some(v) => prefix_checked(log_view(v@), len, tip, r),
        }
    }
}

/// Confirm that the first `len` entries of the live log still hash to
/// `expected_tip`, i.e. the state an anchor recorded is a genuine
/// prefix of what is on disk now. Entries *added after* the anchor are
/// legal (work continued); a log shorter than `len`, a broken chain
/// inside the covered region, or a mismatched tip means the covered
/// history was altered. `lines` is `None` where there is no log.
pub fn tip_is_prefix(lines: Option<Vec<LogLine>>, len: u64, expected_tip: &str) -> (r: Result<()>)
    ensures
        prefix_result(lines, len, expected_tip@, r),
{
    if len == 0 {
        return Ok(());
    }
    let given = match lines {
        None => {
            return Err(corrupt("audit log missing since anchor"));
        },
        Some(v) => v,
    };
    let ghost log = log_view(given@);
    let mut prev: String = String::new();
    let mut seq: u64 = 0;
    let n: usize = given.len();
    let mut i: usize = 0;
    let mut inside: bool = true;
    assert(log.take(0) =~= Seq::empty());
    while i < n && inside
        invariant
            i <= n,
            n == given@.len(),
            len > 0,
            lines == Some(given),
            log == log_view(given@),
            forall|j: int| 0 <= j < i ==> #[trigger] covered(log, len, j),
            seq == entries(log.take(i as int)).len(),
            seq <= i,
            prev@ == chain_tip(entries(log.take(i as int))),
            !inside ==> i < n && !covered(log, len, i as int) && !(log[i as int] is Unreadable)
                && seq >= len,
        decreases n - i + if inside { 1int } else { 0int },
    {
        proof {
            lemma_log_take(given@, i as int);
            lemma_entries_push(log.take(i as int), log[i as int]);
        }
        match &given[i] {
            LogLine::Unreadable(_) => {
                let r: Result<()> = Err(take_unreadable(given, i));
                assert(coverage_ends(log, len, i as int));
                assert(prefix_checked(log, len, expected_tip@, r));
                return r;
            },
            LogLine::Text(t, entry) => {
                if is_blank(t.as_str()) {
                    assert(covered(log, len, i as int));
                    i = i + 1;
                } else if seq >= len {
                    // Covered region verified: the tail is post-anchor work.
                    inside = false;
                } else {
                    match entry {
                        None => {
                            let r: Result<()> = Err(unparsable(seq + 1));
                            assert(coverage_ends(log, len, i as int));
                            assert(prefix_checked(log, len, expected_tip@, r));
                            return r;
                        },
                        Some(e) => {
                            let expected = entry_hash(
                                e.seq,
                                e.ts,
                                e.event.as_str(),
                                e.detail.as_str(),
                                prev.as_str(),
                            );
                            if e.seq != seq || !text_eq(e.prev.as_str(), prev.as_str())
                                || !text_eq(e.hash.as_str(), expected.as_str()) {
                                let mut m: String = String::from_str(
                                    "audit chain broken inside anchored region at seq ",
                                );
                                push_dec(&mut m, e.seq);
                                let r: Result<()> = Err(Error::Corrupt(m));
                                assert(coverage_ends(log, len, i as int));
                                assert(prefix_checked(log, len, expected_tip@, r));
                                return r;
                            }
                            assert(covered(log, len, i as int));
                            prev = e.hash.clone();
                            seq = seq + 1;
                            i = i + 1;
                        },
                    }
                }
            },
        }
    }
    assert(coverage_ends(log, len, i as int));
    if seq < len {
        let mut m: String = String::from_str("audit log truncated: anchor covers ");
        push_dec(&mut m, len);
        m.append(" entries, only ");
        push_dec(&mut m, seq);
        m.append(" present");
        return Err(Error::Corrupt(m));
    }
    if !text_eq(prev.as_str(), expected_tip) {
        return Err(
            corrupt("audit tip diverged from anchor \u{2014} covered history was altered"),
        );
    }
    Ok(())
}

/// Appending a recorded event to a chain gives a chain.
pub proof fn recording_keeps_the_chain(es: Seq<EntryView>, e: EntryView)
    requires
        chained(es),
        e.seq == next_seq(es),
        e.prev == chain_tip(es),
        e.hash == entry_hash_of(e, e.prev),
        es.len() < u64::MAX,
    ensures
        chained(es.push(e)),
{
    if es.len() > 0 {
        assert(follows(es[es.len() - 1], es.len() - 1, tip_before(es, es.len() - 1)));
    }
    lemma_chained_push(es, e);
}

/// A chain of `n` entries, read back, has the number `n` and the last hash as
/// its tip: `tip` gives what the chain holds.
pub proof fn chain_numbers_its_entries(es: Seq<EntryView>)
    requires
        chained(es),
        es.len() < u64::MAX,
    ensures
        next_seq(es) == es.len(),
{
    if es.len() > 0 {
        assert(follows(es[es.len() - 1], es.len() - 1, tip_before(es, es.len() - 1)));
    }
}

/// Two hash inputs that BLAKE3 cannot tell apart.
pub open spec fn collide(x: Seq<u8>, y: Seq<u8>) -> bool {
    x != y && blake3_hash(x) == blake3_hash(y)
}

/// The bytes that the hash of the entry at `i` covers.
pub open spec fn hashed_bytes(es: Seq<EntryView>, i: int) -> Seq<u8> {
    encode_utf8(entry_body(es[i], tip_before(es, i)))
}

/// Two entries with one hash that follow the same number of entries are equal
/// and follow the same hash, or collide.
proof fn lemma_one_hash(a: EntryView, b: EntryView, n: int, pa: Seq<char>, pb: Seq<char>)
    requires
        follows(a, n, pa),
        follows(b, n, pb),
        a.hash == b.hash,
    ensures
        (a == b && pa == pb) || collide(
            encode_utf8(entry_body(a, pa)),
            encode_utf8(entry_body(b, pb)),
        ),
{
    let x = encode_utf8(entry_body(a, pa));
    let y = encode_utf8(entry_body(b, pb));
    hash_text_injective(blake3_hash(x), blake3_hash(y));
    if x == y {
        lemma_encoding_injective(entry_body(a, pa), entry_body(b, pb));
        json_tuple_injective(
            a.seq as nat,
            a.ts as nat,
            a.event,
            a.detail,
            pa,
            b.seq as nat,
            b.ts as nat,
            b.event,
            b.detail,
            pb,
        );
    }
}

proof fn lemma_chained_drop_last(es: Seq<EntryView>)
    requires
        chained(es),
        es.len() > 0,
    ensures
        chained(es.drop_last()),
        chain_tip(es.drop_last()) == tip_before(es, es.len() - 1),
{
    let fs = es.drop_last();
    assert forall|i: int| 0 <= i < fs.len() implies follows(#[trigger] fs[i], i, tip_before(fs, i)) by {
        assert(follows(es[i], i, tip_before(es, i)));
    }
}

/// Two chains of one length with one tip are the same chain, unless two of
/// their entries collide under BLAKE3. So a log whose first `n` entries chain
/// to a recorded tip holds the entries that were recorded: none was edited,
/// removed, inserted or moved.
pub proof fn tip_fixes_the_chain(a: Seq<EntryView>, b: Seq<EntryView>)
    requires
        chained(a),
        chained(b),
        a.len() == b.len(),
        chain_tip(a) == chain_tip(b),
    ensures
        a == b || exists|i: int|
            0 <= i < a.len() && #[trigger] collide(hashed_bytes(a, i), hashed_bytes(b, i)),
    decreases a.len(),
{
    if a.len() == 0 {
        assert(a =~= b);
    } else {
        let n = a.len() - 1;
        assert(follows(a[n], n, tip_before(a, n)));
        assert(follows(b[n], n, tip_before(b, n)));
        lemma_one_hash(a[n], b[n], n, tip_before(a, n), tip_before(b, n));
        if collide(hashed_bytes(a, n), hashed_bytes(b, n)) {
        } else {
            let ra = a.drop_last();
            let rb = b.drop_last();
            lemma_chained_drop_last(a);
            lemma_chained_drop_last(b);
            tip_fixes_the_chain(ra, rb);
            if ra == rb {
                assert(a =~= ra.push(a[n]));
                assert(b =~= rb.push(b[n]));
            } else {
                let i = choose|i: int|
                    0 <= i < ra.len() && #[trigger] collide(
                        hashed_bytes(ra, i),
                        hashed_bytes(rb, i),
                    );
                assert(hashed_bytes(ra, i) == hashed_bytes(a, i));
                assert(hashed_bytes(rb, i) == hashed_bytes(b, i));
                assert(collide(hashed_bytes(a, i), hashed_bytes(b, i)));
            }
        }
    }
}

/// A chain with an entry taken out of its middle is no chain.
pub proof fn deletion_breaks_the_chain(es: Seq<EntryView>, i: int)
    requires
        chained(es),
        0 <= i < es.len() - 1,
    ensures
        !chained(es.remove(i)),
{
    let fs = es.remove(i);
    assert(fs[i] == es[i + 1]);
    assert(follows(es[i + 1], i + 1, tip_before(es, i + 1)));
    if chained(fs) {
        assert(follows(fs[i], i, tip_before(fs, i)));
    }
}

/// A chain with two entries exchanged is no chain.
pub proof fn reordering_breaks_the_chain(es: Seq<EntryView>, i: int, j: int)
    requires
        chained(es),
        0 <= i < j < es.len(),
    ensures
        !chained(es.update(i, es[j]).update(j, es[i])),
{
    let fs = es.update(i, es[j]).update(j, es[i]);
    assert(fs[i] == es[j]);
    assert(follows(es[j], j, tip_before(es, j)));
    if chained(fs) {
        assert(follows(fs[i], i, tip_before(fs, i)));
    }
}

/// A chain with one entry edited is no chain, unless the edited entry is the
/// last one with its hash recomputed, or it collides with the original under
/// BLAKE3.
pub proof fn edit_breaks_the_chain(es: Seq<EntryView>, i: int, e: EntryView)
    requires
        chained(es),
        0 <= i < es.len(),
        e != es[i],
        i < es.len() - 1 || e.hash == es[i].hash,
        chained(es.update(i, e)),
    ensures
        collide(hashed_bytes(es, i), hashed_bytes(es.update(i, e), i)),
{
    let fs = es.update(i, e);
    assert(follows(es[i], i, tip_before(es, i)));
    assert(follows(fs[i], i, tip_before(fs, i)));
    assert(tip_before(fs, i) == tip_before(es, i));
    if i < es.len() - 1 {
        assert(follows(es[i + 1], i + 1, tip_before(es, i + 1)));
        assert(follows(fs[i + 1], i + 1, tip_before(fs, i + 1)));
    }
    lemma_one_hash(es[i], fs[i], i, tip_before(es, i), tip_before(fs, i));
}

/// The entries of the first `k` lines come first among the entries of all.
proof fn lemma_entries_prefix(log: Seq<LineView>, k: int)
    requires
        0 <= k <= log.len(),
    ensures
        entries(log.take(k)).is_prefix_of(entries(log)),
    decreases log.len() - k,
{
    if k == log.len() {
        assert(log.take(k) =~= log);
    } else {
        assert(log.take(k + 1).drop_last() =~= log.take(k));
        lemma_entries_prefix(log, k + 1);
        let a = entries(log.take(k));
        let b = entries(log.take(k + 1));
        assert(a.is_prefix_of(b));
        let c = entries(log);
        assert(a =~= c.take(a.len() as int)) by {
            assert(b =~= c.take(b.len() as int));
            assert(a =~= b.take(a.len() as int));
        }
    }
}

/// The entries that a check covers form a chain of at most `len` entries.
proof fn lemma_covered(log: Seq<LineView>, len: u64, k: int)
    requires
        0 <= k <= log.len(),
        forall|j: int| 0 <= j < k ==> #[trigger] covered(log, len, j),
    ensures
        chained(entries(log.take(k))),
        entries(log.take(k)).len() <= len,
    decreases k,
{
    if k == 0 {
        assert(log.take(0) =~= Seq::empty());
    } else {
        lemma_covered(log, len, k - 1);
        assert(covered(log, len, k - 1));
        assert(log.take(k).drop_last() =~= log.take(k - 1));
        if log[k - 1] is Entry {
            lemma_chained_push(entries(log.take(k - 1)), log[k - 1]->Entry_0);
        }
    }
}

/// Where the check against a recorded chain succeeds, the log still begins
/// with the recorded entries, unless an entry of the log collides with a
/// recorded one under BLAKE3. Truncation, splicing and wholesale replacement
/// are caught.
pub proof fn anchored_prefix_is_intact(
    log: Seq<LineView>,
    len: u64,
    recorded: Seq<EntryView>,
    r: Result<()>,
)
    requires
        len > 0,
        recorded.len() == len,
        chained(recorded),
        prefix_checked(log, len, chain_tip(recorded), r),
        r is Ok,
    ensures
        recorded.is_prefix_of(entries(log)) || exists|i: int|
            0 <= i < len && i < entries(log).len() && #[trigger] collide(
                hashed_bytes(recorded, i),
                hashed_bytes(entries(log), i),
            ),
{
    let k = choose|k: int| #[trigger]
        coverage_ends(log, len, k) && prefix_outcome(log, len, chain_tip(recorded), k, r);
    let es = entries(log.take(k));
    lemma_covered(log, len, k);
    lemma_entries_prefix(log, k);
    assert(es.len() == len);
    tip_fixes_the_chain(recorded, es);
    let all = entries(log);
    if es != recorded {
        let i = choose|i: int|
            0 <= i < recorded.len() && #[trigger] collide(
                hashed_bytes(recorded, i),
                hashed_bytes(es, i),
            );
        assert(es =~= all.take(es.len() as int));
        assert(es[i] == all[i]);
        assert(tip_before(es, i) == tip_before(all, i)) by {
            if i > 0 {
                assert(es[i - 1] == all[i - 1]);
            }
        }
        assert(hashed_bytes(es, i) == hashed_bytes(all, i));
        assert(collide(hashed_bytes(recorded, i), hashed_bytes(all, i)));
    }
}

/// Work that continues after an anchor is legal: a log that begins with the
/// recorded entries passes the check, whatever entries follow.
pub proof fn growth_is_legal(
    log: Seq<LineView>,
    len: u64,
    recorded: Seq<EntryView>,
    r: Result<()>,
)
    requires
        len > 0,
        recorded.len() == len,
        chained(recorded),
        recorded.is_prefix_of(entries(log)),
        forall|j: int| 0 <= j < log.len() ==> well_read(#[trigger] log[j]),
        prefix_checked(log, len, chain_tip(recorded), r),
    ensures
        r is Ok,
{
    let k = choose|k: int| #[trigger]
        coverage_ends(log, len, k) && prefix_outcome(log, len, chain_tip(recorded), k, r);
    let es = entries(log.take(k));
    let all = entries(log);
    lemma_covered(log, len, k);
    lemma_entries_prefix(log, k);
    assert(es =~= all.take(es.len() as int));
    assert(recorded =~= all.take(len as int));
    if es.len() < len {
        let n = es.len() as int;
        if k == log.len() {
            assert(log.take(k) =~= log);
            assert(false);
        }
        assert(well_read(log[k]));
        let e = log[k]->Entry_0;
        assert(log.take(k + 1).drop_last() =~= log.take(k));
        lemma_entries_prefix(log, k + 1);
        let more = entries(log.take(k + 1));
        assert(more == es.push(e));
        assert(more =~= all.take(more.len() as int));
        assert(all[n] == more[n]);
        assert(recorded[n] == all[n]);
        assert(follows(recorded[n], n, tip_before(recorded, n)));
        assert(tip_before(recorded, n) == chain_tip(es)) by {
            if n > 0 {
                assert(recorded[n - 1] == all[n - 1]);
                assert(es[n - 1] == all[n - 1]);
            }
        }
        assert(covered(log, len, k));
        assert(false);
    }
    assert(es =~= recorded);
}

proof fn lemma_readable_all(log: Seq<LineView>)
    requires
        forall|j: int| 0 <= j < log.len() ==> well_read(#[trigger] log[j]),
    ensures
        readable(log) == log,
{
    assert forall|j: int| 0 <= j < log.len() implies !(#[trigger] log[j] is Unreadable) by {
        assert(well_read(log[j]));
    }
    lemma_readable(log, log.len() as int);
    assert(log.take(log.len() as int) =~= log);
}

/// Recording an event to a sound log gives a sound log, in which the event is
/// the last entry and its hash the tip.
pub proof fn recording_keeps_the_log_sound(log: Seq<LineView>, e: EntryView)
    requires
        sound_before(log, log.len() as int),
        entries(log).len() < u64::MAX,
        e.seq == next_seq(entries(readable(log))),
        e.prev == chain_tip(entries(readable(log))),
        e.hash == entry_hash_of(e, e.prev),
    ensures
        sound_before(log.push(LineView::Entry(e)), log.len() as int + 1),
        entries(log.push(LineView::Entry(e))) == entries(log).push(e),
        chain_tip(entries(log.push(LineView::Entry(e)))) == e.hash,
{
    let more = log.push(LineView::Entry(e));
    lemma_readable_all(log);
    assert(log.take(log.len() as int) =~= log);
    assert(more.take(more.len() as int) =~= more);
    lemma_entries_push(log, LineView::Entry(e));
    recording_keeps_the_chain(entries(log), e);
    assert forall|j: int| 0 <= j < more.len() implies well_read(#[trigger] more[j]) by {
        if j < log.len() {
            assert(well_read(log[j]));
        }
    }
}

/// The entries of a log are its lines that parse, all of them and in order.
pub proof fn entries_are_the_lines_that_parse(log: Seq<LineView>)
    ensures
        entries(log) == log.filter(|l: LineView| l is Entry).map_values(
            |l: LineView| l->Entry_0,
        ),
    decreases log.len(),
{
    reveal(Seq::filter);
    let f = |l: LineView| l->Entry_0;
    let all = log.filter(|l: LineView| l is Entry);
    if log.len() > 0 {
        let rest = log.drop_last();
        entries_are_the_lines_that_parse(rest);
        let had = rest.filter(|l: LineView| l is Entry);
        if log.last() is Entry {
            assert(all =~= had.push(log.last()));
            assert(all.map_values(f) =~= had.map_values(f).push(f(log.last())));
        }
    } else {
        assert(entries(log) =~= all.map_values(f));
    }
}

/// What a line amounts to: a text of whitespace is blank, any other is the
/// entry it parses to, or none.
pub proof fn lines_are_blank_entries_or_neither(t: String, e: Option<AuditEntry>)
    ensures
        LogLine::Text(t, e)@ is Blank <==> forall|i: int| 0 <= i < t@.len() ==> is_white(
            #[trigger] t@[i],
        ),
        LogLine::Text(t, e)@ is Blank || LogLine::Text(t, e)@ == match e {
            Some(x) => LineView::Entry(
                EntryView {
                    seq: x.seq,
                    ts: x.ts,
                    event: x.event@,
                    detail: x.detail@,
                    prev: x.prev@,
                    hash: x.hash@,
                },
            ),
            None => LineView::Unparsable,
        },
{
    let cut = trimming_cuts_whitespace_only(t@);
    assert(trim(t@).len() == cut.1 - cut.0);
    if trim(t@).len() == 0 {
        assert forall|i: int| 0 <= i < t@.len() implies is_white(#[trigger] t@[i]) by {
            if i < cut.0 {
            } else {
                assert(cut.1 <= i);
            }
        }
    }
}

/// When a log is declared valid: exactly where every line is blank or an entry,
/// and each entry has its place as its number, the hash of the one before it
/// as its link, none for the first, and as its own hash the BLAKE3 of its
/// number, time, event, detail and link. Where all lines read well and an
/// entry does not fit, the log is declared broken, at the first that does not.
pub proof fn audit_verdict_is_exact(log: Seq<LineView>, r: Result<VerifyReport>)
    requires
        verified_as(log, r),
    ensures
        ({
            let es = entries(log);
            let well = forall|j: int|
                0 <= j < log.len() ==> (#[trigger] log[j]) is Blank || log[j] is Entry;
            let fits = |i: int|
                {
                    &&& es[i].seq == i
                    &&& i == 0 ==> es[i].prev == Seq::<char>::empty()
                    &&& i > 0 ==> es[i].prev == es[i - 1].hash
                    &&& es[i].hash == hex_text(
                        blake3_hash(
                            encode_utf8(
                                json_tuple(
                                    es[i].seq as nat,
                                    es[i].ts as nat,
                                    es[i].event,
                                    es[i].detail,
                                    es[i].prev,
                                ),
                            ),
                        ),
                    )
                };
            &&& (r is Ok && r->Ok_0.valid) <==> well && forall|i: int|
                0 <= i < es.len() ==> #[trigger] fits(i)
            &&& r is Ok && r->Ok_0.valid ==> r->Ok_0.entries == es.len() && r->Ok_0.first_bad is None
            &&& well ==> r is Ok
            &&& r is Ok && !r->Ok_0.valid ==> exists|i: int|
                0 <= i < es.len() && !#[trigger] fits(i) && r->Ok_0.first_bad == Some(es[i].seq)
                    && r->Ok_0.entries == i && forall|j: int| 0 <= j < i ==> #[trigger] fits(j)
        }),
{
    let es = entries(log);
    let well = forall|j: int|
        0 <= j < log.len() ==> (#[trigger] log[j]) is Blank || log[j] is Entry;
    let fits = |i: int|
        {
            &&& es[i].seq == i
            &&& i == 0 ==> es[i].prev == Seq::<char>::empty()
            &&& i > 0 ==> es[i].prev == es[i - 1].hash
            &&& es[i].hash == hex_text(
                blake3_hash(
                    encode_utf8(
                        json_tuple(
                            es[i].seq as nat,
                            es[i].ts as nat,
                            es[i].event,
                            es[i].detail,
                            es[i].prev,
                        ),
                    ),
                ),
            )
        };
    assert forall|i: int| 0 <= i < es.len() implies (#[trigger] fits(i) <==> follows(
        es[i],
        i,
        tip_before(es, i),
    )) by {}
    match r {
        Ok(v) => {
            if v.valid {
                assert(log.take(log.len() as int) =~= log);
                assert forall|j: int| 0 <= j < log.len() implies (#[trigger] log[j]) is Blank
                    || log[j] is Entry by {
                    assert(well_read(log[j]));
                }
                assert forall|i: int| 0 <= i < es.len() implies #[trigger] fits(i) by {
                    assert(follows(es[i], i, tip_before(es, i)));
                }
            } else {
                let k = choose|k: int| #[trigger]
                    sound_before(log, k) && breaks_at(log, k) && v.entries == entries(
                        log.take(k),
                    ).len() && v.first_bad == Some((log[k]->Entry_0).seq);
                lemma_break_is_there(log, k);
                let fs = entries(log.take(k));
                let i = fs.len() as int;
                assert(!fits(i));
                assert forall|j: int| 0 <= j < i implies #[trigger] fits(j) by {
                    assert(follows(fs[j], j, tip_before(fs, j)));
                    assert(fs[j] == es[j]);
                    if j > 0 {
                        assert(fs[j - 1] == es[j - 1]);
                    }
                }
            }
        },
        Err(e) => {
            let k = choose|k: int| #[trigger]
                sound_before(log, k) && k < log.len() && match log[k] {
                    LineView::Unreadable(x) => e@ == ErrorView::Io(x),
                    LineView::Unparsable => e@ == ErrorView::Corrupt(
                        unparsable_text((k + 1) as nat),
                    ),
                    _ => false,
                };
            assert(!(log[k] is Blank) && !(log[k] is Entry));
        },
    }
}

proof fn lemma_break_is_there(log: Seq<LineView>, k: int)
    requires
        sound_before(log, k),
        breaks_at(log, k),
    ensures
        ({
            let fs = entries(log.take(k));
            let es = entries(log);
            let i = fs.len() as int;
            &&& i < es.len()
            &&& es[i] == log[k]->Entry_0
            &&& !follows(es[i], i, tip_before(es, i))
            &&& forall|j: int| 0 <= j < i ==> fs[j] == #[trigger] es[j]
        }),
{
    let fs = entries(log.take(k));
    let es = entries(log);
    let e = log[k]->Entry_0;
    let i = fs.len() as int;
    lemma_entries_prefix(log, k);
    lemma_entries_prefix(log, k + 1);
    assert(log.take(k + 1).drop_last() =~= log.take(k));
    let more = entries(log.take(k + 1));
    assert(more == fs.push(e));
    assert(more =~= es.take(more.len() as int));
    assert(fs =~= es.take(i));
    assert(more[i] == es[i]);
    assert forall|j: int| 0 <= j < i implies fs[j] == #[trigger] es[j] by {
        assert(es.take(i)[j] == es[j]);
    }
    if i > 0 {
        assert(fs[i - 1] == es[i - 1]);
    }
}

/// An anchor that covers entries fails where the log is gone, and one that
/// covers none passes, whatever the log.
pub proof fn missing_log_fails_the_anchor(
    lines: Option<Vec<LogLine>>,
    len: u64,
    tip: Seq<char>,
    r: Result<()>,
)
    requires
        prefix_result(lines, len, tip, r),
    ensures
        lines is None && len > 0 ==> r is Err,
        len == 0 ==> r is Ok,
{
}

/// A log with fewer entries than an anchor covers fails it.
pub proof fn truncated_log_fails_the_anchor(
    log: Seq<LineView>,
    len: u64,
    tip: Seq<char>,
    r: Result<()>,
)
    requires
        prefix_checked(log, len, tip, r),
        entries(log).len() < len,
    ensures
        r is Err,
{
    let k = choose|k: int| #[trigger]
        coverage_ends(log, len, k) && prefix_outcome(log, len, tip, k, r);
    lemma_entries_prefix(log, k);
}

/// What is recorded follows the log that can be read: its number is one more
/// than the last entry's, zero where there is none or the numbers are used up,
/// and its link is the last entry's hash.
pub proof fn numbers_go_up_by_one(es: Seq<EntryView>, e: EntryView)
    ensures
        next_seq(Seq::empty()) == 0,
        chain_tip(Seq::empty()) == Seq::<char>::empty(),
        e.seq < u64::MAX ==> next_seq(es.push(e)) == e.seq + 1,
        e.seq == u64::MAX ==> next_seq(es.push(e)) == 0,
        chain_tip(es.push(e)) == e.hash,
{
}

/// The part of a log that can be read ends before the first line that cannot.
pub proof fn reading_stops_at_the_first_unreadable_line(log: Seq<LineView>, k: int)
    requires
        0 <= k <= log.len(),
        forall|j: int| 0 <= j < k ==> !((#[trigger] log[j]) is Unreadable),
        k < log.len() ==> log[k] is Unreadable,
    ensures
        readable(log) == log.take(k),
    decreases log.len(),
{
    if k == 0 {
        assert(log.take(0) =~= readable(log));
    } else {
        let rest = log.drop_first();
        assert forall|j: int| 0 <= j < k - 1 implies !((#[trigger] rest[j]) is Unreadable) by {
            assert(rest[j] == log[j + 1]);
        }
        if k < log.len() {
            assert(rest[k - 1] == log[k]);
        }
        reading_stops_at_the_first_unreadable_line(rest, k - 1);
        assert(!(log[0] is Unreadable));
        assert(seq![log[0]] + rest.take(k - 1) =~= log.take(k));
    }
}

} // verus!
