//! `respawn anchor schedule`: a launchd LaunchAgent that mints
//! chained anchors on an interval, shrinking the unverifiable tail of
//! the audit log to the interval itself.
//!
//! The agent runs `respawn anchor next <dir>` with the worktree as its
//! WorkingDirectory, so it anchors exactly the fabric it was installed
//! for. Plist generation is pure and cross-platform (it is just XML);
//! install/uninstall are launchd operations and macOS-only.

use vstd::prelude::*;
use vstd::string::*;
use vstd::utf8::*;
use crate::anchor::leads_inside;
use crate::anchor::leads_under;
use crate::digest::hex_text;
use crate::digest::lemma_hex_chars;
use crate::digest::lemma_hex_text_bytes;
use crate::error::Error;
use crate::error::ErrorView;
use crate::error::Result;
use crate::error::corrupt;
use crate::paths::join;
use crate::paths::join_text;
use crate::text::chars_of;
use crate::text::dec;
use crate::text::occurs;
use crate::text::push_dec;
use crate::text::stands_at;
use crate::text::strs;
use crate::text::trim;
use crate::text::trimmed;

verus! {

/// Floor on StartInterval: anchoring more often than once a minute is
/// churn, not coverage.
pub const MIN_INTERVAL_SECS: u64 = 60;

/// Everything install needs, resolved and validated up front: the
/// plist is generated only from checked values.
pub struct ScheduleSpec {
    /// LaunchAgent label: com.respawn.anchor.<fabric-id prefix>.
    pub label: String,
    /// Absolute path to the respawn binary that will run.
    pub exe: String,
    /// Worktree root, the agent's WorkingDirectory.
    pub worktree: String,
    /// Directory the timestamped anchors land in.
    pub anchor_dir: String,
    /// StartInterval seconds.
    pub every: u64,
    /// stdout/stderr target for the agent.
    pub log: String,
    /// ~/Library/LaunchAgents/<label>.plist
    pub plist_path: String,
}

/// The message where the home directory is not known.
pub open spec fn no_home_text() -> Seq<char> {
    "HOME is not set \u{2014} cannot locate LaunchAgents"@
}

/// The home directory, from the value of HOME.
fn home_dir(home: Option<&str>) -> (r: Result<&str>)
    ensures
        match home {
            Some(h) => r is Ok && r->Ok_0@ == h@,
            None => r is Err && r->Err_0@ == ErrorView::Corrupt(no_home_text()),
        },
{
    match home {
        Some(h) => Ok(h),
        None => Err(corrupt("HOME is not set \u{2014} cannot locate LaunchAgents")),
    }
}

/// Where launchd looks for a user's agents.
pub fn launch_agents_dir(home: Option<&str>) -> (r: Result<String>)
    ensures
        match home {
            Some(h) => r is Ok && r->Ok_0@ == join_text(h@, "Library/LaunchAgents"@),
            None => r is Err && r->Err_0@ == ErrorView::Corrupt(no_home_text()),
        },
{
    match home_dir(home) {
        Ok(h) => Ok(join(h, "Library/LaunchAgents")),
        Err(e) => Err(e),
    }
}

/// How many bytes of a fabric id name the fabric.
pub open spec fn id_bytes(id: Seq<char>) -> int {
    let n = encode_utf8(id).len() as int;
    if n < 12 {
        n
    } else {
        12
    }
}

/// Whether a fabric id can be shortened: its twelfth byte ends a character.
pub open spec fn can_shorten(id: Seq<char>) -> bool {
    is_char_boundary(encode_utf8(id), id_bytes(id))
}

/// The beginning of a fabric id: its first twelve bytes.
pub open spec fn short_id(id: Seq<char>) -> Seq<char> {
    decode_utf8(encode_utf8(id).subrange(0, id_bytes(id)))
}

/// The beginning of a fabric id.
pub fn shorten(id: &str) -> (r: String)
    requires
        can_shorten(id@),
    ensures
        r@ == short_id(id@),
{
    let n: usize = id.as_bytes().len();
    let k: usize = if n < 12 {
        n
    } else {
        12
    };
    let (a, _) = id.split_at(k);
    proof {
        encode_utf8_decode_utf8(a@);
    }
    a.to_owned()
}

/// The default anchor directory of a fabric under a home directory.
pub open spec fn default_dir_text(home: Seq<char>, macos: bool, id: Seq<char>) -> Seq<char> {
    join_text(
        if macos {
            join_text(home, "Library/Application Support/respawn/anchors"@)
        } else {
            join_text(home, ".respawn-anchors"@)
        },
        short_id(id),
    )
}

/// Default anchor directory: outside every fabric, per-fabric, and in
/// the macOS-idiomatic Application Support location (a dotdir
/// elsewhere). `anchor next` uses the same default so manual and
/// scheduled runs share a chain.
pub fn default_anchor_dir(home: Option<&str>, macos: bool, fabric_id: &str) -> (r: Result<String>)
    requires
        can_shorten(fabric_id@),
    ensures
        match home {
            Some(h) => r is Ok && r->Ok_0@ == default_dir_text(h@, macos, fabric_id@),
            None => r is Err && r->Err_0@ == ErrorView::Corrupt(no_home_text()),
        },
{
    let h = match home_dir(home) {
        Ok(h) => h,
        Err(e) => {
            return Err(e);
        },
    };
    let base = if macos {
        join(h, "Library/Application Support/respawn/anchors")
    } else {
        join(h, ".respawn-anchors")
    };
    Ok(join(base.as_str(), shorten(fabric_id).as_str()))
}

/// The label of a fabric's agent.
pub open spec fn label_text(id: Seq<char>) -> Seq<char> {
    "com.respawn.anchor."@ + short_id(id)
}

/// The label of a fabric's agent.
pub fn label(fabric_id: &str) -> (r: String)
    requires
        can_shorten(fabric_id@),
    ensures
        r@ == label_text(fabric_id@),
{
    String::from_str("com.respawn.anchor.").concat(shorten(fabric_id).as_str())
}

/// Where the plist of a fabric's agent lies.
pub open spec fn plist_text(home: Seq<char>, id: Seq<char>) -> Seq<char> {
    join_text(join_text(home, "Library/LaunchAgents"@), label_text(id) + ".plist"@)
}

/// What is known about the system when an agent is planned.
pub struct Surroundings<'a> {
    /// Whether the anchor key loads.
    pub key_loads: bool,
    /// The value of HOME.
    pub home: Option<&'a str>,
    pub macos: bool,
    /// Where the anchor directory lies, which may not exist yet: the canonical
    /// form of the nearest directory along its path that does, and what the
    /// path says behind that.
    pub base: &'a str,
    pub rest: &'a str,
    /// The canonical place of the fabric.
    pub fabric: &'a str,
    /// The path of the running binary, and whether it is there.
    pub exe: &'a str,
    pub exe_exists: bool,
}

/// What is wrong with a plan, where something is.
pub open spec fn plan_fault(every: u64, s: Surroundings) -> Option<Seq<char>> {
    if every < MIN_INTERVAL_SECS {
        Some("--every must be >= "@ + dec(MIN_INTERVAL_SECS as nat) + "s"@)
    } else if !s.key_loads {
        Some("no anchor key \u{2014} run `respawn anchor keygen` first"@)
    } else if s.home is None {
        Some(no_home_text())
    } else if leads_under(s.base@, s.rest@, s.fabric@) {
        Some("anchor dir must live outside .respawn/"@)
    } else if !s.exe_exists {
        Some("respawn binary not found at "@ + s.exe@)
    } else {
        None
    }
}

/// The directory that a plan's anchors land in: the given one, or the default
/// one. The place to check is that of this directory.
pub fn planned_dir(dir: Option<&str>, s: &Surroundings, fabric_id: &str) -> (r: Result<String>)
    requires
        can_shorten(fabric_id@),
    ensures
        match s.home {
            None => r is Err && r->Err_0@ == ErrorView::Corrupt(no_home_text()),
            Some(h) => r is Ok && r->Ok_0@ == match dir {
                Some(d) => d@,
                None => default_dir_text(h@, s.macos, fabric_id@),
            },
        },
{
    // The default is worked out even where a directory is given: an agent
    // cannot be installed without a home directory either way.
    match default_anchor_dir(s.home, s.macos, fabric_id) {
        Err(e) => Err(e),
        Ok(d) => Ok(
            match dir {
                Some(given) => given.to_owned(),
                None => d,
            },
        ),
    }
}

/// Resolve and validate a schedule install: real fabric, loadable
/// anchor key (an agent without one just fails every interval), sane
/// interval, anchor dir outside the fabric, executable binary.
pub fn plan(
    worktree: &str,
    dir: Option<&str>,
    every: u64,
    fabric_id: &str,
    s: &Surroundings,
) -> (r: Result<ScheduleSpec>)
    requires
        can_shorten(fabric_id@),
    ensures
        match plan_fault(every, *s) {
            Some(m) => r is Err && r->Err_0@ == ErrorView::Corrupt(m),
            None => {
                let p = r->Ok_0;
                let h = s.home->Some_0@;
                &&& r is Ok
                &&& p.label@ == label_text(fabric_id@)
                &&& p.exe@ == s.exe@
                &&& p.worktree@ == worktree@
                &&& p.anchor_dir@ == match dir {
                    Some(d) => d@,
                    None => default_dir_text(h, s.macos, fabric_id@),
                }
                &&& p.every == every
                &&& p.log@ == join_text(
                    join_text(h, "Library/Logs/respawn"@),
                    "anchor-"@ + label_text(fabric_id@) + ".log"@,
                )
                &&& p.plist_path@ == plist_text(h, fabric_id@)
            },
        },
{
    if every < MIN_INTERVAL_SECS {
        let mut m: String = String::from_str("--every must be >= ");
        push_dec(&mut m, MIN_INTERVAL_SECS);
        m.append("s");
        return Err(Error::Corrupt(m));
    }
    // A schedule whose key cannot load produces failures forever:
    // checked now, while a human is watching.
    if !s.key_loads {
        return Err(corrupt("no anchor key \u{2014} run `respawn anchor keygen` first"));
    }
    let anchor_dir = match planned_dir(dir, s, fabric_id) {
        Ok(d) => d,
        Err(e) => {
            return Err(e);
        },
    };
    // Same rule as for every anchor: anchors inside the fabric they
    // protect can be replaced alongside it.
    if leads_inside(s.base, s.rest, s.fabric) {
        return Err(corrupt("anchor dir must live outside .respawn/"));
    }
    if !s.exe_exists {
        let mut m: String = String::from_str("respawn binary not found at ");
        m.append(s.exe);
        return Err(Error::Corrupt(m));
    }
    let home = match home_dir(s.home) {
        Ok(h) => h,
        Err(e) => {
            return Err(e);
        },
    };
    let label = label(fabric_id);
    let plist_name = label.clone().concat(".plist");
    let log_name = String::from_str("anchor-").concat(label.as_str()).concat(".log");
    Ok(
        ScheduleSpec {
            plist_path: join(join(home, "Library/LaunchAgents").as_str(), plist_name.as_str()),
            log: join(join(home, "Library/Logs/respawn").as_str(), log_name.as_str()),
            label,
            exe: s.exe.to_owned(),
            worktree: worktree.to_owned(),
            anchor_dir,
            every,
        },
    )
}

/// One character of an XML text.
pub open spec fn xml_char(c: char) -> Seq<char> {
    if c == '&' {
        "&amp;"@
    } else if c == '<' {
        "&lt;"@
    } else if c == '>' {
        "&gt;"@
    } else if c == '"' {
        "&quot;"@
    } else if c == '\'' {
        "&apos;"@
    } else {
        seq![c]
    }
}

/// A string as XML text.
pub open spec fn xml_text(s: Seq<char>) -> Seq<char>
    decreases s.len(),
{
    if s.len() == 0 {
        s
    } else {
        xml_text(s.drop_last()) + xml_char(s.last())
    }
}

/// XML-escape a plist string value. Paths and labels are user data:
/// an unescaped `<`/`&` produces a plist launchd silently refuses.
pub fn xml_escape(s: &str) -> (r: String)
    ensures
        r@ == xml_text(s@),
{
    let v = chars_of(s);
    let mut out: String = String::new();
    let mut i: usize = 0;
    while i < v.len()
        invariant
            i <= v@.len(),
            out@ == xml_text(v@.take(i as int)),
        decreases v@.len() - i,
    {
        assert(v@.take(i + 1).drop_last() =~= v@.take(i as int));
        let c = v[i];
        if c == '&' {
            out.append("&amp;");
        } else if c == '<' {
            out.append("&lt;");
        } else if c == '>' {
            out.append("&gt;");
        } else if c == '"' {
            out.append("&quot;");
        } else if c == '\'' {
            out.append("&apos;");
        } else {
            out.push(c);
        }
        i = i + 1;
        assert(out@ =~= xml_text(v@.take(i as int)));
    }
    assert(v@.take(i as int) =~= v@);
    out
}

/// The plist of an agent.
pub open spec fn plist_document(p: ScheduleSpec) -> Seq<char> {
    "<?xml version=\"1.0\" encoding=\"UTF-8\"?>\n"@
        + "<!DOCTYPE plist PUBLIC \"-//Apple//DTD PLIST 1.0//EN\" "@
        + "\"http://www.apple.com/DTDs/PropertyList-1.0.dtd\">\n"@
        + "<plist version=\"1.0\">\n<dict>\n"@ + "\t<key>Label</key>\n\t<string>"@ + xml_text(
        p.label@,
    ) + "</string>\n"@ + "\t<key>ProgramArguments</key>\n\t<array>\n"@ + "\t\t<string>"@ + xml_text(
        p.exe@,
    ) + "</string>\n"@ + "\t\t<string>anchor</string>\n"@ + "\t\t<string>next</string>\n"@
        + "\t\t<string>"@ + xml_text(p.anchor_dir@) + "</string>\n"@ + "\t</array>\n"@
        + "\t<key>WorkingDirectory</key>\n\t<string>"@ + xml_text(p.worktree@) + "</string>\n"@
        + "\t<key>StartInterval</key>\n\t<integer>"@ + dec(p.every as nat) + "</integer>\n"@
        + "\t<key>RunAtLoad</key>\n\t<true/>\n"@ + "\t<key>StandardOutPath</key>\n\t<string>"@
        + xml_text(p.log@) + "</string>\n"@ + "\t<key>StandardErrorPath</key>\n\t<string>"@
        + xml_text(p.log@) + "</string>\n"@ + "</dict>\n</plist>\n"@
}

/// The plist document. `RunAtLoad` gives immediate feedback: install
/// either anchors at once or fails where the operator can see it.
pub fn plist_xml(spec: &ScheduleSpec) -> (r: String)
    ensures
        r@ == plist_document(*spec),
{
    let mut s: String = String::from_str("<?xml version=\"1.0\" encoding=\"UTF-8\"?>\n");
    s.append("<!DOCTYPE plist PUBLIC \"-//Apple//DTD PLIST 1.0//EN\" ");
    s.append("\"http://www.apple.com/DTDs/PropertyList-1.0.dtd\">\n");
    s.append("<plist version=\"1.0\">\n<dict>\n");
    s.append("\t<key>Label</key>\n\t<string>");
    s.append(xml_escape(spec.label.as_str()).as_str());
    s.append("</string>\n");
    s.append("\t<key>ProgramArguments</key>\n\t<array>\n");
    s.append("\t\t<string>");
    s.append(xml_escape(spec.exe.as_str()).as_str());
    s.append("</string>\n");
    s.append("\t\t<string>anchor</string>\n");
    s.append("\t\t<string>next</string>\n");
    s.append("\t\t<string>");
    s.append(xml_escape(spec.anchor_dir.as_str()).as_str());
    s.append("</string>\n");
    s.append("\t</array>\n");
    s.append("\t<key>WorkingDirectory</key>\n\t<string>");
    s.append(xml_escape(spec.worktree.as_str()).as_str());
    s.append("</string>\n");
    s.append("\t<key>StartInterval</key>\n\t<integer>");
    push_dec(&mut s, spec.every);
    s.append("</integer>\n");
    s.append("\t<key>RunAtLoad</key>\n\t<true/>\n");
    s.append("\t<key>StandardOutPath</key>\n\t<string>");
    s.append(xml_escape(spec.log.as_str()).as_str());
    s.append("</string>\n");
    s.append("\t<key>StandardErrorPath</key>\n\t<string>");
    s.append(xml_escape(spec.log.as_str()).as_str());
    s.append("</string>\n");
    s.append("</dict>\n</plist>\n");
    s
}

/// What launchd is asked to do, and what to ask where it refuses.
pub struct LaunchPlan {
    pub plist_path: String,
    /// Arguments of the `launchctl` call.
    pub first: Vec<String>,
    /// Arguments of the call that is tried where the first one fails.
    pub fallback: Vec<String>,
}

/// Install the agent, once its plist is written: hand it to launchd.
/// `bootstrap` is the modern verb but returns "Input/output error" on
/// some systems; `load -w` still works there, so it is the fallback,
/// not a failure. `uid` is what `id -u` printed.
pub fn install(spec: &ScheduleSpec, macos: bool, uid: &str) -> (r: Result<LaunchPlan>)
    ensures
        if macos {
            &&& r is Ok
            &&& r->Ok_0.plist_path@ == spec.plist_path@
            &&& strs(r->Ok_0.first@) == seq!["bootstrap"@, "gui/"@ + trim(uid@), spec.plist_path@]
            &&& strs(r->Ok_0.fallback@) == seq!["load"@, "-w"@, spec.plist_path@]
        } else {
            r is Err && r->Err_0@ == ErrorView::Corrupt(
                "anchor schedule uses launchd \u{2014} macOS-only (use systemd timers or cron elsewhere)"@,
            )
        },
{
    if !macos {
        return Err(
            corrupt(
                "anchor schedule uses launchd \u{2014} macOS-only (use systemd timers or cron elsewhere)",
            ),
        );
    }
    let mut first: Vec<String> = Vec::new();
    first.push(String::from_str("bootstrap"));
    first.push(String::from_str("gui/").concat(trimmed(uid).as_str()));
    first.push(spec.plist_path.clone());
    let mut fallback: Vec<String> = Vec::new();
    fallback.push(String::from_str("load"));
    fallback.push(String::from_str("-w"));
    fallback.push(spec.plist_path.clone());
    assert(strs(first@) =~= seq!["bootstrap"@, "gui/"@ + trim(uid@), spec.plist_path@]);
    assert(strs(fallback@) =~= seq!["load"@, "-w"@, spec.plist_path@]);
    Ok(LaunchPlan { plist_path: spec.plist_path.clone(), first, fallback })
}

/// The plist that this fabric would have installed: the path is derived from
/// the fabric id, never taken from input, so it cannot escape
/// ~/Library/LaunchAgents.
pub fn agent_plist(home: Option<&str>, fabric_id: &str) -> (r: Result<String>)
    requires
        can_shorten(fabric_id@),
    ensures
        match home {
            Some(h) => r is Ok && r->Ok_0@ == plist_text(h@, fabric_id@),
            None => r is Err && r->Err_0@ == ErrorView::Corrupt(no_home_text()),
        },
{
    match launch_agents_dir(home) {
        Err(e) => Err(e),
        Ok(dir) => Ok(join(dir.as_str(), label(fabric_id).concat(".plist").as_str())),
    }
}

/// Remove the agent: bootout (or unload), then delete exactly the plist that
/// `agent_plist` names. `plist_exists` says whether that file is there.
pub fn uninstall(
    home: Option<&str>,
    fabric_id: &str,
    macos: bool,
    plist_exists: bool,
    uid: &str,
) -> (r: Result<LaunchPlan>)
    requires
        can_shorten(fabric_id@),
    ensures
        if !macos {
            r is Err && r->Err_0@ == ErrorView::Corrupt(
                "anchor schedule uses launchd \u{2014} macOS-only"@,
            )
        } else {
            match home {
                None => r is Err && r->Err_0@ == ErrorView::Corrupt(no_home_text()),
                Some(h) => {
                    let p = plist_text(h@, fabric_id@);
                    if !plist_exists {
                        r is Err && r->Err_0@ == ErrorView::Corrupt(
                            "no scheduled anchor for this fabric ("@ + p + ")"@,
                        )
                    } else {
                        &&& r is Ok
                        &&& r->Ok_0.plist_path@ == p
                        &&& strs(r->Ok_0.first@) == seq![
                            "bootout"@,
                            "gui/"@ + trim(uid@) + "/"@ + label_text(fabric_id@),
                        ]
                        &&& strs(r->Ok_0.fallback@) == seq!["unload"@, p]
                    }
                },
            }
        },
{
    if !macos {
        return Err(corrupt("anchor schedule uses launchd \u{2014} macOS-only"));
    }
    let plist = match agent_plist(home, fabric_id) {
        Ok(p) => p,
        Err(e) => {
            return Err(e);
        },
    };
    if !plist_exists {
        let mut m: String = String::from_str("no scheduled anchor for this fabric (");
        m.append(plist.as_str());
        m.append(")");
        return Err(Error::Corrupt(m));
    }
    let mut target: String = String::from_str("gui/");
    target.append(trimmed(uid).as_str());
    target.append("/");
    target.append(label(fabric_id).as_str());
    let mut first: Vec<String> = Vec::new();
    first.push(String::from_str("bootout"));
    first.push(target);
    let mut fallback: Vec<String> = Vec::new();
    fallback.push(String::from_str("unload"));
    fallback.push(plist.clone());
    assert(strs(first@) =~= seq![
        "bootout"@,
        "gui/"@ + trim(uid@) + "/"@ + label_text(fabric_id@),
    ]);
    assert(strs(fallback@) =~= seq!["unload"@, plist@]);
    Ok(LaunchPlan { plist_path: plist, first, fallback })
}

/// Whether a character has a meaning of its own in XML text.
pub open spec fn is_markup(c: char) -> bool {
    c == '<' || c == '>' || c == '"' || c == '\''
}

proof fn lemma_entities()
    ensures
        "&amp;"@ == seq!['&', 'a', 'm', 'p', ';'],
        "&lt;"@ == seq!['&', 'l', 't', ';'],
        "&gt;"@ == seq!['&', 'g', 't', ';'],
        "&quot;"@ == seq!['&', 'q', 'u', 'o', 't', ';'],
        "&apos;"@ == seq!['&', 'a', 'p', 'o', 's', ';'],
{
    reveal_strlit("&amp;");
    reveal_strlit("&lt;");
    reveal_strlit("&gt;");
    reveal_strlit("&quot;");
    reveal_strlit("&apos;");
    assert("&amp;"@ =~= seq!['&', 'a', 'm', 'p', ';']);
    assert("&lt;"@ =~= seq!['&', 'l', 't', ';']);
    assert("&gt;"@ =~= seq!['&', 'g', 't', ';']);
    assert("&quot;"@ =~= seq!['&', 'q', 'u', 'o', 't', ';']);
    assert("&apos;"@ =~= seq!['&', 'a', 'p', 'o', 's', ';']);
}

/// Escaped text holds no markup, whatever the string.
pub proof fn escaped_text_holds_no_markup(s: Seq<char>)
    ensures
        forall|i: int| 0 <= i < xml_text(s).len() ==> !is_markup(#[trigger] xml_text(s)[i]),
    decreases s.len(),
{
    lemma_entities();
    if s.len() > 0 {
        escaped_text_holds_no_markup(s.drop_last());
        let a = xml_text(s.drop_last());
        let b = xml_char(s.last());
        assert forall|i: int| 0 <= i < (a + b).len() implies !is_markup(#[trigger] (a + b)[i]) by {
            if i < a.len() {
                assert(!is_markup(a[i]));
            }
        }
    }
}

/// What XML text stands for: each of the five entities for its character.
pub open spec fn xml_value(s: Seq<char>) -> Seq<char>
    decreases s.len(),
{
    if s.len() == 0 {
        s
    } else if s[0] != '&' {
        seq![s[0]] + xml_value(s.skip(1))
    } else if seq!['&', 'a', 'm', 'p', ';'].is_prefix_of(s) {
        seq!['&'] + xml_value(s.skip(5))
    } else if seq!['&', 'l', 't', ';'].is_prefix_of(s) {
        seq!['<'] + xml_value(s.skip(4))
    } else if seq!['&', 'g', 't', ';'].is_prefix_of(s) {
        seq!['>'] + xml_value(s.skip(4))
    } else if seq!['&', 'q', 'u', 'o', 't', ';'].is_prefix_of(s) {
        seq!['"'] + xml_value(s.skip(6))
    } else if seq!['&', 'a', 'p', 'o', 's', ';'].is_prefix_of(s) {
        seq!['\''] + xml_value(s.skip(6))
    } else {
        seq!['&'] + xml_value(s.skip(1))
    }
}

proof fn lemma_xml_head(c: char, rest: Seq<char>)
    ensures
        xml_value(xml_char(c) + rest) == seq![c] + xml_value(rest),
{
    lemma_entities();
    let s = xml_char(c) + rest;
    assert(xml_char(c) =~= s.subrange(0, xml_char(c).len() as int));
    assert(s.skip(xml_char(c).len() as int) =~= rest);
    assert(s[0] == xml_char(c)[0]);
    if c == '&' || is_markup(c) {
        assert(s[1] == xml_char(c)[1]);
        assert(s[2] == xml_char(c)[2]);
        if c != '&' {
            if seq!['&', 'a', 'm', 'p', ';'].is_prefix_of(s) {
                assert(s.subrange(0, 5)[1] == 'a');
                assert(s.subrange(0, 5)[2] == 'm');
            }
        }
        if c != '<' && seq!['&', 'l', 't', ';'].is_prefix_of(s) {
            assert(s.subrange(0, 4)[1] == 'l');
        }
        if c != '>' && seq!['&', 'g', 't', ';'].is_prefix_of(s) {
            assert(s.subrange(0, 4)[1] == 'g');
        }
        if c != '"' && seq!['&', 'q', 'u', 'o', 't', ';'].is_prefix_of(s) {
            assert(s.subrange(0, 6)[1] == 'q');
        }
    }
}

proof fn lemma_xml_rest(s: Seq<char>, rest: Seq<char>)
    ensures
        xml_value(xml_text(s) + rest) == s + xml_value(rest),
    decreases s.len(),
{
    if s.len() == 0 {
        assert(xml_text(s) + rest =~= rest);
        assert(s + xml_value(rest) =~= xml_value(rest));
    } else {
        let init = s.drop_last();
        let l = s.last();
        lemma_xml_head(l, rest);
        lemma_xml_rest(init, xml_char(l) + rest);
        assert(xml_text(s) + rest =~= xml_text(init) + (xml_char(l) + rest));
        assert(init + (seq![l] + xml_value(rest)) =~= s + xml_value(rest));
    }
}

/// A plist reader sees the string that was escaped.
pub proof fn xml_reads_back_the_escaped(s: Seq<char>)
    ensures
        xml_value(xml_text(s)) == s,
{
    let none = Seq::<char>::empty();
    lemma_xml_rest(s, none);
    assert(xml_text(s) + none =~= xml_text(s));
    assert(s + none =~= s);
}

/// The id of a fabric, 64 hexadecimal digits, can be shortened, to its first
/// twelve digits; so the agent's plist lies in the directory of agents under
/// a plain name.
pub proof fn minted_ids_name_plain_files(b: Seq<u8>)
    requires
        b.len() == 32,
    ensures
        can_shorten(hex_text(b)),
        short_id(hex_text(b)) == hex_text(b).take(12),
        !label_text(hex_text(b)).contains('/'),
{
    let t = hex_text(b);
    let p = t.take(12);
    lemma_hex_text_bytes(b);
    lemma_hex_chars(b);
    let e = encode_utf8(t);
    assert forall|i: int| 0 <= i < t.len() implies (#[trigger] t[i] as u32) < 128 by {
        let q = b[i / 2] as int;
        assert(0 <= q / 16 < 16 && 0 <= q % 16 < 16);
    }
    assert(is_ascii_chars(t));
    assert(is_ascii_chars(p));
    is_ascii_chars_encode_utf8(t);
    is_ascii_chars_encode_utf8(p);
    assert(e.subrange(0, 12) =~= encode_utf8(p));
    encode_utf8_decode_utf8(p);
    encode_utf8_valid_utf8(t);
    assert(e[12] == t[12] as u8);
    utf8_byte_ranges_bitwise(e[12]);
    is_char_boundary_iff_is_leading_byte(e, 12);
    assert(is_leading_byte_width_1(e[12]));
    reveal_strlit("com.respawn.anchor.");
    let l = label_text(t);
    assert forall|i: int| 0 <= i < l.len() implies l[i] != '/' by {
        if i < "com.respawn.anchor."@.len() {
        } else {
            assert(l[i] == p[i - "com.respawn.anchor."@.len()]);
            assert(p[i - "com.respawn.anchor."@.len()] == t[i - "com.respawn.anchor."@.len()]);
        }
    }
}

/// When an agent can be planned: exactly where it runs no more often than once
/// a minute, the anchor key loads, the home directory is known, the anchors
/// land outside the fabric, and the binary is there.
pub proof fn plans_are_accepted_exactly(every: u64, s: Surroundings)
    ensures
        plan_fault(every, s) is None <==> every >= 60 && s.key_loads && s.home is Some
            && !leads_under(s.base@, s.rest@, s.fabric@) && s.exe_exists,
{
}

/// The agent of a fabric is named by the first twelve digits of its id, and so
/// are its default anchor directory and its plist.
pub proof fn agents_are_named_by_the_fabric(home: Seq<char>, id: Seq<char>)
    requires
        id.len() >= 12,
        is_ascii_chars(id),
    ensures
        short_id(id) == id.take(12),
        label_text(id) == "com.respawn.anchor."@ + id.take(12),
        plist_text(home, id) == join_text(
            join_text(home, "Library/LaunchAgents"@),
            "com.respawn.anchor."@ + id.take(12) + ".plist"@,
        ),
        default_dir_text(home, true, id) == join_text(
            join_text(home, "Library/Application Support/respawn/anchors"@),
            id.take(12),
        ),
        default_dir_text(home, false, id) == join_text(
            join_text(home, ".respawn-anchors"@),
            id.take(12),
        ),
{
    is_ascii_chars_encode_utf8(id);
    let t = id.take(12);
    assert(is_ascii_chars(t)) by {
        assert forall|i: int| 0 <= i < t.len() implies 0 <= #[trigger] t[i] as u32 && (t[i] as u32)
            < 128 by {
            assert(t[i] == id[i]);
        }
    }
    is_ascii_chars_encode_utf8(t);
    assert(encode_utf8(id).subrange(0, 12) =~= encode_utf8(t));
    encode_utf8_decode_utf8(t);
}

/// What launchd is told to run, and how often: `anchor next` of the binary into
/// the anchor directory, in the worktree, at the given interval.
pub proof fn agent_runs_anchor_next(p: ScheduleSpec)
    ensures
        occurs(
            plist_document(p),
            "\t\t<string>"@ + xml_text(p.exe@) + "</string>\n"@ + "\t\t<string>anchor</string>\n"@
                + "\t\t<string>next</string>\n"@ + "\t\t<string>"@ + xml_text(p.anchor_dir@)
                + "</string>\n"@ + "\t</array>\n"@,
        ),
        occurs(
            plist_document(p),
            "\t<key>WorkingDirectory</key>\n\t<string>"@ + xml_text(p.worktree@)
                + "</string>\n"@,
        ),
        occurs(
            plist_document(p),
            "\t<key>StartInterval</key>\n\t<integer>"@ + dec(p.every as nat) + "</integer>\n"@,
        ),
        occurs(
            plist_document(p),
            "\t<key>Label</key>\n\t<string>"@ + xml_text(p.label@) + "</string>\n"@,
        ),
{
    let x0 = "<?xml version=\"1.0\" encoding=\"UTF-8\"?>\n"@;
    let x1 = x0 + "<!DOCTYPE plist PUBLIC \"-//Apple//DTD PLIST 1.0//EN\" "@;
    let x2 = x1 + "\"http://www.apple.com/DTDs/PropertyList-1.0.dtd\">\n"@;
    let x3 = x2 + "<plist version=\"1.0\">\n<dict>\n"@;
    let x4 = x3 + "\t<key>Label</key>\n\t<string>"@;
    let x5 = x4 + xml_text(p.label@);
    let x6 = x5 + "</string>\n"@;
    let x7 = x6 + "\t<key>ProgramArguments</key>\n\t<array>\n"@;
    let x8 = x7 + "\t\t<string>"@;
    let x9 = x8 + xml_text(p.exe@);
    let x10 = x9 + "</string>\n"@;
    let x11 = x10 + "\t\t<string>anchor</string>\n"@;
    let x12 = x11 + "\t\t<string>next</string>\n"@;
    let x13 = x12 + "\t\t<string>"@;
    let x14 = x13 + xml_text(p.anchor_dir@);
    let x15 = x14 + "</string>\n"@;
    let x16 = x15 + "\t</array>\n"@;
    let x17 = x16 + "\t<key>WorkingDirectory</key>\n\t<string>"@;
    let x18 = x17 + xml_text(p.worktree@);
    let x19 = x18 + "</string>\n"@;
    let x20 = x19 + "\t<key>StartInterval</key>\n\t<integer>"@;
    let x21 = x20 + dec(p.every as nat);
    let x22 = x21 + "</integer>\n"@;
    let x23 = x22 + "\t<key>RunAtLoad</key>\n\t<true/>\n"@;
    let x24 = x23 + "\t<key>StandardOutPath</key>\n\t<string>"@;
    let x25 = x24 + xml_text(p.log@);
    let x26 = x25 + "</string>\n"@;
    let x27 = x26 + "\t<key>StandardErrorPath</key>\n\t<string>"@;
    let x28 = x27 + xml_text(p.log@);
    let x29 = x28 + "</string>\n"@;
    let x30 = x29 + "</dict>\n</plist>\n"@;
    assert(plist_document(p) == x30);
    let q0_4 = "\t<key>Label</key>\n\t<string>"@;
    let q0_5 = q0_4 + xml_text(p.label@);
    lemma_append_twice(x3, q0_4, xml_text(p.label@));
    let q0_6 = q0_5 + "</string>\n"@;
    lemma_append_twice(x3, q0_5, "</string>\n"@);
    lemma_occurs_at_end(x3, q0_6);
    lemma_still_occurs(x6, "\t<key>ProgramArguments</key>\n\t<array>\n"@, q0_6);
    lemma_still_occurs(x7, "\t\t<string>"@, q0_6);
    lemma_still_occurs(x8, xml_text(p.exe@), q0_6);
    lemma_still_occurs(x9, "</string>\n"@, q0_6);
    lemma_still_occurs(x10, "\t\t<string>anchor</string>\n"@, q0_6);
    lemma_still_occurs(x11, "\t\t<string>next</string>\n"@, q0_6);
    lemma_still_occurs(x12, "\t\t<string>"@, q0_6);
    lemma_still_occurs(x13, xml_text(p.anchor_dir@), q0_6);
    lemma_still_occurs(x14, "</string>\n"@, q0_6);
    lemma_still_occurs(x15, "\t</array>\n"@, q0_6);
    lemma_still_occurs(x16, "\t<key>WorkingDirectory</key>\n\t<string>"@, q0_6);
    lemma_still_occurs(x17, xml_text(p.worktree@), q0_6);
    lemma_still_occurs(x18, "</string>\n"@, q0_6);
    lemma_still_occurs(x19, "\t<key>StartInterval</key>\n\t<integer>"@, q0_6);
    lemma_still_occurs(x20, dec(p.every as nat), q0_6);
    lemma_still_occurs(x21, "</integer>\n"@, q0_6);
    lemma_still_occurs(x22, "\t<key>RunAtLoad</key>\n\t<true/>\n"@, q0_6);
    lemma_still_occurs(x23, "\t<key>StandardOutPath</key>\n\t<string>"@, q0_6);
    lemma_still_occurs(x24, xml_text(p.log@), q0_6);
    lemma_still_occurs(x25, "</string>\n"@, q0_6);
    lemma_still_occurs(x26, "\t<key>StandardErrorPath</key>\n\t<string>"@, q0_6);
    lemma_still_occurs(x27, xml_text(p.log@), q0_6);
    lemma_still_occurs(x28, "</string>\n"@, q0_6);
    lemma_still_occurs(x29, "</dict>\n</plist>\n"@, q0_6);
    let q1_8 = "\t\t<string>"@;
    let q1_9 = q1_8 + xml_text(p.exe@);
    lemma_append_twice(x7, q1_8, xml_text(p.exe@));
    let q1_10 = q1_9 + "</string>\n"@;
    lemma_append_twice(x7, q1_9, "</string>\n"@);
    let q1_11 = q1_10 + "\t\t<string>anchor</string>\n"@;
    lemma_append_twice(x7, q1_10, "\t\t<string>anchor</string>\n"@);
    let q1_12 = q1_11 + "\t\t<string>next</string>\n"@;
    lemma_append_twice(x7, q1_11, "\t\t<string>next</string>\n"@);
    let q1_13 = q1_12 + "\t\t<string>"@;
    lemma_append_twice(x7, q1_12, "\t\t<string>"@);
    let q1_14 = q1_13 + xml_text(p.anchor_dir@);
    lemma_append_twice(x7, q1_13, xml_text(p.anchor_dir@));
    let q1_15 = q1_14 + "</string>\n"@;
    lemma_append_twice(x7, q1_14, "</string>\n"@);
    let q1_16 = q1_15 + "\t</array>\n"@;
    lemma_append_twice(x7, q1_15, "\t</array>\n"@);
    lemma_occurs_at_end(x7, q1_16);
    lemma_still_occurs(x16, "\t<key>WorkingDirectory</key>\n\t<string>"@, q1_16);
    lemma_still_occurs(x17, xml_text(p.worktree@), q1_16);
    lemma_still_occurs(x18, "</string>\n"@, q1_16);
    lemma_still_occurs(x19, "\t<key>StartInterval</key>\n\t<integer>"@, q1_16);
    lemma_still_occurs(x20, dec(p.every as nat), q1_16);
    lemma_still_occurs(x21, "</integer>\n"@, q1_16);
    lemma_still_occurs(x22, "\t<key>RunAtLoad</key>\n\t<true/>\n"@, q1_16);
    lemma_still_occurs(x23, "\t<key>StandardOutPath</key>\n\t<string>"@, q1_16);
    lemma_still_occurs(x24, xml_text(p.log@), q1_16);
    lemma_still_occurs(x25, "</string>\n"@, q1_16);
    lemma_still_occurs(x26, "\t<key>StandardErrorPath</key>\n\t<string>"@, q1_16);
    lemma_still_occurs(x27, xml_text(p.log@), q1_16);
    lemma_still_occurs(x28, "</string>\n"@, q1_16);
    lemma_still_occurs(x29, "</dict>\n</plist>\n"@, q1_16);
    let q2_17 = "\t<key>WorkingDirectory</key>\n\t<string>"@;
    let q2_18 = q2_17 + xml_text(p.worktree@);
    lemma_append_twice(x16, q2_17, xml_text(p.worktree@));
    let q2_19 = q2_18 + "</string>\n"@;
    lemma_append_twice(x16, q2_18, "</string>\n"@);
    lemma_occurs_at_end(x16, q2_19);
    lemma_still_occurs(x19, "\t<key>StartInterval</key>\n\t<integer>"@, q2_19);
    lemma_still_occurs(x20, dec(p.every as nat), q2_19);
    lemma_still_occurs(x21, "</integer>\n"@, q2_19);
    lemma_still_occurs(x22, "\t<key>RunAtLoad</key>\n\t<true/>\n"@, q2_19);
    lemma_still_occurs(x23, "\t<key>StandardOutPath</key>\n\t<string>"@, q2_19);
    lemma_still_occurs(x24, xml_text(p.log@), q2_19);
    lemma_still_occurs(x25, "</string>\n"@, q2_19);
    lemma_still_occurs(x26, "\t<key>StandardErrorPath</key>\n\t<string>"@, q2_19);
    lemma_still_occurs(x27, xml_text(p.log@), q2_19);
    lemma_still_occurs(x28, "</string>\n"@, q2_19);
    lemma_still_occurs(x29, "</dict>\n</plist>\n"@, q2_19);
    let q3_20 = "\t<key>StartInterval</key>\n\t<integer>"@;
    let q3_21 = q3_20 + dec(p.every as nat);
    lemma_append_twice(x19, q3_20, dec(p.every as nat));
    let q3_22 = q3_21 + "</integer>\n"@;
    lemma_append_twice(x19, q3_21, "</integer>\n"@);
    lemma_occurs_at_end(x19, q3_22);
    lemma_still_occurs(x22, "\t<key>RunAtLoad</key>\n\t<true/>\n"@, q3_22);
    lemma_still_occurs(x23, "\t<key>StandardOutPath</key>\n\t<string>"@, q3_22);
    lemma_still_occurs(x24, xml_text(p.log@), q3_22);
    lemma_still_occurs(x25, "</string>\n"@, q3_22);
    lemma_still_occurs(x26, "\t<key>StandardErrorPath</key>\n\t<string>"@, q3_22);
    lemma_still_occurs(x27, xml_text(p.log@), q3_22);
    lemma_still_occurs(x28, "</string>\n"@, q3_22);
    lemma_still_occurs(x29, "</dict>\n</plist>\n"@, q3_22);
}

proof fn lemma_append_twice(x: Seq<char>, a: Seq<char>, b: Seq<char>)
    ensures
        (x + a) + b == x + (a + b),
{
    assert((x + a) + b =~= x + (a + b));
}

proof fn lemma_occurs_at_end(x: Seq<char>, p: Seq<char>)
    ensures
        occurs(x + p, p),
{
    assert((x + p).subrange(x.len() as int, (x.len() + p.len()) as int) =~= p);
    assert(stands_at(x + p, p, x.len() as int));
}

proof fn lemma_still_occurs(s: Seq<char>, t: Seq<char>, p: Seq<char>)
    requires
        occurs(s, p),
    ensures
        occurs(s + t, p),
{
    let at = choose|at: int| #[trigger] stands_at(s, p, at);
    assert((s + t).subrange(at, at + p.len()) =~= s.subrange(at, at + p.len()));
    assert(stands_at(s + t, p, at));
}

} // verus!
