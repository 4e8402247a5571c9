//! Quoting for the shell, AppleScript and XML.

use respawn::admin::{admin_script, as_escape, is_root, sh_quote, snap_as_admin};
use respawn::schedule::xml_escape;
use respawn::Error;

#[test]
fn sh_quote_blocks_expansion() {
    // The classic breakouts all collapse to literal bytes.
    assert_eq!(sh_quote("a b"), "'a b'");
    assert_eq!(sh_quote("$(rm -rf /)"), "'$(rm -rf /)'");
    assert_eq!(sh_quote("it's"), r"'it'\''s'");
    assert_eq!(sh_quote("`id`"), "'`id`'");
}

#[test]
fn as_escape_covers_both_metachars() {
    assert_eq!(as_escape(r#"a\b"c"#), r#"a\\b\"c"#);
}

#[test]
fn empty_strings_are_quoted_too() {
    assert_eq!(sh_quote(""), "''");
    assert_eq!(as_escape(""), "");
    assert_eq!(xml_escape(""), "");
}

#[test]
fn xml_escape_covers_the_five_entities() {
    assert_eq!(
        xml_escape("a<b>&\"c\"'d'"),
        "a&lt;b&gt;&amp;&quot;c&quot;&apos;d&apos;"
    );
    // An entity in the input is text, not markup.
    assert_eq!(xml_escape("&lt;"), "&amp;lt;");
}

#[test]
fn admin_script_quotes_every_part() {
    let s = admin_script("/bin/re spawn", "/w'x", "/w/.respawn", "say \"hi\"", "501", "20");
    assert_eq!(
        s,
        "do shell script \"cd '/w'\\\\''x' && '/bin/re spawn' snap --apfs -m 'say \\\"hi\\\"' \
         && /usr/sbin/chown -R 501:20 '/w/.respawn'\" with administrator privileges"
    );
}

#[test]
fn admin_child_outcomes() {
    assert!(snap_as_admin(Some((true, String::new()))).is_ok());
    match snap_as_admin(Some((false, "execution error: User canceled. (-128)".to_string()))) {
        Err(Error::Corrupt(m)) => assert_eq!(m, "admin authorization cancelled"),
        _ => panic!("cancelled authorization must be its own error"),
    }
    match snap_as_admin(Some((false, "  boom \n".to_string()))) {
        Err(Error::Corrupt(m)) => assert_eq!(m, "privileged snapshot failed: boom"),
        _ => panic!("a failed child must be an error"),
    }
    match snap_as_admin(None) {
        Err(Error::Corrupt(m)) => assert_eq!(
            m,
            "--ask-admin uses macOS administrator authorization — macOS-only"
        ),
        _ => panic!("no authorization service"),
    }
}

#[test]
fn root_is_uid_zero() {
    assert!(is_root(Some("0\n")));
    assert!(!is_root(Some("501\n")));
    assert!(!is_root(None));
}
