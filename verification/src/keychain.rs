//! Signing-secret storage for anchors.
//!
//! On macOS the anchor key prefers the login Keychain: a Keychain item
//! inherits the OS's unlock/ACL machinery instead of relying on
//! permission bits alone. The `.respawn/anchor.secret` file (0600)
//! remains the store of last resort: on non-macOS, and on macOS
//! sessions where the Keychain refuses interaction (SSH without a GUI
//! session, daemons outside the user context). Falling back is
//! reported, never silent.

use vstd::prelude::*;
use vstd::string::*;
use vstd::utf8::*;
use crate::digest::array32;
use crate::digest::hash_hex;
use crate::digest::hex_decode;
use crate::digest::hex_text;
use crate::digest::is_hex;
use crate::digest::is_hex_digit;
use crate::digest::lemma_hex_chars;
use crate::digest::lemma_hex_text_bytes;
use crate::digest::lemma_unhex_hex;
use crate::digest::unhex;
use crate::error::Error;
use crate::error::ErrorView;
use crate::error::Result;
use crate::error::corrupt;
use crate::paths::join;
use crate::paths::join_text;
use crate::snapshot::hash_opt;
use crate::store::Store;
use crate::text::is_white;
use crate::text::trim;
use crate::text::trimmed;

verus! {

/// Where a secret landed / was found, surfaced so the operator knows
/// which protection actually applies.
#[derive(Debug, Clone, Copy, PartialEq, Eq, Structural)]
pub enum Placement {
    /// macOS login Keychain.
    Keychain,
    /// `.respawn/anchor.secret`, mode 0600.
    File,
}

/// What reading a text file gave.
#[derive(Debug)]
pub enum TextRead {
    Text(String),
    Missing,
    Failed(std::io::Error),
}

/// What the Keychain answered.
#[derive(Debug)]
pub enum KeychainRead {
    /// There is no Keychain, or it is switched off.
    Off,
    Found(crate::Hash),
    Absent,
    /// It could not be reached, with its message.
    Failed(String),
}

/// Where the key file lies.
pub fn secret_path(store: &Store) -> (r: String)
    ensures
        r@ == join_text(store.fabric_text(), "anchor.secret"@),
{
    join(store.fabric_dir().as_str(), "anchor.secret")
}

/// True if a signing key exists in either store: keygen refuses to
/// overwrite, and a swapped key must never look like a passed check.
pub fn key_exists(file_exists: bool, keychain: &KeychainRead) -> (r: bool)
    ensures
        r == (file_exists || keychain is Found),
{
    if file_exists {
        return true;
    }
    match keychain {
        KeychainRead::Found(_) => true,
        _ => false,
    }
}

/// The text of the key file.
pub fn secret_text(raw: &crate::Hash) -> (r: String)
    ensures
        r@ == hex_text(raw@),
{
    hash_hex(raw)
}

/// What a key file says: 64 hexadecimal digits, with whitespace around them.
pub open spec fn secret_of(text: Seq<char>) -> std::result::Result<Seq<u8>, Seq<char>> {
    let b = encode_utf8(trim(text));
    if !is_hex(b) {
        Err("anchor secret is not hex"@)
    } else if b.len() != 64 {
        Err("anchor secret is not 32 bytes"@)
    } else {
        Ok(unhex(b))
    }
}

/// The key in the key file, if there is one.
pub fn read_secret_file(read: TextRead) -> (r: Result<Option<crate::Hash>>)
    ensures
        match read {
            TextRead::Missing => r is Ok && r->Ok_0 is None,
            TextRead::Failed(e) => r is Err && r->Err_0@ == ErrorView::Io(e),
            TextRead::Text(t) => match secret_of(t@) {
                Ok(raw) => r is Ok && hash_opt(r->Ok_0) == Some(raw),
                Err(m) => r is Err && r->Err_0@ == ErrorView::Corrupt(m),
            },
        },
{
    let text = match read {
        TextRead::Missing => {
            return Ok(None);
        },
        TextRead::Failed(e) => {
            return Err(Error::Io(e));
        },
        TextRead::Text(t) => t,
    };
    let s = trimmed(text.as_str());
    match hex_decode(s.as_str()) {
        Err(_) => Err(corrupt("anchor secret is not hex")),
        Ok(v) => {
            if v.len() != 32 {
                return Err(corrupt("anchor secret is not 32 bytes"));
            }
            Ok(Some(array32(v.as_slice())))
        },
    }
}

/// A key file says the key that was written to it.
pub proof fn secret_file_round_trip(raw: Seq<u8>)
    requires
        raw.len() == 32,
    ensures
        secret_of(hex_text(raw)) == std::result::Result::<Seq<u8>, Seq<char>>::Ok(raw),
{
    lemma_hex_chars(raw);
    let s = hex_text(raw);
    assert(!is_white(s[0]));
    assert(!is_white(s.last()));
    assert(trim(s) == s);
    lemma_hex_text_bytes(raw);
    lemma_unhex_hex(raw);
}

/// The text "no anchor key".
pub open spec fn no_key_text() -> Seq<char> {
    "no anchor key \u{2014} run `respawn anchor keygen`"@
}

/// Where a key is stored, and the note for the operator: in the Keychain
/// where it took the key, else in the file. `stored` is `None` where there
/// is no Keychain or it is switched off. With `Placement::File` the key file
/// is to be written.
pub fn put(store: &Store, stored: Option<std::result::Result<(), String>>) -> (r: (
    Placement,
    Option<String>,
))
    ensures
        match stored {
            None => r.0 == Placement::File && r.1 is None,
            Some(Ok(_)) => r.0 == Placement::Keychain && r.1 is None,
            Some(Err(e)) => r.0 == Placement::File && r.1 is Some && r.1->Some_0@
                == "Keychain unavailable ("@ + e@ + ") \u{2014} key stored in "@ + join_text(
                store.fabric_text(),
                "anchor.secret"@,
            ) + " (0600)"@,
        },
{
    match stored {
        None => (Placement::File, None),
        Some(Ok(_)) => (Placement::Keychain, None),
        Some(Err(e)) => {
            let mut m: String = String::from_str("Keychain unavailable (");
            m.append(e.as_str());
            m.append(") \u{2014} key stored in ");
            m.append(secret_path(store).as_str());
            m.append(" (0600)");
            (Placement::File, Some(m))
        },
    }
}

/// What a lookup of the key amounts to.
#[derive(Debug)]
pub enum Lookup {
    /// The key, and where it was. With `Placement::Keychain` a leftover key
    /// file is to be removed: it would silently resurrect the OLD key in a
    /// later session where the Keychain is unreachable.
    Key(crate::Hash, Placement),
    /// The key was in the file only: try to move it into the Keychain, then
    /// ask `migrated`.
    Migrate(crate::Hash),
}

/// Load the key. Order: Keychain, then the file, which is moved into the
/// Keychain where there is one. `file` is what the key file holds; it counts
/// only where the Keychain has no key.
pub fn get(keychain: KeychainRead, file: Result<Option<crate::Hash>>) -> (r: Result<Lookup>)
    ensures
        match keychain {
            KeychainRead::Found(raw) => r is Ok && r->Ok_0 == Lookup::Key(
                raw,
                Placement::Keychain,
            ),
            _ => match file {
                Err(e) => r is Err && r->Err_0 == e,
                Ok(Some(raw)) => r is Ok && r->Ok_0 == if keychain is Off {
                    Lookup::Key(raw, Placement::File)
                } else {
                    Lookup::Migrate(raw)
                },
                Ok(None) => r is Err && r->Err_0@ == match keychain {
                    KeychainRead::Failed(e) => ErrorView::Corrupt(
                        "anchor key lookup failed ("@ + e@
                            + ") and no key file \u{2014} if the key lives in Keychain, this session cannot reach it (locked keychain or no GUI session)"@,
                    ),
                    _ => ErrorView::Corrupt(no_key_text()),
                },
            },
        },
{
    let mut off: bool = false;
    let mut failed: Option<String> = None;
    match keychain {
        KeychainRead::Found(raw) => {
            return Ok(Lookup::Key(raw, Placement::Keychain));
        },
        KeychainRead::Off => {
            off = true;
        },
        KeychainRead::Absent => {},
        KeychainRead::Failed(e) => {
            failed = Some(e);
        },
    }
    match file {
        Err(e) => Err(e),
        Ok(Some(raw)) => if off {
            Ok(Lookup::Key(raw, Placement::File))
        } else {
            Ok(Lookup::Migrate(raw))
        },
        Ok(None) => match failed {
            Some(e) => {
                let mut m: String = String::from_str("anchor key lookup failed (");
                m.append(e.as_str());
                m.append(
                    ") and no key file \u{2014} if the key lives in Keychain, this session cannot reach it (locked keychain or no GUI session)",
                );
                Err(Error::Corrupt(m))
            },
            None => Err(corrupt("no anchor key \u{2014} run `respawn anchor keygen`")),
        },
    }
}

/// Where the key is after the attempt to move it into the Keychain, and the
/// note for the operator. The migration removes the on-disk copy.
pub fn migrated(stored: std::result::Result<(), String>) -> (r: (Placement, String))
    ensures
        match stored {
            Ok(_) => r.0 == Placement::Keychain && r.1@
                == "migrated anchor key from .respawn/anchor.secret into login Keychain"@,
            Err(e) => r.0 == Placement::File && r.1@ == "Keychain unavailable ("@ + e@
                + ") \u{2014} using key file"@,
        },
{
    match stored {
        Ok(_) => (
            Placement::Keychain,
            String::from_str(
                "migrated anchor key from .respawn/anchor.secret into login Keychain",
            ),
        ),
        Err(e) => {
            let mut m: String = String::from_str("Keychain unavailable (");
            m.append(e.as_str());
            m.append(") \u{2014} using key file");
            (Placement::File, m)
        },
    }
}

/// A key file is accepted exactly where, without the whitespace around it, it
/// is 64 hexadecimal digits, and says the 32 bytes that they stand for.
pub proof fn key_files_hold_64_digits(text: Seq<char>)
    ensures
        secret_of(text) is Ok <==> encode_utf8(trim(text)).len() == 64 && forall|i: int|
            0 <= i < encode_utf8(trim(text)).len() ==> is_hex_digit(
                #[trigger] encode_utf8(trim(text))[i],
            ),
        secret_of(text) is Ok ==> secret_of(text)->Ok_0 == unhex(encode_utf8(trim(text))),
{
}

} // verus!
