//! The node's persistent identity: what the stored settings lead to at
//! start-up, how the secret key is written and read back, and the identity
//! status shown in the settings.

use vstd::prelude::*;
use vstd::string::StringSliceAdditionalSpecFns;

use crate::encoding::{
    ascii_bytes, base64_bytes_of_len, base64_standard_decoding, hex_decode, hex_encode, hex_spec,
    hex_value, lemma_hex_roundtrip, unhex_spec,
};

verus! {

#[derive(Debug, Clone, Copy, PartialEq, Eq, Structural)]
pub enum IdentityStatus {
    LoadedPersistent,
    CreatedPersistent,
    ResetRequired,
}

/// What the settings store holds under the secret key entry.
#[derive(Debug, Clone, PartialEq, Eq)]
pub enum StoredSecretKey {
    Absent,
    /// Present but not a string.
    NotText,
    Text(String),
}

/// What start-up does about the identity.
#[derive(Debug, Clone, PartialEq, Eq)]
pub enum IdentityPlan {
    /// Parse this stored key; set the persistence flag first if it is off.
    Load { raw: String, set_persistent_flag: bool },
    /// No key and persistence never enabled: create a key and persist it.
    CreateAndPersist,
    /// Refuse to start with this error.
    Fail(String),
}

/// Decides start-up from the persistence flag (absent means off) and the
/// stored key. A stored key is loaded; a key that is not a string, or a
/// missing key while persistence is on, is an error that needs an explicit
/// reset; otherwise a new key is created.
pub fn identity_plan(persistent_flag: Option<bool>, stored: StoredSecretKey) -> (p: IdentityPlan)
    ensures
        match stored {
            StoredSecretKey::NotText => (p matches IdentityPlan::Fail(e) && e@
                == "stored node identity is invalid: secret_key must be a string"@),
            StoredSecretKey::Text(raw) => p == IdentityPlan::Load {
                raw,
                set_persistent_flag: persistent_flag != Some(true),
            },
            StoredSecretKey::Absent => if persistent_flag == Some(true) {
                (p matches IdentityPlan::Fail(e) && e@
                    == "persistent node identity is enabled but no secret key was found; explicit reset required"@)
            } else {
                p == IdentityPlan::CreateAndPersist
            },
        },
{
    let persistent = match persistent_flag {
        Some(true) => true,
        _ => false,
    };
    match stored {
        StoredSecretKey::NotText => IdentityPlan::Fail(
            "stored node identity is invalid: secret_key must be a string".to_owned(),
        ),
        StoredSecretKey::Text(raw) => IdentityPlan::Load { raw, set_persistent_flag: !persistent },
        StoredSecretKey::Absent => {
            if persistent {
                IdentityPlan::Fail(
                    "persistent node identity is enabled but no secret key was found; explicit reset required".to_owned(),
                )
            } else {
                IdentityPlan::CreateAndPersist
            }
        },
    }
}

/// The identity status to show: a store that requires persistence (absent
/// means it does) but has lost the key needs a reset; otherwise the status
/// found at start-up stands.
pub fn status_from_store(
    persistent_flag: Option<bool>,
    has_secret_key: bool,
    loaded_status: IdentityStatus,
) -> (s: IdentityStatus)
    ensures
        s == (if persistent_flag != Some(false) && !has_secret_key {
            IdentityStatus::ResetRequired
        } else {
            loaded_status
        }),
{
    let persistent = match persistent_flag {
        Some(false) => false,
        _ => true,
    };
    if persistent && !has_secret_key {
        IdentityStatus::ResetRequired
    } else {
        loaded_status
    }
}

/// The text a secret key is stored as: its bytes in lowercase hex.
pub fn secret_key_text(key: &[u8; 32]) -> (s: String)
    ensures
        s@ == hex_spec(key@),
{
    hex_encode(key.as_slice())
}

/// The secret key bytes a stored text stands for, when it is not in the
/// key type's own format: 64 hex digits, or else standard base64 of 32
/// bytes.
pub open spec fn secret_key_from_text(raw: Seq<u8>) -> Option<Seq<u8>> {
    if raw.len() == 64 && unhex_spec(raw) is Some {
        unhex_spec(raw)
    } else {
        match base64_standard_decoding(raw) {
            Some(v) => if v.len() == 32 {
                Some(v)
            } else {
                None
            },
            None => None,
        }
    }
}

pub fn secret_key_bytes(raw: &str) -> (r: Option<Vec<u8>>)
    ensures
        match secret_key_from_text(raw.spec_bytes()) {
            Some(v) => r matches Some(w) && w@ == v,
            None => r is None,
        },
{
    let bytes = raw.as_bytes();
    if bytes.len() == 64 {
        match hex_decode(bytes) {
            Some(v) => {
                return Some(v);
            },
            None => {},
        }
    }
    base64_bytes_of_len(raw, 32)
}

/// A key written as its stored text reads back as the same key.
pub proof fn lemma_stored_key_roundtrip(key: Seq<u8>)
    requires
        key.len() == 32,
    ensures
        secret_key_from_text(vstd::utf8::encode_utf8(hex_spec(key))) == Some(key),
{
    lemma_hex_roundtrip(key);
    lemma_hex_len(key);
    lemma_hex_ascii(key);
    vstd::utf8::is_ascii_chars_encode_utf8(hex_spec(key));
    assert(vstd::utf8::encode_utf8(hex_spec(key)) =~= ascii_bytes(hex_spec(key)));
}

proof fn lemma_hex_ascii(bytes: Seq<u8>)
    ensures
        vstd::utf8::is_ascii_chars(hex_spec(bytes)),
    decreases bytes.len(),
{
    if bytes.len() > 0 {
        lemma_hex_ascii(bytes.drop_last());
        let h = hex_spec(bytes);
        let p = hex_spec(bytes.drop_last());
        assert forall|i: int| 0 <= i < h.len() implies '\0' <= #[trigger] h[i] <= '\u{7f}' by {
            if i < p.len() {
                assert(h[i] == p[i]);
            }
        }
    }
}

proof fn lemma_hex_len(bytes: Seq<u8>)
    ensures
        hex_spec(bytes).len() == 2 * bytes.len(),
        ascii_bytes(hex_spec(bytes)).len() == 2 * bytes.len(),
    decreases bytes.len(),
{
    if bytes.len() > 0 {
        lemma_hex_len(bytes.drop_last());
    }
}

} // verus!
