use nafaq::identity::IdentityStatus::{CreatedPersistent, LoadedPersistent, ResetRequired};
use nafaq::encoding::{decode_base64_data, hex_decode, hex_encode, to_base64};
use nafaq::identity::{
    identity_plan, secret_key_bytes, secret_key_text, status_from_store, IdentityPlan,
    IdentityStatus, StoredSecretKey,
};

#[test]
fn start_up_plans() {
    assert_eq!(
        identity_plan(None, StoredSecretKey::Absent),
        IdentityPlan::CreateAndPersist
    );
    assert_eq!(
        identity_plan(Some(false), StoredSecretKey::Text("k".into())),
        IdentityPlan::Load {
            raw: "k".into(),
            set_persistent_flag: true
        }
    );
    assert_eq!(
        identity_plan(Some(true), StoredSecretKey::Text("k".into())),
        IdentityPlan::Load {
            raw: "k".into(),
            set_persistent_flag: false
        }
    );
    assert_eq!(
        identity_plan(Some(true), StoredSecretKey::Absent),
        IdentityPlan::Fail(
            "persistent node identity is enabled but no secret key was found; explicit reset required"
                .into()
        )
    );
    assert_eq!(
        identity_plan(Some(false), StoredSecretKey::NotText),
        IdentityPlan::Fail("stored node identity is invalid: secret_key must be a string".into())
    );
}

#[test]
fn lost_key_requires_reset() {
    assert_eq!(status_from_store(None, false, LoadedPersistent), ResetRequired);
    assert_eq!(status_from_store(Some(true), false, CreatedPersistent), ResetRequired);
    assert_eq!(status_from_store(Some(false), false, LoadedPersistent), LoadedPersistent);
    assert_eq!(status_from_store(Some(true), true, CreatedPersistent), CreatedPersistent);
}

#[test]
fn stored_key_reads_back() {
    let key: [u8; 32] = core::array::from_fn(|i| (i * 37 + 5) as u8);
    let text = secret_key_text(&key);
    assert_eq!(text.len(), 64);
    assert!(text.chars().all(|c| c.is_ascii_hexdigit() && !c.is_ascii_uppercase()));
    assert_eq!(secret_key_bytes(&text), Some(key.to_vec()));
    // Upper-case hex is accepted too.
    assert_eq!(secret_key_bytes(&text.to_uppercase()), Some(key.to_vec()));
    // Base64 of 32 bytes is the other accepted form.
    let b64 = to_base64(&key);
    assert_eq!(secret_key_bytes(&b64), Some(key.to_vec()));
    // Anything else is refused.
    assert_eq!(secret_key_bytes("not a key"), None);
    assert_eq!(secret_key_bytes(&to_base64(&[1, 2, 3])), None);
}

#[test]
fn hex_encoding() {
    assert_eq!(hex_encode(&[0x00, 0x0f, 0xa0, 0xff]), "000fa0ff");
    assert_eq!(hex_decode(b"000FA0ff"), Some(vec![0x00, 0x0f, 0xa0, 0xff]));
    assert_eq!(hex_decode(b"abc"), None);
    assert_eq!(hex_decode(b"zz"), None);
    assert_eq!(hex_decode(b""), Some(vec![]));
}

#[test]
fn base64_data_decodes_or_reports_an_error() {
    assert_eq!(decode_base64_data("aGVsbG8="), Ok(b"hello".to_vec()));
    assert_eq!(to_base64(b"hello"), "aGVsbG8=");
    let err = decode_base64_data("!!!").unwrap_err();
    assert!(err.starts_with("base64 decode error: "), "{err}");
}
