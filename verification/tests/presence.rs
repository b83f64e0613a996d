use nafaq::presence::{derive_topic, presence_changed, DOMAIN_SEPARATOR};

fn random_key() -> [u8; 32] {
    rand::random()
}

#[test]
fn topic_derivation_is_symmetric() {
    let a = random_key();
    let b = random_key();
    assert_eq!(derive_topic(&a, &b), derive_topic(&b, &a));
}

#[test]
fn topic_derivation_differs_for_different_pairs() {
    let a = random_key();
    let b = random_key();
    let c = random_key();
    assert_ne!(derive_topic(&a, &b), derive_topic(&a, &c));
}

#[test]
fn topic_derivation_includes_domain_separator() {
    // Sanity check: changing the domain separator changes the output.
    let a = random_key();
    let b = random_key();
    let topic = derive_topic(&a, &b);
    let (low, high) = if a <= b { (a, b) } else { (b, a) };
    let mut raw = blake3::Hasher::new();
    raw.update(&low);
    raw.update(&high);
    let raw_topic = *raw.finalize().as_bytes();
    assert_ne!(topic, raw_topic);
}

#[test]
fn topic_is_the_hash_of_separator_zero_and_sorted_keys() {
    let a = [2u8; 32];
    let b = [1u8; 32];
    let mut hasher = blake3::Hasher::new();
    hasher.update(DOMAIN_SEPARATOR.as_bytes());
    hasher.update(&[0u8]);
    hasher.update(&b);
    hasher.update(&a);
    assert_eq!(derive_topic(&a, &b), *hasher.finalize().as_bytes());
    // A key paired with itself is fine too.
    assert_eq!(derive_topic(&a, &a), derive_topic(&a, &a));
}

#[test]
fn presence_changes_are_reported_once() {
    assert!(presence_changed(None, true));
    assert!(presence_changed(None, false));
    assert!(!presence_changed(Some(true), true));
    assert!(presence_changed(Some(true), false));
}
