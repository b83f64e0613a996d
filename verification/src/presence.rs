//! Presence of contacts: the gossip topic two nodes share, and when an
//! online/offline change is reported.

use vstd::prelude::*;
use vstd::string::StringSliceAdditionalSpecFns;

use crate::bytes::{lemma_lex_trichotomy, lex_less, lex_less_bytes, push_all};

verus! {

/// Prefixed to every topic derivation, so a topic can't collide with a hash
/// of the same key bytes computed elsewhere.
pub const DOMAIN_SEPARATOR: &'static str = "nafaq-presence-v1";

/// The BLAKE3 digest of `input` (what `blake3::hash` computes).
pub uninterp spec fn blake3_hash(input: Seq<u8>) -> Seq<u8>;

/// Calls `blake3::hash`, taking its 32 digest bytes; the digest is named by
/// [`blake3_hash`] of the input bytes and nothing more is claimed of it.
#[verifier::external_body]
fn blake3_digest(input: &[u8]) -> (out: [u8; 32])
    ensures
        out@ == blake3_hash(input@),
{
    *blake3::hash(input).as_bytes()
}

/// The two keys in byte order, the smaller first.
pub open spec fn ordered_pair(a: Seq<u8>, b: Seq<u8>) -> (Seq<u8>, Seq<u8>) {
    if !lex_less(b, a) {
        (a, b)
    } else {
        (b, a)
    }
}

/// What is hashed for the topic of the pair (a, b): the domain separator, a
/// zero byte, then the smaller key and the larger one.
pub open spec fn topic_input(a: Seq<u8>, b: Seq<u8>) -> Seq<u8> {
    DOMAIN_SEPARATOR.spec_bytes() + seq![0u8] + ordered_pair(a, b).0 + ordered_pair(a, b).1
}

/// The gossip topic two nodes meet on to see each other's presence,
/// derived from their public keys.
pub fn derive_topic(a: &[u8; 32], b: &[u8; 32]) -> (t: [u8; 32])
    ensures
        t@ == blake3_hash(topic_input(a@, b@)),
{
    let mut input: Vec<u8> = Vec::new();
    push_all(&mut input, DOMAIN_SEPARATOR.as_bytes());
    input.push(0u8);
    if !lex_less_bytes(b.as_slice(), a.as_slice()) {
        push_all(&mut input, a.as_slice());
        push_all(&mut input, b.as_slice());
    } else {
        push_all(&mut input, b.as_slice());
        push_all(&mut input, a.as_slice());
    }
    assert(input@ =~= topic_input(a@, b@));
    blake3_digest(input.as_slice())
}

/// The topic does not depend on which of the two derives it.
pub proof fn lemma_topic_symmetric(a: Seq<u8>, b: Seq<u8>)
    ensures
        topic_input(a, b) == topic_input(b, a),
        blake3_hash(topic_input(a, b)) == blake3_hash(topic_input(b, a)),
{
    lemma_lex_trichotomy(a, b);
    assert(ordered_pair(a, b) == ordered_pair(b, a));
}

/// Whether setting a contact's presence to `online` is a change worth
/// reporting, given what was known before (nothing, or a previous state).
pub fn presence_changed(previous: Option<bool>, online: bool) -> (b: bool)
    ensures
        b == (previous != Some(online)),
{
    match previous {
        Some(p) => p != online,
        None => true,
    }
}

} // verus!
