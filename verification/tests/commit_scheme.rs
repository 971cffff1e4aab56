use std::collections::HashSet;

use bitcoin_hashes::hex::FromHex;
use bitcoin_hashes::sha256d;
use commit_verify::{CommitVerify, PrehashedProtocol};

#[derive(Clone, PartialEq, Eq, Debug, Hash)]
struct DummyHashCommitment(sha256d::Hash);

impl CommitVerify<Vec<u8>, PrehashedProtocol> for DummyHashCommitment {
    fn commit(msg: &Vec<u8>) -> Self {
        Self(<sha256d::Hash as bitcoin_hashes::Hash>::hash(msg.as_ref()))
    }

    fn verify(&self, msg: &Vec<u8>) -> bool {
        Self::commit(msg) == *self
    }
}

fn gen_messages() -> Vec<Vec<u8>> {
    vec![
        // empty message
        b"".to_vec(),
        // zero byte message
        b"\x00".to_vec(),
        // text message
        b"test".to_vec(),
        // text length-extended message
        b"test*".to_vec(),
        // short binary message
        Vec::from_hex("deadbeef").unwrap(),
        // length-extended version
        Vec::from_hex("deadbeef00").unwrap(),
        // prefixed version
        Vec::from_hex("00deadbeef").unwrap(),
        // serialized public key as text
        b"0279be667ef9dcbbac55a06295ce870b07029bfcdb2dce28d959f2815b16f81798".to_vec(),
        // the same public key binary data
        Vec::from_hex("0279be667ef9dcbbac55a06295ce870b07029bfcdb2dce28d959f2815b16f81798")
            .unwrap(),
        // different public key
        Vec::from_hex("02f9308a019258c31049344f85f89d5229b531c845836f99b08601f113bce036f9")
            .unwrap(),
    ]
}

fn commit_verify_suite(messages: Vec<Vec<u8>>) {
    messages.iter().fold(
        HashSet::<DummyHashCommitment>::with_capacity(messages.len()),
        |mut acc, msg| {
            let commitment = DummyHashCommitment::commit(msg);

            // Commitments MUST be deterministic: each message should
            // produce unique commitment
            (1..10).for_each(|_| {
                assert_eq!(DummyHashCommitment::commit(msg), commitment);
            });

            // Testing verification
            assert!(commitment.verify(msg));

            messages.iter().for_each(|m| {
                // Testing that commitment verification succeeds only
                // for the original message and fails for the rest
                assert_eq!(commitment.verify(m), m == msg);
            });

            acc.iter().for_each(|cmt| {
                // Testing that verification against other commitments
                // returns `false`
                assert!(!cmt.verify(msg));
            });

            // Detecting collision
            assert!(acc.insert(commitment));

            acc
        },
    );
}

#[test]
fn test_commit_verify() {
    commit_verify_suite(gen_messages());
}
