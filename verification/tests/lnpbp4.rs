use bitcoin_hashes::{sha256, HashEngine};
use commit_verify::hashes::{midstate_entropy, midstate_leaf, midstate_node};
use commit_verify::{
    Error, Lnpbp4Tag, Message, MerkleBlock, MerkleNode, MerkleTree, MessageMap, MultiCommitment,
    MultiSource, ProtocolId, TreeNode, UnrelatedProof,
};

fn gen_proto_id(index: usize) -> ProtocolId {
    let hash = <sha256::Hash as bitcoin_hashes::Hash>::hash(format!("protocol#{}", index).as_bytes());
    ProtocolId(bitcoin_hashes::Hash::into_inner(hash))
}

fn gen_msg(index: usize) -> Message {
    let hash = <sha256::Hash as bitcoin_hashes::Hash>::hash(format!("message#{}", index).as_bytes());
    Message(bitcoin_hashes::Hash::into_inner(hash))
}

fn gen_source() -> MultiSource {
    let mut messages = MessageMap::new();
    messages.insert(gen_proto_id(0), gen_msg(0));
    messages.insert(gen_proto_id(1), gen_msg(1));
    messages.insert(gen_proto_id(2), gen_msg(2));
    MultiSource { min_depth: 3, messages }
}

fn tag_midstate(tag: &[u8]) -> Vec<u8> {
    let tag_hash = <sha256::Hash as bitcoin_hashes::Hash>::hash(tag);
    let mut engine = <sha256::Hash as bitcoin_hashes::Hash>::engine();
    engine.input(&tag_hash[..]);
    engine.input(&tag_hash[..]);
    engine.midstate().into_inner().to_vec()
}

#[test]
fn test_lnpbp4_tag() {
    assert_eq!(tag_midstate(b"LNPBP4"), Lnpbp4Tag::midstate());
}

#[test]
fn test_entropy_tag() {
    assert_eq!(tag_midstate(b"LNPBP4:entropy"), midstate_entropy());
}

#[test]
fn test_leaf_tag() {
    assert_eq!(tag_midstate(b"LNPBP4:leaf"), midstate_leaf());
}

#[test]
fn test_node_tag() {
    assert_eq!(tag_midstate(b"LNPBP4:node"), midstate_node());
}

#[test]
fn test_commitment_hash_matches_engine() {
    let payload = b"test".to_vec();
    let midstate = sha256::Midstate::from_inner({
        let v = Lnpbp4Tag::midstate();
        let mut arr = [0u8; 32];
        arr.copy_from_slice(&v);
        arr
    });
    let mut engine = sha256::HashEngine::from_midstate(midstate, 64);
    engine.input(&payload);
    let digest = <sha256::Hash as bitcoin_hashes::Hash>::from_engine(engine);
    let expected = bitcoin_hashes::Hash::into_inner(digest).to_vec();
    assert_eq!(MultiCommitment::hash(&payload).to_vec(), expected);
}

#[test]
fn test_tree() {
    let src = gen_source();

    let tree = MerkleTree::try_commit(&src).unwrap();
    assert_eq!(tree.depth(), 3);
    assert_eq!(tree.width(), 8);

    assert_ne!(tree.commit_conceal().to_vec(), tree.consensus_commit().to_vec());
    assert_eq!(
        MultiCommitment::hash(&tree.commit_conceal().to_vec()),
        tree.consensus_commit()
    );

    let tree2 = MerkleTree::try_commit(&src).unwrap();
    assert_eq!(tree2.depth(), 3);

    // Each time we must generate different randomness
    assert_ne!(tree.entropy(), tree2.entropy());
    assert_ne!(tree, tree2);
    assert_ne!(tree.consensus_commit(), tree2.consensus_commit());
}

#[test]
fn test_block() {
    let src = gen_source();
    let tree = MerkleTree::try_commit(&src).unwrap();
    let block = MerkleBlock::from_tree(&tree);
    assert_eq!(tree.depth(), block.depth());
    assert_eq!(tree.width(), block.width());
    assert_eq!(Some(tree.entropy()), block.entropy());

    let mut entries = vec![
        (gen_proto_id(0), gen_msg(0)),
        (gen_proto_id(1), gen_msg(1)),
        (gen_proto_id(2), gen_msg(2)),
    ];
    entries.sort_by(|a, b| a.0 .0.cmp(&b.0 .0));
    let first = entries[0];
    let second = entries[1];
    let third = entries[2];

    let cs = block.cross_section();
    assert_eq!(cs[0], TreeNode::CommitmentLeaf {
        protocol_id: third.0,
        message: third.1,
    });
    assert_eq!(cs[3], TreeNode::CommitmentLeaf {
        protocol_id: first.0,
        message: first.1,
    });
    assert_eq!(cs[6], TreeNode::CommitmentLeaf {
        protocol_id: second.0,
        message: second.1,
    });

    assert_eq!(tree.protocol_id_pos(&first.0), 3);
    assert_eq!(tree.protocol_id_pos(&second.0), 6);
    assert_eq!(tree.protocol_id_pos(&third.0), 0);

    for pos in [1usize, 2, 4, 5, 7] {
        assert_eq!(cs[pos], TreeNode::ConcealedNode {
            depth: 3,
            hash: MerkleNode::with_entropy(tree.entropy(), pos as u16),
        });
    }
}

#[test]
fn test_proof_round_trip() {
    let src = gen_source();
    let tree = MerkleTree::try_commit(&src).unwrap();
    let commitment = tree.consensus_commit();
    let block = MerkleBlock::from_tree(&tree);
    assert_eq!(block.consensus_commit(), commitment);
    for i in 0..3usize {
        let pid = gen_proto_id(i);
        let msg = gen_msg(i);
        let proof = block.to_merkle_proof(&pid).unwrap();
        assert_eq!(proof.pos(), tree.protocol_id_pos(&pid));
        assert_eq!(proof.as_path().len(), 3);
        assert_eq!(proof.depth(), 4);
        assert_eq!(proof.width(), 16);
        assert_eq!(proof.to_path(), proof.as_path().to_vec());
        assert!(proof.verify(pid, msg, commitment));
        // the proof binds only this protocol id and message
        assert!(!proof.verify(gen_proto_id(9), msg, commitment));
        assert!(!proof.verify(pid, gen_msg(9), commitment));
        let path = proof.to_path();
        assert_eq!(proof.into_path(), path);
    }
}

#[test]
fn test_leaf_not_known() {
    let src = gen_source();
    let tree = MerkleTree::try_commit(&src).unwrap();
    let block = MerkleBlock::from_tree(&tree);
    let absent = gen_proto_id(7);
    let r = block.to_merkle_proof(&absent);
    assert!(matches!(r, Err(e) if e.0 .0 == absent.0));
    let mut b2 = block.clone();
    assert!(b2.conceal_except(&absent).is_err());
    // a leaf already concealed is no longer known
    let mut b3 = block.clone();
    b3.conceal_except(&gen_proto_id(0)).unwrap();
    assert!(b3.to_merkle_proof(&gen_proto_id(1)).is_err());
}

#[test]
fn test_conceal_idempotent() {
    let src = gen_source();
    let tree = MerkleTree::try_commit(&src).unwrap();
    let mut block = MerkleBlock::from_tree(&tree);
    let pid = gen_proto_id(1);
    let first = block.conceal_except(&pid).unwrap();
    assert!(first > 0);
    assert_eq!(block.entropy(), None);
    let commitment = block.consensus_commit();
    // concealing the commitment tree never changes the commitment
    assert_eq!(commitment, tree.consensus_commit());
    // concealing an already-concealed block again is a no-op
    let second = block.conceal_except(&pid).unwrap();
    assert_eq!(second, 0);
    assert_eq!(block.consensus_commit(), commitment);
}

#[test]
fn test_merge_reveal() {
    let src = gen_source();
    let tree = MerkleTree::try_commit(&src).unwrap();
    let commitment = tree.consensus_commit();
    let block = MerkleBlock::from_tree(&tree);

    let p0 = block.to_merkle_proof(&gen_proto_id(0)).unwrap();
    let p1 = block.to_merkle_proof(&gen_proto_id(1)).unwrap();

    // a block rebuilt from a single proof carries the same commitment
    let mut m0 = MerkleBlock::with(&p0, &gen_proto_id(0), &gen_msg(0));
    assert_eq!(m0.consensus_commit(), commitment);

    // merging the proofs in either order exposes both leaves under the
    // same commitment
    m0.merge_reveal(&p1, &gen_proto_id(1), &gen_msg(1)).unwrap();
    let mut m1 = MerkleBlock::with(&p1, &gen_proto_id(1), &gen_msg(1));
    m1.merge_reveal(&p0, &gen_proto_id(0), &gen_msg(0)).unwrap();

    assert_eq!(m0.consensus_commit(), commitment);
    assert_eq!(m1.consensus_commit(), commitment);
    assert_eq!(m0.cross_section(), m1.cross_section());
    assert!(m0.to_merkle_proof(&gen_proto_id(0)).is_ok());
    assert!(m0.to_merkle_proof(&gen_proto_id(1)).is_ok());

    // merging a proof about an unrelated commitment fails
    let tree2 = MerkleTree::try_commit(&src).unwrap();
    let block2 = MerkleBlock::from_tree(&tree2);
    let alien = block2.to_merkle_proof(&gen_proto_id(0)).unwrap();
    let mut m2 = MerkleBlock::from_tree(&tree);
    let r = m2.merge_reveal(&alien, &gen_proto_id(0), &gen_msg(0));
    assert_eq!(r, Err(UnrelatedProof));
}

#[test]
fn test_commit_scenario() {
    let src = gen_source();
    let t1 = MerkleTree::try_commit_with_entropy(&src, 1).unwrap();
    let t2 = MerkleTree::try_commit_with_entropy(&src, 2).unwrap();
    assert_eq!(t1.depth(), 3);
    assert_eq!(t2.depth(), 3);
    assert_eq!(t1.width(), 8);
    // slot assignment does not depend on the entropy
    for i in 0..3usize {
        let pid = gen_proto_id(i);
        assert_eq!(t1.protocol_id_pos(&pid), t2.protocol_id_pos(&pid));
        assert_eq!(t1.protocol_id_pos(&pid), pid.0[0] as u16 % 8);
    }
    // swapping in a different entropy changes the commitment
    assert_ne!(t1.consensus_commit(), t2.consensus_commit());
    // the commitment is a pure function of depth, entropy and messages
    let t1b = MerkleTree::try_commit_with_entropy(&src, 1).unwrap();
    assert_eq!(t1.consensus_commit(), t1b.consensus_commit());
    assert_eq!(t1.commit_conceal().to_vec(), t1b.commit_conceal().to_vec());
}

#[test]
fn test_commit_errors() {
    let empty = MultiSource { min_depth: 0, messages: MessageMap::new() };
    assert_eq!(MerkleTree::try_commit(&empty), Err(Error::Empty));

    // two ids equal in their low two bytes collide at every depth
    let mut a = [0u8; 32];
    a[0] = 1;
    a[1] = 2;
    a[2] = 3;
    let mut b = [0u8; 32];
    b[0] = 1;
    b[1] = 2;
    b[2] = 9;
    let mut messages = MessageMap::new();
    messages.insert(ProtocolId(a), gen_msg(0));
    messages.insert(ProtocolId(b), gen_msg(1));
    let colliding = MultiSource { min_depth: 0, messages };
    assert_eq!(MerkleTree::try_commit(&colliding), Err(Error::CantFitInMaxSlots));

    let src = MultiSource::default();
    assert_eq!(src.min_depth, 3);
    // an empty map at a positive minimal depth commits fine
    let tree = MerkleTree::try_commit(&src).unwrap();
    assert_eq!(tree.depth(), 3);
}

#[test]
fn test_message_map() {
    let mut map = MessageMap::new();
    assert!(map.is_empty());
    assert_eq!(map.insert(gen_proto_id(0), gen_msg(0)), None);
    assert_eq!(map.insert(gen_proto_id(1), gen_msg(1)), None);
    assert_eq!(map.len(), 2);
    // inserting under a present id replaces the message
    let prev = map.insert(gen_proto_id(0), gen_msg(5));
    assert_eq!(prev, Some(gen_msg(0)));
    assert_eq!(map.len(), 2);
}
