//! Byte-level value types and domain-separated tagged hashing.
//!
//! Every hash used by the commitment tree is a SHA-256 digest computed from a
//! fixed midstate that is unique to one logical purpose (entropy placeholder,
//! commitment leaf, branch node, final commitment).  Fixing the midstate per
//! purpose keeps digests from different purposes from ever colliding for any
//! payload choice.

use vstd::bytes::*;
use vstd::prelude::*;

verus! {

/// Opaque 32-byte identifier naming the sub-protocol a message belongs to.
#[derive(Copy, Clone, Debug)]
pub struct ProtocolId(pub [u8; 32]);

/// A 32-byte message hash, pre-hashed by the caller under its own domain tag.
#[derive(Copy, Clone, Debug)]
pub struct Message(pub [u8; 32]);

/// A 32-byte node digest inside the commitment tree.
#[derive(Copy, Clone, Debug)]
pub struct MerkleNode(pub [u8; 32]);

/// The final tagged 32-byte commitment value.
#[derive(Copy, Clone, Debug)]
pub struct MultiCommitment(pub [u8; 32]);

impl View for ProtocolId {
    type V = Seq<u8>;

    open spec fn view(&self) -> Seq<u8> {
        self.0@
    }
}

impl View for Message {
    type V = Seq<u8>;

    open spec fn view(&self) -> Seq<u8> {
        self.0@
    }
}

impl View for MerkleNode {
    type V = Seq<u8>;

    open spec fn view(&self) -> Seq<u8> {
        self.0@
    }
}

impl View for MultiCommitment {
    type V = Seq<u8>;

    open spec fn view(&self) -> Seq<u8> {
        self.0@
    }
}

/// Compares two 32-byte arrays for equality, byte by byte.
pub fn bytes32_eq(a: &[u8; 32], b: &[u8; 32]) -> (r: bool)
    ensures
        r == (a@ == b@),
{
    let mut i: usize = 0;
    while i < 32
        invariant
            i <= 32,
            forall|j: int| 0 <= j < i ==> a@[j] == b@[j],
        decreases 32 - i,
    {
        if a[i] != b[i] {
            assert(a@ != b@) by {
                assert(a@[i as int] != b@[i as int]);
            }
            return false;
        }
        i += 1;
    }
    proof {
        assert(a@ =~= b@);
    }
    true
}

impl PartialEq for ProtocolId {
    fn eq(&self, other: &Self) -> (r: bool) {
        bytes32_eq(&self.0, &other.0)
    }
}

impl vstd::std_specs::cmp::PartialEqSpecImpl for ProtocolId {
    open spec fn obeys_eq_spec() -> bool {
        true
    }

    open spec fn eq_spec(&self, other: &Self) -> bool {
        self.0@ == other.0@
    }
}

impl PartialEq for Message {
    fn eq(&self, other: &Self) -> (r: bool) {
        bytes32_eq(&self.0, &other.0)
    }
}

impl vstd::std_specs::cmp::PartialEqSpecImpl for Message {
    open spec fn obeys_eq_spec() -> bool {
        true
    }

    open spec fn eq_spec(&self, other: &Self) -> bool {
        self.0@ == other.0@
    }
}

impl PartialEq for MerkleNode {
    fn eq(&self, other: &Self) -> (r: bool) {
        bytes32_eq(&self.0, &other.0)
    }
}

impl vstd::std_specs::cmp::PartialEqSpecImpl for MerkleNode {
    open spec fn obeys_eq_spec() -> bool {
        true
    }

    open spec fn eq_spec(&self, other: &Self) -> bool {
        self.0@ == other.0@
    }
}

impl PartialEq for MultiCommitment {
    fn eq(&self, other: &Self) -> (r: bool) {
        bytes32_eq(&self.0, &other.0)
    }
}

impl vstd::std_specs::cmp::PartialEqSpecImpl for MultiCommitment {
    open spec fn obeys_eq_spec() -> bool {
        true
    }

    open spec fn eq_spec(&self, other: &Self) -> bool {
        self.0@ == other.0@
    }
}

// Midstates of a SHA-256 engine after absorbing one 64-byte block holding the
// tag's own hash twice, the standard tagged-hash construction.  Each 32-byte
// midstate is stored as two little-endian 128-bit halves.

/// Low half of the midstate for entropy placeholder leaves.
pub const MIDSTATE_ENTROPY_LO: u128 = 0xad6bab602050ea19eeadff9f94860df4;

/// High half of the midstate for entropy placeholder leaves.
pub const MIDSTATE_ENTROPY_HI: u128 = 0x611e88d8d1d40d521878d38335b26111;

/// Low half of the midstate for commitment leaves.
pub const MIDSTATE_LEAF_LO: u128 = 0x684219cb65478d4a0c370bab6d894182;

/// High half of the midstate for commitment leaves.
pub const MIDSTATE_LEAF_HI: u128 = 0xb83161463aa69b326195d1bfa07c75aa;

/// Low half of the midstate for branch nodes.
pub const MIDSTATE_NODE_LO: u128 = 0x148a3d19585e5186bc8e873ff737dd24;

/// High half of the midstate for branch nodes.
pub const MIDSTATE_NODE_HI: u128 = 0xb57b9a340443d6b861d0949db30fc8f6;

/// Low half of the midstate for the final commitment.
pub const MIDSTATE_FINAL_LO: u128 = 0x1a361780c9d5747f1c642a22ba4d4b23;

/// High half of the midstate for the final commitment.
pub const MIDSTATE_FINAL_HI: u128 = 0x3f99ccf1896628de6fa1b1c2b34f7690;

/// The 32 midstate bytes for entropy placeholder leaves.
pub open spec fn midstate_entropy_s() -> Seq<u8> {
    spec_u128_to_le_bytes(MIDSTATE_ENTROPY_LO) + spec_u128_to_le_bytes(MIDSTATE_ENTROPY_HI)
}

/// The 32 midstate bytes for commitment leaves.
pub open spec fn midstate_leaf_s() -> Seq<u8> {
    spec_u128_to_le_bytes(MIDSTATE_LEAF_LO) + spec_u128_to_le_bytes(MIDSTATE_LEAF_HI)
}

/// The 32 midstate bytes for branch nodes.
pub open spec fn midstate_node_s() -> Seq<u8> {
    spec_u128_to_le_bytes(MIDSTATE_NODE_LO) + spec_u128_to_le_bytes(MIDSTATE_NODE_HI)
}

/// The 32 midstate bytes for the final commitment.
pub open spec fn midstate_final_s() -> Seq<u8> {
    spec_u128_to_le_bytes(MIDSTATE_FINAL_LO) + spec_u128_to_le_bytes(MIDSTATE_FINAL_HI)
}

fn midstate_bytes(lo: u128, hi: u128) -> (r: Vec<u8>)
    ensures
        r@ == spec_u128_to_le_bytes(lo) + spec_u128_to_le_bytes(hi),
        r@.len() == 32,
{
    let mut v = u128_to_le_bytes(lo);
    let mut h = u128_to_le_bytes(hi);
    v.append(&mut h);
    v
}

/// The 32 midstate bytes for entropy placeholder leaves.
pub fn midstate_entropy() -> (r: Vec<u8>)
    ensures
        r@ == midstate_entropy_s(),
        r@.len() == 32,
{
    midstate_bytes(MIDSTATE_ENTROPY_LO, MIDSTATE_ENTROPY_HI)
}

/// The 32 midstate bytes for commitment leaves.
pub fn midstate_leaf() -> (r: Vec<u8>)
    ensures
        r@ == midstate_leaf_s(),
        r@.len() == 32,
{
    midstate_bytes(MIDSTATE_LEAF_LO, MIDSTATE_LEAF_HI)
}

/// The 32 midstate bytes for branch nodes.
pub fn midstate_node() -> (r: Vec<u8>)
    ensures
        r@ == midstate_node_s(),
        r@.len() == 32,
{
    midstate_bytes(MIDSTATE_NODE_LO, MIDSTATE_NODE_HI)
}

/// The 32 midstate bytes for the final commitment.
pub fn midstate_final() -> (r: Vec<u8>)
    ensures
        r@ == midstate_final_s(),
        r@.len() == 32,
{
    midstate_bytes(MIDSTATE_FINAL_LO, MIDSTATE_FINAL_HI)
}

/// Tag marker for the final commitment hash domain.
pub struct Lnpbp4Tag;

impl Lnpbp4Tag {
    /// The 32 midstate bytes of this tag's pre-seeded hash engine.
    pub fn midstate() -> (r: Vec<u8>)
        ensures
            r@ == midstate_final_s(),
            r@.len() == 32,
    {
        midstate_final()
    }
}

/// The SHA-256 digest produced by an engine seeded with the given 32-byte
/// midstate after streaming the payload; a function of its arguments alone.
pub uninterp spec fn sha256_mid(mid: Seq<u8>, payload: Seq<u8>) -> Seq<u8>;

/// Relies on bitcoin_hashes sha256: `HashEngine::from_midstate`, the
/// `HashEngine::input` stream and `Hash::from_engine`.  The digest depends on
/// the midstate and the streamed payload alone.
#[verifier::external_body]
fn sha256_from_midstate(mid: &Vec<u8>, payload: &Vec<u8>) -> (r: [u8; 32])
    requires
        mid@.len() == 32,
    ensures
        r@ == sha256_mid(mid@, payload@),
{
    let mut m = [0u8; 32];
    m.copy_from_slice(mid.as_slice());
    let midstate = bitcoin_hashes::sha256::Midstate::from_inner(m);
    let mut engine = bitcoin_hashes::sha256::HashEngine::from_midstate(midstate, 64);
    bitcoin_hashes::HashEngine::input(&mut engine, payload.as_slice());
    let digest = <bitcoin_hashes::sha256::Hash as bitcoin_hashes::Hash>::from_engine(engine);
    <bitcoin_hashes::sha256::Hash as bitcoin_hashes::Hash>::into_inner(digest)
}

/// Relies on rand::random: draws a fresh 64-bit value.  Nothing is assumed
/// about the result; every outcome must be handled by the caller.
#[verifier::external_body]
pub(crate) fn random_u64() -> u64 {
    rand::random()
}

/// Digest of an entropy placeholder leaf: position `pos` filled from the
/// 64-bit entropy seed.
pub open spec fn entropy_hash_s(entropy: u64, pos: u16) -> Seq<u8> {
    sha256_mid(midstate_entropy_s(), spec_u64_to_le_bytes(entropy) + spec_u16_to_le_bytes(pos))
}

/// Digest of a commitment leaf in a tree of the given depth.
pub open spec fn leaf_hash_s(tree_depth: u8, pid: Seq<u8>, msg: Seq<u8>) -> Seq<u8> {
    sha256_mid(midstate_leaf_s(), seq![tree_depth] + pid + msg)
}

/// Digest of a branch node pairing two child digests: `node_depth` is the
/// level of the created parent, `offset` its index within that level.
pub open spec fn branch_hash_s(
    tree_depth: u8,
    node_depth: u8,
    offset: u16,
    left: Seq<u8>,
    right: Seq<u8>,
) -> Seq<u8> {
    sha256_mid(
        midstate_node_s(),
        seq![tree_depth] + seq![node_depth] + spec_u16_to_le_bytes(offset) + left + right,
    )
}

/// The externally visible commitment: final tagged digest of a payload
/// (normally a 32-byte concealed tree root).
pub open spec fn commitment_hash_s(payload: Seq<u8>) -> Seq<u8> {
    sha256_mid(midstate_final_s(), payload)
}

impl MerkleNode {
    /// Computes the placeholder digest filling an unused leaf slot.
    pub fn with_entropy(entropy: u64, pos: u16) -> (r: MerkleNode)
        ensures
            r@ == entropy_hash_s(entropy, pos),
    {
        let mid = midstate_entropy();
        let mut payload = u64_to_le_bytes(entropy);
        let mut tail = u16_to_le_bytes(pos);
        payload.append(&mut tail);
        MerkleNode(sha256_from_midstate(&mid, &payload))
    }

    /// Computes the digest of a revealed commitment leaf.
    pub fn with_commitment(protocol_id: &ProtocolId, message: &Message, depth: u8) -> (r:
        MerkleNode)
        ensures
            r@ == leaf_hash_s(depth, protocol_id@, message@),
    {
        let mid = midstate_leaf();
        let mut payload: Vec<u8> = Vec::new();
        payload.push(depth);
        payload.extend_from_slice(protocol_id.0.as_slice());
        payload.extend_from_slice(message.0.as_slice());
        assert(payload@ =~= seq![depth] + protocol_id@ + message@);
        MerkleNode(sha256_from_midstate(&mid, &payload))
    }

    /// Computes the digest of a branch node over two child digests.
    pub fn with_branch(
        left: &MerkleNode,
        right: &MerkleNode,
        tree_depth: u8,
        node_depth: u8,
        offset: u16,
    ) -> (r: MerkleNode)
        ensures
            r@ == branch_hash_s(tree_depth, node_depth, offset, left@, right@),
    {
        let mid = midstate_node();
        let mut payload: Vec<u8> = Vec::new();
        payload.push(tree_depth);
        payload.push(node_depth);
        let mut off = u16_to_le_bytes(offset);
        payload.append(&mut off);
        payload.extend_from_slice(left.0.as_slice());
        payload.extend_from_slice(right.0.as_slice());
        assert(payload@ =~= seq![tree_depth] + seq![node_depth] + spec_u16_to_le_bytes(offset)
            + left@ + right@);
        MerkleNode(sha256_from_midstate(&mid, &payload))
    }
}

impl MultiCommitment {
    /// Computes the final tagged commitment digest of an arbitrary payload.
    pub fn hash(payload: &Vec<u8>) -> (r: MultiCommitment)
        ensures
            r@ == commitment_hash_s(payload@),
    {
        let mid = midstate_final();
        MultiCommitment(sha256_from_midstate(&mid, payload))
    }

    /// The commitment digest as a fresh byte vector.
    pub fn to_vec(&self) -> (r: Vec<u8>)
        ensures
            r@ == self@,
    {
        let mut v: Vec<u8> = Vec::new();
        v.extend_from_slice(self.0.as_slice());
        v
    }
}

impl crate::commit::CommitVerify<Vec<u8>, crate::commit::PrehashedProtocol> for MultiCommitment {
    /// Commits to a pre-hashed message: the final tagged digest of its bytes.
    fn commit(msg: &Vec<u8>) -> (r: MultiCommitment)
        ensures
            r@ == commitment_hash_s(msg@),
    {
        MultiCommitment::hash(msg)
    }

    /// Verifies by re-committing and comparing.
    fn verify(&self, msg: &Vec<u8>) -> (r: bool)
        ensures
            r == (self@ == commitment_hash_s(msg@)),
    {
        let c = MultiCommitment::hash(msg);
        c == *self
    }
}

impl MerkleNode {
    /// The node digest as a fresh byte vector.
    pub fn to_vec(&self) -> (r: Vec<u8>)
        ensures
            r@ == self@,
    {
        let mut v: Vec<u8> = Vec::new();
        v.extend_from_slice(self.0.as_slice());
        v
    }
}

} // verus!
