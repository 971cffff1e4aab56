//! Partially-concealed cross-sections of a commitment tree.
//!
//! A [`MerkleBlock`] is an ordered sequence of nodes spanning the tree's leaf
//! order exactly once: each node is either a revealed commitment leaf or an
//! opaque digest standing for a whole subtree at a known level.  Concealment
//! replaces revealed leaves by their digests and then repeatedly merges
//! adjacent sibling digests one level up, until no sibling pair is left; a
//! fully concealed block reduces to the tree's root digest.

use crate::hashes::{
    branch_hash_s, commitment_hash_s, entropy_hash_s, leaf_hash_s, Message, MerkleNode,
    MultiCommitment, ProtocolId,
};
use crate::tree::{lemma_width_fits, map_has_pos, pid_pos_s, slot_of, MerkleTree};
use vstd::arithmetic::power2::pow2;
use vstd::prelude::*;

verus! {

/// A node of a block's cross-section.
#[derive(Copy, Clone, Debug)]
pub enum TreeNode {
    /// A node with concealed leaf or branch information.
    ConcealedNode {
        /// Level of the node: 0 is the root, `depth` the leaves.
        depth: u8,
        /// Digest of the subtree below this node.
        hash: MerkleNode,
    },
    /// A leaf storing a commitment under a given protocol.
    CommitmentLeaf {
        /// Protocol under which the commitment is created.
        protocol_id: ProtocolId,
        /// Message this leaf commits to.
        message: Message,
    },
}

/// The mathematical value of a cross-section node.
pub enum NodeV {
    /// An opaque digest standing at the given level.
    Hidden { level: u8, digest: Seq<u8> },
    /// A revealed leaf binding a protocol id to a message.
    Revealed { pid: Seq<u8>, msg: Seq<u8> },
}

impl View for TreeNode {
    type V = NodeV;

    open spec fn view(&self) -> NodeV {
        match *self {
            TreeNode::ConcealedNode { depth, hash } => NodeV::Hidden {
                level: depth,
                digest: hash@,
            },
            TreeNode::CommitmentLeaf { protocol_id, message } => NodeV::Revealed {
                pid: protocol_id@,
                msg: message@,
            },
        }
    }
}

/// The values of a whole cross-section.
pub open spec fn nodes_v(nodes: Seq<TreeNode>) -> Seq<NodeV> {
    nodes.map_values(|n: TreeNode| n@)
}

/// The level a node sits at: its own level for a concealed node, the leaf
/// level for a revealed leaf.
pub open spec fn v_depth_or(n: NodeV, tree_depth: u8) -> u8 {
    match n {
        NodeV::Hidden { level, .. } => level,
        NodeV::Revealed { .. } => tree_depth,
    }
}

/// The number of leaf slots a node spans.
pub open spec fn v_width(n: NodeV, tree_depth: u8) -> nat
    recommends
        v_depth_or(n, tree_depth) <= tree_depth,
{
    pow2((tree_depth - v_depth_or(n, tree_depth)) as nat)
}

/// The digest a node contributes: its stored digest, or the tagged leaf hash
/// of a revealed leaf.
pub open spec fn v_hash(n: NodeV, tree_depth: u8) -> Seq<u8> {
    match n {
        NodeV::Hidden { digest, .. } => digest,
        NodeV::Revealed { pid, msg } => leaf_hash_s(tree_depth, pid, msg),
    }
}

/// Total number of leaf slots a cross-section spans.
pub open spec fn covered_v(nodes: Seq<NodeV>, tree_depth: u8) -> nat
    decreases nodes.len(),
{
    if nodes.len() == 0 {
        0
    } else {
        covered_v(nodes.drop_first(), tree_depth) + v_width(nodes[0], tree_depth)
    }
}

/// Structural soundness of a cross-section starting at the given leaf slot:
/// every node sits at a level within the tree and starts at a slot aligned
/// to its own width.
pub open spec fn wf_section_v(nodes: Seq<NodeV>, tree_depth: u8, start: nat) -> bool
    decreases nodes.len(),
{
    if nodes.len() == 0 {
        true
    } else {
        let w = v_width(nodes[0], tree_depth);
        &&& v_depth_or(nodes[0], tree_depth) <= tree_depth
        &&& start % w == 0
        &&& wf_section_v(nodes.drop_first(), tree_depth, start + w)
    }
}

/// Number of revealed leaves in a cross-section.
pub open spec fn revealed_count_v(nodes: Seq<NodeV>) -> nat
    decreases nodes.len(),
{
    if nodes.len() == 0 {
        0
    } else {
        revealed_count_v(nodes.drop_first()) + (if nodes[0] is Revealed {
            1nat
        } else {
            0nat
        })
    }
}

/// Holds when some node is a revealed leaf under the given protocol id.
pub open spec fn reveals_pid_v(nodes: Seq<NodeV>, pid: Seq<u8>) -> bool {
    exists|i: int|
        0 <= i < nodes.len() && ((#[trigger] nodes[i]) matches NodeV::Revealed { pid: p, .. } && p
            == pid)
}

/// One step of leaf concealment: a revealed leaf outside the keep set is
/// replaced by its own tagged hash at the leaf level; other nodes stay.
pub open spec fn conceal_leaf_v(n: NodeV, tree_depth: u8, keep: Option<Seq<u8>>) -> NodeV {
    match n {
        NodeV::Revealed { pid, msg } => {
            if keep == Some(pid) {
                n
            } else {
                NodeV::Hidden { level: tree_depth, digest: leaf_hash_s(tree_depth, pid, msg) }
            }
        },
        NodeV::Hidden { .. } => n,
    }
}

/// Whether two adjacent nodes are concealed siblings that can merge: both
/// hidden at the same positive level, with the first starting an even node of
/// that level.
pub open spec fn mergeable_v(a: NodeV, b: NodeV, tree_depth: u8, start_a: nat) -> bool {
    &&& a matches NodeV::Hidden { level: ka, .. }
    &&& b matches NodeV::Hidden { level: kb, .. }
    &&& v_depth_or(a, tree_depth) == v_depth_or(b, tree_depth)
    &&& 1 <= v_depth_or(a, tree_depth) <= tree_depth
    &&& start_a % (2 * v_width(a, tree_depth)) == 0
}

/// The parent node replacing two merged siblings: one level up, carrying the
/// tagged branch hash of the pair.
pub open spec fn merged_v(a: NodeV, b: NodeV, tree_depth: u8, start_a: nat) -> NodeV {
    let k = v_depth_or(a, tree_depth);
    let parent_width = 2 * v_width(a, tree_depth);
    NodeV::Hidden {
        level: (k - 1) as u8,
        digest: branch_hash_s(
            tree_depth,
            (k - 1) as u8,
            (start_a / parent_width) as u16,
            v_hash(a, tree_depth),
            v_hash(b, tree_depth),
        ),
    }
}

/// Merges sibling pairs at the top of a partially built cross-section until
/// the top pair can no longer merge.
pub open spec fn merge_tops_v(out: Seq<NodeV>, tree_depth: u8) -> Seq<NodeV>
    decreases out.len(),
{
    if out.len() < 2 {
        out
    } else {
        let a = out[out.len() - 2];
        let b = out[out.len() - 1];
        let start_a = covered_v(out.take(out.len() - 2), tree_depth);
        if mergeable_v(a, b, tree_depth, start_a) {
            merge_tops_v(
                out.take(out.len() - 2).push(merged_v(a, b, tree_depth, start_a)),
                tree_depth,
            )
        } else {
            out
        }
    }
}

/// Left-to-right scan merging every adjacent pair of concealed siblings,
/// repeatedly, until no pair is left: the fixpoint of the sibling merge.
pub open spec fn merge_scan_v(nodes: Seq<NodeV>, tree_depth: u8) -> Seq<NodeV>
    decreases nodes.len(),
{
    if nodes.len() == 0 {
        nodes
    } else {
        merge_tops_v(merge_scan_v(nodes.drop_last(), tree_depth).push(nodes.last()), tree_depth)
    }
}

/// The whole concealment operation on a cross-section: conceal every leaf
/// outside the keep set, then merge concealed siblings to the fixpoint.
pub open spec fn conceal_v(nodes: Seq<NodeV>, tree_depth: u8, keep: Option<Seq<u8>>) -> Seq<
    NodeV,
> {
    merge_scan_v(
        nodes.map_values(|n: NodeV| conceal_leaf_v(n, tree_depth, keep)),
        tree_depth,
    )
}

// Structural lemmas about covered_v and wf_section_v.

/// Spanned width adds over concatenation.
proof fn lemma_covered_add(a: Seq<NodeV>, b: Seq<NodeV>, d: u8)
    ensures
        covered_v(a + b, d) == covered_v(a, d) + covered_v(b, d),
    decreases a.len(),
{
    if a.len() == 0 {
        assert(a + b =~= b);
    } else {
        lemma_covered_add(a.drop_first(), b, d);
        assert((a + b).drop_first() =~= a.drop_first() + b);
    }
}

/// Spanned width of a pushed node.
proof fn lemma_covered_push(a: Seq<NodeV>, n: NodeV, d: u8)
    ensures
        covered_v(a.push(n), d) == covered_v(a, d) + v_width(n, d),
{
    assert(a.push(n) =~= a + seq![n]);
    lemma_covered_add(a, seq![n], d);
    assert(covered_v(seq![n], d) == v_width(n, d)) by {
        assert(seq![n].drop_first() =~= Seq::<NodeV>::empty());
        assert(covered_v(Seq::<NodeV>::empty(), d) == 0);
        assert(seq![n][0] == n);
    }
}

/// A well-formed section stays well-formed when a node aligned to its own
/// width is appended at the end.
proof fn lemma_wf_append(nodes: Seq<NodeV>, n: NodeV, d: u8, start: nat)
    requires
        wf_section_v(nodes, d, start),
        v_depth_or(n, d) <= d,
        (start + covered_v(nodes, d)) % v_width(n, d) == 0,
    ensures
        wf_section_v(nodes.push(n), d, start),
    decreases nodes.len(),
{
    if nodes.len() == 0 {
        assert(nodes.push(n).drop_first() =~= Seq::<NodeV>::empty());
        assert(nodes.push(n)[0] == n);
        assert(covered_v(nodes, d) == 0);
        assert(start % v_width(n, d) == 0);
        assert(wf_section_v(nodes.push(n).drop_first(), d, start + v_width(n, d)));
        assert(wf_section_v(nodes.push(n), d, start));
    } else {
        lemma_wf_append(
            nodes.drop_first(),
            n,
            d,
            start + v_width(nodes[0], d),
        );
        assert(nodes.push(n).drop_first() =~= nodes.drop_first().push(n));
        assert(nodes.push(n)[0] == nodes[0]);
    }
}

/// A well-formed section splits into a well-formed prefix and a well-formed
/// suffix starting after the prefix's span.
proof fn lemma_wf_split(nodes: Seq<NodeV>, d: u8, start: nat, j: int)
    requires
        wf_section_v(nodes, d, start),
        0 <= j <= nodes.len(),
    ensures
        wf_section_v(nodes.take(j), d, start),
        wf_section_v(nodes.skip(j), d, start + covered_v(nodes.take(j), d)),
        covered_v(nodes.take(j), d) + covered_v(nodes.skip(j), d) == covered_v(nodes, d),
    decreases nodes.len(),
{
    assert(nodes.take(j) + nodes.skip(j) =~= nodes);
    lemma_covered_add(nodes.take(j), nodes.skip(j), d);
    if j == 0 {
        assert(nodes.take(0) =~= Seq::<NodeV>::empty());
        assert(nodes.skip(0) =~= nodes);
    } else {
        assert(nodes.len() > 0);
        lemma_wf_split(nodes.drop_first(), d, start + v_width(nodes[0], d), j - 1);
        assert(nodes.take(j).drop_first() =~= nodes.drop_first().take(j - 1));
        assert(nodes.skip(j) =~= nodes.drop_first().skip(j - 1));
        assert(nodes.take(j)[0] == nodes[0]);
    }
}

/// Revealed-leaf count adds over concatenation.
proof fn lemma_revealed_add(a: Seq<NodeV>, b: Seq<NodeV>)
    ensures
        revealed_count_v(a + b) == revealed_count_v(a) + revealed_count_v(b),
    decreases a.len(),
{
    if a.len() == 0 {
        assert(a + b =~= b);
    } else {
        lemma_revealed_add(a.drop_first(), b);
        assert((a + b).drop_first() =~= a.drop_first() + b);
    }
}

/// Revealed-leaf count of a pushed node.
proof fn lemma_revealed_push(a: Seq<NodeV>, n: NodeV)
    ensures
        revealed_count_v(a.push(n)) == revealed_count_v(a) + (if n is Revealed {
            1nat
        } else {
            0nat
        }),
{
    assert(a.push(n) =~= a + seq![n]);
    lemma_revealed_add(a, seq![n]);
    assert(seq![n].drop_first() =~= Seq::<NodeV>::empty());
    assert(revealed_count_v(Seq::<NodeV>::empty()) == 0);
    assert(seq![n][0] == n);
}

/// A multiple of `w` leaves no remainder modulo `w`.
proof fn lemma_mul_mod_zero(a: int, w: int)
    requires
        w > 0,
        a >= 0,
    ensures
        (a * w) % w == 0,
{
    vstd::arithmetic::div_mod::lemma_mod_multiples_vanish(a, 0, w);
    assert(w * a == a * w) by (nonlinear_arith);
}

/// A cross-section spans at least one slot per node.
proof fn lemma_covered_ge_len(nodes: Seq<NodeV>, d: u8)
    ensures
        covered_v(nodes, d) >= nodes.len(),
    decreases nodes.len(),
{
    if nodes.len() > 0 {
        vstd::arithmetic::power2::lemma_pow2_pos((d - v_depth_or(nodes[0], d)) as nat);
        lemma_covered_ge_len(nodes.drop_first(), d);
    }
}

/// No more leaves are revealed than there are nodes.
proof fn lemma_revealed_le_len(nodes: Seq<NodeV>)
    ensures
        revealed_count_v(nodes) <= nodes.len(),
    decreases nodes.len(),
{
    if nodes.len() > 0 {
        lemma_revealed_le_len(nodes.drop_first());
    }
}

/// Two cross-sections whose nodes sit at the same levels span the same
/// width and are well-formed under the same conditions.
proof fn lemma_wf_pointwise(a: Seq<NodeV>, b: Seq<NodeV>, d: u8, start: nat)
    requires
        a.len() == b.len(),
        forall|i: int| 0 <= i < a.len() ==> v_depth_or(#[trigger] a[i], d) == v_depth_or(b[i], d),
    ensures
        covered_v(a, d) == covered_v(b, d),
        wf_section_v(a, d, start) == wf_section_v(b, d, start),
    decreases a.len(),
{
    if a.len() > 0 {
        assert(forall|i: int|
            0 <= i < a.drop_first().len() ==> v_depth_or(#[trigger] a.drop_first()[i], d)
                == v_depth_or(b.drop_first()[i], d));
        lemma_wf_pointwise(a.drop_first(), b.drop_first(), d, start + v_width(a[0], d));
    }
}

impl TreeNode {
    /// Builds the concealed parent of two merged sibling digests.
    fn with(hash1: &MerkleNode, hash2: &MerkleNode, tree_depth: u8, node_depth: u8, offset: u16) -> (r:
        TreeNode)
        ensures
            r@ == (NodeV::Hidden {
                level: node_depth,
                digest: branch_hash_s(tree_depth, node_depth, offset, hash1@, hash2@),
            }),
    {
        TreeNode::ConcealedNode {
            depth: node_depth,
            hash: MerkleNode::with_branch(hash1, hash2, tree_depth, node_depth, offset),
        }
    }

    /// The level of a concealed node; a revealed leaf has none of its own.
    pub fn depth(&self) -> (r: Option<u8>)
        ensures
            r == (match self@ {
                NodeV::Hidden { level, .. } => Some(level),
                NodeV::Revealed { .. } => None::<u8>,
            }),
    {
        match self {
            TreeNode::ConcealedNode { depth, .. } => Some(*depth),
            TreeNode::CommitmentLeaf { .. } => None,
        }
    }

    /// The level of the node, taking the tree depth for a revealed leaf.
    pub fn depth_or(&self, tree_depth: u8) -> (r: u8)
        ensures
            r == v_depth_or(self@, tree_depth),
    {
        match self {
            TreeNode::ConcealedNode { depth, .. } => *depth,
            TreeNode::CommitmentLeaf { .. } => tree_depth,
        }
    }

    /// The digest the node contributes, hashing a revealed leaf at the given
    /// tree depth.
    pub fn merkle_node_with(&self, depth: u8) -> (r: MerkleNode)
        ensures
            r@ == v_hash(self@, depth),
    {
        match self {
            TreeNode::ConcealedNode { hash, .. } => *hash,
            TreeNode::CommitmentLeaf { protocol_id, message } => MerkleNode::with_commitment(
                protocol_id,
                message,
                depth,
            ),
        }
    }
}

impl PartialEq for TreeNode {
    fn eq(&self, other: &Self) -> (r: bool) {
        match (self, other) {
            (
                TreeNode::ConcealedNode { depth: d1, hash: h1 },
                TreeNode::ConcealedNode { depth: d2, hash: h2 },
            ) => *d1 == *d2 && *h1 == *h2,
            (
                TreeNode::CommitmentLeaf { protocol_id: p1, message: m1 },
                TreeNode::CommitmentLeaf { protocol_id: p2, message: m2 },
            ) => *p1 == *p2 && *m1 == *m2,
            _ => false,
        }
    }
}

impl vstd::std_specs::cmp::PartialEqSpecImpl for TreeNode {
    open spec fn obeys_eq_spec() -> bool {
        true
    }

    open spec fn eq_spec(&self, other: &Self) -> bool {
        self@ == other@
    }
}

/// A commitment under the given protocol id is absent from the revealed part
/// of the block: it was never there, or it is already concealed.
#[derive(Copy, Clone, Debug)]
pub struct LeafNotKnown(pub ProtocolId);

/// An attempt to merge proofs of two unrelated commitments.
#[derive(Copy, Clone, Debug, PartialEq, Eq, Structural)]
pub struct UnrelatedProof;

/// Partially-concealed cross-section of a commitment tree.
#[derive(Debug)]
pub struct MerkleBlock {
    /// Tree depth (up to 16).
    depth: u8,
    /// Tree cross-section.
    cross_section: Vec<TreeNode>,
    /// Entropy used for placeholder leaves; dropped on first concealment.
    entropy: Option<u64>,
}

impl MerkleBlock {
    /// The tree depth.
    pub closed spec fn spec_depth(&self) -> u8 {
        self.depth
    }

    /// The values of the cross-section nodes.
    pub closed spec fn spec_nodes(&self) -> Seq<NodeV> {
        nodes_v(self.cross_section@)
    }

    /// The stored entropy, if still known.
    pub closed spec fn spec_entropy(&self) -> Option<u64> {
        self.entropy
    }

    /// Invariant: the cross-section spans the tree's leaf order exactly once,
    /// each node aligned to its own subtree width.
    pub open spec fn wf(&self) -> bool {
        &&& self.spec_depth() <= crate::MAX_TREE_DEPTH
        &&& wf_section_v(self.spec_nodes(), self.spec_depth(), 0)
        &&& covered_v(self.spec_nodes(), self.spec_depth()) == pow2(self.spec_depth() as nat)
    }

    /// Tree depth (up to 16).
    pub fn depth(&self) -> (r: u8)
        ensures
            r == self.spec_depth(),
    {
        self.depth
    }

    /// Entropy used for placeholder leaves, if still known.
    pub fn entropy(&self) -> (r: Option<u64>)
        ensures
            r == self.spec_entropy(),
    {
        self.entropy
    }

    /// Computes the width of the tree.
    pub fn width(&self) -> (r: usize)
        requires
            self.spec_depth() <= 16,
        ensures
            r == pow2(self.spec_depth() as nat),
    {
        proof {
            lemma_width_fits(self.depth as nat);
        }
        1usize << (self.depth as usize)
    }

    /// Computes the leaf slot of a protocol id within the tree leaves.
    pub fn protocol_id_pos(&self, protocol_id: &ProtocolId) -> (r: u16)
        requires
            self.spec_depth() <= 16,
        ensures
            r as nat == pid_pos_s(protocol_id@, pow2(self.spec_depth() as nat)),
    {
        crate::tree::pid_pos(protocol_id, self.depth)
    }

    /// The cross-section nodes, as a fresh vector.
    pub fn cross_section(&self) -> (r: Vec<TreeNode>)
        ensures
            nodes_v(r@) == self.spec_nodes(),
    {
        let n = self.cross_section.len();
        let mut out: Vec<TreeNode> = Vec::new();
        let mut i: usize = 0;
        while i < n
            invariant
                n == self.cross_section.len(),
                i <= n,
                out@.len() == i,
                forall|j: int| 0 <= j < i ==> out@[j] == self.cross_section@[j],
            decreases n - i,
        {
            let node = self.cross_section[i];
            out.push(node);
            i += 1;
        }
        proof {
            assert(out@ =~= self.cross_section@);
        }
        out
    }

    /// Builds the full cross-section of a tree: a revealed leaf in every
    /// assigned slot, an entropy placeholder in every vacant one.
    pub fn from_tree(tree: &MerkleTree) -> (r: MerkleBlock)
        requires
            tree.wf(),
        ensures
            r.wf(),
            r.spec_depth() == tree.spec_depth(),
            r.spec_entropy() == Some(tree.spec_entropy()),
            r.spec_nodes().len() == pow2(tree.spec_depth() as nat),
            forall|p: int|
                0 <= p < r.spec_nodes().len() ==> #[trigger] r.spec_nodes()[p] == (if map_has_pos(
                    tree.spec_messages(),
                    tree.spec_depth(),
                    p as nat,
                ) {
                    NodeV::Revealed {
                        pid: tree.spec_messages()[slot_of(
                            tree.spec_messages(),
                            tree.spec_depth(),
                            p as nat,
                        )].0@,
                        msg: tree.spec_messages()[slot_of(
                            tree.spec_messages(),
                            tree.spec_depth(),
                            p as nat,
                        )].1@,
                    }
                } else {
                    NodeV::Hidden {
                        level: tree.spec_depth(),
                        digest: entropy_hash_s(tree.spec_entropy(), p as u16),
                    }
                }),
    {
        let depth = tree.depth();
        let entropy = tree.entropy();
        proof {
            lemma_width_fits(depth as nat);
        }
        let slots_opt = crate::tree::assign_slots(tree.messages(), depth);
        let slots = match slots_opt {
            Some(s) => s,
            None => {
                proof {
                    assert(false);
                }
                return MerkleBlock { depth, cross_section: Vec::new(), entropy: None };
            },
        };
        let ghost entries = tree.spec_messages();
        let width = slots.len();
        let mut cross_section: Vec<TreeNode> = Vec::new();
        let mut pos: usize = 0;
        while pos < width
            invariant
                tree.wf(),
                depth == tree.spec_depth(),
                entropy == tree.spec_entropy(),
                entries == tree.spec_messages(),
                width == pow2(depth as nat),
                width <= 65536,
                slots@.len() == width,
                crate::tree::slot_table_ok(slots@, entries, depth),
                pos <= width,
                cross_section@.len() == pos,
                covered_v(nodes_v(cross_section@), depth) == pos,
                wf_section_v(nodes_v(cross_section@), depth, 0),
                forall|p: int|
                    0 <= p < pos ==> #[trigger] nodes_v(cross_section@)[p] == (if map_has_pos(
                        entries,
                        depth,
                        p as nat,
                    ) {
                        NodeV::Revealed {
                            pid: entries[slot_of(entries, depth, p as nat)].0@,
                            msg: entries[slot_of(entries, depth, p as nat)].1@,
                        }
                    } else {
                        NodeV::Hidden {
                            level: depth,
                            digest: entropy_hash_s(entropy, p as u16),
                        }
                    }),
            decreases width - pos,
        {
            let ghost before = nodes_v(cross_section@);
            let node = match slots[pos] {
                Some(i) => {
                    let entry = tree.messages().entry(i);
                    proof {
                        crate::tree::lemma_slot_of_unique(entries, depth, i as int);
                    }
                    TreeNode::CommitmentLeaf { protocol_id: entry.0, message: entry.1 }
                },
                None => TreeNode::ConcealedNode {
                    depth,
                    hash: MerkleNode::with_entropy(entropy, pos as u16),
                },
            };
            proof {
                vstd::arithmetic::power2::lemma2_to64();
                assert(v_width(node@, depth) == 1);
                lemma_covered_push(before, node@, depth);
                lemma_wf_append(before, node@, depth, 0);
            }
            cross_section.push(node);
            proof {
                assert(nodes_v(cross_section@) =~= before.push(node@));
            }
            pos += 1;
        }
        MerkleBlock { depth, cross_section, entropy: Some(entropy) }
    }
}

/// The protocol id kept revealed, as a byte sequence.
pub open spec fn keep_v(keep: Option<&ProtocolId>) -> Option<Seq<u8>> {
    match keep {
        Some(p) => Some(p@),
        None => None,
    }
}

/// Computes the number of leaf slots a node spans.
fn node_width(n: &TreeNode, tree_depth: u8) -> (r: usize)
    requires
        v_depth_or(n@, tree_depth) <= tree_depth,
        tree_depth <= 16,
    ensures
        r == v_width(n@, tree_depth),
{
    let k = n.depth_or(tree_depth);
    proof {
        lemma_width_fits((tree_depth - k) as nat);
    }
    1usize << ((tree_depth - k) as usize)
}

impl MerkleBlock {
    /// Replaces every revealed leaf outside the keep set by its own tagged
    /// hash at the leaf level.  Returns the number of leaves concealed and
    /// whether the kept protocol id was found revealed.
    fn conceal_leaves(&mut self, keep: Option<&ProtocolId>) -> (r: (usize, bool))
        ensures
            final(self).spec_depth() == old(self).spec_depth(),
            final(self).spec_entropy() == old(self).spec_entropy(),
            final(self).spec_nodes() == old(self).spec_nodes().map_values(
                |n: NodeV| conceal_leaf_v(n, old(self).spec_depth(), keep_v(keep)),
            ),
            r.0 == revealed_count_v(old(self).spec_nodes()) - revealed_count_v(
                final(self).spec_nodes(),
            ),
            r.1 == (match keep {
                Some(p) => reveals_pid_v(old(self).spec_nodes(), p@),
                None => true,
            }),
    {
        let ghost d = self.spec_depth();
        let ghost orig = self.spec_nodes();
        let n = self.cross_section.len();
        let mut count: usize = 0;
        let mut found = false;
        let mut i: usize = 0;
        while i < n
            invariant
                self.depth == old(self).depth,
                self.entropy == old(self).entropy,
                d == old(self).spec_depth(),
                orig == old(self).spec_nodes(),
                n == self.cross_section@.len(),
                orig.len() == n,
                i <= n,
                forall|j: int|
                    0 <= j < i ==> #[trigger] nodes_v(self.cross_section@)[j] == conceal_leaf_v(
                        orig[j],
                        d,
                        keep_v(keep),
                    ),
                forall|j: int|
                    i <= j < n ==> #[trigger] nodes_v(self.cross_section@)[j] == orig[j],
                count <= i,
                count == revealed_count_v(orig.take(i as int)) - revealed_count_v(
                    nodes_v(self.cross_section@).take(i as int),
                ),
                found == (match keep {
                    Some(p) => reveals_pid_v(orig.take(i as int), p@),
                    None => false,
                }),
            decreases n - i,
        {
            let ghost pre = nodes_v(self.cross_section@);
            let node = self.cross_section[i];
            let mut concealed_here = false;
            match node {
                TreeNode::CommitmentLeaf { protocol_id, message } => {
                    let kept = match keep {
                        Some(k) => protocol_id == *k,
                        None => false,
                    };
                    if kept {
                        found = true;
                    } else {
                        let hash = MerkleNode::with_commitment(&protocol_id, &message, self.depth);
                        self.cross_section.set(
                            i,
                            TreeNode::ConcealedNode { depth: self.depth, hash },
                        );
                        count += 1;
                        concealed_here = true;
                    }
                },
                TreeNode::ConcealedNode { .. } => {},
            }
            proof {
                let cur = nodes_v(self.cross_section@);
                assert forall|j: int| 0 <= j < n && j != i implies cur[j] == pre[j] by {
                    assert(cur[j] == self.cross_section@[j]@);
                }
                assert forall|j: int| 0 <= j < i + 1 implies #[trigger] cur[j] == conceal_leaf_v(
                    orig[j],
                    d,
                    keep_v(keep),
                ) by {
                    if j < i {
                        assert(cur[j] == pre[j]);
                    } else {
                        assert(pre[j] == orig[j]);
                        assert(cur[i as int] == self.cross_section@[i as int]@);
                    }
                }
                assert forall|j: int| i + 1 <= j < n implies #[trigger] cur[j] == orig[j] by {
                    assert(cur[j] == pre[j]);
                }
                assert(cur.take(i + 1) =~= cur.take(i as int).push(cur[i as int]));
                assert(orig.take(i + 1) =~= orig.take(i as int).push(orig[i as int]));
                lemma_revealed_push(cur.take(i as int), cur[i as int]);
                lemma_revealed_push(orig.take(i as int), orig[i as int]);
                if !concealed_here {
                    assert(cur =~= pre);
                }
                assert(cur.take(i as int) =~= pre.take(i as int));
                assert(revealed_count_v(cur.take(i + 1)) == revealed_count_v(pre.take(i as int))
                    + (if cur[i as int] is Revealed {
                    1nat
                } else {
                    0nat
                }));
                assert(pre[i as int] == orig[i as int]);
                if concealed_here {
                    assert(orig[i as int] is Revealed);
                    assert(!(cur[i as int] is Revealed));
                } else {
                    assert(cur[i as int] == orig[i as int]);
                }
                assert(count == revealed_count_v(orig.take(i + 1)) - revealed_count_v(
                    cur.take(i + 1),
                ));
                match keep {
                    Some(p) => {
                        assert(reveals_pid_v(orig.take(i + 1), p@) == (reveals_pid_v(
                            orig.take(i as int),
                            p@,
                        ) || (orig[i as int] matches NodeV::Revealed { pid: q, .. } && q == p@)))
                            by {
                            if reveals_pid_v(orig.take(i as int), p@) {
                                let witness = choose|t: int|
                                    0 <= t < orig.take(i as int).len() && ((#[trigger] orig.take(
                                        i as int,
                                    )[t]) matches NodeV::Revealed { pid: q, .. } && q == p@);
                                assert(orig.take(i + 1)[witness] == orig.take(i as int)[witness]);
                            }
                            if (orig[i as int] matches NodeV::Revealed { pid: q, .. } && q == p@) {
                                assert(orig.take(i + 1)[i as int] == orig[i as int]);
                            }
                            if reveals_pid_v(orig.take(i + 1), p@) {
                                let witness = choose|t: int|
                                    0 <= t < orig.take(i + 1).len() && ((#[trigger] orig.take(
                                        i + 1,
                                    )[t]) matches NodeV::Revealed { pid: q, .. } && q == p@);
                                if witness < i {
                                    assert(orig.take(i as int)[witness] == orig.take(
                                        i + 1,
                                    )[witness]);
                                }
                            }
                        }
                    },
                    None => {},
                }
            }
            i += 1;
        }
        proof {
            assert(nodes_v(self.cross_section@) =~= orig.map_values(
                |nd: NodeV| conceal_leaf_v(nd, d, keep_v(keep)),
            ));
            assert(orig.take(n as int) =~= orig);
            assert(nodes_v(self.cross_section@).take(n as int) =~= nodes_v(self.cross_section@));
        }
        let ok = match keep {
            Some(_) => found,
            None => true,
        };
        (count, ok)
    }

    /// Merges adjacent concealed sibling pairs one level up, repeatedly,
    /// until no pair is left: the concealment fixpoint.
    fn merge_section(&mut self) -> (merges: usize)
        requires
            old(self).wf(),
        ensures
            final(self).spec_depth() == old(self).spec_depth(),
            final(self).spec_entropy() == old(self).spec_entropy(),
            final(self).spec_nodes() == merge_scan_v(
                old(self).spec_nodes(),
                old(self).spec_depth(),
            ),
            final(self).wf(),
            merges == old(self).spec_nodes().len() - final(self).spec_nodes().len(),
    {
        let d = self.depth;
        let ghost input = self.spec_nodes();
        let n = self.cross_section.len();
        let mut out: Vec<TreeNode> = Vec::new();
        let mut starts: Vec<usize> = Vec::new();
        let mut cov: usize = 0;
        let mut merges: usize = 0;
        let mut i: usize = 0;
        proof {
            lemma_width_fits(d as nat);
            assert(input.take(0) =~= Seq::<NodeV>::empty());
            assert(input.skip(0) =~= input);
            assert(covered_v(Seq::<NodeV>::empty(), d) == 0);
        }
        while i < n
            invariant
                self.depth == old(self).depth,
                self.entropy == old(self).entropy,
                self.cross_section@ == old(self).cross_section@,
                d == old(self).spec_depth(),
                d <= 16,
                input == old(self).spec_nodes(),
                input == nodes_v(self.cross_section@),
                covered_v(input, d) == pow2(d as nat),
                n == self.cross_section@.len(),
                i <= n,
                nodes_v(out@) == merge_scan_v(input.take(i as int), d),
                cov == covered_v(nodes_v(out@), d),
                cov == covered_v(input.take(i as int), d),
                cov <= pow2(d as nat),
                pow2(d as nat) <= 65536,
                wf_section_v(nodes_v(out@), d, 0),
                starts@.len() == out@.len(),
                forall|j: int|
                    0 <= j < starts@.len() ==> #[trigger] starts@[j] == covered_v(
                        nodes_v(out@).take(j),
                        d,
                    ),
                wf_section_v(input.skip(i as int), d, cov as nat),
                covered_v(input.skip(i as int), d) == pow2(d as nat) - cov,
                merges == i - out@.len(),
            decreases n - i,
        {
            let node = self.cross_section[i];
            let ghost pre_out = nodes_v(out@);
            proof {
                assert(input.skip(i as int)[0] == input[i as int]);
                assert(input[i as int] == node@);
                assert(input.skip(i as int).drop_first() =~= input.skip(i + 1));
            }
            let w = node_width(&node, d);
            proof {
                lemma_covered_push(pre_out, node@, d);
                lemma_wf_append(pre_out, node@, d, 0);
                assert(input.take(i + 1).drop_last() =~= input.take(i as int));
                assert(input.take(i + 1).last() == node@);
                assert(input.take(i + 1) =~= input.take(i as int).push(node@));
                lemma_covered_push(input.take(i as int), node@, d);
            }
            out.push(node);
            starts.push(cov);
            proof {
                assert(nodes_v(out@) =~= pre_out.push(node@));
                assert forall|j: int| 0 <= j < starts@.len() implies #[trigger] starts@[j]
                    == covered_v(nodes_v(out@).take(j), d) by {
                    if j < starts@.len() - 1 {
                        assert(nodes_v(out@).take(j) =~= pre_out.take(j));
                    } else {
                        assert(nodes_v(out@).take(j) =~= pre_out);
                    }
                }
            }
            cov = cov + w;
            let ghost target = merge_tops_v(pre_out.push(node@), d);
            proof {
                assert(merge_scan_v(input.take(i + 1), d) == target);
            }
            let mut merging = true;
            while merging && out.len() >= 2
                invariant
                    d <= 16,
                    pow2(d as nat) <= 65536,
                    merge_tops_v(nodes_v(out@), d) == target,
                    cov == covered_v(nodes_v(out@), d),
                    cov <= pow2(d as nat),
                    wf_section_v(nodes_v(out@), d, 0),
                    starts@.len() == out@.len(),
                    forall|j: int|
                        0 <= j < starts@.len() ==> #[trigger] starts@[j] == covered_v(
                            nodes_v(out@).take(j),
                            d,
                        ),
                    !merging ==> merge_tops_v(nodes_v(out@), d) == nodes_v(out@),
                    merges == i + 1 - out@.len(),
                    out@.len() >= 1,
                decreases out@.len() + (if merging {
                    1int
                } else {
                    0int
                }),
            {
                let len = out.len();
                let a = out[len - 2];
                let b = out[len - 1];
                let sa = starts[len - 2];
                let ghost cur = nodes_v(out@);
                proof {
                    assert(cur[len - 2] == a@);
                    assert(cur[len - 1] == b@);
                    assert(cur.take(len - 2) =~= nodes_v(out@).take(len - 2));
                }
                match (a, b) {
                    (
                        TreeNode::ConcealedNode { depth: ka, hash: ha },
                        TreeNode::ConcealedNode { depth: kb, hash: hb },
                    ) => {
                        if ka == kb && 1 <= ka && ka <= d {
                            proof {
                                lemma_width_fits((d - ka) as nat);
                                lemma_width_fits((d - ka + 1) as nat);
                                vstd::arithmetic::power2::lemma_pow2_unfold((d - ka + 1) as nat);
                            }
                            let w2 = 1usize << ((d - ka) as usize);
                            if sa % (2 * w2) == 0 {
                                let offset = (sa / (2 * w2)) as u16;
                                let m = TreeNode::with(&ha, &hb, d, ka - 1, offset);
                                proof {
                                    assert(mergeable_v(a@, b@, d, sa as nat));
                                    assert(m@ == merged_v(a@, b@, d, sa as nat));
                                    assert(merge_tops_v(cur, d) == merge_tops_v(
                                        cur.take(len - 2).push(merged_v(a@, b@, d, sa as nat)),
                                        d,
                                    ));
                                    lemma_wf_split(cur, d, 0, len - 2);
                                    assert(cur.skip(len - 2) =~= seq![a@, b@]);
                                    assert(seq![a@, b@] =~= seq![a@].push(b@));
                                    assert(seq![a@] =~= Seq::<NodeV>::empty().push(a@));
                                    assert(covered_v(Seq::<NodeV>::empty(), d) == 0);
                                    lemma_covered_push(Seq::<NodeV>::empty(), a@, d);
                                    lemma_covered_push(seq![a@], b@, d);
                                    assert(v_width(b@, d) == v_width(a@, d));
                                    assert(covered_v(cur.skip(len - 2), d) == 2 * v_width(
                                        a@,
                                        d,
                                    ));
                                    lemma_covered_push(cur.take(len - 2), m@, d);
                                    lemma_wf_append(cur.take(len - 2), m@, d, 0);
                                }
                                out.pop();
                                out.pop();
                                out.push(m);
                                starts.pop();
                                merges += 1;
                                proof {
                                    assert(nodes_v(out@) =~= cur.take(len - 2).push(m@));
                                    assert forall|j: int| 0 <= j < starts@.len() implies
                                        #[trigger] starts@[j] == covered_v(
                                        nodes_v(out@).take(j),
                                        d,
                                    ) by {
                                        if j < starts@.len() - 1 {
                                            assert(nodes_v(out@).take(j) =~= cur.take(j));
                                        } else {
                                            assert(nodes_v(out@).take(j) =~= cur.take(len - 2));
                                        }
                                    }
                                }
                            } else {
                                merging = false;
                            }
                        } else {
                            merging = false;
                        }
                    },
                    _ => {
                        merging = false;
                    },
                }
            }
            proof {
                assert(nodes_v(out@) == target);
            }
            i += 1;
        }
        proof {
            assert(input.take(n as int) =~= input);
        }
        self.cross_section = out;
        merges
    }

    /// Conceals every commitment in the block except the one under the given
    /// protocol id, drops the stored entropy, and merges concealed siblings
    /// to the fixpoint.  Returns the number of concealed nodes, or fails with
    /// [`LeafNotKnown`] when no revealed leaf carries the protocol id; the
    /// leaves are concealed (but not merged) even then.
    pub fn conceal_except(&mut self, protocol_id: &ProtocolId) -> (r: Result<usize, LeafNotKnown>)
        requires
            old(self).wf(),
        ensures
            final(self).wf(),
            final(self).spec_depth() == old(self).spec_depth(),
            final(self).spec_entropy() is None,
            block_commitment_s(final(self).spec_nodes(), final(self).spec_depth())
                == block_commitment_s(old(self).spec_nodes(), old(self).spec_depth()),
            match r {
                Ok(count) => {
                    &&& reveals_pid_v(old(self).spec_nodes(), protocol_id@)
                    &&& final(self).spec_nodes() == conceal_v(
                        old(self).spec_nodes(),
                        old(self).spec_depth(),
                        Some(protocol_id@),
                    )
                    &&& count == (revealed_count_v(old(self).spec_nodes()) - revealed_count_v(
                        old(self).spec_nodes().map_values(
                            |n: NodeV| conceal_leaf_v(
                                n,
                                old(self).spec_depth(),
                                Some(protocol_id@),
                            ),
                        ),
                    )) + (old(self).spec_nodes().len() - final(self).spec_nodes().len())
                },
                Err(e) => {
                    &&& e.0@ == protocol_id@
                    &&& !reveals_pid_v(old(self).spec_nodes(), protocol_id@)
                    &&& final(self).spec_nodes() == old(self).spec_nodes().map_values(
                        |n: NodeV| conceal_leaf_v(n, old(self).spec_depth(), Some(protocol_id@)),
                    )
                },
            },
    {
        let ghost d = self.spec_depth();
        let ghost orig = self.spec_nodes();
        self.entropy = None;
        let (count, found) = self.conceal_leaves(Some(protocol_id));
        proof {
            let mapped = orig.map_values(|n: NodeV| conceal_leaf_v(n, d, Some(protocol_id@)));
            assert(self.spec_nodes() == mapped);
            assert forall|j: int| 0 <= j < orig.len() implies v_depth_or(#[trigger] orig[j], d)
                == v_depth_or(mapped[j], d) by {}
            lemma_wf_pointwise(orig, mapped, d, 0);
            lemma_conceal_commitment(orig, d, Some(protocol_id@));
            // concealing the remaining leaves afterwards agrees with
            // concealing everything at once
            assert(conceal_all_map_v(mapped, d) =~= conceal_all_map_v(orig, d)) by {
                assert(forall|i: int|
                    0 <= i < orig.len() ==> #[trigger] conceal_all_map_v(mapped, d)[i]
                        == conceal_leaf_v(
                        conceal_leaf_v(orig[i], d, Some(protocol_id@)),
                        d,
                        None,
                    ));
                assert(forall|i: int|
                    0 <= i < orig.len() ==> #[trigger] conceal_all_map_v(orig, d)[i]
                        == conceal_leaf_v(orig[i], d, None));
            }
            assert(conceal_v(mapped, d, None) == conceal_v(orig, d, None)) by {
                assert(mapped.map_values(|n: NodeV| conceal_leaf_v(n, d, None))
                    =~= conceal_all_map_v(mapped, d));
                assert(orig.map_values(|n: NodeV| conceal_leaf_v(n, d, None))
                    =~= conceal_all_map_v(orig, d));
            }
        }
        if !found {
            return Err(LeafNotKnown(*protocol_id));
        }
        let merges = self.merge_section();
        proof {
            lemma_covered_ge_len(orig, d);
            lemma_revealed_le_len(orig);
            lemma_width_fits(d as nat);
        }
        Ok(count + merges)
    }

    /// Reduces the block to its single concealed root digest.
    pub fn commit_conceal(&self) -> (r: MerkleNode)
        requires
            self.wf(),
        ensures
            conceal_v(self.spec_nodes(), self.spec_depth(), None).len() == 1,
            conceal_v(self.spec_nodes(), self.spec_depth(), None)[0] is Hidden,
            r@ == v_hash(
                conceal_v(self.spec_nodes(), self.spec_depth(), None)[0],
                self.spec_depth(),
            ),
    {
        let ghost d = self.spec_depth();
        let ghost orig = self.spec_nodes();
        proof {
            lemma_conceal_all_single(orig, d);
        }
        let mut c = self.clone();
        let _ = c.conceal_leaves(None);
        proof {
            let mapped = orig.map_values(|n: NodeV| conceal_leaf_v(n, d, None));
            assert(c.spec_nodes() == mapped);
            assert forall|j: int| 0 <= j < orig.len() implies v_depth_or(#[trigger] orig[j], d)
                == v_depth_or(mapped[j], d) by {}
            lemma_wf_pointwise(orig, mapped, d, 0);
        }
        let _ = c.merge_section();
        proof {
            vstd::arithmetic::power2::lemma_pow2_pos(d as nat);
            if c.spec_nodes().len() == 0 {
                assert(covered_v(c.spec_nodes(), d) == 0);
            }
        }
        let node = c.node_at(0);
        node.merkle_node_with(c.depth())
    }

    /// The node at the given cross-section index.
    fn node_at(&self, i: usize) -> (r: TreeNode)
        requires
            i < self.spec_nodes().len(),
        ensures
            r@ == self.spec_nodes()[i as int],
    {
        self.cross_section[i]
    }

    /// Computes the externally visible commitment of the block: the final
    /// tagged digest of its concealed root.
    pub fn consensus_commit(&self) -> (r: MultiCommitment)
        requires
            self.wf(),
        ensures
            r@ == block_commitment_s(self.spec_nodes(), self.spec_depth()),
    {
        let root = self.commit_conceal();
        MultiCommitment::hash(&root.to_vec())
    }
}

/// Holds when the cross-section carries the given node value somewhere.
pub open spec fn contains_node_v(nodes: Seq<NodeV>, n: NodeV) -> bool {
    exists|j: int| 0 <= j < nodes.len() && nodes[j] == n
}

/// The least prefix of a cross-section spanning exactly the target width,
/// or nothing when the nodes cannot tile it.
pub open spec fn take_cover_v(nodes: Seq<NodeV>, d: u8, target: nat) -> Option<int>
    decreases nodes.len(),
{
    if target == 0 {
        Some(0)
    } else if nodes.len() == 0 {
        None
    } else if v_width(nodes[0], d) > target {
        None
    } else {
        match take_cover_v(nodes.drop_first(), d, (target - v_width(nodes[0], d)) as nat) {
            Some(j) => Some(j + 1),
            None => None,
        }
    }
}

/// Which of two same-width nodes survives a merge: equal nodes collapse,
/// a revealed leaf wins over a concealed node, anything else clashes.
pub open spec fn merge_pick_v(a: NodeV, b: NodeV) -> Option<NodeV> {
    if a == b {
        Some(a)
    } else {
        match (a, b) {
            (NodeV::Hidden { .. }, NodeV::Revealed { .. }) => Some(b),
            (NodeV::Revealed { .. }, NodeV::Hidden { .. }) => Some(a),
            _ => None,
        }
    }
}

/// The position-wise merge of two cross-sections over the same leaf range:
/// at equal widths the more revealed node wins; against a wider concealed
/// node the other side's run of finer nodes is spliced in.  Nothing is
/// produced when the sides are structurally incompatible.
pub open spec fn merge_walk_v(a: Seq<NodeV>, b: Seq<NodeV>, d: u8) -> Option<Seq<NodeV>>
    decreases a.len() + b.len(),
{
    if a.len() == 0 && b.len() == 0 {
        Some(Seq::empty())
    } else if a.len() == 0 || b.len() == 0 {
        None
    } else {
        let wa = v_width(a[0], d);
        let wb = v_width(b[0], d);
        if wa == wb {
            match merge_pick_v(a[0], b[0]) {
                Some(c) => match merge_walk_v(a.drop_first(), b.drop_first(), d) {
                    Some(r) => Some(seq![c] + r),
                    None => None,
                },
                None => None,
            }
        } else if wa > wb {
            match take_cover_v(b, d, wa) {
                Some(j) => if 1 <= j <= b.len() {
                    match merge_walk_v(a.drop_first(), b.skip(j), d) {
                        Some(r) => Some(b.take(j) + r),
                        None => None,
                    }
                } else {
                    None
                },
                None => None,
            }
        } else {
            match take_cover_v(a, d, wb) {
                Some(j) => if 1 <= j <= a.len() {
                    match merge_walk_v(a.skip(j), b.drop_first(), d) {
                        Some(r) => Some(a.take(j) + r),
                        None => None,
                    }
                } else {
                    None
                },
                None => None,
            }
        }
    }
}

/// Compatibility for merging: the walk succeeds and its result reduces to
/// the first side's commitment.
pub open spec fn merge_compatible_v(a: Seq<NodeV>, b: Seq<NodeV>, d: u8) -> bool {
    &&& merge_walk_v(a, b, d) is Some
    &&& block_commitment_s(merge_walk_v(a, b, d)->Some_0, d) == block_commitment_s(a, d)
}

/// The whole walk equals the finished part followed by the walk of the
/// remainders.
spec fn walk_extends(
    full: Option<Seq<NodeV>>,
    done: Seq<NodeV>,
    rest: Option<Seq<NodeV>>,
) -> bool {
    match rest {
        Some(r) => full == Some(done + r),
        None => full is None,
    }
}

/// The whole cover equals the consumed count plus the cover of the rest.
spec fn cover_shift(full: Option<int>, base: int, rest: Option<int>) -> bool {
    match rest {
        Some(jj) => full == Some(base + jj),
        None => full is None,
    }
}

/// Law: the position-wise merge does not depend on the order of its two
/// sides.
pub proof fn lemma_merge_walk_symmetric(a: Seq<NodeV>, b: Seq<NodeV>, d: u8)
    ensures
        merge_walk_v(a, b, d) == merge_walk_v(b, a, d),
    decreases a.len() + b.len(),
{
    if a.len() == 0 && b.len() == 0 {
    } else if a.len() == 0 || b.len() == 0 {
    } else {
        let wa = v_width(a[0], d);
        let wb = v_width(b[0], d);
        if wa == wb {
            assert(merge_pick_v(a[0], b[0]) == merge_pick_v(b[0], a[0]));
            lemma_merge_walk_symmetric(a.drop_first(), b.drop_first(), d);
        } else if wa > wb {
            match take_cover_v(b, d, wa) {
                Some(j) => {
                    if 1 <= j <= b.len() {
                        lemma_merge_walk_symmetric(a.drop_first(), b.skip(j), d);
                    }
                },
                None => {},
            }
        } else {
            match take_cover_v(a, d, wb) {
                Some(j) => {
                    if 1 <= j <= a.len() {
                        lemma_merge_walk_symmetric(a.skip(j), b.drop_first(), d);
                    }
                },
                None => {},
            }
        }
    }
}

/// A node stays contained when another node is appended.
proof fn lemma_contains_push(nodes: Seq<NodeV>, n: NodeV, m: NodeV)
    requires
        contains_node_v(nodes, m),
    ensures
        contains_node_v(nodes.push(n), m),
{
    let w0 = choose|j: int| 0 <= j < nodes.len() && nodes[j] == m;
    assert(nodes.push(n)[w0] == m);
}

impl MerkleBlock {
    /// Merges the information of another block over the same commitment into
    /// this one: at every position the more revealed side wins.  Fails with
    /// [`UnrelatedProof`] when the two blocks' commitments (or depths)
    /// differ, or when their cross-sections are structurally inconsistent;
    /// the block is left unchanged then.
    #[verifier::rlimit(100)]
    pub fn merge_reveal_other(&mut self, other: MerkleBlock) -> (r: Result<u16, UnrelatedProof>)
        requires
            old(self).wf(),
            other.wf(),
        ensures
            final(self).spec_depth() == old(self).spec_depth(),
            final(self).spec_entropy() == old(self).spec_entropy(),
            (r is Err) <==> !(old(self).spec_depth() == other.spec_depth()
                && block_commitment_s(old(self).spec_nodes(), old(self).spec_depth())
                == block_commitment_s(other.spec_nodes(), other.spec_depth())
                && merge_compatible_v(
                old(self).spec_nodes(),
                other.spec_nodes(),
                old(self).spec_depth(),
            )),
            match r {
                Ok(n) => {
                    &&& old(self).spec_depth() == other.spec_depth()
                    &&& block_commitment_s(old(self).spec_nodes(), old(self).spec_depth())
                        == block_commitment_s(other.spec_nodes(), other.spec_depth())
                    &&& block_commitment_s(final(self).spec_nodes(), final(self).spec_depth())
                        == block_commitment_s(old(self).spec_nodes(), old(self).spec_depth())
                    &&& Some(final(self).spec_nodes()) == merge_walk_v(
                        old(self).spec_nodes(),
                        other.spec_nodes(),
                        old(self).spec_depth(),
                    )
                    &&& final(self).wf()
                    &&& forall|t: int|
                        0 <= t < old(self).spec_nodes().len() && (#[trigger] old(
                            self,
                        ).spec_nodes()[t]) is Revealed ==> contains_node_v(
                            final(self).spec_nodes(),
                            old(self).spec_nodes()[t],
                        )
                    &&& forall|t: int|
                        0 <= t < other.spec_nodes().len() && (#[trigger] other.spec_nodes()[t])
                            is Revealed ==> contains_node_v(
                            final(self).spec_nodes(),
                            other.spec_nodes()[t],
                        )
                    &&& final(self).spec_nodes().len() < 65536 ==> n
                        == final(self).spec_nodes().len()
                },
                Err(_) => final(self).spec_nodes() == old(self).spec_nodes(),
            },
    {
        if self.depth != other.depth {
            return Err(UnrelatedProof);
        }
        let c1 = self.consensus_commit();
        let c2 = other.consensus_commit();
        if !(c1 == c2) {
            return Err(UnrelatedProof);
        }
        let d = self.depth;
        let ghost a_nodes = self.spec_nodes();
        let ghost b_nodes = other.spec_nodes();
        let na = self.cross_section.len();
        let nb = other.cross_section.len();
        let mut out: Vec<TreeNode> = Vec::new();
        let mut i: usize = 0;
        let mut j: usize = 0;
        let mut cov: usize = 0;
        proof {
            lemma_width_fits(d as nat);
            assert(a_nodes.skip(0) =~= a_nodes);
            assert(b_nodes.skip(0) =~= b_nodes);
            assert(covered_v(Seq::<NodeV>::empty(), d) == 0);
            assert(walk_extends(
                merge_walk_v(a_nodes, b_nodes, d),
                nodes_v(out@),
                merge_walk_v(a_nodes.skip(0), b_nodes.skip(0), d),
            )) by {
                assert(nodes_v(out@) =~= Seq::<NodeV>::empty());
                match merge_walk_v(a_nodes, b_nodes, d) {
                    Some(r) => {
                        assert(Seq::<NodeV>::empty() + r =~= r);
                    },
                    None => {},
                }
            }
        }
        while i < na && j < nb
            invariant
                self.depth == old(self).depth,
                self.entropy == old(self).entropy,
                self.cross_section@ == old(self).cross_section@,
                d == old(self).spec_depth(),
                d == other.spec_depth(),
                d <= 16,
                pow2(d as nat) <= 65536,
                a_nodes == old(self).spec_nodes(),
                b_nodes == other.spec_nodes(),
                na == a_nodes.len(),
                nb == b_nodes.len(),
                i <= na,
                j <= nb,
                wf_section_v(a_nodes.skip(i as int), d, cov as nat),
                covered_v(a_nodes.skip(i as int), d) == pow2(d as nat) - cov,
                wf_section_v(b_nodes.skip(j as int), d, cov as nat),
                covered_v(b_nodes.skip(j as int), d) == pow2(d as nat) - cov,
                wf_section_v(nodes_v(out@), d, 0),
                covered_v(nodes_v(out@), d) == cov,
                cov <= pow2(d as nat),
                forall|t: int|
                    0 <= t < i && (#[trigger] a_nodes[t]) is Revealed ==> contains_node_v(
                        nodes_v(out@),
                        a_nodes[t],
                    ),
                forall|t: int|
                    0 <= t < j && (#[trigger] b_nodes[t]) is Revealed ==> contains_node_v(
                        nodes_v(out@),
                        b_nodes[t],
                    ),
                walk_extends(
                    merge_walk_v(a_nodes, b_nodes, d),
                    nodes_v(out@),
                    merge_walk_v(a_nodes.skip(i as int), b_nodes.skip(j as int), d),
                ),
            decreases na - i + nb - j,
        {
            let a = self.cross_section[i];
            let b = other.cross_section[j];
            proof {
                assert(a_nodes.skip(i as int)[0] == a_nodes[i as int]);
                assert(a_nodes[i as int] == a@);
                assert(a_nodes.skip(i as int).drop_first() =~= a_nodes.skip(i + 1));
                assert(b_nodes.skip(j as int)[0] == b_nodes[j as int]);
                assert(b_nodes[j as int] == b@);
                assert(b_nodes.skip(j as int).drop_first() =~= b_nodes.skip(j + 1));
            }
            let wa = node_width(&a, d);
            let wb = node_width(&b, d);
            if wa == wb {
                let mut pick_b = false;
                if !(a == b) {
                    match (a, b) {
                        (TreeNode::ConcealedNode { .. }, TreeNode::CommitmentLeaf { .. }) => {
                            pick_b = true;
                        },
                        (TreeNode::CommitmentLeaf { .. }, TreeNode::ConcealedNode { .. }) => {
                            pick_b = false;
                        },
                        _ => {
                            proof {
                                assert(merge_pick_v(a@, b@) is None);
                                assert(merge_walk_v(
                                    a_nodes.skip(i as int),
                                    b_nodes.skip(j as int),
                                    d,
                                ) is None);
                                assert(merge_walk_v(a_nodes, b_nodes, d) is None);
                            }
                            return Err(UnrelatedProof);
                        },
                    }
                }
                let chosen = if pick_b {
                    b
                } else {
                    a
                };
                let ghost pre_out = nodes_v(out@);
                proof {
                    assert(v_width(chosen@, d) == wa);
                    lemma_covered_push(pre_out, chosen@, d);
                    lemma_wf_append(pre_out, chosen@, d, 0);
                }
                out.push(chosen);
                proof {
                    assert(nodes_v(out@) =~= pre_out.push(chosen@));
                    assert forall|t: int|
                        0 <= t < i + 1 && (#[trigger] a_nodes[t]) is Revealed implies
                        contains_node_v(nodes_v(out@), a_nodes[t]) by {
                        if t < i {
                            let w0 = choose|j2: int|
                                0 <= j2 < pre_out.len() && pre_out[j2] == a_nodes[t];
                            assert(nodes_v(out@)[w0] == a_nodes[t]);
                        } else {
                            assert(chosen@ == a_nodes[t]);
                            assert(nodes_v(out@)[nodes_v(out@).len() - 1] == a_nodes[t]);
                        }
                    }
                    assert forall|t: int|
                        0 <= t < j + 1 && (#[trigger] b_nodes[t]) is Revealed implies
                        contains_node_v(nodes_v(out@), b_nodes[t]) by {
                        if t < j {
                            let w0 = choose|j2: int|
                                0 <= j2 < pre_out.len() && pre_out[j2] == b_nodes[t];
                            assert(nodes_v(out@)[w0] == b_nodes[t]);
                        } else {
                            assert(chosen@ == b_nodes[t]);
                            assert(nodes_v(out@)[nodes_v(out@).len() - 1] == b_nodes[t]);
                        }
                    }
                    assert(merge_pick_v(a@, b@) == Some(chosen@));
                    assert(walk_extends(
                        merge_walk_v(a_nodes, b_nodes, d),
                        nodes_v(out@),
                        merge_walk_v(a_nodes.skip(i + 1), b_nodes.skip(j + 1), d),
                    )) by {
                        match merge_walk_v(a_nodes.skip(i + 1), b_nodes.skip(j + 1), d) {
                            Some(r2) => {
                                assert(merge_walk_v(
                                    a_nodes.skip(i as int),
                                    b_nodes.skip(j as int),
                                    d,
                                ) == Some(seq![chosen@] + r2));
                                assert(pre_out + (seq![chosen@] + r2) =~= nodes_v(out@) + r2);
                            },
                            None => {},
                        }
                    }
                }
                cov = cov + wa;
                i += 1;
                j += 1;
            } else if wa > wb {
                // the other side carries more detail here: splice its run in
                proof {
                    vstd::arithmetic::power2::lemma2_to64();
                    assert(a@ is Hidden) by {
                        if a@ is Revealed {
                            assert(v_width(a@, d) == pow2(0));
                        }
                    }
                }
                let mut acc: usize = 0;
                let ghost j0 = j as int;
                let ghost run_start = nodes_v(out@);
                proof {
                    assert(b_nodes[j0] == b@);
                    assert(v_width(b_nodes[j0], d) == wb);
                    assert(a_nodes[i as int] == a@);
                    assert(v_width(a_nodes[i as int], d) == wa);
                    assert(b_nodes.subrange(j0, j0) =~= Seq::<NodeV>::empty());
                    assert(run_start + b_nodes.subrange(j0, j0) =~= run_start);
                    match take_cover_v(b_nodes.skip(j0), d, wa as nat) {
                        Some(jj) => {
                            assert(0 + jj == jj);
                        },
                        None => {},
                    }
                }
                while acc < wa && j < nb
                    invariant
                        self.depth == old(self).depth,
                        self.entropy == old(self).entropy,
                        self.cross_section@ == old(self).cross_section@,
                        d == old(self).spec_depth(),
                        d == other.spec_depth(),
                        d <= 16,
                        pow2(d as nat) <= 65536,
                        b_nodes == other.spec_nodes(),
                        nb == b_nodes.len(),
                        0 <= j0,
                        j0 <= j <= nb,
                        a_nodes == old(self).spec_nodes(),
                        na == a_nodes.len(),
                        i < na,
                        wa == v_width(a_nodes[i as int], d),
                        v_width(b_nodes[j0], d) < wa,
                        j0 < nb,
                        acc > 0 ==> j > j0,
                        nodes_v(out@) == run_start + b_nodes.subrange(j0, j as int),
                        cover_shift(
                            take_cover_v(b_nodes.skip(j0), d, wa as nat),
                            j - j0,
                            take_cover_v(b_nodes.skip(j as int), d, (wa - acc) as nat),
                        ),
                        walk_extends(
                            merge_walk_v(a_nodes, b_nodes, d),
                            run_start,
                            merge_walk_v(a_nodes.skip(i as int), b_nodes.skip(j0), d),
                        ),
                        forall|t: int|
                            0 <= t < i && (#[trigger] a_nodes[t]) is Revealed ==> contains_node_v(
                                nodes_v(out@),
                                a_nodes[t],
                            ),
                        acc <= wa,
                        wa <= pow2(d as nat),
                        cov + wa <= pow2(d as nat),
                        wf_section_v(b_nodes.skip(j as int), d, (cov + acc) as nat),
                        covered_v(b_nodes.skip(j as int), d) == pow2(d as nat) - cov - acc,
                        wf_section_v(nodes_v(out@), d, 0),
                        covered_v(nodes_v(out@), d) == cov + acc,
                        forall|t: int|
                            0 <= t < j && (#[trigger] b_nodes[t]) is Revealed ==> contains_node_v(
                                nodes_v(out@),
                                b_nodes[t],
                            ),
                    decreases nb - j,
                {
                    let bn = other.cross_section[j];
                    proof {
                        assert(b_nodes.skip(j as int)[0] == b_nodes[j as int]);
                        assert(b_nodes[j as int] == bn@);
                        assert(b_nodes.skip(j as int).drop_first() =~= b_nodes.skip(j + 1));
                    }
                    let wn = node_width(&bn, d);
                    if acc + wn > wa {
                        proof {
                            assert(a_nodes.skip(i as int)[0] == a_nodes[i as int]);
                            assert(b_nodes.skip(j0)[0] == b_nodes[j0]);
                            assert(take_cover_v(b_nodes.skip(j as int), d, (wa - acc) as nat)
                                is None);
                            assert(take_cover_v(b_nodes.skip(j0), d, wa as nat) is None);
                            assert(merge_walk_v(a_nodes.skip(i as int), b_nodes.skip(j0), d)
                                is None);
                            assert(merge_walk_v(a_nodes, b_nodes, d) is None);
                        }
                        return Err(UnrelatedProof);
                    }
                    let ghost pre_out = nodes_v(out@);
                    proof {
                        lemma_covered_push(pre_out, bn@, d);
                        lemma_wf_append(pre_out, bn@, d, 0);
                    }
                    out.push(bn);
                    proof {
                        assert(nodes_v(out@) =~= pre_out.push(bn@));
                        assert forall|t: int|
                            0 <= t < j + 1 && (#[trigger] b_nodes[t]) is Revealed implies
                            contains_node_v(nodes_v(out@), b_nodes[t]) by {
                            if t < j {
                                lemma_contains_push(pre_out, bn@, b_nodes[t]);
                            } else {
                                assert(nodes_v(out@)[nodes_v(out@).len() - 1] == b_nodes[t]);
                            }
                        }
                        assert forall|t: int|
                            0 <= t < i && (#[trigger] a_nodes[t]) is Revealed implies
                            contains_node_v(nodes_v(out@), a_nodes[t]) by {
                            lemma_contains_push(pre_out, bn@, a_nodes[t]);
                        }
                        assert(nodes_v(out@) =~= run_start + b_nodes.subrange(j0, j + 1)) by {
                            assert(b_nodes.subrange(j0, j + 1) =~= b_nodes.subrange(
                                j0,
                                j as int,
                            ).push(bn@));
                        }
                        match take_cover_v(b_nodes.skip(j + 1), d, (wa - (acc + wn)) as nat) {
                            Some(jj) => {
                                assert(take_cover_v(b_nodes.skip(j as int), d, (wa - acc) as nat)
                                    == Some(jj + 1));
                            },
                            None => {
                                assert(take_cover_v(b_nodes.skip(j as int), d, (wa - acc) as nat)
                                    is None);
                            },
                        }
                    }
                    acc = acc + wn;
                    j += 1;
                }
                if acc != wa {
                    proof {
                        assert(a_nodes.skip(i as int)[0] == a_nodes[i as int]);
                        assert(b_nodes.skip(j0)[0] == b_nodes[j0]);
                        assert(j == nb);
                        assert(b_nodes.skip(j as int) =~= Seq::<NodeV>::empty());
                        assert(take_cover_v(b_nodes.skip(j as int), d, (wa - acc) as nat)
                            is None);
                        assert(take_cover_v(b_nodes.skip(j0), d, wa as nat) is None);
                        assert(merge_walk_v(a_nodes.skip(i as int), b_nodes.skip(j0), d)
                            is None);
                        assert(merge_walk_v(a_nodes, b_nodes, d) is None);
                    }
                    return Err(UnrelatedProof);
                }
                proof {
                    assert forall|t: int|
                        0 <= t < i + 1 && (#[trigger] a_nodes[t]) is Revealed implies
                        contains_node_v(nodes_v(out@), a_nodes[t]) by {
                        if t < i {
                            assert(contains_node_v(nodes_v(out@), a_nodes[t]));
                        } else {
                            assert(a_nodes[t] == a@);
                        }
                    }
                    // the consumed run is exactly the cover of the wider node
                    assert(a_nodes.skip(i as int)[0] == a_nodes[i as int]);
                    assert(b_nodes.skip(j0)[0] == b_nodes[j0]);
                    assert(take_cover_v(b_nodes.skip(j as int), d, 0) == Some(0int));
                    assert(take_cover_v(b_nodes.skip(j0), d, wa as nat) == Some(j - j0));
                    assert(1 <= j - j0 <= b_nodes.skip(j0).len());
                    assert(b_nodes.skip(j0).skip(j - j0) =~= b_nodes.skip(j as int));
                    assert(b_nodes.skip(j0).take(j - j0) =~= b_nodes.subrange(j0, j as int));
                    assert(walk_extends(
                        merge_walk_v(a_nodes, b_nodes, d),
                        nodes_v(out@),
                        merge_walk_v(a_nodes.skip(i + 1), b_nodes.skip(j as int), d),
                    )) by {
                        assert(a_nodes.skip(i as int).drop_first() =~= a_nodes.skip(i + 1));
                        match merge_walk_v(a_nodes.skip(i + 1), b_nodes.skip(j as int), d) {
                            Some(r2) => {
                                assert(merge_walk_v(a_nodes.skip(i as int), b_nodes.skip(j0), d)
                                    == Some(b_nodes.subrange(j0, j as int) + r2));
                                assert(run_start + (b_nodes.subrange(j0, j as int) + r2)
                                    =~= nodes_v(out@) + r2);
                            },
                            None => {},
                        }
                    }
                }
                cov = cov + wa;
                i += 1;
            } else {
                // this side carries more detail here: keep its run
                proof {
                    vstd::arithmetic::power2::lemma2_to64();
                    assert(b@ is Hidden) by {
                        if b@ is Revealed {
                            assert(v_width(b@, d) == pow2(0));
                        }
                    }
                }
                let mut acc: usize = 0;
                let ghost i0 = i as int;
                let ghost run_start = nodes_v(out@);
                proof {
                    assert(a_nodes[i0] == a@);
                    assert(v_width(a_nodes[i0], d) == wa);
                    assert(b_nodes[j as int] == b@);
                    assert(v_width(b_nodes[j as int], d) == wb);
                    assert(a_nodes.subrange(i0, i0) =~= Seq::<NodeV>::empty());
                    assert(run_start + a_nodes.subrange(i0, i0) =~= run_start);
                    match take_cover_v(a_nodes.skip(i0), d, wb as nat) {
                        Some(jj) => {
                            assert(0 + jj == jj);
                        },
                        None => {},
                    }
                }
                while acc < wb && i < na
                    invariant
                        self.depth == old(self).depth,
                        self.entropy == old(self).entropy,
                        self.cross_section@ == old(self).cross_section@,
                        d == old(self).spec_depth(),
                        d == other.spec_depth(),
                        d <= 16,
                        pow2(d as nat) <= 65536,
                        a_nodes == old(self).spec_nodes(),
                        na == a_nodes.len(),
                        0 <= i0,
                        i0 <= i <= na,
                        b_nodes == other.spec_nodes(),
                        nb == b_nodes.len(),
                        j < nb,
                        wb == v_width(b_nodes[j as int], d),
                        v_width(a_nodes[i0], d) < wb,
                        i0 < na,
                        acc > 0 ==> i > i0,
                        nodes_v(out@) == run_start + a_nodes.subrange(i0, i as int),
                        cover_shift(
                            take_cover_v(a_nodes.skip(i0), d, wb as nat),
                            i - i0,
                            take_cover_v(a_nodes.skip(i as int), d, (wb - acc) as nat),
                        ),
                        walk_extends(
                            merge_walk_v(a_nodes, b_nodes, d),
                            run_start,
                            merge_walk_v(a_nodes.skip(i0), b_nodes.skip(j as int), d),
                        ),
                        forall|t: int|
                            0 <= t < j && (#[trigger] b_nodes[t]) is Revealed ==> contains_node_v(
                                nodes_v(out@),
                                b_nodes[t],
                            ),
                        acc <= wb,
                        wb <= pow2(d as nat),
                        cov + wb <= pow2(d as nat),
                        wf_section_v(a_nodes.skip(i as int), d, (cov + acc) as nat),
                        covered_v(a_nodes.skip(i as int), d) == pow2(d as nat) - cov - acc,
                        wf_section_v(nodes_v(out@), d, 0),
                        covered_v(nodes_v(out@), d) == cov + acc,
                        forall|t: int|
                            0 <= t < i && (#[trigger] a_nodes[t]) is Revealed ==> contains_node_v(
                                nodes_v(out@),
                                a_nodes[t],
                            ),
                    decreases na - i,
                {
                    let an = self.cross_section[i];
                    proof {
                        assert(a_nodes.skip(i as int)[0] == a_nodes[i as int]);
                        assert(a_nodes[i as int] == an@);
                        assert(a_nodes.skip(i as int).drop_first() =~= a_nodes.skip(i + 1));
                    }
                    let wn = node_width(&an, d);
                    if acc + wn > wb {
                        proof {
                            assert(b_nodes.skip(j as int)[0] == b_nodes[j as int]);
                            assert(a_nodes.skip(i0)[0] == a_nodes[i0]);
                            assert(take_cover_v(a_nodes.skip(i as int), d, (wb - acc) as nat)
                                is None);
                            assert(take_cover_v(a_nodes.skip(i0), d, wb as nat) is None);
                            assert(merge_walk_v(a_nodes.skip(i0), b_nodes.skip(j as int), d)
                                is None);
                            assert(merge_walk_v(a_nodes, b_nodes, d) is None);
                        }
                        return Err(UnrelatedProof);
                    }
                    let ghost pre_out = nodes_v(out@);
                    proof {
                        lemma_covered_push(pre_out, an@, d);
                        lemma_wf_append(pre_out, an@, d, 0);
                    }
                    out.push(an);
                    proof {
                        assert(nodes_v(out@) =~= pre_out.push(an@));
                        assert forall|t: int|
                            0 <= t < i + 1 && (#[trigger] a_nodes[t]) is Revealed implies
                            contains_node_v(nodes_v(out@), a_nodes[t]) by {
                            if t < i {
                                lemma_contains_push(pre_out, an@, a_nodes[t]);
                            } else {
                                assert(nodes_v(out@)[nodes_v(out@).len() - 1] == a_nodes[t]);
                            }
                        }
                        assert forall|t: int|
                            0 <= t < j && (#[trigger] b_nodes[t]) is Revealed implies
                            contains_node_v(nodes_v(out@), b_nodes[t]) by {
                            lemma_contains_push(pre_out, an@, b_nodes[t]);
                        }
                        assert(nodes_v(out@) =~= run_start + a_nodes.subrange(i0, i + 1)) by {
                            assert(a_nodes.subrange(i0, i + 1) =~= a_nodes.subrange(
                                i0,
                                i as int,
                            ).push(an@));
                        }
                        match take_cover_v(a_nodes.skip(i + 1), d, (wb - (acc + wn)) as nat) {
                            Some(jj) => {
                                assert(take_cover_v(a_nodes.skip(i as int), d, (wb - acc) as nat)
                                    == Some(jj + 1));
                            },
                            None => {
                                assert(take_cover_v(a_nodes.skip(i as int), d, (wb - acc) as nat)
                                    is None);
                            },
                        }
                    }
                    acc = acc + wn;
                    i += 1;
                }
                if acc != wb {
                    proof {
                        assert(b_nodes.skip(j as int)[0] == b_nodes[j as int]);
                        assert(a_nodes.skip(i0)[0] == a_nodes[i0]);
                        assert(i == na);
                        assert(a_nodes.skip(i as int) =~= Seq::<NodeV>::empty());
                        assert(take_cover_v(a_nodes.skip(i as int), d, (wb - acc) as nat)
                            is None);
                        assert(take_cover_v(a_nodes.skip(i0), d, wb as nat) is None);
                        assert(merge_walk_v(a_nodes.skip(i0), b_nodes.skip(j as int), d)
                            is None);
                        assert(merge_walk_v(a_nodes, b_nodes, d) is None);
                    }
                    return Err(UnrelatedProof);
                }
                proof {
                    assert forall|t: int|
                        0 <= t < j + 1 && (#[trigger] b_nodes[t]) is Revealed implies
                        contains_node_v(nodes_v(out@), b_nodes[t]) by {
                        if t < j {
                            assert(contains_node_v(nodes_v(out@), b_nodes[t]));
                        } else {
                            assert(b_nodes[t] == b@);
                        }
                    }
                    assert(b_nodes.skip(j as int)[0] == b_nodes[j as int]);
                    assert(a_nodes.skip(i0)[0] == a_nodes[i0]);
                    assert(take_cover_v(a_nodes.skip(i as int), d, 0) == Some(0int));
                    assert(take_cover_v(a_nodes.skip(i0), d, wb as nat) == Some(i - i0));
                    assert(1 <= i - i0 <= a_nodes.skip(i0).len());
                    assert(a_nodes.skip(i0).skip(i - i0) =~= a_nodes.skip(i as int));
                    assert(a_nodes.skip(i0).take(i - i0) =~= a_nodes.subrange(i0, i as int));
                    assert(walk_extends(
                        merge_walk_v(a_nodes, b_nodes, d),
                        nodes_v(out@),
                        merge_walk_v(a_nodes.skip(i as int), b_nodes.skip(j + 1), d),
                    )) by {
                        assert(b_nodes.skip(j as int).drop_first() =~= b_nodes.skip(j + 1));
                        match merge_walk_v(a_nodes.skip(i as int), b_nodes.skip(j + 1), d) {
                            Some(r2) => {
                                assert(merge_walk_v(a_nodes.skip(i0), b_nodes.skip(j as int), d)
                                    == Some(a_nodes.subrange(i0, i as int) + r2));
                                assert(run_start + (a_nodes.subrange(i0, i as int) + r2)
                                    =~= nodes_v(out@) + r2);
                            },
                            None => {},
                        }
                    }
                }
                cov = cov + wb;
                j += 1;
            }
        }
        proof {
            if i == na {
                assert(a_nodes.skip(na as int) =~= Seq::<NodeV>::empty());
                assert(cov == pow2(d as nat));
                lemma_covered_ge_len(b_nodes.skip(j as int), d);
                assert(j == nb);
            } else {
                assert(b_nodes.skip(nb as int) =~= Seq::<NodeV>::empty());
                assert(cov == pow2(d as nat));
                lemma_covered_ge_len(a_nodes.skip(i as int), d);
                assert(i == na);
            }
            assert forall|t: int|
                0 <= t < a_nodes.len() && (#[trigger] a_nodes[t]) is Revealed implies
                contains_node_v(nodes_v(out@), a_nodes[t]) by {}
            assert(a_nodes.skip(na as int) =~= Seq::<NodeV>::empty());
            assert(b_nodes.skip(nb as int) =~= Seq::<NodeV>::empty());
            assert(merge_walk_v(a_nodes.skip(na as int), b_nodes.skip(nb as int), d)
                == Some(Seq::<NodeV>::empty()));
            assert(merge_walk_v(a_nodes, b_nodes, d) == Some(nodes_v(out@))) by {
                assert(nodes_v(out@) + Seq::<NodeV>::empty() =~= nodes_v(out@));
            }
        }
        // the merged cross-section must reduce to the same commitment;
        // structurally inconsistent inputs are rejected rather than merged
        let candidate = MerkleBlock { depth: d, cross_section: out, entropy: self.entropy };
        let c3 = candidate.consensus_commit();
        if !(c3 == c1) {
            proof {
                assert(!merge_compatible_v(a_nodes, b_nodes, d));
            }
            return Err(UnrelatedProof);
        }
        self.cross_section = candidate.cross_section;
        let n = self.cross_section.len();
        Ok(#[verifier::truncate] (n as u16))
    }

    /// Merges an inclusion proof for a message under the given protocol id
    /// into the block, revealing that leaf.
    pub fn merge_reveal(
        &mut self,
        proof: &MerkleProof,
        protocol_id: &ProtocolId,
        message: &Message,
    ) -> (r: Result<u16, UnrelatedProof>)
        requires
            old(self).wf(),
            proof.wf(),
        ensures
            final(self).spec_depth() == old(self).spec_depth(),
            final(self).spec_entropy() == old(self).spec_entropy(),
            (r is Err) <==> !(old(self).spec_depth() == proof.spec_path().len()
                && block_commitment_s(old(self).spec_nodes(), old(self).spec_depth())
                == block_commitment_s(
                with_v(proof.spec_pos() as nat, proof.spec_path(), protocol_id@, message@),
                proof.spec_path().len() as u8,
            ) && merge_compatible_v(
                old(self).spec_nodes(),
                with_v(proof.spec_pos() as nat, proof.spec_path(), protocol_id@, message@),
                old(self).spec_depth(),
            )),
            match r {
                Ok(_) => {
                    &&& final(self).wf()
                    &&& block_commitment_s(final(self).spec_nodes(), final(self).spec_depth())
                        == block_commitment_s(old(self).spec_nodes(), old(self).spec_depth())
                    &&& Some(final(self).spec_nodes()) == merge_walk_v(
                        old(self).spec_nodes(),
                        with_v(
                            proof.spec_pos() as nat,
                            proof.spec_path(),
                            protocol_id@,
                            message@,
                        ),
                        old(self).spec_depth(),
                    )
                    &&& reveals_pid_v(final(self).spec_nodes(), protocol_id@)
                    &&& forall|t: int|
                        0 <= t < old(self).spec_nodes().len() && (#[trigger] old(
                            self,
                        ).spec_nodes()[t]) is Revealed ==> contains_node_v(
                            final(self).spec_nodes(),
                            old(self).spec_nodes()[t],
                        )
                    &&& block_commitment_s(old(self).spec_nodes(), old(self).spec_depth())
                        == block_commitment_s(
                        with_v(
                            proof.spec_pos() as nat,
                            proof.spec_path(),
                            protocol_id@,
                            message@,
                        ),
                        proof.spec_path().len() as u8,
                    )
                },
                Err(_) => final(self).spec_nodes() == old(self).spec_nodes(),
            },
    {
        let block = MerkleBlock::with(proof, protocol_id, message);
        let ghost b_nodes = block.spec_nodes();
        let ghost leaf_idx = left_sibs_v(
            proof.spec_pos() as nat,
            proof.spec_path(),
            proof.spec_path().len(),
        ).len() as int;
        proof {
            assert(b_nodes[leaf_idx] == (NodeV::Revealed { pid: protocol_id@, msg: message@ }));
        }
        let r = self.merge_reveal_other(block);
        proof {
            match r {
                Ok(_) => {
                    assert(b_nodes[leaf_idx] is Revealed);
                    assert(contains_node_v(self.spec_nodes(), b_nodes[leaf_idx]));
                    let w0 = choose|j2: int|
                        0 <= j2 < self.spec_nodes().len() && self.spec_nodes()[j2]
                            == b_nodes[leaf_idx];
                    assert((self.spec_nodes()[w0] matches NodeV::Revealed { pid: p, .. } && p
                        == protocol_id@));
                },
                Err(_) => {},
            }
        }
        r
    }
}

/// No adjacent pair of a cross-section's nodes, up to (and not including)
/// the pair index bound, is a mergeable sibling pair.
spec fn stable_upto_v(nodes: Seq<NodeV>, d: u8, bound: int) -> bool {
    forall|p: int|
        0 <= p < bound && p + 1 < nodes.len() ==> !mergeable_v(
            #[trigger] nodes[p],
            nodes[p + 1],
            d,
            covered_v(nodes.take(p), d),
        )
}

/// A cross-section is stable when no adjacent pair can merge anywhere.
spec fn stable_v(nodes: Seq<NodeV>, d: u8) -> bool {
    stable_upto_v(nodes, d, nodes.len() - 1)
}

/// The top-merge loop leaves a stable cross-section whenever only the top
/// pair could have been mergeable.
proof fn lemma_merge_tops_stable(z: Seq<NodeV>, d: u8)
    requires
        stable_upto_v(z, d, z.len() - 2),
    ensures
        stable_v(merge_tops_v(z, d), d),
    decreases z.len(),
{
    if z.len() < 2 {
        assert(stable_v(z, d));
    } else {
        let a = z[z.len() - 2];
        let b = z[z.len() - 1];
        let start_a = covered_v(z.take(z.len() - 2), d);
        if mergeable_v(a, b, d, start_a) {
            let z2 = z.take(z.len() - 2).push(merged_v(a, b, d, start_a));
            assert forall|p: int|
                0 <= p < z2.len() - 2 && p + 1 < z2.len() implies !mergeable_v(
                #[trigger] z2[p],
                z2[p + 1],
                d,
                covered_v(z2.take(p), d),
            ) by {
                assert(z2.take(p) =~= z.take(p));
                assert(z2[p] == z[p]);
                assert(z2[p + 1] == z[p + 1]);
            }
            lemma_merge_tops_stable(z2, d);
        } else {
            assert forall|p: int|
                0 <= p < z.len() - 1 && p + 1 < z.len() implies !mergeable_v(
                #[trigger] z[p],
                z[p + 1],
                d,
                covered_v(z.take(p), d),
            ) by {
                if p == z.len() - 2 {
                    assert(!mergeable_v(z[p], z[p + 1], d, covered_v(z.take(p), d)));
                }
            }
        }
    }
}

/// The scan always produces a stable cross-section.
proof fn lemma_merge_scan_stable(nodes: Seq<NodeV>, d: u8)
    ensures
        stable_v(merge_scan_v(nodes, d), d),
    decreases nodes.len(),
{
    if nodes.len() == 0 {
        assert(stable_v(nodes, d));
    } else {
        lemma_merge_scan_stable(nodes.drop_last(), d);
        let u = merge_scan_v(nodes.drop_last(), d);
        let z = u.push(nodes.last());
        assert forall|p: int|
            0 <= p < z.len() - 2 && p + 1 < z.len() implies !mergeable_v(
            #[trigger] z[p],
            z[p + 1],
            d,
            covered_v(z.take(p), d),
        ) by {
            assert(z.take(p) =~= u.take(p));
            assert(z[p] == u[p]);
            assert(z[p + 1] == u[p + 1]);
        }
        lemma_merge_tops_stable(z, d);
    }
}

/// A stable cross-section passes the top-merge loop unchanged.
proof fn lemma_merge_tops_of_stable(z: Seq<NodeV>, d: u8)
    requires
        stable_v(z, d),
    ensures
        merge_tops_v(z, d) == z,
{
    if z.len() >= 2 {
        assert(!mergeable_v(
            z[z.len() - 2],
            z[z.len() - 1],
            d,
            covered_v(z.take(z.len() - 2), d),
        ));
    }
}

/// A stable cross-section passes the whole scan unchanged.
proof fn lemma_merge_scan_of_stable(nodes: Seq<NodeV>, d: u8)
    requires
        stable_v(nodes, d),
    ensures
        merge_scan_v(nodes, d) == nodes,
    decreases nodes.len(),
{
    if nodes.len() > 0 {
        let u = nodes.drop_last();
        assert forall|p: int|
            0 <= p < u.len() - 1 && p + 1 < u.len() implies !mergeable_v(
            #[trigger] u[p],
            u[p + 1],
            d,
            covered_v(u.take(p), d),
        ) by {
            assert(u.take(p) =~= nodes.take(p));
            assert(u[p] == nodes[p]);
            assert(u[p + 1] == nodes[p + 1]);
            assert(!mergeable_v(nodes[p], nodes[p + 1], d, covered_v(nodes.take(p), d)));
        }
        lemma_merge_scan_of_stable(u, d);
        assert(u.push(nodes.last()) =~= nodes);
        lemma_merge_tops_of_stable(nodes, d);
    }
}

/// Alignment of a single node extracted from a well-formed section: it
/// starts at the section start plus the span of the nodes before it, and
/// that start is aligned to its width.
proof fn lemma_wf_at(nodes: Seq<NodeV>, d: u8, start: nat, idx: int)
    requires
        wf_section_v(nodes, d, start),
        0 <= idx < nodes.len(),
    ensures
        v_depth_or(nodes[idx], d) <= d,
        (start + covered_v(nodes.take(idx), d)) % v_width(nodes[idx], d) == 0,
    decreases idx,
{
    if idx == 0 {
        assert(nodes.take(0) =~= Seq::<NodeV>::empty());
        assert(covered_v(Seq::<NodeV>::empty(), d) == 0);
    } else {
        lemma_wf_at(nodes.drop_first(), d, start + v_width(nodes[0], d), idx - 1);
        assert(nodes.drop_first()[idx - 1] == nodes[idx]);
        assert(nodes.drop_first().take(idx - 1) =~= nodes.take(idx).drop_first());
        assert(nodes.take(idx)[0] == nodes[0]);
        assert(covered_v(nodes.take(idx), d) == v_width(nodes[0], d) + covered_v(
            nodes.take(idx).drop_first(),
            d,
        ));
    }
}

/// The top-merge loop keeps a section well-formed and spans the same width.
proof fn lemma_merge_tops_wf(z: Seq<NodeV>, d: u8)
    requires
        wf_section_v(z, d, 0),
    ensures
        wf_section_v(merge_tops_v(z, d), d, 0),
        covered_v(merge_tops_v(z, d), d) == covered_v(z, d),
    decreases z.len(),
{
    if z.len() >= 2 {
        let a = z[z.len() - 2];
        let b = z[z.len() - 1];
        let start_a = covered_v(z.take(z.len() - 2), d);
        if mergeable_v(a, b, d, start_a) {
            let m = merged_v(a, b, d, start_a);
            let z2 = z.take(z.len() - 2).push(m);
            lemma_wf_split(z, d, 0, z.len() - 2);
            assert(z.skip(z.len() - 2) =~= seq![a, b]);
            assert(seq![a, b] =~= seq![a].push(b));
            assert(seq![a] =~= Seq::<NodeV>::empty().push(a));
            assert(covered_v(Seq::<NodeV>::empty(), d) == 0);
            lemma_covered_push(Seq::<NodeV>::empty(), a, d);
            lemma_covered_push(seq![a], b, d);
            assert(v_width(b, d) == v_width(a, d));
            let k = v_depth_or(a, d);
            vstd::arithmetic::power2::lemma_pow2_unfold((d - k + 1) as nat);
            assert(v_width(m, d) == 2 * v_width(a, d));
            lemma_covered_push(z.take(z.len() - 2), m, d);
            lemma_wf_append(z.take(z.len() - 2), m, d, 0);
            lemma_merge_tops_wf(z2, d);
        }
    }
}

/// The whole scan keeps a section well-formed and spans the same width.
proof fn lemma_merge_scan_wf(nodes: Seq<NodeV>, d: u8)
    requires
        wf_section_v(nodes, d, 0),
    ensures
        wf_section_v(merge_scan_v(nodes, d), d, 0),
        covered_v(merge_scan_v(nodes, d), d) == covered_v(nodes, d),
    decreases nodes.len(),
{
    if nodes.len() > 0 {
        let u0 = nodes.drop_last();
        let n = nodes.last();
        assert(u0.push(n) =~= nodes);
        lemma_wf_split(nodes, d, 0, nodes.len() - 1);
        assert(nodes.take(nodes.len() - 1) =~= u0);
        lemma_merge_scan_wf(u0, d);
        let u = merge_scan_v(u0, d);
        lemma_wf_at(nodes, d, 0, nodes.len() - 1);
        lemma_covered_push(u, n, d);
        lemma_wf_append(u, n, d, 0);
        lemma_merge_tops_wf(u.push(n), d);
        assert(nodes.skip(nodes.len() - 1) =~= seq![n]);
        assert(seq![n] =~= Seq::<NodeV>::empty().push(n));
        assert(covered_v(Seq::<NodeV>::empty(), d) == 0);
        lemma_covered_push(Seq::<NodeV>::empty(), n, d);
    }
}

/// A power-of-two multiple decides parity: with `w` dividing `s`, the
/// quotient `s / w` is even exactly when `2w` divides `s`.
proof fn lemma_parity(s: nat, w: nat)
    requires
        w > 0,
        s % w == 0,
    ensures
        (s / w) % 2 == 0 <==> s % (2 * w) == 0,
{
    let q = s / w;
    vstd::arithmetic::div_mod::lemma_fundamental_div_mod(s as int, w as int);
    assert(s == w * q);
    vstd::arithmetic::div_mod::lemma_fundamental_div_mod(q as int, 2);
    let h = q / 2;
    if q % 2 == 0 {
        assert(s as int == (h as int) * ((2 * w) as int) + 0) by (nonlinear_arith)
            requires
                s == w * q,
                q == 2 * h,
        ;
        vstd::arithmetic::div_mod::lemma_fundamental_div_mod_converse(
            s as int,
            (2 * w) as int,
            h as int,
            0,
        );
    } else {
        assert(s as int == (h as int) * ((2 * w) as int) + w as int) by (nonlinear_arith)
            requires
                s == w * q,
                q == 2 * h + 1,
        ;
        vstd::arithmetic::div_mod::lemma_fundamental_div_mod_converse(
            s as int,
            (2 * w) as int,
            h as int,
            w as int,
        );
    }
}

/// A multiple of a larger power of two is a multiple of a smaller one.
proof fn lemma_pow2_mod_chain(s: nat, small: nat, large: nat)
    requires
        small <= large,
        large <= 16,
        s % pow2(large) == 0,
    ensures
        s % pow2(small) == 0,
{
    vstd::arithmetic::power2::lemma_pow2_adds(small, (large - small) as nat);
    vstd::arithmetic::power2::lemma_pow2_pos(small);
    vstd::arithmetic::power2::lemma_pow2_pos((large - small) as nat);
    let w = pow2(small);
    let m = pow2((large - small) as nat);
    assert(w * m > 0) by (nonlinear_arith)
        requires
            w > 0,
            m > 0,
    ;
    vstd::arithmetic::div_mod::lemma_fundamental_div_mod(s as int, (w * m) as int);
    let q = s / (w * m);
    assert(s == (w * m) * q);
    assert(s == w * (m * q)) by (nonlinear_arith)
        requires
            s == (w * m) * q,
    ;
    lemma_mul_mod_zero((m * q) as int, w as int);
    assert(w * (m * q) == (m * q) * w) by (nonlinear_arith);
}

/// The first node sitting at the deepest level of a cross-section.
proof fn lemma_first_deepest(nodes: Seq<NodeV>, d: u8) -> (p: int)
    requires
        nodes.len() >= 1,
    ensures
        0 <= p < nodes.len(),
        forall|q: int|
            0 <= q < nodes.len() ==> v_depth_or(#[trigger] nodes[q], d) <= v_depth_or(
                nodes[p],
                d,
            ),
        forall|q: int|
            0 <= q < p ==> v_depth_or(#[trigger] nodes[q], d) < v_depth_or(nodes[p], d),
    decreases nodes.len(),
{
    if nodes.len() == 1 {
        0
    } else {
        let p1 = lemma_first_deepest(nodes.drop_last(), d);
        assert(forall|q: int| 0 <= q < nodes.len() - 1 ==> nodes.drop_last()[q] == nodes[q]);
        if v_depth_or(nodes.last(), d) > v_depth_or(nodes[p1], d) {
            nodes.len() - 1
        } else {
            p1
        }
    }
}

/// A stable, fully concealed, well-formed cross-section spanning the whole
/// tree holds exactly one node.
#[verifier::spinoff_prover]
proof fn lemma_stable_hidden_single(nodes: Seq<NodeV>, d: u8)
    requires
        d <= 16,
        wf_section_v(nodes, d, 0),
        covered_v(nodes, d) == pow2(d as nat),
        forall|q: int| 0 <= q < nodes.len() ==> (#[trigger] nodes[q]) is Hidden,
        stable_v(nodes, d),
        nodes.len() >= 1,
    ensures
        nodes.len() == 1,
{
    if nodes.len() == 1 {
        return ;
    }
    let p = lemma_first_deepest(nodes, d);
    let k = v_depth_or(nodes[p], d);
    let w = v_width(nodes[p], d);
    lemma_wf_at(nodes, d, 0, p);
    let s = covered_v(nodes.take(p), d);
    vstd::arithmetic::power2::lemma_pow2_pos((d - k) as nat);
    // the deepest node spans at most half the tree, so it has a sibling level
    assert(k >= 1) by {
        if k == 0 {
            assert(v_width(nodes[0], d) + v_width(nodes[1], d) <= covered_v(nodes, d)) by {
                lemma_wf_split(nodes, d, 0, 2);
                assert(nodes.skip(2).len() >= 0);
                lemma_covered_ge_len(nodes.skip(2), d);
                assert(nodes.take(2) =~= seq![nodes[0], nodes[1]]);
                assert(seq![nodes[0], nodes[1]] =~= seq![nodes[0]].push(nodes[1]));
                assert(seq![nodes[0]] =~= Seq::<NodeV>::empty().push(nodes[0]));
                assert(covered_v(Seq::<NodeV>::empty(), d) == 0);
                lemma_covered_push(Seq::<NodeV>::empty(), nodes[0], d);
                lemma_covered_push(seq![nodes[0]], nodes[1], d);
            }
            assert(v_width(nodes[0], d) >= 1 && v_width(nodes[1], d) >= 1) by {
                vstd::arithmetic::power2::lemma_pow2_pos((d - v_depth_or(nodes[0], d)) as nat);
                vstd::arithmetic::power2::lemma_pow2_pos((d - v_depth_or(nodes[1], d)) as nat);
            }
            // a level-0 node alone spans the whole tree
            assert(v_width(nodes[p], d) == pow2(d as nat));
            assert(v_depth_or(nodes[0], d) >= k && v_depth_or(nodes[1], d) >= k);
            assert(v_width(nodes[0], d) <= pow2((d - k) as nat) && v_width(nodes[1], d) <= pow2(
                (d - k) as nat,
            )) by {
                if v_depth_or(nodes[0], d) > k {
                    vstd::arithmetic::power2::lemma_pow2_strictly_increases(
                        (d - v_depth_or(nodes[0], d)) as nat,
                        (d - k) as nat,
                    );
                }
                if v_depth_or(nodes[1], d) > k {
                    vstd::arithmetic::power2::lemma_pow2_strictly_increases(
                        (d - v_depth_or(nodes[1], d)) as nat,
                        (d - k) as nat,
                    );
                }
            }
        }
    }
    vstd::arithmetic::power2::lemma_pow2_unfold((d - k + 1) as nat);
    lemma_parity(s, w);
    if (s / w) % 2 == 0 {
        // the node is a left child; its right sibling must follow directly
        assert(p + 1 < nodes.len()) by {
            if p == nodes.len() - 1 {
                // the last node would start at an odd sibling slot
                lemma_wf_split(nodes, d, 0, p);
                assert(nodes.skip(p) =~= seq![nodes[p]]);
                assert(seq![nodes[p]] =~= Seq::<NodeV>::empty().push(nodes[p]));
                assert(covered_v(Seq::<NodeV>::empty(), d) == 0);
                lemma_covered_push(Seq::<NodeV>::empty(), nodes[p], d);
                assert(s + w == pow2(d as nat));
                vstd::arithmetic::power2::lemma_pow2_adds((d - k) as nat, k as nat);
                vstd::arithmetic::power2::lemma_pow2_pos(k as nat);
                assert(pow2(d as nat) == w * pow2(k as nat));
                assert(s as int == ((pow2(k as nat) - 1) as int) * (w as int) + 0)
                    by (nonlinear_arith)
                    requires
                        s + w == w * pow2(k as nat),
                        pow2(k as nat) >= 1,
                ;
                vstd::arithmetic::div_mod::lemma_fundamental_div_mod_converse(
                    s as int,
                    w as int,
                    (pow2(k as nat) - 1) as int,
                    0,
                );
                vstd::arithmetic::power2::lemma_pow2_unfold(k as nat);
                assert((pow2(k as nat) - 1) as int == ((pow2((k - 1) as nat) - 1) as int) * 2 + 1)
                    by (nonlinear_arith)
                    requires
                        pow2(k as nat) == 2 * pow2((k - 1) as nat),
                        pow2((k - 1) as nat) >= 1,
                ;
                vstd::arithmetic::div_mod::lemma_fundamental_div_mod_converse(
                    (pow2(k as nat) - 1) as int,
                    2,
                    (pow2((k - 1) as nat) - 1) as int,
                    1,
                );
                vstd::arithmetic::power2::lemma_pow2_pos((k - 1) as nat);
            }
        }
        let kn = v_depth_or(nodes[p + 1], d);
        let wn = v_width(nodes[p + 1], d);
        lemma_wf_at(nodes, d, 0, p + 1);
        assert(nodes.take(p + 1) =~= nodes.take(p).push(nodes[p]));
        lemma_covered_push(nodes.take(p), nodes[p], d);
        assert((s + w) % wn == 0);
        assert(kn == k) by {
            if kn < k {
                // a wider neighbour would sit misaligned right after the node
                lemma_pow2_mod_chain(s + w, (d - k + 1) as nat, (d - kn) as nat);
                assert((s + w) % (2 * w) == 0);
                assert(s % (2 * w) == 0);
                assert((s + w) % (2 * w) == w) by {
                    vstd::arithmetic::div_mod::lemma_fundamental_div_mod(s as int, (2 * w) as int);
                    let qq = s as int / (2 * w) as int;
                    vstd::arithmetic::div_mod::lemma_mod_multiples_vanish(
                        qq,
                        w as int,
                        (2 * w) as int,
                    );
                    vstd::arithmetic::div_mod::lemma_small_mod(w, 2 * w);
                }
            }
        }
        assert(mergeable_v(nodes[p], nodes[p + 1], d, s));
        assert(!mergeable_v(nodes[p], nodes[p + 1], d, covered_v(nodes.take(p), d)));
    } else {
        // the node is a right child; everything before it spans an odd
        // number of its widths, yet consists of wider, more aligned nodes
        assert(p >= 1) by {
            if p == 0 {
                assert(nodes.take(0) =~= Seq::<NodeV>::empty());
                assert(covered_v(Seq::<NodeV>::empty(), d) == 0);
                assert(s == 0);
                assert(0nat / w == 0) by {
                    vstd::arithmetic::div_mod::lemma_basic_div(0, w as int);
                }
            }
        }
        let kb = v_depth_or(nodes[p - 1], d);
        let wb = v_width(nodes[p - 1], d);
        assert(kb < k);
        lemma_wf_at(nodes, d, 0, p - 1);
        let sb = covered_v(nodes.take(p - 1), d);
        assert(nodes.take(p) =~= nodes.take(p - 1).push(nodes[p - 1]));
        lemma_covered_push(nodes.take(p - 1), nodes[p - 1], d);
        assert(s == sb + wb);
        // both the start and the width of the wider node are multiples of 2w
        lemma_pow2_mod_chain(sb, (d - k + 1) as nat, (d - kb) as nat);
        assert(wb % (2 * w) == 0) by {
            vstd::arithmetic::power2::lemma_pow2_adds(
                (d - k + 1) as nat,
                ((d - kb) - (d - k + 1)) as nat,
            );
            assert(wb == pow2((d - k + 1) as nat) * pow2(((d - kb) - (d - k + 1)) as nat));
            lemma_mul_mod_zero(pow2(((d - kb) - (d - k + 1)) as nat) as int, (2 * w) as int);
            assert((2 * w) * pow2(((d - kb) - (d - k + 1)) as nat) == pow2(
                ((d - kb) - (d - k + 1)) as nat,
            ) * (2 * w)) by (nonlinear_arith);
        }
        assert(s % (2 * w) == 0) by {
            vstd::arithmetic::div_mod::lemma_add_mod_noop(sb as int, wb as int, (2 * w) as int);
            assert(sb % (2 * w) == 0);
            assert(wb % (2 * w) == 0);
            vstd::arithmetic::div_mod::lemma_small_mod(0, 2 * w);
        }
        lemma_parity(s, w);
    }
    assert(false);
}

/// Concealing every leaf of a cross-section, with no keep set.
pub open spec fn conceal_all_map_v(nodes: Seq<NodeV>, d: u8) -> Seq<NodeV> {
    nodes.map_values(|n: NodeV| conceal_leaf_v(n, d, None))
}

/// Spanned width is kept by the top-merge loop; merged siblings have equal
/// widths, so no well-formedness is needed.
proof fn lemma_merge_tops_covered(z: Seq<NodeV>, d: u8)
    ensures
        covered_v(merge_tops_v(z, d), d) == covered_v(z, d),
    decreases z.len(),
{
    if z.len() >= 2 {
        let a = z[z.len() - 2];
        let b = z[z.len() - 1];
        let start_a = covered_v(z.take(z.len() - 2), d);
        if mergeable_v(a, b, d, start_a) {
            let m = merged_v(a, b, d, start_a);
            let z2 = z.take(z.len() - 2).push(m);
            assert(z.take(z.len() - 2) + z.skip(z.len() - 2) =~= z);
            lemma_covered_add(z.take(z.len() - 2), z.skip(z.len() - 2), d);
            assert(z.skip(z.len() - 2) =~= seq![a, b]);
            assert(seq![a, b] =~= seq![a].push(b));
            assert(seq![a] =~= Seq::<NodeV>::empty().push(a));
            assert(covered_v(Seq::<NodeV>::empty(), d) == 0);
            lemma_covered_push(Seq::<NodeV>::empty(), a, d);
            lemma_covered_push(seq![a], b, d);
            assert(v_width(b, d) == v_width(a, d));
            let k = v_depth_or(a, d);
            vstd::arithmetic::power2::lemma_pow2_unfold((d - k + 1) as nat);
            assert(v_width(m, d) == 2 * v_width(a, d));
            lemma_covered_push(z.take(z.len() - 2), m, d);
            lemma_merge_tops_covered(z2, d);
        }
    }
}

/// Spanned width is kept by the whole fold.
proof fn lemma_scan_from_covered(s: Seq<NodeV>, y: Seq<NodeV>, d: u8)
    ensures
        covered_v(scan_from(s, y, d), d) == covered_v(s, d) + covered_v(y, d),
    decreases y.len(),
{
    if y.len() > 0 {
        lemma_covered_push(s, y[0], d);
        lemma_merge_tops_covered(s.push(y[0]), d);
        lemma_scan_from_covered(merge_tops_v(s.push(y[0]), d), y.drop_first(), d);
        assert(covered_v(y, d) == v_width(y[0], d) + covered_v(y.drop_first(), d));
    }
}

/// A slot count that is a multiple of `2w` cannot also leave remainder `w`.
proof fn lemma_not_both_aligned(x: nat, w: nat)
    requires
        w > 0,
        x % (2 * w) == 0,
        x >= w,
    ensures
        ((x - w) as nat) % (2 * w) != 0,
{
    if ((x - w) as nat) % (2 * w) == 0 {
        vstd::arithmetic::div_mod::lemma_fundamental_div_mod((x - w) as int, (2 * w) as int);
        let q = ((x - w) as int) / ((2 * w) as int);
        assert(x as int == (q as int) * ((2 * w) as int) + w as int) by (nonlinear_arith)
            requires
                (x - w) as int == (2 * w) as int * q + 0,
        ;
        vstd::arithmetic::div_mod::lemma_fundamental_div_mod_converse(
            x as int,
            (2 * w) as int,
            q,
            w as int,
        );
    }
}

/// Pushing a mergeable sibling pair one node at a time ends as if the merged
/// parent had been pushed: the pair's left element can never merge with the
/// node below it, since their starts cannot both be aligned.
proof fn lemma_push_pair_merged(s: Seq<NodeV>, a: NodeV, b: NodeV, d: u8)
    requires
        mergeable_v(a, b, d, covered_v(s, d)),
    ensures
        merge_tops_v(merge_tops_v(s.push(a), d).push(b), d) == merge_tops_v(
            s.push(merged_v(a, b, d, covered_v(s, d))),
            d,
        ),
{
    let w = v_width(a, d);
    vstd::arithmetic::power2::lemma_pow2_pos((d - v_depth_or(a, d)) as nat);
    assert(merge_tops_v(s.push(a), d) == s.push(a)) by {
        if s.len() >= 1 {
            let z = s.push(a);
            assert(z[z.len() - 2] == s[s.len() - 1]);
            assert(z[z.len() - 1] == a);
            assert(z.take(z.len() - 2) =~= s.take(s.len() - 1));
            if mergeable_v(s[s.len() - 1], a, d, covered_v(s.take(s.len() - 1), d)) {
                assert(v_width(s[s.len() - 1], d) == w);
                assert(s.take(s.len() - 1).push(s[s.len() - 1]) =~= s);
                lemma_covered_push(s.take(s.len() - 1), s[s.len() - 1], d);
                assert(covered_v(s, d) == covered_v(s.take(s.len() - 1), d) + w);
                lemma_not_both_aligned(covered_v(s, d), w);
            }
        }
    }
    let z2 = s.push(a).push(b);
    assert(z2[z2.len() - 2] == a);
    assert(z2[z2.len() - 1] == b);
    assert(z2.take(z2.len() - 2) =~= s);
    assert(merge_tops_v(z2, d) == merge_tops_v(
        s.push(merged_v(a, b, d, covered_v(s, d))),
        d,
    ));
}

/// Replacing an adjacent mergeable sibling pair by its parent, anywhere in
/// the input, leaves the scan's result unchanged.
proof fn lemma_scan_pair_merged(prefix: Seq<NodeV>, a: NodeV, b: NodeV, w: Seq<NodeV>, d: u8)
    requires
        mergeable_v(a, b, d, covered_v(prefix, d)),
    ensures
        merge_scan_v(prefix + seq![a, b] + w, d) == merge_scan_v(
            prefix + seq![merged_v(a, b, d, covered_v(prefix, d))] + w,
            d,
        ),
{
    let m = merged_v(a, b, d, covered_v(prefix, d));
    lemma_scan_is_fold(prefix + seq![a, b] + w, d);
    lemma_scan_is_fold(prefix + seq![m] + w, d);
    assert(prefix + seq![a, b] + w =~= prefix + (seq![a, b] + w));
    assert(prefix + seq![m] + w =~= prefix + (seq![m] + w));
    lemma_scan_split(Seq::empty(), prefix, seq![a, b] + w, d);
    lemma_scan_split(Seq::empty(), prefix, seq![m] + w, d);
    let s = scan_from(Seq::empty(), prefix, d);
    lemma_scan_from_covered(Seq::empty(), prefix, d);
    assert(covered_v(Seq::<NodeV>::empty(), d) == 0);
    assert(covered_v(s, d) == covered_v(prefix, d));
    lemma_scan_split(s, seq![a, b], w, d);
    lemma_scan_split(s, seq![m], w, d);
    assert(seq![a, b] + w =~= seq![a, b] + w);
    let s1 = merge_tops_v(s.push(a), d);
    assert(scan_from(s, seq![a, b], d) == merge_tops_v(s1.push(b), d)) by {
        assert(seq![a, b][0] == a);
        assert(seq![a, b].drop_first() =~= seq![b]);
        assert(scan_from(s, seq![a, b], d) == scan_from(s1, seq![a, b].drop_first(), d));
        assert(scan_from(s1, seq![a, b].drop_first(), d) == scan_from(s1, seq![b], d));
        assert(seq![b][0] == b);
        assert(seq![b].drop_first() =~= Seq::<NodeV>::empty());
        assert(scan_from(s1, seq![b], d) == scan_from(
            merge_tops_v(s1.push(b), d),
            seq![b].drop_first(),
            d,
        ));
        assert(scan_from(merge_tops_v(s1.push(b), d), Seq::<NodeV>::empty(), d) == merge_tops_v(
            s1.push(b),
            d,
        ));
    }
    assert(scan_from(s, seq![m], d) == merge_tops_v(s.push(m), d)) by {
        assert(seq![m][0] == m);
        assert(seq![m].drop_first() =~= Seq::<NodeV>::empty());
        assert(scan_from(s, seq![m], d) == scan_from(
            merge_tops_v(s.push(m), d),
            seq![m].drop_first(),
            d,
        ));
        assert(scan_from(merge_tops_v(s.push(m), d), Seq::<NodeV>::empty(), d) == merge_tops_v(
            s.push(m),
            d,
        ));
    }
    lemma_push_pair_merged(s, a, b, d);
}

/// After concealing every leaf, a top-merged stack scans on like the raw
/// stack: each merge step is one pair replacement in the scanned input.
proof fn lemma_scan_concealed_tops(z: Seq<NodeV>, w: Seq<NodeV>, d: u8)
    ensures
        merge_scan_v(conceal_all_map_v(merge_tops_v(z, d), d) + w, d) == merge_scan_v(
            conceal_all_map_v(z, d) + w,
            d,
        ),
    decreases z.len(),
{
    if z.len() >= 2 {
        let a = z[z.len() - 2];
        let b = z[z.len() - 1];
        let start_a = covered_v(z.take(z.len() - 2), d);
        if mergeable_v(a, b, d, start_a) {
            let m = merged_v(a, b, d, start_a);
            let z2 = z.take(z.len() - 2).push(m);
            lemma_scan_concealed_tops(z2, w, d);
            let cp = conceal_all_map_v(z.take(z.len() - 2), d);
            assert(conceal_all_map_v(z2, d) =~= cp.push(m));
            assert(conceal_all_map_v(z, d) =~= cp + seq![a, b]);
            assert(forall|i: int|
                0 <= i < cp.len() ==> v_depth_or(#[trigger] cp[i], d) == v_depth_or(
                    z.take(z.len() - 2)[i],
                    d,
                ));
            lemma_wf_pointwise(cp, z.take(z.len() - 2), d, 0);
            assert(covered_v(cp, d) == start_a);
            lemma_scan_pair_merged(cp, a, b, w, d);
            assert(cp + seq![m] =~= cp.push(m));
            assert(cp + seq![m] + w =~= conceal_all_map_v(z2, d) + w);
            assert(cp + seq![a, b] + w =~= conceal_all_map_v(z, d) + w);
        }
    }
}

/// Concealing and re-scanning an already folded cross-section yields the
/// same result as concealing and scanning the raw input.
proof fn lemma_scan_concealed_fold(s: Seq<NodeV>, y: Seq<NodeV>, d: u8)
    ensures
        merge_scan_v(conceal_all_map_v(scan_from(s, y, d), d), d) == merge_scan_v(
            conceal_all_map_v(s, d) + conceal_all_map_v(y, d),
            d,
        ),
    decreases y.len(),
{
    if y.len() == 0 {
        assert(conceal_all_map_v(s, d) + conceal_all_map_v(y, d) =~= conceal_all_map_v(s, d));
    } else {
        let s1 = merge_tops_v(s.push(y[0]), d);
        lemma_scan_concealed_fold(s1, y.drop_first(), d);
        lemma_scan_concealed_tops(
            s.push(y[0]),
            conceal_all_map_v(y.drop_first(), d),
            d,
        );
        assert(conceal_all_map_v(s.push(y[0]), d) =~= conceal_all_map_v(s, d).push(
            conceal_leaf_v(y[0], d, None),
        ));
        assert(conceal_all_map_v(s, d).push(conceal_leaf_v(y[0], d, None))
            + conceal_all_map_v(y.drop_first(), d) =~= conceal_all_map_v(s, d)
            + conceal_all_map_v(y, d)) by {
            assert(conceal_all_map_v(y, d)[0] == conceal_leaf_v(y[0], d, None));
            assert(conceal_all_map_v(y, d).drop_first() =~= conceal_all_map_v(
                y.drop_first(),
                d,
            ));
        }
    }
}

/// Holds when no two revealed leaves carry the same protocol id.
pub open spec fn revealed_pids_unique_v(nodes: Seq<NodeV>) -> bool {
    forall|i: int, j: int|
        0 <= i < j < nodes.len() ==> !((#[trigger] nodes[i]) matches NodeV::Revealed {
            pid: p1,
            ..
        } && (#[trigger] nodes[j]) matches NodeV::Revealed { pid: p2, .. } && p1 == p2)
}

/// The revealed-leaf count is kept by the top-merge loop: only hidden
/// siblings merge, and their parent is hidden.
proof fn lemma_merge_tops_rc(z: Seq<NodeV>, d: u8)
    ensures
        revealed_count_v(merge_tops_v(z, d)) == revealed_count_v(z),
    decreases z.len(),
{
    if z.len() >= 2 {
        let a = z[z.len() - 2];
        let b = z[z.len() - 1];
        let start_a = covered_v(z.take(z.len() - 2), d);
        if mergeable_v(a, b, d, start_a) {
            let m = merged_v(a, b, d, start_a);
            let z2 = z.take(z.len() - 2).push(m);
            assert(z.take(z.len() - 2) + z.skip(z.len() - 2) =~= z);
            lemma_revealed_add(z.take(z.len() - 2), z.skip(z.len() - 2));
            assert(z.skip(z.len() - 2) =~= seq![a, b]);
            assert(seq![a, b] =~= seq![a].push(b));
            assert(seq![a] =~= Seq::<NodeV>::empty().push(a));
            assert(revealed_count_v(Seq::<NodeV>::empty()) == 0);
            lemma_revealed_push(Seq::<NodeV>::empty(), a);
            lemma_revealed_push(seq![a], b);
            lemma_revealed_push(z.take(z.len() - 2), m);
            lemma_merge_tops_rc(z2, d);
        }
    }
}

/// The revealed-leaf count is kept by the whole scan.
proof fn lemma_merge_scan_rc(nodes: Seq<NodeV>, d: u8)
    ensures
        revealed_count_v(merge_scan_v(nodes, d)) == revealed_count_v(nodes),
    decreases nodes.len(),
{
    if nodes.len() > 0 {
        lemma_merge_scan_rc(nodes.drop_last(), d);
        let u = merge_scan_v(nodes.drop_last(), d);
        lemma_revealed_push(u, nodes.last());
        lemma_merge_tops_rc(u.push(nodes.last()), d);
        assert(nodes.drop_last().push(nodes.last()) =~= nodes);
        lemma_revealed_push(nodes.drop_last(), nodes.last());
    }
}

/// A revealed leaf at some index makes the count positive.
proof fn lemma_rc_at_least(s: Seq<NodeV>, i: int)
    requires
        0 <= i < s.len(),
        s[i] is Revealed,
    ensures
        revealed_count_v(s) >= 1,
    decreases s.len(),
{
    if i == 0 {
    } else {
        lemma_rc_at_least(s.drop_first(), i - 1);
    }
}

/// A count of two or more yields two distinct revealed indices.
proof fn lemma_rc_two(s: Seq<NodeV>) -> (r: (int, int))
    requires
        revealed_count_v(s) >= 2,
    ensures
        0 <= r.0 < r.1 < s.len(),
        s[r.0] is Revealed,
        s[r.1] is Revealed,
    decreases s.len(),
{
    if s[0] is Revealed {
        if revealed_count_v(s.drop_first()) >= 1 {
            let j = lemma_rc_one(s.drop_first());
            (0, j + 1)
        } else {
            (0, 0)
        }
    } else {
        let (i, j) = lemma_rc_two(s.drop_first());
        (i + 1, j + 1)
    }
}

/// A positive count yields a revealed index.
proof fn lemma_rc_one(s: Seq<NodeV>) -> (r: int)
    requires
        revealed_count_v(s) >= 1,
    ensures
        0 <= r < s.len(),
        s[r] is Revealed,
    decreases s.len(),
{
    if s[0] is Revealed {
        0
    } else {
        lemma_rc_one(s.drop_first()) + 1
    }
}

/// Some hidden node of the section sits at the given level.
spec fn has_level_v(nodes: Seq<NodeV>, d: u8, k: int) -> bool {
    exists|i: int|
        0 <= i < nodes.len() && (#[trigger] nodes[i]) is Hidden && v_depth_or(nodes[i], d) == k
}

/// No adjacent pair of a section starting at the given leaf slot can merge.
spec fn stable_seg_v(nodes: Seq<NodeV>, d: u8, base: nat) -> bool {
    forall|p: int|
        0 <= p && p + 1 < nodes.len() ==> !mergeable_v(
            #[trigger] nodes[p],
            nodes[p + 1],
            d,
            base + covered_v(nodes.take(p), d),
        )
}

/// Exponent order follows power order.
proof fn lemma_pow2_le_inv(a: nat, b: nat)
    requires
        pow2(a) <= pow2(b),
    ensures
        a <= b,
{
    if a > b {
        vstd::arithmetic::power2::lemma_pow2_strictly_increases(b, a);
    }
}

/// A well-formed section reaching past an aligned target splits exactly at
/// it: alignment lets no node straddle the target.
proof fn lemma_take_exact(nodes: Seq<NodeV>, d: u8, s: nat, rem: nat, t: nat) -> (j: int)
    requires
        d <= 16,
        1 <= t <= 17,
        wf_section_v(nodes, d, s),
        covered_v(nodes, d) >= rem,
        1 <= rem <= pow2((t - 1) as nat),
        (s + rem) % pow2((t - 1) as nat) == 0,
        forall|i: int|
            0 <= i < nodes.len() ==> v_width(#[trigger] nodes[i], d) <= pow2((t - 1) as nat),
    ensures
        0 < j <= nodes.len(),
        covered_v(nodes.take(j), d) == rem,
    decreases nodes.len(),
{
    let half = pow2((t - 1) as nat);
    vstd::arithmetic::power2::lemma_pow2_pos((t - 1) as nat);
    assert(nodes.len() >= 1) by {
        if nodes.len() == 0 {
            assert(covered_v(nodes, d) == 0);
        }
    }
    let w0 = v_width(nodes[0], d);
    vstd::arithmetic::power2::lemma_pow2_pos((d - v_depth_or(nodes[0], d)) as nat);
    assert(w0 <= half);
    lemma_pow2_le_inv((d - v_depth_or(nodes[0], d)) as nat, (t - 1) as nat);
    // the node's width divides the target distance, so it does not overshoot
    assert(rem % w0 == 0) by {
        lemma_pow2_mod_chain(s + rem, (d - v_depth_or(nodes[0], d)) as nat, (t - 1) as nat);
        vstd::arithmetic::div_mod::lemma_fundamental_div_mod(s as int, w0 as int);
        vstd::arithmetic::div_mod::lemma_fundamental_div_mod((s + rem) as int, w0 as int);
        let qa = s as int / w0 as int;
        let qb = (s + rem) as int / w0 as int;
        assert(rem as int == (qb - qa) * (w0 as int)) by (nonlinear_arith)
            requires
                s as int == (w0 as int) * qa + 0,
                (s + rem) as int == (w0 as int) * qb + 0,
        ;
        assert(qb - qa >= 0) by (nonlinear_arith)
            requires
                rem as int == (qb - qa) * (w0 as int),
                w0 >= 1,
                rem >= 1,
        ;
        lemma_mul_mod_zero(qb - qa, w0 as int);
    }
    assert(w0 <= rem) by {
        if w0 > rem {
            vstd::arithmetic::div_mod::lemma_small_mod(rem, w0);
        }
    }
    if w0 == rem {
        assert(nodes.take(1) =~= Seq::<NodeV>::empty().push(nodes[0]));
        assert(covered_v(Seq::<NodeV>::empty(), d) == 0);
        lemma_covered_push(Seq::<NodeV>::empty(), nodes[0], d);
        1
    } else {
        assert(forall|i: int|
            0 <= i < nodes.drop_first().len() ==> v_width(
                #[trigger] nodes.drop_first()[i],
                d,
            ) <= half);
        let j1 = lemma_take_exact(nodes.drop_first(), d, s + w0, (rem - w0) as nat, t);
        assert(nodes.take(j1 + 1)[0] == nodes[0]);
        assert(nodes.take(j1 + 1).drop_first() =~= nodes.drop_first().take(j1));
        assert(covered_v(nodes.take(j1 + 1), d) == w0 + covered_v(
            nodes.drop_first().take(j1),
            d,
        ));
        j1 + 1
    }
}

/// The sibling decomposition: a stable, well-formed section spanning an
/// aligned range of `2^t` slots and holding at most one revealed leaf is
/// either a single hidden node (no leaf), or carries exactly one hidden
/// node per level of the range beside the leaf.
#[verifier::rlimit(100)]
#[verifier::spinoff_prover]
proof fn lemma_seg_shape(nodes: Seq<NodeV>, d: u8, base: nat, t: nat)
    requires
        d <= 16,
        t <= d,
        wf_section_v(nodes, d, base),
        covered_v(nodes, d) == pow2(t),
        base % pow2(t) == 0,
        stable_seg_v(nodes, d, base),
        revealed_count_v(nodes) <= 1,
    ensures
        revealed_count_v(nodes) == 0 ==> nodes.len() == 1 && v_depth_or(nodes[0], d) == d - t,
        revealed_count_v(nodes) == 1 ==> {
            &&& forall|i: int, j: int|
                0 <= i < j < nodes.len() && (#[trigger] nodes[i]) is Hidden && (
                #[trigger] nodes[j]) is Hidden ==> v_depth_or(nodes[i], d) != v_depth_or(
                    nodes[j],
                    d,
                )
            &&& forall|i: int|
                0 <= i < nodes.len() && (#[trigger] nodes[i]) is Hidden ==> d - t < v_depth_or(
                    nodes[i],
                    d,
                ) <= d
            &&& forall|k: int| #![trigger has_level_v(nodes, d, k)]
                d - t < k <= d ==> has_level_v(nodes, d, k)
        },
    decreases t,
{
    vstd::arithmetic::power2::lemma_pow2_pos(t);
    assert(nodes.len() >= 1) by {
        if nodes.len() == 0 {
            assert(covered_v(nodes, d) == 0);
        }
    }
    if nodes.len() == 1 {
        assert(nodes =~= Seq::<NodeV>::empty().push(nodes[0]));
        assert(covered_v(Seq::<NodeV>::empty(), d) == 0);
        lemma_covered_push(Seq::<NodeV>::empty(), nodes[0], d);
        assert(v_width(nodes[0], d) == pow2(t));
        assert(v_depth_or(nodes[0], d) == d - t) by {
            lemma_pow2_le_inv(t, (d - v_depth_or(nodes[0], d)) as nat);
            lemma_pow2_le_inv((d - v_depth_or(nodes[0], d)) as nat, t);
        }
        if nodes[0] is Revealed {
            vstd::arithmetic::power2::lemma2_to64();
            assert(v_width(nodes[0], d) == pow2(0));
            lemma_pow2_le_inv(t, 0);
            assert(t == 0);
            assert(revealed_count_v(nodes) == 1);
            assert forall|k: int| #![trigger has_level_v(nodes, d, k)]
                d - t < k <= d implies has_level_v(nodes, d, k) by {}
        } else {
            assert(nodes.drop_first() =~= Seq::<NodeV>::empty());
            assert(revealed_count_v(Seq::<NodeV>::empty()) == 0);
            assert(revealed_count_v(nodes) == 0);
        }
    } else {
        // two or more nodes: every width is below the full range
        lemma_covered_ge_len(nodes, d);
        assert forall|i: int| 0 <= i < nodes.len() implies v_width(#[trigger] nodes[i], d)
            <= pow2((t - 1) as nat) by {
            assert(nodes.take(i) + nodes.skip(i) =~= nodes);
            lemma_covered_add(nodes.take(i), nodes.skip(i), d);
            assert(nodes.skip(i)[0] == nodes[i]);
            assert(covered_v(nodes.skip(i), d) == v_width(nodes[i], d) + covered_v(
                nodes.skip(i).drop_first(),
                d,
            ));
            lemma_covered_ge_len(nodes.skip(i).drop_first(), d);
            lemma_covered_ge_len(nodes.take(i), d);
            assert(v_width(nodes[i], d) < pow2(t)) by {
                if i < nodes.len() - 1 {
                    assert(nodes.skip(i).drop_first().len() >= 1);
                } else {
                    assert(nodes.take(i).len() >= 1);
                }
            }
            assert(t >= 1) by {
                vstd::arithmetic::power2::lemma_pow2_pos(
                    (d - v_depth_or(nodes[i], d)) as nat,
                );
                if t == 0 {
                    vstd::arithmetic::power2::lemma2_to64();
                }
            }
            if v_width(nodes[i], d) > pow2((t - 1) as nat) {
                {
                    vstd::arithmetic::power2::lemma_pow2_unfold(t);
                    lemma_wf_at(nodes, d, base, i);
                    assert((t - 1) as nat <= (d - v_depth_or(nodes[i], d)) as nat) by {
                        if ((d - v_depth_or(nodes[i], d)) as nat) < (t - 1) as nat {
                            vstd::arithmetic::power2::lemma_pow2_strictly_increases(
                                (d - v_depth_or(nodes[i], d)) as nat,
                                (t - 1) as nat,
                            );
                        }
                    }
                    assert(v_width(nodes[i], d) % pow2((t - 1) as nat) == 0) by {
                        lemma_pow2_mod_chain(
                            v_width(nodes[i], d),
                            (t - 1) as nat,
                            (d - v_depth_or(nodes[i], d)) as nat,
                        );
                        assert(v_width(nodes[i], d) % pow2(
                            (d - v_depth_or(nodes[i], d)) as nat,
                        ) == 0) by {
                            lemma_mul_mod_zero(1, v_width(nodes[i], d) as int);
                        }
                    }
                    vstd::arithmetic::div_mod::lemma_fundamental_div_mod(
                        v_width(nodes[i], d) as int,
                        pow2((t - 1) as nat) as int,
                    );
                    let q = v_width(nodes[i], d) as int / pow2((t - 1) as nat) as int;
                    vstd::arithmetic::power2::lemma_pow2_pos((t - 1) as nat);
                    assert(q >= 2) by (nonlinear_arith)
                        requires
                            v_width(nodes[i], d) as int == pow2((t - 1) as nat) as int * q,
                            v_width(nodes[i], d) > pow2((t - 1) as nat),
                            pow2((t - 1) as nat) >= 1,
                    ;
                    assert(v_width(nodes[i], d) >= pow2(t)) by (nonlinear_arith)
                        requires
                            v_width(nodes[i], d) as int == pow2((t - 1) as nat) as int * q,
                            q >= 2,
                            pow2(t) == 2 * pow2((t - 1) as nat),
                    ;
                }
            }
            lemma_pow2_le_inv((d - v_depth_or(nodes[i], d)) as nat, (t - 1) as nat);
        }
        assert(t >= 1) by {
            if t == 0 {
                vstd::arithmetic::power2::lemma2_to64();
                lemma_covered_ge_len(nodes, d);
            }
        }
        let half = pow2((t - 1) as nat);
        vstd::arithmetic::power2::lemma_pow2_unfold(t);
        assert((base + half) % half == 0) by {
            lemma_pow2_mod_chain(base, (t - 1) as nat, t);
            vstd::arithmetic::div_mod::lemma_fundamental_div_mod(base as int, half as int);
            let q = base as int / half as int;
            assert((base + half) as int == (q + 1) * half as int) by (nonlinear_arith)
                requires
                    base as int == half as int * q + 0,
            ;
            lemma_mul_mod_zero(q + 1, half as int);
        }
        let j = lemma_take_exact(nodes, d, base, half, t);
        let left = nodes.take(j);
        let right = nodes.skip(j);
        lemma_wf_split(nodes, d, base, j);
        assert(covered_v(right, d) == half);
        assert(j < nodes.len()) by {
            if j == nodes.len() {
                assert(right =~= Seq::<NodeV>::empty());
            }
        }
        assert(left + right =~= nodes);
        lemma_revealed_add(left, right);
        // stability restricts to both halves
        assert(stable_seg_v(left, d, base)) by {
            assert forall|p: int| 0 <= p && p + 1 < left.len() implies !mergeable_v(
                #[trigger] left[p],
                left[p + 1],
                d,
                base + covered_v(left.take(p), d),
            ) by {
                assert(left[p] == nodes[p]);
                assert(left[p + 1] == nodes[p + 1]);
                assert(left.take(p) =~= nodes.take(p));
            }
        }
        assert(stable_seg_v(right, d, base + half)) by {
            assert forall|p: int| 0 <= p && p + 1 < right.len() implies !mergeable_v(
                #[trigger] right[p],
                right[p + 1],
                d,
                (base + half) + covered_v(right.take(p), d),
            ) by {
                assert(right[p] == nodes[j + p]);
                assert(right[p + 1] == nodes[j + p + 1]);
                assert(nodes.take(j + p) =~= left + right.take(p));
                lemma_covered_add(left, right.take(p), d);
            }
        }
        assert(base % half == 0) by {
            lemma_pow2_mod_chain(base, (t - 1) as nat, t);
        }
        assert((base + half) % half == 0);
        lemma_seg_shape(left, d, base, (t - 1) as nat);
        lemma_seg_shape(right, d, base + half, (t - 1) as nat);
        if revealed_count_v(nodes) == 0 {
            // both halves are single nodes at the same level: a mergeable
            // sibling pair, contradicting stability
            assert(left.len() == 1 && right.len() == 1);
            assert(nodes[0] == left[0]);
            assert(nodes[1] == right[0]);
            assert(v_depth_or(nodes[0], d) == d - (t - 1));
            assert(v_depth_or(nodes[1], d) == d - (t - 1));
            assert(nodes[0] is Hidden && nodes[1] is Hidden) by {
                lemma_rc_at_least(nodes, 0);
                lemma_rc_at_least(nodes, 1);
            }
            assert(nodes.take(0) =~= Seq::<NodeV>::empty());
            assert(covered_v(Seq::<NodeV>::empty(), d) == 0);
            assert(v_width(nodes[0], d) == half);
            assert(d - (t - 1) >= 1);
            assert(mergeable_v(nodes[0], nodes[1], d, base + 0));
            assert(!mergeable_v(nodes[0], nodes[1], d, base + covered_v(nodes.take(0), d)));
            assert(false);
        } else {
            // one half holds the leaf, the other folds to the level above
            assert(revealed_count_v(left) + revealed_count_v(right) == 1);
            assert forall|i: int, j2: int|
                0 <= i < j2 < nodes.len() && (#[trigger] nodes[i]) is Hidden && (
                #[trigger] nodes[j2]) is Hidden implies v_depth_or(nodes[i], d) != v_depth_or(
                nodes[j2],
                d,
            ) by {
                if i < j {
                    assert(nodes[i] == left[i]);
                } else {
                    assert(nodes[i] == right[i - j]);
                }
                if j2 < j {
                    assert(nodes[j2] == left[j2 - 0]);
                } else {
                    assert(nodes[j2] == right[j2 - j]);
                }
            }
            assert forall|i: int|
                0 <= i < nodes.len() && (#[trigger] nodes[i]) is Hidden implies d - t
                < v_depth_or(nodes[i], d) <= d by {
                if i < j {
                    assert(nodes[i] == left[i]);
                } else {
                    assert(nodes[i] == right[i - j]);
                }
            }
            assert forall|k: int| #![trigger has_level_v(nodes, d, k)]
                d - t < k <= d implies has_level_v(nodes, d, k) by {
                if revealed_count_v(left) == 1 {
                    if k == d - t + 1 {
                        assert(right.len() == 1 && v_depth_or(right[0], d) == d - (t - 1));
                        assert(right[0] is Hidden) by {
                            if right[0] is Revealed {
                                lemma_rc_at_least(right, 0);
                            }
                        }
                        assert(nodes[j] == right[0]);
                        assert(nodes[j] is Hidden && v_depth_or(nodes[j], d) == k);
                    } else {
                        assert(has_level_v(left, d, k));
                        let i0 = choose|i: int|
                            0 <= i < left.len() && (#[trigger] left[i]) is Hidden && v_depth_or(
                                left[i],
                                d,
                            ) == k;
                        assert(nodes[i0] == left[i0]);
                    }
                } else {
                    if k == d - t + 1 {
                        assert(left.len() == 1 && v_depth_or(left[0], d) == d - (t - 1));
                        assert(left[0] is Hidden) by {
                            if left[0] is Revealed {
                                lemma_rc_at_least(left, 0);
                            }
                        }
                        assert(nodes[0] == left[0]);
                        assert(nodes[0] is Hidden && v_depth_or(nodes[0], d) == k);
                    } else {
                        assert(has_level_v(right, d, k));
                        let i0 = choose|i: int|
                            0 <= i < right.len() && (#[trigger] right[i]) is Hidden
                                && v_depth_or(right[i], d) == k;
                        assert(nodes[j + i0] == right[i0]);
                        assert(nodes[j + i0] is Hidden && v_depth_or(nodes[j + i0], d) == k);
                    }
                }
            }
        }
    }
}

/// Law: fully concealing after a partial concealment yields the same result
/// as fully concealing directly; in particular partial concealment never
/// changes the commitment a cross-section reduces to.
pub proof fn lemma_conceal_commitment(nodes: Seq<NodeV>, d: u8, keep: Option<Seq<u8>>)
    ensures
        conceal_v(conceal_v(nodes, d, keep), d, None) == conceal_v(nodes, d, None),
        block_commitment_s(conceal_v(nodes, d, keep), d) == block_commitment_s(nodes, d),
{
    let y = nodes.map_values(|n: NodeV| conceal_leaf_v(n, d, keep));
    lemma_scan_is_fold(y, d);
    assert(conceal_v(nodes, d, keep) == scan_from(Seq::empty(), y, d));
    lemma_scan_concealed_fold(Seq::empty(), y, d);
    assert(conceal_all_map_v(Seq::<NodeV>::empty(), d) =~= Seq::<NodeV>::empty());
    assert(conceal_all_map_v(Seq::<NodeV>::empty(), d) + conceal_all_map_v(y, d)
        =~= conceal_all_map_v(y, d));
    assert(conceal_all_map_v(y, d) =~= nodes.map_values(
        |n: NodeV| conceal_leaf_v(n, d, None),
    )) by {
        assert(forall|i: int|
            0 <= i < nodes.len() ==> #[trigger] conceal_all_map_v(y, d)[i] == conceal_leaf_v(
                conceal_leaf_v(nodes[i], d, keep),
                d,
                None,
            ));
    }
    assert(conceal_v(conceal_v(nodes, d, keep), d, None) == merge_scan_v(
        conceal_all_map_v(conceal_v(nodes, d, keep), d),
        d,
    )) by {
        assert(conceal_all_map_v(conceal_v(nodes, d, keep), d) =~= conceal_v(
            nodes,
            d,
            keep,
        ).map_values(|n: NodeV| conceal_leaf_v(n, d, None)));
    }
}

/// Every revealed leaf of the top-merge loop's output was already in its
/// input: merging only ever creates hidden nodes.
proof fn lemma_merge_tops_revealed(z: Seq<NodeV>, d: u8, t: int)
    requires
        0 <= t < merge_tops_v(z, d).len(),
        merge_tops_v(z, d)[t] is Revealed,
    ensures
        contains_node_v(z, merge_tops_v(z, d)[t]),
    decreases z.len(),
{
    if z.len() < 2 {
        assert(z[t] == merge_tops_v(z, d)[t]);
    } else {
        let a = z[z.len() - 2];
        let b = z[z.len() - 1];
        let start_a = covered_v(z.take(z.len() - 2), d);
        if mergeable_v(a, b, d, start_a) {
            let z2 = z.take(z.len() - 2).push(merged_v(a, b, d, start_a));
            lemma_merge_tops_revealed(z2, d, t);
            let w0 = choose|j: int| 0 <= j < z2.len() && z2[j] == merge_tops_v(z, d)[t];
            assert(z2[w0] is Revealed);
            assert(w0 < z2.len() - 1);
            assert(z[w0] == z2[w0]);
        } else {
            assert(z[t] == merge_tops_v(z, d)[t]);
        }
    }
}

/// Every revealed leaf of the scan's output was already in its input.
proof fn lemma_merge_scan_revealed(nodes: Seq<NodeV>, d: u8, t: int)
    requires
        0 <= t < merge_scan_v(nodes, d).len(),
        merge_scan_v(nodes, d)[t] is Revealed,
    ensures
        contains_node_v(nodes, merge_scan_v(nodes, d)[t]),
    decreases nodes.len(),
{
    if nodes.len() > 0 {
        let u = merge_scan_v(nodes.drop_last(), d);
        let z = u.push(nodes.last());
        lemma_merge_tops_revealed(z, d, t);
        let n = merge_scan_v(nodes, d)[t];
        let w0 = choose|j: int| 0 <= j < z.len() && z[j] == n;
        if w0 < u.len() {
            lemma_merge_scan_revealed(nodes.drop_last(), d, w0);
            let w1 = choose|j: int| 0 <= j < nodes.drop_last().len() && nodes.drop_last()[j] == n;
            assert(nodes[w1] == n);
        } else {
            assert(nodes[nodes.len() - 1] == n);
        }
    }
}

/// The scan expressed as a left fold: each remaining node is pushed onto
/// the state and the top pairs merged.
spec fn scan_from(state: Seq<NodeV>, rest: Seq<NodeV>, d: u8) -> Seq<NodeV>
    decreases rest.len(),
{
    if rest.len() == 0 {
        state
    } else {
        scan_from(merge_tops_v(state.push(rest[0]), d), rest.drop_first(), d)
    }
}

/// Appending one node to the scanned input merges it on top of the result.
proof fn lemma_scan_from_push(state: Seq<NodeV>, rest: Seq<NodeV>, n: NodeV, d: u8)
    ensures
        scan_from(state, rest.push(n), d) == merge_tops_v(scan_from(state, rest, d).push(n), d),
    decreases rest.len(),
{
    if rest.len() == 0 {
        assert(rest.push(n)[0] == n);
        assert(rest.push(n).drop_first() =~= Seq::<NodeV>::empty());
        assert(scan_from(merge_tops_v(state.push(n), d), Seq::<NodeV>::empty(), d)
            == merge_tops_v(state.push(n), d));
        assert(scan_from(state, rest, d) == state);
    } else {
        assert(rest.push(n)[0] == rest[0]);
        assert(rest.push(n).drop_first() =~= rest.drop_first().push(n));
        lemma_scan_from_push(merge_tops_v(state.push(rest[0]), d), rest.drop_first(), n, d);
    }
}

/// The scan is the left fold started from an empty state.
proof fn lemma_scan_is_fold(nodes: Seq<NodeV>, d: u8)
    ensures
        merge_scan_v(nodes, d) == scan_from(Seq::empty(), nodes, d),
    decreases nodes.len(),
{
    if nodes.len() > 0 {
        lemma_scan_is_fold(nodes.drop_last(), d);
        lemma_scan_from_push(Seq::empty(), nodes.drop_last(), nodes.last(), d);
        assert(nodes.drop_last().push(nodes.last()) =~= nodes);
    }
}

/// The fold splits over concatenated input.
proof fn lemma_scan_split(state: Seq<NodeV>, a: Seq<NodeV>, b: Seq<NodeV>, d: u8)
    ensures
        scan_from(state, a + b, d) == scan_from(scan_from(state, a, d), b, d),
    decreases a.len(),
{
    if a.len() == 0 {
        assert(a + b =~= b);
    } else {
        assert((a + b)[0] == a[0]);
        assert((a + b).drop_first() =~= a.drop_first() + b);
        lemma_scan_split(merge_tops_v(state.push(a[0]), d), a.drop_first(), b, d);
    }
}

/// The fully concealed leaf layer of a subtree: one digest per slot.
spec fn leaf_layer_v(
    entries: Seq<(ProtocolId, Message)>,
    d: u8,
    entropy: u64,
    lo: nat,
    n: nat,
) -> Seq<NodeV> {
    Seq::new(
        n,
        |i: int| NodeV::Hidden {
            level: d,
            digest: crate::tree::leaf_at_s(entries, d, entropy, (lo + i) as nat),
        },
    )
}

/// Scanning the leaf layer of a subtree folds it into that subtree's root
/// digest, merged on top of whatever was scanned before it.
proof fn lemma_scan_subtree(
    entries: Seq<(ProtocolId, Message)>,
    d: u8,
    entropy: u64,
    k: u8,
    idx: nat,
    s0: Seq<NodeV>,
)
    requires
        k <= d,
        d <= 16,
        idx < pow2(k as nat),
        s0.len() > 0 ==> v_depth_or(s0.last(), d) <= k,
        covered_v(s0, d) == idx * pow2((d - k) as nat),
    ensures
        scan_from(
            s0,
            leaf_layer_v(entries, d, entropy, idx * pow2((d - k) as nat), pow2((d - k) as nat)),
            d,
        ) == merge_tops_v(
            s0.push(
                NodeV::Hidden {
                    level: k,
                    digest: crate::tree::subtree_root_s(entries, d, entropy, k, idx),
                },
            ),
            d,
        ),
    decreases d - k,
{
    let t = (d - k) as nat;
    let lo = idx * pow2(t);
    let layer = leaf_layer_v(entries, d, entropy, lo, pow2(t));
    vstd::arithmetic::power2::lemma_pow2_pos(t);
    if k == d {
        assert(pow2(0) == 1) by {
            vstd::arithmetic::power2::lemma2_to64();
        }
        assert(lo == idx) by (nonlinear_arith)
            requires
                lo == idx * pow2(0),
                pow2(0) == 1,
        ;
        let x = NodeV::Hidden {
            level: d,
            digest: crate::tree::leaf_at_s(entries, d, entropy, idx),
        };
        assert(layer.len() == 1);
        assert(layer[0] == x);
        assert(layer.drop_first() =~= Seq::<NodeV>::empty());
        assert(scan_from(s0, layer, d) == scan_from(merge_tops_v(s0.push(x), d), layer.drop_first(), d));
        assert(crate::tree::subtree_root_s(entries, d, entropy, d, idx)
            == crate::tree::leaf_at_s(entries, d, entropy, idx));
    } else {
        let half = pow2((t - 1) as nat);
        vstd::arithmetic::power2::lemma_pow2_unfold(t);
        assert(pow2(t) == 2 * half);
        let layer_l = leaf_layer_v(entries, d, entropy, lo, half);
        let layer_r = leaf_layer_v(entries, d, entropy, lo + half, half);
        assert(layer =~= layer_l + layer_r);
        lemma_scan_split(s0, layer_l, layer_r, d);
        // left half folds into the left child summary
        assert(lo == (2 * idx) * half) by (nonlinear_arith)
            requires
                lo == idx * (2 * half),
        ;
        assert(2 * idx < pow2((k + 1) as nat)) by {
            vstd::arithmetic::power2::lemma_pow2_unfold((k + 1) as nat);
        }
        lemma_scan_subtree(entries, d, entropy, (k + 1) as u8, 2 * idx, s0);
        let lh = NodeV::Hidden {
            level: (k + 1) as u8,
            digest: crate::tree::subtree_root_s(entries, d, entropy, (k + 1) as u8, 2 * idx),
        };
        // the left summary sits deeper than anything below it: no merge yet
        assert(merge_tops_v(s0.push(lh), d) == s0.push(lh)) by {
            if s0.len() > 0 {
                let z = s0.push(lh);
                assert(z[z.len() - 2] == s0.last());
                assert(z[z.len() - 1] == lh);
                assert(!mergeable_v(s0.last(), lh, d, covered_v(z.take(z.len() - 2), d)));
            }
        }
        // right half folds into the right child summary on top of it
        lemma_covered_push(s0, lh, d);
        assert(covered_v(s0.push(lh), d) == (2 * idx + 1) * half) by (nonlinear_arith)
            requires
                covered_v(s0.push(lh), d) == idx * (2 * half) + half,
        ;
        assert(2 * idx + 1 < pow2((k + 1) as nat)) by {
            vstd::arithmetic::power2::lemma_pow2_unfold((k + 1) as nat);
        }
        assert(s0.push(lh).last() == lh);
        lemma_scan_subtree(entries, d, entropy, (k + 1) as u8, 2 * idx + 1, s0.push(lh));
        let rh = NodeV::Hidden {
            level: (k + 1) as u8,
            digest: crate::tree::subtree_root_s(entries, d, entropy, (k + 1) as u8, 2 * idx + 1),
        };
        assert((lo + half) == (2 * idx + 1) * half) by (nonlinear_arith)
            requires
                lo == (2 * idx) * half,
        ;
        assert(leaf_layer_v(entries, d, entropy, (2 * idx + 1) * half, half) =~= layer_r);
        // the two summaries are aligned siblings and merge into the parent
        let z = s0.push(lh).push(rh);
        assert(z.take(z.len() - 2) =~= s0);
        assert(z[z.len() - 2] == lh);
        assert(z[z.len() - 1] == rh);
        assert(v_width(lh, d) == half);
        assert(lo % (2 * half) == 0) by {
            lemma_mul_mod_zero(idx as int, (2 * half) as int);
        }
        assert(mergeable_v(lh, rh, d, lo));
        assert(lo / (2 * half) == idx) by {
            vstd::arithmetic::div_mod::lemma_fundamental_div_mod_converse(
                lo as int,
                (2 * half) as int,
                idx as int,
                0,
            );
        }
        let m = merged_v(lh, rh, d, lo);
        assert(m == (NodeV::Hidden {
            level: k,
            digest: crate::tree::subtree_root_s(entries, d, entropy, k, idx),
        }));
        assert(merge_tops_v(z, d) == merge_tops_v(
            s0.push(
                NodeV::Hidden {
                    level: k,
                    digest: crate::tree::subtree_root_s(entries, d, entropy, k, idx),
                },
            ),
            d,
        ));
    }
}

/// Law: a complete tree and the block built from its full cross-section
/// reduce to the same commitment: full concealment of the leaf layer folds
/// it into the tree's root digest.
pub proof fn lemma_tree_block_commitment(
    entries: Seq<(ProtocolId, Message)>,
    d: u8,
    entropy: u64,
    nodes: Seq<NodeV>,
)
    requires
        d <= 16,
        nodes.len() == pow2(d as nat),
        forall|p: int|
            0 <= p < nodes.len() ==> #[trigger] nodes[p] == (if map_has_pos(
                entries,
                d,
                p as nat,
            ) {
                NodeV::Revealed {
                    pid: entries[slot_of(entries, d, p as nat)].0@,
                    msg: entries[slot_of(entries, d, p as nat)].1@,
                }
            } else {
                NodeV::Hidden { level: d, digest: entropy_hash_s(entropy, p as u16) }
            }),
    ensures
        conceal_v(nodes, d, None) == seq![
            NodeV::Hidden {
                level: 0,
                digest: crate::tree::tree_root_s(entries, d, entropy),
            },
        ],
        block_commitment_s(nodes, d) == commitment_hash_s(
            crate::tree::tree_root_s(entries, d, entropy),
        ),
{
    let m = nodes.map_values(|n: NodeV| conceal_leaf_v(n, d, None));
    let layer = leaf_layer_v(entries, d, entropy, 0, pow2(d as nat));
    assert(m =~= layer) by {
        assert forall|p: int| 0 <= p < nodes.len() implies m[p] == layer[p] by {
            assert(m[p] == conceal_leaf_v(nodes[p], d, None));
        }
    }
    lemma_scan_is_fold(m, d);
    assert(covered_v(Seq::<NodeV>::empty(), d) == 0);
    vstd::arithmetic::power2::lemma_pow2_pos(0);
    lemma_scan_subtree(entries, d, entropy, 0, 0, Seq::empty());
    let root = NodeV::Hidden {
        level: 0,
        digest: crate::tree::tree_root_s(entries, d, entropy),
    };
    assert(Seq::<NodeV>::empty().push(root) =~= seq![root]);
    assert(merge_tops_v(seq![root], d) == seq![root]);
    assert(conceal_v(nodes, d, None) == seq![root]);
    assert(seq![root][0] == root);
}

/// Law: the full cross-section of a tree reveals every committed protocol
/// id, each exactly once; proof extraction from it is therefore owed to
/// succeed for every committed id.
pub proof fn lemma_tree_block_reveals(
    entries: Seq<(ProtocolId, Message)>,
    d: u8,
    entropy: u64,
    nodes: Seq<NodeV>,
    pid: Seq<u8>,
)
    requires
        d <= 16,
        crate::tree::pids_unique(entries),
        crate::tree::injective_at(entries, d as nat),
        crate::tree::map_contains_pid(entries, pid),
        nodes.len() == pow2(d as nat),
        forall|p: int|
            0 <= p < nodes.len() ==> #[trigger] nodes[p] == (if map_has_pos(
                entries,
                d,
                p as nat,
            ) {
                NodeV::Revealed {
                    pid: entries[slot_of(entries, d, p as nat)].0@,
                    msg: entries[slot_of(entries, d, p as nat)].1@,
                }
            } else {
                NodeV::Hidden { level: d, digest: entropy_hash_s(entropy, p as u16) }
            }),
    ensures
        reveals_pid_v(nodes, pid),
        revealed_pids_unique_v(nodes),
{
    vstd::arithmetic::power2::lemma_pow2_pos(d as nat);
    let i0 = choose|i: int| 0 <= i < entries.len() && (#[trigger] entries[i]).0@ == pid;
    let p0 = pid_pos_s(entries[i0].0@, pow2(d as nat));
    assert(p0 < pow2(d as nat)) by {
        vstd::arithmetic::div_mod::lemma_mod_pos_bound(
            crate::tree::le_nat(entries[i0].0@) as int,
            pow2(d as nat) as int,
        );
    }
    assert(map_has_pos(entries, d, p0));
    crate::tree::lemma_slot_of_unique(entries, d, i0);
    assert(nodes[p0 as int] matches NodeV::Revealed { pid: q, .. } && q == pid);
    assert forall|i: int, j: int|
        0 <= i < j < nodes.len() implies !((#[trigger] nodes[i]) matches NodeV::Revealed {
        pid: p1,
        ..
    } && (#[trigger] nodes[j]) matches NodeV::Revealed { pid: p2, .. } && p1 == p2) by {
        if nodes[i] is Revealed && nodes[j] is Revealed {
            let s1 = slot_of(entries, d, i as nat);
            let s2 = slot_of(entries, d, j as nat);
            assert(map_has_pos(entries, d, i as nat) && map_has_pos(entries, d, j as nat));
            assert(0 <= s1 < entries.len() && pid_pos_s(entries[s1].0@, pow2(d as nat))
                == i as nat);
            assert(0 <= s2 < entries.len() && pid_pos_s(entries[s2].0@, pow2(d as nat))
                == j as nat);
            if entries[s1].0@ == entries[s2].0@ {
                assert(s1 == s2) by {
                    if s1 < s2 {
                        assert(entries[s1].0@ != entries[s2].0@);
                    }
                    if s2 < s1 {
                        assert(entries[s2].0@ != entries[s1].0@);
                    }
                }
            }
        }
    }
}

/// Law: fully concealing a well-formed cross-section reduces it to exactly
/// one concealed node, the block's root digest.
pub proof fn lemma_conceal_all_single(nodes: Seq<NodeV>, d: u8)
    requires
        d <= 16,
        wf_section_v(nodes, d, 0),
        covered_v(nodes, d) == pow2(d as nat),
    ensures
        conceal_v(nodes, d, None).len() == 1,
        conceal_v(nodes, d, None)[0] is Hidden,
{
    let m = nodes.map_values(|n: NodeV| conceal_leaf_v(n, d, None));
    let out = merge_scan_v(m, d);
    assert forall|q: int| 0 <= q < nodes.len() implies v_depth_or(#[trigger] nodes[q], d)
        == v_depth_or(m[q], d) by {}
    lemma_wf_pointwise(nodes, m, d, 0);
    lemma_merge_scan_wf(m, d);
    lemma_merge_scan_stable(m, d);
    assert forall|q: int| 0 <= q < out.len() implies (#[trigger] out[q]) is Hidden by {
        if out[q] is Revealed {
            lemma_merge_scan_revealed(m, d, q);
            let w0 = choose|j: int| 0 <= j < m.len() && m[j] == out[q];
            assert(m[w0] == conceal_leaf_v(nodes[w0], d, None));
        }
    }
    vstd::arithmetic::power2::lemma_pow2_pos(d as nat);
    if out.len() == 0 {
        assert(covered_v(out, d) == 0);
    }
    lemma_stable_hidden_single(out, d);
}

/// Law: concealing an already-concealed cross-section, for the same keep
/// set, is a no-op; in particular the commitment the block reduces to is
/// unchanged.
pub proof fn lemma_conceal_idempotent(nodes: Seq<NodeV>, d: u8, keep: Option<Seq<u8>>)
    ensures
        conceal_v(conceal_v(nodes, d, keep), d, keep) == conceal_v(nodes, d, keep),
{
    let mapped = nodes.map_values(|n: NodeV| conceal_leaf_v(n, d, keep));
    let out = merge_scan_v(mapped, d);
    assert forall|t: int| 0 <= t < out.len() implies #[trigger] conceal_leaf_v(out[t], d, keep)
        == out[t] by {
        if out[t] is Revealed {
            lemma_merge_scan_revealed(mapped, d, t);
            let w0 = choose|j: int| 0 <= j < mapped.len() && mapped[j] == out[t];
            assert(mapped[w0] == conceal_leaf_v(nodes[w0], d, keep));
            assert(keep == Some(out[t]->pid));
        }
    }
    assert(out.map_values(|n: NodeV| conceal_leaf_v(n, d, keep)) =~= out);
    lemma_merge_scan_stable(mapped, d);
    lemma_merge_scan_of_stable(out, d);
}

/// The commitment a block reduces to: the final tagged digest of the root
/// digest left by full concealment.
pub open spec fn block_commitment_s(nodes: Seq<NodeV>, tree_depth: u8) -> Seq<u8> {
    commitment_hash_s(v_hash(conceal_v(nodes, tree_depth, None)[0], tree_depth))
}

impl Clone for MerkleBlock {
    /// Clones the block, keeping depth, cross-section and entropy.
    fn clone(&self) -> (r: Self)
        ensures
            r.spec_depth() == self.spec_depth(),
            r.spec_nodes() == self.spec_nodes(),
            r.spec_entropy() == self.spec_entropy(),
    {
        MerkleBlock {
            depth: self.depth,
            cross_section: self.cross_section(),
            entropy: self.entropy,
        }
    }
}

/// A proof of a single leaf's inclusion in a commitment tree: the leaf slot
/// and the sibling digest path from the top level down to the leaf level.
#[derive(Debug)]
pub struct MerkleProof {
    /// Position of the leaf in the tree.
    pos: u16,
    /// Sibling digests, one per level, the top level first.
    path: Vec<MerkleNode>,
}

/// The index of the leaf's ancestor at the given level.
pub open spec fn anc_index(pos: nat, d: nat, k: nat) -> nat
    recommends
        k <= d,
{
    pos / pow2((d - k) as nat)
}

/// The left siblings of the leaf's path at levels 1 up to `k`, ordered by
/// level: those levels where the ancestor is a right child.
pub open spec fn left_sibs_v(pos: nat, path: Seq<Seq<u8>>, k: nat) -> Seq<NodeV>
    decreases k,
{
    let d = path.len();
    if k == 0 {
        Seq::empty()
    } else {
        left_sibs_v(pos, path, (k - 1) as nat) + (if k <= d && anc_index(pos, d, k) % 2 == 1 {
            seq![NodeV::Hidden { level: k as u8, digest: path[k - 1] }]
        } else {
            Seq::empty()
        })
    }
}

/// The right siblings of the leaf's path at levels `k` and deeper, ordered
/// deepest first: those levels where the ancestor is a left child.
pub open spec fn right_sibs_v(pos: nat, path: Seq<Seq<u8>>, k: nat) -> Seq<NodeV>
    decreases path.len() + 1 - k,
{
    let d = path.len();
    if k > d || k == 0 {
        Seq::empty()
    } else {
        right_sibs_v(pos, path, k + 1) + (if anc_index(pos, d, k) % 2 == 0 {
            seq![NodeV::Hidden { level: k as u8, digest: path[k - 1] }]
        } else {
            Seq::empty()
        })
    }
}

/// The minimal cross-section exposing exactly one leaf: the left siblings,
/// the revealed leaf, then the right siblings, in leaf order.
pub open spec fn with_v(pos: nat, path: Seq<Seq<u8>>, pid: Seq<u8>, msg: Seq<u8>) -> Seq<NodeV> {
    left_sibs_v(pos, path, path.len()) + seq![NodeV::Revealed { pid, msg }] + right_sibs_v(
        pos,
        path,
        1,
    )
}

impl MerkleBlock {
    /// Reconstructs the minimal block exposing exactly one leaf from its
    /// inclusion proof: left siblings, the leaf, right siblings, in leaf
    /// order.
    pub fn with(proof: &MerkleProof, protocol_id: &ProtocolId, message: &Message) -> (r:
        MerkleBlock)
        requires
            proof.wf(),
        ensures
            r.wf(),
            r.spec_depth() == proof.spec_path().len(),
            r.spec_entropy() is None,
            r.spec_nodes() == with_v(
                proof.spec_pos() as nat,
                proof.spec_path(),
                protocol_id@,
                message@,
            ),
    {
        let d: usize = proof.path.len();
        let pos = proof.pos;
        let ghost pp = proof.spec_path();
        let ghost dd = pp.len();
        let ghost pn = pos as nat;
        let d8 = d as u8;
        proof {
            vstd::arithmetic::power2::lemma2_to64();
            vstd::arithmetic::power2::lemma_pow2_pos(dd);
            assert(pn / pow2(dd) == 0) by {
                vstd::arithmetic::div_mod::lemma_basic_div(pn as int, pow2(dd) as int);
            }
            assert(left_sibs_v(pn, pp, 0) =~= Seq::<NodeV>::empty());
            assert(covered_v(Seq::<NodeV>::empty(), d8) == 0);
            assert(anc_index(pn, dd, 0) == 0);
        }
        let mut cross_section: Vec<TreeNode> = Vec::new();
        proof {
            assert(nodes_v(cross_section@) =~= Seq::<NodeV>::empty());
            assert(covered_v(nodes_v(cross_section@), d8) == 0);
            assert(left_sibs_v(pn, pp, 0) == Seq::<NodeV>::empty());
        }
        let mut k: usize = 1;
        while k <= d
            invariant
                1 <= k <= d + 1,
                d == dd,
                d <= 16,
                d8 == d,
                dd == pp.len(),
                pn == pos as nat,
                pn < pow2(dd),
                pp == proof.spec_path(),
                proof.path@.len() == d,
                nodes_v(cross_section@) == left_sibs_v(pn, pp, (k - 1) as nat),
                covered_v(nodes_v(cross_section@), d8) == anc_index(pn, dd, (k - 1) as nat)
                    * pow2((dd - (k - 1)) as nat),
                covered_v(nodes_v(cross_section@), d8) <= pn,
                wf_section_v(nodes_v(cross_section@), d8, 0),
            decreases d + 1 - k,
        {
            let shift = d - k;
            let anc = (pos as usize) >> shift;
            let ghost w = pow2((dd - k) as nat);
            let ghost prev_cov = covered_v(nodes_v(cross_section@), d8);
            let ghost prev_anc = anc_index(pn, dd, (k - 1) as nat);
            proof {
                vstd::bits::lemma_usize_shr_is_div(pos as usize, shift);
                assert(anc == anc_index(pn, dd, k as nat));
                vstd::arithmetic::power2::lemma_pow2_unfold((dd - (k - 1)) as nat);
                assert(pow2((dd - (k - 1)) as nat) == 2 * w);
                vstd::arithmetic::power2::lemma_pow2_pos((dd - k) as nat);
                assert((anc as int) / 2 == prev_anc) by {
                    vstd::arithmetic::div_mod::lemma_div_denominator(pn as int, w as int, 2);
                    assert(w as int * 2 == 2 * w as int);
                }
                vstd::arithmetic::div_mod::lemma_fundamental_div_mod(anc as int, 2);
            }
            if anc % 2 == 1 {
                let node = TreeNode::ConcealedNode { depth: k as u8, hash: proof.path[k - 1] };
                let ghost pre = nodes_v(cross_section@);
                proof {
                    assert(v_depth_or(node@, d8) == k);
                    assert(v_width(node@, d8) == w);
                    assert(prev_cov == (prev_anc * 2) * w) by (nonlinear_arith)
                        requires
                            prev_cov == prev_anc * (2 * w),
                    ;
                    assert(prev_cov % w == 0) by {
                        lemma_mul_mod_zero((prev_anc * 2) as int, w as int);
                    }
                    lemma_covered_push(pre, node@, d8);
                    lemma_wf_append(pre, node@, d8, 0);
                    assert(anc * w == prev_cov + w) by (nonlinear_arith)
                        requires
                            anc == 2 * prev_anc + 1,
                            prev_cov == (prev_anc * 2) * w,
                    ;
                    assert(anc * w <= pn) by {
                        vstd::arithmetic::div_mod::lemma_fundamental_div_mod(pn as int, w as int);
                        assert(pn == w * (pn / w) + pn % w);
                        assert(anc == pn / w);
                        assert(anc * w == w * anc) by (nonlinear_arith);
                    }
                }
                cross_section.push(node);
                proof {
                    assert(nodes_v(cross_section@) =~= pre.push(node@));
                    assert(pre.push(node@) =~= pre + seq![node@]);
                    assert(left_sibs_v(pn, pp, k as nat) == left_sibs_v(pn, pp, (k - 1) as nat)
                        + seq![NodeV::Hidden { level: k as u8, digest: pp[k - 1] }]);
                    assert(node@ == NodeV::Hidden { level: k as u8, digest: pp[k - 1] });
                }
            } else {
                proof {
                    assert(left_sibs_v(pn, pp, k as nat) =~= left_sibs_v(pn, pp, (k - 1) as nat));
                    assert(anc * w == prev_cov) by (nonlinear_arith)
                        requires
                            anc == 2 * prev_anc,
                            prev_cov == prev_anc * (2 * w),
                    ;
                }
            }
            k += 1;
        }
        let ghost left_done = nodes_v(cross_section@);
        proof {
            assert(left_done == left_sibs_v(pn, pp, dd));
            assert(pow2((dd - dd) as nat) == 1);
            assert(anc_index(pn, dd, dd) == pn / 1);
            assert(pn / 1 == pn) by (nonlinear_arith);
            assert(covered_v(left_done, d8) == pn * pow2(0));
            assert(pn * pow2(0) == pn);
        }
        let leaf = TreeNode::CommitmentLeaf { protocol_id: *protocol_id, message: *message };
        proof {
            assert(v_depth_or(leaf@, d8) == d8);
            assert(v_width(leaf@, d8) == pow2(0));
            assert(covered_v(left_done, d8) % pow2(0) == 0) by {
                assert(pow2(0) == 1);
            }
            lemma_covered_push(left_done, leaf@, d8);
            lemma_wf_append(left_done, leaf@, d8, 0);
        }
        cross_section.push(leaf);
        proof {
            assert(nodes_v(cross_section@) =~= left_done.push(leaf@));
            assert(left_done.push(leaf@) =~= left_done + seq![leaf@]);
            assert(right_sibs_v(pn, pp, (dd + 1) as nat) =~= Seq::<NodeV>::empty());
            assert(nodes_v(cross_section@) =~= left_sibs_v(pn, pp, dd) + seq![leaf@]
                + right_sibs_v(pn, pp, (dd + 1) as nat));
        }
        let mut kk: usize = d;
        while kk >= 1
            invariant
                0 <= kk <= d,
                d == dd,
                d <= 16,
                d8 == d,
                dd == pp.len(),
                pn == pos as nat,
                pn < pow2(dd),
                pp == proof.spec_path(),
                proof.path@.len() == d,
                leaf@ == (NodeV::Revealed { pid: protocol_id@, msg: message@ }),
                nodes_v(cross_section@) == left_sibs_v(pn, pp, dd) + seq![leaf@] + right_sibs_v(
                    pn,
                    pp,
                    (kk + 1) as nat,
                ),
                covered_v(nodes_v(cross_section@), d8) == (anc_index(pn, dd, kk as nat) + 1)
                    * pow2((dd - kk) as nat),
                wf_section_v(nodes_v(cross_section@), d8, 0),
            decreases kk,
        {
            let shift = d - kk;
            let anc = (pos as usize) >> shift;
            let ghost w = pow2((dd - kk) as nat);
            let ghost prev_cov = covered_v(nodes_v(cross_section@), d8);
            let ghost next_anc = anc_index(pn, dd, (kk - 1) as nat);
            proof {
                vstd::bits::lemma_usize_shr_is_div(pos as usize, shift);
                assert(anc == anc_index(pn, dd, kk as nat));
                vstd::arithmetic::power2::lemma_pow2_unfold((dd - (kk - 1)) as nat);
                assert(pow2((dd - (kk - 1)) as nat) == 2 * w);
                vstd::arithmetic::power2::lemma_pow2_pos((dd - kk) as nat);
                assert((anc as int) / 2 == next_anc) by {
                    vstd::arithmetic::div_mod::lemma_div_denominator(pn as int, w as int, 2);
                    assert(w as int * 2 == 2 * w as int);
                }
                vstd::arithmetic::div_mod::lemma_fundamental_div_mod(anc as int, 2);
            }
            if anc % 2 == 0 {
                let node = TreeNode::ConcealedNode { depth: kk as u8, hash: proof.path[kk - 1] };
                let ghost pre = nodes_v(cross_section@);
                proof {
                    assert(v_depth_or(node@, d8) == kk);
                    assert(v_width(node@, d8) == w);
                    assert(prev_cov % w == 0) by {
                        lemma_mul_mod_zero((anc + 1) as int, w as int);
                    }
                    lemma_covered_push(pre, node@, d8);
                    lemma_wf_append(pre, node@, d8, 0);
                }
                cross_section.push(node);
                proof {
                    assert(nodes_v(cross_section@) =~= pre.push(node@));
                    assert(right_sibs_v(pn, pp, kk as nat) == right_sibs_v(pn, pp, (kk + 1) as nat)
                        + seq![NodeV::Hidden { level: kk as u8, digest: pp[kk - 1] }]);
                    assert(node@ == NodeV::Hidden { level: kk as u8, digest: pp[kk - 1] });
                    assert(nodes_v(cross_section@) =~= left_sibs_v(pn, pp, dd) + seq![leaf@]
                        + right_sibs_v(pn, pp, kk as nat));
                    assert((anc + 1) * w + w == (next_anc + 1) * (2 * w)) by (nonlinear_arith)
                        requires
                            anc == 2 * next_anc,
                    ;
                }
            } else {
                proof {
                    assert(right_sibs_v(pn, pp, kk as nat) =~= right_sibs_v(
                        pn,
                        pp,
                        (kk + 1) as nat,
                    ));
                    assert((anc + 1) * w == (next_anc + 1) * (2 * w)) by (nonlinear_arith)
                        requires
                            anc == 2 * next_anc + 1,
                    ;
                }
            }
            kk -= 1;
        }
        proof {
            assert(anc_index(pn, dd, 0) == 0) by {
                vstd::arithmetic::div_mod::lemma_basic_div(pn as int, pow2(dd) as int);
            }
            assert(covered_v(nodes_v(cross_section@), d8) == (0 + 1) * pow2((dd - 0) as nat));
            assert((0 + 1) * pow2(dd) == pow2(dd));
            assert(covered_v(nodes_v(cross_section@), d8) == pow2(dd));
            assert(nodes_v(cross_section@) =~= with_v(pn, pp, protocol_id@, message@));
        }
        MerkleBlock { depth: d8, cross_section, entropy: None }
    }
}

impl MerkleBlock {
    /// Converts the block into an inclusion proof for the commitment under
    /// the given protocol id: conceals everything else, then collects the
    /// remaining digests into a path ordered by level, the top level first.
    /// Fails with [`LeafNotKnown`] when the protocol id is not revealed.
    #[verifier::loop_isolation(false)]
    #[verifier::rlimit(100)]
    #[verifier::spinoff_prover]
    pub fn into_merkle_proof(self, protocol_id: &ProtocolId) -> (r: Result<
        MerkleProof,
        LeafNotKnown,
    >)
        requires
            self.wf(),
        ensures
            !reveals_pid_v(self.spec_nodes(), protocol_id@) ==> r is Err,
            reveals_pid_v(self.spec_nodes(), protocol_id@) && revealed_pids_unique_v(
                self.spec_nodes(),
            ) ==> r is Ok,
            match r {
                Ok(proof) => {
                    &&& reveals_pid_v(self.spec_nodes(), protocol_id@)
                    &&& proof.wf()
                    &&& proof.spec_pos() as nat == pid_pos_s(
                        protocol_id@,
                        pow2(self.spec_depth() as nat),
                    )
                    &&& proof.spec_path().len() == self.spec_depth()
                    &&& block_commitment_s(
                        conceal_v(self.spec_nodes(), self.spec_depth(), Some(protocol_id@)),
                        self.spec_depth(),
                    ) == block_commitment_s(self.spec_nodes(), self.spec_depth())
                    &&& forall|k: int| #![trigger proof.spec_path()[k - 1]]
                        1 <= k <= self.spec_depth() ==> exists|j: int|
                            0 <= j < conceal_v(
                                self.spec_nodes(),
                                self.spec_depth(),
                                Some(protocol_id@),
                            ).len() && #[trigger] conceal_v(
                                self.spec_nodes(),
                                self.spec_depth(),
                                Some(protocol_id@),
                            )[j] == (NodeV::Hidden {
                                level: k as u8,
                                digest: proof.spec_path()[k - 1],
                            })
                },
                Err(e) => e.0@ == protocol_id@,
            },
    {
        let mut block = self;
        let ghost orig = block.spec_nodes();
        let ghost d_g = block.spec_depth();
        match block.conceal_except(protocol_id) {
            Err(e) => {
                return Err(e);
            },
            Ok(_) => {},
        }
        let ghost cc = block.spec_nodes();
        let ghost hyp = reveals_pid_v(orig, protocol_id@) && revealed_pids_unique_v(orig);
        proof {
            lemma_conceal_commitment(orig, d_g, Some(protocol_id@));
            if hyp {
                // exactly one leaf stays revealed, so the concealed section
                // is the sibling decomposition: one hidden node per level
                let mapped = orig.map_values(
                    |nd: NodeV| conceal_leaf_v(nd, d_g, Some(protocol_id@)),
                );
                assert(cc == merge_scan_v(mapped, d_g)) by {
                    assert(orig.map_values(
                        |n: NodeV| conceal_leaf_v(n, d_g, Some(protocol_id@)),
                    ) =~= mapped);
                }
                let i0 = choose|i: int|
                    0 <= i < orig.len() && ((#[trigger] orig[i]) matches NodeV::Revealed {
                        pid: p,
                        ..
                    } && p == protocol_id@);
                assert(mapped[i0] == conceal_leaf_v(orig[i0], d_g, Some(protocol_id@)));
                assert(mapped[i0] is Revealed);
                lemma_rc_at_least(mapped, i0);
                if revealed_count_v(mapped) >= 2 {
                    let (a, b) = lemma_rc_two(mapped);
                    assert(mapped[a] == conceal_leaf_v(orig[a], d_g, Some(protocol_id@)));
                    assert(mapped[b] == conceal_leaf_v(orig[b], d_g, Some(protocol_id@)));
                    assert(orig[a] matches NodeV::Revealed { pid: p1, .. } && p1 == protocol_id@);
                    assert(orig[b] matches NodeV::Revealed { pid: p2, .. } && p2 == protocol_id@);
                    assert(false);
                }
                lemma_merge_scan_rc(mapped, d_g);
                assert(revealed_count_v(cc) == 1);
                lemma_merge_scan_stable(mapped, d_g);
                assert(stable_seg_v(cc, d_g, 0)) by {
                    assert forall|p: int| 0 <= p && p + 1 < cc.len() implies !mergeable_v(
                        #[trigger] cc[p],
                        cc[p + 1],
                        d_g,
                        0 + covered_v(cc.take(p), d_g),
                    ) by {
                        assert(!mergeable_v(cc[p], cc[p + 1], d_g, covered_v(cc.take(p), d_g)));
                    }
                }
                vstd::arithmetic::power2::lemma_pow2_pos(d_g as nat);
                vstd::arithmetic::div_mod::lemma_small_mod(0, pow2(d_g as nat));
                lemma_seg_shape(cc, d_g, 0, d_g as nat);
            }
        }
        let d: usize = block.depth as usize;
        let mut slots: Vec<Option<MerkleNode>> = Vec::new();
        let mut t: usize = 0;
        while t < d
            invariant
                t <= d,
                slots@.len() == t,
                forall|q: int| 0 <= q < t ==> #[trigger] slots@[q] is None,
            decreases d - t,
        {
            slots.push(None);
            t += 1;
        }
        let n = block.cross_section.len();
        let mut i: usize = 0;
        while i < n
            invariant
                d == block.spec_depth(),
                cc == block.spec_nodes(),
                n == block.cross_section@.len(),
                i <= n,
                slots@.len() == d,
                forall|q: int|
                    0 <= q < d ==> ((#[trigger] slots@[q]) matches Some(h) ==> exists|j: int|
                        0 <= j < i && #[trigger] cc[j] == (NodeV::Hidden {
                            level: (q + 1) as u8,
                            digest: h@,
                        })),
                forall|idx: int|
                    0 <= idx < i ==> ((#[trigger] cc[idx]) matches NodeV::Hidden {
                        level,
                        ..
                    } ==> 1 <= level <= d && slots@[level - 1] is Some),
            decreases n - i,
        {
            let node = block.cross_section[i];
            match node {
                TreeNode::ConcealedNode { depth: k, hash } => {
                    if 1 <= k && (k as usize) <= d {
                        let filled = match slots[(k - 1) as usize] {
                            Some(_) => true,
                            None => false,
                        };
                        if filled {
                            proof {
                                if hyp {
                                    assert(cc[i as int] == node@);
                                    let j0 = choose|j: int|
                                        0 <= j < i && #[trigger] cc[j] == (NodeV::Hidden {
                                            level: k,
                                            digest: (slots@[k - 1]->Some_0)@,
                                        });
                                    assert(v_depth_or(cc[j0], d_g) == v_depth_or(
                                        cc[i as int],
                                        d_g,
                                    ));
                                    assert(false);
                                }
                            }
                            return Err(LeafNotKnown(*protocol_id));
                        }
                        let ghost pre_slots = slots@;
                        slots.set((k - 1) as usize, Some(hash));
                        proof {
                            assert(node@ == (NodeV::Hidden { level: k, digest: hash@ }));
                            assert(cc[i as int] == node@);
                            assert forall|q: int|
                                0 <= q < d implies ((#[trigger] slots@[q]) matches Some(h)
                                ==> exists|j: int|
                                0 <= j < cc.len() && #[trigger] cc[j] == (NodeV::Hidden {
                                    level: (q + 1) as u8,
                                    digest: h@,
                                })) by {
                                if q != k - 1 {
                                    assert(slots@[q] == pre_slots[q]);
                                }
                            }
                            assert forall|idx: int|
                                0 <= idx < i + 1 implies ((#[trigger] cc[idx])
                                matches NodeV::Hidden { level, .. } ==> 1 <= level <= d
                                && slots@[level - 1] is Some) by {
                                if idx < i {
                                    assert(pre_slots[v_depth_or(cc[idx], d_g) - 1] is Some
                                        ==> slots@[v_depth_or(cc[idx], d_g) - 1] is Some);
                                }
                            }
                        }
                    } else {
                        proof {
                            if hyp {
                                assert(cc[i as int] == node@);
                                assert(1 <= v_depth_or(cc[i as int], d_g) <= d_g);
                                assert(false);
                            }
                        }
                        return Err(LeafNotKnown(*protocol_id));
                    }
                },
                TreeNode::CommitmentLeaf { .. } => {},
            }
            i += 1;
        }
        let mut path: Vec<MerkleNode> = Vec::new();
        let mut q: usize = 0;
        while q < d
            invariant
                q <= d,
                d == block.spec_depth(),
                cc == block.spec_nodes(),
                slots@.len() == d,
                path@.len() == q,
                forall|t2: int|
                    0 <= t2 < d ==> ((#[trigger] slots@[t2]) matches Some(h) ==> exists|j: int|
                        0 <= j < cc.len() && #[trigger] cc[j] == (NodeV::Hidden {
                            level: (t2 + 1) as u8,
                            digest: h@,
                        })),
                forall|t2: int| #![trigger path@[t2]]
                    0 <= t2 < q ==> exists|j: int|
                        0 <= j < cc.len() && cc[j] == (NodeV::Hidden {
                            level: (t2 + 1) as u8,
                            digest: (path@[t2])@,
                        }),
            decreases d - q,
        {
            let entry = slots[q];
            match entry {
                Some(h) => {
                    let ghost pre_path = path@;
                    path.push(h);
                    proof {
                        assert forall|t2: int| #![trigger path@[t2]]
                            0 <= t2 < q + 1 implies exists|j: int|
                            0 <= j < cc.len() && cc[j] == (NodeV::Hidden {
                                level: (t2 + 1) as u8,
                                digest: (path@[t2])@,
                            }) by {
                            if t2 < q {
                                assert(path@[t2] == pre_path[t2]);
                            } else {
                                assert(path@[t2] == h);
                            }
                        }
                    }
                },
                None => {
                    proof {
                        if hyp {
                            assert(has_level_v(cc, d_g, q + 1));
                            let i1 = choose|i: int|
                                0 <= i < cc.len() && (#[trigger] cc[i]) is Hidden && v_depth_or(
                                    cc[i],
                                    d_g,
                                ) == q + 1;
                            assert(slots@[q as int] is Some);
                            assert(false);
                        }
                    }
                    return Err(LeafNotKnown(*protocol_id));
                },
            }
            q += 1;
        }
        let pos = crate::tree::pid_pos(protocol_id, block.depth);
        Ok(MerkleProof { pos, path })
    }

    /// Constructs an inclusion proof for the commitment under the given
    /// protocol id, leaving the block itself untouched.
    #[verifier::rlimit(60)]
    pub fn to_merkle_proof(&self, protocol_id: &ProtocolId) -> (r: Result<
        MerkleProof,
        LeafNotKnown,
    >)
        requires
            self.wf(),
        ensures
            !reveals_pid_v(self.spec_nodes(), protocol_id@) ==> r is Err,
            reveals_pid_v(self.spec_nodes(), protocol_id@) && revealed_pids_unique_v(
                self.spec_nodes(),
            ) ==> r is Ok,
            match r {
                Ok(proof) => {
                    &&& reveals_pid_v(self.spec_nodes(), protocol_id@)
                    &&& proof.wf()
                    &&& proof.spec_pos() as nat == pid_pos_s(
                        protocol_id@,
                        pow2(self.spec_depth() as nat),
                    )
                    &&& proof.spec_path().len() == self.spec_depth()
                    &&& block_commitment_s(
                        conceal_v(self.spec_nodes(), self.spec_depth(), Some(protocol_id@)),
                        self.spec_depth(),
                    ) == block_commitment_s(self.spec_nodes(), self.spec_depth())
                    &&& forall|k: int| #![trigger proof.spec_path()[k - 1]]
                        1 <= k <= self.spec_depth() ==> exists|j: int|
                            0 <= j < conceal_v(
                                self.spec_nodes(),
                                self.spec_depth(),
                                Some(protocol_id@),
                            ).len() && #[trigger] conceal_v(
                                self.spec_nodes(),
                                self.spec_depth(),
                                Some(protocol_id@),
                            )[j] == (NodeV::Hidden {
                                level: k as u8,
                                digest: proof.spec_path()[k - 1],
                            })
                },
                Err(e) => e.0@ == protocol_id@,
            },
    {
        let c = self.clone();
        proof {
            assert(c.spec_nodes() == self.spec_nodes());
            assert(c.spec_depth() == self.spec_depth());
        }
        let r = c.into_merkle_proof(protocol_id);
        proof {
            assert(conceal_v(c.spec_nodes(), c.spec_depth(), Some(protocol_id@)) == conceal_v(
                self.spec_nodes(),
                self.spec_depth(),
                Some(protocol_id@),
            ));
            match &r {
                Ok(proof) => {
                    assert forall|k: int| #![trigger proof.spec_path()[k - 1]]
                        1 <= k <= self.spec_depth() implies exists|j: int|
                        0 <= j < conceal_v(
                            self.spec_nodes(),
                            self.spec_depth(),
                            Some(protocol_id@),
                        ).len() && #[trigger] conceal_v(
                            self.spec_nodes(),
                            self.spec_depth(),
                            Some(protocol_id@),
                        )[j] == (NodeV::Hidden {
                            level: k as u8,
                            digest: proof.spec_path()[k - 1],
                        }) by {
                        let j0 = choose|j: int|
                            0 <= j < conceal_v(
                                c.spec_nodes(),
                                c.spec_depth(),
                                Some(protocol_id@),
                            ).len() && #[trigger] conceal_v(
                                c.spec_nodes(),
                                c.spec_depth(),
                                Some(protocol_id@),
                            )[j] == (NodeV::Hidden {
                                level: k as u8,
                                digest: proof.spec_path()[k - 1],
                            });
                        assert(0 <= j0 < conceal_v(
                            self.spec_nodes(),
                            self.spec_depth(),
                            Some(protocol_id@),
                        ).len() && conceal_v(
                            self.spec_nodes(),
                            self.spec_depth(),
                            Some(protocol_id@),
                        )[j0] == (NodeV::Hidden {
                            level: k as u8,
                            digest: proof.spec_path()[k - 1],
                        }));
                    }
                },
                Err(e) => {
                    assert(e.0@ == protocol_id@);
                },
            }
        }
        r
    }
}

impl MerkleProof {
    /// The leaf position.
    pub closed spec fn spec_pos(&self) -> u16 {
        self.pos
    }

    /// The sibling digests, top level first.
    pub closed spec fn spec_path(&self) -> Seq<Seq<u8>> {
        self.path@.map_values(|n: MerkleNode| n@)
    }

    /// Invariant: the path fits the depth limit and the position lies within
    /// the tree width.
    pub open spec fn wf(&self) -> bool {
        &&& self.spec_path().len() <= crate::MAX_TREE_DEPTH
        &&& (self.spec_pos() as nat) < pow2(self.spec_path().len())
    }

    /// Position of the leaf in the tree.
    pub fn pos(&self) -> (r: u16)
        ensures
            r == self.spec_pos(),
    {
        self.pos
    }

    /// Computes the depth of the tree the proof was produced from.
    pub fn depth(&self) -> (r: u8)
        requires
            self.wf(),
        ensures
            r == self.spec_path().len() + 1,
    {
        self.path.len() as u8 + 1
    }

    /// Computes the width of the tree the proof was produced from.
    pub fn width(&self) -> (r: usize)
        requires
            self.wf(),
        ensures
            r == pow2((self.spec_path().len() + 1) as nat),
    {
        proof {
            vstd::arithmetic::power2::lemma2_to64();
            if self.spec_path().len() + 1 < 16 {
                vstd::arithmetic::power2::lemma_pow2_strictly_increases(
                    (self.spec_path().len() + 1) as nat,
                    16,
                );
            }
            vstd::bits::lemma_usize_shl_is_mul(1, (self.path@.len() + 1) as usize);
        }
        1usize << (self.path.len() + 1)
    }

    /// Converts the proof into its inner path representation.
    pub fn into_path(self) -> (r: Vec<MerkleNode>)
        ensures
            r@.map_values(|n: MerkleNode| n@) == self.spec_path(),
    {
        self.path
    }

    /// Returns a copy of the inner path representation.
    pub fn to_path(&self) -> (r: Vec<MerkleNode>)
        ensures
            r@.map_values(|n: MerkleNode| n@) == self.spec_path(),
    {
        let n = self.path.len();
        let mut out: Vec<MerkleNode> = Vec::new();
        let mut i: usize = 0;
        while i < n
            invariant
                n == self.path@.len(),
                i <= n,
                out@.len() == i,
                forall|j: int| 0 <= j < i ==> out@[j] == self.path@[j],
            decreases n - i,
        {
            let node = self.path[i];
            out.push(node);
            i += 1;
        }
        proof {
            assert(out@ =~= self.path@);
        }
        out
    }

    /// Returns the inner path representation.
    pub fn as_path(&self) -> (r: &[MerkleNode])
        ensures
            r@.map_values(|n: MerkleNode| n@) == self.spec_path(),
    {
        self.path.as_slice()
    }

    /// Verifies that the proof binds the message to the commitment under the
    /// given protocol id: rebuilds the one-leaf block and compares its
    /// commitment with the supplied value.
    pub fn verify(&self, protocol_id: ProtocolId, message: Message, commitment: MultiCommitment) -> (r:
        bool)
        requires
            self.wf(),
        ensures
            r == (commitment@ == block_commitment_s(
                with_v(self.spec_pos() as nat, self.spec_path(), protocol_id@, message@),
                self.spec_path().len() as u8,
            )),
    {
        let block = MerkleBlock::with(self, &protocol_id, &message);
        let c = block.consensus_commit();
        c == commitment
    }
}

} // verus!
