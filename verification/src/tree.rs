//! The complete, unconcealed commitment tree.
//!
//! A [`MerkleTree`] holds the full message map together with the tree depth
//! and the entropy seed used for placeholder leaves.  Protocol ids are mapped
//! to leaf slots by interpreting the 32-byte id as a little-endian integer
//! and reducing it modulo the tree width; the tree is built at the first
//! depth at which that assignment is collision-free.

use crate::hashes::{branch_hash_s, commitment_hash_s, entropy_hash_s, leaf_hash_s, Message, MerkleNode, MultiCommitment, ProtocolId};
use vstd::arithmetic::div_mod::{lemma_mod_multiples_vanish, lemma_small_mod};
use vstd::arithmetic::power2::{lemma2_to64, lemma_pow2_adds, pow2};
use vstd::bits::lemma_usize_shl_is_mul;
use vstd::prelude::*;

verus! {

/// Map from protocol ids to the messages committed under them.
///
/// Keys are unique: inserting an id that is already present replaces the
/// stored message.
#[derive(Debug)]
pub struct MessageMap {
    entries: Vec<(ProtocolId, Message)>,
}

impl View for MessageMap {
    type V = Seq<(ProtocolId, Message)>;

    closed spec fn view(&self) -> Seq<(ProtocolId, Message)> {
        self.entries@
    }
}

/// Holds when some entry carries the given protocol id.
pub open spec fn map_contains_pid(entries: Seq<(ProtocolId, Message)>, pid: Seq<u8>) -> bool {
    exists|i: int| 0 <= i < entries.len() && entries[i].0@ == pid
}

/// Holds when no two entries share a protocol id.
pub open spec fn pids_unique(entries: Seq<(ProtocolId, Message)>) -> bool {
    forall|i: int, j: int|
        0 <= i < j < entries.len() ==> entries[i].0@ != entries[j].0@
}

impl MessageMap {
    /// Invariant: protocol ids are pairwise distinct.
    pub open spec fn wf(&self) -> bool {
        pids_unique(self@)
    }

    /// Creates an empty map.
    pub fn new() -> (r: MessageMap)
        ensures
            r@.len() == 0,
            r.wf(),
    {
        MessageMap { entries: Vec::new() }
    }

    /// Number of stored messages.
    pub fn len(&self) -> (r: usize)
        ensures
            r == self@.len(),
    {
        self.entries.len()
    }

    /// Whether the map holds no message.
    pub fn is_empty(&self) -> (r: bool)
        ensures
            r == (self@.len() == 0),
    {
        self.entries.len() == 0
    }

    /// The entry at the given index, in insertion order.
    pub fn entry(&self, index: usize) -> (r: &(ProtocolId, Message))
        requires
            index < self@.len(),
        ensures
            *r == self@[index as int],
    {
        &self.entries[index]
    }

    /// Inserts a message under a protocol id; an id already present has its
    /// message replaced, and the previous message is returned.
    pub fn insert(&mut self, protocol_id: ProtocolId, message: Message) -> (r: Option<Message>)
        requires
            old(self).wf(),
        ensures
            final(self).wf(),
            map_contains_pid(final(self)@, protocol_id@),
            (match r {
                Some(prev) => exists|i: int|
                    0 <= i < old(self)@.len() && (#[trigger] old(self)@[i]).0@ == protocol_id@
                        && prev == old(self)@[i].1 && final(self)@ == old(self)@.update(
                        i,
                        (protocol_id, message),
                    ),
                None => !map_contains_pid(old(self)@, protocol_id@) && final(self)@ == old(
                    self,
                )@.push((protocol_id, message)),
            }),
    {
        let n = self.entries.len();
        let mut i: usize = 0;
        while i < n
            invariant
                self@ == old(self)@,
                pids_unique(old(self)@),
                n == self.entries.len(),
                i <= n,
                forall|j: int| 0 <= j < i ==> (#[trigger] self.entries@[j]).0@ != protocol_id@,
            decreases n - i,
        {
            if self.entries[i].0 == protocol_id {
                let prev = self.entries[i].1;
                self.entries.set(i, (protocol_id, message));
                proof {
                    assert forall|a: int, b: int| 0 <= a < b < self@.len() implies self@[a].0@
                        != self@[b].0@ by {
                        assert(old(self)@[a].0@ != old(self)@[b].0@);
                        if a == i {
                            assert(self@[a].0@ == old(self)@[a].0@);
                        }
                        if b == i {
                            assert(self@[b].0@ == old(self)@[b].0@);
                        }
                    }
                    assert(self@[i as int].0@ == protocol_id@);
                }
                return Some(prev);
            }
            i += 1;
        }
        self.entries.push((protocol_id, message));
        proof {
            let m = self@.len() - 1;
            assert(self@[m].0@ == protocol_id@);
            assert forall|a: int, b: int| 0 <= a < b < self@.len() implies self@[a].0@
                != self@[b].0@ by {
                if b < m {
                    assert(old(self)@[a].0@ != old(self)@[b].0@);
                } else {
                    assert(old(self)@[a].0@ != protocol_id@);
                }
            }
        }
        None
    }
}

/// Structured source data for creating a multi-message commitment.
#[derive(Debug)]
pub struct MultiSource {
    /// Minimal depth of the created commitment tree.
    pub min_depth: u8,
    /// Map of the messages by their respective protocol ids.
    pub messages: MessageMap,
}

impl Default for MultiSource {
    fn default() -> (r: Self)
        ensures
            r.min_depth == 3,
            r.messages@.len() == 0,
            r.messages.wf(),
    {
        MultiSource { min_depth: 3, messages: MessageMap::new() }
    }
}

/// Errors reported while creating a multi-message commitment.
#[derive(Copy, Clone, Debug, PartialEq, Eq, Structural)]
pub enum Error {
    /// No commitment can be made over an empty message list at zero depth.
    Empty,
    /// The number of messages exceeds the protocol limit of 2^16.
    TooManyMessages(usize),
    /// No tree depth within the limit yields a collision-free slot
    /// assignment for the given protocol ids.
    CantFitInMaxSlots,
}

/// The 32 bytes of a protocol id read as a little-endian unsigned integer.
pub open spec fn le_nat(bytes: Seq<u8>) -> nat
    decreases bytes.len(),
{
    if bytes.len() == 0 {
        0
    } else {
        (bytes[0] + 256 * le_nat(bytes.drop_first())) as nat
    }
}

/// Leaf slot of a protocol id in a tree of the given width: the id read as a
/// little-endian integer, reduced modulo the width.
pub open spec fn pid_pos_s(pid: Seq<u8>, width: nat) -> nat
    recommends
        width > 0,
{
    le_nat(pid) % width
}

proof fn lemma_le_nat_low(bytes: Seq<u8>)
    requires
        bytes.len() >= 2,
    ensures
        le_nat(bytes) == bytes[0] + 256 * bytes[1] + 65536 * le_nat(bytes.drop_first().drop_first()),
{
    assert(le_nat(bytes) == bytes[0] + 256 * le_nat(bytes.drop_first()));
    assert(le_nat(bytes.drop_first()) == bytes.drop_first()[0] + 256 * le_nat(
        bytes.drop_first().drop_first(),
    ));
    assert(bytes.drop_first()[0] == bytes[1]);
}

/// Reducing the full little-endian value modulo a width that divides 2^16
/// depends only on the low two bytes.
proof fn lemma_pid_pos_low_bytes(pid: Seq<u8>, depth: nat)
    requires
        pid.len() == 32,
        depth <= 16,
    ensures
        pid_pos_s(pid, pow2(depth)) == (pid[0] + 256 * pid[1]) % (pow2(depth) as int),
{
    let w = pow2(depth) as int;
    let low = pid[0] + 256 * pid[1];
    let rest = le_nat(pid.drop_first().drop_first()) as int;
    lemma_le_nat_low(pid);
    lemma2_to64();
    lemma_pow2_adds(depth, (16 - depth) as nat);
    let k = pow2((16 - depth) as nat) as int;
    assert(w * k == 65536);
    assert(le_nat(pid) as int == low + 65536 * rest);
    assert((w * (k * rest) + low) % w == low % w) by {
        lemma_mod_multiples_vanish(k * rest, low, w);
    }
    assert(w * (k * rest) == 65536 * rest) by (nonlinear_arith)
        requires
            w * k == 65536,
    ;
}

/// Holds when the slot assignment at the given depth maps all protocol ids
/// of the entry list to pairwise distinct leaf slots.
pub open spec fn injective_at(entries: Seq<(ProtocolId, Message)>, depth: nat) -> bool {
    forall|i: int, j: int|
        0 <= i < j < entries.len() ==> pid_pos_s(#[trigger] entries[i].0@, pow2(depth)) != pid_pos_s(
            #[trigger] entries[j].0@,
            pow2(depth),
        )
}

/// Proof that a width of `2^depth` fits a `usize` and is computed by a shift.
pub(crate) proof fn lemma_width_fits(depth: nat)
    requires
        depth <= 16,
    ensures
        0 < pow2(depth) <= 65536,
        (1usize << (depth as usize)) == pow2(depth),
{
    lemma2_to64();
    if depth < 16 {
        vstd::arithmetic::power2::lemma_pow2_strictly_increases(depth, 16);
    }
    lemma_usize_shl_is_mul(1, depth as usize);
}

/// Computes the leaf slot of a protocol id in a tree of the given depth.
pub(crate) fn pid_pos(pid: &ProtocolId, depth: u8) -> (r: u16)
    requires
        depth <= 16,
    ensures
        r as nat == pid_pos_s(pid@, pow2(depth as nat)),
        (r as nat) < pow2(depth as nat),
{
    proof {
        lemma2_to64();
        lemma_usize_shl_is_mul(1, depth as usize);
        lemma_pid_pos_low_bytes(pid@, depth as nat);
    }
    let width: usize = 1usize << depth;
    let low: usize = pid.0[0] as usize + 256 * (pid.0[1] as usize);
    let r = low % width;
    proof {
        lemma_small_mod(r as nat, pow2(depth as nat));
    }
    r as u16
}

/// Holds when some entry of the list is assigned the given leaf slot.
pub open spec fn map_has_pos(
    entries: Seq<(ProtocolId, Message)>,
    depth: u8,
    pos: nat,
) -> bool {
    exists|i: int|
        0 <= i < entries.len() && pid_pos_s(#[trigger] entries[i].0@, pow2(depth as nat)) == pos
}

/// The index of the entry assigned the given leaf slot.
pub open spec fn slot_of(entries: Seq<(ProtocolId, Message)>, depth: u8, pos: nat) -> int {
    choose|i: int|
        0 <= i < entries.len() && pid_pos_s(#[trigger] entries[i].0@, pow2(depth as nat)) == pos
}

/// Under a collision-free assignment the slot of an entry's position is that
/// entry itself.
pub(crate) proof fn lemma_slot_of_unique(entries: Seq<(ProtocolId, Message)>, depth: u8, i: int)
    requires
        injective_at(entries, depth as nat),
        0 <= i < entries.len(),
    ensures
        slot_of(entries, depth, pid_pos_s(entries[i].0@, pow2(depth as nat))) == i,
{
    let p = pid_pos_s(entries[i].0@, pow2(depth as nat));
    assert(map_has_pos(entries, depth, p));
    let j = slot_of(entries, depth, p);
    assert(0 <= j < entries.len() && pid_pos_s(entries[j].0@, pow2(depth as nat)) == p);
    if i < j {
        assert(pid_pos_s(entries[i].0@, pow2(depth as nat)) != pid_pos_s(
            entries[j].0@,
            pow2(depth as nat),
        ));
    } else if j < i {
        assert(pid_pos_s(entries[j].0@, pow2(depth as nat)) != pid_pos_s(
            entries[i].0@,
            pow2(depth as nat),
        ));
    }
}

/// The digest standing at a leaf slot: the tagged leaf hash where a message
/// is assigned, the entropy placeholder hash otherwise.
pub open spec fn leaf_at_s(
    entries: Seq<(ProtocolId, Message)>,
    depth: u8,
    entropy: u64,
    pos: nat,
) -> Seq<u8> {
    if map_has_pos(entries, depth, pos) {
        let i = slot_of(entries, depth, pos);
        leaf_hash_s(depth, entries[i].0@, entries[i].1@)
    } else {
        entropy_hash_s(entropy, pos as u16)
    }
}

/// The digest of the subtree whose parent node sits at the given level and
/// index; leaves sit at `level == depth`, the root at level 0.
pub open spec fn subtree_root_s(
    entries: Seq<(ProtocolId, Message)>,
    depth: u8,
    entropy: u64,
    level: u8,
    index: nat,
) -> Seq<u8>
    decreases depth - level,
{
    if level >= depth {
        leaf_at_s(entries, depth, entropy, index)
    } else {
        branch_hash_s(
            depth,
            level,
            index as u16,
            subtree_root_s(entries, depth, entropy, (level + 1) as u8, 2 * index),
            subtree_root_s(entries, depth, entropy, (level + 1) as u8, 2 * index + 1),
        )
    }
}

/// The concealed root digest of the whole tree.
pub open spec fn tree_root_s(entries: Seq<(ProtocolId, Message)>, depth: u8, entropy: u64) -> Seq<
    u8,
> {
    subtree_root_s(entries, depth, entropy, 0, 0)
}

/// Law: the root digest is a pure function of the tree depth, the entropy
/// seed and the message map; recomputing it from equal data yields an equal
/// digest.
pub proof fn lemma_root_determinism(
    e1: Seq<(ProtocolId, Message)>,
    d1: u8,
    n1: u64,
    e2: Seq<(ProtocolId, Message)>,
    d2: u8,
    n2: u64,
)
    requires
        e1 == e2,
        d1 == d2,
        n1 == n2,
    ensures
        tree_root_s(e1, d1, n1) == tree_root_s(e2, d2, n2),
{
}

/// Holds when the slot table records exactly the assignment of entries to
/// leaf slots: a filled slot names the entry assigned to it, an empty slot
/// has no entry assigned.
pub open spec fn slot_table_ok(
    slots: Seq<Option<usize>>,
    entries: Seq<(ProtocolId, Message)>,
    depth: u8,
) -> bool {
    forall|p: int| #![trigger slots[p]]
        0 <= p < slots.len() ==> (match slots[p] {
            Some(i) => i < entries.len() && pid_pos_s(entries[i as int].0@, pow2(depth as nat))
                == p,
            None => !map_has_pos(entries, depth, p as nat),
        })
}

/// Slot table state after the first `k` entries have been placed.
spec fn slot_table_partial(
    slots: Seq<Option<usize>>,
    entries: Seq<(ProtocolId, Message)>,
    depth: u8,
    k: int,
) -> bool {
    forall|p: int| #![trigger slots[p]]
        0 <= p < slots.len() ==> (match slots[p] {
            Some(i) => i < k && pid_pos_s(entries[i as int].0@, pow2(depth as nat)) == p,
            None => forall|i: int| #![trigger entries[i]]
                0 <= i < k ==> pid_pos_s(entries[i].0@, pow2(depth as nat)) != p,
        })
}

/// Law: a well-formed commitment tree assigns every protocol id its own
/// leaf slot; no two entries share a slot.
pub proof fn lemma_tree_slots_injective(tree: MerkleTree, i: int, j: int)
    requires
        tree.wf(),
        0 <= i < j < tree.spec_messages().len(),
    ensures
        pid_pos_s(tree.spec_messages()[i].0@, pow2(tree.spec_depth() as nat)) != pid_pos_s(
            tree.spec_messages()[j].0@,
            pow2(tree.spec_depth() as nat),
        ),
{
}

/// Assigns every message of the map to its leaf slot in a tree of the given
/// depth.  Returns the slot table, or `None` when two protocol ids collide.
pub(crate) fn assign_slots(map: &MessageMap, depth: u8) -> (r: Option<Vec<Option<usize>>>)
    requires
        depth <= 16,
    ensures
        match r {
            Some(slots) => injective_at(map@, depth as nat) && slots@.len() == pow2(depth as nat)
                && slot_table_ok(slots@, map@, depth),
            None => !injective_at(map@, depth as nat),
        },
{
    proof {
        lemma_width_fits(depth as nat);
    }
    let width: usize = 1usize << (depth as usize);
    let mut slots: Vec<Option<usize>> = Vec::new();
    let mut p: usize = 0;
    while p < width
        invariant
            p <= width,
            slots@.len() == p,
            forall|q: int| 0 <= q < p ==> #[trigger] slots@[q] is None,
        decreases width - p,
    {
        slots.push(None);
        p += 1;
    }
    let n = map.len();
    let mut k: usize = 0;
    while k < n
        invariant
            depth <= 16,
            n == map@.len(),
            k <= n,
            slots@.len() == width,
            width == pow2(depth as nat),
            slot_table_partial(slots@, map@, depth, k as int),
            forall|i: int, j: int|
                0 <= i < j < k ==> pid_pos_s(#[trigger] map@[i].0@, pow2(depth as nat)) != pid_pos_s(
                    #[trigger] map@[j].0@,
                    pow2(depth as nat),
                ),
        decreases n - k,
    {
        let entry = map.entry(k);
        let pos = pid_pos(&entry.0, depth) as usize;
        match slots[pos] {
            Some(j) => {
                proof {
                    assert(pid_pos_s(map@[j as int].0@, pow2(depth as nat)) == pid_pos_s(
                        map@[k as int].0@,
                        pow2(depth as nat),
                    ));
                }
                return None;
            },
            None => {
                slots.set(pos, Some(k));
            },
        }
        k += 1;
    }
    proof {
        assert(slot_table_ok(slots@, map@, depth));
    }
    Some(slots)
}

/// Complete information about a multi-message commitment tree.
#[derive(Debug)]
pub struct MerkleTree {
    /// Tree depth (up to 16).
    depth: u8,
    /// Entropy used for placeholder leaves.
    entropy: u64,
    /// Map of the messages by their respective protocol ids.
    messages: MessageMap,
}

impl MerkleTree {
    /// The tree depth.
    pub closed spec fn spec_depth(&self) -> u8 {
        self.depth
    }

    /// The entropy seed.
    pub closed spec fn spec_entropy(&self) -> u64 {
        self.entropy
    }

    /// The stored message entries.
    pub closed spec fn spec_messages(&self) -> Seq<(ProtocolId, Message)> {
        self.messages@
    }

    /// Invariant: the depth is within the limit and every protocol id owns a
    /// distinct leaf slot.
    pub open spec fn wf(&self) -> bool {
        &&& self.spec_depth() <= crate::MAX_TREE_DEPTH
        &&& pids_unique(self.spec_messages())
        &&& injective_at(self.spec_messages(), self.spec_depth() as nat)
    }

    /// The concealed root digest this tree reduces to.
    pub open spec fn spec_root(&self) -> Seq<u8> {
        tree_root_s(self.spec_messages(), self.spec_depth(), self.spec_entropy())
    }

    /// Tree depth (up to 16).
    pub fn depth(&self) -> (r: u8)
        ensures
            r == self.spec_depth(),
    {
        self.depth
    }

    /// Entropy used for placeholder leaves.
    pub fn entropy(&self) -> (r: u64)
        ensures
            r == self.spec_entropy(),
    {
        self.entropy
    }

    /// Map of the messages by their respective protocol ids.
    pub fn messages(&self) -> (r: &MessageMap)
        ensures
            r@ == self.spec_messages(),
    {
        &self.messages
    }

    /// Computes the width of the tree.
    pub fn width(&self) -> (r: usize)
        requires
            self.spec_depth() <= 16,
        ensures
            r == pow2(self.spec_depth() as nat),
    {
        proof {
            lemma_width_fits(self.depth as nat);
        }
        1usize << (self.depth as usize)
    }

    /// Computes the leaf slot of a protocol id within the tree leaves.
    pub fn protocol_id_pos(&self, protocol_id: &ProtocolId) -> (r: u16)
        requires
            self.spec_depth() <= 16,
        ensures
            r as nat == pid_pos_s(protocol_id@, pow2(self.spec_depth() as nat)),
    {
        pid_pos(protocol_id, self.depth)
    }

    /// Tries to build the commitment tree over the given source with the
    /// given entropy seed: starting at the requested minimal depth, the first
    /// depth within the limit whose slot assignment is collision-free wins.
    pub fn try_commit_with_entropy(source: &MultiSource, entropy: u64) -> (r: Result<
        MerkleTree,
        Error,
    >)
        ensures
            match r {
                Ok(tree) => {
                    &&& !(source.min_depth == 0 && source.messages@.len() == 0)
                    &&& source.messages@.len() <= 65536
                    &&& tree.wf()
                    &&& tree.spec_depth() >= source.min_depth
                    &&& tree.spec_entropy() == entropy
                    &&& tree.spec_messages() == source.messages@
                    &&& forall|d: u8|
                        source.min_depth <= d < tree.spec_depth() ==> !injective_at(
                            source.messages@,
                            d as nat,
                        )
                },
                Err(Error::Empty) => source.min_depth == 0 && source.messages@.len() == 0,
                Err(Error::TooManyMessages(n)) => {
                    &&& !(source.min_depth == 0 && source.messages@.len() == 0)
                    &&& n == source.messages@.len()
                    &&& n > 65536
                },
                Err(Error::CantFitInMaxSlots) => {
                    &&& !(source.min_depth == 0 && source.messages@.len() == 0)
                    &&& source.messages@.len() <= 65536
                    &&& forall|d: u8|
                        source.min_depth <= d <= 16 ==> !injective_at(source.messages@, d as nat)
                },
            },
    {
        if source.min_depth == 0 && source.messages.is_empty() {
            return Err(Error::Empty);
        }
        let n = source.messages.len();
        if n > 65536 {
            return Err(Error::TooManyMessages(n));
        }
        let mut depth = source.min_depth;
        while depth <= 16
            invariant
                n == source.messages@.len(),
                n <= 65536,
                !(source.min_depth == 0 && source.messages@.len() == 0),
                depth >= source.min_depth,
                depth <= 17 || depth == source.min_depth,
                forall|d: u8|
                    source.min_depth <= d < depth ==> !injective_at(source.messages@, d as nat),
            decreases 17 - depth,
        {
            match assign_slots(&source.messages, depth) {
                Some(_) => {
                    proof {
                        assert forall|i: int, j: int|
                            0 <= i < j < source.messages@.len() implies source.messages@[i].0@
                            != source.messages@[j].0@ by {
                            assert(pid_pos_s(source.messages@[i].0@, pow2(depth as nat))
                                != pid_pos_s(source.messages@[j].0@, pow2(depth as nat)));
                        }
                    }
                    let messages = source.messages.clone();
                    return Ok(MerkleTree { depth, entropy, messages });
                },
                None => {
                    depth += 1;
                },
            }
        }
        Err(Error::CantFitInMaxSlots)
    }

    /// Tries to build the commitment tree over the given source, drawing a
    /// fresh 64-bit entropy seed for the placeholder leaves.
    pub fn try_commit(source: &MultiSource) -> (r: Result<MerkleTree, Error>)
        ensures
            match r {
                Ok(tree) => {
                    &&& !(source.min_depth == 0 && source.messages@.len() == 0)
                    &&& source.messages@.len() <= 65536
                    &&& tree.wf()
                    &&& tree.spec_depth() >= source.min_depth
                    &&& tree.spec_messages() == source.messages@
                    &&& forall|d: u8|
                        source.min_depth <= d < tree.spec_depth() ==> !injective_at(
                            source.messages@,
                            d as nat,
                        )
                },
                Err(Error::Empty) => source.min_depth == 0 && source.messages@.len() == 0,
                Err(Error::TooManyMessages(n)) => {
                    &&& !(source.min_depth == 0 && source.messages@.len() == 0)
                    &&& n == source.messages@.len()
                    &&& n > 65536
                },
                Err(Error::CantFitInMaxSlots) => {
                    &&& !(source.min_depth == 0 && source.messages@.len() == 0)
                    &&& source.messages@.len() <= 65536
                    &&& forall|d: u8|
                        source.min_depth <= d <= 16 ==> !injective_at(source.messages@, d as nat)
                },
            },
    {
        let entropy = crate::hashes::random_u64();
        Self::try_commit_with_entropy(source, entropy)
    }

    /// Reduces the tree to its concealed root digest, folding the leaf layer
    /// pairwise bottom-up under the branch tag.
    #[verifier::loop_isolation(false)]
    pub fn commit_conceal(&self) -> (r: MerkleNode)
        requires
            self.wf(),
        ensures
            r@ == self.spec_root(),
    {
        let slots_opt = assign_slots(&self.messages, self.depth);
        let slots = match slots_opt {
            Some(s) => s,
            None => {
                proof {
                    assert(false);
                }
                return MerkleNode::with_entropy(0, 0);
            },
        };
        proof {
            lemma_width_fits(self.depth as nat);
        }
        let ghost entries = self.messages@;
        let width = slots.len();
        let mut layer: Vec<MerkleNode> = Vec::new();
        let mut pos: usize = 0;
        while pos < width
            invariant
                pos <= width,
                layer@.len() == pos,
                forall|q: int|
                    0 <= q < pos ==> (#[trigger] layer@[q])@ == leaf_at_s(
                        entries,
                        self.spec_depth(),
                        self.spec_entropy(),
                        q as nat,
                    ),
            decreases width - pos,
        {
            let node = match slots[pos] {
                Some(i) => {
                    let entry = self.messages.entry(i);
                    let node = MerkleNode::with_commitment(&entry.0, &entry.1, self.depth);
                    proof {
                        lemma_slot_of_unique(entries, self.depth, i as int);
                        assert(map_has_pos(entries, self.depth, pos as nat));
                        assert(slot_of(entries, self.depth, pos as nat) == i as int);
                    }
                    node
                },
                None => MerkleNode::with_entropy(self.entropy, pos as u16),
            };
            layer.push(node);
            pos += 1;
        }
        let mut level = self.depth;
        while level > 0
            invariant
                level <= self.spec_depth(),
                layer@.len() == pow2(level as nat),
                forall|q: int|
                    0 <= q < layer@.len() ==> (#[trigger] layer@[q])@ == subtree_root_s(
                        entries,
                        self.spec_depth(),
                        self.spec_entropy(),
                        level,
                        q as nat,
                    ),
            decreases level,
        {
            proof {
                vstd::arithmetic::power2::lemma_pow2_unfold(level as nat);
                lemma_width_fits((level - 1) as nat);
            }
            let half = layer.len() / 2;
            let mut next: Vec<MerkleNode> = Vec::new();
            let mut i: usize = 0;
            while i < half
                invariant
                    1 <= level,
                    half == pow2((level - 1) as nat),
                    layer@.len() == 2 * half,
                    i <= half,
                    next@.len() == i,
                    forall|q: int|
                        0 <= q < i ==> (#[trigger] next@[q])@ == subtree_root_s(
                            entries,
                            self.spec_depth(),
                            self.spec_entropy(),
                            (level - 1) as u8,
                            q as nat,
                        ),
                decreases half - i,
            {
                let node = MerkleNode::with_branch(
                    &layer[2 * i],
                    &layer[2 * i + 1],
                    self.depth,
                    level - 1,
                    i as u16,
                );
                next.push(node);
                i += 1;
            }
            layer = next;
            level -= 1;
        }
        proof {
            lemma2_to64();
        }
        layer[0]
    }

    /// Computes the externally visible commitment: the final tagged digest of
    /// the concealed root.
    pub fn consensus_commit(&self) -> (r: MultiCommitment)
        requires
            self.wf(),
        ensures
            r@ == commitment_hash_s(self.spec_root()),
    {
        let root = self.commit_conceal();
        MultiCommitment::hash(&root.to_vec())
    }
}

impl PartialEq for MessageMap {
    /// Two maps are equal when they hold the same entries in the same order.
    fn eq(&self, other: &Self) -> (r: bool) {
        let n = self.entries.len();
        if n != other.entries.len() {
            proof {
                assert(self@ != other@);
            }
            return false;
        }
        let mut i: usize = 0;
        while i < n
            invariant
                n == self@.len(),
                n == other@.len(),
                i <= n,
                forall|j: int| 0 <= j < i ==> #[trigger] self@[j] == other@[j],
            decreases n - i,
        {
            let a = self.entries[i];
            let b = other.entries[i];
            if !(a.0 == b.0 && a.1 == b.1) {
                proof {
                    if self@[i as int] == other@[i as int] {
                        assert(a.0.0@ == b.0.0@ && a.1.0@ == b.1.0@);
                    }
                }
                return false;
            }
            proof {
                assert(a.0.0@ =~= b.0.0@ && a.1.0@ =~= b.1.0@);
                assert(a.0.0 =~= b.0.0);
                assert(a.1.0 =~= b.1.0);
            }
            i += 1;
        }
        proof {
            assert(self@ =~= other@);
        }
        true
    }
}

impl vstd::std_specs::cmp::PartialEqSpecImpl for MessageMap {
    open spec fn obeys_eq_spec() -> bool {
        true
    }

    open spec fn eq_spec(&self, other: &Self) -> bool {
        self@ == other@
    }
}

impl PartialEq for MerkleTree {
    /// Two trees are equal when depth, entropy and message entries coincide.
    fn eq(&self, other: &Self) -> (r: bool) {
        self.depth == other.depth && self.entropy == other.entropy && self.messages
            == other.messages
    }
}

impl vstd::std_specs::cmp::PartialEqSpecImpl for MerkleTree {
    open spec fn obeys_eq_spec() -> bool {
        true
    }

    open spec fn eq_spec(&self, other: &Self) -> bool {
        &&& self.spec_depth() == other.spec_depth()
        &&& self.spec_entropy() == other.spec_entropy()
        &&& self.spec_messages() == other.spec_messages()
    }
}

impl crate::commit::TryCommitVerify<
    MultiSource,
    crate::commit::PrehashedProtocol,
> for MerkleTree {
    type Error = Error;

    /// Tries to commit to the source, drawing fresh entropy.
    fn try_commit(source: &MultiSource) -> (r: Result<MerkleTree, Error>)
        ensures
            match r {
                Ok(tree) => {
                    &&& !(source.min_depth == 0 && source.messages@.len() == 0)
                    &&& source.messages@.len() <= 65536
                    &&& tree.wf()
                    &&& tree.spec_depth() >= source.min_depth
                    &&& tree.spec_messages() == source.messages@
                    &&& forall|d: u8|
                        source.min_depth <= d < tree.spec_depth() ==> !injective_at(
                            source.messages@,
                            d as nat,
                        )
                },
                Err(Error::Empty) => source.min_depth == 0 && source.messages@.len() == 0,
                Err(Error::TooManyMessages(n)) => {
                    &&& !(source.min_depth == 0 && source.messages@.len() == 0)
                    &&& n == source.messages@.len()
                    &&& n > 65536
                },
                Err(Error::CantFitInMaxSlots) => {
                    &&& !(source.min_depth == 0 && source.messages@.len() == 0)
                    &&& source.messages@.len() <= 65536
                    &&& forall|d: u8|
                        source.min_depth <= d <= 16 ==> !injective_at(source.messages@, d as nat)
                },
            },
    {
        MerkleTree::try_commit(source)
    }

    /// Tries to verify by re-committing and comparing; fresh entropy makes
    /// two commitments over the same source differ, so this holds only of a
    /// tree equal to the newly drawn one.
    fn try_verify(&self, source: &MultiSource) -> (r: Result<bool, Error>)
        ensures
            match r {
                Ok(b) => {
                    &&& !(source.min_depth == 0 && source.messages@.len() == 0)
                    &&& source.messages@.len() <= 65536
                    &&& exists|d: u8|
                        source.min_depth <= d <= 16 && injective_at(
                            source.messages@,
                            d as nat,
                        )
                    &&& (b ==> {
                        &&& self.wf()
                        &&& self.spec_messages() == source.messages@
                        &&& self.spec_depth() >= source.min_depth
                    })
                },
                Err(Error::Empty) => source.min_depth == 0 && source.messages@.len() == 0,
                Err(Error::TooManyMessages(n)) => {
                    &&& !(source.min_depth == 0 && source.messages@.len() == 0)
                    &&& n == source.messages@.len()
                    &&& n > 65536
                },
                Err(Error::CantFitInMaxSlots) => {
                    &&& !(source.min_depth == 0 && source.messages@.len() == 0)
                    &&& source.messages@.len() <= 65536
                    &&& forall|d: u8|
                        source.min_depth <= d <= 16 ==> !injective_at(source.messages@, d as nat)
                },
            },
    {
        match MerkleTree::try_commit(source) {
            Ok(t) => {
                proof {
                    assert(injective_at(source.messages@, t.spec_depth() as nat));
                    assert(source.min_depth <= t.spec_depth() <= 16);
                }
                Ok(t == *self)
            },
            Err(e) => Err(e),
        }
    }
}

impl Clone for MessageMap {
    /// Clones the map, keeping every entry.
    fn clone(&self) -> (r: Self)
        ensures
            r@ == self@,
    {
        let n = self.entries.len();
        let mut entries: Vec<(ProtocolId, Message)> = Vec::new();
        let mut i: usize = 0;
        while i < n
            invariant
                n == self.entries.len(),
                i <= n,
                entries@.len() == i,
                forall|j: int| 0 <= j < i ==> entries@[j] == self.entries@[j],
            decreases n - i,
        {
            let entry = self.entries[i];
            entries.push(entry);
            i += 1;
        }
        proof {
            assert(entries@ =~= self.entries@);
        }
        MessageMap { entries }
    }
}

} // verus!
