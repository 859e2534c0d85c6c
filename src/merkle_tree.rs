//! Append-only Merkle commitment tree stored as a flat array.
//!
//! Node `j` of level `l` (the root is level 0, leaves are level `depth`)
//! lives at flat index `2^l - 1 + j`; its children are nodes `2j` and
//! `2j + 1` of level `l + 1`.
use crate::error::CoreError;
use crate::pubkey::Pubkey;
use sha2::Digest;
use vstd::arithmetic::div_mod::*;
use vstd::arithmetic::power2::*;
use vstd::prelude::*;

verus! {

/// Deepest tree that can be created.
pub const MAX_TREE_DEPTH: usize = 32;

/// Most leaves a single batch may carry.
pub const MAX_BATCH_SIZE: usize = 1024;

/// SHA-256 digest of a byte string.
pub uninterp spec fn sha256_of(data: Seq<u8>) -> Seq<u8>;

/// Parent of two nodes: the digest of the left node followed by the right.
pub open spec fn pair_hash(left: Seq<u8>, right: Seq<u8>) -> Seq<u8> {
    sha256_of(left + right)
}

/// Relies on sha2::Sha256: the digest of the 64 bytes `left ++ right`.
#[verifier::external_body]
fn hash_pair(left: &[u8; 32], right: &[u8; 32]) -> (r: [u8; 32])
    ensures
        r@ == sha256_of(left@ + right@),
{
    let mut hasher = sha2::Sha256::new();
    hasher.update(left);
    hasher.update(right);
    hasher.finalize().into()
}

/// The all-zero node.
pub open spec fn empty_node() -> Seq<u8> {
    Seq::new(32, |i: int| 0u8)
}

/// Flat index of node `j` of level `l`.
pub open spec fn node_index(l: nat, j: nat) -> int {
    pow2(l) - 1 + j
}

/// Value that node `j` of level `l` holds in a tree of the given depth
/// whose written leaves are `leaves`: a leaf slot holds its leaf (or zero
/// when unwritten); an internal node with a written leaf below it holds the
/// hash of its two children; any other node is zero.
pub open spec fn node_at(depth: nat, leaves: Seq<Seq<u8>>, l: nat, j: nat) -> Seq<u8>
    decreases depth - l,
{
    if l >= depth {
        if j < leaves.len() {
            leaves[j as int]
        } else {
            empty_node()
        }
    } else if j * pow2((depth - l) as nat) < leaves.len() {
        pair_hash(
            node_at(depth, leaves, l + 1, 2 * j),
            node_at(depth, leaves, l + 1, 2 * j + 1),
        )
    } else {
        empty_node()
    }
}

/// Root committed to by the given leaves.
pub open spec fn merkle_root(depth: nat, leaves: Seq<Seq<u8>>) -> Seq<u8> {
    node_at(depth, leaves, 0, 0)
}

/// Position of the other child of the same parent.
pub open spec fn sibling(j: nat) -> nat {
    if j % 2 == 1 {
        (j - 1) as nat
    } else {
        j + 1
    }
}

/// Authentication path of leaf `index`: entry `t` is the sibling, at level
/// `depth - t`, of the ancestor of the leaf at that level.
pub open spec fn proof_for(depth: nat, leaves: Seq<Seq<u8>>, index: nat) -> Seq<Seq<u8>> {
    Seq::new(
        depth,
        |t: int| node_at(depth, leaves, (depth - t) as nat, sibling(index / pow2(t as nat))),
    )
}

/// One step up the path: a node at an odd position is a right child (its
/// flat index is even) and goes second into the hash.
pub open spec fn combine(cur: Seq<u8>, sib: Seq<u8>, pos: nat) -> Seq<u8> {
    if pos % 2 == 1 {
        pair_hash(sib, cur)
    } else {
        pair_hash(cur, sib)
    }
}

/// Hash obtained by folding `proof[t..]` into `cur`, starting at position `pos`.
pub open spec fn fold_path(cur: Seq<u8>, proof: Seq<Seq<u8>>, pos: nat, t: nat) -> Seq<u8>
    decreases proof.len() - t,
{
    if t >= proof.len() {
        cur
    } else {
        fold_path(combine(cur, proof[t as int], pos), proof, pos / 2, t + 1)
    }
}

/// The flat node array holds, at every level, the value the leaves give.
pub open spec fn nodes_match(depth: nat, nodes: Seq<[u8; 32]>, leaves: Seq<Seq<u8>>) -> bool {
    forall|l: nat, j: nat|
        l <= depth && j < pow2(l) ==> (#[trigger] nodes[node_index(l, j)])@ == node_at(
            depth,
            leaves,
            l,
            j,
        )
}

/// Views of a list of nodes.
pub open spec fn nodes_view(v: Seq<[u8; 32]>) -> Seq<Seq<u8>> {
    v.map_values(|a: [u8; 32]| a@)
}

proof fn lemma_pow2_zero()
    ensures
        pow2(0) == 1,
{
    lemma2_to64();
}

/// Halving a quotient by a power of two.
proof fn lemma_halve(x: nat, t: nat)
    ensures
        (x / pow2(t)) / 2 == x / pow2(t + 1),
        pow2(t + 1) == 2 * pow2(t),
{
    lemma_pow2_pos(t);
    lemma_pow2_unfold(t + 1);
    lemma_div_denominator(x as int, pow2(t) as int, 2);
}

/// `x < a * b` gives `x / b < a`, and `(x / b) * b <= x`.
proof fn lemma_div_bounds(x: nat, a: nat, b: nat)
    requires
        b > 0,
    ensures
        x < a * b ==> x / b < a,
        (x / b) * b <= x,
{
    lemma_fundamental_div_mod(x as int, b as int);
    assert((x / b) * b <= x) by (nonlinear_arith)
        requires
            x == b * (x / b) + x % b,
            x % b >= 0,
    ;
    if x < a * b && x / b >= a {
        assert((x / b) * b >= a * b) by (nonlinear_arith)
            requires
                x / b >= a,
                b > 0,
        ;
    }
}

/// Flat indices of the nodes of one level lie between those of the levels
/// above and below.
proof fn lemma_node_index_bounds(l: nat, j: nat)
    requires
        j < pow2(l),
    ensures
        pow2(l) - 1 <= node_index(l, j) < pow2(l + 1) - 1,
{
    lemma_pow2_unfold(l + 1);
}

/// Distinct nodes have distinct flat indices.
proof fn lemma_node_index_injective(l1: nat, j1: nat, l2: nat, j2: nat)
    requires
        j1 < pow2(l1),
        j2 < pow2(l2),
        node_index(l1, j1) == node_index(l2, j2),
    ensures
        l1 == l2,
        j1 == j2,
{
    lemma_node_index_bounds(l1, j1);
    lemma_node_index_bounds(l2, j2);
    if l1 < l2 {
        if l1 + 1 < l2 {
            lemma_pow2_strictly_increases(l1 + 1, l2);
        }
    } else if l2 < l1 {
        if l2 + 1 < l1 {
            lemma_pow2_strictly_increases(l2 + 1, l1);
        }
    }
}

/// Appending a leaf changes no node off the path from the new leaf to the root.
proof fn lemma_node_at_frame(depth: nat, leaves: Seq<Seq<u8>>, x: Seq<u8>, l: nat, j: nat)
    requires
        l <= depth,
        j != leaves.len() / pow2((depth - l) as nat),
    ensures
        node_at(depth, leaves.push(x), l, j) == node_at(depth, leaves, l, j),
    decreases depth - l,
{
    let n = leaves.len();
    let e = (depth - l) as nat;
    lemma_pow2_pos(e);
    if l >= depth {
        lemma_pow2_zero();
        assert(j != n);
    } else {
        let p = pow2(e);
        if j * p == n {
            lemma_div_multiples_vanish(j as int, p as int);
            assert(n / p == j) by (nonlinear_arith)
                requires
                    j * p == n,
                    (p * j) / p == j,
            ;
        }
        assert(j * p != n);
        let e1 = (depth - (l + 1)) as nat;
        lemma_halve(n, e1);
        assert(e1 + 1 == e);
        assert(2 * j != n / pow2(e1));
        assert(2 * j + 1 != n / pow2(e1));
        lemma_node_at_frame(depth, leaves, x, l + 1, 2 * j);
        lemma_node_at_frame(depth, leaves, x, l + 1, 2 * j + 1);
    }
}

/// Writes the leaf at slot `n` and recomputes its ancestors, from the leaf
/// level up to the root.
fn update_path(
    nodes: &mut Vec<[u8; 32]>,
    depth: usize,
    width: usize,
    n: usize,
    leaf: &[u8; 32],
    Ghost(leaves): Ghost<Seq<Seq<u8>>>,
)
    requires
        depth <= MAX_TREE_DEPTH,
        width == pow2(depth as nat),
        old(nodes)@.len() == pow2(depth as nat + 1) - 1,
        n == leaves.len(),
        n < width,
        nodes_match(depth as nat, old(nodes)@, leaves),
    ensures
        final(nodes)@.len() == old(nodes)@.len(),
        nodes_match(depth as nat, final(nodes)@, leaves.push(leaf@)),
{
    let ghost d = depth as nat;
    let ghost new_leaves = leaves.push(leaf@);
    let total = nodes.len();
    proof {
        lemma_pow2_zero();
        lemma_node_index_bounds(d, n as nat);
    }
    let ghost before = nodes@;
    nodes.set(width - 1 + n, *leaf);
    proof {
        assert((n as nat) / pow2(0) == n) by {
            lemma_div_basics(n as int);
        }
        assert forall|l: nat, j: nat|
            l <= d && j < pow2(l) && (l >= d || j != (n as nat) / pow2((d - l) as nat)) implies (
        #[trigger] nodes@[node_index(l, j)])@ == node_at(d, new_leaves, l, j) by {
            if l == d && j == n {
            } else {
                lemma_node_index_bounds(l, j);
                if l < d {
                    lemma_pow2_strictly_increases(l + 1, d + 1);
                }
                if node_index(l, j) == node_index(d, n as nat) {
                    lemma_node_index_injective(l, j, d, n as nat);
                }
                assert(before[node_index(l, j)]@ == node_at(d, leaves, l, j));
                lemma_node_at_frame(d, leaves, leaf@, l, j);
            }
        }
    }
    let mut level: usize = depth;
    let mut w: usize = width;
    let mut pos: usize = n;
    while level > 0
        invariant
            level <= depth <= MAX_TREE_DEPTH,
            d == depth,
            w == pow2(level as nat),
            pos == (n as nat) / pow2((d - level) as nat),
            pos < w,
            nodes@.len() == pow2(d + 1) - 1,
            total == nodes@.len(),
            new_leaves == leaves.push(leaf@),
            n == leaves.len(),
            forall|l: nat, j: nat|
                l <= d && j < pow2(l) && (l >= level || j != (n as nat) / pow2((d - l) as nat))
                    ==> (#[trigger] nodes@[node_index(l, j)])@ == node_at(d, new_leaves, l, j),
        decreases level,
    {
        let ghost lv = level as nat;
        let parent = pos / 2;
        proof {
            lemma_pow2_unfold(lv);
            lemma_halve(n as nat, (d - lv) as nat);
            assert((d - lv) as nat + 1 == (d - (lv - 1)) as nat);
            lemma_pow2_pos((d - (lv - 1)) as nat);
            lemma_div_bounds(n as nat, parent as nat, pow2((d - (lv - 1)) as nat));
            assert(2 * parent + 1 < pow2(lv));
            lemma_node_index_bounds(lv, 2 * parent as nat);
            lemma_node_index_bounds(lv, 2 * parent as nat + 1);
            if lv < d {
                lemma_pow2_strictly_increases(lv + 1, d + 1);
            }
        }
        let left = w - 1 + 2 * parent;
        let h = hash_pair(&nodes[left], &nodes[left + 1]);
        let half = w / 2;
        proof {
            assert(nodes@[node_index(lv, 2 * parent as nat)]@ == node_at(d, new_leaves, lv, 2 * parent as nat));
            assert(nodes@[node_index(lv, 2 * parent as nat + 1)]@ == node_at(d, new_leaves, lv, 2 * parent as nat + 1));
            lemma_node_index_bounds((lv - 1) as nat, parent as nat);
        }
        let ghost before = nodes@;
        nodes.set(half - 1 + parent, h);
        proof {
            let pl = (lv - 1) as nat;
            assert(h@ == node_at(d, new_leaves, pl, parent as nat));
            assert forall|l: nat, j: nat|
                l <= d && j < pow2(l) && (l >= pl || j != (n as nat) / pow2((d - l) as nat)) implies (
            #[trigger] nodes@[node_index(l, j)])@ == node_at(d, new_leaves, l, j) by {
                if l == pl && j == parent {
                } else {
                    lemma_node_index_bounds(l, j);
                    if l < d {
                        lemma_pow2_strictly_increases(l + 1, d + 1);
                    }
                    if node_index(l, j) == node_index(pl, parent as nat) {
                        lemma_node_index_injective(l, j, pl, parent as nat);
                    }
                    assert(before[node_index(l, j)]@ == node_at(d, new_leaves, l, j));
                }
            }
        }
        level = level - 1;
        w = half;
        pos = parent;
    }
}

/// `2^e`, or `None` where it does not fit a `usize`.
fn checked_pow2(e: usize) -> (r: Option<usize>)
    ensures
        match r {
            Some(v) => v == pow2(e as nat),
            None => pow2(e as nat) > usize::MAX,
        },
{
    let mut v: usize = 1;
    let mut i: usize = 0;
    proof {
        lemma_pow2_zero();
    }
    while i < e
        invariant
            i <= e,
            v == pow2(i as nat),
        decreases e - i,
    {
        proof {
            lemma_pow2_unfold(i as nat + 1);
        }
        if v > usize::MAX / 2 {
            proof {
                if i + 1 < e {
                    lemma_pow2_strictly_increases(i as nat + 1, e as nat);
                }
            }
            return None;
        }
        v = v * 2;
        i = i + 1;
    }
    Some(v)
}

/// Whether two nodes hold the same bytes.
fn same_node(a: &[u8; 32], b: &[u8; 32]) -> (r: bool)
    ensures
        r == (a@ == b@),
{
    let mut i: usize = 0;
    while i < 32
        invariant
            i <= 32,
            forall|k: int| 0 <= k < i ==> a@[k] == b@[k],
        decreases 32 - i,
    {
        if a[i] != b[i] {
            return false;
        }
        i = i + 1;
    }
    assert(a@ =~= b@);
    true
}

/// Creation-time settings and lifecycle flags of a tree.
#[derive(Clone, Copy, Debug)]
pub struct TreeMetadata {
    pub creation_time: i64,
    pub last_modified: i64,
    pub authority: Pubkey,
    pub is_finalized: bool,
    pub max_leaf_size: u32,
    pub compression_enabled: bool,
    pub version: u8,
}

/// Scheduling class of a batch. It is recorded as metadata only: batches
/// are always processed in the order they were created.
#[derive(Clone, Copy, Debug, PartialEq, Eq, Structural)]
pub enum BatchType {
    Standard,
    Priority,
    Rollover,
}

/// Lifecycle of a batch: `Pending`, then `Processing`, then `Completed`
/// (or left in `Processing` when the tree filled up midway).
#[derive(Clone, Copy, Debug, PartialEq, Eq, Structural)]
pub enum BatchStatus {
    Pending,
    Processing,
    Completed,
    Failed,
}

/// Who submitted a batch, and how it was classed.
#[derive(Clone, Copy, Debug)]
pub struct BatchMetadata {
    pub timestamp: i64,
    pub processor: Pubkey,
    pub priority: u8,
    pub batch_type: BatchType,
}

/// An ordered group of leaves scheduled as one unit.
#[derive(Debug)]
pub struct BatchOperation {
    pub sequence_number: u64,
    pub leaves: Vec<[u8; 32]>,
    pub metadata: BatchMetadata,
    pub status: BatchStatus,
}

/// Numeric priority recorded for each batch type.
pub open spec fn priority_of(t: BatchType) -> u8 {
    match t {
        BatchType::Standard => 0,
        BatchType::Priority => 1,
        BatchType::Rollover => 2,
    }
}

/// A Merkle tree of fixed depth over an append-only list of 32-byte leaves,
/// with a FIFO queue of pending batches and an archive of processed ones.
pub struct MerkleTree {
    pub root: [u8; 32],
    pub leaf_count: u64,
    nodes: Vec<[u8; 32]>,
    depth: usize,
    metadata: TreeMetadata,
    pending_batches: Vec<BatchOperation>,
    processed_batches: Vec<BatchOperation>,
    leaves: Ghost<Seq<Seq<u8>>>,
}

impl MerkleTree {
    /// Depth of the tree.
    pub closed spec fn spec_depth(&self) -> nat {
        self.depth as nat
    }

    /// Leaves written so far, in order.
    pub closed spec fn spec_leaves(&self) -> Seq<Seq<u8>> {
        self.leaves@
    }

    /// Batches waiting, head first.
    pub closed spec fn spec_pending(&self) -> Seq<BatchOperation> {
        self.pending_batches@
    }

    /// Batches taken from the queue, in the order they were taken.
    pub closed spec fn spec_processed(&self) -> Seq<BatchOperation> {
        self.processed_batches@
    }

    /// The stored root.
    pub closed spec fn spec_root(&self) -> Seq<u8> {
        self.root@
    }

    /// The stored leaf count.
    pub closed spec fn spec_leaf_count(&self) -> u64 {
        self.leaf_count
    }

    pub closed spec fn spec_metadata(&self) -> TreeMetadata {
        self.metadata
    }

    /// Number of leaves the tree can hold.
    pub open spec fn capacity(&self) -> nat {
        pow2(self.spec_depth())
    }

    /// Every batch ever created, oldest first.
    pub open spec fn all_batches(&self) -> Seq<BatchOperation> {
        self.spec_processed() + self.spec_pending()
    }

    /// Status of the batch with the given sequence number, if there is one.
    pub open spec fn status_of(&self, seq: u64) -> Option<BatchStatus> {
        if exists|k: int| 0 <= k < self.spec_processed().len() && self.spec_processed()[k].sequence_number == seq {
            let k = choose|k: int| 0 <= k < self.spec_processed().len() && self.spec_processed()[k].sequence_number == seq;
            Some(self.spec_processed()[k].status)
        } else if exists|k: int| 0 <= k < self.spec_pending().len() && self.spec_pending()[k].sequence_number == seq {
            let k = choose|k: int| 0 <= k < self.spec_pending().len() && self.spec_pending()[k].sequence_number == seq;
            Some(self.spec_pending()[k].status)
        } else {
            None
        }
    }

    /// Authentication path of leaf `index` in the current tree.
    pub open spec fn proof_of(&self, index: nat) -> Seq<Seq<u8>> {
        proof_for(self.spec_depth(), self.spec_leaves(), index)
    }

    /// What `verify` answers: the proof has one entry per level, the index
    /// is a written leaf, and folding the proof into the leaf gives the root.
    pub open spec fn accepts(&self, leaf: Seq<u8>, proof: Seq<Seq<u8>>, index: nat) -> bool {
        &&& proof.len() == self.spec_depth()
        &&& index < self.spec_leaves().len()
        &&& fold_path(leaf, proof, index, 0) == self.spec_root()
    }

    /// Internal consistency: the node array and the root reflect exactly the
    /// leaves written so far, and batch sequence numbers count up from one.
    pub closed spec fn wf(&self) -> bool {
        &&& self.depth <= MAX_TREE_DEPTH
        &&& self.nodes@.len() == pow2(self.depth as nat + 1) - 1
        &&& self.leaves@.len() == self.leaf_count
        &&& self.leaf_count <= pow2(self.depth as nat)
        &&& nodes_match(self.depth as nat, self.nodes@, self.leaves@)
        &&& self.root@ == merkle_root(self.depth as nat, self.leaves@)
        &&& forall|k: int|
            0 <= k < self.all_batches().len() ==> (#[trigger] self.all_batches()[k]).sequence_number
                == k + 1
        &&& forall|k: int|
            0 <= k < self.pending_batches@.len() ==> (#[trigger] self.pending_batches@[k]).status
                == BatchStatus::Pending
        &&& forall|k: int|
            0 <= k < self.processed_batches@.len() ==> (#[trigger] self.processed_batches@[k]).status
                != BatchStatus::Pending
    }

    /// Creates an empty tree of the given depth. Depths above
    /// `MAX_TREE_DEPTH` are refused with `InvalidArgument`; a node array too
    /// large for this machine's address space with `CapacityExceeded`.
    pub fn new(depth: usize, authority: Pubkey, max_leaf_size: u32, compression_enabled: bool) -> (r:
        Result<MerkleTree, CoreError>)
        ensures
            depth > MAX_TREE_DEPTH ==> r == Err::<MerkleTree, CoreError>(CoreError::InvalidArgument),
            depth <= MAX_TREE_DEPTH && pow2(depth as nat + 1) - 1 <= usize::MAX ==> r is Ok,
            depth <= MAX_TREE_DEPTH && pow2(depth as nat + 1) - 1 > usize::MAX ==> r == Err::<
                MerkleTree,
                CoreError,
            >(CoreError::CapacityExceeded),
            match r {
                Ok(t) => {
                    &&& t.wf()
                    &&& t.spec_depth() == depth
                    &&& t.spec_leaves() == Seq::<Seq<u8>>::empty()
                    &&& t.spec_pending().len() == 0
                    &&& t.spec_processed().len() == 0
                    &&& t.spec_metadata() == (TreeMetadata {
                        creation_time: 0,
                        last_modified: 0,
                        authority,
                        is_finalized: false,
                        max_leaf_size,
                        compression_enabled,
                        version: 1,
                    })
                },
                Err(_) => true,
            },
    {
        if depth > MAX_TREE_DEPTH {
            return Err(CoreError::InvalidArgument);
        }
        let width = match checked_pow2(depth) {
            Some(w) => w,
            None => {
                proof {
                    lemma_pow2_unfold(depth as nat + 1);
                }
                return Err(CoreError::CapacityExceeded);
            },
        };
        proof {
            lemma_pow2_unfold(depth as nat + 1);
            lemma_pow2_pos(depth as nat);
        }
        if width - 1 > usize::MAX - width {
            return Err(CoreError::CapacityExceeded);
        }
        let total = width + (width - 1);
        let zero = [0u8; 32];
        assert(zero@ =~= empty_node());
        let mut nodes: Vec<[u8; 32]> = Vec::new();
        while nodes.len() < total
            invariant
                nodes@.len() <= total,
                zero@ == empty_node(),
                forall|k: int| 0 <= k < nodes@.len() ==> (#[trigger] nodes@[k])@ == empty_node(),
            decreases total - nodes@.len(),
        {
            nodes.push(zero);
        }
        let ghost leaves = Seq::<Seq<u8>>::empty();
        proof {
            assert forall|l: nat, j: nat| l <= depth && j < pow2(l) implies (
            #[trigger] nodes@[node_index(l, j)])@ == node_at(depth as nat, leaves, l, j) by {
                lemma_node_index_bounds(l, j);
                if l < depth {
                    lemma_pow2_strictly_increases(l + 1, depth as nat + 1);
                }
                lemma_pow2_pos((depth - l) as nat);
            }
            lemma_pow2_zero();
            assert(nodes@[node_index(0, 0)] == nodes@[0]);
        }
        let root = nodes[0];
        let metadata = TreeMetadata {
            creation_time: 0,
            last_modified: 0,
            authority,
            is_finalized: false,
            max_leaf_size,
            compression_enabled,
            version: 1,
        };
        let tree = MerkleTree {
            root,
            leaf_count: 0,
            nodes,
            depth,
            metadata,
            pending_batches: Vec::new(),
            processed_batches: Vec::new(),
            leaves: Ghost(leaves),
        };
        assert(tree.all_batches() =~= Seq::<BatchOperation>::empty());
        Ok(tree)
    }
}

impl MerkleTree {
    /// Appends a leaf at the next free slot and recomputes its path to the
    /// root. Refused with `CapacityExceeded`, changing nothing, when all
    /// `2^depth` slots are written. Returns the index of the new leaf.
    pub fn insert(&mut self, leaf: &[u8; 32]) -> (r: Result<u64, CoreError>)
        requires
            old(self).wf(),
        ensures
            final(self).wf(),
            old(self).spec_leaves().len() < old(self).capacity() ==> {
                &&& r == Ok::<u64, CoreError>(old(self).spec_leaves().len() as u64)
                &&& final(self).spec_leaves() == old(self).spec_leaves().push(leaf@)
            },
            old(self).spec_leaves().len() >= old(self).capacity() ==> {
                &&& r == Err::<u64, CoreError>(CoreError::CapacityExceeded)
                &&& *final(self) == *old(self)
            },
            final(self).spec_depth() == old(self).spec_depth(),
            final(self).spec_pending() == old(self).spec_pending(),
            final(self).spec_processed() == old(self).spec_processed(),
            final(self).spec_metadata() == old(self).spec_metadata(),
    {
        let total = self.nodes.len();
        proof {
            lemma_pow2_unfold(self.depth as nat + 1);
        }
        let width = match checked_pow2(self.depth) {
            Some(w) => w,
            None => {
                return Err(CoreError::CapacityExceeded);
            },
        };
        if self.leaf_count as usize >= width {
            return Err(CoreError::CapacityExceeded);
        }
        let n = self.leaf_count as usize;
        let ghost new_leaves = self.leaves@.push(leaf@);
        update_path(&mut self.nodes, self.depth, width, n, leaf, Ghost(self.leaves@));
        proof {
            lemma_pow2_zero();
            assert(self.nodes@[node_index(0, 0)] == self.nodes@[0]);
        }
        self.root = self.nodes[0];
        self.leaf_count = self.leaf_count + 1;
        self.leaves = Ghost(new_leaves);
        Ok(self.leaf_count - 1)
    }

    /// The sibling hashes on the path from leaf `index` to the root, leaf
    /// level first. Refused with `InvalidArgument` for a slot not yet written.
    pub fn get_proof(&self, index: u64) -> (r: Result<Vec<[u8; 32]>, CoreError>)
        requires
            self.wf(),
        ensures
            match r {
                Ok(p) => index < self.spec_leaves().len() && nodes_view(p@) == self.proof_of(index as nat),
                Err(e) => index >= self.spec_leaves().len() && e == CoreError::InvalidArgument,
            },
    {
        if index >= self.leaf_count {
            return Err(CoreError::InvalidArgument);
        }
        let total = self.nodes.len();
        proof {
            lemma_pow2_unfold(self.depth as nat + 1);
            lemma_pow2_zero();
        }
        let width = match checked_pow2(self.depth) {
            Some(w) => w,
            None => {
                return Err(CoreError::InvalidArgument);
            },
        };
        let ghost d = self.depth as nat;
        let ghost leaves = self.leaves@;
        let mut proof: Vec<[u8; 32]> = Vec::new();
        let mut level: usize = self.depth;
        let mut w: usize = width;
        let mut pos: usize = index as usize;
        proof {
            lemma_div_basics(index as int);
        }
        while level > 0
            invariant
                self.wf(),
                d == self.depth,
                leaves == self.leaves@,
                total == self.nodes@.len(),
                level <= d,
                w == pow2(level as nat),
                pos == (index as nat) / pow2((d - level) as nat),
                pos < w,
                proof@.len() == d - level,
                forall|t: int|
                    0 <= t < proof@.len() ==> (#[trigger] proof@[t])@ == node_at(
                        d,
                        leaves,
                        (d - t) as nat,
                        sibling((index as nat) / pow2(t as nat)),
                    ),
            decreases level,
        {
            let ghost lv = level as nat;
            proof {
                lemma_pow2_unfold(lv);
                lemma_halve(index as nat, (d - lv) as nat);
                assert((d - lv) as nat + 1 == (d - (lv - 1)) as nat);
            }
            let sib = if pos % 2 == 1 {
                pos - 1
            } else {
                pos + 1
            };
            proof {
                lemma_node_index_bounds(lv, sib as nat);
                if lv < d {
                    lemma_pow2_strictly_increases(lv + 1, d + 1);
                }
                assert(self.nodes@[node_index(lv, sib as nat)]@ == node_at(d, leaves, lv, sib as nat));
            }
            proof.push(self.nodes[w - 1 + sib]);
            pos = pos / 2;
            w = w / 2;
            level = level - 1;
        }
        assert(nodes_view(proof@) =~= self.proof_of(index as nat));
        Ok(proof)
    }

    /// Checks a membership proof against the stored root: false when the
    /// proof's length is not the depth or `index` is not a written leaf;
    /// otherwise the proof is folded into the leaf bottom-up and compared.
    pub fn verify(&self, leaf: &[u8; 32], proof: &[[u8; 32]], index: u64) -> (r: bool)
        requires
            self.wf(),
        ensures
            r == self.accepts(leaf@, nodes_view(proof@), index as nat),
    {
        if proof.len() != self.depth {
            return false;
        }
        if index >= self.leaf_count {
            return false;
        }
        let ghost pv = nodes_view(proof@);
        let mut cur: [u8; 32] = *leaf;
        let mut pos: u64 = index;
        let mut t: usize = 0;
        while t < proof.len()
            invariant
                t <= proof@.len(),
                pv == nodes_view(proof@),
                fold_path(leaf@, pv, index as nat, 0) == fold_path(cur@, pv, pos as nat, t as nat),
            decreases proof@.len() - t,
        {
            if pos % 2 == 1 {
                cur = hash_pair(&proof[t], &cur);
            } else {
                cur = hash_pair(&cur, &proof[t]);
            }
            pos = pos / 2;
            t = t + 1;
        }
        same_node(&cur, &self.root)
    }
}

impl MerkleTree {
    /// Sequence number the next batch gets: one more than the largest
    /// number archived or pending, or `None` once numbers are exhausted.
    fn get_next_sequence_number(&self) -> (r: Option<u64>)
        requires
            self.wf(),
        ensures
            r == (if self.all_batches().len() < u64::MAX {
                Some((self.all_batches().len() + 1) as u64)
            } else {
                None::<u64>
            }),
    {
        let np = self.processed_batches.len();
        let nq = self.pending_batches.len();
        let max_processed: u64 = if np > 0 {
            self.processed_batches[np - 1].sequence_number
        } else {
            0
        };
        let max_pending: u64 = if nq > 0 {
            self.pending_batches[nq - 1].sequence_number
        } else {
            0
        };
        proof {
            if np > 0 {
                assert(self.all_batches()[np - 1] == self.processed_batches@[np - 1]);
            }
            if nq > 0 {
                assert(self.all_batches()[np + nq - 1] == self.pending_batches@[nq - 1]);
            }
        }
        let max_seq = if max_processed > max_pending {
            max_processed
        } else {
            max_pending
        };
        if max_seq == u64::MAX {
            None
        } else {
            Some(max_seq + 1)
        }
    }

    /// Queues a batch at the tail, whatever its type, and returns its
    /// sequence number. Refused with `FrozenOrFinalized` on a finalized
    /// tree, and with `CapacityExceeded` for more than `MAX_BATCH_SIZE`
    /// leaves (or once sequence numbers run out).
    pub fn create_batch(&mut self, leaves: Vec<[u8; 32]>, processor: Pubkey, batch_type: BatchType) -> (r:
        Result<u64, CoreError>)
        requires
            old(self).wf(),
        ensures
            final(self).wf(),
            final(self).spec_depth() == old(self).spec_depth(),
            final(self).spec_leaves() == old(self).spec_leaves(),
            final(self).spec_processed() == old(self).spec_processed(),
            final(self).spec_metadata() == old(self).spec_metadata(),
            old(self).spec_metadata().is_finalized ==> r == Err::<u64, CoreError>(
                CoreError::FrozenOrFinalized,
            ),
            !old(self).spec_metadata().is_finalized && leaves@.len() > MAX_BATCH_SIZE ==> r == Err::<
                u64,
                CoreError,
            >(CoreError::CapacityExceeded),
            !old(self).spec_metadata().is_finalized && leaves@.len() <= MAX_BATCH_SIZE
                && old(self).all_batches().len() >= u64::MAX ==> r == Err::<u64, CoreError>(
                CoreError::CapacityExceeded,
            ),
            r is Err ==> final(self).spec_pending() == old(self).spec_pending(),
            !old(self).spec_metadata().is_finalized && leaves@.len() <= MAX_BATCH_SIZE
                && old(self).all_batches().len() < u64::MAX ==> {
                let seq = (old(self).all_batches().len() + 1) as u64;
                &&& r == Ok::<u64, CoreError>(seq)
                &&& final(self).spec_pending() == old(self).spec_pending().push(
                    BatchOperation {
                        sequence_number: seq,
                        leaves,
                        metadata: BatchMetadata {
                            timestamp: 0,
                            processor,
                            priority: priority_of(batch_type),
                            batch_type,
                        },
                        status: BatchStatus::Pending,
                    },
                )
            },
    {
        if self.metadata.is_finalized {
            return Err(CoreError::FrozenOrFinalized);
        }
        if leaves.len() > MAX_BATCH_SIZE {
            return Err(CoreError::CapacityExceeded);
        }
        let sequence_number = match self.get_next_sequence_number() {
            Some(n) => n,
            None => {
                return Err(CoreError::CapacityExceeded);
            },
        };
        let priority: u8 = match batch_type {
            BatchType::Priority => 1,
            BatchType::Rollover => 2,
            BatchType::Standard => 0,
        };
        let batch = BatchOperation {
            sequence_number,
            leaves,
            metadata: BatchMetadata { timestamp: 0, processor, priority, batch_type },
            status: BatchStatus::Pending,
        };
        let ghost old_all = self.all_batches();
        self.pending_batches.push(batch);
        assert(self.all_batches() =~= old_all.push(batch));
        Ok(sequence_number)
    }

    /// Takes the batch at the head of the queue and writes its leaves in
    /// order. The batch is archived as `Processing` before the first leaf
    /// and marked `Completed` after the last. When the tree fills up midway
    /// the leaves written so far stay, the batch stays `Processing`, and
    /// `CapacityExceeded` is returned. `Ok(None)` when nothing is queued.
    pub fn process_next_batch(&mut self) -> (r: Result<Option<u64>, CoreError>)
        requires
            old(self).wf(),
        ensures
            final(self).wf(),
            final(self).spec_depth() == old(self).spec_depth(),
            final(self).spec_metadata() == old(self).spec_metadata(),
            old(self).spec_pending().len() == 0 ==> {
                &&& r == Ok::<Option<u64>, CoreError>(None)
                &&& *final(self) == *old(self)
            },
            old(self).spec_pending().len() > 0 ==> {
                let b = old(self).spec_pending()[0];
                let room = old(self).capacity() - old(self).spec_leaves().len();
                let fits = b.leaves@.len() <= room;
                &&& final(self).spec_pending() == old(self).spec_pending().drop_first()
                &&& fits ==> {
                    &&& r == Ok::<Option<u64>, CoreError>(Some(b.sequence_number))
                    &&& final(self).spec_leaves() == old(self).spec_leaves() + nodes_view(b.leaves@)
                    &&& final(self).spec_processed() == old(self).spec_processed().push(
                        BatchOperation {
                            sequence_number: b.sequence_number,
                            leaves: b.leaves,
                            metadata: b.metadata,
                            status: BatchStatus::Completed,
                        },
                    )
                }
                &&& !fits ==> {
                    &&& r == Err::<Option<u64>, CoreError>(CoreError::CapacityExceeded)
                    &&& final(self).spec_leaves() == old(self).spec_leaves() + nodes_view(
                        b.leaves@,
                    ).take(room)
                    &&& final(self).spec_processed() == old(self).spec_processed().push(
                        BatchOperation {
                            sequence_number: b.sequence_number,
                            leaves: b.leaves,
                            metadata: b.metadata,
                            status: BatchStatus::Processing,
                        },
                    )
                }
            },
    {
        if self.pending_batches.len() == 0 {
            return Ok(None);
        }
        let ghost old_all = self.all_batches();
        let ghost start = self.leaves@;
        let ghost room = self.capacity() - self.leaves@.len();
        let head = self.pending_batches.remove(0);
        let sequence_number = head.sequence_number;
        let batch = BatchOperation {
            sequence_number: head.sequence_number,
            leaves: head.leaves,
            metadata: head.metadata,
            status: BatchStatus::Processing,
        };
        let ghost archived = batch;
        let ghost np = self.processed_batches@.len();
        self.processed_batches.push(batch);
        proof {
            assert(self.pending_batches@ =~= old(self).pending_batches@.drop_first());
            assert(self.all_batches() =~= old_all.update(np as int, archived));
            assert forall|j: int| 0 <= j < self.all_batches().len() implies (
            #[trigger] self.all_batches()[j]).sequence_number == j + 1 by {
                assert(old_all[j].sequence_number == j + 1);
            }
            assert forall|j: int| 0 <= j < self.pending_batches@.len() implies (
            #[trigger] self.pending_batches@[j]).status == BatchStatus::Pending by {
                assert(old(self).pending_batches@[j + 1].status == BatchStatus::Pending);
            }
        }
        let k = self.processed_batches.len() - 1;
        let count = self.processed_batches[k].leaves.len();
        let mut i: usize = 0;
        while i < count
            invariant
                self.wf(),
                k + 1 == self.processed_batches@.len(),
                self.processed_batches@[k as int] == archived,
                count == archived.leaves@.len(),
                i <= count,
                i <= room,
                room == self.capacity() - start.len(),
                self.leaves@ == start + nodes_view(archived.leaves@).take(i as int),
                self.spec_depth() == old(self).spec_depth(),
                self.spec_metadata() == old(self).spec_metadata(),
                self.spec_pending() == old(self).spec_pending().drop_first(),
                self.spec_processed() == old(self).spec_processed().push(archived),
                old(self).spec_pending().len() > 0,
                archived.sequence_number == old(self).spec_pending()[0].sequence_number,
                archived.leaves == old(self).spec_pending()[0].leaves,
                archived.metadata == old(self).spec_pending()[0].metadata,
                archived.status == BatchStatus::Processing,
                start == old(self).spec_leaves(),
                room == old(self).capacity() - old(self).spec_leaves().len(),
            decreases count - i,
        {
            let leaf = self.processed_batches[k].leaves[i];
            let ghost before = self.leaves@;
            match self.insert(&leaf) {
                Ok(_) => {},
                Err(e) => {
                    assert(i == room);
                    return Err(e);
                },
            }
            assert(self.leaves@ =~= start + nodes_view(archived.leaves@).take(i + 1));
            i = i + 1;
        }
        assert(nodes_view(archived.leaves@).take(count as int) =~= nodes_view(archived.leaves@));
        let ghost before_pop = self.all_batches();
        let last = self.processed_batches.pop();
        match last {
            Some(b) => {
                let done = BatchOperation {
                    sequence_number: b.sequence_number,
                    leaves: b.leaves,
                    metadata: b.metadata,
                    status: BatchStatus::Completed,
                };
                self.processed_batches.push(done);
                proof {
                    assert(self.all_batches() =~= before_pop.update(k as int, done));
                    assert forall|j: int| 0 <= j < self.all_batches().len() implies (
                    #[trigger] self.all_batches()[j]).sequence_number == j + 1 by {
                        assert(before_pop[j].sequence_number == j + 1);
                    }
                    assert forall|j: int| 0 <= j < self.processed_batches@.len() implies (
                    #[trigger] self.processed_batches@[j]).status != BatchStatus::Pending by {
                        if j < k {
                            assert(before_pop[j] == self.processed_batches@[j]);
                        }
                    }
                }
            },
            None => {},
        }
        Ok(Some(sequence_number))
    }

    /// Status of the batch with the given sequence number: the archive is
    /// searched first, then the queue; `None` when no batch has that number.
    pub fn get_batch_status(&self, sequence_number: u64) -> (r: Option<BatchStatus>)
        requires
            self.wf(),
        ensures
            r == self.status_of(sequence_number),
    {
        let mut i: usize = 0;
        while i < self.processed_batches.len()
            invariant
                self.wf(),
                i <= self.processed_batches@.len(),
                forall|j: int| 0 <= j < i ==> (#[trigger] self.processed_batches@[j]).sequence_number != sequence_number,
            decreases self.processed_batches@.len() - i,
        {
            if self.processed_batches[i].sequence_number == sequence_number {
                proof {
                    let np = self.processed_batches@.len();
                    assert(self.all_batches()[i as int] == self.processed_batches@[i as int]);
                    assert forall|j: int| 0 <= j < np && self.processed_batches@[j].sequence_number == sequence_number implies j == i by {
                        assert(self.all_batches()[j] == self.processed_batches@[j]);
                    }
                }
                return Some(self.processed_batches[i].status);
            }
            i = i + 1;
        }
        let mut q: usize = 0;
        while q < self.pending_batches.len()
            invariant
                self.wf(),
                forall|j: int|
                    0 <= j < self.processed_batches@.len() ==> (#[trigger] self.processed_batches@[j]).sequence_number
                        != sequence_number,
                q <= self.pending_batches@.len(),
                forall|j: int| 0 <= j < q ==> (#[trigger] self.pending_batches@[j]).sequence_number != sequence_number,
            decreases self.pending_batches@.len() - q,
        {
            if self.pending_batches[q].sequence_number == sequence_number {
                proof {
                    let np = self.processed_batches@.len();
                    let nq = self.pending_batches@.len();
                    assert(self.all_batches()[np + q] == self.pending_batches@[q as int]);
                    assert forall|j: int| 0 <= j < nq && self.pending_batches@[j].sequence_number == sequence_number implies j == q by {
                        assert(self.all_batches()[np + j] == self.pending_batches@[j]);
                    }
                }
                return Some(self.pending_batches[q].status);
            }
            q = q + 1;
        }
        None
    }

    /// Marks the tree closed to new batches. Refused with `InvalidArgument`,
    /// changing nothing, while any batch is still queued.
    pub fn finalize(&mut self) -> (r: Result<(), CoreError>)
        requires
            old(self).wf(),
        ensures
            final(self).wf(),
            old(self).spec_pending().len() > 0 ==> {
                &&& r == Err::<(), CoreError>(CoreError::InvalidArgument)
                &&& *final(self) == *old(self)
            },
            old(self).spec_pending().len() == 0 ==> {
                &&& r == Ok::<(), CoreError>(())
                &&& final(self).spec_metadata() == (TreeMetadata {
                    is_finalized: true,
                    ..old(self).spec_metadata()
                })
                &&& final(self).spec_depth() == old(self).spec_depth()
                &&& final(self).spec_leaves() == old(self).spec_leaves()
                &&& final(self).spec_pending() == old(self).spec_pending()
                &&& final(self).spec_processed() == old(self).spec_processed()
            },
    {
        if self.pending_batches.len() != 0 {
            return Err(CoreError::InvalidArgument);
        }
        self.metadata.is_finalized = true;
        Ok(())
    }

    /// Depth the tree was created with.
    pub fn depth(&self) -> (r: usize)
        ensures
            r == self.spec_depth(),
    {
        self.depth
    }

    /// Creation settings and lifecycle flags.
    pub fn metadata(&self) -> (r: &TreeMetadata)
        ensures
            *r == self.spec_metadata(),
    {
        &self.metadata
    }

    /// Batches still queued, head first.
    pub fn pending_batches(&self) -> (r: &Vec<BatchOperation>)
        ensures
            r@ == self.spec_pending(),
    {
        &self.pending_batches
    }

    /// Batches taken from the queue, in the order they were taken.
    pub fn processed_batches(&self) -> (r: &Vec<BatchOperation>)
        ensures
            r@ == self.spec_processed(),
    {
        &self.processed_batches
    }
}

/// Folding the authentication path of a written leaf, from the node at
/// level `depth - t` on its path, reaches the root.
proof fn lemma_path_reaches_root(depth: nat, leaves: Seq<Seq<u8>>, i: nat, t: nat)
    requires
        i < leaves.len(),
        leaves.len() <= pow2(depth),
        t <= depth,
    ensures
        fold_path(
            node_at(depth, leaves, (depth - t) as nat, i / pow2(t)),
            proof_for(depth, leaves, i),
            i / pow2(t),
            t,
        ) == merkle_root(depth, leaves),
    decreases depth - t,
{
    let pf = proof_for(depth, leaves, i);
    lemma_pow2_pos(t);
    if t == depth {
        lemma_div_bounds(i, 1, pow2(t));
        assert(i / pow2(t) == 0);
    } else {
        let p = i / pow2(t);
        let l = (depth - t) as nat;
        let parent = p / 2;
        lemma_halve(i, t);
        lemma_pow2_pos(t + 1);
        lemma_div_bounds(i, parent, pow2(t + 1));
        assert((depth - (l - 1)) as nat == t + 1);
        assert(node_at(depth, leaves, (l - 1) as nat, parent) == pair_hash(
            node_at(depth, leaves, l, 2 * parent),
            node_at(depth, leaves, l, 2 * parent + 1),
        ));
        assert(pf[t as int] == node_at(depth, leaves, l, sibling(p)));
        assert(combine(node_at(depth, leaves, l, p), pf[t as int], p) == node_at(
            depth,
            leaves,
            (l - 1) as nat,
            parent,
        ));
        lemma_path_reaches_root(depth, leaves, i, t + 1);
        assert((depth - (t + 1)) as nat == (l - 1) as nat);
    }
}

/// A written leaf, together with the path `get_proof` returns for it, is
/// accepted by `verify`. This holds in every well-formed state, so a proof
/// fetched after later insertions verifies as well.
pub proof fn lemma_written_leaf_verifies(tree: &MerkleTree, i: nat)
    requires
        tree.wf(),
        i < tree.spec_leaves().len(),
    ensures
        tree.accepts(tree.spec_leaves()[i as int], tree.proof_of(i), i),
{
    lemma_path_reaches_root(tree.spec_depth(), tree.spec_leaves(), i, 0);
    lemma_pow2_zero();
    lemma_div_basics(i as int);
}

/// The tree's invariant as callers see it: the leaf count is the number of
/// leaves written, at most `2^depth`, and the stored root is the Merkle root
/// of exactly those leaves.
pub proof fn lemma_tree_invariant(tree: &MerkleTree)
    requires
        tree.wf(),
    ensures
        tree.spec_leaf_count() == tree.spec_leaves().len(),
        tree.spec_leaves().len() <= tree.capacity(),
        tree.spec_depth() <= MAX_TREE_DEPTH,
        tree.spec_root() == merkle_root(tree.spec_depth(), tree.spec_leaves()),
{
}

/// `verify` refuses any proof whose length differs from the depth, and any
/// index at or past the number of written leaves.
pub proof fn lemma_verify_rejects_malformed(
    tree: &MerkleTree,
    leaf: Seq<u8>,
    proof: Seq<Seq<u8>>,
    index: nat,
)
    requires
        tree.wf(),
        proof.len() != tree.spec_depth() || index >= tree.spec_leaves().len(),
    ensures
        !tree.accepts(leaf, proof, index),
{
}

/// Appending leaves never disturbs earlier ones: after an accepted insert
/// the earlier leaves keep their slots, so their paths verify against the
/// new root.
pub proof fn lemma_insert_keeps_earlier_leaves(before: &MerkleTree, after: &MerkleTree, leaf: Seq<u8>, i: nat)
    requires
        before.wf(),
        after.wf(),
        after.spec_depth() == before.spec_depth(),
        after.spec_leaves() == before.spec_leaves().push(leaf),
        i < before.spec_leaves().len(),
    ensures
        after.spec_leaves()[i as int] == before.spec_leaves()[i as int],
        after.accepts(before.spec_leaves()[i as int], after.proof_of(i), i),
{
    lemma_written_leaf_verifies(after, i);
}

} // verus!
