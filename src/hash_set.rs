//! Bucketed membership set of 32-byte items with incremental rollover.
//!
//! Items live in `ceil(capacity / BUCKET_SIZE)` buckets chosen by
//! `calculate_hash`. When a bucket reaches `BUCKET_SIZE` items, the first
//! half of it is staged in a rollover buffer (one bucket at a time) and later
//! written back by `process_rollover`. The number of buckets never changes:
//! rollover bounds the work of a single call, it adds no capacity.
use crate::error::CoreError;
use crate::hash_functions::{bytes_hash, calculate_hash};
use crate::pubkey::Pubkey;
use vstd::prelude::*;

verus! {

/// Items a bucket holds before it triggers a rollover.
pub const BUCKET_SIZE: usize = 32;

/// Capacity used when none is given.
pub const DEFAULT_CAPACITY: usize = 1024;

/// Most items the rollover buffer can stage.
pub const MAX_ROLLOVER_ITEMS: usize = 100;

/// Number of buckets for a capacity: `ceil(capacity / BUCKET_SIZE)`.
pub open spec fn bucket_count_for(capacity: nat) -> nat {
    capacity / (BUCKET_SIZE as nat) + if capacity % (BUCKET_SIZE as nat) == 0 {
        0nat
    } else {
        1nat
    }
}

/// Bucket an item belongs to among `n` buckets.
pub open spec fn bucket_of(item: [u8; 32], n: nat) -> int {
    (bytes_hash(item@) as int) % (n as int)
}

/// A counter increased by one, stopping at its maximum.
pub open spec fn sat_inc_u64(x: u64) -> u64 {
    if x < u64::MAX {
        (x + 1) as u64
    } else {
        x
    }
}

pub open spec fn sat_inc_u32(x: u32) -> u32 {
    if x < u32::MAX {
        (x + 1) as u32
    } else {
        x
    }
}

/// A counter increased by `k`, stopping at its maximum.
pub open spec fn sat_add_u32(x: u32, k: nat) -> u32 {
    if x + k < u32::MAX {
        (x + k) as u32
    } else {
        u32::MAX
    }
}

/// A log entry of the given kind that names no item: all-zero item, bucket 0.
pub open spec fn marker_entry(op: Operation, kind: OperationType, ts: i64) -> bool {
    &&& op.op_type == kind
    &&& op.item@ == Seq::new(32, |i: int| 0u8)
    &&& op.timestamp == ts
    &&& op.bucket_index == 0
}

/// Whether two items hold the same bytes.
pub(crate) fn same_item(a: &[u8; 32], b: &[u8; 32]) -> (r: bool)
    ensures
        r == (*a == *b),
{
    let mut i: usize = 0;
    while i < 32
        invariant
            i <= 32,
            forall|k: int| 0 <= k < i ==> a@[k] == b@[k],
        decreases 32 - i,
    {
        if a[i] != b[i] {
            return false;
        }
        i = i + 1;
    }
    assert(*a =~= *b);
    true
}

/// Position of `item` in `items`, if it is there.
fn find_item(items: &Vec<[u8; 32]>, item: &[u8; 32]) -> (r: Option<usize>)
    ensures
        match r {
            Some(p) => p < items@.len() && items@[p as int] == *item,
            None => !items@.contains(*item),
        },
{
    let mut i: usize = 0;
    while i < items.len()
        invariant
            i <= items@.len(),
            forall|k: int| 0 <= k < i ==> items@[k] != *item,
        decreases items@.len() - i,
    {
        if same_item(&items[i], item) {
            return Some(i);
        }
        i = i + 1;
    }
    None
}

/// Lifecycle data of a set.
#[derive(Clone, Copy, Debug)]
pub struct StateMetadata {
    pub creation_time: i64,
    pub last_modified: i64,
    pub authority: Pubkey,
    pub is_frozen: bool,
    pub total_operations: u64,
    pub rollover_count: u32,
}

/// Kind of a logged operation.
#[derive(Clone, Copy, Debug, PartialEq, Eq, Structural)]
pub enum OperationType {
    Insert,
    Remove,
    Rollover,
    Checkpoint,
}

/// One entry of the operation log.
#[derive(Clone, Copy, Debug)]
pub struct Operation {
    pub op_type: OperationType,
    pub item: [u8; 32],
    pub timestamp: i64,
    pub bucket_index: usize,
}

/// Per-bucket figures reported by `get_bucket_stats`.
#[derive(Clone, Copy, Debug)]
pub struct BucketStats {
    pub bucket_index: usize,
    pub item_count: usize,
    pub operation_count: u32,
    pub last_modified: i64,
}

struct Bucket {
    items: Vec<[u8; 32]>,
    last_modified: i64,
    operation_count: u32,
}

struct RolloverBuffer {
    items: Vec<[u8; 32]>,
    source_buckets: Vec<usize>,
    is_active: bool,
}

struct OperationLog {
    operations: Vec<Operation>,
    last_checkpoint: u64,
}

/// Items held by all the buckets together.
spec fn total_items(bs: Seq<Bucket>) -> nat
    decreases bs.len(),
{
    if bs.len() == 0 {
        0
    } else {
        total_items(bs.drop_last()) + bs.last().items@.len()
    }
}

proof fn lemma_total_items_update(bs: Seq<Bucket>, i: int, b: Bucket)
    requires
        0 <= i < bs.len(),
    ensures
        total_items(bs.update(i, b)) + bs[i].items@.len() == total_items(bs) + b.items@.len(),
    decreases bs.len(),
{
    let u = bs.update(i, b);
    if i == bs.len() - 1 {
        assert(u.drop_last() =~= bs.drop_last());
    } else {
        assert(u.drop_last() =~= bs.drop_last().update(i, b));
        lemma_total_items_update(bs.drop_last(), i, b);
    }
}

proof fn lemma_bucket_within_total(bs: Seq<Bucket>, i: int)
    requires
        0 <= i < bs.len(),
    ensures
        bs[i].items@.len() <= total_items(bs),
    decreases bs.len(),
{
    if i < bs.len() - 1 {
        lemma_bucket_within_total(bs.drop_last(), i);
    }
}

/// Swap-with-last-then-pop keeps every other element, once.
proof fn lemma_swap_remove<T>(s: Seq<T>, pos: int)
    requires
        0 <= pos < s.len(),
        s.no_duplicates(),
    ensures
        ({
            let t = s.update(pos, s.last()).drop_last();
            &&& t.len() + 1 == s.len()
            &&& t.no_duplicates()
            &&& forall|k: int| 0 <= k < t.len() ==> #[trigger] t[k] == s[if k == pos { s.len() - 1 } else { k }]
            &&& forall|x: T| t.contains(x) <==> (s.contains(x) && x != s[pos])
        }),
{
    let t = s.update(pos, s.last()).drop_last();
    let last = s.len() - 1;
    assert forall|k: int| 0 <= k < t.len() implies #[trigger] t[k] == s[if k == pos { last } else { k }] by {
    }
    assert forall|i: int, j: int| 0 <= i < t.len() && 0 <= j < t.len() && i != j implies t[i] != t[j] by {
        let fi = if i == pos { last } else { i };
        let fj = if j == pos { last } else { j };
        assert(t[i] == s[fi]);
        assert(t[j] == s[fj]);
    }
    assert forall|x: T| t.contains(x) <==> (s.contains(x) && x != s[pos]) by {
        if t.contains(x) {
            let k = choose|k: int| 0 <= k < t.len() && t[k] == x;
            let fk = if k == pos { last } else { k };
            assert(t[k] == s[fk]);
        }
        if s.contains(x) && x != s[pos] {
            let j = choose|j: int| 0 <= j < s.len() && s[j] == x;
            if j < last {
                assert(t[j] == x);
            } else {
                assert(t[pos] == x);
            }
        }
    }
}

/// Removing at a position keeps every other element, once, in order.
proof fn lemma_remove_at<T>(s: Seq<T>, pos: int)
    requires
        0 <= pos < s.len(),
        s.no_duplicates(),
    ensures
        ({
            let t = s.remove(pos);
            &&& t.len() + 1 == s.len()
            &&& t.no_duplicates()
            &&& forall|k: int| 0 <= k < t.len() ==> #[trigger] t[k] == s[if k < pos { k } else { k + 1 }]
            &&& forall|x: T| t.contains(x) <==> (s.contains(x) && x != s[pos])
        }),
{
    let t = s.remove(pos);
    assert forall|k: int| 0 <= k < t.len() implies #[trigger] t[k] == s[if k < pos { k } else { k + 1 }] by {
    }
    assert forall|i: int, j: int| 0 <= i < t.len() && 0 <= j < t.len() && i != j implies t[i] != t[j] by {
        let fi = if i < pos { i } else { i + 1 };
        let fj = if j < pos { j } else { j + 1 };
        assert(t[i] == s[fi]);
        assert(t[j] == s[fj]);
    }
    assert forall|x: T| t.contains(x) <==> (s.contains(x) && x != s[pos]) by {
        if t.contains(x) {
            let k = choose|k: int| 0 <= k < t.len() && t[k] == x;
            let fk = if k < pos { k } else { k + 1 };
            assert(t[k] == s[fk]);
        }
        if s.contains(x) && x != s[pos] {
            let j = choose|j: int| 0 <= j < s.len() && s[j] == x;
            if j < pos {
                assert(t[j] == x);
            } else {
                assert(t[j - 1] == x);
            }
        }
    }
}

/// A set of 32-byte items held in a fixed number of buckets.
pub struct OnChainHashSet {
    buckets: Vec<Bucket>,
    item_count: usize,
    capacity: usize,
    metadata: StateMetadata,
    rollover_buffer: RolloverBuffer,
    operation_log: OperationLog,
}

impl OnChainHashSet {
    pub closed spec fn spec_bucket_count(&self) -> nat {
        self.buckets@.len()
    }

    /// Items of bucket `c`, in bucket order.
    pub closed spec fn spec_bucket(&self, c: int) -> Seq<[u8; 32]> {
        self.buckets@[c].items@
    }

    pub closed spec fn spec_bucket_ops(&self, c: int) -> u32 {
        self.buckets@[c].operation_count
    }

    pub closed spec fn spec_bucket_modified(&self, c: int) -> i64 {
        self.buckets@[c].last_modified
    }

    /// Items staged in the rollover buffer.
    pub closed spec fn spec_staged(&self) -> Seq<[u8; 32]> {
        self.rollover_buffer.items@
    }

    pub closed spec fn spec_active(&self) -> bool {
        self.rollover_buffer.is_active
    }

    /// Bucket the staged items were taken from.
    pub closed spec fn spec_source(&self) -> int {
        if self.rollover_buffer.source_buckets@.len() > 0 {
            self.rollover_buffer.source_buckets@[0] as int
        } else {
            0
        }
    }

    /// Operations logged since the last checkpoint.
    pub closed spec fn spec_log(&self) -> Seq<Operation> {
        self.operation_log.operations@
    }

    pub closed spec fn spec_last_checkpoint(&self) -> u64 {
        self.operation_log.last_checkpoint
    }

    pub closed spec fn spec_metadata(&self) -> StateMetadata {
        self.metadata
    }

    pub closed spec fn spec_capacity(&self) -> nat {
        self.capacity as nat
    }

    pub closed spec fn spec_item_count(&self) -> nat {
        self.item_count as nat
    }

    /// Bucket that `x` belongs to.
    pub open spec fn home(&self, x: [u8; 32]) -> int {
        bucket_of(x, self.spec_bucket_count())
    }

    /// Whether `x` is in the set: in its bucket, or staged for rollover.
    pub open spec fn spec_contains(&self, x: [u8; 32]) -> bool {
        ||| (self.spec_bucket_count() > 0 && self.spec_bucket(self.home(x)).contains(x))
        ||| self.spec_staged().contains(x)
    }

    /// Internal consistency: every item sits once, in its own bucket or in
    /// the buffer (staged items come from the recorded source bucket), and
    /// the item count is the number of items held.
    pub closed spec fn wf(&self) -> bool {
        let n = self.buckets@.len();
        let rb = self.rollover_buffer;
        &&& n == bucket_count_for(self.capacity as nat)
        &&& forall|c: int, k: int|
            0 <= c < n && 0 <= k < self.buckets@[c].items@.len() ==> bucket_of(
                #[trigger] self.buckets@[c].items@[k],
                n,
            ) == c
        &&& forall|c: int| 0 <= c < n ==> (#[trigger] self.buckets@[c]).items@.no_duplicates()
        &&& rb.items@.no_duplicates()
        &&& rb.items@.len() <= MAX_ROLLOVER_ITEMS
        &&& !rb.is_active ==> rb.items@.len() == 0 && rb.source_buckets@.len() == 0
        &&& rb.is_active ==> rb.source_buckets@.len() == 1 && rb.source_buckets@[0] < n
        &&& forall|k: int|
            0 <= k < rb.items@.len() ==> bucket_of(#[trigger] rb.items@[k], n) == self.spec_source()
                && !self.buckets@[self.spec_source()].items@.contains(rb.items@[k])
        &&& self.item_count == total_items(self.buckets@) + rb.items@.len()
        &&& self.item_count <= self.capacity
    }

    /// Creates an empty set of `ceil(capacity / BUCKET_SIZE)` buckets;
    /// `DEFAULT_CAPACITY` when no capacity is given.
    pub fn new(capacity: Option<usize>, authority: Pubkey) -> (r: OnChainHashSet)
        ensures
            r.wf(),
            r.spec_capacity() == (match capacity {
                Some(c) => c as nat,
                None => DEFAULT_CAPACITY as nat,
            }),
            r.spec_bucket_count() == bucket_count_for(r.spec_capacity()),
            r.spec_item_count() == 0,
            forall|x: [u8; 32]| !r.spec_contains(x),
            !r.spec_active(),
            r.spec_log().len() == 0,
            r.spec_last_checkpoint() == 0,
            r.spec_metadata() == (StateMetadata {
                creation_time: 0,
                last_modified: 0,
                authority,
                is_frozen: false,
                total_operations: 0,
                rollover_count: 0,
            }),
            forall|c: int|
                0 <= c < r.spec_bucket_count() ==> (#[trigger] r.spec_bucket(c)).len() == 0
                    && r.spec_bucket_ops(c) == 0 && r.spec_bucket_modified(c) == 0,
            r.spec_staged().len() == 0,
    {
        let capacity = match capacity {
            Some(c) => c,
            None => DEFAULT_CAPACITY,
        };
        let bucket_count = capacity / BUCKET_SIZE + if capacity % BUCKET_SIZE == 0 {
            0
        } else {
            1
        };
        let mut buckets: Vec<Bucket> = Vec::new();
        while buckets.len() < bucket_count
            invariant
                buckets@.len() <= bucket_count,
                total_items(buckets@) == 0,
                forall|c: int|
                    0 <= c < buckets@.len() ==> (#[trigger] buckets@[c]).items@.len() == 0
                        && buckets@[c].operation_count == 0 && buckets@[c].last_modified == 0,
            decreases bucket_count - buckets@.len(),
        {
            let b = Bucket { items: Vec::new(), last_modified: 0, operation_count: 0 };
            let ghost before = buckets@;
            buckets.push(b);
            assert(buckets@.drop_last() =~= before);
        }
        let set = OnChainHashSet {
            buckets,
            item_count: 0,
            capacity,
            metadata: StateMetadata {
                creation_time: 0,
                last_modified: 0,
                authority,
                is_frozen: false,
                total_operations: 0,
                rollover_count: 0,
            },
            rollover_buffer: RolloverBuffer {
                items: Vec::new(),
                source_buckets: Vec::new(),
                is_active: false,
            },
            operation_log: OperationLog { operations: Vec::new(), last_checkpoint: 0 },
        };
        proof {
            assert forall|c: int| 0 <= c < set.buckets@.len() implies (#[trigger] set.buckets@[c]).items@.no_duplicates() by {
            }
            assert forall|x: [u8; 32]| !set.spec_contains(x) by {
                if set.spec_bucket_count() > 0 {
                    assert(set.spec_bucket(set.home(x)).len() == 0);
                }
            }
        }
        set
    }

    /// Bucket of an item: its hash modulo the number of buckets.
    fn get_bucket_index(&self, item: &[u8; 32]) -> (r: usize)
        requires
            self.buckets@.len() > 0,
        ensures
            r == bucket_of(*item, self.buckets@.len()),
            r < self.buckets@.len(),
    {
        let h = calculate_hash(item.as_slice());
        (h % (self.buckets.len() as u64)) as usize
    }

    /// Whether the item is in the set. A pure lookup: it logs nothing and
    /// works on a frozen set too.
    pub fn contains(&self, item: &[u8; 32]) -> (r: bool)
        requires
            self.wf(),
        ensures
            r == self.spec_contains(*item),
    {
        if self.buckets.len() > 0 {
            let idx = self.get_bucket_index(item);
            if find_item(&self.buckets[idx].items, item).is_some() {
                return true;
            }
        }
        find_item(&self.rollover_buffer.items, item).is_some()
    }

    /// Filling `x`'s bucket would start a rollover that the staging buffer
    /// cannot take.
    pub open spec fn staging_overflow(&self, x: [u8; 32]) -> bool {
        let len = self.spec_bucket(self.home(x)).len() + 1;
        !self.spec_active() && len >= BUCKET_SIZE && len / 2 > MAX_ROLLOVER_ITEMS as nat
    }

    /// What `insert` returns: refused on a frozen set or a full one;
    /// `false` for an item already present; refused when the rollover it
    /// would start does not fit the staging buffer; otherwise `true`.
    pub open spec fn insert_result(&self, x: [u8; 32]) -> Result<bool, CoreError> {
        if self.spec_metadata().is_frozen {
            Err(CoreError::FrozenOrFinalized)
        } else if self.spec_item_count() >= self.spec_capacity() {
            Err(CoreError::CapacityExceeded)
        } else if self.spec_contains(x) {
            Ok(false)
        } else if self.staging_overflow(x) {
            Err(CoreError::CapacityExceeded)
        } else {
            Ok(true)
        }
    }

    /// What `remove` returns: refused on a frozen set, otherwise whether
    /// the item was present.
    pub open spec fn remove_result(&self, x: [u8; 32]) -> Result<bool, CoreError> {
        if self.spec_metadata().is_frozen {
            Err(CoreError::FrozenOrFinalized)
        } else {
            Ok(self.spec_contains(x))
        }
    }

    /// Bucket `c` is the same in both states.
    pub open spec fn same_bucket(&self, other: OnChainHashSet, c: int) -> bool {
        &&& other.spec_bucket(c) == self.spec_bucket(c)
        &&& other.spec_bucket_ops(c) == self.spec_bucket_ops(c)
        &&& other.spec_bucket_modified(c) == self.spec_bucket_modified(c)
    }

    /// `new` is this set after `item` was added at `ts`: appended to its
    /// bucket and logged; when the bucket reaches `BUCKET_SIZE` and no
    /// rollover is in flight, the first half of the bucket is staged.
    pub open spec fn inserted(&self, new: OnChainHashSet, item: [u8; 32], ts: i64) -> bool {
        let n = self.spec_bucket_count();
        let b = self.home(item);
        let grown = self.spec_bucket(b).push(item);
        let half = (grown.len() / 2) as int;
        let starts = !self.spec_active() && grown.len() >= BUCKET_SIZE;
        &&& new.spec_bucket_count() == n
        &&& new.spec_capacity() == self.spec_capacity()
        &&& new.spec_item_count() == self.spec_item_count() + 1
        &&& new.spec_log() == self.spec_log().push(
            Operation { op_type: OperationType::Insert, item, timestamp: ts, bucket_index: b as usize },
        )
        &&& new.spec_last_checkpoint() == self.spec_last_checkpoint()
        &&& new.spec_metadata() == (StateMetadata {
            total_operations: sat_inc_u64(self.spec_metadata().total_operations),
            ..self.spec_metadata()
        })
        &&& new.spec_bucket_ops(b) == sat_inc_u32(self.spec_bucket_ops(b))
        &&& new.spec_bucket_modified(b) == ts
        &&& forall|c: int| 0 <= c < n && c != b ==> #[trigger] self.same_bucket(new, c)
        &&& starts ==> {
            &&& new.spec_bucket(b) == grown.subrange(half, grown.len() as int)
            &&& new.spec_staged() == grown.subrange(0, half)
            &&& new.spec_active()
            &&& new.spec_source() == b
        }
        &&& !starts ==> {
            &&& new.spec_bucket(b) == grown
            &&& new.spec_staged() == self.spec_staged()
            &&& new.spec_active() == self.spec_active()
            &&& new.spec_source() == self.spec_source()
        }
    }

    /// Appends an entry to the log and counts it.
    fn log_operation(&mut self, operation: Operation)
        ensures
            final(self).operation_log.operations@ == old(self).operation_log.operations@.push(
                operation,
            ),
            final(self).operation_log.last_checkpoint == old(self).operation_log.last_checkpoint,
            final(self).metadata == (StateMetadata {
                total_operations: sat_inc_u64(old(self).metadata.total_operations),
                ..old(self).metadata
            }),
            final(self).buckets == old(self).buckets,
            final(self).rollover_buffer == old(self).rollover_buffer,
            final(self).item_count == old(self).item_count,
            final(self).capacity == old(self).capacity,
    {
        self.operation_log.operations.push(operation);
        self.metadata.total_operations = self.metadata.total_operations.saturating_add(1);
    }

    /// Stages the first half of bucket `b`, unless a rollover is already in
    /// flight.
    fn prepare_rollover(&mut self, b: usize)
        requires
            old(self).wf(),
            b < old(self).buckets@.len(),
            !old(self).rollover_buffer.is_active ==> old(self).buckets@[b as int].items@.len() / 2
                <= MAX_ROLLOVER_ITEMS,
        ensures
            final(self).wf(),
            old(self).rollover_buffer.is_active ==> *final(self) == *old(self),
            !old(self).rollover_buffer.is_active ==> {
                let items = old(self).buckets@[b as int].items@;
                let half = (items.len() / 2) as int;
                &&& final(self).buckets@ == old(self).buckets@.update(
                    b as int,
                    final(self).buckets@[b as int],
                )
                &&& final(self).buckets@[b as int].items@ == items.subrange(half, items.len() as int)
                &&& final(self).buckets@[b as int].operation_count == old(self).buckets@[b as int].operation_count
                &&& final(self).buckets@[b as int].last_modified == old(self).buckets@[b as int].last_modified
                &&& final(self).rollover_buffer.items@ == items.subrange(0, half)
                &&& final(self).rollover_buffer.is_active
                &&& final(self).spec_source() == b
            },
            final(self).operation_log == old(self).operation_log,
            final(self).metadata == old(self).metadata,
            final(self).item_count == old(self).item_count,
            final(self).capacity == old(self).capacity,
    {
        if self.rollover_buffer.is_active {
            return;
        }
        let ghost items = self.buckets@[b as int].items@;
        let ghost old_buckets = self.buckets@;
        let half = self.buckets[b].items.len() / 2;
        let mut moved = self.buckets[b].items.split_off(half);
        std::mem::swap(&mut self.buckets[b].items, &mut moved);
        self.rollover_buffer.items.append(&mut moved);
        self.rollover_buffer.source_buckets.push(b);
        self.rollover_buffer.is_active = true;
        proof {
            let n = self.buckets@.len();
            let rest = items.subrange(half as int, items.len() as int);
            let first = items.subrange(0, half as int);
            assert(self.rollover_buffer.items@ =~= first);
            assert(self.buckets@[b as int].items@ =~= rest);
            assert(self.rollover_buffer.source_buckets@ =~= seq![b]);
            assert forall|c: int, k: int|
                0 <= c < n && 0 <= k < self.buckets@[c].items@.len() implies bucket_of(
                #[trigger] self.buckets@[c].items@[k],
                n,
            ) == c by {
                if c == b {
                    assert(self.buckets@[c].items@[k] == old_buckets[c].items@[k + half]);
                } else {
                    assert(self.buckets@[c] == old_buckets[c]);
                    assert(self.buckets@[c].items@[k] == old_buckets[c].items@[k]);
                }
            }
            assert forall|c: int| 0 <= c < n implies (#[trigger] self.buckets@[c]).items@.no_duplicates() by {
                if c != b {
                    assert(self.buckets@[c] == old_buckets[c]);
                    assert(old_buckets[c].items@.no_duplicates());
                } else {
                    assert(old_buckets[c].items@.no_duplicates());
                }
            }
            assert(old_buckets[b as int].items@.no_duplicates());
            assert forall|k: int| 0 <= k < self.rollover_buffer.items@.len() implies bucket_of(
                #[trigger] self.rollover_buffer.items@[k],
                n,
            ) == self.spec_source() && !self.buckets@[self.spec_source()].items@.contains(
                self.rollover_buffer.items@[k],
            ) by {
                assert(self.rollover_buffer.items@[k] == old_buckets[b as int].items@[k]);
                if self.buckets@[b as int].items@.contains(self.rollover_buffer.items@[k]) {
                    let j = choose|j: int|
                        0 <= j < rest.len() && rest[j] == self.rollover_buffer.items@[k];
                    assert(items[j + half] == items[k]);
                }
            }
            lemma_total_items_update(old_buckets, b as int, self.buckets@[b as int]);
            assert(self.buckets@ =~= old_buckets.update(b as int, self.buckets@[b as int]));
        }
    }

    /// Adds an item at `timestamp`. Refused with `FrozenOrFinalized` on a
    /// frozen set and with `CapacityExceeded` on a full one; returns `false`,
    /// changing nothing, for an item already present. Otherwise the item is
    /// appended to its bucket and logged, and a bucket that reaches
    /// `BUCKET_SIZE` items starts a rollover. Every check is made before any
    /// change.
    pub fn insert(&mut self, item: &[u8; 32], timestamp: i64) -> (r: Result<bool, CoreError>)
        requires
            old(self).wf(),
        ensures
            final(self).wf(),
            r == old(self).insert_result(*item),
            r == Ok::<bool, CoreError>(true) ==> old(self).inserted(*final(self), *item, timestamp),
            r != Ok::<bool, CoreError>(true) ==> *final(self) == *old(self),
    {
        if self.metadata.is_frozen {
            return Err(CoreError::FrozenOrFinalized);
        }
        if self.item_count >= self.capacity {
            return Err(CoreError::CapacityExceeded);
        }
        let b = self.get_bucket_index(item);
        if find_item(&self.buckets[b].items, item).is_some() {
            return Ok(false);
        }
        if find_item(&self.rollover_buffer.items, item).is_some() {
            return Ok(false);
        }
        proof {
            lemma_bucket_within_total(self.buckets@, b as int);
        }
        let grown_len = self.buckets[b].items.len() + 1;
        if !self.rollover_buffer.is_active && grown_len >= BUCKET_SIZE && grown_len / 2
            > MAX_ROLLOVER_ITEMS {
            return Err(CoreError::CapacityExceeded);
        }
        let ghost old_buckets = self.buckets@;
        self.buckets[b].items.push(*item);
        self.buckets[b].last_modified = timestamp;
        self.buckets[b].operation_count = self.buckets[b].operation_count.saturating_add(1);
        self.item_count = self.item_count + 1;
        proof {
            let n = self.buckets@.len();
            assert(self.buckets@ =~= old_buckets.update(b as int, self.buckets@[b as int]));
            lemma_total_items_update(old_buckets, b as int, self.buckets@[b as int]);
            assert forall|c: int, k: int|
                0 <= c < n && 0 <= k < self.buckets@[c].items@.len() implies bucket_of(
                #[trigger] self.buckets@[c].items@[k],
                n,
            ) == c by {
                if c != b {
                    assert(self.buckets@[c] == old_buckets[c]);
                } else if k < old_buckets[c].items@.len() {
                    assert(self.buckets@[c].items@[k] == old_buckets[c].items@[k]);
                }
            }
            assert forall|c: int| 0 <= c < n implies (#[trigger] self.buckets@[c]).items@.no_duplicates() by {
                assert(old_buckets[c].items@.no_duplicates());
                if c == b {
                    assert(!old_buckets[c].items@.contains(*item));
                    assert forall|i: int, j: int|
                        0 <= i < self.buckets@[c].items@.len() && 0 <= j < self.buckets@[c].items@.len()
                            && i != j implies self.buckets@[c].items@[i] != self.buckets@[c].items@[j] by {
                        if i < old_buckets[c].items@.len() && j < old_buckets[c].items@.len() {
                        } else if i < old_buckets[c].items@.len() {
                            assert(old_buckets[c].items@[i] != *item);
                        } else if j < old_buckets[c].items@.len() {
                            assert(old_buckets[c].items@[j] != *item);
                        }
                    }
                } else {
                    assert(self.buckets@[c] == old_buckets[c]);
                }
            }
            assert forall|k: int| 0 <= k < self.rollover_buffer.items@.len() implies bucket_of(
                #[trigger] self.rollover_buffer.items@[k],
                n,
            ) == self.spec_source() && !self.buckets@[self.spec_source()].items@.contains(
                self.rollover_buffer.items@[k],
            ) by {
                let x = self.rollover_buffer.items@[k];
                assert(x != *item);
                if self.spec_source() == b && self.buckets@[b as int].items@.contains(x) {
                    let j = choose|j: int| 0 <= j < self.buckets@[b as int].items@.len() && self.buckets@[b as int].items@[j] == x;
                    assert(old_buckets[b as int].items@[j] == x);
                }
            }
        }
        self.log_operation(
            Operation { op_type: OperationType::Insert, item: *item, timestamp, bucket_index: b },
        );
        if self.buckets[b].items.len() >= BUCKET_SIZE {
            self.prepare_rollover(b);
        }
        proof {
            let n = self.buckets@.len();
            assert forall|c: int| 0 <= c < n && c != b implies #[trigger] old(self).same_bucket(
                *self,
                c,
            ) by {
                assert(self.buckets@[c] == old_buckets[c]);
            }
        }
        Ok(true)
    }

    /// `new` is this set after `item`, which was present, was removed at
    /// `ts`: taken out of its bucket by swapping it with the bucket's last
    /// item (or out of the staging buffer, order kept), and logged.
    pub open spec fn removed(&self, new: OnChainHashSet, item: [u8; 32], ts: i64) -> bool {
        let n = self.spec_bucket_count();
        let b = self.home(item);
        let in_bucket = self.spec_bucket(b).contains(item);
        &&& new.spec_bucket_count() == n
        &&& new.spec_capacity() == self.spec_capacity()
        &&& new.spec_item_count() + 1 == self.spec_item_count()
        &&& new.spec_log() == self.spec_log().push(
            Operation { op_type: OperationType::Remove, item, timestamp: ts, bucket_index: b as usize },
        )
        &&& new.spec_last_checkpoint() == self.spec_last_checkpoint()
        &&& new.spec_metadata() == (StateMetadata {
            total_operations: sat_inc_u64(self.spec_metadata().total_operations),
            ..self.spec_metadata()
        })
        &&& forall|x: [u8; 32]| #[trigger] new.spec_contains(x) == (self.spec_contains(x) && x != item)
        &&& forall|c: int| 0 <= c < n && c != b ==> #[trigger] self.same_bucket(new, c)
        &&& new.spec_active() == self.spec_active()
        &&& new.spec_source() == self.spec_source()
        &&& in_bucket ==> {
            &&& new.spec_bucket(b).len() + 1 == self.spec_bucket(b).len()
            &&& new.spec_bucket_ops(b) == sat_inc_u32(self.spec_bucket_ops(b))
            &&& new.spec_bucket_modified(b) == ts
            &&& new.spec_staged() == self.spec_staged()
        }
        &&& !in_bucket ==> {
            &&& self.same_bucket(new, b)
            &&& new.spec_staged().len() + 1 == self.spec_staged().len()
        }
    }

    /// Removes an item at `timestamp`. Refused with `FrozenOrFinalized` on a
    /// frozen set; returns `false`, changing nothing, for an absent item.
    pub fn remove(&mut self, item: &[u8; 32], timestamp: i64) -> (r: Result<bool, CoreError>)
        requires
            old(self).wf(),
        ensures
            final(self).wf(),
            r == old(self).remove_result(*item),
            r == Ok::<bool, CoreError>(true) ==> old(self).removed(*final(self), *item, timestamp),
            r != Ok::<bool, CoreError>(true) ==> *final(self) == *old(self),
    {
        if self.metadata.is_frozen {
            return Err(CoreError::FrozenOrFinalized);
        }
        if self.buckets.len() == 0 {
            assert(self.rollover_buffer.items@.len() == 0);
            return Ok(false);
        }
        let b = self.get_bucket_index(item);
        let ghost n = self.buckets@.len();
        let ghost old_buckets = self.buckets@;
        let ghost staged = self.rollover_buffer.items@;
        match find_item(&self.buckets[b].items, item) {
            Some(pos) => {
                let ghost old_items = old_buckets[b as int].items@;
                proof {
                    lemma_bucket_within_total(old_buckets, b as int);
                    lemma_swap_remove(old_items, pos as int);
                }
                self.buckets[b].items.swap_remove(pos);
                self.buckets[b].last_modified = timestamp;
                self.buckets[b].operation_count = self.buckets[b].operation_count.saturating_add(1);
                self.item_count = self.item_count - 1;
                proof {
                    let t = self.buckets@[b as int].items@;
                    assert(self.buckets@ =~= old_buckets.update(b as int, self.buckets@[b as int]));
                    lemma_total_items_update(old_buckets, b as int, self.buckets@[b as int]);
                    assert forall|c: int, k: int|
                        0 <= c < n && 0 <= k < self.buckets@[c].items@.len() implies bucket_of(
                        #[trigger] self.buckets@[c].items@[k],
                        n,
                    ) == c by {
                        if c != b {
                            assert(self.buckets@[c] == old_buckets[c]);
                        } else {
                            assert(t[k] == old_items[if k == pos { old_items.len() - 1 } else { k }]);
                        }
                    }
                    assert forall|c: int| 0 <= c < n implies (#[trigger] self.buckets@[c]).items@.no_duplicates() by {
                        if c != b {
                            assert(self.buckets@[c] == old_buckets[c]);
                            assert(old_buckets[c].items@.no_duplicates());
                        }
                    }
                    assert forall|k: int| 0 <= k < staged.len() implies bucket_of(
                        #[trigger] staged[k],
                        n,
                    ) == self.spec_source() && !self.buckets@[self.spec_source()].items@.contains(
                        staged[k],
                    ) by {
                        if self.spec_source() != b {
                            assert(self.buckets@[self.spec_source()] == old_buckets[self.spec_source()]);
                        }
                    }
                    assert forall|x: [u8; 32]| #[trigger] self.spec_contains(x) == (old(self).spec_contains(x) && x != *item) by {
                        if x == *item {
                            if staged.contains(x) {
                                let k = choose|k: int| 0 <= k < staged.len() && staged[k] == x;
                                assert(bucket_of(staged[k], n) == old(self).spec_source());
                            }
                        } else if bucket_of(x, n) != b {
                            assert(self.buckets@[bucket_of(x, n)] == old_buckets[bucket_of(x, n)]);
                        }
                    }
                    assert forall|c: int| 0 <= c < n && c != b implies #[trigger] old(self).same_bucket(
                        *self,
                        c,
                    ) by {
                        assert(self.buckets@[c] == old_buckets[c]);
                    }
                }
            },
            None => {
                match find_item(&self.rollover_buffer.items, item) {
                    Some(pos) => {
                        proof {
                            lemma_remove_at(staged, pos as int);
                        }
                        self.rollover_buffer.items.remove(pos);
                        self.item_count = self.item_count - 1;
                        proof {
                            let t = self.rollover_buffer.items@;
                            assert forall|k: int| 0 <= k < t.len() implies bucket_of(
                                #[trigger] t[k],
                                n,
                            ) == self.spec_source() && !self.buckets@[self.spec_source()].items@.contains(
                                t[k],
                            ) by {
                                assert(t[k] == staged[if k < pos { k } else { k + 1 }]);
                            }
                            assert forall|x: [u8; 32]| #[trigger] self.spec_contains(x) == (old(self).spec_contains(x) && x != *item) by {
                            }
                            assert forall|c: int| 0 <= c < n && c != b implies #[trigger] old(self).same_bucket(
                                *self,
                                c,
                            ) by {
                            }
                        }
                    },
                    None => {
                        return Ok(false);
                    },
                }
            },
        }
        self.log_operation(
            Operation { op_type: OperationType::Remove, item: *item, timestamp, bucket_index: b },
        );
        Ok(true)
    }

    /// Bucket `c` once the staged items are written back: the source bucket
    /// gets them appended, in staging order; every other bucket is unchanged.
    pub open spec fn drained_bucket(&self, c: int) -> Seq<[u8; 32]> {
        if self.spec_active() && c == self.spec_source() {
            self.spec_bucket(c) + self.spec_staged()
        } else {
            self.spec_bucket(c)
        }
    }

    /// `new` is this set after the staged items were written back at `ts`:
    /// buckets drained, buffer empty and inactive, one rollover entry logged
    /// and the rollover counter increased.
    pub open spec fn rolled_over(&self, new: OnChainHashSet, ts: i64) -> bool {
        let n = self.spec_bucket_count();
        let src = self.spec_source();
        let k = self.spec_staged().len();
        &&& new.spec_bucket_count() == n
        &&& new.spec_capacity() == self.spec_capacity()
        &&& new.spec_item_count() == self.spec_item_count()
        &&& forall|c: int| 0 <= c < n ==> #[trigger] new.spec_bucket(c) == self.drained_bucket(c)
        &&& forall|c: int| 0 <= c < n && c != src ==> #[trigger] self.same_bucket(new, c)
        &&& new.spec_bucket_ops(src) == sat_add_u32(self.spec_bucket_ops(src), k)
        &&& new.spec_bucket_modified(src) == (if k > 0 {
            ts
        } else {
            self.spec_bucket_modified(src)
        })
        &&& new.spec_staged().len() == 0
        &&& !new.spec_active()
        &&& new.spec_log().len() == self.spec_log().len() + 1
        &&& new.spec_log().drop_last() == self.spec_log()
        &&& marker_entry(new.spec_log().last(), OperationType::Rollover, ts)
        &&& new.spec_last_checkpoint() == self.spec_last_checkpoint()
        &&& new.spec_metadata() == (StateMetadata {
            total_operations: sat_inc_u64(self.spec_metadata().total_operations),
            rollover_count: sat_inc_u32(self.spec_metadata().rollover_count),
            ..self.spec_metadata()
        })
    }

    /// Writes every staged item back into the bucket its hash selects (the
    /// number of buckets is unchanged, so that is the bucket it came from),
    /// logs one rollover entry and ends the rollover. Does nothing when no
    /// rollover is in flight. Membership is unchanged either way.
    pub fn process_rollover(&mut self, timestamp: i64) -> (r: Result<(), CoreError>)
        requires
            old(self).wf(),
        ensures
            final(self).wf(),
            r is Ok,
            !old(self).spec_active() ==> *final(self) == *old(self),
            old(self).spec_active() ==> old(self).rolled_over(*final(self), timestamp),
            forall|x: [u8; 32]| #[trigger] final(self).spec_contains(x) == old(self).spec_contains(x),
    {
        if !self.rollover_buffer.is_active {
            return Ok(());
        }
        let ghost n = self.buckets@.len();
        let ghost src = self.spec_source();
        let ghost staged = self.rollover_buffer.items@;
        let ghost old_buckets = self.buckets@;
        let count = self.rollover_buffer.items.len();
        let mut i: usize = 0;
        while i < count
            invariant
                self.buckets@.len() == n,
                old(self).buckets@.len() == n,
                n > 0,
                0 <= src < n,
                count == staged.len(),
                self.rollover_buffer == old(self).rollover_buffer,
                self.rollover_buffer.items@ == staged,
                self.spec_source() == src,
                old(self).wf(),
                old_buckets == old(self).buckets@,
                staged == old(self).rollover_buffer.items@,
                src == old(self).spec_source(),
                i <= count,
                forall|c: int| 0 <= c < n && c != src ==> #[trigger] self.buckets@[c] == old_buckets[c],
                self.buckets@[src].items@ == old_buckets[src].items@ + staged.take(i as int),
                self.buckets@[src].operation_count == sat_add_u32(old_buckets[src].operation_count, i as nat),
                self.buckets@[src].last_modified == (if i > 0 {
                    timestamp
                } else {
                    old_buckets[src].last_modified
                }),
                self.metadata == old(self).metadata,
                self.operation_log == old(self).operation_log,
                self.item_count == old(self).item_count,
                self.capacity == old(self).capacity,
            decreases count - i,
        {
            let item = self.rollover_buffer.items[i];
            proof {
                assert(bucket_of(old(self).rollover_buffer.items@[i as int], n) == old(self).spec_source());
            }
            let idx = self.get_bucket_index(&item);
            let ghost before = self.buckets@[src].items@;
            self.buckets[idx].items.push(item);
            self.buckets[idx].last_modified = timestamp;
            self.buckets[idx].operation_count = self.buckets[idx].operation_count.saturating_add(1);
            assert(self.buckets@[src].items@ =~= old_buckets[src].items@ + staged.take(i + 1));
            i = i + 1;
        }
        let ghost filled = self.buckets@;
        let entry = Operation {
            op_type: OperationType::Rollover,
            item: [0u8; 32],
            timestamp,
            bucket_index: 0,
        };
        assert(entry.item@ =~= Seq::new(32, |i: int| 0u8));
        self.log_operation(entry);
        self.rollover_buffer.items.clear();
        self.rollover_buffer.source_buckets.clear();
        self.rollover_buffer.is_active = false;
        self.metadata.rollover_count = self.metadata.rollover_count.saturating_add(1);
        proof {
            let merged = old_buckets[src].items@ + staged;
            assert(staged.take(count as int) =~= staged);
            assert(self.buckets@ =~= old_buckets.update(src, self.buckets@[src]));
            lemma_total_items_update(old_buckets, src, self.buckets@[src]);
            assert(old_buckets[src].items@.no_duplicates());
            assert forall|c: int, k: int|
                0 <= c < n && 0 <= k < self.buckets@[c].items@.len() implies bucket_of(
                #[trigger] self.buckets@[c].items@[k],
                n,
            ) == c by {
                if c != src {
                    assert(self.buckets@[c] == old_buckets[c]);
                } else if k < old_buckets[src].items@.len() {
                    assert(merged[k] == old_buckets[src].items@[k]);
                } else {
                    assert(merged[k] == staged[k - old_buckets[src].items@.len()]);
                }
            }
            assert forall|c: int| 0 <= c < n implies (#[trigger] self.buckets@[c]).items@.no_duplicates() by {
                if c != src {
                    assert(self.buckets@[c] == old_buckets[c]);
                    assert(old_buckets[c].items@.no_duplicates());
                } else {
                    let a = old_buckets[src].items@;
                    assert forall|i1: int, j1: int|
                        0 <= i1 < merged.len() && 0 <= j1 < merged.len() && i1 != j1 implies merged[i1]
                            != merged[j1] by {
                        if i1 >= a.len() && j1 < a.len() {
                            assert(merged[i1] == staged[i1 - a.len()]);
                            assert(!a.contains(staged[i1 - a.len()]));
                        } else if j1 >= a.len() && i1 < a.len() {
                            assert(merged[j1] == staged[j1 - a.len()]);
                            assert(!a.contains(staged[j1 - a.len()]));
                        } else if i1 >= a.len() && j1 >= a.len() {
                            assert(merged[i1] == staged[i1 - a.len()]);
                            assert(merged[j1] == staged[j1 - a.len()]);
                        }
                    }
                }
            }
            assert(self.spec_bucket(src) == merged);
            assert forall|x: [u8; 32]| #[trigger] self.spec_contains(x) == old(self).spec_contains(x) by {
                assert(!self.spec_staged().contains(x));
                let a = old_buckets[src].items@;
                if bucket_of(x, n) == src && a.contains(x) {
                    let j = choose|j: int| 0 <= j < a.len() && a[j] == x;
                    assert(merged[j] == x);
                }
                if staged.contains(x) {
                    let k = choose|k: int| 0 <= k < staged.len() && staged[k] == x;
                    assert(bucket_of(old(self).rollover_buffer.items@[k], n) == src);
                }
                if staged.contains(x) {
                    let k = choose|k: int| 0 <= k < staged.len() && staged[k] == x;
                    assert(merged[old_buckets[src].items@.len() + k] == x);
                }
                if bucket_of(x, n) == src && merged.contains(x) {
                    let k = choose|k: int| 0 <= k < merged.len() && merged[k] == x;
                    if k >= old_buckets[src].items@.len() {
                        assert(staged[k - old_buckets[src].items@.len()] == x);
                    } else {
                        assert(old_buckets[src].items@[k] == x);
                    }
                }
                if bucket_of(x, n) != src {
                    assert(self.buckets@[bucket_of(x, n)] == old_buckets[bucket_of(x, n)]);
                }
            }
            assert forall|c: int| 0 <= c < n implies #[trigger] self.spec_bucket(c) == old(self).drained_bucket(c) by {
                if c != src {
                    assert(self.buckets@[c] == old_buckets[c]);
                }
            }
            assert forall|c: int| 0 <= c < n && c != src implies #[trigger] old(self).same_bucket(*self, c) by {
                assert(self.buckets@[c] == old_buckets[c]);
            }
            assert(self.spec_log().drop_last() =~= old(self).spec_log());
        }
        Ok(())
    }

    /// Drains any rollover in flight, logs a checkpoint entry, records the
    /// cumulative operation count as the last checkpoint, then empties the
    /// log. Earlier log entries cannot be retrieved afterwards.
    pub fn checkpoint(&mut self, timestamp: i64) -> (r: Result<(), CoreError>)
        requires
            old(self).wf(),
        ensures
            final(self).wf(),
            r is Ok,
            final(self).spec_log().len() == 0,
            forall|x: [u8; 32]| #[trigger] final(self).spec_contains(x) == old(self).spec_contains(x),
            final(self).spec_item_count() == old(self).spec_item_count(),
            final(self).spec_capacity() == old(self).spec_capacity(),
            final(self).spec_bucket_count() == old(self).spec_bucket_count(),
            forall|c: int|
                0 <= c < old(self).spec_bucket_count() ==> #[trigger] final(self).spec_bucket(c)
                    == old(self).drained_bucket(c),
            !final(self).spec_active(),
            final(self).spec_metadata().total_operations == (if old(self).spec_active() {
                sat_inc_u64(sat_inc_u64(old(self).spec_metadata().total_operations))
            } else {
                sat_inc_u64(old(self).spec_metadata().total_operations)
            }),
            final(self).spec_metadata().rollover_count == (if old(self).spec_active() {
                sat_inc_u32(old(self).spec_metadata().rollover_count)
            } else {
                old(self).spec_metadata().rollover_count
            }),
            final(self).spec_metadata().is_frozen == old(self).spec_metadata().is_frozen,
            final(self).spec_last_checkpoint() == final(self).spec_metadata().total_operations,
    {
        if self.rollover_buffer.is_active {
            let _ = self.process_rollover(timestamp);
        }
        let ghost mid = *self;
        proof {
            assert forall|x: [u8; 32]| #[trigger] mid.spec_contains(x) == old(self).spec_contains(x) by {
            }
            assert forall|c: int| 0 <= c < mid.spec_bucket_count() implies #[trigger] mid.spec_bucket(c)
                == old(self).drained_bucket(c) by {
            }
        }
        self.log_operation(
            Operation { op_type: OperationType::Checkpoint, item: [0u8; 32], timestamp, bucket_index: 0 },
        );
        self.operation_log.last_checkpoint = self.metadata.total_operations;
        self.operation_log.operations.clear();
        proof {
            assert forall|x: [u8; 32]| #[trigger] self.spec_contains(x) == old(self).spec_contains(x) by {
                assert(mid.spec_contains(x) == old(self).spec_contains(x));
            }
            assert forall|c: int| 0 <= c < old(self).spec_bucket_count() implies #[trigger] self.spec_bucket(c)
                == old(self).drained_bucket(c) by {
                assert(mid.spec_bucket(c) == old(self).drained_bucket(c));
            }
        }
        Ok(())
    }

    /// Blocks `insert` and `remove` from now on; `contains` keeps working.
    /// Whether the caller may do this is decided by the surrounding layer.
    pub fn freeze(&mut self)
        requires
            old(self).wf(),
        ensures
            final(self).wf(),
            final(self).spec_metadata() == (StateMetadata { is_frozen: true, ..old(self).spec_metadata() }),
            forall|x: [u8; 32]| #[trigger] final(self).spec_contains(x) == old(self).spec_contains(x),
            final(self).spec_item_count() == old(self).spec_item_count(),
            final(self).spec_capacity() == old(self).spec_capacity(),
            final(self).spec_log() == old(self).spec_log(),
    {
        self.metadata.is_frozen = true;
    }

    /// Item count, operation count and last change of every bucket.
    pub fn get_bucket_stats(&self) -> (r: Vec<BucketStats>)
        ensures
            r@.len() == self.spec_bucket_count(),
            forall|c: int|
                0 <= c < r@.len() ==> #[trigger] r@[c] == (BucketStats {
                    bucket_index: c as usize,
                    item_count: self.spec_bucket(c).len() as usize,
                    operation_count: self.spec_bucket_ops(c),
                    last_modified: self.spec_bucket_modified(c),
                }),
    {
        let mut stats: Vec<BucketStats> = Vec::new();
        let mut i: usize = 0;
        while i < self.buckets.len()
            invariant
                i <= self.buckets@.len(),
                stats@.len() == i,
                forall|c: int|
                    0 <= c < i ==> #[trigger] stats@[c] == (BucketStats {
                        bucket_index: c as usize,
                        item_count: self.buckets@[c].items@.len() as usize,
                        operation_count: self.buckets@[c].operation_count,
                        last_modified: self.buckets@[c].last_modified,
                    }),
            decreases self.buckets@.len() - i,
        {
            let bucket = &self.buckets[i];
            stats.push(
                BucketStats {
                    bucket_index: i,
                    item_count: bucket.items.len(),
                    operation_count: bucket.operation_count,
                    last_modified: bucket.last_modified,
                },
            );
            i = i + 1;
        }
        stats
    }

    /// Operations logged since the last checkpoint, oldest first.
    pub fn get_operation_history(&self) -> (r: &[Operation])
        ensures
            r@ == self.spec_log(),
    {
        self.operation_log.operations.as_slice()
    }

    /// Number of items held.
    pub fn item_count(&self) -> (r: usize)
        ensures
            r == self.spec_item_count(),
    {
        self.item_count
    }

    /// Capacity the set was created with.
    pub fn capacity(&self) -> (r: usize)
        ensures
            r == self.spec_capacity(),
    {
        self.capacity
    }

    /// Number of buckets.
    pub fn bucket_count(&self) -> (r: usize)
        ensures
            r == self.spec_bucket_count(),
    {
        self.buckets.len()
    }

    /// Bucket an item belongs to, or `None` for a set without buckets.
    pub fn bucket_index(&self, item: &[u8; 32]) -> (r: Option<usize>)
        ensures
            self.spec_bucket_count() == 0 ==> r is None,
            self.spec_bucket_count() > 0 ==> r == Some(self.home(*item) as usize),
    {
        if self.buckets.len() == 0 {
            None
        } else {
            Some(self.get_bucket_index(item))
        }
    }

    /// Whether a rollover is in flight.
    pub fn is_rollover_active(&self) -> (r: bool)
        ensures
            r == self.spec_active(),
    {
        self.rollover_buffer.is_active
    }

    /// Items staged for rollover, in staging order.
    pub fn rollover_items(&self) -> (r: &[[u8; 32]])
        ensures
            r@ == self.spec_staged(),
    {
        self.rollover_buffer.items.as_slice()
    }

    /// Operation count recorded at the last checkpoint.
    pub fn last_checkpoint(&self) -> (r: u64)
        ensures
            r == self.spec_last_checkpoint(),
    {
        self.operation_log.last_checkpoint
    }

    /// Lifecycle data.
    pub fn metadata(&self) -> (r: &StateMetadata)
        ensures
            *r == self.spec_metadata(),
    {
        &self.metadata
    }
}

/// The set's invariant as callers see it: no bucket holds an item twice,
/// every item sits in the bucket its hash selects, staged items come from
/// the source bucket and are in no bucket at the same time, the buffer stays
/// within `MAX_ROLLOVER_ITEMS`, and the item count never exceeds the
/// capacity.
pub proof fn lemma_set_invariant(s: OnChainHashSet)
    requires
        s.wf(),
    ensures
        s.spec_bucket_count() == bucket_count_for(s.spec_capacity()),
        s.spec_item_count() <= s.spec_capacity(),
        s.spec_staged().len() <= MAX_ROLLOVER_ITEMS,
        s.spec_staged().no_duplicates(),
        !s.spec_active() ==> s.spec_staged().len() == 0,
        forall|c: int|
            0 <= c < s.spec_bucket_count() ==> (#[trigger] s.spec_bucket(c)).no_duplicates(),
        forall|c: int, k: int|
            0 <= c < s.spec_bucket_count() && 0 <= k < s.spec_bucket(c).len() ==> s.home(
                #[trigger] s.spec_bucket(c)[k],
            ) == c,
        forall|x: [u8; 32]|
            #[trigger] s.spec_staged().contains(x) ==> s.home(x) == s.spec_source() && !s.spec_bucket(
                s.home(x),
            ).contains(x),
{
    assert forall|c: int| 0 <= c < s.spec_bucket_count() implies (#[trigger] s.spec_bucket(
        c,
    )).no_duplicates() by {
        assert(s.buckets@[c].items@.no_duplicates());
    }
    assert forall|x: [u8; 32]| #[trigger] s.spec_staged().contains(x) implies s.home(x)
        == s.spec_source() && !s.spec_bucket(s.home(x)).contains(x) by {
        let k = choose|k: int| 0 <= k < s.spec_staged().len() && s.spec_staged()[k] == x;
        assert(bucket_of(s.rollover_buffer.items@[k], s.buckets@.len()) == s.spec_source());
    }
}

/// After a successful `insert(x)`, whether it returned `true` or `false`,
/// `contains(x)` is true.
pub proof fn lemma_insert_then_contains(
    before: OnChainHashSet,
    after: OnChainHashSet,
    x: [u8; 32],
    ts: i64,
    r: Result<bool, CoreError>,
)
    requires
        before.wf(),
        r == before.insert_result(x),
        r is Ok,
        r == Ok::<bool, CoreError>(true) ==> before.inserted(after, x, ts),
        r != Ok::<bool, CoreError>(true) ==> after == before,
    ensures
        after.spec_contains(x),
{
    if r == Ok::<bool, CoreError>(true) {
        let b = before.home(x);
        let grown = before.spec_bucket(b).push(x);
        let half = (grown.len() / 2) as int;
        let k = grown.len() - 1;
        if !before.spec_active() && grown.len() >= BUCKET_SIZE {
            assert(after.spec_bucket(b)[k - half] == x);
        } else {
            assert(after.spec_bucket(b)[k] == x);
        }
    }
}

/// After a successful `remove(x)`, whether it returned `true` or `false`,
/// `contains(x)` is false.
pub proof fn lemma_remove_then_absent(
    before: OnChainHashSet,
    after: OnChainHashSet,
    x: [u8; 32],
    ts: i64,
    r: Result<bool, CoreError>,
)
    requires
        before.wf(),
        r == before.remove_result(x),
        r is Ok,
        r == Ok::<bool, CoreError>(true) ==> before.removed(after, x, ts),
        r != Ok::<bool, CoreError>(true) ==> after == before,
    ensures
        !after.spec_contains(x),
{
    if r == Ok::<bool, CoreError>(true) {
        assert(after.spec_contains(x) == (before.spec_contains(x) && x != x));
    }
}

/// Inserting a new item twice returns `true`, then `false`, and the item
/// count grows by exactly one (the second call changes nothing). The set must
/// have room for one more item after the first insert, since a full set
/// refuses every insert.
pub proof fn lemma_insert_twice(s0: OnChainHashSet, s1: OnChainHashSet, x: [u8; 32], ts: i64)
    requires
        s0.wf(),
        !s0.spec_metadata().is_frozen,
        !s0.spec_contains(x),
        s0.spec_item_count() + 1 < s0.spec_capacity(),
        !s0.staging_overflow(x),
        s0.inserted(s1, x, ts),
    ensures
        s0.insert_result(x) == Ok::<bool, CoreError>(true),
        s1.insert_result(x) == Ok::<bool, CoreError>(false),
        s1.spec_item_count() == s0.spec_item_count() + 1,
{
    lemma_insert_then_contains(s0, s1, x, ts, Ok(true));
}

/// A frozen set refuses `insert` and `remove` with `FrozenOrFinalized`;
/// `contains` has no such condition and keeps answering membership.
pub proof fn lemma_frozen_refuses_mutation(s: OnChainHashSet, x: [u8; 32])
    requires
        s.wf(),
        s.spec_metadata().is_frozen,
    ensures
        s.insert_result(x) == Err::<bool, CoreError>(CoreError::FrozenOrFinalized),
        s.remove_result(x) == Err::<bool, CoreError>(CoreError::FrozenOrFinalized),
{
}

/// Writing the staged items back changes no membership.
pub proof fn lemma_rollover_keeps_members(s: OnChainHashSet, t: OnChainHashSet, ts: i64)
    requires
        s.wf(),
        s.spec_active(),
        s.rolled_over(t, ts),
    ensures
        forall|x: [u8; 32]| #[trigger] t.spec_contains(x) == s.spec_contains(x),
{
    let n = s.spec_bucket_count();
    let src = s.spec_source();
    let staged = s.spec_staged();
    assert forall|x: [u8; 32]| #[trigger] t.spec_contains(x) == s.spec_contains(x) by {
        let h = s.home(x);
        let a = s.spec_bucket(src);
        assert(!t.spec_staged().contains(x));
        if staged.contains(x) {
            let k = choose|k: int| 0 <= k < staged.len() && staged[k] == x;
            assert(bucket_of(s.rollover_buffer.items@[k], n) == src);
            assert(t.spec_bucket(src) == a + staged);
            assert((a + staged)[a.len() + k] == x);
        }
        if h == src {
            assert(t.spec_bucket(src) == a + staged);
            if a.contains(x) {
                let j = choose|j: int| 0 <= j < a.len() && a[j] == x;
                assert((a + staged)[j] == x);
            }
            if (a + staged).contains(x) {
                let j = choose|j: int| 0 <= j < (a + staged).len() && (a + staged)[j] == x;
                if j >= a.len() {
                    assert(staged[j - a.len()] == x);
                } else {
                    assert(a[j] == x);
                }
            }
        } else {
            assert(t.spec_bucket(h) == s.drained_bucket(h));
        }
    }
}

/// Before the bucket fills: with no rollover in flight, the first `i`
/// inserts of items of bucket `b` leave them in `b`, in order.
proof fn lemma_fill_prefix(ss: Seq<OnChainHashSet>, xs: Seq<[u8; 32]>, ts: i64, b: int, i: int)
    requires
        0 <= i < BUCKET_SIZE,
        i < ss.len(),
        i <= xs.len(),
        !ss[0].spec_active(),
        ss[0].spec_bucket(b).len() == 0,
        forall|k: int| 0 <= k < xs.len() ==> #[trigger] ss[0].home(xs[k]) == b,
        forall|k: int| 0 <= k < i ==> #[trigger] ss[k].inserted(ss[k + 1], xs[k], ts),
    ensures
        !ss[i].spec_active(),
        ss[i].spec_bucket_count() == ss[0].spec_bucket_count(),
        ss[i].spec_bucket(b) == xs.take(i),
    decreases i,
{
    if i > 0 {
        lemma_fill_prefix(ss, xs, ts, b, i - 1);
        let k = i - 1;
        assert(ss[k].inserted(ss[k + 1], xs[k], ts));
        assert(k + 1 == i);
        assert(ss[0].home(xs[i - 1]) == b);
        assert(xs.take(i - 1).push(xs[i - 1]) =~= xs.take(i));
    } else {
        assert(xs.take(0) =~= Seq::<[u8; 32]>::empty());
    }
}

/// Inserting `BUCKET_SIZE + 1` items of one bucket, one after another, into
/// a set where that bucket is empty and no rollover is in flight starts
/// exactly one rollover: on the insert that brings the bucket to
/// `BUCKET_SIZE` items, which stages the first half of them. The rollover is
/// still in flight after the last insert, and once it is written back every
/// one of the items is found.
pub proof fn lemma_bucket_overflow_episode(
    ss: Seq<OnChainHashSet>,
    xs: Seq<[u8; 32]>,
    ts: i64,
    done: OnChainHashSet,
)
    requires
        xs.len() == BUCKET_SIZE + 1,
        ss.len() == xs.len() + 1,
        forall|k: int| 0 <= k < ss.len() ==> (#[trigger] ss[k]).wf(),
        !ss[0].spec_active(),
        ss[0].spec_bucket_count() > 0,
        ss[0].spec_bucket(ss[0].home(xs[0])).len() == 0,
        forall|k: int| 0 <= k < xs.len() ==> #[trigger] ss[0].home(xs[k]) == ss[0].home(xs[0]),
        forall|k: int| 0 <= k < xs.len() ==> #[trigger] ss[k].inserted(ss[k + 1], xs[k], ts),
        ss.last().rolled_over(done, ts),
    ensures
        forall|k: int| 0 <= k < ss.len() ==> ((#[trigger] ss[k]).spec_active() <==> k >= BUCKET_SIZE),
        ss[BUCKET_SIZE as int].spec_staged() == xs.take(BUCKET_SIZE as int / 2),
        ss[BUCKET_SIZE as int].spec_bucket(ss[0].home(xs[0])) == xs.subrange(
            BUCKET_SIZE as int / 2,
            BUCKET_SIZE as int,
        ),
        forall|k: int| 0 <= k < xs.len() ==> done.spec_contains(#[trigger] xs[k]),
{
    let b = ss[0].home(xs[0]);
    let full = BUCKET_SIZE as int;
    assert forall|k: int| 0 <= k < ss.len() implies ((#[trigger] ss[k]).spec_active() <==> k >= BUCKET_SIZE) by {
        if k < full {
            lemma_fill_prefix(ss, xs, ts, b, k);
        } else {
            lemma_fill_prefix(ss, xs, ts, b, full - 1);
            let p = full - 1;
            assert(ss[p].inserted(ss[p + 1], xs[p], ts));
            assert(ss[0].home(xs[p]) == b);
            if k == full + 1 {
                assert(ss[full].inserted(ss[full + 1], xs[full], ts));
            }
        }
    }
    lemma_fill_prefix(ss, xs, ts, b, full - 1);
    let p = full - 1;
    assert(ss[p].inserted(ss[p + 1], xs[p], ts));
    assert(ss[0].home(xs[p]) == b);
    let grown = xs.take(full - 1).push(xs[full - 1]);
    assert(grown =~= xs.take(full));
    assert(xs.take(full).subrange(0, full / 2) =~= xs.take(full / 2));
    assert(xs.take(full).subrange(full / 2, full) =~= xs.subrange(full / 2, full));
    let last = ss[full + 1];
    assert(ss[full].inserted(last, xs[full], ts));
    assert(ss[0].home(xs[full]) == b);
    assert(ss[full].spec_active());
    assert(last.spec_bucket(b) == xs.subrange(full / 2, full).push(xs[full]));
    assert(last.spec_staged() == xs.take(full / 2));
    assert(ss.last() == last);
    lemma_rollover_keeps_members(last, done, ts);
    assert forall|k: int| 0 <= k < xs.len() implies done.spec_contains(#[trigger] xs[k]) by {
        assert(done.spec_contains(xs[k]) == last.spec_contains(xs[k]));
        if k < full / 2 {
            assert(last.spec_staged()[k] == xs[k]);
        } else if k < full {
            assert(last.spec_bucket(b)[k - full / 2] == xs[k]);
            assert(last.home(xs[k]) == b);
        } else {
            assert(last.spec_bucket(b)[full / 2] == xs[k]);
            assert(last.home(xs[k]) == b);
        }
    }
}

} // verus!
