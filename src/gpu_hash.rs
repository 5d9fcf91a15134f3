use vstd::prelude::*;
use vstd::set_lib::{lemma_int_range, lemma_len_subset, set_int_range};
use vstd::wrapping::u32_specs;

use crate::error::WorldError;
use crate::util::UVec3;

verus! {

/// Marks an empty bucket and the end of a chain.
pub const NONE: u32 = 0xffff_ffff;

/// Number of buckets, and of arena slots, of a table made by `new`.
pub const TABLE_CAPACITY: usize = 1000;

/// One arena slot: the hash of the key, the stored value and the arena
/// index of the next slot of the same chain (`NONE` at the end).
#[derive(Debug, Clone, Copy, PartialEq, Eq, Structural)]
pub struct KeyValue {
    pub key: u32,
    pub value: u32,
    pub next: u32,
}

/// The linearization `x + By * (y + Bz * z)` of a key, in wrapping `u32`
/// arithmetic.
pub open spec fn hash_of(block: UVec3, key: UVec3) -> u32 {
    u32_specs::wrapping_add(
        key.x,
        u32_specs::wrapping_mul(
            block.y,
            u32_specs::wrapping_add(key.y, u32_specs::wrapping_mul(block.z, key.z)),
        ),
    )
}

/// What a slot holds while it is on the free stack.
pub open spec fn empty_slot() -> KeyValue {
    KeyValue { key: 0, value: 0, next: NONE }
}

/// A fixed-capacity hash table from voxel keys to object indices.
///
/// Collisions are chained through an arena of slots addressed by index, so
/// that the whole structure is two flat arrays of `u32`. A free stack holds
/// the arena indices that no chain uses.
pub struct GPUHashTable {
    buckets: Vec<u32>,
    objects: Vec<KeyValue>,
    objects_left: Vec<usize>,
    block_size: UVec3,
    /// For each bucket, the arena indices of its chain, head first.
    chains: Ghost<Seq<Seq<usize>>>,
}

impl GPUHashTable {
    pub closed spec fn bucket_count(&self) -> nat {
        self.buckets@.len()
    }

    pub closed spec fn capacity(&self) -> nat {
        self.objects@.len()
    }

    /// Number of arena slots that no chain uses.
    pub open spec fn free_count(&self) -> nat {
        self.free_stack().len()
    }

    /// The free stack, bottom first; an insertion takes its last entry.
    pub closed spec fn free_stack(&self) -> Seq<usize> {
        self.objects_left@
    }

    /// The arena indices of bucket `b`'s chain, head first: the slots
    /// reached from `heads()[b]` through `next` (see `lemma_layout`).
    pub closed spec fn chain(&self, b: int) -> Seq<usize> {
        self.chains@[b]
    }

    pub closed spec fn block(&self) -> UVec3 {
        self.block_size
    }

    /// The bucket array: for each bucket, the arena index of its chain's
    /// head, or `NONE`.
    pub closed spec fn heads(&self) -> Seq<u32> {
        self.buckets@
    }

    /// The arena, slot by slot.
    pub closed spec fn slots(&self) -> Seq<KeyValue> {
        self.objects@
    }

    pub open spec fn bucket_of(&self, h: u32) -> int {
        (h as int) % (self.bucket_count() as int)
    }

    /// The (key hash, value) pair in slot `i`.
    pub open spec fn slot_pair(&self, i: usize) -> (u32, u32) {
        (self.slots()[i as int].key, self.slots()[i as int].value)
    }

    /// Position `j` of bucket `b`'s chain names a slot of the arena whose
    /// key falls in bucket `b` and whose `next` is the chain's following
    /// slot, or `NONE` at the end.
    pub open spec fn linked(&self, b: int, j: int) -> bool {
        let i = self.chain(b)[j];
        &&& i < self.capacity()
        &&& self.bucket_of(self.slots()[i as int].key) == b
        &&& self.slots()[i as int].next == if j + 1 < self.chain(b).len() {
            self.chain(b)[j + 1] as u32
        } else {
            NONE
        }
    }

    /// The position in bucket `b`'s chain of the slot that holds `p`.
    pub open spec fn chain_position(&self, b: int, p: (u32, u32)) -> int {
        choose|j: int| 0 <= j < self.chain(b).len() && self.slot_pair(self.chain(b)[j]) == p
    }

    spec fn pair_at(&self, i: usize) -> (u32, u32) {
        (self.objects@[i as int].key, self.objects@[i as int].value)
    }

    spec fn chain_pairs(&self, b: int) -> Seq<(u32, u32)> {
        self.chains@[b].map_values(|i: usize| self.pair_at(i))
    }

    /// The (key hash, value) pairs that the table holds.
    pub closed spec fn contents(&self) -> Set<(u32, u32)> {
        Set::new(|p: (u32, u32)| self.chain_pairs(self.bucket_of(p.0)).contains(p))
    }

    spec fn slot_ok(&self, b: int, j: int) -> bool {
        let i = self.chains@[b][j];
        &&& i < self.objects@.len()
        &&& self.bucket_of(self.objects@[i as int].key) == b
        &&& self.objects@[i as int].next == if j + 1 < self.chains@[b].len() {
            self.chains@[b][j + 1] as u32
        } else {
            NONE
        }
    }

    /// Every chain is linked from its bucket and ends at `NONE`; chains hold
    /// no pair twice; the free stack and the chains share no index and
    /// together cover the arena; free slots are zeroed.
    pub closed spec fn wf(&self) -> bool {
        let nb = self.buckets@.len();
        let free = self.objects_left@;
        &&& nb > 0
        &&& self.objects@.len() < NONE
        &&& self.chains@.len() == nb
        &&& forall|b: int|
            0 <= b < nb ==> #[trigger] self.buckets@[b] == if self.chains@[b].len() == 0 {
                NONE
            } else {
                self.chains@[b][0] as u32
            }
        &&& forall|b: int, j: int|
            0 <= b < nb && 0 <= j < self.chains@[b].len() ==> #[trigger] self.slot_ok(b, j)
        &&& forall|b: int| 0 <= b < nb ==> (#[trigger] self.chain_pairs(b)).no_duplicates()
        &&& free.no_duplicates()
        &&& forall|k: int|
            0 <= k < free.len() ==> #[trigger] free[k] < self.objects@.len()
                && self.objects@[free[k] as int] == empty_slot()
        &&& forall|b: int, j: int, k: int|
            0 <= b < nb && 0 <= j < self.chains@[b].len() && 0 <= k < free.len()
                ==> #[trigger] self.chains@[b][j] != #[trigger] free[k]
        &&& forall|i: usize|
            i < self.objects@.len() ==> free.contains(i) || self.chains@[self.bucket_of(
                #[trigger] self.objects@[i as int].key,
            )].contains(i)
    }

    /// A table with 1000 buckets and 1000 slots, all free.
    pub fn new(block_size: UVec3) -> (r: GPUHashTable)
        ensures
            r.wf(),
            r.bucket_count() == TABLE_CAPACITY,
            r.capacity() == TABLE_CAPACITY,
            r.free_count() == TABLE_CAPACITY,
            r.block() == block_size,
            r.contents() == Set::<(u32, u32)>::empty(),
            forall|b: int| 0 <= b < TABLE_CAPACITY ==> #[trigger] r.heads()[b] == NONE,
            forall|i: int| 0 <= i < TABLE_CAPACITY ==> #[trigger] r.slots()[i] == empty_slot(),
            forall|b: int| 0 <= b < TABLE_CAPACITY ==> #[trigger] r.chain(b).len() == 0,
            r.free_stack() == Seq::new(TABLE_CAPACITY as nat, |k: int| k as usize),
    {
        Self::with_capacity(block_size, TABLE_CAPACITY, TABLE_CAPACITY)
    }

    /// A table with the given numbers of buckets and slots, all free.
    pub fn with_capacity(block_size: UVec3, bucket_count: usize, capacity: usize) -> (r:
        GPUHashTable)
        requires
            bucket_count > 0,
            capacity < NONE,
        ensures
            r.wf(),
            r.bucket_count() == bucket_count,
            r.capacity() == capacity,
            r.free_count() == capacity,
            r.block() == block_size,
            r.contents() == Set::<(u32, u32)>::empty(),
            forall|b: int| 0 <= b < bucket_count ==> #[trigger] r.heads()[b] == NONE,
            forall|i: int| 0 <= i < capacity ==> #[trigger] r.slots()[i] == empty_slot(),
            forall|b: int| 0 <= b < bucket_count ==> #[trigger] r.chain(b).len() == 0,
            r.free_stack() == Seq::new(capacity as nat, |k: int| k as usize),
    {
        let mut buckets: Vec<u32> = Vec::new();
        let mut n: usize = 0;
        while n < bucket_count
            invariant
                n <= bucket_count,
                buckets@.len() == n,
                forall|b: int| 0 <= b < n ==> #[trigger] buckets@[b] == NONE,
            decreases bucket_count - n,
        {
            buckets.push(NONE);
            n = n + 1;
        }
        let mut objects: Vec<KeyValue> = Vec::new();
        let mut objects_left: Vec<usize> = Vec::new();
        let mut i: usize = 0;
        while i < capacity
            invariant
                i <= capacity,
                objects@.len() == i,
                objects_left@.len() == i,
                forall|k: int| 0 <= k < i ==> #[trigger] objects@[k] == empty_slot(),
                forall|k: int| 0 <= k < i ==> #[trigger] objects_left@[k] == k,
            decreases capacity - i,
        {
            objects.push(KeyValue { key: 0, value: 0, next: NONE });
            objects_left.push(i);
            i = i + 1;
        }
        let ghost chains = Seq::new(bucket_count as nat, |b: int| Seq::<usize>::empty());
        let r = GPUHashTable { buckets, objects, objects_left, block_size, chains: Ghost(chains) };
        assert forall|b: int| 0 <= b < bucket_count implies (#[trigger] r.chain_pairs(
            b,
        )).no_duplicates() by {
            assert(r.chain_pairs(b).len() == 0);
        }
        assert forall|i: usize| i < capacity implies r.objects_left@.contains(i) by {
            assert(r.objects_left@[i as int] == i);
        }
        assert(r.contents() =~= Set::<(u32, u32)>::empty());
        assert(r.objects_left@ =~= Seq::new(capacity as nat, |k: int| k as usize));
        r
    }

    /// The free stack holds no more indices than the arena has slots.
    pub proof fn lemma_free_count_bound(&self)
        requires
            self.wf(),
        ensures
            self.free_count() <= self.capacity(),
    {
        let free = self.objects_left@;
        let cap = self.objects@.len() as int;
        let s = free.map_values(|u: usize| u as int);
        assert(s.no_duplicates()) by {
            assert forall|m: int, n: int| 0 <= m < s.len() && 0 <= n < s.len() && m != n implies s[m]
                != s[n] by {
                assert(free[m] != free[n]);
            }
        }
        s.unique_seq_to_set();
        assert forall|x: int| s.to_set().contains(x) implies set_int_range(0, cap).contains(x) by {
            let k = choose|k: int| 0 <= k < s.len() && s[k] == x;
            assert(free[k] < cap);
        }
        lemma_int_range(0, cap);
        lemma_len_subset(s.to_set(), set_int_range(0, cap));
    }

    /// The bucket array, the arena and the free stack as `wf` ties them to
    /// the chains and to `contents()`.
    pub proof fn lemma_layout(&self)
        requires
            self.wf(),
        ensures
            self.bucket_count() > 0,
            self.heads().len() == self.bucket_count(),
            self.slots().len() == self.capacity(),
            self.capacity() < NONE,
            forall|b: int|
                0 <= b < self.bucket_count() ==> #[trigger] self.heads()[b] == if self.chain(b).len()
                    == 0 {
                    NONE
                } else {
                    self.chain(b)[0] as u32
                },
            forall|b: int, j: int|
                0 <= b < self.bucket_count() && 0 <= j < self.chain(b).len() ==> #[trigger] self.linked(
                    b,
                    j,
                ),
            forall|b: int, j: int, m: int|
                0 <= b < self.bucket_count() && 0 <= j < self.chain(b).len() && 0 <= m < self.chain(
                    b,
                ).len() && j != m ==> self.slot_pair(#[trigger] self.chain(b)[j]) != self.slot_pair(
                    #[trigger] self.chain(b)[m],
                ),
            forall|p: (u32, u32)| #[trigger]
                self.contents().contains(p) <==> exists|j: int|
                    0 <= j < self.chain(self.bucket_of(p.0)).len() && self.slot_pair(
                        #[trigger] self.chain(self.bucket_of(p.0))[j],
                    ) == p,
            self.free_stack().no_duplicates(),
            forall|k: int|
                0 <= k < self.free_stack().len() ==> #[trigger] self.free_stack()[k] < self.capacity()
                    && self.slots()[self.free_stack()[k] as int] == empty_slot(),
            forall|b: int, j: int, k: int|
                0 <= b < self.bucket_count() && 0 <= j < self.chain(b).len() && 0 <= k
                    < self.free_stack().len() ==> #[trigger] self.chain(b)[j]
                    != #[trigger] self.free_stack()[k],
            forall|i: usize|
                i < self.capacity() ==> self.free_stack().contains(i) || self.chain(
                    self.bucket_of(#[trigger] self.slots()[i as int].key),
                ).contains(i),
    {
        let nb = self.bucket_count() as int;
        assert forall|b: int, j: int|
            0 <= b < nb && 0 <= j < self.chain(b).len() implies #[trigger] self.linked(b, j) by {
            assert(self.slot_ok(b, j));
        }
        assert forall|b: int, j: int, m: int|
            0 <= b < nb && 0 <= j < self.chain(b).len() && 0 <= m < self.chain(b).len() && j != m
                implies self.slot_pair(#[trigger] self.chain(b)[j]) != self.slot_pair(
            #[trigger] self.chain(b)[m],
        ) by {
            assert(self.chain_pairs(b).no_duplicates());
            assert(self.chain_pairs(b)[j] != self.chain_pairs(b)[m]);
        }
        assert forall|p: (u32, u32)| #[trigger]
            self.contents().contains(p) <==> exists|j: int|
                0 <= j < self.chain(self.bucket_of(p.0)).len() && self.slot_pair(
                    #[trigger] self.chain(self.bucket_of(p.0))[j],
                ) == p by {
            let b = self.bucket_of(p.0);
            if self.contents().contains(p) {
                let j = choose|j: int|
                    0 <= j < self.chain_pairs(b).len() && self.chain_pairs(b)[j] == p;
                assert(self.slot_pair(self.chain(b)[j]) == p);
            }
            if exists|j: int|
                0 <= j < self.chain(b).len() && self.slot_pair(#[trigger] self.chain(b)[j]) == p {
                let j = choose|j: int|
                    0 <= j < self.chain(b).len() && self.slot_pair(#[trigger] self.chain(b)[j]) == p;
                assert(self.chain_pairs(b)[j] == p);
            }
        }
    }

    /// Walks the chain of bucket `b` until it meets the pair `(h, val)` or the
    /// chain's last slot. Returns whether the pair was met, the arena index
    /// where the walk stopped, the index of the slot before it (`NONE` at the
    /// head) and the position in the chain where it stopped.
    fn locate(&self, b: usize, h: u32, val: u32) -> (r: (bool, u32, u32, Ghost<int>))
        requires
            self.wf(),
            b < self.bucket_count(),
            self.chains@[b as int].len() > 0,
        ensures
            0 <= r.3@ < self.chains@[b as int].len(),
            r.1 as int == self.chains@[b as int][r.3@] as int,
            r.1 < self.capacity(),
            r.3@ == 0 ==> r.2 == NONE,
            r.3@ > 0 ==> r.2 as int == self.chains@[b as int][r.3@ - 1] as int,
            r.3@ > 0 ==> r.2 < self.capacity(),
            r.0 ==> self.chain_pairs(b as int)[r.3@] == (h, val),
            !r.0 ==> r.3@ == self.chains@[b as int].len() - 1 && !self.chain_pairs(
                b as int,
            ).contains((h, val)),
    {
        let ghost chain = self.chains@[b as int];
        let mut cur: u32 = self.buckets[b];
        let mut prev: u32 = NONE;
        let ghost mut j: int = 0;
        assert(self.slot_ok(b as int, 0));
        loop
            invariant
                self.wf(),
                b < self.bucket_count(),
                chain == self.chains@[b as int],
                0 <= j < chain.len(),
                cur as int == chain[j] as int,
                j == 0 ==> prev == NONE,
                j > 0 ==> prev as int == chain[j - 1] as int,
                j > 0 ==> prev < self.objects@.len(),
                forall|k: int| 0 <= k < j ==> self.chain_pairs(b as int)[k] != (h, val),
            decreases chain.len() - j,
        {
            assert(self.slot_ok(b as int, j));
            proof {
                if j + 1 < chain.len() {
                    assert(self.slot_ok(b as int, j + 1));
                }
            }
            let kv = self.objects[cur as usize];
            assert(self.chain_pairs(b as int)[j] == (kv.key, kv.value));
            if kv.key == h && kv.value == val {
                return (true, cur, prev, Ghost(j));
            }
            if kv.next == NONE {
                proof {
                    assert forall|k: int|
                        0 <= k < chain.len() implies self.chain_pairs(b as int)[k] != (h, val) by {
                        if k == j {
                        }
                    }
                }
                return (false, cur, prev, Ghost(j));
            }
            prev = cur;
            cur = kv.next;
            proof {
                j = j + 1;
            }
        }
    }

    /// Whether the table holds `val` under the hash of `key`.
    pub fn contains(&self, key: UVec3, val: u32) -> (r: bool)
        requires
            self.wf(),
        ensures
            r == self.contents().contains((hash_of(self.block(), key), val)),
    {
        let h = self.hash(key);
        let b: usize = (h as usize) % self.buckets.len();
        if self.buckets[b] == NONE {
            proof {
                self.lemma_empty_head(b as int);
            }
            return false;
        }
        let found = self.locate(b, h, val);
        found.0
    }

    proof fn lemma_empty_head(&self, b: int)
        requires
            self.wf(),
            0 <= b < self.bucket_count(),
            self.buckets@[b] == NONE,
        ensures
            self.chains@[b].len() == 0,
            self.chain_pairs(b).len() == 0,
    {
        if self.chains@[b].len() > 0 {
            assert(self.slot_ok(b, 0));
        }
    }

    proof fn lemma_append(pre: Self, post: Self, b: int, i: usize, h: u32, val: u32)
        requires
            pre.wf(),
            0 <= b < pre.bucket_count(),
            pre.bucket_of(h) == b,
            !pre.chain_pairs(b).contains((h, val)),
            pre.objects_left@.len() > 0,
            i == pre.objects_left@.last(),
            post.objects_left@ == pre.objects_left@.drop_last(),
            post.block_size == pre.block_size,
            post.chains@ == pre.chains@.update(b, pre.chains@[b].push(i)),
            post.buckets@ == if pre.chains@[b].len() == 0 {
                pre.buckets@.update(b, i as u32)
            } else {
                pre.buckets@
            },
            post.objects@.len() == pre.objects@.len(),
            post.objects@[i as int] == (KeyValue { key: h, value: val, next: NONE }),
            pre.chains@[b].len() > 0 ==> ({
                let t = pre.chains@[b].last();
                post.objects@[t as int] == (KeyValue { next: i as u32, ..pre.objects@[t as int] })
            }),
            forall|x: int|
                0 <= x < pre.objects@.len() && x != i && (pre.chains@[b].len() == 0 || x
                    != pre.chains@[b].last()) ==> #[trigger] post.objects@[x] == pre.objects@[x],
        ensures
            post.wf(),
            post.contents() == pre.contents().insert((h, val)),
    {
        let nb = pre.buckets@.len() as int;
        let free = pre.objects_left@;
        let last = free.len() - 1;
        let old_chain = pre.chains@[b];
        assert(free[last] == i);
        assert(i < pre.objects@.len());
        assert forall|c: int, j: int|
            0 <= c < nb && 0 <= j < pre.chains@[c].len() implies #[trigger] pre.chains@[c][j] != i by {
            assert(pre.chains@[c][j] != free[last]);
        }
        assert forall|x: usize| x != i && x < pre.objects@.len() implies #[trigger] post.pair_at(x)
            == pre.pair_at(x) by {
            if old_chain.len() > 0 && x == old_chain.last() {
            } else if x < pre.objects@.len() {
                assert(post.objects@[x as int] == pre.objects@[x as int]);
            }
        }
        assert forall|c: int| 0 <= c < nb && c != b implies #[trigger] post.chain_pairs(c)
            == pre.chain_pairs(c) by {
            assert forall|j: int| 0 <= j < pre.chains@[c].len() implies post.chain_pairs(c)[j]
                == pre.chain_pairs(c)[j] by {
                assert(pre.slot_ok(c, j));
            }
            assert(post.chain_pairs(c) =~= pre.chain_pairs(c));
        }
        assert forall|j: int| 0 <= j < old_chain.len() implies post.chain_pairs(b)[j]
            == pre.chain_pairs(b)[j] by {
            assert(pre.slot_ok(b, j));
        }
        assert(post.chain_pairs(b) =~= pre.chain_pairs(b).push((h, val)));
        // heads
        assert forall|c: int| 0 <= c < nb implies #[trigger] post.buckets@[c] == if post.chains@[
            c
        ].len() == 0 {
            NONE
        } else {
            post.chains@[c][0] as u32
        } by {
            if c == b && old_chain.len() > 0 {
                assert(pre.slot_ok(b, 0));
            }
        }
        // links
        assert forall|c: int, j: int|
            0 <= c < nb && 0 <= j < post.chains@[c].len() implies #[trigger] post.slot_ok(c, j) by {
            if c != b {
                assert(pre.slot_ok(c, j));
                let x = pre.chains@[c][j];
                if old_chain.len() > 0 && x == old_chain.last() {
                    assert(pre.slot_ok(b, old_chain.len() - 1));
                }
                assert(post.objects@[x as int] == pre.objects@[x as int]);
            } else if j < old_chain.len() {
                assert(pre.slot_ok(b, j));
                let x = old_chain[j];
                if j < old_chain.len() - 1 {
                    assert(pre.chain_pairs(b)[j] != pre.chain_pairs(b)[old_chain.len() - 1]);
                    assert(post.objects@[x as int] == pre.objects@[x as int]);
                }
            }
        }
        // no duplicate pairs
        assert forall|c: int| 0 <= c < nb implies (#[trigger] post.chain_pairs(c)).no_duplicates() by {
            if c == b {
                let s = post.chain_pairs(b);
                assert forall|m: int, n: int|
                    0 <= m < s.len() && 0 <= n < s.len() && m != n implies s[m] != s[n] by {
                    if m == old_chain.len() as int {
                        assert(pre.chain_pairs(b)[n] == s[n]);
                    } else if n == old_chain.len() as int {
                        assert(pre.chain_pairs(b)[m] == s[m]);
                    }
                }
            }
        }
        // free stack
        assert forall|k: int|
            0 <= k < post.objects_left@.len() implies #[trigger] post.objects_left@[k]
            < post.objects@.len() && post.objects@[post.objects_left@[k] as int] == empty_slot() by {
            let x = free[k];
            assert(free[k] != free[last]);
            if old_chain.len() > 0 {
                assert(old_chain[old_chain.len() - 1] != free[k]);
            }
            assert(post.objects@[x as int] == pre.objects@[x as int]);
        }
        assert forall|c: int, j: int, k: int|
            0 <= c < nb && 0 <= j < post.chains@[c].len() && 0 <= k < post.objects_left@.len()
                implies #[trigger] post.chains@[c][j] != #[trigger] post.objects_left@[k] by {
            assert(free[k] != free[last]);
            if !(c == b && j == old_chain.len()) {
                assert(pre.chains@[c][j] != free[k]);
            }
        }
        assert forall|x: usize| x < post.objects@.len() implies post.objects_left@.contains(x)
            || post.chains@[post.bucket_of(#[trigger] post.objects@[x as int].key)].contains(x) by {
            if x == i {
                assert(post.chains@[b][old_chain.len() as int] == i);
            } else {
                assert(post.pair_at(x) == pre.pair_at(x));
                let bx = pre.bucket_of(pre.objects@[x as int].key);
                if free.contains(x) {
                    let k = choose|k: int| 0 <= k < free.len() && free[k] == x;
                    assert(post.objects_left@[k] == x);
                } else {
                    let j = choose|j: int| 0 <= j < pre.chains@[bx].len() && pre.chains@[bx][j] == x;
                    assert(post.chains@[bx][j] == x);
                }
            }
        }
        assert(post.contents() =~= pre.contents().insert((h, val))) by {
            assert forall|q: (u32, u32)| #[trigger] post.contents().contains(q) == pre.contents().insert((h, val)).contains(q) by {
                let bq = pre.bucket_of(q.0);
                if bq == b {
                    let s = pre.chain_pairs(b);
                    if s.contains(q) {
                        let m = choose|m: int| 0 <= m < s.len() && s[m] == q;
                        assert(post.chain_pairs(b)[m] == q);
                    }
                    if q == (h, val) {
                        assert(post.chain_pairs(b)[s.len() as int] == q);
                    }
                }
            }
        }
    }

    /// Adds `val` under the hash of `key`. Adding a pair that the table
    /// already holds changes nothing. Fails with `TableFull`, and changes
    /// nothing, when the pair is new and no slot is free.
    pub fn insert(&mut self, key: UVec3, val: u32) -> (r: Result<(), WorldError>)
        requires
            old(self).wf(),
        ensures
            final(self).wf(),
            final(self).bucket_count() == old(self).bucket_count(),
            final(self).capacity() == old(self).capacity(),
            final(self).block() == old(self).block(),
            ({
                let p = (hash_of(old(self).block(), key), val);
                &&& r is Err <==> (!old(self).contents().contains(p) && old(self).free_count() == 0)
                &&& r is Err ==> r == Err::<(), WorldError>(WorldError::TableFull) && *final(self)
                    == *old(self)
                &&& r is Ok ==> final(self).contents() == old(self).contents().insert(p)
                &&& r is Ok ==> final(self).free_count() == if old(self).contents().contains(p) {
                    old(self).free_count()
                } else {
                    (old(self).free_count() - 1) as nat
                }
                &&& old(self).contents().contains(p) ==> *final(self) == *old(self)
            }),
            ({
                // a new pair goes, as (hash, value, NONE), into the slot on top of
                // the free stack, linked at the tail of its bucket's chain
                let p = (hash_of(old(self).block(), key), val);
                let b = old(self).bucket_of(p.0);
                let c = old(self).chain(b);
                let s = old(self).free_stack().last();
                !old(self).contents().contains(p) && old(self).free_count() > 0 ==> {
                    &&& final(self).free_stack() == old(self).free_stack().drop_last()
                    &&& final(self).chain(b) == c.push(s)
                    &&& forall|b2: int|
                        0 <= b2 < old(self).bucket_count() && b2 != b ==> #[trigger] final(self).chain(b2)
                            == old(self).chain(b2)
                    &&& final(self).heads() == if c.len() == 0 {
                        old(self).heads().update(b, s as u32)
                    } else {
                        old(self).heads()
                    }
                    &&& final(self).slots() == (if c.len() == 0 {
                        old(self).slots()
                    } else {
                        old(self).slots().update(
                            c.last() as int,
                            KeyValue { next: s as u32, ..old(self).slots()[c.last() as int] },
                        )
                    }).update(s as int, KeyValue { key: p.0, value: val, next: NONE })
                }
            }),
    {
        let h = self.hash(key);
        let b: usize = (h as usize) % self.buckets.len();
        let ghost pre = *self;
        let mut tail: u32 = NONE;
        if self.buckets[b] != NONE {
            let found = self.locate(b, h, val);
            if found.0 {
                assert(self.contents().contains((h, val)));
                return Ok(());
            }
            tail = found.1;
        } else {
            proof {
                self.lemma_empty_head(b as int);
            }
        }
        if self.objects_left.len() == 0 {
            return Err(WorldError::TableFull);
        }
        let i = self.objects_left.pop().unwrap();
        proof {
            assert(pre.objects_left@[pre.objects_left@.len() - 1] == i);
            if tail != NONE {
                assert(pre.chains@[b as int].len() > 0);
            }
        }
        if tail == NONE {
            self.buckets[b] = i as u32;
        } else {
            let mut t = self.objects[tail as usize];
            t.next = i as u32;
            self.objects[tail as usize] = t;
        }
        self.objects[i] = KeyValue { key: h, value: val, next: NONE };
        proof {
            self.chains@ = self.chains@.update(b as int, self.chains@[b as int].push(i));
            Self::lemma_append(pre, *self, b as int, i, h, val);
            assert(self.objects_left@ =~= pre.objects_left@.drop_last());
        }
        Ok(())
    }

    proof fn lemma_unlink(pre: Self, post: Self, b: int, j: int)
        requires
            pre.wf(),
            0 <= b < pre.bucket_count(),
            0 <= j < pre.chains@[b].len(),
            post.chains@ == pre.chains@.update(b, pre.chains@[b].remove(j)),
            post.objects_left@ == pre.objects_left@.push(pre.chains@[b][j]),
            post.block_size == pre.block_size,
            post.buckets@ == if j == 0 {
                pre.buckets@.update(b, pre.objects@[pre.chains@[b][j] as int].next)
            } else {
                pre.buckets@
            },
            post.objects@.len() == pre.objects@.len(),
            post.objects@[pre.chains@[b][j] as int] == empty_slot(),
            j > 0 ==> ({
                let t = pre.chains@[b][j - 1];
                post.objects@[t as int] == (KeyValue {
                    next: pre.objects@[pre.chains@[b][j] as int].next,
                    ..pre.objects@[t as int]
                })
            }),
            forall|y: int|
                0 <= y < pre.objects@.len() && y != pre.chains@[b][j] && (j == 0 || y
                    != pre.chains@[b][j - 1]) ==> #[trigger] post.objects@[y] == pre.objects@[y],
        ensures
            post.wf(),
            post.contents() == pre.contents().remove(pre.chain_pairs(b)[j]),
    {
        let nb = pre.buckets@.len() as int;
        let free = pre.objects_left@;
        let chain = pre.chains@[b];
        let new_chain = post.chains@[b];
        let x = chain[j];
        let p = pre.chain_pairs(b)[j];
        assert(pre.slot_ok(b, j));
        assert(new_chain =~= chain.remove(j));
        // indices of chain b other than x
        assert forall|m: int| 0 <= m < chain.len() && m != j implies #[trigger] chain[m] != x by {
            assert(pre.chain_pairs(b)[m] != pre.chain_pairs(b)[j]);
        }
        assert forall|y: usize| y != x && y < pre.objects@.len() implies #[trigger] post.pair_at(y)
            == pre.pair_at(y) by {
            if j > 0 && y == chain[j - 1] {
            } else {
                assert(post.objects@[y as int] == pre.objects@[y as int]);
            }
        }
        assert forall|c: int, m: int|
            0 <= c < nb && c != b && 0 <= m < pre.chains@[c].len() implies #[trigger] pre.chains@[c][m]
            != x && (j == 0 || pre.chains@[c][m] != chain[j - 1]) by {
            assert(pre.slot_ok(c, m));
            if j > 0 {
                assert(pre.slot_ok(b, j - 1));
            }
        }
        assert forall|c: int| 0 <= c < nb && c != b implies #[trigger] post.chain_pairs(c)
            == pre.chain_pairs(c) by {
            assert forall|m: int| 0 <= m < pre.chains@[c].len() implies post.chain_pairs(c)[m]
                == pre.chain_pairs(c)[m] by {
                assert(pre.slot_ok(c, m));
            }
            assert(post.chain_pairs(c) =~= pre.chain_pairs(c));
        }
        assert forall|m: int| 0 <= m < new_chain.len() implies post.chain_pairs(b)[m]
            == pre.chain_pairs(b).remove(j)[m] by {
            if m < j {
                assert(pre.slot_ok(b, m));
            } else {
                assert(pre.slot_ok(b, m + 1));
            }
        }
        assert(post.chain_pairs(b) =~= pre.chain_pairs(b).remove(j));
        // heads
        assert forall|c: int| 0 <= c < nb implies #[trigger] post.buckets@[c] == if post.chains@[
            c
        ].len() == 0 {
            NONE
        } else {
            post.chains@[c][0] as u32
        } by {
            if c == b && j == 0 && chain.len() > 1 {
                assert(new_chain[0] == chain[1]);
            }
        }
        // links
        assert forall|c: int, m: int|
            0 <= c < nb && 0 <= m < post.chains@[c].len() implies #[trigger] post.slot_ok(c, m) by {
            if c != b {
                assert(pre.slot_ok(c, m));
                let y = pre.chains@[c][m];
                assert(post.objects@[y as int] == pre.objects@[y as int]);
            } else if m < j {
                assert(pre.slot_ok(b, m));
                let y = chain[m];
                if m < j - 1 {
                    assert(chain[m] != chain[j - 1]) by {
                        assert(pre.chain_pairs(b)[m] != pre.chain_pairs(b)[j - 1]);
                    }
                    assert(post.objects@[y as int] == pre.objects@[y as int]);
                }
            } else {
                assert(pre.slot_ok(b, m + 1));
                let y = chain[m + 1];
                if j > 0 {
                    assert(chain[m + 1] != chain[j - 1]) by {
                        assert(pre.chain_pairs(b)[m + 1] != pre.chain_pairs(b)[j - 1]);
                    }
                }
                assert(post.objects@[y as int] == pre.objects@[y as int]);
            }
        }
        // no duplicate pairs
        assert forall|c: int| 0 <= c < nb implies (#[trigger] post.chain_pairs(c)).no_duplicates() by {
            if c == b {
                let s = pre.chain_pairs(b);
                let t = post.chain_pairs(b);
                assert forall|m: int, n: int|
                    0 <= m < t.len() && 0 <= n < t.len() && m != n implies t[m] != t[n] by {
                    let m2 = if m < j { m } else { m + 1 };
                    let n2 = if n < j { n } else { n + 1 };
                    assert(t[m] == s[m2]);
                    assert(t[n] == s[n2]);
                }
            }
        }
        // free stack
        assert forall|c: int, m: int|
            0 <= c < nb && 0 <= m < pre.chains@[c].len() implies #[trigger] pre.chains@[c][m]
            != x || (c == b && m == j) by {
            if c == b && m != j {
            }
        }
        assert(!free.contains(x)) by {
            if free.contains(x) {
                let k = choose|k: int| 0 <= k < free.len() && free[k] == x;
                assert(pre.chains@[b][j] != free[k]);
            }
        }
        assert forall|k: int|
            0 <= k < post.objects_left@.len() implies #[trigger] post.objects_left@[k]
            < post.objects@.len() && post.objects@[post.objects_left@[k] as int] == empty_slot() by {
            if k < free.len() {
                let y = free[k];
                if j > 0 {
                    assert(chain[j - 1] != free[k]);
                }
                assert(post.objects@[y as int] == pre.objects@[y as int]);
            }
        }
        assert forall|c: int, m: int, k: int|
            0 <= c < nb && 0 <= m < post.chains@[c].len() && 0 <= k < post.objects_left@.len()
                implies #[trigger] post.chains@[c][m] != #[trigger] post.objects_left@[k] by {
            let m2 = if c == b && m >= j { m + 1 } else { m };
            assert(post.chains@[c][m] == pre.chains@[c][m2]);
            if k < free.len() {
                assert(pre.chains@[c][m2] != free[k]);
            } else {
                assert(pre.chains@[c][m2] != x);
            }
        }
        assert(post.objects_left@.no_duplicates()) by {
            let f = post.objects_left@;
            assert forall|m: int, n: int|
                0 <= m < f.len() && 0 <= n < f.len() && m != n implies f[m] != f[n] by {
                if m == free.len() {
                    assert(free[n] != x);
                } else if n == free.len() {
                    assert(free[m] != x);
                }
            }
        }
        assert forall|y: usize| y < post.objects@.len() implies post.objects_left@.contains(y)
            || post.chains@[post.bucket_of(#[trigger] post.objects@[y as int].key)].contains(y) by {
            if y == x {
                assert(post.objects_left@[free.len() as int] == x);
            } else {
                assert(post.pair_at(y) == pre.pair_at(y));
                let by = pre.bucket_of(pre.objects@[y as int].key);
                if free.contains(y) {
                    let k = choose|k: int| 0 <= k < free.len() && free[k] == y;
                    assert(post.objects_left@[k] == y);
                } else {
                    let m = choose|m: int| 0 <= m < pre.chains@[by].len() && pre.chains@[by][m] == y;
                    if by == b {
                        let m2 = if m < j { m } else { m - 1 };
                        assert(post.chains@[b][m2] == y);
                    } else {
                        assert(post.chains@[by][m] == y);
                    }
                }
            }
        }
        assert(post.contents() =~= pre.contents().remove(p)) by {
            assert(pre.bucket_of(p.0) == b);
            assert forall|q: (u32, u32)| #[trigger] post.contents().contains(q)
                == pre.contents().remove(p).contains(q) by {
                let bq = pre.bucket_of(q.0);
                if bq == b {
                    let s = pre.chain_pairs(b);
                    let t = post.chain_pairs(b);
                    if s.contains(q) && q != p {
                        let m = choose|m: int| 0 <= m < s.len() && s[m] == q;
                        let m2 = if m < j { m } else { m - 1 };
                        assert(t[m2] == q);
                    }
                    if t.contains(q) {
                        let m = choose|m: int| 0 <= m < t.len() && t[m] == q;
                        let m2 = if m < j { m } else { m + 1 };
                        assert(s[m2] == q);
                    }
                }
            }
        }
    }

    /// Removes `val` from under the hash of `key`. Fails with `KeyNotFound`,
    /// and changes nothing, when the table does not hold that pair.
    pub fn remove(&mut self, key: UVec3, val: u32) -> (r: Result<(), WorldError>)
        requires
            old(self).wf(),
        ensures
            final(self).wf(),
            final(self).bucket_count() == old(self).bucket_count(),
            final(self).capacity() == old(self).capacity(),
            final(self).block() == old(self).block(),
            ({
                let p = (hash_of(old(self).block(), key), val);
                &&& r is Ok <==> old(self).contents().contains(p)
                &&& r is Err ==> r == Err::<(), WorldError>(WorldError::KeyNotFound) && *final(self)
                    == *old(self)
                &&& r is Ok ==> final(self).contents() == old(self).contents().remove(p)
                &&& r is Ok ==> final(self).free_count() == old(self).free_count() + 1
            }),
            ({
                // the slot that holds the pair is spliced out of its chain, zeroed
                // and pushed on the free stack; other chains are untouched
                let p = (hash_of(old(self).block(), key), val);
                let b = old(self).bucket_of(p.0);
                let c = old(self).chain(b);
                let j = old(self).chain_position(b, p);
                let s = c[j];
                r is Ok ==> {
                    &&& 0 <= j < c.len()
                    &&& final(self).free_stack() == old(self).free_stack().push(s)
                    &&& final(self).chain(b) == c.remove(j)
                    &&& forall|b2: int|
                        0 <= b2 < old(self).bucket_count() && b2 != b ==> #[trigger] final(self).chain(b2)
                            == old(self).chain(b2)
                    &&& final(self).heads() == if j == 0 {
                        old(self).heads().update(b, old(self).slots()[s as int].next)
                    } else {
                        old(self).heads()
                    }
                    &&& final(self).slots() == (if j == 0 {
                        old(self).slots()
                    } else {
                        old(self).slots().update(
                            c[j - 1] as int,
                            KeyValue {
                                next: old(self).slots()[s as int].next,
                                ..old(self).slots()[c[j - 1] as int]
                            },
                        )
                    }).update(s as int, empty_slot())
                }
            }),
    {
        let h = self.hash(key);
        let b: usize = (h as usize) % self.buckets.len();
        let ghost pre = *self;
        if self.buckets[b] == NONE {
            proof {
                self.lemma_empty_head(b as int);
            }
            return Err(WorldError::KeyNotFound);
        }
        let found = self.locate(b, h, val);
        if !found.0 {
            return Err(WorldError::KeyNotFound);
        }
        let idx = found.1;
        let prev = found.2;
        let ghost j = found.3@;
        let next = self.objects[idx as usize].next;
        if prev == NONE {
            // the slot is the head of its chain
            self.buckets[b] = next;
        } else {
            let mut t = self.objects[prev as usize];
            t.next = next;
            self.objects[prev as usize] = t;
        }
        self.objects[idx as usize] = KeyValue { key: 0, value: 0, next: NONE };
        self.objects_left.push(idx as usize);
        proof {
            if j > 0 {
                assert(pre.slot_ok(b as int, j - 1));
                assert(pre.chain_pairs(b as int)[j - 1] != pre.chain_pairs(b as int)[j]);
            }
            self.chains@ = self.chains@.update(b as int, self.chains@[b as int].remove(j));
            Self::lemma_unlink(pre, *self, b as int, j);
            let q = pre.chain_position(b as int, (h, val));
            assert(pre.slot_pair(pre.chain(b as int)[j]) == (h, val));
            assert(pre.chain_pairs(b as int)[j] == (h, val));
            assert(pre.chain_pairs(b as int)[q] == (h, val));
            assert(q == j);
        }
        Ok(())
    }

    /// Writes the arena into `list_to_fill` as `(key, value, next)` triples
    /// in slot order; the words past the last triple are left as they were.
    pub fn opengl_compatible_objects_list(&self, list_to_fill: &mut [u32])
        requires
            old(list_to_fill)@.len() >= 3 * self.capacity(),
        ensures
            final(list_to_fill)@.len() == old(list_to_fill)@.len(),
            forall|i: int|
                0 <= i < self.capacity() ==> {
                    &&& final(list_to_fill)@[3 * i] == #[trigger] self.slots()[i].key
                    &&& final(list_to_fill)@[3 * i + 1] == self.slots()[i].value
                    &&& final(list_to_fill)@[3 * i + 2] == self.slots()[i].next
                },
            forall|k: int|
                3 * self.capacity() <= k < old(list_to_fill)@.len() ==> #[trigger] final(list_to_fill)@[k] == old(list_to_fill)@[k],
    {
        let n = self.objects.len();
        let len = list_to_fill.len();
        let mut i: usize = 0;
        while i < n
            invariant
                n == self.objects@.len(),
                n == self.slots().len(),
                len == list_to_fill@.len(),
                i <= n,
                list_to_fill@.len() == old(list_to_fill)@.len(),
                list_to_fill@.len() >= 3 * n,
                forall|m: int|
                    0 <= m < i ==> {
                        &&& list_to_fill@[3 * m] == #[trigger] self.slots()[m].key
                        &&& list_to_fill@[3 * m + 1] == self.slots()[m].value
                        &&& list_to_fill@[3 * m + 2] == self.slots()[m].next
                    },
                forall|k: int|
                    3 * n <= k < list_to_fill@.len() ==> #[trigger] list_to_fill@[k] == old(list_to_fill)@[k],
            decreases n - i,
        {
            let val = self.objects[i];
            let ghost before = list_to_fill@;
            list_to_fill[i * 3] = val.key;
            list_to_fill[i * 3 + 1] = val.value;
            list_to_fill[i * 3 + 2] = val.next;
            proof {
                assert forall|m: int| 0 <= m < i + 1 implies {
                    &&& list_to_fill@[3 * m] == #[trigger] self.slots()[m].key
                    &&& list_to_fill@[3 * m + 1] == self.slots()[m].value
                    &&& list_to_fill@[3 * m + 2] == self.slots()[m].next
                } by {
                    if m < i {
                        assert(before[3 * m] == self.slots()[m].key);
                        assert(before[3 * m + 1] == self.slots()[m].value);
                        assert(before[3 * m + 2] == self.slots()[m].next);
                    }
                }
            }
            i = i + 1;
        }
        assert forall|m: int| 0 <= m < self.capacity() implies list_to_fill@[3 * m]
            == #[trigger] self.slots()[m].key && list_to_fill@[3 * m + 1] == self.slots()[m].value
            && list_to_fill@[3 * m + 2] == self.slots()[m].next by {
            assert(m < i);
            assert(list_to_fill@[3 * m] == self.slots()[m].key);
            assert(list_to_fill@[3 * m + 1] == self.slots()[m].value);
            assert(list_to_fill@[3 * m + 2] == self.slots()[m].next);
        }
    }

    /// The bucket array, as the renderer reads it.
    pub fn buckets(&self) -> (r: &Vec<u32>)
        ensures
            r@ == self.heads(),
    {
        &self.buckets
    }

    /// The arena, as the renderer reads it.
    pub fn objects(&self) -> (r: &Vec<KeyValue>)
        ensures
            r@ == self.slots(),
    {
        &self.objects
    }

    /// Number of arena slots that no chain uses.
    pub fn free_slots(&self) -> (r: usize)
        ensures
            r == self.free_count(),
    {
        self.objects_left.len()
    }

    fn hash(&self, val: UVec3) -> (r: u32)
        ensures
            r == hash_of(self.block(), val),
    {
        val.x.wrapping_add(
            self.block_size.y.wrapping_mul(val.y.wrapping_add(self.block_size.z.wrapping_mul(val.z))),
        )
    }
}

/// One call on a table.
pub enum TableOp {
    Insert(UVec3, u32),
    Remove(UVec3, u32),
}

/// The (key hash, value) pair that an operation names.
pub open spec fn op_pair(block: UVec3, op: TableOp) -> (u32, u32) {
    match op {
        TableOp::Insert(k, v) => (hash_of(block, k), v),
        TableOp::Remove(k, v) => (hash_of(block, k), v),
    }
}

/// `post` is what `op` leaves of `pre`: an insertion that returned `Ok`, or
/// a removal (of a held pair, or of an absent one, which changes nothing).
pub open spec fn op_applied(pre: GPUHashTable, op: TableOp, post: GPUHashTable) -> bool {
    &&& post.block() == pre.block()
    &&& match op {
        TableOp::Insert(_, _) => post.contents() == pre.contents().insert(op_pair(pre.block(), op)),
        TableOp::Remove(_, _) => post.contents() == pre.contents().remove(op_pair(pre.block(), op)),
    }
}

/// Insertions minus removals of pair `p` in `ops`.
pub open spec fn net_count(ops: Seq<TableOp>, block: UVec3, p: (u32, u32)) -> int
    decreases ops.len(),
{
    if ops.len() == 0 {
        0
    } else {
        let last = ops.last();
        net_count(ops.drop_last(), block, p) + if op_pair(block, last) != p {
            0
        } else if last is Insert {
            1
        } else {
            -1
        }
    }
}

/// After a sequence of insertions and removals, starting from a table that
/// does not hold `p`, the table holds `p` exactly when the insertions of `p`
/// outnumber its removals. Stated for sequences in which no insertion of `p`
/// finds it already held and no removal finds it absent (the count of every
/// prefix stays 0 or 1): a second insertion of a held pair changes nothing.
pub proof fn lemma_round_trip(tables: Seq<GPUHashTable>, ops: Seq<TableOp>, p: (u32, u32))
    requires
        tables.len() == ops.len() + 1,
        !tables[0].contents().contains(p),
        forall|i: int| 0 <= i < ops.len() ==> op_applied(tables[i], #[trigger] ops[i], tables[i + 1]),
        forall|i: int|
            0 <= i <= ops.len() ==> 0 <= #[trigger] net_count(ops.take(i), tables[0].block(), p) <= 1,
    ensures
        tables.last().contents().contains(p) <==> net_count(ops, tables[0].block(), p) > 0,
    decreases ops.len(),
{
    let block = tables[0].block();
    if ops.len() == 0 {
        assert(net_count(ops, block, p) == 0);
    } else {
        let n = ops.len() - 1;
        let front = tables.drop_last();
        let head = ops.drop_last();
        assert forall|i: int| 0 <= i < head.len() implies op_applied(
            front[i],
            #[trigger] head[i],
            front[i + 1],
        ) by {
            assert(op_applied(tables[i], ops[i], tables[i + 1]));
        }
        assert forall|i: int| 0 <= i <= head.len() implies 0 <= #[trigger] net_count(
            head.take(i),
            front[0].block(),
            p,
        ) <= 1 by {
            assert(head.take(i) =~= ops.take(i));
            assert(0 <= net_count(ops.take(i), block, p) <= 1);
        }
        lemma_round_trip(front, head, p);
        lemma_block_kept(tables, ops, n);
        assert(ops.take(n + 1) =~= ops);
        assert(ops.take(n) =~= head);
        assert(0 <= net_count(ops.take(n), block, p) <= 1);
        assert(0 <= net_count(ops.take(n + 1), block, p) <= 1);
        assert(op_applied(tables[n], ops[n], tables[n + 1]));
        assert(front.last() == tables[n]);
        assert(tables.last() == tables[n + 1]);
    }
}

proof fn lemma_block_kept(tables: Seq<GPUHashTable>, ops: Seq<TableOp>, n: int)
    requires
        tables.len() == ops.len() + 1,
        forall|i: int| 0 <= i < ops.len() ==> op_applied(tables[i], #[trigger] ops[i], tables[i + 1]),
        0 <= n <= ops.len(),
    ensures
        tables[n].block() == tables[0].block(),
    decreases n,
{
    if n > 0 {
        lemma_block_kept(tables, ops, n - 1);
        assert(op_applied(tables[n - 1], ops[n - 1], tables[n]));
    }
}

} // verus!
