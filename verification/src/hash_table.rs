//! A distributed hash table with open addressing and linear probing.
//!
//! Slot `i` of the table has a status word (`free`, `reserved` or `ready`)
//! and an entry, both in the segment of PE `i / local_size`. An insert probes
//! slots `(hash + 0) % size`, `(hash + 1) % size`, ...: it reserves a slot by a
//! remote compare-and-swap of its status, from `free`, or else from `ready`;
//! a reserved ready slot whose key differs is released and the next slot
//! probed; into a free slot, or a ready one with the same key, the entry is
//! written and the slot made ready again. A find probes the same slots and
//! stops at the first ready slot with its key, or at the first free slot.
//! Each step of both protocols, given what the last remote operation
//! returned, is a function here; run alone, they implement the sequential
//! table `insert_from` / `find_from`, which is proved below.
use vstd::prelude::*;
use crate::config::{Config, alloc_addr, heap_after};
use crate::global_pointer::{Bclable, GlobalPointer, elem_size};
use crate::array::block_size;
use crate::containers::queue::lemma_slot_in_block;
use std::collections::hash_map::DefaultHasher;

verus! {

/// The status word of a slot.
pub type U = i64;

/// Key types of the hash table: copied between PEs, hashed, and compared
/// with an equality that is exactly identity.
pub trait HashKey: Bclable + core::hash::Hash {
    fn key_eq(&self, other: &Self) -> (b: bool)
        ensures
            b == (*self == *other);
}

impl HashKey for i8 { fn key_eq(&self, other: &Self) -> (b: bool) { *self == *other } }
impl HashKey for i16 { fn key_eq(&self, other: &Self) -> (b: bool) { *self == *other } }
impl HashKey for i32 { fn key_eq(&self, other: &Self) -> (b: bool) { *self == *other } }
impl HashKey for i64 { fn key_eq(&self, other: &Self) -> (b: bool) { *self == *other } }
impl HashKey for isize { fn key_eq(&self, other: &Self) -> (b: bool) { *self == *other } }
impl HashKey for u8 { fn key_eq(&self, other: &Self) -> (b: bool) { *self == *other } }
impl HashKey for u16 { fn key_eq(&self, other: &Self) -> (b: bool) { *self == *other } }
impl HashKey for u32 { fn key_eq(&self, other: &Self) -> (b: bool) { *self == *other } }
impl HashKey for u64 { fn key_eq(&self, other: &Self) -> (b: bool) { *self == *other } }
impl HashKey for usize { fn key_eq(&self, other: &Self) -> (b: bool) { *self == *other } }
impl HashKey for char { fn key_eq(&self, other: &Self) -> (b: bool) { *self == *other } }

/// A key and its value, as stored in a slot.
#[derive(Copy)]
pub struct HashEntry<K, V> {
    pub key: K,
    pub value: V,
}

impl<K: Copy, V: Copy> Clone for HashEntry<K, V> {
    fn clone(&self) -> (e: Self)
        ensures
            e == *self,
    {
        *self
    }
}

impl<K: Copy, V: Copy> Bclable for HashEntry<K, V> {}

impl<K: Copy + Default, V: Copy + Default> HashEntry<K, V> {
    /// The entry `(key, value)`.
    pub fn new(key: K, value: V) -> (e: Self)
        ensures
            e.key == key,
            e.value == value,
    {
        HashEntry { key, value }
    }

    /// The entry of the default key and the default value, which fills a slot
    /// that was never written: its key is what `K::default` returns, its value
    /// what `V::default` returns.
    pub fn null() -> (e: Self)
        ensures
            call_ensures(K::default, (), e.key),
            call_ensures(V::default, (), e.value),
    {
        HashEntry { key: K::default(), value: V::default() }
    }

    /// Overwrites both the key and the value.
    pub fn set(&mut self, key: &K, value: &V)
        ensures
            final(self).key == *key,
            final(self).value == *value,
    {
        self.key = *key;
        self.value = *value;
    }

    /// The key.
    pub fn get_key(&self) -> (k: K)
        ensures
            k == self.key,
    {
        self.key
    }

    /// The value.
    pub fn get_value(&self) -> (v: V)
        ensures
            v == self.value,
    {
        self.value
    }
}

/// `Hash::hash`: feeds `key` to the hasher `state`. The contract claims
/// nothing of the hasher's state afterwards: what a key writes into a hasher
/// depends on its type's `Hash` impl, and the key type is generic.
#[verifier::external_body]
fn hash_into<K: core::hash::Hash>(key: &K, state: &mut DefaultHasher) {
    core::hash::Hash::hash(key, state);
}

/// The slot that probe number `p` of a key with hash `hash` visits, in a table
/// of `g` slots.
pub open spec fn probe_slot(hash: int, p: int, g: int) -> int {
    (hash + p) % g
}

/// Where an insert stands. `probe` counts the slots visited before the
/// current one, whose number is `probe_slot(hash, probe, global_size)`.
#[derive(PartialEq, Eq, Structural, Clone, Copy)]
pub enum InsertState {
    /// Swap the slot's status from `current` to `reserved`.
    Reserve { probe: u64, current: U },
    /// The slot was ready and is now reserved: read its entry to compare keys.
    Compare { probe: u64 },
    /// The slot holds another key: swap its status from `reserved` back to `ready`.
    Release { probe: u64 },
    /// Write the new entry to the reserved slot.
    Write { probe: u64 },
    /// Swap the slot's status from `reserved` to `ready`.
    Publish { probe: u64 },
    /// The insert is over; whether the key is now in the table.
    Done(bool),
}

/// The remote operation an insert performs next.
pub enum InsertAction<K: Copy, V: Copy> {
    /// Compare-and-swap the status word: if it is `cond`, make it `value`;
    /// answered by `InsertEvent::Value` of the old value.
    Swap { ptr: GlobalPointer<U>, cond: U, value: U },
    /// Read an entry; answered by `InsertEvent::Entry`.
    Get(GlobalPointer<HashEntry<K, V>>),
    /// Write an entry; answered by `InsertEvent::Written`.
    Put(GlobalPointer<HashEntry<K, V>>, HashEntry<K, V>),
    /// Return this result.
    Finish(bool),
}

/// What the last remote operation of an insert or a find returned.
pub enum InsertEvent<K: Copy, V: Copy> {
    Value(U),
    Entry(HashEntry<K, V>),
    Written,
}

/// Where a find stands.
#[derive(PartialEq, Eq, Structural, Clone, Copy)]
pub enum FindState<V> {
    /// Read the status of the slot of probe `probe`.
    Status { probe: u64 },
    /// The slot is ready: read its entry.
    Entry { probe: u64 },
    /// The find is over, with the value found, if any.
    Done(Option<V>),
}

/// The remote operation a find performs next.
pub enum FindAction<K: Copy, V: Copy> {
    /// Atomically read a status word; answered by `InsertEvent::Value`.
    Fetch(GlobalPointer<U>),
    /// Read an entry; answered by `InsertEvent::Entry`.
    Get(GlobalPointer<HashEntry<K, V>>),
    /// Return this result.
    Finish(Option<V>),
}

/// A hash table of `global_size` slots, `local_size` on each PE: the status
/// words of PE `r`'s slots at `used[r]`, its entries at `hash_table[r]`.
pub struct HashTable<K: Copy, V: Copy> {
    pub global_size: usize,
    pub local_size: usize,
    pub hash_table: Vec<GlobalPointer<HashEntry<K, V>>>,
    pub used: Vec<GlobalPointer<U>>,
    pub free_flag: U,
    pub reserved_flag: U,
    pub ready_flag: U,
}

impl<K: HashKey + Default, V: Bclable + Default> HashTable<K, V> {
    /// The slots fill the PEs' blocks, every block lies in the address
    /// space, and the status values are 0 free, 1 reserved, 2 ready.
    pub open spec fn wf(&self) -> bool {
        &&& self.used@.len() > 0
        &&& self.hash_table@.len() == self.used@.len()
        &&& self.local_size > 0
        &&& self.global_size == self.local_size * self.used@.len()
        &&& self.free_flag == 0 && self.reserved_flag == 1 && self.ready_flag == 2
        &&& forall|r: int| 0 <= r < self.used@.len() ==>
            (#[trigger] self.used@[r]).ptr + self.local_size * elem_size::<U>() <= usize::MAX
        &&& forall|r: int| 0 <= r < self.hash_table@.len() ==>
            (#[trigger] self.hash_table@[r]).ptr + self.local_size * elem_size::<HashEntry<K, V>>() <= usize::MAX
    }

    /// The PE that holds slot `slot`.
    pub open spec fn node(&self, slot: int) -> int {
        slot / self.local_size as int
    }

    /// The index of slot `slot` within its PE's block.
    pub open spec fn node_slot(&self, slot: int) -> int {
        slot - self.node(slot) * self.local_size
    }

    /// The entry of slot `slot`.
    pub open spec fn entry_at(&self, slot: int) -> GlobalPointer<HashEntry<K, V>> {
        self.hash_table@[self.node(slot)].plus(self.node_slot(slot))
    }

    /// The status word of slot `slot`.
    pub open spec fn used_at(&self, slot: int) -> GlobalPointer<U> {
        self.used@[self.node(slot)].plus(self.node_slot(slot))
    }

    /// Creates a table of at least `size` slots: `ceil(size / rankn)` on each
    /// PE. It allocates this PE's status words, then its entries. The status
    /// words have to be set free and the entries null, and the blocks of the
    /// other PEs broadcast into `used` and `hash_table`.
    pub fn new(config: &mut Config, size: usize) -> (t: Self)
        requires
            old(config).wf(),
            size + old(config).rankn <= usize::MAX,
            block_size(size as int, old(config).rankn as int) * old(config).rankn <= usize::MAX,
            block_size(size as int, old(config).rankn as int) * elem_size::<HashEntry<K, V>>() + 64 <= usize::MAX,
            block_size(size as int, old(config).rankn as int) * elem_size::<U>() + 64 <= usize::MAX,
        ensures
            t.local_size == block_size(size as int, old(config).rankn as int),
            t.global_size == t.local_size * old(config).rankn,
            t.used@.len() == old(config).rankn,
            t.hash_table@.len() == old(config).rankn,
            t.free_flag == 0 && t.reserved_flag == 1 && t.ready_flag == 2,
            final(config).wf(),
            final(config).rank == old(config).rank,
            final(config).rankn == old(config).rankn,
            final(config).smem_base_ptr == old(config).smem_base_ptr,
            final(config).shared_segment_size == old(config).shared_segment_size,
            ({
                let e = old(config).seg_end();
                let h0 = old(config).heap_top() as int;
                let ub = t.local_size * elem_size::<U>();
                let eb = t.local_size * elem_size::<HashEntry<K, V>>();
                let h1 = heap_after(h0, e, ub);
                let me = old(config).rank as int;
                &&& t.used@[me].rank == me && t.used@[me].ptr == alloc_addr(h0, e, ub)
                &&& t.hash_table@[me].rank == me && t.hash_table@[me].ptr == alloc_addr(h1, e, eb)
                &&& final(config).heap_top() == heap_after(h1, e, eb)
            }),
            forall|r: int| 0 <= r < old(config).rankn && r != old(config).rank ==>
                (#[trigger] t.used@[r]).ptr == 0 && t.hash_table@[r].ptr == 0,
            size > 0 ==> t.wf(),
    {
        let rankn = config.rankn;
        let local_size = (size + rankn - 1) / rankn;
        let global_size = local_size * rankn;
        let mut used: Vec<GlobalPointer<U>> = Vec::new();
        let mut hash_table: Vec<GlobalPointer<HashEntry<K, V>>> = Vec::new();
        let mut i: usize = 0;
        while i < rankn
            invariant
                i <= rankn,
                used@.len() == i,
                hash_table@.len() == i,
                forall|r: int| 0 <= r < i ==> (#[trigger] used@[r]).ptr == 0 && hash_table@[r].ptr == 0,
            decreases rankn - i,
        {
            used.push(GlobalPointer::null());
            hash_table.push(GlobalPointer::null());
            i = i + 1;
        }
        let rank = config.rank;
        let ghost used0 = used@;
        let ghost ht0 = hash_table@;
        let mine_used = GlobalPointer::init(config, local_size);
        used.set(rank, mine_used);
        let mine_entries = GlobalPointer::init(config, local_size);
        hash_table.set(rank, mine_entries);
        proof {
            if size > 0 {
                assert(local_size > 0) by (nonlinear_arith)
                    requires local_size == (size + rankn - 1) / rankn as int, size > 0, rankn > 0;
                let ub = local_size * elem_size::<U>();
                let eb = local_size * elem_size::<HashEntry<K, V>>();
                crate::config::lemma_aligned_size(ub);
                crate::config::lemma_aligned_size(eb);
                assert(0 <= ub) by (nonlinear_arith)
                    requires ub == local_size * elem_size::<U>(), local_size >= 0, elem_size::<U>() >= 0;
                assert(0 <= eb) by (nonlinear_arith)
                    requires eb == local_size * elem_size::<HashEntry<K, V>>(), local_size >= 0,
                        elem_size::<HashEntry<K, V>>() >= 0;
                assert forall|r: int| 0 <= r < used@.len() implies
                    (#[trigger] used@[r]).ptr + local_size * elem_size::<U>() <= usize::MAX by {
                    if r != rank as int {
                        assert(used0[r].ptr == 0);
                    }
                }
                assert forall|r: int| 0 <= r < hash_table@.len() implies
                    (#[trigger] hash_table@[r]).ptr + local_size * elem_size::<HashEntry<K, V>>() <= usize::MAX by {
                    if r != rank as int {
                        assert(used0[r].ptr == 0 && ht0[r].ptr == 0);
                    }
                }
            }
        }
        HashTable { global_size, local_size, hash_table, used, free_flag: 0, reserved_flag: 1, ready_flag: 2 }
    }

    /// The entry of slot `slot`.
    pub fn slot_entry_ptr(&self, slot: usize) -> (p: GlobalPointer<HashEntry<K, V>>)
        requires
            self.wf(),
            slot < self.global_size,
        ensures
            p == self.entry_at(slot as int),
    {
        proof { self.lemma_node(slot as int); }
        let node = slot / self.local_size;
        let node_slot = slot - node * self.local_size;
        proof {
            let e = elem_size::<HashEntry<K, V>>();
            assert(node_slot * e <= self.local_size * e) by (nonlinear_arith)
                requires node_slot < self.local_size, e >= 0;
            assert(self.hash_table@[node as int].ptr + self.local_size * e <= usize::MAX);
        }
        self.hash_table[node].idx_ptr(node_slot)
    }

    /// The status word of slot `slot`.
    pub fn slot_used_ptr(&self, slot: usize) -> (p: GlobalPointer<U>)
        requires
            self.wf(),
            slot < self.global_size,
        ensures
            p == self.used_at(slot as int),
    {
        proof { self.lemma_node(slot as int); }
        let node = slot / self.local_size;
        let node_slot = slot - node * self.local_size;
        proof {
            let e = elem_size::<U>();
            assert(node_slot * e <= self.local_size * e) by (nonlinear_arith)
                requires node_slot < self.local_size, e >= 0;
            assert(self.used@[node as int].ptr + self.local_size * e <= usize::MAX);
        }
        self.used[node].idx_ptr(node_slot)
    }

    /// Every slot lies on an existing PE, inside its block.
    pub proof fn lemma_node(&self, slot: int)
        requires
            self.wf(),
            0 <= slot < self.global_size,
        ensures
            0 <= self.node(slot) < self.used@.len(),
            0 <= self.node_slot(slot) < self.local_size,
    {
        let ls = self.local_size as int;
        let n = self.used@.len() as int;
        vstd::arithmetic::div_mod::lemma_fundamental_div_mod(slot, ls);
        vstd::arithmetic::div_mod::lemma_mod_pos_bound(slot, ls);
        assert(ls * (slot / ls) == (slot / ls) * ls) by (nonlinear_arith);
        assert(slot / ls < n) by (nonlinear_arith)
            requires slot < ls * n, ls > 0, slot >= 0;
        assert(slot / ls >= 0) by (nonlinear_arith) requires slot >= 0, ls > 0;
    }

    /// The hash of `key`, by the standard library's default hasher. Nothing
    /// is stated of the value: it is what `Hash::hash` and the hasher make of
    /// the key. The protocols take it as an argument.
    pub fn get_hash(&self, key: &K) -> u64 {
        let mut hasher = DefaultHasher::new();
        hash_into(key, &mut hasher);
        core::hash::Hasher::finish(&hasher)
    }
}


/// The probe number of a state that is not over.
pub open spec fn insert_probe(st: InsertState) -> int {
    match st {
        InsertState::Reserve { probe, .. } => probe as int,
        InsertState::Compare { probe } => probe as int,
        InsertState::Release { probe } => probe as int,
        InsertState::Write { probe } => probe as int,
        InsertState::Publish { probe } => probe as int,
        InsertState::Done(_) => 0,
    }
}

/// The probe number of a find state that is not over.
pub open spec fn find_probe<V>(st: FindState<V>) -> int {
    match st {
        FindState::Status { probe } => probe as int,
        FindState::Entry { probe } => probe as int,
        FindState::Done(_) => 0,
    }
}

/// A slot of the sequential table: its status and its entry.
pub type Slot<K, V> = (U, HashEntry<K, V>);

/// Statuses of a table in which no operation is half done.
pub open spec fn table_ok<K, V>(t: Seq<Slot<K, V>>) -> bool {
    &&& t.len() > 0
    &&& forall|i: int| 0 <= i < t.len() ==> (#[trigger] t[i]).0 == 0 || t[i].0 == 2
}

/// The sequential insert: probe from probe `p` on; take the first slot that
/// is free or ready with `key`, and make it ready with `(key, value)`; give up
/// after the last probe. The result, and the table after.
pub open spec fn insert_from<K, V>(t: Seq<Slot<K, V>>, hash: int, key: K, value: V, p: int) -> (bool, Seq<Slot<K, V>>)
    decreases t.len() - p,
{
    if p < 0 || p >= t.len() {
        (false, t)
    } else {
        let s = probe_slot(hash, p, t.len() as int);
        let (st, e) = t[s];
        if st == 0 || (st == 2 && e.key == key) {
            (true, t.update(s, (2i64, HashEntry { key, value })))
        } else if p + 1 >= t.len() {
            (false, t)
        } else {
            insert_from(t, hash, key, value, p + 1)
        }
    }
}

/// The sequential find: probe from probe `p` on; the value of the first
/// ready slot with `key`, or nothing at the first free slot or after the
/// last probe.
pub open spec fn find_from<K, V>(t: Seq<Slot<K, V>>, hash: int, key: K, p: int) -> Option<V>
    decreases t.len() - p,
{
    if p < 0 || p >= t.len() {
        None
    } else {
        let s = probe_slot(hash, p, t.len() as int);
        let (st, e) = t[s];
        if st == 2 && e.key == key {
            Some(e.value)
        } else if st == 0 {
            None
        } else if p + 1 >= t.len() {
            None
        } else {
            find_from(t, hash, key, p + 1)
        }
    }
}

impl<K: HashKey + Default, V: Bclable + Default> HashTable<K, V> {
    /// The state is one an insert can be in: a probe inside the table, and a
    /// swap that expects `free` or `ready`.
    pub open spec fn insert_state_ok(&self, st: InsertState) -> bool {
        match st {
            InsertState::Reserve { probe, current } => probe < self.global_size && (current == 0 || current == 2),
            InsertState::Done(_) => true,
            _ => insert_probe(st) < self.global_size,
        }
    }

    /// The slot the insert state is at.
    pub open spec fn insert_slot(&self, hash: int, st: InsertState) -> int {
        probe_slot(hash, insert_probe(st), self.global_size as int)
    }

    /// The remote operation of an insert of `(key, value)` in state `st`.
    pub open spec fn insert_action_spec(&self, hash: int, key: K, value: V, st: InsertState) -> InsertAction<K, V> {
        let s = self.insert_slot(hash, st);
        match st {
            InsertState::Reserve { current, .. } => InsertAction::Swap { ptr: self.used_at(s), cond: current, value: 1 },
            InsertState::Compare { .. } => InsertAction::Get(self.entry_at(s)),
            InsertState::Release { .. } => InsertAction::Swap { ptr: self.used_at(s), cond: 1, value: 2 },
            InsertState::Write { .. } => InsertAction::Put(self.entry_at(s), HashEntry { key, value }),
            InsertState::Publish { .. } => InsertAction::Swap { ptr: self.used_at(s), cond: 1, value: 2 },
            InsertState::Done(b) => InsertAction::Finish(b),
        }
    }

    /// The event answers the operation of the state: a value for a swap, an
    /// entry for a read, a completion for a write. A release or a publish finds
    /// the slot still reserved: anything else means the table is corrupt.
    pub open spec fn insert_event_ok(&self, st: InsertState, ev: InsertEvent<K, V>) -> bool {
        match st {
            InsertState::Reserve { .. } => ev is Value,
            InsertState::Compare { .. } => ev is Entry,
            InsertState::Release { .. } => ev == InsertEvent::<K, V>::Value(1),
            InsertState::Write { .. } => ev is Written,
            InsertState::Publish { .. } => ev == InsertEvent::<K, V>::Value(1),
            InsertState::Done(_) => false,
        }
    }

    /// The state an insert of `key` moves to from `st` on event `ev`.
    pub open spec fn insert_next_spec(&self, key: K, st: InsertState, ev: InsertEvent<K, V>) -> InsertState {
        match st {
            InsertState::Reserve { probe, current } => match ev {
                InsertEvent::Value(r) => if r == current {
                    if r == 0 { InsertState::Write { probe } } else { InsertState::Compare { probe } }
                } else {
                    InsertState::Reserve { probe, current: 2 }
                },
                _ => st,
            },
            InsertState::Compare { probe } => match ev {
                InsertEvent::Entry(e) => if e.key == key { InsertState::Write { probe } } else { InsertState::Release { probe } },
                _ => st,
            },
            InsertState::Release { probe } => if probe + 1 >= self.global_size {
                InsertState::Done(false)
            } else {
                InsertState::Reserve { probe: (probe + 1) as u64, current: 0 }
            },
            InsertState::Write { probe } => InsertState::Publish { probe },
            InsertState::Publish { .. } => InsertState::Done(true),
            InsertState::Done(_) => st,
        }
    }

    /// The remote operation to perform for an insert of `(key, value)`, whose
    /// key hashes to `hash`, in state `st`. A probe whose slot number
    /// `hash + probe` overflows is refused.
    pub fn insert_action(&self, key: &K, value: &V, hash: u64, st: InsertState) -> (a: InsertAction<K, V>)
        requires
            self.wf(),
            self.insert_state_ok(st),
            hash + insert_probe(st) <= u64::MAX,
        ensures
            a == self.insert_action_spec(hash as int, *key, *value, st),
            !(st is Done) ==> forall|t: Seq<Slot<K, V>>|
                #[trigger] self.insert_effect(t, self.insert_slot(hash as int, st), a)
                    == Some(self.insert_apply(t, hash as int, *key, *value, st)),
    {
        proof {
            assert forall|t: Seq<Slot<K, V>>| !(st is Done) implies
                #[trigger] self.insert_effect(t, self.insert_slot(hash as int, st), self.insert_action_spec(hash as int, *key, *value, st))
                    == Some(self.insert_apply(t, hash as int, *key, *value, st)) by {
                self.lemma_insert_actions(t, hash as int, *key, *value, st);
            }
        }
        match st {
            InsertState::Reserve { probe, current } => {
                let slot = self.probe_slot_of(hash, probe);
                InsertAction::Swap { ptr: self.slot_used_ptr(slot), cond: current, value: self.reserved_flag }
            },
            InsertState::Compare { probe } => {
                let slot = self.probe_slot_of(hash, probe);
                InsertAction::Get(self.slot_entry_ptr(slot))
            },
            InsertState::Release { probe } => {
                let slot = self.probe_slot_of(hash, probe);
                InsertAction::Swap { ptr: self.slot_used_ptr(slot), cond: self.reserved_flag, value: self.ready_flag }
            },
            InsertState::Write { probe } => {
                let slot = self.probe_slot_of(hash, probe);
                InsertAction::Put(self.slot_entry_ptr(slot), HashEntry::new(*key, *value))
            },
            InsertState::Publish { probe } => {
                let slot = self.probe_slot_of(hash, probe);
                InsertAction::Swap { ptr: self.slot_used_ptr(slot), cond: self.reserved_flag, value: self.ready_flag }
            },
            InsertState::Done(b) => InsertAction::Finish(b),
        }
    }

    /// One step of an insert of `key`: the state that follows `st` once its
    /// remote operation returned `ev`. A slot found reserved by the release or
    /// the publish of this insert is corruption, and refused.
    pub fn insert(&self, key: &K, st: InsertState, ev: InsertEvent<K, V>) -> (n: InsertState)
        requires
            self.wf(),
            self.insert_state_ok(st),
            self.insert_event_ok(st, ev),
        ensures
            n == self.insert_next_spec(*key, st, ev),
            self.insert_state_ok(n),
    {
        match st {
            InsertState::Reserve { probe, current } => match ev {
                InsertEvent::Value(r) => if r == current {
                    if r == self.free_flag { InsertState::Write { probe } } else { InsertState::Compare { probe } }
                } else {
                    InsertState::Reserve { probe, current: self.ready_flag }
                },
                _ => st,
            },
            InsertState::Compare { probe } => match ev {
                InsertEvent::Entry(e) => if e.get_key().key_eq(key) {
                    InsertState::Write { probe }
                } else {
                    InsertState::Release { probe }
                },
                _ => st,
            },
            InsertState::Release { probe } => {
                if probe as usize + 1 >= self.global_size {
                    InsertState::Done(false)
                } else {
                    InsertState::Reserve { probe: probe + 1, current: self.free_flag }
                }
            },
            InsertState::Write { probe } => InsertState::Publish { probe },
            InsertState::Publish { .. } => InsertState::Done(true),
            InsertState::Done(_) => st,
        }
    }

    /// The slot of probe `probe` of a key with hash `hash`.
    pub fn probe_slot_of(&self, hash: u64, probe: u64) -> (s: usize)
        requires
            self.wf(),
            hash + probe <= u64::MAX,
        ensures
            s == probe_slot(hash as int, probe as int, self.global_size as int),
            s < self.global_size,
    {
        proof {
            assert(self.global_size > 0) by (nonlinear_arith)
                requires self.local_size > 0, self.used@.len() > 0, self.global_size == self.local_size * self.used@.len();
        }
        let g = self.global_size as u64;
        let s = (hash + probe) % g;
        s as usize
    }

    /// The state is one a find can be in: a probe inside the table.
    pub open spec fn find_state_ok(&self, st: FindState<V>) -> bool {
        match st {
            FindState::Done(_) => true,
            _ => find_probe(st) < self.global_size,
        }
    }

    /// The remote operation of a find in state `st`.
    pub open spec fn find_action_spec(&self, hash: int, st: FindState<V>) -> FindAction<K, V> {
        let s = probe_slot(hash, find_probe(st), self.global_size as int);
        match st {
            FindState::Status { .. } => FindAction::Fetch(self.used_at(s)),
            FindState::Entry { .. } => FindAction::Get(self.entry_at(s)),
            FindState::Done(o) => FindAction::Finish(o),
        }
    }

    /// The event answers the operation of the state.
    pub open spec fn find_event_ok(&self, st: FindState<V>, ev: InsertEvent<K, V>) -> bool {
        match st {
            FindState::Status { .. } => ev is Value,
            FindState::Entry { .. } => ev is Entry,
            FindState::Done(_) => false,
        }
    }

    /// The state a find of `key` moves to from `st` on event `ev`.
    pub open spec fn find_next_spec(&self, key: K, st: FindState<V>, ev: InsertEvent<K, V>) -> FindState<V> {
        match st {
            FindState::Status { probe } => match ev {
                InsertEvent::Value(status) => if status == 2 {
                    FindState::Entry { probe }
                } else if status == 0 || probe + 1 >= self.global_size {
                    FindState::Done(None)
                } else {
                    FindState::Status { probe: (probe + 1) as u64 }
                },
                _ => st,
            },
            FindState::Entry { probe } => match ev {
                InsertEvent::Entry(e) => if e.key == key {
                    FindState::Done(Some(e.value))
                } else if probe + 1 >= self.global_size {
                    FindState::Done(None)
                } else {
                    FindState::Status { probe: (probe + 1) as u64 }
                },
                _ => st,
            },
            FindState::Done(_) => st,
        }
    }

    /// The remote operation to perform for a find of a key that hashes to
    /// `hash`, in state `st`. A probe whose slot number `hash + probe`
    /// overflows is refused.
    pub fn find_action(&self, hash: u64, st: FindState<V>) -> (a: FindAction<K, V>)
        requires
            self.wf(),
            self.find_state_ok(st),
            hash + find_probe(st) <= u64::MAX,
        ensures
            a == self.find_action_spec(hash as int, st),
            !(st is Done) ==> forall|t: Seq<Slot<K, V>>|
                #[trigger] self.find_effect(t, probe_slot(hash as int, find_probe(st), self.global_size as int), a)
                    == Some(self.find_apply(t, hash as int, st)),
    {
        proof {
            assert forall|t: Seq<Slot<K, V>>| !(st is Done) implies
                #[trigger] self.find_effect(t, probe_slot(hash as int, find_probe(st), self.global_size as int), self.find_action_spec(hash as int, st))
                    == Some(self.find_apply(t, hash as int, st)) by {
                self.lemma_find_actions(t, hash as int, st);
            }
        }
        match st {
            FindState::Status { probe } => {
                let slot = self.probe_slot_of(hash, probe);
                FindAction::Fetch(self.slot_used_ptr(slot))
            },
            FindState::Entry { probe } => {
                let slot = self.probe_slot_of(hash, probe);
                FindAction::Get(self.slot_entry_ptr(slot))
            },
            FindState::Done(o) => FindAction::Finish(o),
        }
    }

    /// One step of a find of `key`: the state that follows `st` once its
    /// remote operation returned `ev`.
    pub fn find(&self, key: &K, st: FindState<V>, ev: InsertEvent<K, V>) -> (n: FindState<V>)
        requires
            self.wf(),
            self.find_state_ok(st),
            self.find_event_ok(st, ev),
        ensures
            n == self.find_next_spec(*key, st, ev),
            self.find_state_ok(n),
    {
        match st {
            FindState::Status { probe } => match ev {
                InsertEvent::Value(status) => if status == self.ready_flag {
                    FindState::Entry { probe }
                } else if status == self.free_flag || probe as usize + 1 >= self.global_size {
                    FindState::Done(None)
                } else {
                    FindState::Status { probe: probe + 1 }
                },
                _ => st,
            },
            FindState::Entry { probe } => match ev {
                InsertEvent::Entry(e) => if e.get_key().key_eq(key) {
                    FindState::Done(Some(e.get_value()))
                } else if probe as usize + 1 >= self.global_size {
                    FindState::Done(None)
                } else {
                    FindState::Status { probe: probe + 1 }
                },
                _ => st,
            },
            FindState::Done(_) => st,
        }
    }
}


impl<K: HashKey + Default, V: Bclable + Default> HashTable<K, V> {
    /// The answer a sequential table `t` (slot `i` is `t[i]`) gives to the
    /// remote operation of insert state `st`, and the table after it.
    pub open spec fn insert_apply(&self, t: Seq<Slot<K, V>>, hash: int, key: K, value: V, st: InsertState)
        -> (InsertEvent<K, V>, Seq<Slot<K, V>>)
    {
        let s = self.insert_slot(hash, st);
        match st {
            InsertState::Reserve { current, .. } => (
                InsertEvent::Value(t[s].0),
                if t[s].0 == current { t.update(s, (1i64, t[s].1)) } else { t },
            ),
            InsertState::Compare { .. } => (InsertEvent::Entry(t[s].1), t),
            InsertState::Write { .. } => (InsertEvent::Written, t.update(s, (t[s].0, HashEntry { key, value }))),
            InsertState::Done(_) => (InsertEvent::Written, t),
            _ => (
                InsertEvent::Value(t[s].0),
                if t[s].0 == 1 { t.update(s, (2i64, t[s].1)) } else { t },
            ),
        }
    }

    /// An insert run alone against the sequential table `t` from state `st`,
    /// for at most `fuel` remote operations: its result and the table after,
    /// if it finished.
    pub open spec fn insert_run(&self, t: Seq<Slot<K, V>>, hash: int, key: K, value: V, st: InsertState, fuel: nat)
        -> Option<(bool, Seq<Slot<K, V>>)>
        decreases fuel,
    {
        match st {
            InsertState::Done(b) => Some((b, t)),
            _ => if fuel == 0 {
                None
            } else {
                let (ev, t2) = self.insert_apply(t, hash, key, value, st);
                self.insert_run(t2, hash, key, value, self.insert_next_spec(key, st, ev), (fuel - 1) as nat)
            },
        }
    }

    /// The answer a sequential table gives to the remote operation of find
    /// state `st`.
    pub open spec fn find_apply(&self, t: Seq<Slot<K, V>>, hash: int, st: FindState<V>) -> InsertEvent<K, V> {
        let s = probe_slot(hash, find_probe(st), self.global_size as int);
        match st {
            FindState::Entry { .. } => InsertEvent::Entry(t[s].1),
            _ => InsertEvent::Value(t[s].0),
        }
    }

    /// A find run alone against the sequential table `t` from state `st`,
    /// for at most `fuel` remote operations: its result, if it finished.
    pub open spec fn find_run(&self, t: Seq<Slot<K, V>>, hash: int, key: K, st: FindState<V>, fuel: nat) -> Option<Option<V>>
        decreases fuel,
    {
        match st {
            FindState::Done(o) => Some(o),
            _ => if fuel == 0 {
                None
            } else {
                self.find_run(t, hash, key, self.find_next_spec(key, st, self.find_apply(t, hash, st)), (fuel - 1) as nat)
            },
        }
    }

    /// The insert protocol, run alone from its first state on a table in
    /// which no operation is half done, finishes within `6 * global_size`
    /// remote operations with the result and the table of the sequential
    /// insert `insert_from`.
    pub proof fn lemma_insert_protocol(&self, t: Seq<Slot<K, V>>, hash: int, key: K, value: V)
        requires
            self.wf(),
            t.len() == self.global_size,
            table_ok(t),
            hash >= 0,
        ensures
            self.insert_run(t, hash, key, value, InsertState::Reserve { probe: 0, current: 0 }, (6 * self.global_size) as nat)
                == Some(insert_from(t, hash, key, value, 0)),
    {
        assert(self.global_size > 0) by (nonlinear_arith)
            requires self.local_size > 0, self.used@.len() > 0, self.global_size == self.local_size * self.used@.len();
        self.lemma_insert_protocol_from(t, hash, key, value, 0, (6 * self.global_size) as nat);
    }

    proof fn lemma_insert_protocol_from(&self, t: Seq<Slot<K, V>>, hash: int, key: K, value: V, p: int, fuel: nat)
        requires
            self.wf(),
            t.len() == self.global_size,
            table_ok(t),
            hash >= 0,
            0 <= p < self.global_size,
            fuel >= 6 * (self.global_size - p),
        ensures
            self.insert_run(t, hash, key, value, InsertState::Reserve { probe: p as u64, current: 0 }, fuel)
                == Some(insert_from(t, hash, key, value, p)),
        decreases self.global_size - p,
    {
        let g = self.global_size as int;
        let s = probe_slot(hash, p, g);
        vstd::arithmetic::div_mod::lemma_mod_pos_bound(hash + p, g);
        let e = t[s].1;
        let new = HashEntry { key, value };
        let r0 = InsertState::Reserve { probe: p as u64, current: 0 };
        assert(insert_probe(r0) == p);
        if t[s].0 == 0 {
            let t1 = t.update(s, (1i64, e));
            let w = InsertState::Write { probe: p as u64 };
            let t2 = t1.update(s, (1i64, new));
            let pb = InsertState::Publish { probe: p as u64 };
            let t3 = t2.update(s, (2i64, new));
            assert(self.insert_apply(t, hash, key, value, r0) == (InsertEvent::<K, V>::Value(0), t1));
            assert(self.insert_next_spec(key, r0, InsertEvent::Value(0)) == w);
            assert(self.insert_run(t, hash, key, value, r0, fuel) == self.insert_run(t1, hash, key, value, w, (fuel - 1) as nat));
            assert(self.insert_apply(t1, hash, key, value, w) == (InsertEvent::<K, V>::Written, t2));
            assert(self.insert_run(t1, hash, key, value, w, (fuel - 1) as nat)
                == self.insert_run(t2, hash, key, value, pb, (fuel - 2) as nat));
            assert(self.insert_apply(t2, hash, key, value, pb) == (InsertEvent::<K, V>::Value(1), t3));
            assert(self.insert_run(t2, hash, key, value, pb, (fuel - 2) as nat)
                == self.insert_run(t3, hash, key, value, InsertState::Done(true), (fuel - 3) as nat));
            assert(t3 =~= t.update(s, (2i64, new)));
        } else {
            assert(t[s].0 == 2);
            let r2 = InsertState::Reserve { probe: p as u64, current: 2 };
            let t1 = t.update(s, (1i64, e));
            let c = InsertState::Compare { probe: p as u64 };
            assert(self.insert_apply(t, hash, key, value, r0) == (InsertEvent::<K, V>::Value(2), t));
            assert(self.insert_run(t, hash, key, value, r0, fuel) == self.insert_run(t, hash, key, value, r2, (fuel - 1) as nat));
            assert(self.insert_apply(t, hash, key, value, r2) == (InsertEvent::<K, V>::Value(2), t1));
            assert(self.insert_run(t, hash, key, value, r2, (fuel - 1) as nat)
                == self.insert_run(t1, hash, key, value, c, (fuel - 2) as nat));
            assert(self.insert_apply(t1, hash, key, value, c) == (InsertEvent::Entry(e), t1));
            if e.key == key {
                let w = InsertState::Write { probe: p as u64 };
                let t2 = t1.update(s, (1i64, new));
                let pb = InsertState::Publish { probe: p as u64 };
                let t3 = t2.update(s, (2i64, new));
                assert(self.insert_run(t1, hash, key, value, c, (fuel - 2) as nat)
                    == self.insert_run(t1, hash, key, value, w, (fuel - 3) as nat));
                assert(self.insert_apply(t1, hash, key, value, w) == (InsertEvent::<K, V>::Written, t2));
                assert(self.insert_run(t1, hash, key, value, w, (fuel - 3) as nat)
                    == self.insert_run(t2, hash, key, value, pb, (fuel - 4) as nat));
                assert(self.insert_apply(t2, hash, key, value, pb) == (InsertEvent::<K, V>::Value(1), t3));
                assert(self.insert_run(t2, hash, key, value, pb, (fuel - 4) as nat)
                    == self.insert_run(t3, hash, key, value, InsertState::Done(true), (fuel - 5) as nat));
                assert(t3 =~= t.update(s, (2i64, new)));
            } else {
                let rl = InsertState::Release { probe: p as u64 };
                let t2 = t1.update(s, (2i64, e));
                assert(t2 =~= t);
                assert(self.insert_run(t1, hash, key, value, c, (fuel - 2) as nat)
                    == self.insert_run(t1, hash, key, value, rl, (fuel - 3) as nat));
                assert(self.insert_apply(t1, hash, key, value, rl) == (InsertEvent::<K, V>::Value(1), t2));
                if p + 1 >= g {
                    assert(self.insert_run(t1, hash, key, value, rl, (fuel - 3) as nat)
                        == self.insert_run(t2, hash, key, value, InsertState::Done(false), (fuel - 4) as nat));
                } else {
                    let next = InsertState::Reserve { probe: (p + 1) as u64, current: 0 };
                    assert(self.insert_run(t1, hash, key, value, rl, (fuel - 3) as nat)
                        == self.insert_run(t2, hash, key, value, next, (fuel - 4) as nat));
                    self.lemma_insert_protocol_from(t, hash, key, value, p + 1, (fuel - 4) as nat);
                }
            }
        }
    }

    /// The find protocol, run alone from its first state, finishes within
    /// `2 * global_size` remote operations with the result of the sequential
    /// find `find_from`.
    pub proof fn lemma_find_protocol(&self, t: Seq<Slot<K, V>>, hash: int, key: K)
        requires
            self.wf(),
            t.len() == self.global_size,
            hash >= 0,
        ensures
            self.find_run(t, hash, key, FindState::Status { probe: 0 }, (2 * self.global_size) as nat)
                == Some(find_from(t, hash, key, 0)),
    {
        assert(self.global_size > 0) by (nonlinear_arith)
            requires self.local_size > 0, self.used@.len() > 0, self.global_size == self.local_size * self.used@.len();
        self.lemma_find_protocol_from(t, hash, key, 0, (2 * self.global_size) as nat);
    }

    proof fn lemma_find_protocol_from(&self, t: Seq<Slot<K, V>>, hash: int, key: K, p: int, fuel: nat)
        requires
            self.wf(),
            t.len() == self.global_size,
            hash >= 0,
            0 <= p < self.global_size,
            fuel >= 2 * (self.global_size - p),
        ensures
            self.find_run(t, hash, key, FindState::Status { probe: p as u64 }, fuel) == Some(find_from(t, hash, key, p)),
        decreases self.global_size - p,
    {
        let g = self.global_size as int;
        let s = probe_slot(hash, p, g);
        let st0 = FindState::<V>::Status { probe: p as u64 };
        let en = FindState::<V>::Entry { probe: p as u64 };
        assert(find_probe(st0) == p);
        assert(find_probe(en) == p);
        assert(self.find_apply(t, hash, st0) == InsertEvent::<K, V>::Value(t[s].0));
        if t[s].0 == 2 {
            assert(self.find_run(t, hash, key, st0, fuel) == self.find_run(t, hash, key, en, (fuel - 1) as nat));
            assert(self.find_apply(t, hash, en) == InsertEvent::<K, V>::Entry(t[s].1));
            let n2 = self.find_next_spec(key, en, InsertEvent::Entry(t[s].1));
            assert(self.find_run(t, hash, key, en, (fuel - 1) as nat) == self.find_run(t, hash, key, n2, (fuel - 2) as nat));
            if t[s].1.key != key && p + 1 < g {
                assert(n2 == FindState::<V>::Status { probe: (p + 1) as u64 });
                self.lemma_find_protocol_from(t, hash, key, p + 1, (fuel - 2) as nat);
            }
        } else {
            let n1 = self.find_next_spec(key, st0, InsertEvent::Value(t[s].0));
            assert(self.find_run(t, hash, key, st0, fuel) == self.find_run(t, hash, key, n1, (fuel - 1) as nat));
            if t[s].0 != 0 && p + 1 < g {
                assert(n1 == FindState::<V>::Status { probe: (p + 1) as u64 });
                self.lemma_find_protocol_from(t, hash, key, p + 1, (fuel - 1) as nat);
            }
        }
    }
}

/// Two probes of one key less than `g` apart visit different slots.
pub proof fn lemma_probes_distinct(hash: int, p: int, q: int, g: int)
    requires
        hash >= 0,
        0 <= p < q < g,
    ensures
        probe_slot(hash, p, g) != probe_slot(hash, q, g),
{
    crate::containers::queue::lemma_distinct_slots(hash + p, hash + q, g);
}

/// Read your write: after a sequential insert of `(key, value)` that
/// succeeds, a find of `key` with the same hash returns `value`. The insert
/// changes exactly one slot, visited by one of its probes.
pub proof fn lemma_insert_then_find<K, V>(t: Seq<Slot<K, V>>, hash: int, key: K, value: V)
    requires
        table_ok(t),
        hash >= 0,
    ensures
        insert_from(t, hash, key, value, 0).0 ==> find_from(insert_from(t, hash, key, value, 0).1, hash, key, 0) == Some(value),
{
    lemma_insert_then_find_from(t, hash, key, value, 0);
}

proof fn lemma_insert_then_find_from<K, V>(t: Seq<Slot<K, V>>, hash: int, key: K, value: V, p: int)
    requires
        table_ok(t),
        hash >= 0,
        0 <= p,
    ensures
        insert_from(t, hash, key, value, p).0 ==> {
            &&& find_from(insert_from(t, hash, key, value, p).1, hash, key, p) == Some(value)
            &&& exists|q: int| p <= q < t.len() && insert_from(t, hash, key, value, p).1
                == t.update(probe_slot(hash, q, t.len() as int), (2i64, HashEntry { key, value }))
        },
    decreases t.len() - p,
{
    let g = t.len() as int;
    if p < g {
        let s = probe_slot(hash, p, g);
        vstd::arithmetic::div_mod::lemma_mod_pos_bound(hash + p, g);
        let (st, e) = t[s];
        let new = HashEntry { key, value };
        if st == 0 || (st == 2 && e.key == key) {
            let t2 = t.update(s, (2i64, new));
            assert(find_from(t2, hash, key, p) == Some(value));
            assert(p <= p < g && t2 == t.update(probe_slot(hash, p, g), (2i64, new)));
        } else if p + 1 < g {
            lemma_insert_then_find_from(t, hash, key, value, p + 1);
            if insert_from(t, hash, key, value, p).0 {
                let t2 = insert_from(t, hash, key, value, p).1;
                let q = choose|q: int| p + 1 <= q < g && t2 == t.update(probe_slot(hash, q, g), (2i64, new));
                lemma_probes_distinct(hash, p, q, g);
                vstd::arithmetic::div_mod::lemma_mod_pos_bound(hash + q, g);
                assert(t2[s] == t[s]);
                assert(find_from(t2, hash, key, p) == find_from(t2, hash, key, p + 1));
            }
        }
    }
}

/// An insert fails exactly when the table is full of other keys: every slot
/// is ready and holds a key other than `key`.
pub proof fn lemma_insert_fails_only_when_full<K, V>(t: Seq<Slot<K, V>>, hash: int, key: K, value: V)
    requires
        table_ok(t),
        hash >= 0,
    ensures
        !insert_from(t, hash, key, value, 0).0 <==>
            forall|i: int| 0 <= i < t.len() ==> (#[trigger] t[i]).0 == 2 && t[i].1.key != key,
{
    let g = t.len() as int;
    if forall|i: int| 0 <= i < g ==> (#[trigger] t[i]).0 == 2 && t[i].1.key != key {
        lemma_full_refuses(t, hash, key, value, 0);
    }
    if !insert_from(t, hash, key, value, 0).0 {
        lemma_insert_fails_from(t, hash, key, value, 0);
        assert forall|i: int| 0 <= i < g implies (#[trigger] t[i]).0 == 2 && t[i].1.key != key by {
            let q = (i - hash) % g;
            vstd::arithmetic::div_mod::lemma_mod_bound(i - hash, g);
            vstd::arithmetic::div_mod::lemma_add_mod_noop_right(hash, i - hash, g);
            vstd::arithmetic::div_mod::lemma_small_mod(i as nat, g as nat);
            assert(probe_slot(hash, q, g) == i);
        }
    }
}

proof fn lemma_full_refuses<K, V>(t: Seq<Slot<K, V>>, hash: int, key: K, value: V, p: int)
    requires
        hash >= 0,
        0 <= p,
        forall|i: int| 0 <= i < t.len() ==> (#[trigger] t[i]).0 == 2 && t[i].1.key != key,
    ensures
        !insert_from(t, hash, key, value, p).0,
    decreases t.len() - p,
{
    let g = t.len() as int;
    if p < g {
        vstd::arithmetic::div_mod::lemma_mod_pos_bound(hash + p, g);
        let s = probe_slot(hash, p, g);
        assert(t[s].0 == 2 && t[s].1.key != key);
        if p + 1 < g {
            lemma_full_refuses(t, hash, key, value, p + 1);
        }
    }
}

proof fn lemma_insert_fails_from<K, V>(t: Seq<Slot<K, V>>, hash: int, key: K, value: V, p: int)
    requires
        table_ok(t),
        hash >= 0,
        0 <= p < t.len(),
        !insert_from(t, hash, key, value, p).0,
    ensures
        forall|q: int| p <= q < t.len() ==>
            t[#[trigger] probe_slot(hash, q, t.len() as int)].0 == 2 && t[probe_slot(hash, q, t.len() as int)].1.key != key,
    decreases t.len() - p,
{
    let g = t.len() as int;
    vstd::arithmetic::div_mod::lemma_mod_pos_bound(hash + p, g);
    if p + 1 < g {
        lemma_insert_fails_from(t, hash, key, value, p + 1);
    }
}

/// A find returns only what the table holds: a value found for `key` is the
/// value of a ready slot that holds `key`.
pub proof fn lemma_find_sound<K, V>(t: Seq<Slot<K, V>>, hash: int, key: K, p: int)
    requires
        hash >= 0,
    ensures
        find_from(t, hash, key, p) matches Some(v) ==>
            exists|i: int| 0 <= i < t.len() && #[trigger] t[i] == (2i64, HashEntry { key, value: v }),
    decreases t.len() - p,
{
    let g = t.len() as int;
    if 0 <= p < g {
        let s = probe_slot(hash, p, g);
        vstd::arithmetic::div_mod::lemma_mod_pos_bound(hash + p, g);
        if t[s].0 == 2 && t[s].1.key == key {
            assert(t[s] == (2i64, HashEntry { key, value: t[s].1.value }));
        } else if t[s].0 != 0 && p + 1 < g {
            lemma_find_sound(t, hash, key, p + 1);
        }
    }
}

impl<K: HashKey + Default, V: Bclable + Default> HashTable<K, V> {
    /// Distinct slots are distinct places: their status words, and their
    /// entries, are on different PEs or at different addresses of one PE's
    /// block. So the table of the protocol is a table of independent slots.
    pub proof fn lemma_slots_distinct(&self, i: int, j: int)
        requires
            self.wf(),
            elem_size::<U>() > 0,
            elem_size::<HashEntry<K, V>>() > 0,
            forall|r: int, s: int| 0 <= r < s < self.used@.len() ==>
                self.used@[r].rank != self.used@[s].rank && self.hash_table@[r].rank != self.hash_table@[s].rank,
            0 <= i < j < self.global_size,
        ensures
            self.used_at(i) != self.used_at(j),
            self.entry_at(i) != self.entry_at(j),
    {
        self.lemma_node(i);
        self.lemma_node(j);
        let ls = self.local_size as int;
        let ni = self.node(i);
        let nj = self.node(j);
        if ni == nj {
            let li = self.node_slot(i);
            let lj = self.node_slot(j);
            assert(li < lj);
            let eu = elem_size::<U>();
            let ee = elem_size::<HashEntry<K, V>>();
            assert(li * eu < lj * eu) by (nonlinear_arith) requires li < lj, eu > 0;
            assert(lj * eu <= ls * eu) by (nonlinear_arith) requires lj < ls, eu > 0;
            assert(li * ee < lj * ee) by (nonlinear_arith) requires li < lj, ee > 0;
            assert(lj * ee <= ls * ee) by (nonlinear_arith) requires lj < ls, ee > 0;
            assert(0 <= li * eu) by (nonlinear_arith) requires li >= 0, eu > 0;
            assert(0 <= li * ee) by (nonlinear_arith) requires li >= 0, ee > 0;
        } else if ni < nj {
            assert(self.used@[ni].rank != self.used@[nj].rank);
        } else {
            assert(self.used@[nj].rank != self.used@[ni].rank);
        }
    }
}

/// Slot `s` of `t` is ready and holds key `k`.
pub open spec fn holds<K, V>(t: Seq<Slot<K, V>>, s: int, k: K) -> bool {
    0 <= s < t.len() && t[s].0 == 2 && t[s].1.key == k
}

/// The probe number at which a key with hash `hash` visits slot `s`.
pub open spec fn probe_of(hash: int, s: int, g: int) -> int {
    (s - hash) % g
}

/// The table is one that inserts build, for keys hashed by `h`: no operation
/// is half done, and every probe of a key before the slot that holds it
/// visits a ready slot holding another key.
pub open spec fn chains_ok<K, V>(t: Seq<Slot<K, V>>, h: spec_fn(K) -> nat) -> bool {
    &&& table_ok(t)
    &&& forall|k: K, p: int, q: int|
        #![trigger holds(t, probe_slot(h(k) as int, p, t.len() as int), k), t[probe_slot(h(k) as int, q, t.len() as int)]]
        0 <= q < p < t.len() && holds(t, probe_slot(h(k) as int, p, t.len() as int), k) ==>
            t[probe_slot(h(k) as int, q, t.len() as int)].0 == 2
                && t[probe_slot(h(k) as int, q, t.len() as int)].1.key != k
}

/// The value the table maps `k` to: that of the ready slot holding `k`, if
/// there is one.
pub open spec fn lookup<K, V>(t: Seq<Slot<K, V>>, k: K) -> Option<V> {
    if exists|s: int| holds(t, s, k) {
        Some(t[choose|s: int| holds(t, s, k)].1.value)
    } else {
        None
    }
}

/// Every slot is visited by one probe of every key.
pub proof fn lemma_probe_covers(hash: int, s: int, g: int)
    requires
        hash >= 0,
        0 <= s < g,
    ensures
        0 <= probe_of(hash, s, g) < g,
        probe_slot(hash, probe_of(hash, s, g), g) == s,
{
    vstd::arithmetic::div_mod::lemma_mod_bound(s - hash, g);
    vstd::arithmetic::div_mod::lemma_add_mod_noop_right(hash, s - hash, g);
    vstd::arithmetic::div_mod::lemma_small_mod(s as nat, g as nat);
}

/// In a table built by inserts, a key is held by at most one slot.
pub proof fn lemma_key_unique<K, V>(t: Seq<Slot<K, V>>, h: spec_fn(K) -> nat, k: K, s1: int, s2: int)
    requires
        chains_ok(t, h),
        holds(t, s1, k),
        holds(t, s2, k),
    ensures
        s1 == s2,
{
    let g = t.len() as int;
    let hk = h(k) as int;
    lemma_probe_covers(hk, s1, g);
    lemma_probe_covers(hk, s2, g);
    let p1 = probe_of(hk, s1, g);
    let p2 = probe_of(hk, s2, g);
    if p1 < p2 {
        assert(holds(t, probe_slot(hk, p2, g), k));
        assert(t[probe_slot(hk, p1, g)].1.key != k);
    } else if p2 < p1 {
        assert(holds(t, probe_slot(hk, p1, g), k));
        assert(t[probe_slot(hk, p2, g)].1.key != k);
    }
}

/// In a table built by inserts, a find returns what the table maps the key
/// to.
pub proof fn lemma_find_is_lookup<K, V>(t: Seq<Slot<K, V>>, h: spec_fn(K) -> nat, k: K)
    requires
        chains_ok(t, h),
    ensures
        find_from(t, h(k) as int, k, 0) == lookup(t, k),
{
    let g = t.len() as int;
    let hk = h(k) as int;
    if exists|s: int| holds(t, s, k) {
        let s = choose|s: int| holds(t, s, k);
        lemma_probe_covers(hk, s, g);
        let d = probe_of(hk, s, g);
        lemma_find_reaches(t, h, k, s, d, 0);
    } else {
        lemma_find_misses(t, hk, k, 0);
    }
}

proof fn lemma_find_reaches<K, V>(t: Seq<Slot<K, V>>, h: spec_fn(K) -> nat, k: K, s: int, d: int, p: int)
    requires
        chains_ok(t, h),
        holds(t, s, k),
        0 <= d < t.len(),
        probe_slot(h(k) as int, d, t.len() as int) == s,
        0 <= p <= d,
    ensures
        find_from(t, h(k) as int, k, p) == Some(t[s].1.value),
    decreases d - p,
{
    let g = t.len() as int;
    let hk = h(k) as int;
    if p < d {
        assert(holds(t, probe_slot(hk, d, g), k));
        assert(t[probe_slot(hk, p, g)].0 == 2 && t[probe_slot(hk, p, g)].1.key != k);
        lemma_find_reaches(t, h, k, s, d, p + 1);
    }
}

proof fn lemma_find_misses<K, V>(t: Seq<Slot<K, V>>, hash: int, k: K, p: int)
    requires
        hash >= 0,
        !(exists|s: int| holds(t, s, k)),
    ensures
        find_from(t, hash, k, p) is None,
    decreases t.len() - p,
{
    let g = t.len() as int;
    if 0 <= p < g {
        let s = probe_slot(hash, p, g);
        vstd::arithmetic::div_mod::lemma_mod_pos_bound(hash + p, g);
        assert(!holds(t, s, k));
        lemma_find_misses(t, hash, k, p + 1);
    }
}

/// The shape of a successful sequential insert from probe `p`: it writes one
/// slot, at some probe `q`, which was free or held the key; every probe
/// before it visited a ready slot holding another key.
proof fn lemma_insert_shape<K, V>(t: Seq<Slot<K, V>>, hash: int, key: K, value: V, p: int) -> (q: int)
    requires
        table_ok(t),
        hash >= 0,
        0 <= p,
        insert_from(t, hash, key, value, p).0,
    ensures
        p <= q < t.len(),
        insert_from(t, hash, key, value, p).1
            == t.update(probe_slot(hash, q, t.len() as int), (2i64, HashEntry { key, value })),
        t[probe_slot(hash, q, t.len() as int)].0 == 0 || holds(t, probe_slot(hash, q, t.len() as int), key),
        forall|r: int| p <= r < q ==> #[trigger] t[probe_slot(hash, r, t.len() as int)].0 == 2
            && t[probe_slot(hash, r, t.len() as int)].1.key != key,
    decreases t.len() - p,
{
    let g = t.len() as int;
    let s = probe_slot(hash, p, g);
    vstd::arithmetic::div_mod::lemma_mod_pos_bound(hash + p, g);
    let (st, e) = t[s];
    if st == 0 || (st == 2 && e.key == key) {
        p
    } else {
        lemma_insert_shape(t, hash, key, value, p + 1)
    }
}

/// The table implements a map. In a table built by inserts, for keys hashed
/// by `h`: a find returns what the table maps the key to; a successful
/// insert of `(key, value)` maps `key` to `value`, leaves every other key
/// mapped as before, and leaves a table built by inserts; a failed insert
/// changes nothing.
pub proof fn lemma_table_is_map<K, V>(t: Seq<Slot<K, V>>, h: spec_fn(K) -> nat, key: K, value: V)
    requires
        chains_ok(t, h),
    ensures
        find_from(t, h(key) as int, key, 0) == lookup(t, key),
        ({
            let (ok, t2) = insert_from(t, h(key) as int, key, value, 0);
            &&& ok ==> chains_ok(t2, h)
            &&& ok ==> lookup(t2, key) == Some(value)
            &&& ok ==> forall|k2: K| k2 != key ==> #[trigger] lookup(t2, k2) == lookup(t, k2)
            &&& !ok ==> t2 == t
        }),
{
    lemma_find_is_lookup(t, h, key);
    let g = t.len() as int;
    let hk = h(key) as int;
    let (ok, t2) = insert_from(t, hk, key, value, 0);
    lemma_insert_not_ok(t, hk, key, value, 0);
    if ok {
        let q = lemma_insert_shape(t, hk, key, value, 0);
        let sq = probe_slot(hk, q, g);
        let new = HashEntry { key, value };
        assert(t2 == t.update(sq, (2i64, new)));
        // the slots that hold another key are the same before and after
        assert forall|s: int, k2: K| k2 != key implies (#[trigger] holds(t2, s, k2)) == holds(t, s, k2) by {
            if s == sq {
                assert(!holds(t, s, k2));
            }
        }
        // no other slot held the key before
        assert forall|s: int| s != sq implies !#[trigger] holds(t, s, key) by {
            if holds(t, s, key) {
                lemma_probe_covers(hk, s, g);
                let d = probe_of(hk, s, g);
                if t[sq].0 == 0 {
                    if q < d {
                        assert(holds(t, probe_slot(hk, d, g), key));
                        assert(t[probe_slot(hk, q, g)].0 == 2);
                    } else if d < q {
                        assert(t[probe_slot(hk, d, g)].1.key != key);
                    } else {
                        assert(sq == s);
                    }
                } else {
                    lemma_key_unique(t, h, key, s, sq);
                }
            }
        }
        // the table still is one that inserts build
        assert(table_ok(t2));
        assert forall|k: K, p: int, r: int|
            #![trigger holds(t2, probe_slot(h(k) as int, p, g), k), t2[probe_slot(h(k) as int, r, g)]]
            0 <= r < p < g && holds(t2, probe_slot(h(k) as int, p, g), k) implies
                t2[probe_slot(h(k) as int, r, g)].0 == 2 && t2[probe_slot(h(k) as int, r, g)].1.key != k by {
            let hk2 = h(k) as int;
            let sp = probe_slot(hk2, p, g);
            let sr = probe_slot(hk2, r, g);
            vstd::arithmetic::div_mod::lemma_mod_pos_bound(hk2 + p, g);
            vstd::arithmetic::div_mod::lemma_mod_pos_bound(hk2 + r, g);
            lemma_probes_distinct(hk2, r, p, g);
            if k == key {
                if sp == sq {
                    // the probe reaches the written slot: earlier probes are those of the insert
                    lemma_probe_covers(hk, sq, g);
                    if p == q {
                        assert(t[sr].0 == 2 && t[sr].1.key != key);
                        assert(sr != sq);
                    } else if p < q {
                        lemma_probes_distinct(hk, p, q, g);
                    } else {
                        lemma_probes_distinct(hk, q, p, g);
                    }
                } else {
                    assert(holds(t, sp, key));
                    assert(false);
                }
            } else {
                assert(holds(t, sp, k));
                assert(t[sr].0 == 2 && t[sr].1.key != k);
            }
        }
        assert(holds(t2, sq, key));
        assert forall|s: int| holds(t2, s, key) implies s == sq by {
            if s != sq {
                assert(holds(t, s, key));
            }
        }
        assert(lookup(t2, key) == Some(value));
        assert forall|k2: K| k2 != key implies #[trigger] lookup(t2, k2) == lookup(t, k2) by {
            assert(forall|s: int| holds(t2, s, k2) == holds(t, s, k2));
            if exists|s: int| holds(t, s, k2) {
                let a = choose|s: int| holds(t, s, k2);
                let b = choose|s: int| holds(t2, s, k2);
                assert(holds(t2, a, k2));
                assert(holds(t, b, k2));
                lemma_key_unique(t, h, k2, a, b);
            }
        }
    }
}

proof fn lemma_insert_not_ok<K, V>(t: Seq<Slot<K, V>>, hash: int, key: K, value: V, p: int)
    ensures
        !insert_from(t, hash, key, value, p).0 ==> insert_from(t, hash, key, value, p).1 == t,
    decreases t.len() - p,
{
    if 0 <= p < t.len() && p + 1 < t.len() {
        lemma_insert_not_ok(t, hash, key, value, p + 1);
    }
}

/// An empty table, all slots free, is one that inserts build and maps no
/// key.
pub proof fn lemma_empty_table<K, V>(t: Seq<Slot<K, V>>, h: spec_fn(K) -> nat, k: K)
    requires
        t.len() > 0,
        forall|i: int| 0 <= i < t.len() ==> (#[trigger] t[i]).0 == 0,
    ensures
        chains_ok(t, h),
        lookup(t, k) is None,
{
}


/// Sequential inserts of `ops`, in order, into `t`, each key hashed by `h`:
/// whether every one succeeded, and the table after.
pub open spec fn insert_all<K, V>(t: Seq<Slot<K, V>>, h: spec_fn(K) -> nat, ops: Seq<(K, V)>) -> (bool, Seq<Slot<K, V>>)
    decreases ops.len(),
{
    if ops.len() == 0 {
        (true, t)
    } else {
        let (ok, t1) = insert_all(t, h, ops.drop_last());
        let (k, v) = ops.last();
        let (ok2, t2) = insert_from(t1, h(k) as int, k, v, 0);
        (ok && ok2, t2)
    }
}

/// The map that `ops` describe: each key to the value of its last insert.
pub open spec fn ops_map<K, V>(ops: Seq<(K, V)>) -> Map<K, V>
    decreases ops.len(),
{
    if ops.len() == 0 {
        Map::empty()
    } else {
        ops_map(ops.drop_last()).insert(ops.last().0, ops.last().1)
    }
}

/// The table agrees with a map over a whole run: after inserts of `ops` that
/// all succeed, into a table built by inserts, a find of any key returns the
/// value of the key's last insert, or what the table held for it before when
/// `ops` never inserted it. From an empty table that is exactly the map of
/// `ops`.
pub proof fn lemma_inserts_agree_with_map<K, V>(t: Seq<Slot<K, V>>, h: spec_fn(K) -> nat, ops: Seq<(K, V)>, k: K)
    requires
        chains_ok(t, h),
    ensures
        insert_all(t, h, ops).0 ==> {
            &&& chains_ok(insert_all(t, h, ops).1, h)
            &&& find_from(insert_all(t, h, ops).1, h(k) as int, k, 0)
                == if ops_map(ops).dom().contains(k) { Some(ops_map(ops)[k]) } else { lookup(t, k) }
        },
    decreases ops.len(),
{
    if ops.len() > 0 {
        let prev = ops.drop_last();
        lemma_inserts_agree_with_map(t, h, prev, k);
        let (ok, t1) = insert_all(t, h, prev);
        if insert_all(t, h, ops).0 {
            let (k2, v2) = ops.last();
            lemma_table_is_map(t1, h, k2, v2);
            let t2 = insert_all(t, h, ops).1;
            lemma_find_is_lookup(t2, h, k);
            lemma_find_is_lookup(t1, h, k);
        }
    } else {
        lemma_find_is_lookup(t, h, k);
    }
}


/// The probe at which a sequential insert of `key` from probe `p` on writes:
/// the first whose slot is free or ready with `key`, or the table size when
/// there is none.
pub open spec fn first_slot<K, V>(t: Seq<Slot<K, V>>, hash: int, key: K, p: int) -> int
    decreases t.len() - p,
{
    if p < 0 || p >= t.len() {
        t.len() as int
    } else {
        let (st, e) = t[probe_slot(hash, p, t.len() as int)];
        if st == 0 || (st == 2 && e.key == key) {
            p
        } else {
            first_slot(t, hash, key, p + 1)
        }
    }
}

/// The entry of slot `probe_slot(hash, r, g)` of `t`.
pub open spec fn slot_at<K, V>(t: Seq<Slot<K, V>>, hash: int, r: int) -> Slot<K, V> {
    t[probe_slot(hash, r, t.len() as int)]
}

proof fn lemma_first_slot<K, V>(t: Seq<Slot<K, V>>, hash: int, key: K, value: V, p: int)
    requires
        table_ok(t),
        hash >= 0,
        0 <= p < t.len(),
    ensures
        p <= first_slot(t, hash, key, p) <= t.len(),
        forall|r: int| p <= r < first_slot(t, hash, key, p) ==>
            (#[trigger] slot_at(t, hash, r)).0 == 2 && slot_at(t, hash, r).1.key != key,
        first_slot(t, hash, key, p) < t.len() ==> {
            let x = slot_at(t, hash, first_slot(t, hash, key, p));
            x.0 == 0 || (x.0 == 2 && x.1.key == key)
        },
        insert_from(t, hash, key, value, p) == if first_slot(t, hash, key, p) < t.len() {
            (true, t.update(probe_slot(hash, first_slot(t, hash, key, p), t.len() as int), (2i64, HashEntry { key, value })))
        } else {
            (false, t)
        },
    decreases t.len() - p,
{
    let g = t.len() as int;
    vstd::arithmetic::div_mod::lemma_mod_pos_bound(hash + p, g);
    let (st, e) = t[probe_slot(hash, p, g)];
    if st == 0 || (st == 2 && e.key == key) {
    } else if p + 1 < g {
        lemma_first_slot(t, hash, key, value, p + 1);
    } else {
        assert(first_slot(t, hash, key, p + 1) == g);
    }
}


/// The insert holds the slot of its probe: it reserved it and has not
/// released or published it yet.
pub open spec fn holds_slot(st: InsertState) -> bool {
    st is Compare || st is Release || st is Write || st is Publish
}

/// Some insert of `sts` holds the slot of probe `r`.
pub open spec fn held(sts: Seq<InsertState>, r: int) -> bool {
    exists|i: int| 0 <= i < sts.len() && holds_slot(#[trigger] sts[i]) && insert_probe(sts[i]) == r
}

/// A round of concurrent inserts: the shared table and the state of each
/// PE's insert.
pub type InsertRound<K, V> = (Seq<Slot<K, V>>, Seq<InsertState>);

/// The start of a round: `n` inserts about to reserve their first slot.
pub open spec fn round_start<K, V>(t: Seq<Slot<K, V>>, n: nat) -> InsertRound<K, V> {
    (t, Seq::new(n, |i: int| InsertState::Reserve { probe: 0, current: 0 }))
}

/// Distinct probes below `g` visit distinct slots, all inside the table.
pub open spec fn probes_apart(hash: int, g: int) -> bool {
    &&& forall|r: int| 0 <= r < g ==> 0 <= #[trigger] probe_slot(hash, r, g) < g
    &&& forall|r: int, r2: int| 0 <= r < g && 0 <= r2 < g && r != r2 ==>
        #[trigger] probe_slot(hash, r, g) != #[trigger] probe_slot(hash, r2, g)
}

proof fn lemma_probes_apart(hash: int, g: int)
    requires
        hash >= 0,
        g > 0,
    ensures
        probes_apart(hash, g),
{
    assert forall|r: int| 0 <= r < g implies 0 <= #[trigger] probe_slot(hash, r, g) < g by {
        vstd::arithmetic::div_mod::lemma_mod_pos_bound(hash + r, g);
    }
    assert forall|r: int, r2: int| 0 <= r < g && 0 <= r2 < g && r != r2 implies
        #[trigger] probe_slot(hash, r, g) != #[trigger] probe_slot(hash, r2, g) by {
        if r < r2 {
            lemma_probes_distinct(hash, r, r2, g);
        } else {
            lemma_probes_distinct(hash, r2, r, g);
        }
    }
}

impl<K: HashKey + Default, V: Bclable + Default> HashTable<K, V> {
    /// PE `p` performs the remote operation of its insert of `(key, value)`
    /// on the shared table and moves to its next state.
    pub open spec fn round_step(&self, sys: InsertRound<K, V>, hash: int, key: K, value: V, p: int) -> InsertRound<K, V> {
        let (ev, t2) = self.insert_apply(sys.0, hash, key, value, sys.1[p]);
        (t2, sys.1.update(p, self.insert_next_spec(key, sys.1[p], ev)))
    }

    /// The PEs step in the order `sched` names them.
    pub open spec fn round_run(&self, sys: InsertRound<K, V>, hash: int, key: K, value: V, sched: Seq<int>) -> InsertRound<K, V>
        decreases sched.len(),
    {
        if sched.len() == 0 {
            sys
        } else {
            self.round_run(self.round_step(sys, hash, key, value, sched[0]), hash, key, value, sched.drop_first())
        }
    }

    /// Where an insert can stand in a round whose sequential insert writes
    /// at probe `q` (`q` is the table size when it fails): never past `q`,
    /// releasing only before it, writing only at it, and done with the
    /// sequential result.
    pub open spec fn round_pe_ok(&self, st: InsertState, q: int) -> bool {
        let g = self.global_size as int;
        match st {
            InsertState::Reserve { probe, current } => probe <= q && probe < g && (current == 0 || current == 2),
            InsertState::Compare { probe } => probe <= q && probe < g,
            InsertState::Release { probe } => probe < q,
            InsertState::Write { probe } => probe == q && q < g,
            InsertState::Publish { probe } => probe == q && q < g,
            InsertState::Done(b) => b == (q < g),
        }
    }

    /// The slot of probe `q`, where the sequential insert writes, in a round.
    pub open spec fn round_target_ok(&self, t0: Seq<Slot<K, V>>, sys: InsertRound<K, V>, hash: int, key: K, value: V, q: int) -> bool {
        let x = slot_at(sys.0, hash, q);
        let x0 = slot_at(t0, hash, q);
        let sts = sys.1;
        &&& x0.0 == 0 || (x0.0 == 2 && x0.1.key == key)
        &&& x.0 == 0 || x.0 == 1 || x.0 == 2
        &&& x.0 == 0 ==> x == x0
        &&& x.0 == 2 ==> x.1.key == key
        &&& forall|i: int| 0 <= i < sts.len() && (#[trigger] sts[i]) is Compare && insert_probe(sts[i]) == q ==> x.1.key == key
        &&& forall|i: int| 0 <= i < sts.len() && ((#[trigger] sts[i]) is Publish || sts[i] == InsertState::Done(true)) ==>
            x.1 == HashEntry { key, value }
        &&& forall|i: int| 0 <= i < sts.len() && (#[trigger] sts[i]) == InsertState::Done(true) ==> x.0 != 0
    }

    /// What holds in every state of a round of `n` concurrent inserts of
    /// `(key, value)` from table `t0`, whose sequential insert writes at probe
    /// `q`: a slot is reserved exactly when one insert holds it; the slots
    /// before `q` keep their entries; those after it are untouched; the slot
    /// of `q` is free as before, or holds `key`, and holds `(key, value)`
    /// once any insert has published.
    pub open spec fn round_inv(&self, t0: Seq<Slot<K, V>>, sys: InsertRound<K, V>, hash: int, key: K, value: V, q: int, n: nat) -> bool {
        let g = self.global_size as int;
        let t = sys.0;
        let sts = sys.1;
        &&& t0.len() == g && t.len() == g && sts.len() == n
        &&& 0 <= q <= g
        &&& probes_apart(hash, g)
        &&& forall|i: int| 0 <= i < n ==> self.round_pe_ok(#[trigger] sts[i], q)
        &&& forall|i: int| 0 <= i < n && holds_slot(#[trigger] sts[i]) ==> slot_at(t, hash, insert_probe(sts[i])).0 == 1
        &&& forall|i: int, j: int| 0 <= i < n && 0 <= j < n && holds_slot(#[trigger] sts[i]) && holds_slot(#[trigger] sts[j])
            && insert_probe(sts[i]) == insert_probe(sts[j]) ==> i == j
        &&& forall|r: int| 0 <= r < g && (#[trigger] slot_at(t, hash, r)).0 == 1 ==> held(sts, r)
        &&& forall|r: int| 0 <= r < q ==> {
            &&& (#[trigger] slot_at(t, hash, r)).1 == slot_at(t0, hash, r).1
            &&& slot_at(t, hash, r).0 == 1 || slot_at(t, hash, r).0 == 2
            &&& slot_at(t0, hash, r).0 == 2 && slot_at(t0, hash, r).1.key != key
        }
        &&& forall|r: int| q < r < g ==> #[trigger] slot_at(t, hash, r) == slot_at(t0, hash, r)
        &&& q < g ==> self.round_target_ok(t0, sys, hash, key, value, q)
    }
}


proof fn lemma_slot_at_update<K, V>(t: Seq<Slot<K, V>>, hash: int, pi: int, y: Slot<K, V>)
    requires
        probes_apart(hash, t.len() as int),
        0 <= pi < t.len(),
    ensures
        forall|r: int| 0 <= r < t.len() ==> #[trigger] slot_at(t.update(probe_slot(hash, pi, t.len() as int), y), hash, r)
            == if r == pi { y } else { slot_at(t, hash, r) },
{
    let g = t.len() as int;
    assert forall|r: int| 0 <= r < g implies #[trigger] slot_at(t.update(probe_slot(hash, pi, g), y), hash, r)
        == if r == pi { y } else { slot_at(t, hash, r) } by {
        assert(0 <= probe_slot(hash, r, g) < g);
        assert(0 <= probe_slot(hash, pi, g) < g);
        if r != pi {
            assert(probe_slot(hash, r, g) != probe_slot(hash, pi, g));
        }
    }
}

impl<K: HashKey + Default, V: Bclable + Default> HashTable<K, V> {
    proof fn lemma_round_start(&self, t: Seq<Slot<K, V>>, hash: int, key: K, value: V, n: nat)
        requires
            self.wf(),
            t.len() == self.global_size,
            table_ok(t),
            hash >= 0,
        ensures
            self.round_inv(t, round_start(t, n), hash, key, value, first_slot(t, hash, key, 0), n),
    {
        let g = self.global_size as int;
        lemma_first_slot(t, hash, key, value, 0);
        lemma_probes_apart(hash, g);
        let q = first_slot(t, hash, key, 0);
        let sys = round_start(t, n);
        assert forall|r: int| 0 <= r < g && (#[trigger] slot_at(t, hash, r)).0 == 1 implies held(sys.1, r) by {
            assert(0 <= probe_slot(hash, r, g) < g);
            assert(t[probe_slot(hash, r, g)].0 == 0 || t[probe_slot(hash, r, g)].0 == 2);
        }
        if q < g {
            assert(0 <= probe_slot(hash, q, g) < g);
            assert(self.round_target_ok(t, sys, hash, key, value, q));
        }
    }
}


impl<K: HashKey + Default, V: Bclable + Default> HashTable<K, V> {
    #[verifier::spinoff_prover]
    #[verifier::rlimit(50)]
    proof fn lemma_round_reserve(&self, t0: Seq<Slot<K, V>>, sys: InsertRound<K, V>, hash: int, key: K, value: V, q: int, n: nat, p: int)
        requires
            self.round_inv(t0, sys, hash, key, value, q, n),
            0 <= p < n,
            sys.1[p] is Reserve,
        ensures
            self.round_inv(t0, self.round_step(sys, hash, key, value, p), hash, key, value, q, n),
    {
        let g = self.global_size as int;
        let t = sys.0;
        let sts = sys.1;
        let st = sts[p];
        assert(self.round_pe_ok(sts[p], q));
        let probe = st->Reserve_probe;
        let current = st->Reserve_current;
        let pi = probe as int;
        let sl = probe_slot(hash, pi, g);
        assert(0 <= sl < g);
        let x = t[sl];
        assert(x == slot_at(t, hash, pi));
        let sys2 = self.round_step(sys, hash, key, value, p);
        let t2 = sys2.0;
        let sts2 = sys2.1;
        assert(self.insert_slot(hash, st) == sl);
        if x.0 == current {
            let y = (1i64, x.1);
            assert(t2 == t.update(sl, y));
            lemma_slot_at_update(t, hash, pi, y);
            let st2 = sts2[p];
            assert(st2 == if current == 0 { InsertState::Write { probe } } else { InsertState::Compare { probe } });
            // nobody held the slot
            assert forall|j: int| 0 <= j < n && holds_slot(#[trigger] sts[j]) implies insert_probe(sts[j]) != pi by {
                if insert_probe(sts[j]) == pi {
                    assert(slot_at(t, hash, insert_probe(sts[j])).0 == 1);
                }
            }
            if current == 0 {
                if pi < q {
                    assert(slot_at(t, hash, pi).0 == 1 || slot_at(t, hash, pi).0 == 2);
                }
                assert(pi == q);
            }
            assert forall|i: int| 0 <= i < n implies self.round_pe_ok(#[trigger] sts2[i], q) by {
                if i != p {
                    assert(sts2[i] == sts[i]);
                }
            }
            assert forall|i: int| 0 <= i < n && holds_slot(#[trigger] sts2[i]) implies
                slot_at(t2, hash, insert_probe(sts2[i])).0 == 1 by {
                if i != p {
                    assert(sts2[i] == sts[i]);
                    assert(0 <= insert_probe(sts[i]) < g);
                }
            }
            assert forall|i: int, j: int| 0 <= i < n && 0 <= j < n && holds_slot(#[trigger] sts2[i]) && holds_slot(#[trigger] sts2[j])
                && insert_probe(sts2[i]) == insert_probe(sts2[j]) implies i == j by {
                if i != p && j != p {
                    assert(sts2[i] == sts[i] && sts2[j] == sts[j]);
                } else if i == p && j != p {
                    assert(sts2[j] == sts[j]);
                } else if i != p && j == p {
                    assert(sts2[i] == sts[i]);
                }
            }
            assert forall|r: int| 0 <= r < g && (#[trigger] slot_at(t2, hash, r)).0 == 1 implies held(sts2, r) by {
                if r == pi {
                    assert(holds_slot(sts2[p]) && insert_probe(sts2[p]) == r);
                } else {
                    assert(held(sts, r));
                    let j = choose|j: int| 0 <= j < sts.len() && holds_slot(#[trigger] sts[j]) && insert_probe(sts[j]) == r;
                    assert(j != p);
                    assert(sts2[j] == sts[j]);
                }
            }
            assert forall|r: int| 0 <= r < q implies {
                &&& (#[trigger] slot_at(t2, hash, r)).1 == slot_at(t0, hash, r).1
                &&& slot_at(t2, hash, r).0 == 1 || slot_at(t2, hash, r).0 == 2
                &&& slot_at(t0, hash, r).0 == 2 && slot_at(t0, hash, r).1.key != key
            } by {
                assert(slot_at(t, hash, r).1 == slot_at(t0, hash, r).1);
            }
            assert forall|r: int| q < r < g implies #[trigger] slot_at(t2, hash, r) == slot_at(t0, hash, r) by {
                assert(slot_at(t, hash, r) == slot_at(t0, hash, r));
            }
            if q < g {
                let xq = slot_at(t2, hash, q);
                assert(self.round_target_ok(t0, sys, hash, key, value, q));
                if pi == q {
                    assert(xq == y);
                    // a finished insert would have left the slot taken
                    assert forall|i: int| 0 <= i < n && (#[trigger] sts2[i]) == InsertState::Done(true) implies xq.0 != 0 by {
                    }
                    assert forall|i: int| 0 <= i < n && ((#[trigger] sts2[i]) is Publish || sts2[i] == InsertState::Done(true))
                        implies xq.1 == HashEntry { key, value } by {
                        assert(i != p);
                        assert(sts2[i] == sts[i]);
                        if sts[i] is Publish {
                            assert(holds_slot(sts[i]));
                            assert(insert_probe(sts[i]) == q);
                        } else {
                            assert(slot_at(t, hash, q).0 != 0);
                        }
                    }
                    assert forall|i: int| 0 <= i < n && (#[trigger] sts2[i]) is Compare && insert_probe(sts2[i]) == q
                        implies xq.1.key == key by {
                        if i != p {
                            assert(sts2[i] == sts[i]);
                            assert(holds_slot(sts[i]));
                        } else {
                            assert(current == 2);
                        }
                    }
                    assert(self.round_target_ok(t0, sys2, hash, key, value, q));
                } else {
                    assert(xq == slot_at(t, hash, q));
                    assert forall|i: int| 0 <= i < n && (#[trigger] sts2[i]) is Compare && insert_probe(sts2[i]) == q
                        implies xq.1.key == key by {
                        if i != p {
                            assert(sts2[i] == sts[i]);
                        }
                    }
                    assert forall|i: int| 0 <= i < n && ((#[trigger] sts2[i]) is Publish || sts2[i] == InsertState::Done(true))
                        implies xq.1 == HashEntry { key, value } by {
                        assert(i != p);
                        assert(sts2[i] == sts[i]);
                    }
                    assert forall|i: int| 0 <= i < n && (#[trigger] sts2[i]) == InsertState::Done(true) implies xq.0 != 0 by {
                        assert(i != p);
                        assert(sts2[i] == sts[i]);
                    }
                    assert(self.round_target_ok(t0, sys2, hash, key, value, q));
                }
            }
        } else {
            assert(t2 == t);
            assert(sts2 == sts.update(p, InsertState::Reserve { probe, current: 2 }));
            assert forall|i: int| 0 <= i < n implies self.round_pe_ok(#[trigger] sts2[i], q) by {
                if i != p {
                    assert(sts2[i] == sts[i]);
                }
            }
            assert forall|i: int| 0 <= i < n && holds_slot(#[trigger] sts2[i]) implies
                slot_at(t2, hash, insert_probe(sts2[i])).0 == 1 by {
                assert(i != p);
                assert(sts2[i] == sts[i]);
            }
            assert forall|i: int, j: int| 0 <= i < n && 0 <= j < n && holds_slot(#[trigger] sts2[i]) && holds_slot(#[trigger] sts2[j])
                && insert_probe(sts2[i]) == insert_probe(sts2[j]) implies i == j by {
                assert(i != p && j != p);
                assert(sts2[i] == sts[i] && sts2[j] == sts[j]);
            }
            assert forall|r: int| 0 <= r < g && (#[trigger] slot_at(t2, hash, r)).0 == 1 implies held(sts2, r) by {
                assert(held(sts, r));
                let j = choose|j: int| 0 <= j < sts.len() && holds_slot(#[trigger] sts[j]) && insert_probe(sts[j]) == r;
                assert(j != p);
                assert(sts2[j] == sts[j]);
            }
            if q < g {
                assert(self.round_target_ok(t0, sys, hash, key, value, q));
                let xq = slot_at(t2, hash, q);
                assert forall|i: int| 0 <= i < n && (#[trigger] sts2[i]) is Compare && insert_probe(sts2[i]) == q
                    implies xq.1.key == key by {
                    assert(i != p);
                    assert(sts2[i] == sts[i]);
                }
                assert forall|i: int| 0 <= i < n && ((#[trigger] sts2[i]) is Publish || sts2[i] == InsertState::Done(true))
                    implies xq.1 == HashEntry { key, value } by {
                    assert(i != p);
                    assert(sts2[i] == sts[i]);
                }
                assert forall|i: int| 0 <= i < n && (#[trigger] sts2[i]) == InsertState::Done(true) implies xq.0 != 0 by {
                    assert(i != p);
                    assert(sts2[i] == sts[i]);
                }
            }
        }
    }
}


impl<K: HashKey + Default, V: Bclable + Default> HashTable<K, V> {
    /// A step in which PE `p` keeps holding the slot of the same probe and
    /// the table keeps every status: what the invariant says of the others
    /// carries over.
    proof fn lemma_round_keep_hold(&self, t0: Seq<Slot<K, V>>, sys: InsertRound<K, V>, sys2: InsertRound<K, V>,
        hash: int, key: K, value: V, q: int, n: nat, p: int)
        requires
            self.round_inv(t0, sys, hash, key, value, q, n),
            0 <= p < n,
            holds_slot(sys.1[p]),
            holds_slot(sys2.1[p]),
            insert_probe(sys2.1[p]) == insert_probe(sys.1[p]),
            self.round_pe_ok(sys2.1[p], q),
            sys2.1 == sys.1.update(p, sys2.1[p]),
            sys2.0.len() == sys.0.len(),
            forall|r: int| 0 <= r < self.global_size ==> (#[trigger] slot_at(sys2.0, hash, r)).0 == slot_at(sys.0, hash, r).0,
            forall|r: int| 0 <= r < self.global_size && r != q ==> #[trigger] slot_at(sys2.0, hash, r) == slot_at(sys.0, hash, r),
            q < self.global_size ==> self.round_target_ok(t0, sys2, hash, key, value, q),
        ensures
            self.round_inv(t0, sys2, hash, key, value, q, n),
    {
        let g = self.global_size as int;
        let t = sys.0;
        let sts = sys.1;
        let t2 = sys2.0;
        let sts2 = sys2.1;
        assert forall|i: int| 0 <= i < n implies self.round_pe_ok(#[trigger] sts2[i], q) by {
            if i != p {
                assert(sts2[i] == sts[i]);
            }
        }
        assert forall|i: int| 0 <= i < n && holds_slot(#[trigger] sts2[i]) implies
            slot_at(t2, hash, insert_probe(sts2[i])).0 == 1 by {
            if i != p {
                assert(sts2[i] == sts[i]);
            }
            assert(holds_slot(sts[i]));
            assert(0 <= insert_probe(sts[i]) < g) by {
                assert(self.round_pe_ok(sts[i], q));
            }
        }
        assert forall|i: int, j: int| 0 <= i < n && 0 <= j < n && holds_slot(#[trigger] sts2[i]) && holds_slot(#[trigger] sts2[j])
            && insert_probe(sts2[i]) == insert_probe(sts2[j]) implies i == j by {
            if i != p {
                assert(sts2[i] == sts[i]);
            }
            if j != p {
                assert(sts2[j] == sts[j]);
            }
            assert(holds_slot(sts[i]) && holds_slot(sts[j]));
        }
        assert forall|r: int| 0 <= r < g && (#[trigger] slot_at(t2, hash, r)).0 == 1 implies held(sts2, r) by {
            assert(slot_at(t, hash, r).0 == 1);
            assert(held(sts, r));
            let j = choose|j: int| 0 <= j < sts.len() && holds_slot(#[trigger] sts[j]) && insert_probe(sts[j]) == r;
            if j != p {
                assert(sts2[j] == sts[j]);
            } else {
                assert(holds_slot(sts2[p]) && insert_probe(sts2[p]) == r);
            }
        }
        assert forall|r: int| 0 <= r < q implies {
            &&& (#[trigger] slot_at(t2, hash, r)).1 == slot_at(t0, hash, r).1
            &&& slot_at(t2, hash, r).0 == 1 || slot_at(t2, hash, r).0 == 2
            &&& slot_at(t0, hash, r).0 == 2 && slot_at(t0, hash, r).1.key != key
        } by {
            assert(slot_at(t, hash, r).1 == slot_at(t0, hash, r).1);
            assert(r != q);
        }
        assert forall|r: int| q < r < g implies #[trigger] slot_at(t2, hash, r) == slot_at(t0, hash, r) by {
            assert(slot_at(t, hash, r) == slot_at(t0, hash, r));
        }
    }

    #[verifier::spinoff_prover]
    proof fn lemma_round_compare(&self, t0: Seq<Slot<K, V>>, sys: InsertRound<K, V>, hash: int, key: K, value: V, q: int, n: nat, p: int)
        requires
            self.round_inv(t0, sys, hash, key, value, q, n),
            0 <= p < n,
            sys.1[p] is Compare,
        ensures
            self.round_inv(t0, self.round_step(sys, hash, key, value, p), hash, key, value, q, n),
    {
        let g = self.global_size as int;
        let t = sys.0;
        let sts = sys.1;
        let st = sts[p];
        assert(self.round_pe_ok(sts[p], q));
        let probe = st->Compare_probe;
        let pi = probe as int;
        let sl = probe_slot(hash, pi, g);
        assert(self.insert_slot(hash, st) == sl);
        let sys2 = self.round_step(sys, hash, key, value, p);
        assert(sys2.0 == t);
        let e = t[sl].1;
        assert(e == slot_at(t, hash, pi).1);
        if pi < q {
            assert(e.key != key);
            assert(sys2.1[p] == InsertState::Release { probe });
        } else {
            assert(self.round_target_ok(t0, sys, hash, key, value, q));
            assert(e.key == key);
            assert(sys2.1[p] == InsertState::Write { probe });
        }
        if q < g {
            assert(self.round_target_ok(t0, sys, hash, key, value, q));
            let xq = slot_at(t, hash, q);
            let sts2 = sys2.1;
            assert forall|i: int| 0 <= i < n && (#[trigger] sts2[i]) is Compare && insert_probe(sts2[i]) == q
                implies xq.1.key == key by {
                assert(i != p);
                assert(sts2[i] == sts[i]);
            }
            assert forall|i: int| 0 <= i < n && ((#[trigger] sts2[i]) is Publish || sts2[i] == InsertState::Done(true))
                implies xq.1 == HashEntry { key, value } by {
                assert(i != p);
                assert(sts2[i] == sts[i]);
            }
            assert forall|i: int| 0 <= i < n && (#[trigger] sts2[i]) == InsertState::Done(true) implies xq.0 != 0 by {
                assert(i != p);
                assert(sts2[i] == sts[i]);
            }
        }
        self.lemma_round_keep_hold(t0, sys, sys2, hash, key, value, q, n, p);
    }

    #[verifier::spinoff_prover]
    proof fn lemma_round_write(&self, t0: Seq<Slot<K, V>>, sys: InsertRound<K, V>, hash: int, key: K, value: V, q: int, n: nat, p: int)
        requires
            self.round_inv(t0, sys, hash, key, value, q, n),
            0 <= p < n,
            sys.1[p] is Write,
        ensures
            self.round_inv(t0, self.round_step(sys, hash, key, value, p), hash, key, value, q, n),
    {
        let g = self.global_size as int;
        let t = sys.0;
        let sts = sys.1;
        let st = sts[p];
        assert(self.round_pe_ok(sts[p], q));
        let probe = st->Write_probe;
        let pi = probe as int;
        assert(pi == q && q < g);
        let sl = probe_slot(hash, pi, g);
        assert(self.insert_slot(hash, st) == sl);
        let sys2 = self.round_step(sys, hash, key, value, p);
        let x = t[sl];
        assert(x == slot_at(t, hash, q));
        assert(holds_slot(sts[p]));
        assert(x.0 == 1);
        let y = (x.0, HashEntry { key, value });
        assert(sys2.0 == t.update(sl, y));
        lemma_slot_at_update(t, hash, pi, y);
        assert(sys2.1[p] == InsertState::Publish { probe });
        assert(self.round_target_ok(t0, sys, hash, key, value, q));
        let sts2 = sys2.1;
        let xq = slot_at(sys2.0, hash, q);
        assert(xq == y);
        assert forall|i: int| 0 <= i < n && (#[trigger] sts2[i]) is Compare && insert_probe(sts2[i]) == q
            implies xq.1.key == key by {
        }
        assert forall|i: int| 0 <= i < n && (#[trigger] sts2[i]) == InsertState::Done(true) implies xq.0 != 0 by {
        }
        assert(self.round_target_ok(t0, sys2, hash, key, value, q));
        self.lemma_round_keep_hold(t0, sys, sys2, hash, key, value, q, n, p);
    }
}


impl<K: HashKey + Default, V: Bclable + Default> HashTable<K, V> {
    /// A step in which PE `p` gives back the slot it held, making it ready,
    /// and moves to a state that holds nothing: what the invariant says of
    /// the others carries over.
    proof fn lemma_round_let_go(&self, t0: Seq<Slot<K, V>>, sys: InsertRound<K, V>, sys2: InsertRound<K, V>,
        hash: int, key: K, value: V, q: int, n: nat, p: int)
        requires
            self.round_inv(t0, sys, hash, key, value, q, n),
            0 <= p < n,
            holds_slot(sys.1[p]),
            !holds_slot(sys2.1[p]),
            self.round_pe_ok(sys2.1[p], q),
            sys2.1 == sys.1.update(p, sys2.1[p]),
            sys2.0 == sys.0.update(probe_slot(hash, insert_probe(sys.1[p]), self.global_size as int),
                (2i64, slot_at(sys.0, hash, insert_probe(sys.1[p])).1)),
            q < self.global_size ==> self.round_target_ok(t0, sys2, hash, key, value, q),
        ensures
            self.round_inv(t0, sys2, hash, key, value, q, n),
    {
        let g = self.global_size as int;
        let t = sys.0;
        let sts = sys.1;
        let t2 = sys2.0;
        let sts2 = sys2.1;
        assert(self.round_pe_ok(sts[p], q));
        let pi = insert_probe(sts[p]);
        assert(0 <= pi < g);
        let y = (2i64, slot_at(t, hash, pi).1);
        lemma_slot_at_update(t, hash, pi, y);
        assert forall|i: int| 0 <= i < n implies self.round_pe_ok(#[trigger] sts2[i], q) by {
            if i != p {
                assert(sts2[i] == sts[i]);
            }
        }
        assert forall|i: int| 0 <= i < n && holds_slot(#[trigger] sts2[i]) implies
            slot_at(t2, hash, insert_probe(sts2[i])).0 == 1 by {
            assert(i != p);
            assert(sts2[i] == sts[i]);
            assert(self.round_pe_ok(sts[i], q));
            if insert_probe(sts[i]) == pi {
                assert(holds_slot(sts[p]));
            }
        }
        assert forall|i: int, j: int| 0 <= i < n && 0 <= j < n && holds_slot(#[trigger] sts2[i]) && holds_slot(#[trigger] sts2[j])
            && insert_probe(sts2[i]) == insert_probe(sts2[j]) implies i == j by {
            assert(i != p && j != p);
            assert(sts2[i] == sts[i] && sts2[j] == sts[j]);
        }
        assert forall|r: int| 0 <= r < g && (#[trigger] slot_at(t2, hash, r)).0 == 1 implies held(sts2, r) by {
            assert(r != pi);
            assert(held(sts, r));
            let j = choose|j: int| 0 <= j < sts.len() && holds_slot(#[trigger] sts[j]) && insert_probe(sts[j]) == r;
            assert(j != p);
            assert(sts2[j] == sts[j]);
        }
        assert forall|r: int| 0 <= r < q implies {
            &&& (#[trigger] slot_at(t2, hash, r)).1 == slot_at(t0, hash, r).1
            &&& slot_at(t2, hash, r).0 == 1 || slot_at(t2, hash, r).0 == 2
            &&& slot_at(t0, hash, r).0 == 2 && slot_at(t0, hash, r).1.key != key
        } by {
            assert(slot_at(t, hash, r).1 == slot_at(t0, hash, r).1);
        }
        assert forall|r: int| q < r < g implies #[trigger] slot_at(t2, hash, r) == slot_at(t0, hash, r) by {
            assert(slot_at(t, hash, r) == slot_at(t0, hash, r));
            assert(r != pi);
        }
    }

    #[verifier::spinoff_prover]
    proof fn lemma_round_release(&self, t0: Seq<Slot<K, V>>, sys: InsertRound<K, V>, hash: int, key: K, value: V, q: int, n: nat, p: int)
        requires
            self.round_inv(t0, sys, hash, key, value, q, n),
            0 <= p < n,
            sys.1[p] is Release,
        ensures
            self.round_inv(t0, self.round_step(sys, hash, key, value, p), hash, key, value, q, n),
    {
        let g = self.global_size as int;
        let t = sys.0;
        let sts = sys.1;
        let st = sts[p];
        assert(self.round_pe_ok(sts[p], q));
        let probe = st->Release_probe;
        let pi = probe as int;
        assert(pi < q && q <= g);
        let sl = probe_slot(hash, pi, g);
        assert(self.insert_slot(hash, st) == sl);
        assert(holds_slot(sts[p]));
        assert(t[sl] == slot_at(t, hash, pi));
        assert(t[sl].0 == 1);
        let sys2 = self.round_step(sys, hash, key, value, p);
        assert(sys2.0 == t.update(sl, (2i64, t[sl].1)));
        if probe + 1 >= self.global_size {
            assert(sys2.1[p] == InsertState::Done(false));
            assert(q == g);
        } else {
            assert(sys2.1[p] == InsertState::Reserve { probe: (probe + 1) as u64, current: 0 });
            assert(insert_probe(sys2.1[p]) == pi + 1);
        }
        if q < g {
            assert(self.round_target_ok(t0, sys, hash, key, value, q));
            lemma_slot_at_update(t, hash, pi, (2i64, t[sl].1));
            let sts2 = sys2.1;
            let xq = slot_at(sys2.0, hash, q);
            assert(xq == slot_at(t, hash, q));
            assert forall|i: int| 0 <= i < n && (#[trigger] sts2[i]) is Compare && insert_probe(sts2[i]) == q
                implies xq.1.key == key by {
                assert(i != p);
                assert(sts2[i] == sts[i]);
            }
            assert forall|i: int| 0 <= i < n && ((#[trigger] sts2[i]) is Publish || sts2[i] == InsertState::Done(true))
                implies xq.1 == HashEntry { key, value } by {
                assert(i != p);
                assert(sts2[i] == sts[i]);
            }
            assert forall|i: int| 0 <= i < n && (#[trigger] sts2[i]) == InsertState::Done(true) implies xq.0 != 0 by {
                assert(i != p);
                assert(sts2[i] == sts[i]);
            }
        }
        self.lemma_round_let_go(t0, sys, sys2, hash, key, value, q, n, p);
    }

    #[verifier::spinoff_prover]
    proof fn lemma_round_publish(&self, t0: Seq<Slot<K, V>>, sys: InsertRound<K, V>, hash: int, key: K, value: V, q: int, n: nat, p: int)
        requires
            self.round_inv(t0, sys, hash, key, value, q, n),
            0 <= p < n,
            sys.1[p] is Publish,
        ensures
            self.round_inv(t0, self.round_step(sys, hash, key, value, p), hash, key, value, q, n),
    {
        let g = self.global_size as int;
        let t = sys.0;
        let sts = sys.1;
        let st = sts[p];
        assert(self.round_pe_ok(sts[p], q));
        let probe = st->Publish_probe;
        let pi = probe as int;
        assert(pi == q && q < g);
        let sl = probe_slot(hash, pi, g);
        assert(self.insert_slot(hash, st) == sl);
        assert(holds_slot(sts[p]));
        assert(t[sl] == slot_at(t, hash, pi));
        assert(t[sl].0 == 1);
        let sys2 = self.round_step(sys, hash, key, value, p);
        let y = (2i64, t[sl].1);
        assert(sys2.0 == t.update(sl, y));
        assert(sys2.1[p] == InsertState::Done(true));
        assert(self.round_target_ok(t0, sys, hash, key, value, q));
        lemma_slot_at_update(t, hash, pi, y);
        let sts2 = sys2.1;
        let xq = slot_at(sys2.0, hash, q);
        assert(xq == y);
        assert(t[sl].1 == HashEntry { key, value });
        assert forall|i: int| 0 <= i < n && (#[trigger] sts2[i]) is Compare && insert_probe(sts2[i]) == q
            implies xq.1.key == key by {
        }
        assert forall|i: int| 0 <= i < n && ((#[trigger] sts2[i]) is Publish || sts2[i] == InsertState::Done(true))
            implies xq.1 == HashEntry { key, value } by {
        }
        assert(self.round_target_ok(t0, sys2, hash, key, value, q));
        self.lemma_round_let_go(t0, sys, sys2, hash, key, value, q, n, p);
    }
}


impl<K: HashKey + Default, V: Bclable + Default> HashTable<K, V> {
    proof fn lemma_round_step(&self, t0: Seq<Slot<K, V>>, sys: InsertRound<K, V>, hash: int, key: K, value: V, q: int, n: nat, p: int)
        requires
            self.round_inv(t0, sys, hash, key, value, q, n),
            0 <= p < n,
        ensures
            self.round_inv(t0, self.round_step(sys, hash, key, value, p), hash, key, value, q, n),
    {
        match sys.1[p] {
            InsertState::Reserve { .. } => self.lemma_round_reserve(t0, sys, hash, key, value, q, n, p),
            InsertState::Compare { .. } => self.lemma_round_compare(t0, sys, hash, key, value, q, n, p),
            InsertState::Release { .. } => self.lemma_round_release(t0, sys, hash, key, value, q, n, p),
            InsertState::Write { .. } => self.lemma_round_write(t0, sys, hash, key, value, q, n, p),
            InsertState::Publish { .. } => self.lemma_round_publish(t0, sys, hash, key, value, q, n, p),
            InsertState::Done(_) => {
                assert(self.round_step(sys, hash, key, value, p).1 =~= sys.1);
            },
        }
    }

    proof fn lemma_round_run(&self, t0: Seq<Slot<K, V>>, sys: InsertRound<K, V>, hash: int, key: K, value: V, q: int, n: nat, sched: Seq<int>)
        requires
            self.round_inv(t0, sys, hash, key, value, q, n),
            forall|i: int| 0 <= i < sched.len() ==> 0 <= #[trigger] sched[i] < n,
        ensures
            self.round_inv(t0, self.round_run(sys, hash, key, value, sched), hash, key, value, q, n),
        decreases sched.len(),
    {
        if sched.len() > 0 {
            self.lemma_round_step(t0, sys, hash, key, value, q, n, sched[0]);
            assert forall|i: int| 0 <= i < sched.drop_first().len() implies 0 <= #[trigger] sched.drop_first()[i] < n by {
                assert(sched.drop_first()[i] == sched[i + 1]);
            }
            self.lemma_round_run(t0, self.round_step(sys, hash, key, value, sched[0]), hash, key, value, q, n, sched.drop_first());
        }
    }

    proof fn lemma_round_end(&self, t0: Seq<Slot<K, V>>, sys: InsertRound<K, V>, hash: int, key: K, value: V, n: nat)
        requires
            table_ok(t0),
            hash >= 0,
            n > 0,
            self.round_inv(t0, sys, hash, key, value, first_slot(t0, hash, key, 0), n),
            forall|i: int| 0 <= i < n ==> (#[trigger] sys.1[i]) is Done,
        ensures
            sys.0 == insert_from(t0, hash, key, value, 0).1,
    {
        let g = self.global_size as int;
        let q = first_slot(t0, hash, key, 0);
        let t = sys.0;
        let sts = sys.1;
        lemma_first_slot(t0, hash, key, value, 0);
        let e = HashEntry { key, value };
        let target = if q < g { t0.update(probe_slot(hash, q, g), (2i64, e)) } else { t0 };
        assert(insert_from(t0, hash, key, value, 0).1 == target);
        assert(self.round_pe_ok(sts[0], q));
        assert forall|s: int| 0 <= s < g implies t[s] == target[s] by {
            lemma_probe_covers(hash, s, g);
            let r = probe_of(hash, s, g);
            assert(slot_at(t, hash, r) == t[s]);
            assert(slot_at(t0, hash, r) == t0[s]);
            if t[s].0 == 1 {
                assert(held(sts, r));
                let j = choose|j: int| 0 <= j < sts.len() && holds_slot(#[trigger] sts[j]) && insert_probe(sts[j]) == r;
                assert(sts[j] is Done);
            }
            if r < q {
                assert(slot_at(t, hash, r).1 == slot_at(t0, hash, r).1);
                if q < g {
                    assert(probe_slot(hash, r, g) != probe_slot(hash, q, g));
                }
            } else if r > q {
                assert(slot_at(t, hash, r) == slot_at(t0, hash, r));
                if q < g {
                    assert(probe_slot(hash, r, g) != probe_slot(hash, q, g));
                }
            } else {
                assert(q < g);
                assert(self.round_target_ok(t0, sys, hash, key, value, q));
                assert(sts[0] == InsertState::Done(true));
                assert(t[s].1 == e);
                assert(t[s].0 != 0);
            }
        }
        assert(t =~= target);
    }

    /// Concurrent inserts of one pair act as one sequential insert. `n` PEs
    /// insert the same `(key, value)`, whose key hashes to `hash`, into a
    /// shared table `t` in which no operation is half done, each by the
    /// insert protocol, their remote operations interleaved in any order
    /// `sched`. In every state each insert is in a state `insert_action`
    /// accepts; every insert that has finished returns what the sequential
    /// insert `insert_from` returns; and once all have finished, the table is
    /// the one the sequential insert leaves. A run of rounds, each ending in
    /// a barrier, thus builds the tables of `insert_all`.
    pub proof fn lemma_concurrent_insert(&self, t: Seq<Slot<K, V>>, hash: int, key: K, value: V, n: nat, sched: Seq<int>)
        requires
            self.wf(),
            t.len() == self.global_size,
            table_ok(t),
            hash >= 0,
            forall|i: int| 0 <= i < sched.len() ==> 0 <= #[trigger] sched[i] < n,
        ensures
            ({
                let (t2, sts) = self.round_run(round_start(t, n), hash, key, value, sched);
                &&& sts.len() == n
                &&& forall|i: int| 0 <= i < n ==> self.insert_state_ok(#[trigger] sts[i])
                &&& forall|i: int| 0 <= i < n && (#[trigger] sts[i]) is Done ==>
                    sts[i] == InsertState::Done(insert_from(t, hash, key, value, 0).0)
                &&& n > 0 && (forall|i: int| 0 <= i < n ==> (#[trigger] sts[i]) is Done) ==>
                    t2 == insert_from(t, hash, key, value, 0).1
            }),
    {
        let g = self.global_size as int;
        let q = first_slot(t, hash, key, 0);
        self.lemma_round_start(t, hash, key, value, n);
        self.lemma_round_run(t, round_start(t, n), hash, key, value, q, n, sched);
        let sys = self.round_run(round_start(t, n), hash, key, value, sched);
        lemma_first_slot(t, hash, key, value, 0);
        let sts = sys.1;
        assert forall|i: int| 0 <= i < n implies self.insert_state_ok(#[trigger] sts[i]) by {
            assert(self.round_pe_ok(sts[i], q));
        }
        assert forall|i: int| 0 <= i < n && (#[trigger] sts[i]) is Done implies
            sts[i] == InsertState::Done(insert_from(t, hash, key, value, 0).0) by {
            assert(self.round_pe_ok(sts[i], q));
        }
        if n > 0 && (forall|i: int| 0 <= i < n ==> (#[trigger] sts[i]) is Done) {
            self.lemma_round_end(t, sys, hash, key, value, n);
        }
    }
}


proof fn lemma_insert_keeps_ok<K, V>(t: Seq<Slot<K, V>>, hash: int, key: K, value: V)
    requires
        table_ok(t),
        hash >= 0,
    ensures
        table_ok(insert_from(t, hash, key, value, 0).1),
        insert_from(t, hash, key, value, 0).1.len() == t.len(),
{
    lemma_first_slot(t, hash, key, value, 0);
    let g = t.len() as int;
    let q = first_slot(t, hash, key, 0);
    if q < g {
        vstd::arithmetic::div_mod::lemma_mod_pos_bound(hash + q, g);
        let t2 = insert_from(t, hash, key, value, 0).1;
        assert forall|i: int| 0 <= i < t2.len() implies (#[trigger] t2[i]).0 == 0 || t2[i].0 == 2 by {
            if i != probe_slot(hash, q, g) {
                assert(t2[i] == t[i]);
            }
        }
    }
}

impl<K: HashKey + Default, V: Bclable + Default> HashTable<K, V> {
    /// Rounds of concurrent inserts, each ending in a barrier: in round `j`
    /// every one of the `n` PEs inserts `ops[j]`, key hashed by `h`, their
    /// steps interleaved as `scheds[j]`. Whether every round ran to the end
    /// of every insert, and the table after the last round.
    pub open spec fn rounds_run(&self, t: Seq<Slot<K, V>>, h: spec_fn(K) -> nat, ops: Seq<(K, V)>, n: nat, scheds: Seq<Seq<int>>)
        -> (bool, Seq<Slot<K, V>>)
        decreases ops.len(),
    {
        if ops.len() == 0 || scheds.len() != ops.len() {
            (true, t)
        } else {
            let (fin, t1) = self.rounds_run(t, h, ops.drop_last(), n, scheds.drop_last());
            let (k, v) = ops.last();
            let (t2, sts) = self.round_run(round_start(t1, n), h(k) as int, k, v, scheds.last());
            (fin && forall|i: int| 0 <= i < n ==> (#[trigger] sts[i]) is Done, t2)
        }
    }

    /// The table agrees with a map under concurrent inserts. When every PE
    /// inserts each pair of `ops` in turn, all at once, with a barrier after
    /// each pair, and every insert has finished, the table is the one the
    /// sequential inserts `insert_all` build; so when those all succeed, into
    /// a table built by inserts, a find of any key returns the value of its
    /// last insert, or what the table held before.
    pub proof fn lemma_concurrent_rounds(&self, t: Seq<Slot<K, V>>, h: spec_fn(K) -> nat, ops: Seq<(K, V)>, n: nat,
        scheds: Seq<Seq<int>>, k: K)
        requires
            self.wf(),
            t.len() == self.global_size,
            table_ok(t),
            n > 0,
            scheds.len() == ops.len(),
            forall|j: int, i: int| 0 <= j < scheds.len() && 0 <= i < scheds[j].len() ==> 0 <= #[trigger] scheds[j][i] < n,
        ensures
            self.rounds_run(t, h, ops, n, scheds).0 ==> {
                &&& self.rounds_run(t, h, ops, n, scheds).1 == insert_all(t, h, ops).1
                &&& table_ok(self.rounds_run(t, h, ops, n, scheds).1)
                &&& self.rounds_run(t, h, ops, n, scheds).1.len() == t.len()
            },
            self.rounds_run(t, h, ops, n, scheds).0 && insert_all(t, h, ops).0 && chains_ok(t, h) ==>
                find_from(self.rounds_run(t, h, ops, n, scheds).1, h(k) as int, k, 0)
                    == if ops_map(ops).dom().contains(k) { Some(ops_map(ops)[k]) } else { lookup(t, k) },
        decreases ops.len(),
    {
        if ops.len() > 0 {
            let prev = ops.drop_last();
            let sp = scheds.drop_last();
            assert forall|j: int, i: int| 0 <= j < sp.len() && 0 <= i < sp[j].len() implies 0 <= #[trigger] sp[j][i] < n by {
                assert(sp[j] == scheds[j]);
            }
            self.lemma_concurrent_rounds(t, h, prev, n, sp, k);
            let (fin, t1) = self.rounds_run(t, h, prev, n, sp);
            let (kk, vv) = ops.last();
            if self.rounds_run(t, h, ops, n, scheds).0 {
                let last = scheds.last();
                assert forall|i: int| 0 <= i < last.len() implies 0 <= #[trigger] last[i] < n by {
                    assert(last[i] == scheds[scheds.len() - 1][i]);
                }
                self.lemma_concurrent_insert(t1, h(kk) as int, kk, vv, n, last);
                lemma_insert_keeps_ok(t1, h(kk) as int, kk, vv);
            }
        }
        if self.rounds_run(t, h, ops, n, scheds).0 && insert_all(t, h, ops).0 && chains_ok(t, h) {
            lemma_inserts_agree_with_map(t, h, ops, k);
        }
    }
}


/// A round of concurrent inserts of possibly different pairs: the shared
/// table, the state of each PE's insert, and the order in which the inserts
/// finished.
pub type MixedRound<K, V> = (Seq<Slot<K, V>>, Seq<InsertState>, Seq<int>);

/// The start of a round: `n` inserts about to reserve their first slot,
/// none finished.
pub open spec fn mixed_start<K, V>(t: Seq<Slot<K, V>>, n: nat) -> MixedRound<K, V> {
    (t, Seq::new(n, |i: int| InsertState::Reserve { probe: 0, current: 0 }), Seq::empty())
}

/// The pairs of `ops` in the order `log` names their PEs.
pub open spec fn lin_ops<K, V>(ops: Seq<(K, V)>, log: Seq<int>) -> Seq<(K, V)> {
    Seq::new(log.len(), |m: int| ops[log[m]])
}

/// The table that the sequential inserts of the pairs of `ops`, in the order
/// `log`, build from `t0`.
pub open spec fn lin_table<K, V>(t0: Seq<Slot<K, V>>, h: spec_fn(K) -> nat, ops: Seq<(K, V)>, log: Seq<int>) -> Seq<Slot<K, V>> {
    insert_all(t0, h, lin_ops(ops, log)).1
}

/// What the sequential insert of the pair of the `m`-th PE of `log` returns
/// at its place in that order.
pub open spec fn lin_result<K, V>(t0: Seq<Slot<K, V>>, h: spec_fn(K) -> nat, ops: Seq<(K, V)>, log: Seq<int>, m: int) -> bool {
    let (k, v) = ops[log[m]];
    insert_from(lin_table(t0, h, ops, log.take(m)), h(k) as int, k, v, 0).0
}

/// The slot that the insert of PE `i` is at.
pub open spec fn pe_slot<K, V>(h: spec_fn(K) -> nat, ops: Seq<(K, V)>, sts: Seq<InsertState>, i: int, g: int) -> int {
    probe_slot(h(ops[i].0) as int, insert_probe(sts[i]), g)
}

/// The probes of `key`, hashed to `hk`, before probe `p` visit ready slots
/// of `a` holding other keys.
pub open spec fn passed<K, V>(a: Seq<Slot<K, V>>, hk: int, key: K, p: int) -> bool {
    forall|r: int| 0 <= r < p ==> (#[trigger] slot_at(a, hk, r)).0 == 2 && slot_at(a, hk, r).1.key != key
}

impl<K: HashKey + Default, V: Bclable + Default> HashTable<K, V> {
    /// PE `p` performs the remote operation of its insert of `ops[p]`, its
    /// key hashed by `h`, and moves on; when that finishes its insert, it
    /// joins the order of finished inserts.
    pub open spec fn mixed_step(&self, sys: MixedRound<K, V>, h: spec_fn(K) -> nat, ops: Seq<(K, V)>, p: int) -> MixedRound<K, V> {
        let k = ops[p].0;
        let v = ops[p].1;
        let st = sys.1[p];
        let (ev, t2) = self.insert_apply(sys.0, h(k) as int, k, v, st);
        let st2 = self.insert_next_spec(k, st, ev);
        (t2, sys.1.update(p, st2), if !(st is Done) && st2 is Done { sys.2.push(p) } else { sys.2 })
    }

    /// The PEs step in the order `sched` names them.
    pub open spec fn mixed_run(&self, sys: MixedRound<K, V>, h: spec_fn(K) -> nat, ops: Seq<(K, V)>, sched: Seq<int>) -> MixedRound<K, V>
        decreases sched.len(),
    {
        if sched.len() == 0 {
            sys
        } else {
            self.mixed_run(self.mixed_step(sys, h, ops, sched[0]), h, ops, sched.drop_first())
        }
    }

    /// Where the insert of PE `i` can stand, given the table `a` of the
    /// inserts finished so far and the shared table `t`: its earlier probes
    /// passed slots of other keys; a slot it holds is reserved in `t` and
    /// holds there what it holds in `a` (or the new entry, once written); it
    /// writes only where its sequential insert would, and releases only slots
    /// of other keys.
    pub open spec fn mixed_pe_ok(&self, a: Seq<Slot<K, V>>, t: Seq<Slot<K, V>>, h: spec_fn(K) -> nat,
        ops: Seq<(K, V)>, sts: Seq<InsertState>, i: int) -> bool
    {
        let key = ops[i].0;
        let value = ops[i].1;
        let hk = h(key) as int;
        let st = sts[i];
        let g = self.global_size as int;
        let pr = insert_probe(st);
        let s = probe_slot(hk, pr, g);
        match st {
            InsertState::Done(_) => true,
            _ => {
                &&& 0 <= pr < g
                &&& passed(a, hk, key, pr)
                &&& match st {
                    InsertState::Reserve { current, .. } => current == 0 || current == 2,
                    InsertState::Compare { .. } => t[s] == (1i64, a[s].1) && a[s].0 == 2,
                    InsertState::Release { .. } => t[s] == (1i64, a[s].1) && a[s].0 == 2 && a[s].1.key != key,
                    InsertState::Write { .. } => t[s] == (1i64, a[s].1)
                        && (a[s].0 == 0 || (a[s].0 == 2 && a[s].1.key == key)),
                    InsertState::Publish { .. } => t[s] == (1i64, HashEntry { key, value })
                        && (a[s].0 == 0 || (a[s].0 == 2 && a[s].1.key == key)),
                    InsertState::Done(_) => true,
                }
            },
        }
    }

    /// What holds in every state of a round of concurrent inserts of the
    /// pairs `ops` from table `t0`: with `a` the table the finished inserts
    /// build in the order they finished, each finished insert returned what
    /// its sequential insert returns at its place in that order; every other
    /// insert stands where `mixed_pe_ok` says; a slot is reserved exactly when
    /// one insert holds it; and every slot no insert holds is as in `a`.
    pub open spec fn mixed_inv(&self, t0: Seq<Slot<K, V>>, sys: MixedRound<K, V>, h: spec_fn(K) -> nat, ops: Seq<(K, V)>) -> bool {
        let g = self.global_size as int;
        let t = sys.0;
        let sts = sys.1;
        let log = sys.2;
        let n = ops.len();
        let a = lin_table(t0, h, ops, log);
        &&& g > 0 && t0.len() == g && t.len() == g && sts.len() == n && a.len() == g
        &&& table_ok(a)
        &&& forall|m: int| 0 <= m < log.len() ==> {
            &&& 0 <= #[trigger] log[m] < n
            &&& sts[log[m]] == InsertState::Done(lin_result(t0, h, ops, log, m))
        }
        &&& forall|m1: int, m2: int| 0 <= m1 < m2 < log.len() ==> #[trigger] log[m1] != #[trigger] log[m2]
        &&& forall|i: int| 0 <= i < n && (#[trigger] sts[i]) is Done ==> exists|m: int| 0 <= m < log.len() && #[trigger] log[m] == i
        &&& forall|i: int| 0 <= i < n ==> #[trigger] self.mixed_pe_ok(a, t, h, ops, sts, i)
        &&& forall|i: int, j: int| 0 <= i < n && 0 <= j < n && holds_slot(#[trigger] sts[i]) && holds_slot(#[trigger] sts[j])
            && pe_slot(h, ops, sts, i, g) == pe_slot(h, ops, sts, j, g) ==> i == j
        &&& forall|s: int| 0 <= s < g && (#[trigger] t[s]).0 == 1 ==>
            exists|i: int| 0 <= i < n && holds_slot(#[trigger] sts[i]) && pe_slot(h, ops, sts, i, g) == s
        &&& forall|s: int| 0 <= s < g && (#[trigger] t[s]).0 != 1 ==> t[s] == a[s]
    }
}


impl<K: HashKey + Default, V: Bclable + Default> HashTable<K, V> {
    proof fn lemma_mixed_start(&self, t: Seq<Slot<K, V>>, h: spec_fn(K) -> nat, ops: Seq<(K, V)>)
        requires
            t.len() == self.global_size,
            table_ok(t),
        ensures
            self.mixed_inv(t, mixed_start(t, ops.len()), h, ops),
    {
        let sys = mixed_start(t, ops.len());
        assert(lin_ops(ops, sys.2) =~= Seq::<(K, V)>::empty());
        assert(lin_table(t, h, ops, sys.2) == t);
        assert forall|i: int| 0 <= i < ops.len() implies #[trigger] self.mixed_pe_ok(t, t, h, ops, sys.1, i) by {
            assert(sys.1[i] == InsertState::Reserve { probe: 0, current: 0 });
        }
    }

    /// A step of PE `p` that finishes no insert and changes at most the slot
    /// `p` was at, to `y`: what the invariant says of the others carries over.
    #[verifier::spinoff_prover]
    #[verifier::rlimit(60)]
    proof fn lemma_mixed_frame(&self, t0: Seq<Slot<K, V>>, sys: MixedRound<K, V>, sys2: MixedRound<K, V>,
        h: spec_fn(K) -> nat, ops: Seq<(K, V)>, p: int, y: Slot<K, V>)
        requires
            self.mixed_inv(t0, sys, h, ops),
            0 <= p < ops.len(),
            !(sys.1[p] is Done),
            !(sys2.1[p] is Done),
            sys2.2 == sys.2,
            sys2.1 == sys.1.update(p, sys2.1[p]),
            sys2.0 == sys.0.update(pe_slot(h, ops, sys.1, p, self.global_size as int), y),
            holds_slot(sys2.1[p]) ==> pe_slot(h, ops, sys2.1, p, self.global_size as int) == pe_slot(h, ops, sys.1, p, self.global_size as int),
            holds_slot(sys2.1[p]) && !holds_slot(sys.1[p]) ==> sys.0[pe_slot(h, ops, sys.1, p, self.global_size as int)].0 != 1,
            !holds_slot(sys2.1[p]) && holds_slot(sys.1[p]) ==>
                y == lin_table(t0, h, ops, sys.2)[pe_slot(h, ops, sys.1, p, self.global_size as int)],
            !holds_slot(sys2.1[p]) && !holds_slot(sys.1[p]) ==> y == sys.0[pe_slot(h, ops, sys.1, p, self.global_size as int)],
            self.mixed_pe_ok(lin_table(t0, h, ops, sys.2), sys2.0, h, ops, sys2.1, p),
        ensures
            self.mixed_inv(t0, sys2, h, ops),
    {
        let g = self.global_size as int;
        let n = ops.len();
        let t = sys.0;
        let sts = sys.1;
        let log = sys.2;
        let t2 = sys2.0;
        let sts2 = sys2.1;
        let a = lin_table(t0, h, ops, log);
        let sp = pe_slot(h, ops, sts, p, g);
        assert(self.mixed_pe_ok(a, t, h, ops, sts, p));
        lemma_probes_apart(h(ops[p].0) as int, g);
        assert(0 <= sp < g);
        // a slot held by another is unchanged; when p holds a slot, no other does
        assert forall|j: int| 0 <= j < n && j != p && holds_slot(#[trigger] sts[j]) implies
            t2[pe_slot(h, ops, sts, j, g)] == t[pe_slot(h, ops, sts, j, g)]
            && (holds_slot(sts[p]) || holds_slot(sts2[p]) ==> pe_slot(h, ops, sts, j, g) != sp) by {
            let sj = pe_slot(h, ops, sts, j, g);
            assert(self.mixed_pe_ok(a, t, h, ops, sts, j));
            lemma_probes_apart(h(ops[j].0) as int, g);
            assert(0 <= sj < g);
            if sj == sp {
                assert(t[sj].0 == 1);
                if !holds_slot(sts[p]) && !holds_slot(sts2[p]) {
                    assert(t2[sj] == y);
                }
            }
        }
        assert forall|m: int| 0 <= m < log.len() implies {
            &&& 0 <= #[trigger] log[m] < n
            &&& sts2[log[m]] == InsertState::Done(lin_result(t0, h, ops, log, m))
        } by {
            assert(sts[log[m]] is Done);
            assert(log[m] != p);
        }
        assert forall|i: int| 0 <= i < n && (#[trigger] sts2[i]) is Done implies exists|m: int| 0 <= m < log.len() && #[trigger] log[m] == i by {
            assert(i != p);
            assert(sts2[i] == sts[i]);
        }
        assert forall|i: int| 0 <= i < n implies #[trigger] self.mixed_pe_ok(a, t2, h, ops, sts2, i) by {
            if i != p {
                assert(sts2[i] == sts[i]);
                assert(self.mixed_pe_ok(a, t, h, ops, sts, i));
                if holds_slot(sts[i]) {
                    let si = pe_slot(h, ops, sts, i, g);
                    assert(t2[si] == t[si]);
                }
            }
        }
        assert forall|i: int, j: int| 0 <= i < n && 0 <= j < n && holds_slot(#[trigger] sts2[i]) && holds_slot(#[trigger] sts2[j])
            && pe_slot(h, ops, sts2, i, g) == pe_slot(h, ops, sts2, j, g) implies i == j by {
            if i != p {
                assert(sts2[i] == sts[i]);
            }
            if j != p {
                assert(sts2[j] == sts[j]);
            }
        }
        assert forall|s: int| 0 <= s < g && (#[trigger] t2[s]).0 == 1 implies
            exists|i: int| 0 <= i < n && holds_slot(#[trigger] sts2[i]) && pe_slot(h, ops, sts2, i, g) == s by {
            if s == sp && holds_slot(sts2[p]) {
                assert(holds_slot(sts2[p]) && pe_slot(h, ops, sts2, p, g) == s);
            } else {
                if s == sp {
                    if holds_slot(sts[p]) {
                        assert(a[sp].0 == 0 || a[sp].0 == 2);
                    }
                    assert(t[s].0 == 1);
                } else {
                    assert(t2[s] == t[s]);
                }
                let j = choose|j: int| 0 <= j < n && holds_slot(#[trigger] sts[j]) && pe_slot(h, ops, sts, j, g) == s;
                if j == p {
                    assert(s == sp);
                    assert(false);
                }
                assert(sts2[j] == sts[j]);
                assert(holds_slot(sts2[j]) && pe_slot(h, ops, sts2, j, g) == s);
            }
        }
        assert forall|s: int| 0 <= s < g && (#[trigger] t2[s]).0 != 1 implies t2[s] == a[s] by {
            if s == sp {
                if holds_slot(sts2[p]) {
                    assert(self.mixed_pe_ok(a, t2, h, ops, sts2, p));
                    assert(t2[sp].0 == 1);
                } else if !holds_slot(sts[p]) {
                    assert(t[sp] == y);
                }
            } else {
                assert(t2[s] == t[s]);
            }
        }
    }
}


impl<K: HashKey + Default, V: Bclable + Default> HashTable<K, V> {
    /// A step of PE `p` that finishes nothing: reserving, comparing,
    /// releasing a slot before the last probe, or writing.
    #[verifier::spinoff_prover]
    #[verifier::rlimit(60)]
    proof fn lemma_mixed_inner(&self, t0: Seq<Slot<K, V>>, sys: MixedRound<K, V>, h: spec_fn(K) -> nat, ops: Seq<(K, V)>, p: int)
        requires
            self.mixed_inv(t0, sys, h, ops),
            0 <= p < ops.len(),
            !(sys.1[p] is Done),
            !(sys.1[p] is Publish),
            sys.1[p] is Release ==> insert_probe(sys.1[p]) + 1 < self.global_size,
        ensures
            self.mixed_inv(t0, self.mixed_step(sys, h, ops, p), h, ops),
    {
        let g = self.global_size as int;
        let t = sys.0;
        let sts = sys.1;
        let a = lin_table(t0, h, ops, sys.2);
        let k = ops[p].0;
        let v = ops[p].1;
        let hk = h(k) as int;
        let st = sts[p];
        assert(self.mixed_pe_ok(a, t, h, ops, sts, p));
        let pr = insert_probe(st);
        let sp = probe_slot(hk, pr, g);
        lemma_probes_apart(hk, g);
        assert(0 <= sp < g);
        assert(self.insert_slot(hk, st) == sp);
        assert(pe_slot(h, ops, sts, p, g) == sp);
        let sys2 = self.mixed_step(sys, h, ops, p);
        let t2 = sys2.0;
        let sts2 = sys2.1;
        let x = t[sp];
        match st {
            InsertState::Reserve { probe, current } => {
                if x.0 == current {
                    assert(x == a[sp]);
                    let y = (1i64, x.1);
                    assert(t2 == t.update(sp, y));
                    if current == 0 {
                        assert(sts2[p] == InsertState::Write { probe });
                    } else {
                        assert(sts2[p] == InsertState::Compare { probe });
                    }
                    assert(pe_slot(h, ops, sts2, p, g) == sp);
                    assert(self.mixed_pe_ok(a, t2, h, ops, sts2, p));
                    self.lemma_mixed_frame(t0, sys, sys2, h, ops, p, y);
                } else {
                    assert(t2 == t);
                    assert(t == t.update(sp, x));
                    assert(sts2[p] == InsertState::Reserve { probe, current: 2 });
                    assert(self.mixed_pe_ok(a, t2, h, ops, sts2, p));
                    self.lemma_mixed_frame(t0, sys, sys2, h, ops, p, x);
                }
            },
            InsertState::Compare { probe } => {
                assert(t2 == t);
                assert(t == t.update(sp, x));
                if a[sp].1.key == k {
                    assert(sts2[p] == InsertState::Write { probe });
                } else {
                    assert(sts2[p] == InsertState::Release { probe });
                }
                assert(pe_slot(h, ops, sts2, p, g) == sp);
                assert(self.mixed_pe_ok(a, t2, h, ops, sts2, p));
                self.lemma_mixed_frame(t0, sys, sys2, h, ops, p, x);
            },
            InsertState::Release { probe } => {
                let y = (2i64, x.1);
                assert(y == a[sp]);
                assert(t2 == t.update(sp, y));
                assert(sts2[p] == InsertState::Reserve { probe: (probe + 1) as u64, current: 0 });
                assert(insert_probe(sts2[p]) == pr + 1);
                assert(passed(a, hk, k, pr + 1)) by {
                    assert forall|r: int| 0 <= r < pr + 1 implies (#[trigger] slot_at(a, hk, r)).0 == 2
                        && slot_at(a, hk, r).1.key != k by {
                        if r == pr {
                            assert(slot_at(a, hk, r) == a[sp]);
                        }
                    }
                }
                assert(self.mixed_pe_ok(a, t2, h, ops, sts2, p));
                self.lemma_mixed_frame(t0, sys, sys2, h, ops, p, y);
            },
            InsertState::Write { probe } => {
                let y = (1i64, HashEntry { key: k, value: v });
                assert(t2 == t.update(sp, y));
                assert(sts2[p] == InsertState::Publish { probe });
                assert(pe_slot(h, ops, sts2, p, g) == sp);
                assert(self.mixed_pe_ok(a, t2, h, ops, sts2, p));
                self.lemma_mixed_frame(t0, sys, sys2, h, ops, p, y);
            },
            _ => {},
        }
    }
}


impl<K: HashKey + Default, V: Bclable + Default> HashTable<K, V> {
    /// The step that finishes the insert of PE `p`: publishing its entry, or
    /// releasing its last probe. It is where the insert takes effect: the
    /// table of the finished inserts becomes that of one more sequential
    /// insert, which returns what the PE returns.
    #[verifier::spinoff_prover]
    #[verifier::rlimit(80)]
    proof fn lemma_mixed_finish(&self, t0: Seq<Slot<K, V>>, sys: MixedRound<K, V>, h: spec_fn(K) -> nat, ops: Seq<(K, V)>, p: int)
        requires
            self.mixed_inv(t0, sys, h, ops),
            0 <= p < ops.len(),
            sys.1[p] is Publish || (sys.1[p] is Release && insert_probe(sys.1[p]) + 1 >= self.global_size),
        ensures
            self.mixed_inv(t0, self.mixed_step(sys, h, ops, p), h, ops),
    {
        let g = self.global_size as int;
        let n = ops.len();
        let t = sys.0;
        let sts = sys.1;
        let log = sys.2;
        let a = lin_table(t0, h, ops, log);
        let k = ops[p].0;
        let v = ops[p].1;
        let hk = h(k) as int;
        let st = sts[p];
        assert(self.mixed_pe_ok(a, t, h, ops, sts, p));
        let pr = insert_probe(st);
        let sp = probe_slot(hk, pr, g);
        lemma_probes_apart(hk, g);
        assert(0 <= sp < g);
        assert(self.insert_slot(hk, st) == sp);
        assert(pe_slot(h, ops, sts, p, g) == sp);
        let sys2 = self.mixed_step(sys, h, ops, p);
        let t2 = sys2.0;
        let sts2 = sys2.1;
        let log2 = sys2.2;
        let publish = st is Publish;
        // p had not finished, so it is not in the order yet
        assert forall|m: int| 0 <= m < log.len() implies #[trigger] log[m] != p by {
            assert(sts[log[m]] is Done);
        }
        assert(log2 == log.push(p));
        // the sequential insert at this place
        assert(lin_ops(ops, log2).drop_last() =~= lin_ops(ops, log));
        assert(lin_ops(ops, log2).last() == ops[p]);
        assert(log2.take(log.len() as int) =~= log);
        let seq = insert_from(a, hk, k, v, 0);
        let a2 = lin_table(t0, h, ops, log2);
        assert(a2 == seq.1);
        assert(lin_result(t0, h, ops, log2, log.len() as int) == seq.0);
        lemma_first_slot(a, hk, k, v, 0);
        lemma_insert_keeps_ok(a, hk, k, v);
        let f = first_slot(a, hk, k, 0);
        if publish {
            if f < pr {
                assert(slot_at(a, hk, f).0 == 2 && slot_at(a, hk, f).1.key != k);
            }
            if f > pr {
                assert(slot_at(a, hk, pr) == a[sp]);
            }
            assert(f == pr);
            assert(seq == (true, a.update(sp, (2i64, HashEntry { key: k, value: v }))));
            assert(sts2[p] == InsertState::Done(true));
            assert(t2 == t.update(sp, (2i64, HashEntry { key: k, value: v })));
        } else {
            if f < g {
                if f < pr {
                    assert(slot_at(a, hk, f).0 == 2 && slot_at(a, hk, f).1.key != k);
                } else {
                    assert(f == pr);
                    assert(slot_at(a, hk, pr) == a[sp]);
                }
            }
            assert(f == g);
            assert(seq == (false, a));
            assert(sts2[p] == InsertState::Done(false));
            assert(t2 == t.update(sp, a[sp]));
        }
        assert(a2 == a.update(sp, t2[sp]));
        // the others keep their places
        assert forall|m: int| 0 <= m < log2.len() implies {
            &&& 0 <= #[trigger] log2[m] < n
            &&& sts2[log2[m]] == InsertState::Done(lin_result(t0, h, ops, log2, m))
        } by {
            if m < log.len() {
                assert(log2[m] == log[m]);
                assert(log2.take(m) =~= log.take(m));
                assert(sts2[log[m]] == sts[log[m]]);
            }
        }
        assert forall|m1: int, m2: int| 0 <= m1 < m2 < log2.len() implies #[trigger] log2[m1] != #[trigger] log2[m2] by {
            if m2 < log.len() {
                assert(log2[m1] == log[m1] && log2[m2] == log[m2]);
            } else {
                assert(log2[m1] == log[m1]);
            }
        }
        assert forall|i: int| 0 <= i < n && (#[trigger] sts2[i]) is Done implies exists|m: int| 0 <= m < log2.len() && #[trigger] log2[m] == i by {
            if i == p {
                assert(log2[log.len() as int] == p);
            } else {
                assert(sts2[i] == sts[i]);
                let m = choose|m: int| 0 <= m < log.len() && #[trigger] log[m] == i;
                assert(log2[m] == i);
            }
        }
        assert forall|j: int| 0 <= j < n && j != p && holds_slot(#[trigger] sts[j]) implies pe_slot(h, ops, sts, j, g) != sp by {
            if pe_slot(h, ops, sts, j, g) == sp {
                assert(holds_slot(sts[p]));
            }
        }
        assert forall|i: int| 0 <= i < n implies #[trigger] self.mixed_pe_ok(a2, t2, h, ops, sts2, i) by {
            if i != p {
                assert(sts2[i] == sts[i]);
                assert(self.mixed_pe_ok(a, t, h, ops, sts, i));
                let ki = ops[i].0;
                let hki = h(ki) as int;
                lemma_probes_apart(hki, g);
                if !(sts[i] is Done) {
                    let pri = insert_probe(sts[i]);
                    assert forall|r: int| 0 <= r < pri implies (#[trigger] slot_at(a2, hki, r)).0 == 2
                        && slot_at(a2, hki, r).1.key != ki by {
                        assert(slot_at(a, hki, r).0 == 2 && slot_at(a, hki, r).1.key != ki);
                        assert(0 <= probe_slot(hki, r, g) < g);
                        if probe_slot(hki, r, g) == sp && publish {
                            assert(a[sp].1.key == k);
                        }
                    }
                    if holds_slot(sts[i]) {
                        let si = pe_slot(h, ops, sts, i, g);
                        assert(si != sp);
                        assert(t2[si] == t[si]);
                        assert(a2[si] == a[si]);
                    }
                }
            }
        }
        assert forall|i: int, j: int| 0 <= i < n && 0 <= j < n && holds_slot(#[trigger] sts2[i]) && holds_slot(#[trigger] sts2[j])
            && pe_slot(h, ops, sts2, i, g) == pe_slot(h, ops, sts2, j, g) implies i == j by {
            assert(i != p && j != p);
            assert(sts2[i] == sts[i] && sts2[j] == sts[j]);
        }
        assert forall|s: int| 0 <= s < g && (#[trigger] t2[s]).0 == 1 implies
            exists|i: int| 0 <= i < n && holds_slot(#[trigger] sts2[i]) && pe_slot(h, ops, sts2, i, g) == s by {
            assert(s != sp);
            assert(t2[s] == t[s]);
            let j = choose|j: int| 0 <= j < n && holds_slot(#[trigger] sts[j]) && pe_slot(h, ops, sts, j, g) == s;
            assert(j != p);
            assert(sts2[j] == sts[j]);
            assert(holds_slot(sts2[j]) && pe_slot(h, ops, sts2, j, g) == s);
        }
        assert forall|s: int| 0 <= s < g && (#[trigger] t2[s]).0 != 1 implies t2[s] == a2[s] by {
            if s != sp {
                assert(t2[s] == t[s]);
                assert(a2[s] == a[s]);
            }
        }
    }

    proof fn lemma_mixed_step(&self, t0: Seq<Slot<K, V>>, sys: MixedRound<K, V>, h: spec_fn(K) -> nat, ops: Seq<(K, V)>, p: int)
        requires
            self.mixed_inv(t0, sys, h, ops),
            0 <= p < ops.len(),
        ensures
            self.mixed_inv(t0, self.mixed_step(sys, h, ops, p), h, ops),
    {
        let st = sys.1[p];
        if st is Done {
            let sys2 = self.mixed_step(sys, h, ops, p);
            assert(sys2.1 =~= sys.1);
            assert(sys2 == sys);
        } else if st is Publish || (st is Release && insert_probe(st) + 1 >= self.global_size) {
            self.lemma_mixed_finish(t0, sys, h, ops, p);
        } else {
            self.lemma_mixed_inner(t0, sys, h, ops, p);
        }
    }

    proof fn lemma_mixed_run(&self, t0: Seq<Slot<K, V>>, sys: MixedRound<K, V>, h: spec_fn(K) -> nat, ops: Seq<(K, V)>, sched: Seq<int>)
        requires
            self.mixed_inv(t0, sys, h, ops),
            forall|i: int| 0 <= i < sched.len() ==> 0 <= #[trigger] sched[i] < ops.len(),
        ensures
            self.mixed_inv(t0, self.mixed_run(sys, h, ops, sched), h, ops),
        decreases sched.len(),
    {
        if sched.len() > 0 {
            self.lemma_mixed_step(t0, sys, h, ops, sched[0]);
            assert forall|i: int| 0 <= i < sched.drop_first().len() implies 0 <= #[trigger] sched.drop_first()[i] < ops.len() by {
                assert(sched.drop_first()[i] == sched[i + 1]);
            }
            self.lemma_mixed_run(t0, self.mixed_step(sys, h, ops, sched[0]), h, ops, sched.drop_first());
        }
    }
}


impl<K: HashKey + Default, V: Bclable + Default> HashTable<K, V> {
    /// Inserts are atomic, also when they run at once. PE `i` inserts the
    /// pair `ops[i]`, its key hashed by `h`, into a shared table `t` in which
    /// no operation is half done, each by the insert protocol; their remote
    /// operations interleave in any order `sched`. Take the inserts in the
    /// order they finished (`log`). Then, in every state: each insert is in a
    /// state `insert_action` accepts; each finished insert returned what the
    /// sequential insert `insert_from` returns at its place in that order,
    /// after the sequential inserts of those that finished before it; and
    /// once every insert has finished, the table is the one that those
    /// sequential inserts, in that order, build (`insert_all`).
    pub proof fn lemma_concurrent_inserts(&self, t: Seq<Slot<K, V>>, h: spec_fn(K) -> nat, ops: Seq<(K, V)>, sched: Seq<int>)
        requires
            self.wf(),
            t.len() == self.global_size,
            table_ok(t),
            forall|i: int| 0 <= i < sched.len() ==> 0 <= #[trigger] sched[i] < ops.len(),
        ensures
            ({
                let sys = self.mixed_run(mixed_start(t, ops.len()), h, ops, sched);
                let t2 = sys.0;
                let sts = sys.1;
                let log = sys.2;
                &&& sts.len() == ops.len()
                &&& forall|i: int| 0 <= i < ops.len() ==> self.insert_state_ok(#[trigger] sts[i])
                &&& forall|m: int| 0 <= m < log.len() ==> 0 <= #[trigger] log[m] < ops.len()
                &&& forall|m1: int, m2: int| 0 <= m1 < m2 < log.len() ==> #[trigger] log[m1] != #[trigger] log[m2]
                &&& forall|i: int| 0 <= i < ops.len() && (#[trigger] sts[i]) is Done ==>
                    exists|m: int| 0 <= m < log.len() && #[trigger] log[m] == i
                &&& forall|m: int| 0 <= m < log.len() ==>
                    sts[#[trigger] log[m]] == InsertState::Done(lin_result(t, h, ops, log, m))
                &&& (forall|i: int| 0 <= i < ops.len() ==> (#[trigger] sts[i]) is Done) ==> t2 == lin_table(t, h, ops, log)
            }),
    {
        let g = self.global_size as int;
        self.lemma_mixed_start(t, h, ops);
        self.lemma_mixed_run(t, mixed_start(t, ops.len()), h, ops, sched);
        let sys = self.mixed_run(mixed_start(t, ops.len()), h, ops, sched);
        let t2 = sys.0;
        let sts = sys.1;
        let log = sys.2;
        let a = lin_table(t, h, ops, log);
        assert forall|i: int| 0 <= i < ops.len() implies self.insert_state_ok(#[trigger] sts[i]) by {
            assert(self.mixed_pe_ok(a, t2, h, ops, sts, i));
        }
        if forall|i: int| 0 <= i < ops.len() ==> (#[trigger] sts[i]) is Done {
            assert forall|s: int| 0 <= s < g implies t2[s] == a[s] by {
                if t2[s].0 == 1 {
                    let j = choose|j: int| 0 <= j < ops.len() && holds_slot(#[trigger] sts[j]) && pe_slot(h, ops, sts, j, g) == s;
                    assert(sts[j] is Done);
                }
            }
            assert(t2 =~= a);
        }
    }
}


impl<K: HashKey + Default, V: Bclable + Default> HashTable<K, V> {
    /// What a remote operation of an insert does to slot `s` of table `t`,
    /// read as a table of slots: a compare-and-swap of the slot's status
    /// word, a read of its entry, or a write of its entry; with what it
    /// answers and the table after it. `None` for an operation that is not
    /// on slot `s`.
    pub open spec fn insert_effect(&self, t: Seq<Slot<K, V>>, s: int, a: InsertAction<K, V>)
        -> Option<(InsertEvent<K, V>, Seq<Slot<K, V>>)>
    {
        match a {
            InsertAction::Swap { ptr, cond, value } => if ptr == self.used_at(s) {
                Some((InsertEvent::Value(t[s].0), if t[s].0 == cond { t.update(s, (value, t[s].1)) } else { t }))
            } else {
                None
            },
            InsertAction::Get(p) => if p == self.entry_at(s) {
                Some((InsertEvent::Entry(t[s].1), t))
            } else {
                None
            },
            InsertAction::Put(p, e) => if p == self.entry_at(s) {
                Some((InsertEvent::Written, t.update(s, (t[s].0, e))))
            } else {
                None
            },
            InsertAction::Finish(_) => None,
        }
    }

    /// What a remote operation of a find answers on slot `s` of table `t`:
    /// the slot's status word, or its entry. `None` for an operation that is
    /// not on slot `s`.
    pub open spec fn find_effect(&self, t: Seq<Slot<K, V>>, s: int, a: FindAction<K, V>) -> Option<InsertEvent<K, V>> {
        match a {
            FindAction::Fetch(p) => if p == self.used_at(s) { Some(InsertEvent::Value(t[s].0)) } else { None },
            FindAction::Get(p) => if p == self.entry_at(s) { Some(InsertEvent::Entry(t[s].1)) } else { None },
            FindAction::Finish(_) => None,
        }
    }

    /// The remote operations of an insert are the steps of the table model:
    /// the operation asked for in each state, performed on the slot of the
    /// state's probe, answers and changes the table exactly as `insert_apply`
    /// says. So a reserve swaps the status from `current` to reserved, a
    /// compare reads the entry, a write puts `(key, value)` into the entry and
    /// leaves the slot reserved, and a release or a publish swaps the status
    /// from reserved to ready. A finished insert asks for no operation: it
    /// returns its result.
    pub proof fn lemma_insert_actions(&self, t: Seq<Slot<K, V>>, hash: int, key: K, value: V, st: InsertState)
        ensures
            st matches InsertState::Done(b) ==> self.insert_action_spec(hash, key, value, st) == InsertAction::<K, V>::Finish(b),
            !(st is Done) ==> self.insert_effect(t, self.insert_slot(hash, st), self.insert_action_spec(hash, key, value, st))
                == Some(self.insert_apply(t, hash, key, value, st)),
    {
    }

    /// The remote operations of a find are the reads of the table model: in
    /// each state, the operation asked for, on the slot of the state's probe,
    /// answers what `find_apply` says; a finished find returns its result.
    pub proof fn lemma_find_actions(&self, t: Seq<Slot<K, V>>, hash: int, st: FindState<V>)
        ensures
            st matches FindState::Done(o) ==> self.find_action_spec(hash, st) == FindAction::<K, V>::Finish(o),
            !(st is Done) ==> self.find_effect(t, probe_slot(hash, find_probe(st), self.global_size as int), self.find_action_spec(hash, st))
                == Some(self.find_apply(t, hash, st)),
    {
    }
}

} // verus!
