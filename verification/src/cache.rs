//! Fingerprints and the bounded least-recently-used store for prepared
//! planar geometry shared between preview and export.
use vstd::prelude::*;
use std::collections::VecDeque;

verus! {

/// FNV-1a 64-bit offset basis.
pub const FNV_OFFSET: u64 = 0xcbf2_9ce4_8422_2325;

/// FNV-1a 64-bit prime.
pub const FNV_PRIME: u64 = 0x0000_0100_0000_01b3;

/// One FNV-1a step: fold a byte into the state.
pub open spec fn fnv_step(state: u64, byte: u8) -> u64 {
    (state ^ (byte as u64)).wrapping_mul(FNV_PRIME)
}

/// The state after folding `bytes` into `state`, first byte first.
pub open spec fn fnv_fold(state: u64, bytes: Seq<u8>) -> u64
    decreases bytes.len(),
{
    if bytes.len() == 0 {
        state
    } else {
        fnv_step(fnv_fold(state, bytes.drop_last()), bytes.last())
    }
}

/// Little-endian bytes of a 32-bit value.
pub open spec fn le_bytes_u32(value: u32) -> Seq<u8> {
    Seq::new(4, |i: int| ((value as int / pow256(i)) % 256) as u8)
}

/// Little-endian bytes of a 64-bit value.
pub open spec fn le_bytes_u64(value: u64) -> Seq<u8> {
    Seq::new(8, |i: int| ((value as int / pow256(i)) % 256) as u8)
}

/// 256 to the power `i`.
pub open spec fn pow256(i: int) -> int
    decreases i,
{
    if i <= 0 {
        1
    } else {
        256 * pow256(i - 1)
    }
}

/// Folds `bytes` into the running FNV-1a state.
pub fn hash_bytes(state: &mut u64, bytes: &[u8])
    ensures
        *final(state) == fnv_fold(*old(state), bytes@),
{
    let ghost start = *state;
    let mut i: usize = 0;
    while i < bytes.len()
        invariant
            i <= bytes@.len(),
            *state == fnv_fold(start, bytes@.subrange(0, i as int)),
        decreases bytes@.len() - i,
    {
        let byte = bytes[i];
        *state = (*state ^ (byte as u64)).wrapping_mul(FNV_PRIME);
        proof {
            let next = bytes@.subrange(0, i + 1);
            assert(next.drop_last() =~= bytes@.subrange(0, i as int));
            assert(next.last() == byte);
        }
        i = i + 1;
    }
    assert(bytes@.subrange(0, i as int) =~= bytes@);
}

/// The little-endian bytes of `value`.
fn u32_le_bytes(value: u32) -> (bytes: [u8; 4])
    ensures
        bytes@ == le_bytes_u32(value),
{
    let mut out = [0u8; 4];
    let mut rest = value;
    let mut i: usize = 0;
    while i < 4
        invariant
            i <= 4,
            rest as int == value as int / pow256(i as int),
            forall|j: int| 0 <= j < i ==> #[trigger] out@[j] == le_bytes_u32(value)[j],
            out@.len() == 4,
        decreases 4 - i,
    {
        out[i] = (rest % 256) as u8;
        proof {
            lemma_div_step(value as int, i as int);
        }
        rest = rest / 256;
        i = i + 1;
    }
    assert(out@ =~= le_bytes_u32(value));
    out
}

/// The little-endian bytes of `value`.
fn u64_le_bytes(value: u64) -> (bytes: [u8; 8])
    ensures
        bytes@ == le_bytes_u64(value),
{
    let mut out = [0u8; 8];
    let mut rest = value;
    let mut i: usize = 0;
    while i < 8
        invariant
            i <= 8,
            rest as int == value as int / pow256(i as int),
            forall|j: int| 0 <= j < i ==> #[trigger] out@[j] == le_bytes_u64(value)[j],
            out@.len() == 8,
        decreases 8 - i,
    {
        out[i] = (rest % 256) as u8;
        proof {
            lemma_div_step(value as int, i as int);
        }
        rest = rest / 256;
        i = i + 1;
    }
    assert(out@ =~= le_bytes_u64(value));
    out
}

/// Dividing by 256 once more moves on to the next byte position.
proof fn lemma_div_step(v: int, i: int)
    requires
        v >= 0,
        i >= 0,
    ensures
        pow256(i) > 0,
        v / pow256(i) / 256 == v / pow256(i + 1),
{
    lemma_pow256_positive(i);
    assert(pow256(i + 1) == 256 * pow256(i));
    vstd::arithmetic::div_mod::lemma_div_denominator(v, pow256(i), 256);
    assert(pow256(i) * 256 == 256 * pow256(i)) by (nonlinear_arith);
}

/// Every power of 256 is positive.
proof fn lemma_pow256_positive(i: int)
    ensures
        pow256(i) > 0,
    decreases i,
{
    if i > 0 {
        lemma_pow256_positive(i - 1);
    }
}

/// Folds the little-endian bytes of a 32-bit value into the state.
pub fn hash_u32(state: &mut u64, value: u32)
    ensures
        *final(state) == fnv_fold(*old(state), le_bytes_u32(value)),
{
    let bytes = u32_le_bytes(value);
    hash_bytes(state, &bytes);
}

/// Folds the little-endian bytes of a 64-bit value into the state.
pub fn hash_u64(state: &mut u64, value: u64)
    ensures
        *final(state) == fnv_fold(*old(state), le_bytes_u64(value)),
{
    let bytes = u64_le_bytes(value);
    hash_bytes(state, &bytes);
}

// ---------------------------------------------------------------------------
// The prepared-geometry store.

/// Largest total of entry sizes the store keeps.
pub const MAX_CACHE_BYTES: usize = 268_435_456;
/// Use records allowed per live entry before the record list is compacted.
pub const ORDER_COMPACTION_MULTIPLIER: usize = 4;
/// Use records allowed on top of the per-entry allowance.
pub const ORDER_COMPACTION_SLACK: usize = 64;

/// Identifies one piece frame over one set of vector data.
#[derive(Debug, Clone, Copy, PartialEq, Eq, Hash, Structural)]
pub struct PieceCacheKey {
    pub surface: u64,
    pub piece: u64,
}

/// What kind of prepared geometry an entry holds, and for which frame.
#[derive(Debug, Clone, Copy, PartialEq, Eq, Hash, Structural)]
pub enum CacheKey {
    /// Building clips, with the bit pattern of the minimum span setting.
    Buildings(PieceCacheKey, u32),
    /// Road ribbon clips.
    Ribbons(PieceCacheKey),
}

/// One stored value, its size, and the clock reading of its latest use.
pub struct CacheEntry<V> {
    pub key: CacheKey,
    pub value: V,
    pub bytes: usize,
    pub touched: u64,
}

/// A least-recently-used store bounded by the total size of its entries.
/// Every use appends a record to `order`; records whose stamp no longer
/// matches their entry are stale and skipped.
pub struct PreparedGeometryCache<V> {
    entries: Vec<CacheEntry<V>>,
    order: VecDeque<(u64, CacheKey)>,
    bytes: usize,
    clock: u64,
}

/// Total size of the entries.
pub open spec fn sum_bytes<V>(e: Seq<CacheEntry<V>>) -> nat
    decreases e.len(),
{
    if e.len() == 0 {
        0
    } else {
        sum_bytes(e.drop_last()) + e.last().bytes as nat
    }
}

/// No two entries share a key.
pub open spec fn keys_distinct<V>(e: Seq<CacheEntry<V>>) -> bool {
    forall|i: int, j: int| 0 <= i < j < e.len() ==> #[trigger] e[i].key != #[trigger] e[j].key
}

/// Some entry has key `k`.
pub open spec fn has_key<V>(e: Seq<CacheEntry<V>>, k: CacheKey) -> bool {
    exists|i: int| 0 <= i < e.len() && #[trigger] e[i].key == k
}

/// The record of an entry's latest use.
pub open spec fn record_of<V>(entry: CacheEntry<V>) -> (u64, CacheKey) {
    (entry.touched, entry.key)
}

/// Record `r` is the latest use of a stored entry.
pub open spec fn live<V>(e: Seq<CacheEntry<V>>, r: (u64, CacheKey)) -> bool {
    exists|i: int| 0 <= i < e.len() && #[trigger] record_of(e[i]) == r
}

impl<V> PreparedGeometryCache<V> {
    /// The stored entries, in the order they sit in the table.
    pub closed spec fn entry_seq(&self) -> Seq<CacheEntry<V>> {
        self.entries@
    }

    /// The recency log: one `(stamp, key)` record per touch, oldest first.
    pub closed spec fn order_seq(&self) -> Seq<(u64, CacheKey)> {
        self.order@
    }

    /// The byte count the cache keeps for its stored entries.
    pub closed spec fn total_bytes(&self) -> nat {
        self.bytes as nat
    }

    /// The logical clock that stamps each touch.
    pub closed spec fn clock_reading(&self) -> u64 {
        self.clock
    }

    /// The store's invariant: distinct keys, an exact and bounded byte
    /// total, use records in increasing stamp order, none from the future,
    /// and each entry's latest use recorded.
    pub closed spec fn wf(&self) -> bool {
        &&& self.consistent()
        &&& self.bytes <= MAX_CACHE_BYTES
    }

    /// Everything of `wf` but the byte bound.
    pub closed spec fn consistent(&self) -> bool {
        let e = self.entries@;
        let o = self.order@;
        &&& keys_distinct(e)
        &&& self.bytes == sum_bytes(e)
        &&& forall|i: int, j: int| 0 <= i < j < o.len() ==> (#[trigger] o[i]).0 < (#[trigger] o[j]).0
        &&& forall|i: int| 0 <= i < o.len() ==> (#[trigger] o[i]).0 <= self.clock
        &&& forall|i: int| 0 <= i < e.len() ==> (#[trigger] e[i]).touched <= self.clock
        &&& forall|i: int| 0 <= i < e.len() ==> o.contains(record_of(#[trigger] e[i]))
    }

    /// An empty store.
    pub fn new() -> (cache: Self)
        ensures
            cache.wf(),
            cache.entry_seq().len() == 0,
            cache.order_seq().len() == 0,
            cache.clock_reading() == 0,
    {
        PreparedGeometryCache { entries: Vec::new(), order: VecDeque::new(), bytes: 0, clock: 0 }
    }

    /// Empties the store.
    pub fn clear_for_tests(&mut self)
        ensures
            final(self).wf(),
            final(self).entry_seq().len() == 0,
            final(self).order_seq().len() == 0,
            final(self).clock_reading() == 0,
    {
        *self = PreparedGeometryCache::new();
    }

    /// How many entries the store holds.
    pub fn entry_count(&self) -> (n: usize)
        ensures
            n == self.entry_seq().len(),
    {
        self.entries.len()
    }

    /// How many use records the store keeps.
    pub fn order_len(&self) -> (n: usize)
        ensures
            n == self.order_seq().len(),
    {
        self.order.len()
    }

    /// The use clock's current reading.
    pub fn clock(&self) -> (c: u64)
        ensures
            c == self.clock_reading(),
    {
        self.clock
    }

    /// Total size of the stored entries.
    pub fn byte_total(&self) -> (n: usize)
        ensures
            n == self.total_bytes(),
    {
        self.bytes
    }

    /// The table position of the entry under `key`, if one is stored.
    fn find(&self, key: CacheKey) -> (r: Option<usize>)
        ensures
            r matches Some(i) ==> i < self.entries@.len() && self.entries@[i as int].key == key,
            r is None <==> !has_key(self.entries@, key),
    {
        let mut i: usize = 0;
        while i < self.entries.len()
            invariant
                i <= self.entries@.len(),
                forall|j: int| 0 <= j < i ==> (#[trigger] self.entries@[j]).key != key,
            decreases self.entries@.len() - i,
        {
            if self.entries[i].key == key {
                return Some(i);
            }
            i = i + 1;
        }
        None
    }

    /// The value stored under `key`, if any. Reading does not count as a
    /// use; `touch` records one.
    pub fn lookup(&self, key: CacheKey) -> (r: Option<&V>)
        ensures
            r is Some <==> has_key(self.entry_seq(), key),
            r matches Some(v) ==> exists|i: int|
                0 <= i < self.entry_seq().len() && #[trigger] self.entry_seq()[i].key == key && self.entry_seq()[i].value
                    == *v,
    {
        match self.find(key) {
            Some(i) => {
                assert(self.entry_seq()[i as int].key == key);
                Some(&self.entries[i].value)
            },
            None => None,
        }
    }
}

/// Removing one entry takes exactly its bytes off the total.
proof fn lemma_sum_bytes_remove<V>(e: Seq<CacheEntry<V>>, i: int)
    requires
        0 <= i < e.len(),
    ensures
        sum_bytes(e.remove(i)) + e[i].bytes == sum_bytes(e),
        e[i].bytes <= sum_bytes(e),
    decreases e.len(),
{
    if i == e.len() - 1 {
        assert(e.remove(i) =~= e.drop_last());
    } else {
        lemma_sum_bytes_remove(e.drop_last(), i);
        assert(e.remove(i).drop_last() =~= e.drop_last().remove(i));
        assert(e.remove(i).last() == e.last());
    }
}

/// The most use records compaction leaves room for, for `n` entries.
pub open spec fn max_records(n: nat) -> nat {
    let m = n * 4 + 64;
    if m > usize::MAX { usize::MAX as nat } else { m }
}

/// The use records of `o` that are the latest use of an entry of `e`, in
/// their order.
pub open spec fn live_records<V>(e: Seq<CacheEntry<V>>, o: Seq<(u64, CacheKey)>) -> Seq<(u64, CacheKey)> {
    o.filter(|r: (u64, CacheKey)| live(e, r))
}

/// The use log after compaction: unchanged while it holds at most
/// `max_records` records, else only its live records.
pub open spec fn compacted<V>(e: Seq<CacheEntry<V>>, o: Seq<(u64, CacheKey)>) -> Seq<(u64, CacheKey)> {
    if o.len() <= max_records(e.len()) {
        o
    } else {
        live_records(e, o)
    }
}

/// Keeping the live records of one more record extends those of the prefix.
proof fn lemma_live_records_step<V>(e: Seq<CacheEntry<V>>, o: Seq<(u64, CacheKey)>, k: int)
    requires
        0 <= k < o.len(),
    ensures
        live_records(e, o.subrange(0, k + 1)) == if live(e, o[k]) {
            live_records(e, o.subrange(0, k)).push(o[k])
        } else {
            live_records(e, o.subrange(0, k))
        },
{
    reveal(Seq::filter);
    assert(o.subrange(0, k + 1).drop_last() =~= o.subrange(0, k));
    assert(o.subrange(0, k + 1).last() == o[k]);
}

/// Use records in increasing stamp order that are each the latest use of
/// a stored entry are no more than the entries.
proof fn lemma_live_records_bounded<V>(e: Seq<CacheEntry<V>>, kept: Seq<(u64, CacheKey)>)
    requires
        keys_distinct(e),
        forall|i: int, j: int| 0 <= i < j < kept.len() ==> (#[trigger] kept[i]).0 < (#[trigger] kept[j]).0,
        forall|i: int| 0 <= i < kept.len() ==> live(e, #[trigger] kept[i]),
    ensures
        kept.len() <= e.len(),
{
    let ks = kept.map_values(|r: (u64, CacheKey)| r.1);
    let es = e.map_values(|x: CacheEntry<V>| x.key);
    assert(ks.no_duplicates()) by {
        assert forall|i: int, j: int| 0 <= i < j < ks.len() implies ks[i] != ks[j] by {
            assert(live(e, kept[i]));
            assert(live(e, kept[j]));
            let a = choose|a: int| 0 <= a < e.len() && #[trigger] record_of(e[a]) == kept[i];
            let b = choose|b: int| 0 <= b < e.len() && #[trigger] record_of(e[b]) == kept[j];
            if ks[i] == ks[j] {
                if a < b {
                    assert(e[a].key != e[b].key);
                } else if b < a {
                    assert(e[b].key != e[a].key);
                }
            }
        }
    }
    assert(es.no_duplicates()) by {
        assert forall|i: int, j: int| 0 <= i < j < es.len() implies es[i] != es[j] by {
            assert(e[i].key != e[j].key);
        }
    }
    assert(ks.to_set().subset_of(es.to_set())) by {
        assert forall|k: CacheKey| ks.to_set().contains(k) implies es.to_set().contains(k) by {
            let i = choose|i: int| 0 <= i < ks.len() && ks[i] == k;
            assert(live(e, kept[i]));
            let a = choose|a: int| 0 <= a < e.len() && #[trigger] record_of(e[a]) == kept[i];
            assert(es[a] == k);
        }
    }
    ks.unique_seq_to_set();
    es.unique_seq_to_set();
    vstd::set_lib::lemma_len_subset(ks.to_set(), es.to_set());
}

/// How long the recency log may grow for `n` entries before it is compacted.
fn saturating_records(n: usize) -> (m: usize)
    ensures
        m == max_records(n as nat),
{
    match n.checked_mul(ORDER_COMPACTION_MULTIPLIER) {
        Some(scaled) => match scaled.checked_add(ORDER_COMPACTION_SLACK) {
            Some(total) => total,
            None => usize::MAX,
        },
        None => usize::MAX,
    }
}

impl<V> PreparedGeometryCache<V> {
    /// Whether a recency record is still the latest touch of a stored entry.
    fn is_live(&self, record: (u64, CacheKey)) -> (b: bool)
        ensures
            b == live(self.entries@, record),
    {
        let mut i: usize = 0;
        while i < self.entries.len()
            invariant
                i <= self.entries@.len(),
                forall|j: int| 0 <= j < i ==> record_of(#[trigger] self.entries@[j]) != record,
            decreases self.entries@.len() - i,
        {
            if self.entries[i].key == record.1 && self.entries[i].touched == record.0 {
                assert(record_of(self.entries@[i as int]) == record);
                return true;
            }
            i = i + 1;
        }
        false
    }

    /// Drops stale use records once there are more than four per entry
    /// plus sixty-four; afterwards at most one record per entry remains.
    fn compact_order_if_needed(&mut self)
        requires
            old(self).consistent(),
        ensures
            final(self).consistent(),
            final(self).entries@ == old(self).entries@,
            final(self).bytes == old(self).bytes,
            final(self).clock == old(self).clock,
            final(self).order@.len() <= max_records(final(self).entries@.len()),
            forall|r: (u64, CacheKey)| #[trigger] final(self).order@.contains(r) ==> old(self).order@.contains(r),
            final(self).order@ == compacted(old(self).entries@, old(self).order@),
    {
        let maximum_records = saturating_records(self.entries.len());
        if self.order.len() <= maximum_records {
            return;
        }
        let ghost start = self.order@;
        let mut kept: VecDeque<(u64, CacheKey)> = VecDeque::new();
        while self.order.len() > 0
            invariant
                self.entries@ == old(self).entries@,
                self.bytes == old(self).bytes,
                self.clock == old(self).clock,
                keys_distinct(self.entries@),
                self.bytes == sum_bytes(self.entries@),
                forall|i: int| 0 <= i < self.entries@.len() ==> (#[trigger] self.entries@[i]).touched <= self.clock,
                forall|i: int, j: int|
                    0 <= i < j < self.order@.len() ==> (#[trigger] self.order@[i]).0 < (#[trigger] self.order@[j]).0,
                forall|i: int| 0 <= i < self.order@.len() ==> (#[trigger] self.order@[i]).0 <= self.clock,
                forall|i: int, j: int| 0 <= i < j < kept@.len() ==> (#[trigger] kept@[i]).0 < (#[trigger] kept@[j]).0,
                forall|i: int, j: int|
                    0 <= i < kept@.len() && 0 <= j < self.order@.len() ==> (#[trigger] kept@[i]).0 < (
                    #[trigger] self.order@[j]).0,
                forall|i: int| 0 <= i < kept@.len() ==> live(self.entries@, #[trigger] kept@[i]),
                forall|i: int| 0 <= i < kept@.len() ==> (#[trigger] kept@[i]).0 <= self.clock,
                forall|i: int|
                    0 <= i < self.entries@.len() ==> kept@.contains(record_of(#[trigger] self.entries@[i]))
                        || self.order@.contains(record_of(self.entries@[i])),
                forall|r: (u64, CacheKey)| #[trigger] kept@.contains(r) ==> start.contains(r),
                forall|r: (u64, CacheKey)| #[trigger] self.order@.contains(r) ==> start.contains(r),
                self.order@.len() <= start.len(),
                self.order@ == start.subrange(start.len() - self.order@.len(), start.len() as int),
                kept@ == live_records(self.entries@, start.subrange(0, start.len() - self.order@.len())),
            decreases self.order@.len(),
        {
            let ghost before = self.order@;
            let ghost kept_before = kept@;
            let record = self.order.pop_front().unwrap();
            proof {
                let k = start.len() - before.len();
                assert(record == start[k]) by {
                    assert(before[0] == start.subrange(k, start.len() as int)[0]);
                }
                assert(self.order@ =~= start.subrange(k + 1, start.len() as int));
                lemma_live_records_step(self.entries@, start, k);
            }
            proof {
                assert forall|r: (u64, CacheKey)| #[trigger] self.order@.contains(r) implies before.contains(r) by {
                    let i = choose|i: int| 0 <= i < self.order@.len() && self.order@[i] == r;
                    assert(before[i + 1] == r);
                }
            }
            if self.is_live(record) {
                kept.push_back(record);
            }
            proof {
                assert forall|i: int|
                    0 <= i < self.entries@.len() implies kept@.contains(record_of(#[trigger] self.entries@[i]))
                        || self.order@.contains(record_of(self.entries@[i])) by {
                    let x = record_of(self.entries@[i]);
                    if kept_before.contains(x) {
                        let u = choose|u: int| 0 <= u < kept_before.len() && kept_before[u] == x;
                        assert(kept@[u] == x);
                    } else if x == record {
                        assert(live(self.entries@, record));
                        assert(kept@[kept@.len() - 1] == x);
                    } else {
                        assert(before.contains(x));
                        let u = choose|u: int| 0 <= u < before.len() && before[u] == x;
                        assert(u > 0);
                        assert(self.order@[u - 1] == x);
                    }
                }
                assert forall|r: (u64, CacheKey)| #[trigger] kept@.contains(r) implies start.contains(r) by {
                    let u = choose|u: int| 0 <= u < kept@.len() && kept@[u] == r;
                    if u < kept_before.len() {
                        assert(kept_before[u] == r);
                    } else {
                        assert(before[0] == r);
                    }
                }
            }
        }
        self.order = kept;
        proof {
            assert(start.subrange(0, start.len() as int) =~= start);
            lemma_live_records_bounded(self.entries@, self.order@);
        }
    }
}

impl<V> PreparedGeometryCache<V> {
    /// Records a use of `key`: the clock advances; a stored entry under
    /// `key` takes the new reading and a use record is appended for it (a
    /// key not stored leaves the log alone); stale records are compacted
    /// when there are too many.
    pub fn touch(&mut self, key: CacheKey)
        requires
            old(self).wf(),
            old(self).clock_reading() < u64::MAX,
        ensures
            final(self).wf(),
            final(self).clock_reading() == old(self).clock_reading() + 1,
            final(self).total_bytes() == old(self).total_bytes(),
            final(self).entry_seq().len() == old(self).entry_seq().len(),
            forall|i: int|
                0 <= i < old(self).entry_seq().len() ==> {
                    let before = #[trigger] old(self).entry_seq()[i];
                    let after = final(self).entry_seq()[i];
                    &&& after.key == before.key
                    &&& after.value == before.value
                    &&& after.bytes == before.bytes
                    &&& after.touched == if before.key == key {
                        final(self).clock_reading()
                    } else {
                        before.touched
                    }
                },
            final(self).order_seq().len() <= max_records(final(self).entry_seq().len()),
            final(self).order_seq() == compacted(
                final(self).entry_seq(),
                if has_key(old(self).entry_seq(), key) {
                    old(self).order_seq().push((final(self).clock_reading(), key))
                } else {
                    old(self).order_seq()
                },
            ),
    {
        let ghost e0 = self.entries@;
        self.clock = self.clock.wrapping_add(1);
        let touched = self.clock;
        match self.find(key) {
            Some(i) => {
                self.entries[i].touched = touched;
                self.order.push_back((touched, key));
                proof {
                    let e = self.entries@;
                    let o = self.order@;
                    assert forall|j: int| 0 <= j < e.len() implies o.contains(record_of(#[trigger] e[j])) by {
                        if j == i {
                            assert(o[o.len() - 1] == record_of(e[j]));
                        } else {
                            assert(e[j] == e0[j]);
                            assert(old(self).order@.contains(record_of(e0[j])));
                            let u = choose|u: int| 0 <= u < old(self).order@.len() && old(self).order@[u] == record_of(e0[j]);
                            assert(o[u] == record_of(e[j]));
                        }
                    }
                    assert forall|a: int, b: int| 0 <= a < b < e.len() implies #[trigger] e[a].key != #[trigger] e[b].key by {
                        assert(e0[a].key != e0[b].key);
                    }
                    assert(sum_bytes(e) == sum_bytes(e0)) by {
                        lemma_sum_bytes_same_sizes(e0, e);
                    }
                }
            },
            None => {},
        }
        self.compact_order_if_needed();
    }
}

/// Entries of the same sizes sum to the same total.
proof fn lemma_sum_bytes_same_sizes<V>(a: Seq<CacheEntry<V>>, b: Seq<CacheEntry<V>>)
    requires
        a.len() == b.len(),
        forall|i: int| 0 <= i < a.len() ==> (#[trigger] a[i]).bytes == b[i].bytes,
    ensures
        sum_bytes(a) == sum_bytes(b),
    decreases a.len(),
{
    if a.len() > 0 {
        lemma_sum_bytes_same_sizes(a.drop_last(), b.drop_last());
    }
}

/// When the front use record carries the latest clock reading, at most one
/// entry is stored.
proof fn lemma_front_is_latest<V>(e: Seq<CacheEntry<V>>, o: Seq<(u64, CacheKey)>, clock: u64)
    requires
        keys_distinct(e),
        o.len() > 0,
        o[0].0 == clock,
        forall|i: int, j: int| 0 <= i < j < o.len() ==> (#[trigger] o[i]).0 < (#[trigger] o[j]).0,
        forall|i: int| 0 <= i < e.len() ==> (#[trigger] e[i]).touched <= clock,
        forall|i: int| 0 <= i < e.len() ==> o.contains(record_of(#[trigger] e[i])),
    ensures
        e.len() <= 1,
{
    if e.len() > 1 {
        assert(o.contains(record_of(e[0])));
        assert(o.contains(record_of(e[1])));
        let u = choose|u: int| 0 <= u < o.len() && o[u] == record_of(e[0]);
        let v = choose|v: int| 0 <= v < o.len() && o[v] == record_of(e[1]);
        if u > 0 {
            assert(o[0].0 < o[u].0);
        }
        if v > 0 {
            assert(o[0].0 < o[v].0);
        }
        assert(e[0].key != e[1].key);
    }
}

/// The sizes of the stored entries other than `key`.
pub open spec fn bytes_without<V>(e: Seq<CacheEntry<V>>, key: CacheKey) -> nat
    decreases e.len(),
{
    if e.len() == 0 {
        0
    } else {
        bytes_without(e.drop_last(), key) + if e.last().key == key { 0nat } else { e.last().bytes as nat }
    }
}

/// Removing the entry under `key` leaves the bytes of all other entries.
proof fn lemma_bytes_without_remove<V>(e: Seq<CacheEntry<V>>, i: int, key: CacheKey)
    requires
        0 <= i < e.len(),
        e[i].key == key,
        keys_distinct(e),
    ensures
        bytes_without(e, key) == sum_bytes(e.remove(i)),
    decreases e.len(),
{
    if i == e.len() - 1 {
        assert(e.remove(i) =~= e.drop_last());
        lemma_bytes_without_absent(e.drop_last(), key);
    } else {
        assert(e.drop_last().remove(i) =~= e.remove(i).drop_last());
        assert(keys_distinct(e.drop_last())) by {
            assert forall|a: int, b: int| 0 <= a < b < e.drop_last().len() implies #[trigger] e.drop_last()[a].key
                != #[trigger] e.drop_last()[b].key by {
                assert(e[a].key != e[b].key);
            }
        }
        lemma_bytes_without_remove(e.drop_last(), i, key);
        assert(e.last().key != key) by {
            assert(e[i].key != e[e.len() - 1].key);
        }
        assert(e.remove(i).last() == e.last());
    }
}

/// When no entry has `key`, the bytes without it are the whole total.
proof fn lemma_bytes_without_absent<V>(e: Seq<CacheEntry<V>>, key: CacheKey)
    requires
        !has_key(e, key),
    ensures
        bytes_without(e, key) == sum_bytes(e),
    decreases e.len(),
{
    if e.len() > 0 {
        assert(!has_key(e.drop_last(), key)) by {
            if has_key(e.drop_last(), key) {
                let i = choose|i: int| 0 <= i < e.drop_last().len() && #[trigger] e.drop_last()[i].key == key;
                assert(e[i].key == key);
            }
        }
        lemma_bytes_without_absent(e.drop_last(), key);
        assert(e.last().key != key) by {
            assert(e[e.len() - 1].key == e.last().key);
        }
    }
}

impl<V> PreparedGeometryCache<V> {
    /// The table position of the entry whose latest touch is `record`, if any.
    fn find_record(&self, record: (u64, CacheKey)) -> (r: Option<usize>)
        ensures
            r matches Some(i) ==> i < self.entries@.len() && record_of(self.entries@[i as int]) == record,
            r is None <==> !live(self.entries@, record),
    {
        let mut i: usize = 0;
        while i < self.entries.len()
            invariant
                i <= self.entries@.len(),
                forall|j: int| 0 <= j < i ==> record_of(#[trigger] self.entries@[j]) != record,
            decreases self.entries@.len() - i,
        {
            if self.entries[i].key == record.1 && self.entries[i].touched == record.0 {
                assert(record_of(self.entries@[i as int]) == record);
                return Some(i);
            }
            i = i + 1;
        }
        None
    }

    /// Evicts entries in use order, oldest first, until the byte total is
    /// within the limit. `fresh`, the entry just stored with the latest
    /// clock reading, always stays.
    #[verifier::rlimit(60)]
    fn evict_to_limit(&mut self, fresh: Ghost<CacheEntry<V>>, e1: Ghost<Seq<CacheEntry<V>>>)
        requires
            old(self).consistent(),
            old(self).entries@ == e1@,
            e1@.contains(fresh@),
            fresh@.touched == old(self).clock,
            fresh@.bytes <= MAX_CACHE_BYTES,
        ensures
            final(self).wf(),
            final(self).clock == old(self).clock,
            final(self).entries@.contains(fresh@),
            final(self).order@.len() <= old(self).order@.len(),
            old(self).bytes <= MAX_CACHE_BYTES ==> final(self).entries@ == e1@,
            forall|j: int| 0 <= j < final(self).entries@.len() ==> e1@.contains(#[trigger] final(self).entries@[j]),
            forall|a: int|
                0 <= a < e1@.len() && !has_key(final(self).entries@, (#[trigger] e1@[a]).key) ==> forall|k: int|
                    0 <= k < final(self).order@.len() ==> e1@[a].touched < (#[trigger] final(self).order@[k]).0,
            (exists|a: int| 0 <= a < e1@.len() && !has_key(final(self).entries@, (#[trigger] e1@[a]).key)) ==> exists|
                x: CacheEntry<V>,
            |
                #![trigger e1@.contains(x)]
                e1@.contains(x) && !has_key(final(self).entries@, x.key) && final(self).bytes + x.bytes
                    > MAX_CACHE_BYTES && forall|a: int|
                    0 <= a < e1@.len() && !has_key(final(self).entries@, (#[trigger] e1@[a]).key) && e1@[a] != x
                        ==> e1@[a].touched < x.touched,
    {
        let ghost touched = self.clock;
        let ghost fresh = fresh@;
        let ghost e1 = e1@;
        let ghost bytes0 = self.bytes;
        let ghost mut last: Option<CacheEntry<V>> = None;
        proof {
            assert forall|j: int| 0 <= j < self.entries@.len() implies e1.contains(#[trigger] self.entries@[j]) by {
                assert(e1[j] == self.entries@[j]);
            }
            assert forall|a: int| 0 <= a < e1.len() implies has_key(self.entries@, (#[trigger] e1[a]).key) by {
                assert(self.entries@[a].key == e1[a].key);
            }
        }
        while self.bytes > MAX_CACHE_BYTES && self.order.len() > 0
            invariant
                self.consistent(),
                self.order@.len() <= old(self).order@.len(),
                self.clock == touched,
                fresh.touched == touched,
                fresh.bytes <= MAX_CACHE_BYTES,
                self.entries@.contains(fresh),
                keys_distinct(e1),
                sum_bytes(e1) == bytes0,
                bytes0 <= MAX_CACHE_BYTES ==> self.entries@ == e1,
                forall|j: int| 0 <= j < self.entries@.len() ==> e1.contains(#[trigger] self.entries@[j]),
                last is None ==> forall|a: int| 0 <= a < e1.len() ==> has_key(self.entries@, (#[trigger] e1[a]).key),
                last matches Some(x) ==> {
                    &&& e1.contains(x)
                    &&& !has_key(self.entries@, x.key)
                    &&& self.bytes + x.bytes > MAX_CACHE_BYTES
                    &&& forall|a: int|
                        0 <= a < e1.len() && !has_key(self.entries@, (#[trigger] e1[a]).key) && e1[a] != x
                            ==> e1[a].touched < x.touched
                },
                forall|a: int|
                    0 <= a < e1.len() && !has_key(self.entries@, (#[trigger] e1[a]).key) ==> forall|k: int|
                        0 <= k < self.order@.len() ==> e1[a].touched < (#[trigger] self.order@[k]).0,
            decreases self.order@.len(),
        {
            assert(bytes0 > MAX_CACHE_BYTES);
            let ghost before = self.entries@;
            let ghost o_before = self.order@;
            proof {
                if o_before[0].0 == touched {
                    lemma_front_is_latest(before, o_before, touched);
                    let f = choose|f: int| 0 <= f < before.len() && before[f] == fresh;
                    assert(before =~= seq![fresh]);
                    assert(before.drop_last() =~= Seq::<CacheEntry<V>>::empty());
                    assert(sum_bytes(before.drop_last()) == 0);
                    assert(sum_bytes(before) == fresh.bytes);
                }
            }
            let record = self.order.pop_front().unwrap();
            let found = self.find_record(record);
            match found {
                Some(i) => {
                    proof {
                        lemma_sum_bytes_remove(self.entries@, i as int);
                    }
                    let ghost gone = before[i as int];
                    let ghost bytes_before = self.bytes;
                    let removed = self.entries.remove(i);
                    self.bytes = self.bytes - removed.bytes;
                    proof {
                        lemma_evict_step_removed(before, o_before, self.entries@, self.order@, i as int, e1, fresh, touched);
                        let e = self.entries@;
                        assert(e1.contains(gone));
                        assert(!has_key(e, gone.key)) by {
                            if has_key(e, gone.key) {
                                let j = choose|j: int| 0 <= j < e.len() && #[trigger] e[j].key == gone.key;
                                let j2 = if j < i { j } else { j + 1 };
                                assert(e[j] == before[j2]);
                                assert(j2 != i);
                                if j2 < i {
                                    assert(before[j2].key != before[i as int].key);
                                } else {
                                    assert(before[i as int].key != before[j2].key);
                                }
                            }
                        }
                        assert forall|a: int|
                            0 <= a < e1.len() && !has_key(e, (#[trigger] e1[a]).key) && e1[a] != gone implies e1[a].touched
                                < gone.touched by {
                            if has_key(before, e1[a].key) {
                                let j = choose|j: int| 0 <= j < before.len() && #[trigger] before[j].key == e1[a].key;
                                if j != i {
                                    let j2 = if j < i { j } else { j - 1 };
                                    assert(e[j2] == before[j]);
                                }
                                let a2 = choose|a2: int| 0 <= a2 < e1.len() && e1[a2] == gone;
                                if a2 != a {
                                    if a2 < a {
                                        assert(e1[a2].key != e1[a].key);
                                    } else {
                                        assert(e1[a].key != e1[a2].key);
                                    }
                                }
                            } else {
                                assert(o_before[0].0 == gone.touched);
                            }
                        }
                        last = Some(gone);
                    }
                },
                None => {
                    proof {
                        lemma_evict_step_stale(before, o_before, self.order@, record, e1);
                    }
                },
            }
        }
        proof {
            let e = self.entries@;
            let o = self.order@;
            if o.len() == 0 {
                if e.len() > 0 {
                    assert(o.contains(record_of(e[0])));
                }
                assert(e.len() == 0);
            }
            if let Some(x) = last {
                assert(e1.contains(x));
            }
        }
    }

    /// Stores `value` under `key` as its latest use, replacing an entry
    /// already under `key`, then evicts the least recently used entries
    /// until the total size is back under the limit. A value larger than
    /// the whole limit is not stored. The use log is compacted for the
    /// entries held once the value is stored; eviction only pops records
    /// from its front, so it may then hold more records than compaction
    /// would allow for the fewer entries that remain.
    pub fn insert(&mut self, key: CacheKey, value: V, bytes: usize)
        requires
            old(self).wf(),
            old(self).clock_reading() < u64::MAX,
        ensures
            final(self).wf(),
            bytes > MAX_CACHE_BYTES ==> final(self).entry_seq() == old(self).entry_seq() && final(self).order_seq()
                == old(self).order_seq() && final(self).clock_reading() == old(self).clock_reading()
                && final(self).total_bytes() == old(self).total_bytes(),
            bytes <= MAX_CACHE_BYTES ==> final(self).order_seq().len() <= max_records(old(self).entry_seq().len() + 1),
            bytes <= MAX_CACHE_BYTES ==> final(self).clock_reading() == old(self).clock_reading() + 1
                && insert_outcome(
                old(self).entry_seq(),
                final(self).entry_seq(),
                CacheEntry { key, value, bytes, touched: final(self).clock_reading() },
                final(self).total_bytes(),
            ),
    {
        if bytes > MAX_CACHE_BYTES {
            return;
        }
        let ghost e0 = self.entries@;
        let ghost o0 = self.order@;
        match self.find(key) {
            Some(i) => {
                proof {
                    lemma_sum_bytes_remove(self.entries@, i as int);
                    lemma_bytes_without_remove(self.entries@, i as int, key);
                    lemma_remove_key(e0, i as int, key);
                }
                let removed = self.entries.remove(i);
                self.bytes = self.bytes - removed.bytes;
            },
            None => {
                proof {
                    lemma_bytes_without_absent(self.entries@, key);
                    lemma_absent_key(e0, key);
                }
            },
        }
        let ghost e_kept = self.entries@;
        self.clock = self.clock.wrapping_add(1);
        let touched = self.clock;
        self.bytes = self.bytes + bytes;
        self.entries.push(CacheEntry { key, value, bytes, touched });
        self.order.push_back((touched, key));
        let ghost e1 = self.entries@;
        let ghost fresh = CacheEntry { key, value, bytes, touched };
        proof {
            assert(self.entries@.drop_last() =~= e_kept);
            lemma_push_keeps_consistent(e0, o0, e_kept, self.entries@, self.order@, fresh, old(self).clock);
        }
        self.compact_order_if_needed();
        assert(e1.len() <= e0.len() + 1);
        self.evict_to_limit(Ghost(fresh), Ghost(e1));
        proof {
            lemma_insert_outcome(e0, e_kept, e1, self.entries@, self.order@, fresh, self.bytes as nat);
        }
    }
}

/// Entries of `after` under keys other than `key` were all in `before`.
pub open spec fn survivors_from<V>(before: Seq<CacheEntry<V>>, after: Seq<CacheEntry<V>>, key: CacheKey) -> bool {
    forall|j: int| 0 <= j < after.len() && (#[trigger] after[j]).key != key ==> before.contains(after[j])
}

/// Every entry of `before` under a key other than `key` is in `after`.
pub open spec fn keeps_all<V>(before: Seq<CacheEntry<V>>, after: Seq<CacheEntry<V>>, key: CacheKey) -> bool {
    forall|i: int| 0 <= i < before.len() && (#[trigger] before[i]).key != key ==> after.contains(before[i])
}

/// The entry at `a` of `before`, under a key other than `key`, is gone.
pub open spec fn evicted<V>(before: Seq<CacheEntry<V>>, after: Seq<CacheEntry<V>>, key: CacheKey, a: int) -> bool {
    0 <= a < before.len() && before[a].key != key && !has_key(after, before[a].key)
}

/// Every evicted entry was used before every surviving one.
pub open spec fn evicted_older<V>(before: Seq<CacheEntry<V>>, after: Seq<CacheEntry<V>>, key: CacheKey) -> bool {
    forall|a: int, b: int|
        #![trigger before[a], before[b]]
        evicted(before, after, key, a) && 0 <= b < before.len() && before[b].key != key && has_key(after, before[b].key)
            ==> before[a].touched < before[b].touched
}

/// Eviction stopped as soon as it could: keeping the latest-used evicted
/// entry would have left the total above the limit.
pub open spec fn eviction_minimal<V>(before: Seq<CacheEntry<V>>, after: Seq<CacheEntry<V>>, key: CacheKey, total: nat) -> bool {
    (exists|a: int| #[trigger] evicted(before, after, key, a)) ==> exists|x: CacheEntry<V>|
        #![trigger before.contains(x)]
        before.contains(x) && x.key != key && !has_key(after, x.key) && total + x.bytes > MAX_CACHE_BYTES && forall|a: int|
            #[trigger] evicted(before, after, key, a) && before[a] != x ==> before[a].touched < x.touched
}

/// What storing `stored` leaves: it is held; the other entries were held
/// before; nothing else leaves when everything fits; what leaves was used
/// before what stays; and no more leaves than needed.
pub open spec fn insert_outcome<V>(before: Seq<CacheEntry<V>>, after: Seq<CacheEntry<V>>, stored: CacheEntry<V>, total: nat) -> bool {
    &&& after.contains(stored)
    &&& survivors_from(before, after, stored.key)
    &&& (bytes_without(before, stored.key) + stored.bytes <= MAX_CACHE_BYTES ==> keeps_all(before, after, stored.key))
    &&& evicted_older(before, after, stored.key)
    &&& eviction_minimal(before, after, stored.key, total)
}

/// Removing the entry under `key` keeps every other entry and only those.
proof fn lemma_remove_key<V>(e0: Seq<CacheEntry<V>>, i: int, key: CacheKey)
    requires
        0 <= i < e0.len(),
        e0[i].key == key,
        keys_distinct(e0),
    ensures
        forall|j: int| 0 <= j < e0.remove(i).len() ==> e0.contains(#[trigger] e0.remove(i)[j]) && e0.remove(i)[j].key != key,
        forall|x: int| 0 <= x < e0.len() && (#[trigger] e0[x]).key != key ==> e0.remove(i).contains(e0[x]),
{
    let r = e0.remove(i);
    assert forall|j: int| 0 <= j < r.len() implies e0.contains(#[trigger] r[j]) && r[j].key != key by {
        if j < i {
            assert(e0[j] == r[j]);
            assert(e0[j].key != e0[i].key);
        } else {
            assert(e0[j + 1] == r[j]);
            assert(e0[i].key != e0[j + 1].key);
        }
    }
    assert forall|x: int| 0 <= x < e0.len() && (#[trigger] e0[x]).key != key implies r.contains(e0[x]) by {
        if x < i {
            assert(r[x] == e0[x]);
        } else if x > i {
            assert(r[x - 1] == e0[x]);
        }
    }
}

/// When no entry has `key`, every entry already differs from it.
proof fn lemma_absent_key<V>(e0: Seq<CacheEntry<V>>, key: CacheKey)
    requires
        !has_key(e0, key),
    ensures
        forall|j: int| 0 <= j < e0.len() ==> e0.contains(#[trigger] e0[j]) && e0[j].key != key,
        forall|x: int| 0 <= x < e0.len() && (#[trigger] e0[x]).key != key ==> e0.contains(e0[x]),
{
    assert forall|j: int| 0 <= j < e0.len() implies e0.contains(#[trigger] e0[j]) && e0[j].key != key by {
        if e0[j].key == key {
            assert(has_key(e0, key));
        }
    }
}

/// Appending a fresh entry and its record keeps the table and log in step.
proof fn lemma_push_keeps_consistent<V>(
    e0: Seq<CacheEntry<V>>,
    o0: Seq<(u64, CacheKey)>,
    e_kept: Seq<CacheEntry<V>>,
    e: Seq<CacheEntry<V>>,
    o: Seq<(u64, CacheKey)>,
    fresh: CacheEntry<V>,
    clock0: u64,
)
    requires
        clock0 < u64::MAX,
        fresh.touched == clock0 + 1,
        e == e_kept.push(fresh),
        o == o0.push((fresh.touched, fresh.key)),
        keys_distinct(e0),
        forall|j: int| 0 <= j < e_kept.len() ==> e0.contains(#[trigger] e_kept[j]) && e_kept[j].key != fresh.key,
        forall|i: int, j: int| 0 <= i < j < e_kept.len() ==> #[trigger] e_kept[i].key != #[trigger] e_kept[j].key,
        forall|i: int, j: int| 0 <= i < j < o0.len() ==> (#[trigger] o0[i]).0 < (#[trigger] o0[j]).0,
        forall|i: int| 0 <= i < o0.len() ==> (#[trigger] o0[i]).0 <= clock0,
        forall|i: int| 0 <= i < e0.len() ==> (#[trigger] e0[i]).touched <= clock0,
        forall|i: int| 0 <= i < e0.len() ==> o0.contains(record_of(#[trigger] e0[i])),
    ensures
        keys_distinct(e),
        forall|i: int, j: int| 0 <= i < j < o.len() ==> (#[trigger] o[i]).0 < (#[trigger] o[j]).0,
        forall|i: int| 0 <= i < o.len() ==> (#[trigger] o[i]).0 <= fresh.touched,
        forall|i: int| 0 <= i < e.len() ==> (#[trigger] e[i]).touched <= fresh.touched,
        forall|i: int| 0 <= i < e.len() ==> o.contains(record_of(#[trigger] e[i])),
        e.contains(fresh),
{
    assert forall|a: int, b: int| 0 <= a < b < e.len() implies #[trigger] e[a].key != #[trigger] e[b].key by {
        assert(e[a] == e_kept[a]);
        if b < e.len() - 1 {
            assert(e[b] == e_kept[b]);
            assert(e_kept[a].key != e_kept[b].key);
        } else {
            assert(e[b] == fresh);
            assert(e0.contains(e_kept[a]) && e_kept[a].key != fresh.key);
        }
    }
    assert forall|j: int| 0 <= j < e.len() implies o.contains(record_of(#[trigger] e[j])) && e[j].touched <= fresh.touched by {
        if j == e.len() - 1 {
            assert(o[o.len() - 1] == record_of(e[j]));
        } else {
            assert(e[j] == e_kept[j]);
            assert(e0.contains(e_kept[j]));
            let a = choose|a: int| 0 <= a < e0.len() && e0[a] == e_kept[j];
            assert(o0.contains(record_of(e0[a])));
            let u = choose|u: int| 0 <= u < o0.len() && o0[u] == record_of(e0[a]);
            assert(o[u] == record_of(e[j]));
        }
    }
    assert(e[e.len() - 1] == fresh);
}

/// What an insertion leaves behind, stated over the entries before and after.
#[verifier::rlimit(40)]
proof fn lemma_insert_outcome<V>(
    e0: Seq<CacheEntry<V>>,
    e_kept: Seq<CacheEntry<V>>,
    e1: Seq<CacheEntry<V>>,
    e: Seq<CacheEntry<V>>,
    o: Seq<(u64, CacheKey)>,
    fresh: CacheEntry<V>,
    total: nat,
)
    requires
        e1 == e_kept.push(fresh),
        keys_distinct(e1),
        forall|j: int| 0 <= j < e_kept.len() ==> e0.contains(#[trigger] e_kept[j]) && e_kept[j].key != fresh.key,
        forall|x: int| 0 <= x < e0.len() && (#[trigger] e0[x]).key != fresh.key ==> e_kept.contains(e0[x]),
        sum_bytes(e_kept) == bytes_without(e0, fresh.key),
        sum_bytes(e1) <= MAX_CACHE_BYTES ==> e == e1,
        e.contains(fresh),
        forall|j: int| 0 <= j < e.len() ==> e1.contains(#[trigger] e[j]),
        forall|i: int| 0 <= i < e.len() ==> o.contains(record_of(#[trigger] e[i])),
        forall|a: int|
            0 <= a < e1.len() && !has_key(e, (#[trigger] e1[a]).key) ==> forall|k: int|
                0 <= k < o.len() ==> e1[a].touched < (#[trigger] o[k]).0,
        (exists|a: int| 0 <= a < e1.len() && !has_key(e, (#[trigger] e1[a]).key)) ==> exists|x: CacheEntry<V>|
            #![trigger e1.contains(x)]
            e1.contains(x) && !has_key(e, x.key) && total + x.bytes > MAX_CACHE_BYTES && forall|a: int|
                0 <= a < e1.len() && !has_key(e, (#[trigger] e1[a]).key) && e1[a] != x ==> e1[a].touched < x.touched,
    ensures
        insert_outcome(e0, e, fresh, total),
{
    let key = fresh.key;
    assert(e1.drop_last() =~= e_kept);
    assert(e1[e1.len() - 1] == fresh);
    assert(sum_bytes(e1) == sum_bytes(e_kept) + fresh.bytes);
    // an old entry under another key sits in e1 at the same place as in e_kept
    assert forall|i: int| 0 <= i < e0.len() && (#[trigger] e0[i]).key != key implies e1.contains(e0[i]) by {
        let x = choose|x: int| 0 <= x < e_kept.len() && e_kept[x] == e0[i];
        assert(e1[x] == e0[i]);
    }
    assert(survivors_from(e0, e, key)) by {
        assert forall|j: int| 0 <= j < e.len() && (#[trigger] e[j]).key != key implies e0.contains(e[j]) by {
            let c = choose|c: int| 0 <= c < e1.len() && e1[c] == e[j];
            if c < e1.len() - 1 {
                assert(e1[c] == e_kept[c]);
            }
        }
    }
    assert(evicted_older(e0, e, key)) by {
        assert forall|a: int, b: int|
            #![trigger e0[a], e0[b]]
            evicted(e0, e, key, a) && 0 <= b < e0.len() && e0[b].key != key && has_key(e, e0[b].key) implies e0[a].touched
                < e0[b].touched by {
            assert(e1.contains(e0[a]));
            let a1 = choose|a1: int| 0 <= a1 < e1.len() && e1[a1] == e0[a];
            assert(e1.contains(e0[b]));
            let b1 = choose|b1: int| 0 <= b1 < e1.len() && e1[b1] == e0[b];
            let j = choose|j: int| 0 <= j < e.len() && #[trigger] e[j].key == e0[b].key;
            assert(e1.contains(e[j]));
            let c = choose|c: int| 0 <= c < e1.len() && e1[c] == e[j];
            if c != b1 {
                if c < b1 {
                    assert(e1[c].key != e1[b1].key);
                } else {
                    assert(e1[b1].key != e1[c].key);
                }
            }
            assert(o.contains(record_of(e[j])));
            let u = choose|u: int| 0 <= u < o.len() && o[u] == record_of(e[j]);
            assert(e1[a1].touched < o[u].0);
        }
    }
    assert(eviction_minimal(e0, e, key, total)) by {
        if exists|a: int| #[trigger] evicted(e0, e, key, a) {
            let a = choose|a: int| #[trigger] evicted(e0, e, key, a);
            assert(e1.contains(e0[a]));
            let a1 = choose|a1: int| 0 <= a1 < e1.len() && e1[a1] == e0[a];
            assert(!has_key(e, e1[a1].key));
            let x = choose|x: CacheEntry<V>|
                #![trigger e1.contains(x)]
                e1.contains(x) && !has_key(e, x.key) && total + x.bytes > MAX_CACHE_BYTES && forall|b: int|
                    0 <= b < e1.len() && !has_key(e, (#[trigger] e1[b]).key) && e1[b] != x ==> e1[b].touched < x.touched;
            let xi = choose|xi: int| 0 <= xi < e1.len() && e1[xi] == x;
            assert(xi != e1.len() - 1) by {
                if xi == e1.len() - 1 {
                    let f = choose|f: int| 0 <= f < e.len() && e[f] == fresh;
                    assert(e[f].key == x.key);
                }
            }
            assert(e_kept[xi] == x);
            assert(e0.contains(x));
            assert(x.key != key) by {
                assert(e1[xi].key != e1[e1.len() - 1].key);
            }
            assert forall|c: int| #[trigger] evicted(e0, e, key, c) && e0[c] != x implies e0[c].touched < x.touched by {
                assert(e1.contains(e0[c]));
                let c1 = choose|c1: int| 0 <= c1 < e1.len() && e1[c1] == e0[c];
                assert(!has_key(e, e1[c1].key));
            }
            assert(e0.contains(x) && x.key != key && !has_key(e, x.key));
        }
    }
    if bytes_without(e0, key) + fresh.bytes <= MAX_CACHE_BYTES {
        assert(e == e1);
    }
}

/// One eviction step that removed the entry whose latest use was the front
/// record keeps the store consistent and the eviction order.
proof fn lemma_evict_step_removed<V>(
    before: Seq<CacheEntry<V>>,
    o_before: Seq<(u64, CacheKey)>,
    e: Seq<CacheEntry<V>>,
    o: Seq<(u64, CacheKey)>,
    i: int,
    e1: Seq<CacheEntry<V>>,
    fresh: CacheEntry<V>,
    touched: u64,
)
    requires
        0 <= i < before.len(),
        o_before.len() > 0,
        record_of(before[i]) == o_before[0],
        o_before[0].0 != touched,
        e == before.remove(i),
        o == o_before.subrange(1, o_before.len() as int),
        keys_distinct(before),
        keys_distinct(e1),
        fresh.touched == touched,
        before.contains(fresh),
        forall|a: int, b: int| 0 <= a < b < o_before.len() ==> (#[trigger] o_before[a]).0 < (#[trigger] o_before[b]).0,
        forall|a: int| 0 <= a < o_before.len() ==> (#[trigger] o_before[a]).0 <= touched,
        forall|j: int| 0 <= j < before.len() ==> (#[trigger] before[j]).touched <= touched,
        forall|j: int| 0 <= j < before.len() ==> o_before.contains(record_of(#[trigger] before[j])),
        forall|j: int| 0 <= j < before.len() ==> e1.contains(#[trigger] before[j]),
        forall|a: int|
            0 <= a < e1.len() && !has_key(before, (#[trigger] e1[a]).key) ==> forall|k: int|
                0 <= k < o_before.len() ==> e1[a].touched < (#[trigger] o_before[k]).0,
    ensures
        keys_distinct(e),
        forall|a: int, b: int| 0 <= a < b < o.len() ==> (#[trigger] o[a]).0 < (#[trigger] o[b]).0,
        forall|a: int| 0 <= a < o.len() ==> (#[trigger] o[a]).0 <= touched,
        forall|j: int| 0 <= j < e.len() ==> (#[trigger] e[j]).touched <= touched,
        forall|j: int| 0 <= j < e.len() ==> o.contains(record_of(#[trigger] e[j])),
        forall|j: int| 0 <= j < e.len() ==> e1.contains(#[trigger] e[j]),
        e.contains(fresh),
        forall|a: int|
            0 <= a < e1.len() && !has_key(e, (#[trigger] e1[a]).key) ==> forall|k: int|
                0 <= k < o.len() ==> e1[a].touched < (#[trigger] o[k]).0,
{
    let gone = before[i];
    assert forall|a: int, b: int| 0 <= a < b < e.len() implies #[trigger] e[a].key != #[trigger] e[b].key by {
        let a2 = if a < i { a } else { a + 1 };
        let b2 = if b < i { b } else { b + 1 };
        assert(e[a] == before[a2] && e[b] == before[b2]);
        assert(before[a2].key != before[b2].key);
    }
    assert forall|a: int, b: int| 0 <= a < b < o.len() implies (#[trigger] o[a]).0 < (#[trigger] o[b]).0 by {
        assert(o[a] == o_before[a + 1] && o[b] == o_before[b + 1]);
    }
    assert forall|a: int| 0 <= a < o.len() implies (#[trigger] o[a]).0 <= touched by {
        assert(o[a] == o_before[a + 1]);
    }
    assert forall|j: int| 0 <= j < e.len() implies (#[trigger] e[j]).touched <= touched && o.contains(record_of(e[j]))
        && e1.contains(e[j]) by {
        let j2 = if j < i { j } else { j + 1 };
        assert(e[j] == before[j2]);
        assert(o_before.contains(record_of(before[j2])));
        let u = choose|u: int| 0 <= u < o_before.len() && o_before[u] == record_of(before[j2]);
        if u == 0 {
            assert(before[j2].key == before[i].key);
        }
        assert(o[u - 1] == record_of(e[j]));
    }
    assert(gone != fresh);
    assert(e.contains(fresh)) by {
        let f = choose|f: int| 0 <= f < before.len() && before[f] == fresh;
        if f < i {
            assert(e[f] == fresh);
        } else {
            assert(e[f - 1] == fresh);
        }
    }
    assert forall|a: int|
        0 <= a < e1.len() && !has_key(e, (#[trigger] e1[a]).key) implies forall|k: int|
        0 <= k < o.len() ==> e1[a].touched < (#[trigger] o[k]).0 by {
        if has_key(before, e1[a].key) {
            let j = choose|j: int| 0 <= j < before.len() && #[trigger] before[j].key == e1[a].key;
            if j != i {
                let j2 = if j < i { j } else { j - 1 };
                assert(e[j2] == before[j]);
            }
            assert(e1.contains(gone));
            let a2 = choose|a2: int| 0 <= a2 < e1.len() && e1[a2] == gone;
            if a2 != a {
                if a2 < a {
                    assert(e1[a2].key != e1[a].key);
                } else {
                    assert(e1[a].key != e1[a2].key);
                }
            }
            assert forall|k: int| 0 <= k < o.len() implies e1[a].touched < (#[trigger] o[k]).0 by {
                assert(o[k] == o_before[k + 1]);
            }
        } else {
            assert forall|k: int| 0 <= k < o.len() implies e1[a].touched < (#[trigger] o[k]).0 by {
                assert(o[k] == o_before[k + 1]);
            }
        }
    }
}

/// One eviction step that dropped a stale record keeps the store
/// consistent and the eviction order.
proof fn lemma_evict_step_stale<V>(
    e: Seq<CacheEntry<V>>,
    o_before: Seq<(u64, CacheKey)>,
    o: Seq<(u64, CacheKey)>,
    record: (u64, CacheKey),
    e1: Seq<CacheEntry<V>>,
)
    requires
        o_before.len() > 0,
        record == o_before[0],
        !live(e, record),
        o == o_before.subrange(1, o_before.len() as int),
        forall|j: int| 0 <= j < e.len() ==> o_before.contains(record_of(#[trigger] e[j])),
        forall|a: int|
            0 <= a < e1.len() && !has_key(e, (#[trigger] e1[a]).key) ==> forall|k: int|
                0 <= k < o_before.len() ==> e1[a].touched < (#[trigger] o_before[k]).0,
        forall|a: int, b: int| 0 <= a < b < o_before.len() ==> (#[trigger] o_before[a]).0 < (#[trigger] o_before[b]).0,
    ensures
        forall|j: int| 0 <= j < e.len() ==> o.contains(record_of(#[trigger] e[j])),
        forall|a: int|
            0 <= a < e1.len() && !has_key(e, (#[trigger] e1[a]).key) ==> forall|k: int|
                0 <= k < o.len() ==> e1[a].touched < (#[trigger] o[k]).0,
        forall|a: int, b: int| 0 <= a < b < o.len() ==> (#[trigger] o[a]).0 < (#[trigger] o[b]).0,
{
    assert forall|j: int| 0 <= j < e.len() implies o.contains(record_of(#[trigger] e[j])) by {
        let u = choose|u: int| 0 <= u < o_before.len() && o_before[u] == record_of(e[j]);
        if u == 0 {
            assert(live(e, record));
        }
        assert(o[u - 1] == record_of(e[j]));
    }
    assert forall|a: int|
        0 <= a < e1.len() && !has_key(e, (#[trigger] e1[a]).key) implies forall|k: int|
        0 <= k < o.len() ==> e1[a].touched < (#[trigger] o[k]).0 by {
        assert forall|k: int| 0 <= k < o.len() implies e1[a].touched < (#[trigger] o[k]).0 by {
            assert(o[k] == o_before[k + 1]);
        }
    }
    assert forall|a: int, b: int| 0 <= a < b < o.len() implies (#[trigger] o[a]).0 < (#[trigger] o[b]).0 by {
        assert(o[a] == o_before[a + 1] && o[b] == o_before[b + 1]);
    }
}

/// The store is bounded by size: a well-formed store's byte count is the
/// total size of its entries, no two of which share a key, and that total
/// is at most `MAX_CACHE_BYTES`.
pub proof fn law_bytes_are_the_entries_sizes<V>(cache: &PreparedGeometryCache<V>)
    requires
        cache.wf(),
    ensures
        cache.total_bytes() == sum_bytes(cache.entry_seq()),
        cache.total_bytes() <= MAX_CACHE_BYTES,
        keys_distinct(cache.entry_seq()),
{
}

/// A stored key has exactly one value: what `lookup` finds under a key is
/// what the entry holding it stores.
pub proof fn law_stored_value_is_found<V>(cache: &PreparedGeometryCache<V>, entry: CacheEntry<V>)
    requires
        cache.wf(),
        cache.entry_seq().contains(entry),
    ensures
        forall|i: int|
            0 <= i < cache.entry_seq().len() && (#[trigger] cache.entry_seq()[i]).key == entry.key
                ==> cache.entry_seq()[i] == entry,
{
    let e = cache.entry_seq();
    let j = choose|j: int| 0 <= j < e.len() && e[j] == entry;
    assert forall|i: int| 0 <= i < e.len() && (#[trigger] e[i]).key == entry.key implies e[i] == entry by {
        if i < j {
            assert(e[i].key != e[j].key);
        } else if j < i {
            assert(e[j].key != e[i].key);
        }
    }
}

/// The bytes a piece frame is fingerprinted from: the four frame values,
/// the outline's point count, then each point's two coordinates, all as
/// little-endian bit patterns.
pub open spec fn piece_frame_bytes(frame: Seq<u32>, outline: Seq<(u32, u32)>) -> Seq<u8> {
    le_bytes_u32(frame[0]) + le_bytes_u32(frame[1]) + le_bytes_u32(frame[2]) + le_bytes_u32(frame[3])
        + le_bytes_u64(outline.len() as u64) + outline_bytes(outline)
}

/// The bit patterns of an outline's points, point by point.
pub open spec fn outline_bytes(outline: Seq<(u32, u32)>) -> Seq<u8>
    decreases outline.len(),
{
    if outline.len() == 0 {
        Seq::empty()
    } else {
        outline_bytes(outline.drop_last()) + le_bytes_u32(outline.last().0) + le_bytes_u32(outline.last().1)
    }
}

/// Folding two byte runs one after the other folds their concatenation.
pub proof fn lemma_fnv_fold_concat(state: u64, a: Seq<u8>, b: Seq<u8>)
    ensures
        fnv_fold(fnv_fold(state, a), b) == fnv_fold(state, a + b),
    decreases b.len(),
{
    if b.len() > 0 {
        lemma_fnv_fold_concat(state, a, b.drop_last());
        assert((a + b).drop_last() =~= a + b.drop_last());
        assert((a + b).last() == b.last());
    } else {
        assert(a + b =~= a);
    }
}

/// The cache key of one piece frame over the vector data with fingerprint
/// `surface`: the frame's origin and assembled size and its outline points,
/// given as `f32` bit patterns, hashed with FNV-1a.
pub fn piece_cache_key(surface: u64, frame: [u32; 4], outline: &Vec<(u32, u32)>) -> (key: PieceCacheKey)
    ensures
        key.surface == surface,
        key.piece == fnv_fold(FNV_OFFSET, piece_frame_bytes(frame@, outline@)),
{
    let mut piece = FNV_OFFSET;
    let mut i: usize = 0;
    while i < 4
        invariant
            i <= 4,
            piece == fnv_fold(FNV_OFFSET, frame_prefix(frame@, i as int)),
        decreases 4 - i,
    {
        let ghost before = piece;
        hash_u32(&mut piece, frame[i]);
        proof {
            lemma_fnv_fold_concat(FNV_OFFSET, frame_prefix(frame@, i as int), le_bytes_u32(frame@[i as int]));
        }
        i = i + 1;
    }
    let ghost head = frame_prefix(frame@, 4);
    let count = outline.len() as u64;
    hash_u64(&mut piece, count);
    proof {
        lemma_fnv_fold_concat(FNV_OFFSET, head, le_bytes_u64(count));
    }
    let ghost lead = head + le_bytes_u64(count);
    let mut j: usize = 0;
    while j < outline.len()
        invariant
            j <= outline@.len(),
            piece == fnv_fold(FNV_OFFSET, lead + outline_bytes(outline@.subrange(0, j as int))),
        decreases outline@.len() - j,
    {
        let point = outline[j];
        let ghost done = lead + outline_bytes(outline@.subrange(0, j as int));
        hash_u32(&mut piece, point.0);
        proof {
            lemma_fnv_fold_concat(FNV_OFFSET, done, le_bytes_u32(point.0));
        }
        hash_u32(&mut piece, point.1);
        proof {
            lemma_fnv_fold_concat(FNV_OFFSET, done + le_bytes_u32(point.0), le_bytes_u32(point.1));
            let next = outline@.subrange(0, j + 1);
            assert(next.drop_last() =~= outline@.subrange(0, j as int));
            assert(next.last() == point);
            assert(done + le_bytes_u32(point.0) + le_bytes_u32(point.1) =~= lead + outline_bytes(next));
        }
        j = j + 1;
    }
    proof {
        assert(outline@.subrange(0, j as int) =~= outline@);
        assert(head =~= le_bytes_u32(frame@[0]) + le_bytes_u32(frame@[1]) + le_bytes_u32(frame@[2]) + le_bytes_u32(
            frame@[3],
        )) by {
            reveal_with_fuel(frame_prefix, 5);
        }
        assert(lead + outline_bytes(outline@) =~= piece_frame_bytes(frame@, outline@));
    }
    PieceCacheKey { surface, piece }
}

/// The bit patterns of the first `n` frame values.
pub open spec fn frame_prefix(frame: Seq<u32>, n: int) -> Seq<u8>
    decreases n,
{
    if n <= 0 {
        Seq::empty()
    } else {
        frame_prefix(frame, n - 1) + le_bytes_u32(frame[n - 1])
    }
}

} // verus!
