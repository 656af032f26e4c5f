//! The memo table: the result of a range scan, kept under the family and
//! the ordered range, so that a scan is made once and then handed out
//! again unchanged.

use vstd::prelude::*;
use vstd::rwlock::{RwLock, RwLockPredicate};
use crate::primes::{calculate_family, range_hits, texts, PrimeType};

verus! {

/// What a result is kept under: the family and the range, lower end
/// first.
pub type CacheKey = (PrimeType, u64, u64);

/// The key of a request: the two ends are put in order, so that a request
/// and the same request with its ends exchanged have one key.
pub open spec fn normalized(kind: PrimeType, a: u64, b: u64) -> CacheKey {
    if a > b {
        (kind, b, a)
    } else {
        (kind, a, b)
    }
}

/// What a fresh scan under the key `key` yields.
pub open spec fn key_hits(key: CacheKey) -> Seq<Seq<char>> {
    range_hits(key.0, key.1 as nat, key.2 as nat)
}

/// What a request is answered with, from the table or from a fresh scan:
/// the hits of the family in the ordered range.
pub open spec fn memo_result(kind: PrimeType, a: u64, b: u64) -> Seq<Seq<char>> {
    key_hits(normalized(kind, a, b))
}

/// The table after a request: the table before it, with the answer under
/// the request's key.
pub open spec fn memo_after(
    table: Map<CacheKey, Seq<Seq<char>>>,
    kind: PrimeType,
    a: u64,
    b: u64,
) -> Map<CacheKey, Seq<Seq<char>>> {
    table.insert(normalized(kind, a, b), memo_result(kind, a, b))
}

/// Every key of the table is an ordered range, and holds what a fresh
/// scan under it yields.
pub open spec fn table_sound(table: Map<CacheKey, Seq<Seq<char>>>) -> bool {
    forall|key: CacheKey| #[trigger]
        table.contains_key(key) ==> key.1 <= key.2 && table[key] == key_hits(key)
}

/// One kept result.
struct CacheEntry {
    kind: PrimeType,
    start: u64,
    end: u64,
    found: Vec<String>,
}

/// The memo table. It holds each key at most once, and under each key
/// what a fresh scan yields.
pub struct MemoCache {
    entries: Vec<CacheEntry>,
    table: Ghost<Map<CacheKey, Seq<Seq<char>>>>,
}

/// The key of an entry.
spec fn entry_key(e: CacheEntry) -> CacheKey {
    (e.kind, e.start, e.end)
}

impl View for MemoCache {
    type V = Map<CacheKey, Seq<Seq<char>>>;

    /// The table as a map from keys to the texts kept under them.
    closed spec fn view(&self) -> Map<CacheKey, Seq<Seq<char>>> {
        self.table@
    }
}

impl MemoCache {
    #[verifier::type_invariant]
    spec fn well_formed(self) -> bool {
        &&& self.table@.dom().finite()
        &&& self.table@.dom().len() == self.entries@.len()
        &&& forall|i: int|
            0 <= i < self.entries@.len() ==> {
                let e = #[trigger] self.entries@[i];
                &&& e.start <= e.end
                &&& texts(e.found@) == key_hits(entry_key(e))
                &&& self.table@.contains_key(entry_key(e))
                &&& self.table@[entry_key(e)] == texts(e.found@)
            }
        &&& forall|key: CacheKey| #[trigger]
            self.table@.contains_key(key) ==> exists|i: int|
                0 <= i < self.entries@.len() && entry_key(#[trigger] self.entries@[i]) == key
    }

    /// An empty table.
    pub fn new() -> (cache: MemoCache)
        ensures
            cache@ == Map::<CacheKey, Seq<Seq<char>>>::empty(),
    {
        MemoCache { entries: Vec::new(), table: Ghost(Map::empty()) }
    }

    /// The place of the entry under the key, if the table holds one.
    fn find(&self, kind: PrimeType, start: u64, end: u64) -> (place: Option<usize>)
        ensures
            match place {
                Some(i) => i < self.entries@.len() && entry_key(self.entries@[i as int]) == (
                    kind,
                    start,
                    end,
                ),
                None => !self@.contains_key((kind, start, end)),
            },
    {
        proof {
            use_type_invariant(self);
        }
        let mut i: usize = 0;
        while i < self.entries.len()
            invariant
                0 <= i <= self.entries@.len(),
                forall|j: int|
                    0 <= j < i ==> entry_key(#[trigger] self.entries@[j]) != (kind, start, end),
            decreases self.entries@.len() - i,
        {
            let e = &self.entries[i];
            if e.kind == kind && e.start == start && e.end == end {
                return Some(i);
            }
            i = i + 1;
        }
        None
    }

    /// The table with one more entry, under a key that it did not hold.
    fn with_entry(self, entry: CacheEntry) -> (cache: MemoCache)
        requires
            !self@.contains_key(entry_key(entry)),
            entry.start <= entry.end,
            texts(entry.found@) == key_hits(entry_key(entry)),
        ensures
            cache@ == self@.insert(entry_key(entry), key_hits(entry_key(entry))),
            cache.entries@ == self.entries@.push(entry),
    {
        proof {
            use_type_invariant(&self);
        }
        let ghost key = entry_key(entry);
        let ghost after = self.table@.insert(key, texts(entry.found@));
        let ghost before = self.entries@;
        let mut entries = self.entries;
        entries.push(entry);
        proof {
            assert forall|i: int| 0 <= i < entries@.len() implies {
                let e = #[trigger] entries@[i];
                &&& e.start <= e.end
                &&& texts(e.found@) == key_hits(entry_key(e))
                &&& after.contains_key(entry_key(e))
                &&& after[entry_key(e)] == texts(e.found@)
            } by {
                if i < before.len() {
                    assert(entries@[i] == before[i]);
                }
            }
            assert forall|k: CacheKey| #[trigger] after.contains_key(k) implies exists|i: int|
                0 <= i < entries@.len() && entry_key(#[trigger] entries@[i]) == k by {
                if k == key {
                    assert(entry_key(entries@[before.len() as int]) == k);
                } else {
                    let i = choose|i: int|
                        0 <= i < before.len() && entry_key(#[trigger] before[i]) == k;
                    assert(entry_key(entries@[i]) == k);
                }
            }
        }
        MemoCache { entries, table: Ghost(after) }
    }
}

/// A copy of the strings.
fn clone_strings(v: &Vec<String>) -> (copy: Vec<String>)
    ensures
        copy@ == v@,
{
    let mut copy: Vec<String> = Vec::new();
    let mut i: usize = 0;
    while i < v.len()
        invariant
            0 <= i <= v.len(),
            copy@ == v@.subrange(0, i as int),
        decreases v.len() - i,
    {
        copy.push(v[i].clone());
        proof {
            assert(copy@ =~= v@.subrange(0, i + 1));
        }
        i = i + 1;
    }
    proof {
        assert(v@.subrange(0, i as int) =~= v@);
    }
    copy
}

/// The number of keys that the table holds.
pub fn cache_stats(cache: &MemoCache) -> (count: usize)
    ensures
        cache@.dom().finite(),
        count == cache@.dom().len(),
        table_sound(cache@),
{
    proof {
        use_type_invariant(cache);
    }
    cache.entries.len()
}

/// Answers a request for the hits of the family `ty` between `start` and
/// `end`, whichever of the two is the lower. A request whose key the
/// table holds is answered with what is kept, and the table stays as it
/// is. Any other is answered with a fresh scan, which is then kept: the
/// table gains exactly that key.
pub fn compute_with_memo(cache: &mut MemoCache, ty: PrimeType, start: u64, end: u64) -> (found:
    Vec<String>)
    ensures
        texts(found@) == memo_result(ty, start, end),
        final(cache)@ == memo_after(old(cache)@, ty, start, end),
        old(cache)@.contains_key(normalized(ty, start, end)) ==> {
            &&& final(cache)@ == old(cache)@
            &&& texts(found@) == old(cache)@[normalized(ty, start, end)]
        },
        final(cache)@.dom().finite(),
        final(cache)@.dom().len() == old(cache)@.dom().len() + if old(cache)@.contains_key(
            normalized(ty, start, end),
        ) {
            0int
        } else {
            1int
        },
        table_sound(final(cache)@),
{
    let (low, high) = if start > end {
        (end, start)
    } else {
        (start, end)
    };
    proof {
        use_type_invariant(&*cache);
    }
    match cache.find(ty, low, high) {
        Some(i) => {
            proof {
                assert(cache@ =~= memo_after(cache@, ty, start, end));
            }
            clone_strings(&cache.entries[i].found)
        },
        None => {
            let found = calculate_family(ty, low, high);
            let copy = clone_strings(&found);
            let mut taken = MemoCache::new();
            core::mem::swap(cache, &mut taken);
            *cache = taken.with_entry(CacheEntry { kind: ty, start: low, end: high, found });
            copy
        },
    }
}

/// What the lock of a shared table lets in: every table, since a table
/// is sound by its own invariant.
pub struct AnyTable;

impl RwLockPredicate<MemoCache> for AnyTable {
    open spec fn inv(self, table: MemoCache) -> bool {
        true
    }
}

/// A memo table that many callers share. One lock guards the whole
/// table, and a scan that the table lacks is made while the lock is held:
/// requests are answered one after the other, and no request ever sees a
/// table that is half written.
pub struct SharedMemo {
    lock: RwLock<MemoCache, AnyTable>,
}

impl SharedMemo {
    /// A shared table that holds nothing yet.
    pub fn new() -> (shared: SharedMemo) {
        SharedMemo { lock: RwLock::new(MemoCache::new(), Ghost(AnyTable)) }
    }

    /// Answers a request as [`compute_with_memo`] does, on the table as
    /// it is when the lock is won. Whatever other callers have asked, the
    /// answer is what a fresh scan of the ordered range yields.
    pub fn compute_with_memo(&self, ty: PrimeType, start: u64, end: u64) -> (found: Vec<String>)
        ensures
            texts(found@) == memo_result(ty, start, end),
    {
        let (mut cache, handle) = self.lock.acquire_write();
        let found = compute_with_memo(&mut cache, ty, start, end);
        handle.release_write(cache);
        found
    }

    /// The number of keys that the table holds when the lock is won.
    pub fn cache_stats(&self) -> (count: usize) {
        let handle = self.lock.acquire_read();
        let count = cache_stats(handle.borrow());
        handle.release_read();
        count
    }
}

/// The order of the two ends does not matter: a request and the same
/// request with its ends exchanged have one key and one answer.
pub proof fn lemma_range_order_invariance(kind: PrimeType, a: u64, b: u64)
    ensures
        normalized(kind, a, b) == normalized(kind, b, a),
        memo_result(kind, a, b) == memo_result(kind, b, a),
        forall|table: Map<CacheKey, Seq<Seq<char>>>| #[trigger]
            memo_after(table, kind, a, b) == memo_after(table, kind, b, a),
{
}

/// A range whose two ends are equal has no hits, for every family.
pub proof fn lemma_empty_range(kind: PrimeType, n: u64)
    ensures
        memo_result(kind, n, n) == Seq::<Seq<char>>::empty(),
{
}

/// Asking twice is asking once: the second of two equal requests gets the
/// answer of the first, and leaves the table, and with it the number of
/// keys, as the first left it.
pub proof fn lemma_memo_idempotent(
    table: Map<CacheKey, Seq<Seq<char>>>,
    kind: PrimeType,
    a: u64,
    b: u64,
)
    ensures
        memo_after(table, kind, a, b).contains_key(normalized(kind, a, b)),
        memo_after(table, kind, a, b)[normalized(kind, a, b)] == memo_result(kind, a, b),
        memo_after(memo_after(table, kind, a, b), kind, a, b) == memo_after(table, kind, a, b),
        memo_after(memo_after(table, kind, a, b), kind, a, b).dom().len() == memo_after(
            table,
            kind,
            a,
            b,
        ).dom().len(),
{
    assert(memo_after(memo_after(table, kind, a, b), kind, a, b) =~= memo_after(
        table,
        kind,
        a,
        b,
    ));
}

/// The number of keys grows by exactly one on a request whose key the
/// table does not hold, and stays on one whose key it holds.
pub proof fn lemma_memo_growth(
    table: Map<CacheKey, Seq<Seq<char>>>,
    kind: PrimeType,
    a: u64,
    b: u64,
)
    requires
        table.dom().finite(),
    ensures
        memo_after(table, kind, a, b).dom().finite(),
        table.contains_key(normalized(kind, a, b)) ==> memo_after(table, kind, a, b).dom().len()
            == table.dom().len(),
        !table.contains_key(normalized(kind, a, b)) ==> memo_after(table, kind, a, b).dom().len()
            == table.dom().len() + 1,
{
}

/// A request keeps a sound table sound: what is kept under every key is
/// what a fresh scan under it yields.
pub proof fn lemma_memo_sound(
    table: Map<CacheKey, Seq<Seq<char>>>,
    kind: PrimeType,
    a: u64,
    b: u64,
)
    requires
        table_sound(table),
    ensures
        table_sound(memo_after(table, kind, a, b)),
{
}

} // verus!
