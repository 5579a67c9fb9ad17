//! The ordered, bounded transaction pool.
//!
//! [`TransactionQueue`] holds at most `limit` entries, at most one per
//! (sender, nonce), each with a fee at or above `minimal_fee`. Entries are
//! partitioned into *pending* (nonce contiguous from the sender's on-chain
//! nonce at admission time) and *future* (behind a nonce gap). Admission
//! replaces a same-(sender, nonce) entry only for a strictly higher fee, and
//! evicts the lowest-(fee, age) entry when the pool would overflow.

use vstd::prelude::*;

use crate::types::AccountDetails;
use crate::types::Error;
use crate::types::SignedTransaction;
use crate::types::TransactionImportResult;
use crate::types::TransactionOrigin;

verus! {

/// Chain-state accessor handed to [`TransactionQueue::add`]: the current
/// nonce and balance of an account, fetched fresh for every admission.
pub trait TransactionDetailsProvider {
    /// The account state this provider reports, as a mathematical function.
    spec fn account_details(&self, address: u64) -> AccountDetails;

    /// Fetch the current nonce and balance of `address`.
    fn fetch_account(&self, address: u64) -> (r: AccountDetails)
        ensures
            r == self.account_details(address),
    ;
}

/// One admitted transaction with its pool-local metadata.
#[derive(Clone, Copy, Debug, PartialEq, Eq, Structural)]
pub struct PoolEntry {
    pub tx: SignedTransaction,
    pub origin: TransactionOrigin,
    /// Monotonic admission counter; the FIFO tie-break of the fee order.
    pub insertion_seq: u64,
    /// Best block number when the entry was admitted.
    pub insertion_time: u64,
    /// True for the pending partition, false for the future partition.
    pub is_pending: bool,
}

/// Counts of the two partitions.
#[derive(Clone, Copy, Debug, PartialEq, Eq, Structural)]
pub struct TransactionQueueStatus {
    pub pending: usize,
    pub future: usize,
}

/// Whether some entry of `s` occupies the (sender, nonce) slot.
pub open spec fn has_slot(s: Seq<PoolEntry>, sender: u64, nonce: u64) -> bool {
    exists|i: int|
        0 <= i < s.len() && s[i].tx.sender == sender && s[i].tx.nonce == nonce
}

/// The index occupying the (sender, nonce) slot; meaningful only when
/// `has_slot` holds and slots are unique.
pub open spec fn slot_idx(s: Seq<PoolEntry>, sender: u64, nonce: u64) -> int {
    choose|i: int| 0 <= i < s.len() && s[i].tx.sender == sender && s[i].tx.nonce == nonce
}

/// `a` ranks no higher than `b` in the eviction order: lower fee first,
/// ties broken towards the older (smaller insertion sequence) entry.
pub open spec fn rank_le(a: PoolEntry, b: PoolEntry) -> bool {
    ||| a.tx.fee < b.tx.fee
    ||| (a.tx.fee == b.tx.fee && a.insertion_seq <= b.insertion_seq)
}

/// `i` indexes an entry that every entry of `s` outranks or equals.
pub open spec fn is_min_rank(s: Seq<PoolEntry>, i: int) -> bool {
    &&& 0 <= i < s.len()
    &&& forall|j: int| 0 <= j < s.len() ==> rank_le(s[i], #[trigger] s[j])
}

/// The index of the lowest-ranked entry; unique when insertion sequences are.
pub open spec fn min_rank_idx(s: Seq<PoolEntry>) -> int {
    choose|i: int| is_min_rank(s, i)
}

/// Sum of the fees of `sender`'s entries.
pub open spec fn fee_sum(s: Seq<PoolEntry>, sender: u64) -> int
    decreases s.len(),
{
    if s.len() == 0 {
        0
    } else {
        fee_sum(s.drop_last(), sender) + if s.last().tx.sender == sender {
            s.last().tx.fee as int
        } else {
            0
        }
    }
}

/// Every nonce from `base` up to (excluding) `target` is held for `sender`,
/// and `target` is not below `base`: the entry at `target` is immediately
/// executable in sequence.
pub open spec fn contiguous_from(s: Seq<PoolEntry>, sender: u64, base: u64, target: u64) -> bool {
    &&& target >= base
    &&& forall|m: u64| base <= m < target ==> has_slot(s, sender, m)
}

/// `s` with the partition flag of every entry of `sender` recomputed against
/// the on-chain nonce `base`.
pub open spec fn repartition_sender(s: Seq<PoolEntry>, sender: u64, base: u64) -> Seq<PoolEntry> {
    Seq::new(
        s.len(),
        |i: int|
            if s[i].tx.sender == sender {
                PoolEntry {
                    tx: s[i].tx,
                    origin: s[i].origin,
                    insertion_seq: s[i].insertion_seq,
                    insertion_time: s[i].insertion_time,
                    is_pending: contiguous_from(s, sender, base, s[i].tx.nonce),
                }
            } else {
                s[i]
            },
    )
}

/// `s` with every entry of `sender` above `nonce` demoted to the future
/// partition: removing the entry at `nonce` opened a gap below them.
pub open spec fn demote_after(s: Seq<PoolEntry>, sender: u64, nonce: u64) -> Seq<PoolEntry> {
    Seq::new(
        s.len(),
        |i: int|
            if s[i].tx.sender == sender && s[i].tx.nonce > nonce {
                PoolEntry {
                    tx: s[i].tx,
                    origin: s[i].origin,
                    insertion_seq: s[i].insertion_seq,
                    insertion_time: s[i].insertion_time,
                    is_pending: false,
                }
            } else {
                s[i]
            },
    )
}

/// Entry-list soundness: slots and admission counters are unique, counters
/// stay below the next one to be handed out, fees respect the floor.
pub open spec fn entries_sound(s: Seq<PoolEntry>, minimal_fee: u64, next_seq: u64) -> bool {
    &&& forall|i: int, j: int|
        0 <= i < j < s.len() ==> !(#[trigger] s[i].tx.sender == #[trigger] s[j].tx.sender
            && s[i].tx.nonce == s[j].tx.nonce)
    &&& forall|i: int, j: int|
        0 <= i < j < s.len() ==> #[trigger] s[i].insertion_seq != #[trigger] s[j].insertion_seq
    &&& forall|i: int| 0 <= i < s.len() ==> #[trigger] s[i].insertion_seq < next_seq
    &&& forall|i: int| 0 <= i < s.len() ==> #[trigger] s[i].tx.fee >= minimal_fee
}

/// The internal invariant of the pool's entry list.
pub open spec fn wf_entries(s: Seq<PoolEntry>, minimal_fee: u64, limit: usize, next_seq: u64) -> bool {
    &&& s.len() <= limit
    &&& entries_sound(s, minimal_fee, next_seq)
}

/// The ordered, bounded pool of admitted transactions.
pub struct TransactionQueue {
    pub entries: Vec<PoolEntry>,
    pub minimal_fee: u64,
    pub limit: usize,
    pub next_seq: u64,
}

impl TransactionQueue {
    /// The pool's invariant; established by [`TransactionQueue::new`] and
    /// preserved by every operation.
    pub open spec fn wf(&self) -> bool {
        wf_entries(self.entries@, self.minimal_fee, self.limit, self.next_seq)
    }

    /// An empty pool with the given capacity and fee floor.
    pub fn new(limit: usize, minimal_fee: u64) -> (q: TransactionQueue)
        ensures
            q.wf(),
            q.entries@ == Seq::<PoolEntry>::empty(),
            q.minimal_fee == minimal_fee,
            q.limit == limit,
            q.next_seq == 0,
    {
        let q = TransactionQueue { entries: Vec::new(), minimal_fee, limit, next_seq: 0 };
        proof {
            assert(q.entries@ =~= Seq::<PoolEntry>::empty());
        }
        q
    }

    /// The dynamic fee floor.
    pub fn minimal_fee(&self) -> (r: u64)
        ensures
            r == self.minimal_fee,
    {
        self.minimal_fee
    }

    /// The capacity bound.
    pub fn limit(&self) -> (r: usize)
        ensures
            r == self.limit,
    {
        self.limit
    }
}

/// Whether some entry of `v` occupies the (sender, nonce) slot.
fn has_slot_exec(v: &Vec<PoolEntry>, sender: u64, nonce: u64) -> (r: bool)
    ensures
        r == has_slot(v@, sender, nonce),
{
    let mut i: usize = 0;
    while i < v.len()
        invariant
            i <= v.len(),
            forall|j: int| 0 <= j < i ==> !(v@[j].tx.sender == sender && #[trigger] v@[j].tx.nonce == nonce),
        decreases v.len() - i,
    {
        if v[i].tx.sender == sender && v[i].tx.nonce == nonce {
            return true;
        }
        i += 1;
    }
    false
}

/// The index occupying the (sender, nonce) slot, when slots are unique.
fn find_slot(v: &Vec<PoolEntry>, sender: u64, nonce: u64) -> (r: Option<usize>)
    requires
        forall|i: int, j: int|
            0 <= i < j < v@.len() ==> !(#[trigger] v@[i].tx.sender == #[trigger] v@[j].tx.sender
                && v@[i].tx.nonce == v@[j].tx.nonce),
    ensures
        match r {
            Some(i) => has_slot(v@, sender, nonce) && i < v@.len() && i == slot_idx(v@, sender, nonce)
                && v@[i as int].tx.sender == sender && v@[i as int].tx.nonce == nonce,
            None => !has_slot(v@, sender, nonce),
        },
{
    let mut i: usize = 0;
    while i < v.len()
        invariant
            i <= v.len(),
            forall|j: int| 0 <= j < i ==> !(v@[j].tx.sender == sender && #[trigger] v@[j].tx.nonce == nonce),
            forall|a: int, b: int|
                0 <= a < b < v@.len() ==> !(#[trigger] v@[a].tx.sender == #[trigger] v@[b].tx.sender
                    && v@[a].tx.nonce == v@[b].tx.nonce),
        decreases v.len() - i,
    {
        if v[i].tx.sender == sender && v[i].tx.nonce == nonce {
            proof {
                let w = slot_idx(v@, sender, nonce);
                assert(0 <= w < v@.len() && v@[w].tx.sender == sender && v@[w].tx.nonce == nonce);
                if w != i {
                    if w < i {
                        assert(!(v@[w].tx.sender == v@[i as int].tx.sender
                            && v@[w].tx.nonce == v@[i as int].tx.nonce));
                    } else {
                        assert(!(v@[i as int].tx.sender == v@[w].tx.sender
                            && v@[i as int].tx.nonce == v@[w].tx.nonce));
                    }
                }
            }
            return Some(i);
        }
        i += 1;
    }
    None
}

/// The index of the lowest-(fee, age) entry: the eviction candidate.
fn min_rank_index(v: &Vec<PoolEntry>) -> (m: usize)
    requires
        v@.len() > 0,
        forall|i: int, j: int|
            0 <= i < j < v@.len() ==> #[trigger] v@[i].insertion_seq != #[trigger] v@[j].insertion_seq,
    ensures
        is_min_rank(v@, m as int),
        m as int == min_rank_idx(v@),
{
    let mut m: usize = 0;
    let mut i: usize = 1;
    while i < v.len()
        invariant
            m < i <= v.len(),
            v@.len() > 0,
            forall|j: int| 0 <= j < i ==> rank_le(v@[m as int], #[trigger] v@[j]),
        decreases v.len() - i,
    {
        let c = &v[i];
        let b = &v[m];
        if c.tx.fee < b.tx.fee || (c.tx.fee == b.tx.fee && c.insertion_seq < b.insertion_seq) {
            m = i;
        }
        i += 1;
    }
    proof {
        assert(is_min_rank(v@, m as int));
        let w = min_rank_idx(v@);
        assert(is_min_rank(v@, w));
        if w != m {
            assert(rank_le(v@[w], v@[m as int]));
            assert(rank_le(v@[m as int], v@[w]));
            if w < m {
                assert(v@[w].insertion_seq != v@[m as int].insertion_seq);
            } else {
                assert(v@[m as int].insertion_seq != v@[w].insertion_seq);
            }
        }
    }
    m
}

/// Sum of the fees of `sender`'s entries; fits in 128 bits.
fn sender_fee_sum(v: &Vec<PoolEntry>, sender: u64) -> (s: u128)
    ensures
        s == fee_sum(v@, sender),
{
    let mut s: u128 = 0;
    let mut i: usize = 0;
    proof {
        lemma_fee_sum_bounds(v@.take(0), sender);
        assert(v@.take(0) =~= Seq::<PoolEntry>::empty());
    }
    while i < v.len()
        invariant
            i <= v.len(),
            s == fee_sum(v@.take(i as int), sender),
            s <= i * (u64::MAX as int),
        decreases v.len() - i,
    {
        proof {
            assert(v@.take(i as int + 1).drop_last() =~= v@.take(i as int));
            assert(v@.take(i as int + 1).last() == v@[i as int]);
            assert((i + 1) * (u64::MAX as int) == i * (u64::MAX as int) + u64::MAX) by (nonlinear_arith);
        }
        if v[i].tx.sender == sender {
            s = s + v[i].tx.fee as u128;
        }
        i += 1;
    }
    proof {
        assert(v@.take(v@.len() as int) =~= v@);
    }
    s
}

/// Fee sums are nonnegative and at most `len * u64::MAX`.
proof fn lemma_fee_sum_bounds(s: Seq<PoolEntry>, sender: u64)
    ensures
        0 <= fee_sum(s, sender) <= s.len() * (u64::MAX as int),
    decreases s.len(),
{
    if s.len() == 0 {
    } else {
        lemma_fee_sum_bounds(s.drop_last(), sender);
        assert((s.len() - 1) * (u64::MAX as int) + (u64::MAX as int) == s.len() * (u64::MAX as int))
            by (nonlinear_arith);
    }
}

/// Whether every nonce from `base` below `target` is held for `sender`.
fn is_contiguous(v: &Vec<PoolEntry>, sender: u64, base: u64, target: u64) -> (r: bool)
    ensures
        r == contiguous_from(v@, sender, base, target),
{
    if target < base {
        return false;
    }
    let mut m: u64 = base;
    while m < target
        invariant
            base <= m <= target,
            forall|k: u64| base <= k < m ==> has_slot(v@, sender, k),
        decreases target - m,
    {
        if !has_slot_exec(v, sender, m) {
            return false;
        }
        m += 1;
    }
    true
}

/// Slot occupancy depends only on the (sender, nonce) pairs of the entries.
proof fn lemma_same_pairs(s1: Seq<PoolEntry>, s2: Seq<PoolEntry>)
    requires
        s1.len() == s2.len(),
        forall|i: int| #![trigger s1[i], s2[i]]
            0 <= i < s1.len() ==> s1[i].tx.sender == s2[i].tx.sender && s1[i].tx.nonce
                == s2[i].tx.nonce,
    ensures
        forall|sender: u64, nonce: u64|
            #![trigger has_slot(s1, sender, nonce)]
            #![trigger has_slot(s2, sender, nonce)]
            has_slot(s1, sender, nonce) == has_slot(s2, sender, nonce),
{
    assert forall|sender: u64, nonce: u64|
        #[trigger] has_slot(s1, sender, nonce) == has_slot(s2, sender, nonce) by {
        if has_slot(s1, sender, nonce) {
            let i = choose|i: int|
                0 <= i < s1.len() && s1[i].tx.sender == sender && s1[i].tx.nonce == nonce;
            assert(s1[i].tx.sender == s2[i].tx.sender && s1[i].tx.nonce == s2[i].tx.nonce);
            assert(s2[i].tx.sender == sender && s2[i].tx.nonce == nonce);
        }
        if has_slot(s2, sender, nonce) {
            let i = choose|i: int|
                0 <= i < s2.len() && s2[i].tx.sender == sender && s2[i].tx.nonce == nonce;
            assert(s1[i].tx.sender == s2[i].tx.sender && s1[i].tx.nonce == s2[i].tx.nonce);
            assert(s1[i].tx.sender == sender && s1[i].tx.nonce == nonce);
        }
    }
}

/// Nonce contiguity depends only on the (sender, nonce) pairs of the entries.
proof fn lemma_same_pairs_contiguous(
    s1: Seq<PoolEntry>,
    s2: Seq<PoolEntry>,
    sender: u64,
    base: u64,
    target: u64,
)
    requires
        s1.len() == s2.len(),
        forall|i: int| #![trigger s1[i], s2[i]]
            0 <= i < s1.len() ==> s1[i].tx.sender == s2[i].tx.sender && s1[i].tx.nonce
                == s2[i].tx.nonce,
    ensures
        contiguous_from(s1, sender, base, target) == contiguous_from(s2, sender, base, target),
{
    lemma_same_pairs(s1, s2);
    if contiguous_from(s1, sender, base, target) {
        assert forall|m: u64| base <= m < target implies has_slot(s2, sender, m) by {
            assert(has_slot(s1, sender, m));
        }
    }
    if contiguous_from(s2, sender, base, target) {
        assert forall|m: u64| base <= m < target implies has_slot(s1, sender, m) by {
            assert(has_slot(s2, sender, m));
        }
    }
}

/// A sender's fee sum covers each single entry of that sender.
proof fn lemma_fee_sum_member(s: Seq<PoolEntry>, sender: u64, i: int)
    requires
        0 <= i < s.len(),
        s[i].tx.sender == sender,
    ensures
        fee_sum(s, sender) >= s[i].tx.fee,
    decreases s.len(),
{
    lemma_fee_sum_bounds(s.drop_last(), sender);
    if i < s.len() - 1 {
        lemma_fee_sum_member(s.drop_last(), sender, i);
    }
}

/// The fee budget `sender` must cover if `tx` is admitted: the fees of its
/// held entries, minus a replaced entry's fee, plus the incoming fee.
pub open spec fn balance_needed(s: Seq<PoolEntry>, tx: SignedTransaction) -> int {
    if has_slot(s, tx.sender, tx.nonce) {
        fee_sum(s, tx.sender) - s[slot_idx(s, tx.sender, tx.nonce)].tx.fee + tx.fee
    } else {
        fee_sum(s, tx.sender) + tx.fee
    }
}

/// Pool contents directly after placing `tx`, before partition flags are
/// recomputed: replacement in place, or append — evicting the lowest-ranked
/// entry and demoting what stood behind it when the pool is full.
pub open spec fn inserted_entries(
    s: Seq<PoolEntry>,
    limit: usize,
    next_seq: u64,
    insertion_time: u64,
    origin: TransactionOrigin,
    tx: SignedTransaction,
) -> Seq<PoolEntry> {
    let e = PoolEntry {
        tx: tx,
        origin: origin,
        insertion_seq: next_seq,
        insertion_time: insertion_time,
        is_pending: false,
    };
    if has_slot(s, tx.sender, tx.nonce) {
        s.update(slot_idx(s, tx.sender, tx.nonce), e)
    } else if s.len() >= limit {
        let m = min_rank_idx(s);
        demote_after(s.remove(m).push(e), s[m].tx.sender, s[m].tx.nonce)
    } else {
        s.push(e)
    }
}

/// The admission verdict, checked in this order: fee floor, duplicate or
/// underpriced replacement, capacity, balance; an accepted transaction lands
/// in the pending partition exactly when its nonce sits in a contiguous run
/// from the sender's on-chain nonce.
pub open spec fn add_decision(
    s: Seq<PoolEntry>,
    minimal_fee: u64,
    limit: usize,
    next_seq: u64,
    insertion_time: u64,
    origin: TransactionOrigin,
    tx: SignedTransaction,
    d: AccountDetails,
) -> Result<TransactionImportResult, Error> {
    if tx.fee < minimal_fee {
        Err(Error::InsufficientFee)
    } else if has_slot(s, tx.sender, tx.nonce) && s[slot_idx(s, tx.sender, tx.nonce)].tx.hash
        == tx.hash {
        Err(Error::AlreadyImported)
    } else if has_slot(s, tx.sender, tx.nonce) && s[slot_idx(s, tx.sender, tx.nonce)].tx.fee
        >= tx.fee {
        Err(Error::TooCheapToReplace)
    } else if !has_slot(s, tx.sender, tx.nonce) && s.len() >= limit && (s.len() == 0 || tx.fee
        <= s[min_rank_idx(s)].tx.fee) {
        Err(Error::LimitReached)
    } else if balance_needed(s, tx) > d.balance {
        Err(Error::InsufficientBalance)
    } else {
        let placed = inserted_entries(s, limit, next_seq, insertion_time, origin, tx);
        if contiguous_from(placed, tx.sender, d.nonce, tx.nonce) {
            Ok(TransactionImportResult::Current)
        } else {
            Ok(TransactionImportResult::Future)
        }
    }
}

/// Pool contents after an admission attempt: unchanged on rejection,
/// otherwise the placed entries with the sender's partition recomputed
/// against its on-chain nonce.
pub open spec fn add_entries(
    s: Seq<PoolEntry>,
    minimal_fee: u64,
    limit: usize,
    next_seq: u64,
    insertion_time: u64,
    origin: TransactionOrigin,
    tx: SignedTransaction,
    d: AccountDetails,
) -> Seq<PoolEntry> {
    if add_decision(s, minimal_fee, limit, next_seq, insertion_time, origin, tx, d).is_err() {
        s
    } else {
        repartition_sender(
            inserted_entries(s, limit, next_seq, insertion_time, origin, tx),
            tx.sender,
            d.nonce,
        )
    }
}

impl TransactionQueue {
    /// Demote every entry of `sender` above `nonce` to the future partition.
    fn demote(&mut self, sender: u64, nonce: u64)
        ensures
            final(self).entries@ == demote_after(old(self).entries@, sender, nonce),
            final(self).minimal_fee == old(self).minimal_fee,
            final(self).limit == old(self).limit,
            final(self).next_seq == old(self).next_seq,
    {
        let n = self.entries.len();
        let mut i: usize = 0;
        while i < n
            invariant
                i <= n,
                n == self.entries@.len(),
                n == old(self).entries@.len(),
                self.minimal_fee == old(self).minimal_fee,
                self.limit == old(self).limit,
                self.next_seq == old(self).next_seq,
                forall|j: int| i <= j < n ==> self.entries@[j] == old(self).entries@[j],
                forall|j: int|
                    0 <= j < i ==> self.entries@[j] == demote_after(old(self).entries@, sender, nonce)[j],
            decreases n - i,
        {
            let e = self.entries[i];
            if e.tx.sender == sender && e.tx.nonce > nonce {
                self.entries.set(
                    i,
                    PoolEntry {
                        tx: e.tx,
                        origin: e.origin,
                        insertion_seq: e.insertion_seq,
                        insertion_time: e.insertion_time,
                        is_pending: false,
                    },
                );
            }
            i += 1;
        }
        proof {
            assert(self.entries@ =~= demote_after(old(self).entries@, sender, nonce));
        }
    }

    /// Recompute the partition flag of every entry of `sender` against the
    /// on-chain nonce `base`.
    fn repartition(&mut self, sender: u64, base: u64)
        ensures
            final(self).entries@ == repartition_sender(old(self).entries@, sender, base),
            final(self).minimal_fee == old(self).minimal_fee,
            final(self).limit == old(self).limit,
            final(self).next_seq == old(self).next_seq,
    {
        let n = self.entries.len();
        let mut i: usize = 0;
        while i < n
            invariant
                i <= n,
                n == self.entries@.len(),
                n == old(self).entries@.len(),
                self.minimal_fee == old(self).minimal_fee,
                self.limit == old(self).limit,
                self.next_seq == old(self).next_seq,
                forall|j: int| i <= j < n ==> self.entries@[j] == old(self).entries@[j],
                forall|j: int|
                    0 <= j < n ==> #[trigger] self.entries@[j].tx == old(self).entries@[j].tx,
                forall|j: int|
                    0 <= j < i ==> self.entries@[j] == repartition_sender(
                        old(self).entries@,
                        sender,
                        base,
                    )[j],
            decreases n - i,
        {
            let e = self.entries[i];
            if e.tx.sender == sender {
                let p = is_contiguous(&self.entries, sender, base, e.tx.nonce);
                proof {
                    lemma_same_pairs_contiguous(
                        self.entries@,
                        old(self).entries@,
                        sender,
                        base,
                        e.tx.nonce,
                    );
                }
                self.entries.set(
                    i,
                    PoolEntry {
                        tx: e.tx,
                        origin: e.origin,
                        insertion_seq: e.insertion_seq,
                        insertion_time: e.insertion_time,
                        is_pending: p,
                    },
                );
            }
            i += 1;
        }
        proof {
            assert(self.entries@ =~= repartition_sender(old(self).entries@, sender, base));
        }
    }

    /// Admit `transaction` into the pool.
    ///
    /// Fetches the sender's current nonce and balance through
    /// `details_provider`, rejects in order with `InsufficientFee` (below the
    /// pool's floor), `AlreadyImported` (the same hash already held at this
    /// (sender, nonce)), `TooCheapToReplace` (a held entry with an equal or
    /// higher fee), `LimitReached` (full pool and no entry outranked) or
    /// `InsufficientBalance` (held fees plus this one exceed the balance);
    /// otherwise places the entry — replacing, or evicting the
    /// lowest-(fee, age) entry from a full pool — recomputes the sender's
    /// partition, and reports which partition the transaction landed in.
    pub fn add<P: TransactionDetailsProvider>(
        &mut self,
        transaction: SignedTransaction,
        origin: TransactionOrigin,
        insertion_time: u64,
        details_provider: &P,
    ) -> (r: Result<TransactionImportResult, Error>)
        requires
            old(self).wf(),
            old(self).next_seq < u64::MAX,
        ensures
            final(self).wf(),
            r == add_decision(
                old(self).entries@,
                old(self).minimal_fee,
                old(self).limit,
                old(self).next_seq,
                insertion_time,
                origin,
                transaction,
                details_provider.account_details(transaction.sender),
            ),
            final(self).entries@ == add_entries(
                old(self).entries@,
                old(self).minimal_fee,
                old(self).limit,
                old(self).next_seq,
                insertion_time,
                origin,
                transaction,
                details_provider.account_details(transaction.sender),
            ),
            final(self).minimal_fee == old(self).minimal_fee,
            final(self).limit == old(self).limit,
            final(self).next_seq == if r is Ok {
                old(self).next_seq + 1
            } else {
                old(self).next_seq as int
            },
    {
        let ghost s0 = self.entries@;
        let d = details_provider.fetch_account(transaction.sender);
        if transaction.fee < self.minimal_fee {
            return Err(Error::InsufficientFee);
        }
        let slot = find_slot(&self.entries, transaction.sender, transaction.nonce);
        let mut evict_from_full = false;
        match slot {
            Some(i) => {
                if self.entries[i].tx.hash == transaction.hash {
                    return Err(Error::AlreadyImported);
                }
                if self.entries[i].tx.fee >= transaction.fee {
                    return Err(Error::TooCheapToReplace);
                }
            },
            None => {
                if self.entries.len() >= self.limit {
                    if self.entries.len() == 0 {
                        return Err(Error::LimitReached);
                    }
                    let m = min_rank_index(&self.entries);
                    if transaction.fee <= self.entries[m].tx.fee {
                        return Err(Error::LimitReached);
                    }
                    evict_from_full = true;
                }
            },
        }
        let held: u128 = sender_fee_sum(&self.entries, transaction.sender);
        proof {
            lemma_fee_sum_bounds(s0, transaction.sender);
            assert(s0.len() * (u64::MAX as int) + (u64::MAX as int) < u128::MAX as int)
                by (nonlinear_arith)
                requires
                    s0.len() <= usize::MAX,
            ;
        }
        let needed: u128 = match slot {
            Some(i) => {
                proof {
                    lemma_fee_sum_member(s0, transaction.sender, i as int);
                }
                held - self.entries[i].tx.fee as u128 + transaction.fee as u128
            },
            None => held + transaction.fee as u128,
        };
        if needed > d.balance as u128 {
            return Err(Error::InsufficientBalance);
        }
        let seqno = self.next_seq;
        self.next_seq = self.next_seq + 1;
        let e = PoolEntry {
            tx: transaction,
            origin,
            insertion_seq: seqno,
            insertion_time,
            is_pending: false,
        };
        match slot {
            Some(i) => {
                self.entries.set(i, e);
            },
            None => {
                if evict_from_full {
                    let m = min_rank_index(&self.entries);
                    let evicted = self.entries[m];
                    self.entries.remove(m);
                    self.entries.push(e);
                    self.demote(evicted.tx.sender, evicted.tx.nonce);
                } else {
                    self.entries.push(e);
                }
            },
        }
        let ghost placed = self.entries@;
        proof {
            assert(placed =~= inserted_entries(
                s0,
                old(self).limit,
                old(self).next_seq,
                insertion_time,
                origin,
                transaction,
            ));
        }
        self.repartition(transaction.sender, d.nonce);
        let pend = is_contiguous(&self.entries, transaction.sender, d.nonce, transaction.nonce);
        proof {
            assert forall|j: int| 0 <= j < placed.len() implies #[trigger] self.entries@[j].tx
                == placed[j].tx by {
            }
            lemma_same_pairs_contiguous(
                self.entries@,
                placed,
                transaction.sender,
                d.nonce,
                transaction.nonce,
            );
            lemma_add_keeps_wf(
                s0,
                old(self).minimal_fee,
                old(self).limit,
                old(self).next_seq,
                insertion_time,
                origin,
                transaction,
                d,
            );
        }
        if pend {
            Ok(TransactionImportResult::Current)
        } else {
            Ok(TransactionImportResult::Future)
        }
    }
}

/// A successful admission preserves the pool invariant with the admission
/// counter advanced by one.
proof fn lemma_add_keeps_wf(
    s: Seq<PoolEntry>,
    minimal_fee: u64,
    limit: usize,
    next_seq: u64,
    insertion_time: u64,
    origin: TransactionOrigin,
    tx: SignedTransaction,
    d: AccountDetails,
)
    requires
        wf_entries(s, minimal_fee, limit, next_seq),
        next_seq < u64::MAX,
        add_decision(s, minimal_fee, limit, next_seq, insertion_time, origin, tx, d) is Ok,
    ensures
        wf_entries(
            add_entries(s, minimal_fee, limit, next_seq, insertion_time, origin, tx, d),
            minimal_fee,
            limit,
            (next_seq + 1) as u64,
        ),
{
    let placed = inserted_entries(s, limit, next_seq, insertion_time, origin, tx);
    let post = add_entries(s, minimal_fee, limit, next_seq, insertion_time, origin, tx, d);
    assert(post == repartition_sender(placed, tx.sender, d.nonce));
    if has_slot(s, tx.sender, tx.nonce) {
        let i = slot_idx(s, tx.sender, tx.nonce);
        assert(0 <= i < s.len() && s[i].tx.sender == tx.sender && s[i].tx.nonce == tx.nonce);
        assert(wf_entries(placed, minimal_fee, limit, (next_seq + 1) as u64));
    } else if s.len() >= limit {
        let m = min_rank_idx(s);
        assert(s.len() > 0);
        let removed = s.remove(m);
        assert(is_min_rank(s, m)) by {
            lemma_min_rank_exists(s);
        }
        let pushed = removed.push(
            PoolEntry {
                tx: tx,
                origin: origin,
                insertion_seq: next_seq,
                insertion_time: insertion_time,
                is_pending: false,
            },
        );
        assert(wf_entries(pushed, minimal_fee, limit, (next_seq + 1) as u64)) by {
            assert(forall|j: int|
                0 <= j < removed.len() ==> exists|k: int|
                    0 <= k < s.len() && #[trigger] removed[j] == s[k]) by {
                assert forall|j: int| 0 <= j < removed.len() implies exists|k: int|
                    0 <= k < s.len() && #[trigger] removed[j] == s[k] by {
                    if j < m {
                        assert(removed[j] == s[j]);
                    } else {
                        assert(removed[j] == s[j + 1]);
                    }
                }
            }
            assert forall|a: int, b: int| 0 <= a < b < pushed.len() implies !(
            #[trigger] pushed[a].tx.sender == #[trigger] pushed[b].tx.sender && pushed[a].tx.nonce
                == pushed[b].tx.nonce) by {
                if b < pushed.len() - 1 {
                    let sa = if a < m { a } else { a + 1 };
                    let sb = if b < m { b } else { b + 1 };
                    assert(pushed[a] == s[sa] && pushed[b] == s[sb]);
                } else {
                    let sa = if a < m { a } else { a + 1 };
                    assert(pushed[a] == s[sa]);
                    assert(!has_slot(s, tx.sender, tx.nonce));
                }
            }
            assert forall|a: int, b: int| 0 <= a < b < pushed.len() implies #[trigger] pushed[a].insertion_seq
                != #[trigger] pushed[b].insertion_seq by {
                if b < pushed.len() - 1 {
                    let sa = if a < m { a } else { a + 1 };
                    let sb = if b < m { b } else { b + 1 };
                    assert(pushed[a] == s[sa] && pushed[b] == s[sb]);
                } else {
                    let sa = if a < m { a } else { a + 1 };
                    assert(pushed[a] == s[sa]);
                }
            }
            assert forall|a: int| 0 <= a < pushed.len() implies #[trigger] pushed[a].insertion_seq
                < next_seq + 1 && #[trigger] pushed[a].tx.fee >= minimal_fee by {
                if a < pushed.len() - 1 {
                    let sa = if a < m { a } else { a + 1 };
                    assert(pushed[a] == s[sa]);
                }
            }
        }
        assert(placed == demote_after(pushed, s[m].tx.sender, s[m].tx.nonce));
        lemma_flags_only_wf(pushed, placed, minimal_fee, limit, (next_seq + 1) as u64);
    } else {
        assert(wf_entries(placed, minimal_fee, limit, (next_seq + 1) as u64)) by {
            assert forall|a: int, b: int| 0 <= a < b < placed.len() implies !(
            #[trigger] placed[a].tx.sender == #[trigger] placed[b].tx.sender && placed[a].tx.nonce
                == placed[b].tx.nonce) by {
                if b == placed.len() - 1 {
                    assert(!has_slot(s, tx.sender, tx.nonce));
                    assert(placed[a] == s[a]);
                }
            }
        }
    }
    lemma_flags_only_wf(placed, post, minimal_fee, limit, (next_seq + 1) as u64);
}

/// Every nonempty entry list has a lowest-ranked member.
proof fn lemma_min_rank_exists(s: Seq<PoolEntry>)
    requires
        s.len() > 0,
    ensures
        is_min_rank(s, min_rank_idx(s)),
    decreases s.len(),
{
    if s.len() == 1 {
        assert(is_min_rank(s, 0));
    } else {
        let sub = s.drop_last();
        lemma_min_rank_exists(sub);
        let m = min_rank_idx(sub);
        assert(is_min_rank(sub, m));
        assert(sub[m] == s[m]);
        if rank_le(s[s.len() - 1], s[m]) {
            assert forall|j: int| 0 <= j < s.len() implies rank_le(
                s[s.len() - 1],
                #[trigger] s[j],
            ) by {
                if j < s.len() - 1 {
                    assert(rank_le(sub[m], sub[j]));
                    assert(sub[j] == s[j]);
                }
            }
            assert(is_min_rank(s, s.len() - 1));
        } else {
            assert forall|j: int| 0 <= j < s.len() implies rank_le(s[m], #[trigger] s[j]) by {
                if j < s.len() - 1 {
                    assert(rank_le(sub[m], sub[j]));
                    assert(sub[j] == s[j]);
                } else {
                    assert(!rank_le(s[j], s[m]));
                }
            }
            assert(is_min_rank(s, m));
        }
    }
    let w = choose|i: int| is_min_rank(s, i);
    assert(is_min_rank(s, w));
}

/// Changing partition flags alone preserves the pool invariant.
proof fn lemma_flags_only_wf(
    s1: Seq<PoolEntry>,
    s2: Seq<PoolEntry>,
    minimal_fee: u64,
    limit: usize,
    next_seq: u64,
)
    requires
        wf_entries(s1, minimal_fee, limit, next_seq),
        s2.len() == s1.len(),
        forall|j: int| #![trigger s1[j], s2[j]]
            0 <= j < s1.len() ==> s2[j].tx == s1[j].tx && s2[j].insertion_seq
                == s1[j].insertion_seq,
    ensures
        wf_entries(s2, minimal_fee, limit, next_seq),
{
    assert forall|i: int, j: int| 0 <= i < j < s2.len() implies !(#[trigger] s2[i].tx.sender
        == #[trigger] s2[j].tx.sender && s2[i].tx.nonce == s2[j].tx.nonce) by {
        assert(s2[i].tx == s1[i].tx && s2[j].tx == s1[j].tx);
        assert(!(s1[i].tx.sender == s1[j].tx.sender && s1[i].tx.nonce == s1[j].tx.nonce));
    }
    assert forall|i: int, j: int| 0 <= i < j < s2.len() implies #[trigger] s2[i].insertion_seq
        != #[trigger] s2[j].insertion_seq by {
        assert(s2[i].insertion_seq == s1[i].insertion_seq);
        assert(s2[j].insertion_seq == s1[j].insertion_seq);
        assert(s1[i].insertion_seq != s1[j].insertion_seq);
    }
    assert forall|i: int| 0 <= i < s2.len() implies #[trigger] s2[i].insertion_seq < next_seq
        && s2[i].tx.fee >= minimal_fee by {
        assert(s2[i].tx == s1[i].tx && s2[i].insertion_seq == s1[i].insertion_seq);
        assert(s1[i].insertion_seq < next_seq && s1[i].tx.fee >= minimal_fee);
    }
}

/// Removing an entry preserves entry-list soundness.
proof fn lemma_remove_sound(s: Seq<PoolEntry>, minimal_fee: u64, next_seq: u64, m: int)
    requires
        entries_sound(s, minimal_fee, next_seq),
        0 <= m < s.len(),
    ensures
        entries_sound(s.remove(m), minimal_fee, next_seq),
{
    let t = s.remove(m);
    assert forall|a: int, b: int| 0 <= a < b < t.len() implies !(#[trigger] t[a].tx.sender
        == #[trigger] t[b].tx.sender && t[a].tx.nonce == t[b].tx.nonce) && t[a].insertion_seq
        != t[b].insertion_seq by {
        let sa = if a < m { a } else { a + 1 };
        let sb = if b < m { b } else { b + 1 };
        assert(t[a] == s[sa] && t[b] == s[sb]);
        assert(!(s[sa].tx.sender == s[sb].tx.sender && s[sa].tx.nonce == s[sb].tx.nonce));
        assert(s[sa].insertion_seq != s[sb].insertion_seq);
    }
    assert forall|a: int| 0 <= a < t.len() implies #[trigger] t[a].insertion_seq < next_seq
        && t[a].tx.fee >= minimal_fee by {
        let sa = if a < m { a } else { a + 1 };
        assert(t[a] == s[sa]);
        assert(s[sa].insertion_seq < next_seq && s[sa].tx.fee >= minimal_fee);
    }
}

/// The subsequence of `s` whose entries satisfy `p`, in pool order.
pub open spec fn select_entries(s: Seq<PoolEntry>, p: spec_fn(PoolEntry) -> bool) -> Seq<PoolEntry>
    decreases s.len(),
{
    if s.len() == 0 {
        Seq::empty()
    } else if p(s.last()) {
        select_entries(s.drop_last(), p).push(s.last())
    } else {
        select_entries(s.drop_last(), p)
    }
}

/// Membership in the pending partition.
pub open spec fn pending_pred() -> spec_fn(PoolEntry) -> bool {
    |e: PoolEntry| e.is_pending
}

/// Membership in the future partition.
pub open spec fn future_pred() -> spec_fn(PoolEntry) -> bool {
    |e: PoolEntry| !e.is_pending
}

/// Entries whose fee is at or above `fee`.
pub open spec fn keeps_fee(fee: u64) -> spec_fn(PoolEntry) -> bool {
    |e: PoolEntry| e.tx.fee >= fee
}

/// Selection keeps soundness, shortens or keeps the length, and yields only
/// members of the given list that satisfy the predicate.
proof fn lemma_select_sound(
    s: Seq<PoolEntry>,
    p: spec_fn(PoolEntry) -> bool,
    minimal_fee: u64,
    next_seq: u64,
)
    requires
        entries_sound(s, minimal_fee, next_seq),
    ensures
        entries_sound(select_entries(s, p), minimal_fee, next_seq),
        select_entries(s, p).len() <= s.len(),
        forall|a: int|
            0 <= a < select_entries(s, p).len() ==> p(#[trigger] select_entries(s, p)[a])
                && exists|j: int| 0 <= j < s.len() && select_entries(s, p)[a] == s[j],
    decreases s.len(),
{
    if s.len() == 0 {
    } else {
        let t = s.drop_last();
        assert(forall|j: int| 0 <= j < t.len() ==> #[trigger] t[j] == s[j]);
        assert(entries_sound(t, minimal_fee, next_seq));
        lemma_select_sound(t, p, minimal_fee, next_seq);
        let st = select_entries(t, p);
        if p(s.last()) {
            let out = st.push(s.last());
            assert(select_entries(s, p) == out);
            assert forall|a: int|
                0 <= a < out.len() implies p(#[trigger] out[a]) && exists|j: int|
                0 <= j < s.len() && out[a] == s[j] by {
                if a < st.len() {
                    assert(out[a] == st[a]);
                    let j = choose|j: int| 0 <= j < t.len() && st[a] == t[j];
                    assert(out[a] == s[j]);
                } else {
                    assert(out[a] == s[s.len() - 1]);
                }
            }
            assert forall|a: int, b: int| 0 <= a < b < out.len() implies !(
            #[trigger] out[a].tx.sender == #[trigger] out[b].tx.sender && out[a].tx.nonce
                == out[b].tx.nonce) && out[a].insertion_seq != out[b].insertion_seq by {
                if b < out.len() - 1 {
                    assert(out[a] == st[a] && out[b] == st[b]);
                    assert(!(st[a].tx.sender == st[b].tx.sender && st[a].tx.nonce
                        == st[b].tx.nonce));
                    assert(st[a].insertion_seq != st[b].insertion_seq);
                } else {
                    assert(out[a] == st[a]);
                    let j = choose|j: int| 0 <= j < t.len() && st[a] == t[j];
                    assert(out[a] == s[j] && out[b] == s[s.len() - 1]);
                    assert(!(s[j].tx.sender == s[s.len() - 1].tx.sender && s[j].tx.nonce
                        == s[s.len() - 1].tx.nonce));
                    assert(s[j].insertion_seq != s[s.len() - 1].insertion_seq);
                }
            }
            assert forall|a: int| 0 <= a < out.len() implies #[trigger] out[a].insertion_seq
                < next_seq && out[a].tx.fee >= minimal_fee by {
                if a < out.len() - 1 {
                    assert(out[a] == st[a]);
                } else {
                    assert(out[a] == s[s.len() - 1]);
                }
            }
        }
    }
}

impl TransactionQueue {
    /// Counts of the pending and future partitions.
    pub fn status(&self) -> (st: TransactionQueueStatus)
        ensures
            st.pending == select_entries(self.entries@, pending_pred()).len(),
            st.future == select_entries(self.entries@, future_pred()).len(),
            st.pending + st.future == self.entries@.len(),
    {
        let mut p: usize = 0;
        let mut f: usize = 0;
        let mut i: usize = 0;
        proof {
            assert(self.entries@.take(0) =~= Seq::<PoolEntry>::empty());
        }
        while i < self.entries.len()
            invariant
                i <= self.entries@.len(),
                p == select_entries(self.entries@.take(i as int), pending_pred()).len(),
                f == select_entries(self.entries@.take(i as int), future_pred()).len(),
                p + f == i,
            decreases self.entries@.len() - i,
        {
            proof {
                assert(self.entries@.take(i as int + 1).drop_last() =~= self.entries@.take(
                    i as int,
                ));
                assert(self.entries@.take(i as int + 1).last() == self.entries@[i as int]);
            }
            if self.entries[i].is_pending {
                p += 1;
            } else {
                f += 1;
            }
            i += 1;
        }
        proof {
            assert(self.entries@.take(self.entries@.len() as int) =~= self.entries@);
        }
        TransactionQueueStatus { pending: p, future: f }
    }
}

/// Whether some entry of `sender` below `nonce` falls under the fee floor
/// `fee`: pruning it opens a nonce gap under the entry at `nonce`.
pub open spec fn cheaper_below(s: Seq<PoolEntry>, fee: u64, sender: u64, nonce: u64) -> bool {
    exists|j: int|
        0 <= j < s.len() && (#[trigger] s[j].tx.fee) < fee && s[j].tx.sender == sender
            && s[j].tx.nonce < nonce
}

/// Pool contents after raising the fee floor to `fee`: entries under the
/// floor are dropped, and a kept pending entry is demoted to future when a
/// dropped same-sender entry below its nonce opened a gap.
pub open spec fn prune_below_fee(s: Seq<PoolEntry>, fee: u64) -> Seq<PoolEntry> {
    let kept = select_entries(s, keeps_fee(fee));
    Seq::new(
        kept.len(),
        |i: int|
            if kept[i].is_pending && cheaper_below(s, fee, kept[i].tx.sender, kept[i].tx.nonce) {
                PoolEntry {
                    tx: kept[i].tx,
                    origin: kept[i].origin,
                    insertion_seq: kept[i].insertion_seq,
                    insertion_time: kept[i].insertion_time,
                    is_pending: false,
                }
            } else {
                kept[i]
            },
    )
}

/// Whether some entry of `sender` below `nonce` falls under the fee floor.
fn has_cheaper_below(v: &Vec<PoolEntry>, fee: u64, sender: u64, nonce: u64) -> (r: bool)
    ensures
        r == cheaper_below(v@, fee, sender, nonce),
{
    let mut j: usize = 0;
    while j < v.len()
        invariant
            j <= v@.len(),
            forall|k: int|
                0 <= k < j ==> !((#[trigger] v@[k].tx.fee) < fee && v@[k].tx.sender == sender
                    && v@[k].tx.nonce < nonce),
        decreases v@.len() - j,
    {
        if v[j].tx.fee < fee && v[j].tx.sender == sender && v[j].tx.nonce < nonce {
            return true;
        }
        j += 1;
    }
    false
}

impl TransactionQueue {
    /// Raise or lower the fee floor; entries under the new floor are evicted
    /// at once, demoting entries that stood behind them.
    pub fn set_minimal_fee(&mut self, min_fee: u64)
        requires
            old(self).wf(),
        ensures
            final(self).wf(),
            final(self).entries@ == prune_below_fee(old(self).entries@, min_fee),
            final(self).minimal_fee == min_fee,
            final(self).limit == old(self).limit,
            final(self).next_seq == old(self).next_seq,
    {
        let ghost s0 = self.entries@;
        let mut kept: Vec<PoolEntry> = Vec::new();
        let mut i: usize = 0;
        proof {
            assert(s0.take(0) =~= Seq::<PoolEntry>::empty());
            assert(kept@ =~= select_entries(s0.take(0), keeps_fee(min_fee)));
        }
        while i < self.entries.len()
            invariant
                i <= s0.len(),
                self.entries@ == s0,
                kept@ == select_entries(s0.take(i as int), keeps_fee(min_fee)),
            decreases s0.len() - i,
        {
            proof {
                assert(s0.take(i as int + 1).drop_last() =~= s0.take(i as int));
                assert(s0.take(i as int + 1).last() == s0[i as int]);
            }
            if self.entries[i].tx.fee >= min_fee {
                kept.push(self.entries[i]);
            }
            i += 1;
        }
        proof {
            assert(s0.take(s0.len() as int) =~= s0);
        }
        let ghost kept0 = kept@;
        let n = kept.len();
        let mut i: usize = 0;
        while i < n
            invariant
                i <= n,
                n == kept@.len() == kept0.len(),
                kept0 == select_entries(s0, keeps_fee(min_fee)),
                self.entries@ == s0,
                forall|j: int| i <= j < n ==> kept@[j] == kept0[j],
                forall|j: int| 0 <= j < i ==> kept@[j] == prune_below_fee(s0, min_fee)[j],
            decreases n - i,
        {
            let e = kept[i];
            if e.is_pending && has_cheaper_below(&self.entries, min_fee, e.tx.sender, e.tx.nonce) {
                kept.set(
                    i,
                    PoolEntry {
                        tx: e.tx,
                        origin: e.origin,
                        insertion_seq: e.insertion_seq,
                        insertion_time: e.insertion_time,
                        is_pending: false,
                    },
                );
            }
            i += 1;
        }
        proof {
            assert(kept@ =~= prune_below_fee(s0, min_fee));
        }
        self.entries = kept;
        self.minimal_fee = min_fee;
        proof {
            lemma_select_sound(s0, keeps_fee(min_fee), old(self).minimal_fee, self.next_seq);
            let sel = select_entries(s0, keeps_fee(min_fee));
            assert(entries_sound(sel, old(self).minimal_fee, self.next_seq));
            assert forall|j: int| 0 <= j < sel.len() implies #[trigger] self.entries@[j].tx
                == sel[j].tx && self.entries@[j].insertion_seq == sel[j].insertion_seq by {
            }
            lemma_flags_only_sound(sel, self.entries@, old(self).minimal_fee, self.next_seq);
            assert forall|j: int| 0 <= j < self.entries@.len() implies
                #[trigger] self.entries@[j].tx.fee >= min_fee by {
                assert((keeps_fee(min_fee))(sel[j]));
            }
            assert(entries_sound(self.entries@, min_fee, self.next_seq));
        }
    }
}

/// Flag-only changes preserve entry-list soundness.
proof fn lemma_flags_only_sound(
    s1: Seq<PoolEntry>,
    s2: Seq<PoolEntry>,
    minimal_fee: u64,
    next_seq: u64,
)
    requires
        entries_sound(s1, minimal_fee, next_seq),
        s2.len() == s1.len(),
        forall|j: int| #![trigger s1[j], s2[j]]
            0 <= j < s1.len() ==> s2[j].tx == s1[j].tx && s2[j].insertion_seq
                == s1[j].insertion_seq,
    ensures
        entries_sound(s2, minimal_fee, next_seq),
{
    assert forall|i: int, j: int| 0 <= i < j < s2.len() implies !(#[trigger] s2[i].tx.sender
        == #[trigger] s2[j].tx.sender && s2[i].tx.nonce == s2[j].tx.nonce) by {
        assert(s2[i].tx == s1[i].tx && s2[j].tx == s1[j].tx);
        assert(!(s1[i].tx.sender == s1[j].tx.sender && s1[i].tx.nonce == s1[j].tx.nonce));
    }
    assert forall|i: int, j: int| 0 <= i < j < s2.len() implies #[trigger] s2[i].insertion_seq
        != #[trigger] s2[j].insertion_seq by {
        assert(s2[i].insertion_seq == s1[i].insertion_seq && s2[j].insertion_seq
            == s1[j].insertion_seq);
        assert(s1[i].insertion_seq != s1[j].insertion_seq);
    }
    assert forall|i: int| 0 <= i < s2.len() implies #[trigger] s2[i].insertion_seq < next_seq by {
        assert(s2[i].insertion_seq == s1[i].insertion_seq);
        assert(s1[i].insertion_seq < next_seq);
    }
    assert forall|i: int| 0 <= i < s2.len() implies #[trigger] s2[i].tx.fee >= minimal_fee by {
        assert(s2[i].tx == s1[i].tx);
        assert(s1[i].tx.fee >= minimal_fee);
    }
}

/// Pool contents after lowering the capacity to `limit`: the lowest-(fee,
/// age) entry is evicted, demoting what stood behind it, until the pool fits.
pub open spec fn evict_to_limit(s: Seq<PoolEntry>, limit: usize) -> Seq<PoolEntry>
    decreases s.len(),
{
    if s.len() <= limit {
        s
    } else {
        let m = min_rank_idx(s);
        if 0 <= m < s.len() {
            evict_to_limit(demote_after(s.remove(m), s[m].tx.sender, s[m].tx.nonce), limit)
        } else {
            s
        }
    }
}

impl TransactionQueue {
    /// Lower or raise the capacity bound; a pool over the new bound evicts
    /// its lowest-(fee, age) entries until it fits.
    pub fn set_limit(&mut self, limit: usize)
        requires
            old(self).wf(),
        ensures
            final(self).wf(),
            final(self).entries@ == evict_to_limit(old(self).entries@, limit),
            final(self).minimal_fee == old(self).minimal_fee,
            final(self).limit == limit,
            final(self).next_seq == old(self).next_seq,
    {
        let ghost s0 = self.entries@;
        while self.entries.len() > limit
            invariant
                entries_sound(self.entries@, self.minimal_fee, self.next_seq),
                evict_to_limit(self.entries@, limit) == evict_to_limit(s0, limit),
                self.minimal_fee == old(self).minimal_fee,
                self.limit == old(self).limit,
                self.next_seq == old(self).next_seq,
            decreases self.entries@.len(),
        {
            let ghost cur = self.entries@;
            let m = min_rank_index(&self.entries);
            let evicted = self.entries[m];
            self.entries.remove(m);
            proof {
                lemma_remove_sound(cur, self.minimal_fee, self.next_seq, m as int);
            }
            let ghost removed = self.entries@;
            self.demote(evicted.tx.sender, evicted.tx.nonce);
            proof {
                assert(self.entries@ == demote_after(removed, cur[m as int].tx.sender,
                    cur[m as int].tx.nonce));
                lemma_flags_only_sound(removed, self.entries@, self.minimal_fee, self.next_seq);
                assert(evict_to_limit(cur, limit) == evict_to_limit(self.entries@, limit));
            }
        }
        self.limit = limit;
    }
}

/// The pool never exceeds its capacity bound.
///
/// After any sequence of admissions into a well-formed pool, the number of
/// held entries is at most the configured limit.
pub proof fn lemma_capacity_bound(q: TransactionQueue)
    requires
        q.wf(),
    ensures
        q.entries@.len() <= q.limit,
{
}

/// `i` indexes an entry none of whose same-sender companions in `s` has a
/// smaller nonce: the sender's next transaction in line.
pub open spec fn is_head(s: Seq<PoolEntry>, i: int) -> bool {
    &&& 0 <= i < s.len()
    &&& forall|j: int|
        0 <= j < s.len() && (#[trigger] s[j].tx.sender) == s[i].tx.sender ==> s[j].tx.nonce
            >= s[i].tx.nonce
}

/// `a` outranks or equals `b` in the output priority order: higher fee
/// first, ties broken towards the older entry.
pub open spec fn prio_ge(a: PoolEntry, b: PoolEntry) -> bool {
    ||| a.tx.fee > b.tx.fee
    ||| (a.tx.fee == b.tx.fee && a.insertion_seq <= b.insertion_seq)
}

/// Whether no same-sender companion of `v[i]` has a smaller nonce.
fn is_head_exec(v: &Vec<PoolEntry>, i: usize) -> (r: bool)
    requires
        i < v@.len(),
    ensures
        r == is_head(v@, i as int),
{
    let mut j: usize = 0;
    while j < v.len()
        invariant
            i < v@.len(),
            j <= v@.len(),
            forall|k: int|
                0 <= k < j ==> ((#[trigger] v@[k].tx.sender) == v@[i as int].tx.sender
                    ==> v@[k].tx.nonce >= v@[i as int].tx.nonce),
        decreases v@.len() - j,
    {
        if v[j].tx.sender == v[i].tx.sender && v[j].tx.nonce < v[i].tx.nonce {
            return false;
        }
        j += 1;
    }
    true
}

impl TransactionQueue {
    /// Copy the entries of the chosen partition, in pool order.
    fn partition_entries(&self, pending: bool) -> (r: Vec<PoolEntry>)
        ensures
            r@ == select_entries(
                self.entries@,
                if pending {
                    pending_pred()
                } else {
                    future_pred()
                },
            ),
    {
        let ghost p = if pending {
            pending_pred()
        } else {
            future_pred()
        };
        let mut out: Vec<PoolEntry> = Vec::new();
        let mut i: usize = 0;
        proof {
            assert(self.entries@.take(0) =~= Seq::<PoolEntry>::empty());
            assert(out@ =~= select_entries(self.entries@.take(0), p));
        }
        while i < self.entries.len()
            invariant
                i <= self.entries@.len(),
                p == (if pending {
                    pending_pred()
                } else {
                    future_pred()
                }),
                out@ == select_entries(self.entries@.take(i as int), p),
            decreases self.entries@.len() - i,
        {
            proof {
                assert(self.entries@.take(i as int + 1).drop_last() =~= self.entries@.take(
                    i as int,
                ));
                assert(self.entries@.take(i as int + 1).last() == self.entries@[i as int]);
            }
            if self.entries[i].is_pending == pending {
                out.push(self.entries[i]);
            }
            i += 1;
        }
        proof {
            assert(self.entries@.take(self.entries@.len() as int) =~= self.entries@);
        }
        out
    }

    /// The pending partition in output order: fees descending with FIFO
    /// tie-break, never yielding a sender's later nonce before an earlier
    /// one.
    ///
    /// The result is a permutation of the pending entries' transactions; for
    /// any one sender its transactions appear with strictly ascending nonces,
    /// every fee is at or above the pool's floor, and a transaction precedes
    /// a higher-fee one only where its sender's nonce sequence demands it.
    #[verifier::rlimit(100)]
    pub fn top_transactions(&self) -> (r: Vec<SignedTransaction>)
        requires
            self.wf(),
        ensures
            forall|a: int, b: int|
                0 <= a < b < r@.len() && (#[trigger] r@[a]).sender == (#[trigger] r@[b]).sender
                    ==> r@[a].nonce < r@[b].nonce,
            forall|k: int| 0 <= k < r@.len() ==> (#[trigger] r@[k]).fee >= self.minimal_fee,
            exists|oe: Seq<PoolEntry>|
                (#[trigger] oe.to_multiset()) == select_entries(
                    self.entries@,
                    pending_pred(),
                ).to_multiset() && r@.len() == oe.len() && (forall|k: int|
                    0 <= k < oe.len() ==> r@[k] == oe[k].tx),
    {
        let mut rem: Vec<PoolEntry> = self.partition_entries(true);
        let ghost orig = rem@;
        proof {
            lemma_select_sound(self.entries@, pending_pred(), self.minimal_fee, self.next_seq);
        }
        let mut out: Vec<SignedTransaction> = Vec::new();
        let ghost mut oe: Seq<PoolEntry> = Seq::empty();
        proof {
            orig.to_multiset_ensures();
            oe.to_multiset_ensures();
            assert(oe.to_multiset().add(rem@.to_multiset()) =~= orig.to_multiset());
        }
        while rem.len() > 0
            invariant
                self.wf(),
                entries_sound(rem@, self.minimal_fee, self.next_seq),
                out@.len() == oe.len(),
                forall|k: int| 0 <= k < oe.len() ==> out@[k] == (#[trigger] oe[k]).tx,
                oe.to_multiset().add(rem@.to_multiset()) == orig.to_multiset(),
                forall|a: int, b: int|
                    0 <= a < b < oe.len() && (#[trigger] oe[a]).tx.sender
                        == (#[trigger] oe[b]).tx.sender ==> oe[a].tx.nonce < oe[b].tx.nonce,
                forall|a: int, k: int|
                    0 <= a < oe.len() && 0 <= k < rem@.len() && (#[trigger] oe[a]).tx.sender
                        == (#[trigger] rem@[k]).tx.sender ==> oe[a].tx.nonce < rem@[k].tx.nonce,
                forall|a: int| 0 <= a < oe.len() ==> (#[trigger] oe[a]).tx.fee >= self.minimal_fee,
            decreases rem@.len(),
        {
            let ghost rem0 = rem@;
            let s0 = rem[0].tx.sender;
            let mut h: usize = 0;
            let mut i: usize = 1;
            while i < rem.len()
                invariant
                    rem@.len() > 0,
                    h < i <= rem@.len(),
                    rem@[h as int].tx.sender == s0,
                    forall|j: int|
                        0 <= j < i && (#[trigger] rem@[j].tx.sender) == s0 ==> rem@[j].tx.nonce
                            >= rem@[h as int].tx.nonce,
                decreases rem@.len() - i,
            {
                if rem[i].tx.sender == s0 && rem[i].tx.nonce < rem[h].tx.nonce {
                    h = i;
                }
                i += 1;
            }
            proof {
                assert(is_head(rem@, h as int));
            }
            let mut best: usize = h;
            let mut i: usize = 0;
            while i < rem.len()
                invariant
                    rem@.len() > 0,
                    best < rem@.len(),
                    i <= rem@.len(),
                    is_head(rem@, best as int),
                    forall|j: int|
                        0 <= j < i && is_head(rem@, j) ==> prio_ge(
                            rem@[best as int],
                            #[trigger] rem@[j],
                        ),
                decreases rem@.len() - i,
            {
                let ghost prev = best;
                if is_head_exec(&rem, i) {
                    if rem[i].tx.fee > rem[best].tx.fee || (rem[i].tx.fee == rem[best].tx.fee
                        && rem[i].insertion_seq < rem[best].insertion_seq) {
                        best = i;
                    }
                }
                proof {
                    assert forall|j: int| 0 <= j < i + 1 && is_head(rem@, j) implies prio_ge(
                        rem@[best as int],
                        #[trigger] rem@[j],
                    ) by {
                        if j < i {
                            assert(prio_ge(rem@[prev as int], rem@[j]));
                        }
                    }
                }
                i += 1;
            }
            proof {
                assert(forall|j: int|
                    0 <= j < rem@.len() && is_head(rem@, j) ==> prio_ge(
                        rem@[best as int],
                        #[trigger] rem@[j],
                    ));
            }
            let chosen = rem[best];
            out.push(chosen.tx);
            proof {
                oe.to_multiset_ensures();
                rem@.to_multiset_ensures();
                oe = oe.push(chosen);
            }
            rem.remove(best);
            proof {
                lemma_remove_sound(rem0, self.minimal_fee, self.next_seq, best as int);
                assert(oe.to_multiset().add(rem@.to_multiset()) =~= orig.to_multiset());
                assert forall|a: int, k: int|
                    0 <= a < oe.len() && 0 <= k < rem@.len() && (#[trigger] oe[a]).tx.sender
                        == (#[trigger] rem@[k]).tx.sender implies oe[a].tx.nonce
                    < rem@[k].tx.nonce by {
                    let sk = if k < best { k } else { k + 1 };
                    assert(rem@[k] == rem0[sk]);
                    if a < oe.len() - 1 {
                    } else {
                        assert(oe[a] == chosen);
                        assert(rem0[sk].tx.nonce >= chosen.tx.nonce);
                        if sk < best {
                            assert(!(rem0[sk].tx.sender == rem0[best as int].tx.sender
                                && rem0[sk].tx.nonce == rem0[best as int].tx.nonce));
                        } else {
                            assert(!(rem0[best as int].tx.sender == rem0[sk].tx.sender
                                && rem0[best as int].tx.nonce == rem0[sk].tx.nonce));
                        }
                    }
                }
            }
        }
        proof {
            oe.to_multiset_ensures();
            rem@.to_multiset_ensures();
            assert(rem@ =~= Seq::<PoolEntry>::empty());
            assert(oe.to_multiset() =~= select_entries(self.entries@, pending_pred()).to_multiset());
            assert forall|a: int, b: int|
                0 <= a < b < out@.len() && (#[trigger] out@[a]).sender
                    == (#[trigger] out@[b]).sender implies out@[a].nonce < out@[b].nonce by {
                assert(out@[a] == oe[a].tx && out@[b] == oe[b].tx);
            }
            assert forall|k: int| 0 <= k < out@.len() implies (#[trigger] out@[k]).fee
                >= self.minimal_fee by {
                assert(out@[k] == oe[k].tx);
            }
        }
        out
    }

    /// The future partition in output order: fees descending with FIFO
    /// tie-break.
    ///
    /// The result is a permutation of the future entries' transactions, with
    /// fees non-increasing and every fee at or above the pool's floor.
    pub fn future_transactions(&self) -> (r: Vec<SignedTransaction>)
        requires
            self.wf(),
        ensures
            forall|a: int, b: int|
                0 <= a < b < r@.len() ==> (#[trigger] r@[a]).fee >= (#[trigger] r@[b]).fee,
            forall|k: int| 0 <= k < r@.len() ==> (#[trigger] r@[k]).fee >= self.minimal_fee,
            exists|oe: Seq<PoolEntry>|
                (#[trigger] oe.to_multiset()) == select_entries(
                    self.entries@,
                    future_pred(),
                ).to_multiset() && r@.len() == oe.len() && (forall|k: int|
                    0 <= k < oe.len() ==> r@[k] == oe[k].tx) && (forall|a: int, b: int|
                    0 <= a < b < oe.len() ==> prio_ge(#[trigger] oe[a], #[trigger] oe[b])),
    {
        let mut rem: Vec<PoolEntry> = self.partition_entries(false);
        let ghost orig = rem@;
        proof {
            lemma_select_sound(self.entries@, future_pred(), self.minimal_fee, self.next_seq);
        }
        let mut out: Vec<SignedTransaction> = Vec::new();
        let ghost mut oe: Seq<PoolEntry> = Seq::empty();
        proof {
            orig.to_multiset_ensures();
            oe.to_multiset_ensures();
            assert(oe.to_multiset().add(rem@.to_multiset()) =~= orig.to_multiset());
        }
        while rem.len() > 0
            invariant
                self.wf(),
                entries_sound(rem@, self.minimal_fee, self.next_seq),
                out@.len() == oe.len(),
                forall|k: int| 0 <= k < oe.len() ==> out@[k] == (#[trigger] oe[k]).tx,
                oe.to_multiset().add(rem@.to_multiset()) == orig.to_multiset(),
                forall|a: int, b: int| 0 <= a < b < oe.len() ==> prio_ge(#[trigger] oe[a], #[trigger] oe[b]),
                forall|a: int, k: int|
                    0 <= a < oe.len() && 0 <= k < rem@.len() ==> prio_ge(
                        #[trigger] oe[a],
                        #[trigger] rem@[k],
                    ),
                forall|a: int| 0 <= a < oe.len() ==> (#[trigger] oe[a]).tx.fee >= self.minimal_fee,
            decreases rem@.len(),
        {
            let ghost rem0 = rem@;
            let mut best: usize = 0;
            let mut i: usize = 1;
            while i < rem.len()
                invariant
                    rem@.len() > 0,
                    best < i <= rem@.len(),
                    forall|j: int| 0 <= j < i ==> prio_ge(rem@[best as int], #[trigger] rem@[j]),
                decreases rem@.len() - i,
            {
                if rem[i].tx.fee > rem[best].tx.fee || (rem[i].tx.fee == rem[best].tx.fee
                    && rem[i].insertion_seq < rem[best].insertion_seq) {
                    best = i;
                }
                i += 1;
            }
            let chosen = rem[best];
            out.push(chosen.tx);
            proof {
                oe.to_multiset_ensures();
                rem@.to_multiset_ensures();
                oe = oe.push(chosen);
            }
            rem.remove(best);
            proof {
                lemma_remove_sound(rem0, self.minimal_fee, self.next_seq, best as int);
                assert(oe.to_multiset().add(rem@.to_multiset()) =~= orig.to_multiset());
                assert forall|a: int, k: int|
                    0 <= a < oe.len() && 0 <= k < rem@.len() implies prio_ge(
                    #[trigger] oe[a],
                    #[trigger] rem@[k],
                ) by {
                    let sk = if k < best { k } else { k + 1 };
                    assert(rem@[k] == rem0[sk]);
                    if a < oe.len() - 1 {
                    } else {
                        assert(oe[a] == chosen);
                        assert(prio_ge(rem0[best as int], rem0[sk]));
                    }
                }
            }
        }
        proof {
            oe.to_multiset_ensures();
            rem@.to_multiset_ensures();
            assert(rem@ =~= Seq::<PoolEntry>::empty());
            assert(oe.to_multiset() =~= select_entries(self.entries@, future_pred()).to_multiset());
            assert forall|a: int, b: int| 0 <= a < b < out@.len() implies (#[trigger] out@[a]).fee
                >= (#[trigger] out@[b]).fee by {
                assert(out@[a] == oe[a].tx && out@[b] == oe[b].tx);
                assert(prio_ge(oe[a], oe[b]));
            }
            assert forall|k: int| 0 <= k < out@.len() implies (#[trigger] out@[k]).fee
                >= self.minimal_fee by {
                assert(out@[k] == oe[k].tx);
            }
        }
        out
    }
}

/// Raising the fee floor removes every entry under it: no transaction a
/// later query yields from the pruned pool carries a fee below the floor.
pub proof fn lemma_minimal_fee_floor(s: Seq<PoolEntry>, minimal_fee: u64, next_seq: u64, fee: u64, i: int)
    requires
        entries_sound(s, minimal_fee, next_seq),
        0 <= i < prune_below_fee(s, fee).len(),
    ensures
        prune_below_fee(s, fee)[i].tx.fee >= fee,
{
    lemma_select_sound(s, keeps_fee(fee), minimal_fee, next_seq);
    let kept = select_entries(s, keeps_fee(fee));
    assert((keeps_fee(fee))(kept[i]));
}


/// Fee sums depend only on the transactions carried by the entries.
proof fn lemma_fee_sum_same_txs(s1: Seq<PoolEntry>, s2: Seq<PoolEntry>, sender: u64)
    requires
        s1.len() == s2.len(),
        forall|i: int| #![trigger s1[i], s2[i]] 0 <= i < s1.len() ==> s1[i].tx == s2[i].tx,
    ensures
        fee_sum(s1, sender) == fee_sum(s2, sender),
    decreases s1.len(),
{
    if s1.len() > 0 {
        let t1 = s1.drop_last();
        let t2 = s2.drop_last();
        assert(forall|i: int| #![trigger t1[i], t2[i]] 0 <= i < t1.len() ==> t1[i] == s1[i] && t2[i] == s2[i]);
        lemma_fee_sum_same_txs(t1, t2, sender);
        assert(s1.last().tx == s2.last().tx);
    }
}

/// Appending an entry adds its fee to its sender's fee sum.
proof fn lemma_fee_sum_push(s: Seq<PoolEntry>, e: PoolEntry, sender: u64)
    ensures
        fee_sum(s.push(e), sender) == fee_sum(s, sender) + if e.tx.sender == sender {
            e.tx.fee as int
        } else {
            0
        },
{
    assert(s.push(e).drop_last() =~= s);
    assert(s.push(e).last() == e);
}

/// Admitting a fresh transaction into a pool with room places it at its
/// (sender, nonce) slot, which then holds its fee.
proof fn lemma_add_fresh_slot(
    s: Seq<PoolEntry>,
    minimal_fee: u64,
    limit: usize,
    next_seq: u64,
    insertion_time: u64,
    origin: TransactionOrigin,
    tx: SignedTransaction,
    d: AccountDetails,
)
    requires
        wf_entries(s, minimal_fee, limit, next_seq),
        next_seq < u64::MAX,
        tx.fee >= minimal_fee,
        !has_slot(s, tx.sender, tx.nonce),
        s.len() < limit,
        balance_needed(s, tx) <= d.balance,
    ensures
        (add_decision(s, minimal_fee, limit, next_seq, insertion_time, origin, tx, d) is Ok),
        ({
            let p = add_entries(s, minimal_fee, limit, next_seq, insertion_time, origin, tx, d);
            &&& wf_entries(p, minimal_fee, limit, (next_seq + 1) as u64)
            &&& p.len() == s.len() + 1
            &&& has_slot(p, tx.sender, tx.nonce)
            &&& slot_idx(p, tx.sender, tx.nonce) == s.len()
            &&& p[s.len() as int].tx == tx
            &&& fee_sum(p, tx.sender) == fee_sum(s, tx.sender) + tx.fee
        }),
{
    let e = PoolEntry {
        tx: tx,
        origin: origin,
        insertion_seq: next_seq,
        insertion_time: insertion_time,
        is_pending: false,
    };
    let placed = s.push(e);
    assert(inserted_entries(s, limit, next_seq, insertion_time, origin, tx) == placed);
    assert(add_decision(s, minimal_fee, limit, next_seq, insertion_time, origin, tx, d) is Ok);
    lemma_add_keeps_wf(s, minimal_fee, limit, next_seq, insertion_time, origin, tx, d);
    let p = add_entries(s, minimal_fee, limit, next_seq, insertion_time, origin, tx, d);
    assert(p == repartition_sender(placed, tx.sender, d.nonce));
    assert(forall|j: int| #![trigger p[j]] 0 <= j < p.len() ==> p[j].tx == placed[j].tx);
    assert(p[s.len() as int].tx == tx);
    assert(has_slot(p, tx.sender, tx.nonce));
    let w = slot_idx(p, tx.sender, tx.nonce);
    assert(0 <= w < p.len() && p[w].tx.sender == tx.sender && p[w].tx.nonce == tx.nonce);
    if w != s.len() {
        assert(placed[w].tx == s[w].tx);
        assert(has_slot(s, tx.sender, tx.nonce));
    }
    lemma_fee_sum_same_txs(p, placed, tx.sender);
    lemma_fee_sum_push(s, e, tx.sender);
}

/// Replacement monotonicity: two transactions at one (sender, nonce) slot
/// with fees f1 < f2, submitted in either order into a pool with room for
/// one more entry, leave exactly one entry at that slot — the invariant
/// keeps slots unique — and it carries the higher fee.
pub proof fn lemma_replacement_monotonic(
    s: Seq<PoolEntry>,
    minimal_fee: u64,
    limit: usize,
    next_seq: u64,
    t_low: SignedTransaction,
    t_high: SignedTransaction,
    time1: u64,
    time2: u64,
    o1: TransactionOrigin,
    o2: TransactionOrigin,
    d: AccountDetails,
)
    requires
        wf_entries(s, minimal_fee, limit, next_seq),
        next_seq + 2 <= u64::MAX,
        t_low.sender == t_high.sender,
        t_low.nonce == t_high.nonce,
        t_low.fee < t_high.fee,
        t_low.hash != t_high.hash,
        t_low.fee >= minimal_fee,
        !has_slot(s, t_low.sender, t_low.nonce),
        s.len() < limit,
        balance_needed(s, t_low) <= d.balance,
        balance_needed(s, t_high) <= d.balance,
    ensures
        ({
            let p1 = add_entries(s, minimal_fee, limit, next_seq, time1, o1, t_low, d);
            let p2 = add_entries(p1, minimal_fee, limit, (next_seq + 1) as u64, time2, o2, t_high, d);
            &&& add_decision(s, minimal_fee, limit, next_seq, time1, o1, t_low, d) is Ok
            &&& add_decision(p1, minimal_fee, limit, (next_seq + 1) as u64, time2, o2, t_high, d) is Ok
            &&& wf_entries(p2, minimal_fee, limit, (next_seq + 2) as u64)
            &&& has_slot(p2, t_high.sender, t_high.nonce)
            &&& p2[slot_idx(p2, t_high.sender, t_high.nonce)].tx.fee == t_high.fee
        }),
        ({
            let q1 = add_entries(s, minimal_fee, limit, next_seq, time1, o1, t_high, d);
            &&& add_decision(s, minimal_fee, limit, next_seq, time1, o1, t_high, d) is Ok
            &&& add_decision(q1, minimal_fee, limit, (next_seq + 1) as u64, time2, o2, t_low, d)
                == Err::<TransactionImportResult, Error>(Error::TooCheapToReplace)
            &&& add_entries(q1, minimal_fee, limit, (next_seq + 1) as u64, time2, o2, t_low, d) == q1
            &&& wf_entries(q1, minimal_fee, limit, (next_seq + 1) as u64)
            &&& has_slot(q1, t_high.sender, t_high.nonce)
            &&& q1[slot_idx(q1, t_high.sender, t_high.nonce)].tx.fee == t_high.fee
        }),
{
    let sender = t_low.sender;
    let nonce = t_low.nonce;
    // Low fee first, then the higher fee replaces it.
    lemma_add_fresh_slot(s, minimal_fee, limit, next_seq, time1, o1, t_low, d);
    let p1 = add_entries(s, minimal_fee, limit, next_seq, time1, o1, t_low, d);
    let i1 = slot_idx(p1, sender, nonce);
    assert(i1 == s.len() && p1[i1].tx == t_low);
    assert(fee_sum(p1, sender) == fee_sum(s, sender) + t_low.fee);
    assert(balance_needed(p1, t_high) == fee_sum(s, sender) + t_high.fee);
    assert(add_decision(p1, minimal_fee, limit, (next_seq + 1) as u64, time2, o2, t_high, d) is Ok);
    lemma_add_keeps_wf(p1, minimal_fee, limit, (next_seq + 1) as u64, time2, o2, t_high, d);
    let e2 = PoolEntry {
        tx: t_high,
        origin: o2,
        insertion_seq: (next_seq + 1) as u64,
        insertion_time: time2,
        is_pending: false,
    };
    let placed2 = p1.update(i1, e2);
    assert(inserted_entries(p1, limit, (next_seq + 1) as u64, time2, o2, t_high) == placed2);
    let p2 = add_entries(p1, minimal_fee, limit, (next_seq + 1) as u64, time2, o2, t_high, d);
    assert(p2 == repartition_sender(placed2, sender, d.nonce));
    assert(forall|j: int| #![trigger p2[j]] 0 <= j < p2.len() ==> p2[j].tx == placed2[j].tx);
    assert(p2[i1].tx == t_high);
    assert(has_slot(p2, sender, nonce));
    let w2 = slot_idx(p2, sender, nonce);
    assert(0 <= w2 < p2.len() && p2[w2].tx.sender == sender && p2[w2].tx.nonce == nonce);
    if w2 != i1 {
        assert(placed2[w2].tx == p1[w2].tx);
        if w2 < i1 {
            assert(p1[w2].tx == s[w2].tx);
            assert(has_slot(s, sender, nonce));
        }
    }
    assert(p2[w2].tx.fee == t_high.fee);
    // Higher fee first, then the lower fee is too cheap to replace it.
    lemma_add_fresh_slot(s, minimal_fee, limit, next_seq, time1, o1, t_high, d);
    let q1 = add_entries(s, minimal_fee, limit, next_seq, time1, o1, t_high, d);
    let j1 = slot_idx(q1, sender, nonce);
    assert(j1 == s.len() && q1[j1].tx == t_high);
    assert(q1[j1].tx.hash == t_high.hash && q1[j1].tx.hash != t_low.hash);
    assert(q1[j1].tx.fee >= t_low.fee);
    assert(add_decision(q1, minimal_fee, limit, (next_seq + 1) as u64, time2, o2, t_low, d)
        == Err::<TransactionImportResult, Error>(Error::TooCheapToReplace));
}

} // verus!
