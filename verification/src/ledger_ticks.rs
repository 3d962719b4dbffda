//! Checking the ticks of a ledger, slot by slot.
//!
//! The walk starts from the zeroth slot and visits every slot that chains from
//! it, children after parents, last listed child first. Each slot that is not
//! the last of its fork must hold exactly one slot's worth of ticks for every
//! slot number it advances past its parent, and each slot's entries must
//! verify as a chain from the last entry of its parent. Reading a slot's
//! entries and next slots from the ledger is left to the caller: the walk
//! names the slot to read and the hash its entries must chain from, and is
//! told what was read.

use vstd::prelude::*;

use crate::keys::EntryHash;

verus! {

/// What the walk needs of one entry of the ledger.
#[derive(Clone, Copy, Debug)]
pub struct EntryInfo {
    pub hash: EntryHash,
    pub is_tick: bool,
}

/// A slot waiting to be read, with the slot it chains from and the hash of
/// that slot's last entry.
#[derive(Clone, Copy, Debug)]
pub struct PendingSlot {
    pub slot: u64,
    pub parent_slot: u64,
    pub last_id: EntryHash,
}

/// Why a ledger fails the tick check.
#[derive(Clone, Copy, Debug)]
pub enum TickCheckError {
    /// The slot holds no entries.
    EmptySlot { slot: u64 },
    /// The slot's entries do not verify as a chain from its parent's last entry.
    BrokenChain { slot: u64 },
    /// The slot number lies below its parent's, or the expected tick count
    /// does not fit in a `usize`.
    TickCountOverflow { slot: u64, parent_slot: u64 },
    /// The slot does not hold a full set of ticks.
    WrongTickCount { slot: u64, expected: usize, found: usize },
}

/// What the ledger told the walk.
pub enum LedgerEvent {
    /// The zeroth slot's entries and the slots that chain from it.
    ZerothSlot { entries: Vec<EntryInfo>, next_slots: Vec<u64> },
    /// The slot the walk asked for: the slots that chain from it, whether its
    /// entries verify as a chain from the hash it was handed out with, and
    /// its entries.
    SlotRead { next_slots: Vec<u64>, entries_verified: bool, entries: Vec<EntryInfo> },
}

/// What the walk asks for next.
#[derive(Clone, Copy, Debug)]
pub enum LedgerAction {
    /// Read this slot and report it.
    ReadSlot(PendingSlot),
    /// Every slot has been checked.
    Finished,
    /// The ledger fails the check.
    Failed(TickCheckError),
}

/// Where the walk stands.
#[derive(Clone, Copy, Debug)]
pub enum WalkPhase {
    /// Waiting for the zeroth slot.
    Start,
    /// Waiting for the report on this slot.
    Reading(PendingSlot),
    /// Finished or failed.
    Done,
}

/// The state of a tick check over a ledger.
pub struct LedgerTickWalk {
    ticks_per_slot: usize,
    pending: Vec<PendingSlot>,
    phase: WalkPhase,
}

/// The number of ticks among the entries.
pub open spec fn count_ticks(entries: Seq<EntryInfo>) -> nat
    decreases entries.len(),
{
    if entries.len() == 0 {
        0
    } else {
        count_ticks(entries.drop_last()) + if entries.last().is_tick {
            1nat
        } else {
            0nat
        }
    }
}

/// The slots that chain from `parent_slot`, in the order listed, each to be
/// checked against the parent's last entry hash.
pub open spec fn pending_children(next_slots: Seq<u64>, parent_slot: u64, last_id: EntryHash) -> Seq<
    PendingSlot,
> {
    Seq::new(
        next_slots.len(),
        |i: int| PendingSlot { slot: next_slots[i], parent_slot, last_id },
    )
}

/// The ticks a slot must hold when it is not the last of its fork: one slot's
/// worth for each slot number it advances past its parent.
pub open spec fn full_ticks(slot: PendingSlot, ticks_per_slot: usize) -> int {
    (slot.slot - slot.parent_slot) * ticks_per_slot
}

/// The outcome of checking one slot: the hash its children chain from, or why
/// it fails. The checks come in this order: the expected tick count must be
/// computable (only when the slot has next slots), the entries must verify,
/// the tick count must be full (only when the slot has next slots), and the
/// slot must hold an entry.
pub open spec fn slot_outcome(
    slot: PendingSlot,
    ticks_per_slot: usize,
    next_slots: Seq<u64>,
    entries_verified: bool,
    entries: Seq<EntryInfo>,
) -> Result<EntryHash, TickCheckError> {
    if next_slots.len() > 0 && (slot.slot < slot.parent_slot || full_ticks(slot, ticks_per_slot)
        > usize::MAX) {
        Err(TickCheckError::TickCountOverflow { slot: slot.slot, parent_slot: slot.parent_slot })
    } else if !entries_verified {
        Err(TickCheckError::BrokenChain { slot: slot.slot })
    } else if next_slots.len() > 0 && count_ticks(entries) != full_ticks(slot, ticks_per_slot) {
        Err(
            TickCheckError::WrongTickCount {
                slot: slot.slot,
                expected: full_ticks(slot, ticks_per_slot) as usize,
                found: count_ticks(entries) as usize,
            },
        )
    } else if entries.len() == 0 {
        Err(TickCheckError::EmptySlot { slot: slot.slot })
    } else {
        Ok(entries.last().hash)
    }
}

impl LedgerTickWalk {
    /// The slots still to be read; the last is read first.
    pub closed spec fn pending(&self) -> Seq<PendingSlot> {
        self.pending@
    }

    /// Where the walk stands.
    pub closed spec fn phase(&self) -> WalkPhase {
        self.phase
    }

    /// The number of ticks in a full slot.
    pub closed spec fn spec_ticks_per_slot(&self) -> usize {
        self.ticks_per_slot
    }

    /// A walk that waits for the zeroth slot.
    pub fn new(ticks_per_slot: usize) -> (walk: LedgerTickWalk)
        ensures
            walk.spec_ticks_per_slot() == ticks_per_slot,
            walk.pending().len() == 0,
            walk.phase() is Start,
    {
        LedgerTickWalk { ticks_per_slot, pending: Vec::new(), phase: WalkPhase::Start }
    }

    /// The walk after the slots in `stack` are left to read: the last of them
    /// is handed out, or the walk is finished when there are none.
    pub open spec fn spec_advance(stack: Seq<PendingSlot>) -> (Seq<PendingSlot>, WalkPhase, LedgerAction) {
        if stack.len() == 0 {
            (stack, WalkPhase::Done, LedgerAction::Finished)
        } else {
            (stack.drop_last(), WalkPhase::Reading(stack.last()), LedgerAction::ReadSlot(stack.last()))
        }
    }

    fn advance(&mut self) -> (action: LedgerAction)
        ensures
            old(self).pending().len() == 0 ==> action is Finished && final(self).phase() is Done
                && final(self).pending().len() == 0,
            old(self).pending().len() > 0 ==> action == LedgerAction::ReadSlot(
                old(self).pending().last(),
            ) && final(self).phase() == WalkPhase::Reading(old(self).pending().last())
                && final(self).pending() == old(self).pending().drop_last(),
            final(self).spec_ticks_per_slot() == old(self).spec_ticks_per_slot(),
            (final(self).pending(), final(self).phase(), action) == Self::spec_advance(
                old(self).pending(),
            ),
    {
        match self.pending.pop() {
            Some(next) => {
                self.phase = WalkPhase::Reading(next);
                LedgerAction::ReadSlot(next)
            },
            None => {
                self.phase = WalkPhase::Done;
                LedgerAction::Finished
            },
        }
    }

    /// Puts the slots that chain from `parent_slot` on the stack, in the order listed.
    fn push_children(&mut self, next_slots: &Vec<u64>, parent_slot: u64, last_id: EntryHash)
        ensures
            final(self).spec_ticks_per_slot() == old(self).spec_ticks_per_slot(),
            final(self).phase() == old(self).phase(),
            final(self).pending() == old(self).pending() + pending_children(
                next_slots@,
                parent_slot,
                last_id,
            ),
    {
        let ghost start = self.pending@;
        let mut k: usize = 0;
        while k < next_slots.len()
            invariant
                0 <= k <= next_slots@.len(),
                self.ticks_per_slot == old(self).ticks_per_slot,
                self.phase == old(self).phase,
                start == old(self).pending@,
                self.pending@ =~= start + pending_children(
                    next_slots@.subrange(0, k as int),
                    parent_slot,
                    last_id,
                ),
            decreases next_slots@.len() - k,
        {
            self.pending.push(PendingSlot { slot: next_slots[k], parent_slot, last_id });
            k = k + 1;
            assert(self.pending@ =~= start + pending_children(
                next_slots@.subrange(0, k as int),
                parent_slot,
                last_id,
            ));
        }
        assert(next_slots@.subrange(0, k as int) =~= next_slots@);
    }
}

/// Counts the ticks among the entries.
pub fn num_ticks(entries: &Vec<EntryInfo>) -> (n: usize)
    ensures
        n == entries@.filter(|e: EntryInfo| e.is_tick).len(),
        n == count_ticks(entries@),
{
    let mut n: usize = 0;
    let mut i: usize = 0;
    while i < entries.len()
        invariant
            0 <= i <= entries@.len(),
            n == entries@.subrange(0, i as int).filter(|e: EntryInfo| e.is_tick).len(),
            n <= i,
        decreases entries@.len() - i,
    {
        proof {
            let next = entries@.subrange(0, (i + 1) as int);
            assert(next.drop_last() =~= entries@.subrange(0, i as int));
            reveal_with_fuel(Seq::<EntryInfo>::filter, 1);
        }
        if entries[i].is_tick {
            n = n + 1;
        }
        i = i + 1;
    }
    assert(entries@.subrange(0, i as int) =~= entries@);
    proof {
        lemma_count_ticks_filter(entries@);
    }
    n
}

/// The tick count of entries is the number of entries marked as ticks.
pub proof fn lemma_count_ticks_filter(entries: Seq<EntryInfo>)
    ensures
        count_ticks(entries) == entries.filter(|e: EntryInfo| e.is_tick).len(),
    decreases entries.len(),
{
    reveal_with_fuel(Seq::<EntryInfo>::filter, 1);
    if entries.len() > 0 {
        lemma_count_ticks_filter(entries.drop_last());
    }
}

/// Counting ticks: no entries hold no tick, and an entry added at the end adds
/// one tick exactly when it is a tick.
pub proof fn lemma_count_ticks_push(entries: Seq<EntryInfo>, entry: EntryInfo)
    ensures
        count_ticks(Seq::<EntryInfo>::empty()) == 0,
        count_ticks(entries.push(entry)) == count_ticks(entries) + if entry.is_tick {
            1int
        } else {
            0int
        },
{
    lemma_count_ticks_filter(entries);
    lemma_count_ticks_filter(entries.push(entry));
    lemma_count_ticks_filter(Seq::<EntryInfo>::empty());
    reveal_with_fuel(Seq::<EntryInfo>::filter, 1);
    assert(entries.push(entry).drop_last() =~= entries);
}

/// The ticks a slot must hold when it has next slots, or `None` when that
/// number cannot be computed: the slot lies below its parent, or the number
/// does not fit in a `usize`.
pub fn expected_ticks(slot: &PendingSlot, ticks_per_slot: usize) -> (expected: Option<usize>)
    ensures
        match expected {
            Some(e) => slot.slot >= slot.parent_slot && e == full_ticks(*slot, ticks_per_slot),
            None => slot.slot < slot.parent_slot || full_ticks(*slot, ticks_per_slot) > usize::MAX,
        },
{
    if slot.slot < slot.parent_slot {
        return None;
    }
    let diff: u64 = slot.slot - slot.parent_slot;
    if ticks_per_slot == 0 {
        assert(full_ticks(*slot, ticks_per_slot) == 0) by (nonlinear_arith)
            requires ticks_per_slot == 0;
        return Some(0);
    }
    if diff > usize::MAX as u64 {
        assert(full_ticks(*slot, ticks_per_slot) > usize::MAX) by (nonlinear_arith)
            requires
                full_ticks(*slot, ticks_per_slot) == diff * ticks_per_slot,
                diff > usize::MAX,
                ticks_per_slot >= 1,
        ;
        return None;
    }
    let d = diff as usize;
    d.checked_mul(ticks_per_slot)
}

/// A slot's check succeeds exactly when its entries verify and are not empty
/// and, when other slots chain from it, it lies at or above its parent and
/// holds, of entries marked as ticks, exactly `ticks_per_slot` for each slot
/// number it advances past its parent (a number that fits in a `usize`); it
/// then hands on the hash of its last entry; a wrong tick count reports the ticks found and the
/// ticks due.
pub proof fn lemma_slot_outcome_passes(
    slot: PendingSlot,
    ticks_per_slot: usize,
    next_slots: Seq<u64>,
    entries_verified: bool,
    entries: Seq<EntryInfo>,
)
    ensures
        slot_outcome(slot, ticks_per_slot, next_slots, entries_verified, entries) is Ok
            <==> (entries_verified && entries.len() > 0 && (next_slots.len() > 0 ==> slot.parent_slot <= slot.slot
            && (slot.slot - slot.parent_slot) * ticks_per_slot <= usize::MAX && entries.filter(
            |e: EntryInfo| e.is_tick,
        ).len() == (slot.slot - slot.parent_slot) * ticks_per_slot)),
        slot_outcome(slot, ticks_per_slot, next_slots, entries_verified, entries) is Ok
            ==> slot_outcome(slot, ticks_per_slot, next_slots, entries_verified, entries)->Ok_0
            == entries.last().hash,
        entries.len() <= usize::MAX ==> (slot_outcome(
            slot,
            ticks_per_slot,
            next_slots,
            entries_verified,
            entries,
        ) matches Err(TickCheckError::WrongTickCount { slot: s, expected, found }) ==> s == slot.slot && found == entries.filter(|e: EntryInfo| e.is_tick).len()
            && expected == (slot.slot - slot.parent_slot) * ticks_per_slot && found != expected),
        // which failure is reported first
        next_slots.len() > 0 && (slot.slot < slot.parent_slot || (slot.slot - slot.parent_slot)
            * ticks_per_slot > usize::MAX) ==> slot_outcome(
            slot,
            ticks_per_slot,
            next_slots,
            entries_verified,
            entries,
        ) == Err::<EntryHash, TickCheckError>(
            TickCheckError::TickCountOverflow { slot: slot.slot, parent_slot: slot.parent_slot },
        ),
        !entries_verified && !(next_slots.len() > 0 && (slot.slot < slot.parent_slot || (slot.slot
            - slot.parent_slot) * ticks_per_slot > usize::MAX)) ==> slot_outcome(
            slot,
            ticks_per_slot,
            next_slots,
            entries_verified,
            entries,
        ) == Err::<EntryHash, TickCheckError>(TickCheckError::BrokenChain { slot: slot.slot }),
        entries_verified && entries.len() == 0 && (next_slots.len() > 0 ==> slot.parent_slot
            <= slot.slot && (slot.slot - slot.parent_slot) * ticks_per_slot == 0) ==> slot_outcome(
            slot,
            ticks_per_slot,
            next_slots,
            entries_verified,
            entries,
        ) == Err::<EntryHash, TickCheckError>(TickCheckError::EmptySlot { slot: slot.slot }),
{
    lemma_count_ticks_filter(entries);
    lemma_ticks_within_entries(entries);
}

/// There are never more ticks than entries.
proof fn lemma_ticks_within_entries(entries: Seq<EntryInfo>)
    ensures
        entries.filter(|e: EntryInfo| e.is_tick).len() <= entries.len(),
    decreases entries.len(),
{
    reveal_with_fuel(Seq::<EntryInfo>::filter, 1);
    if entries.len() > 0 {
        lemma_ticks_within_entries(entries.drop_last());
    }
}

/// Checks one slot the walk handed out: the outcome is the hash its children
/// chain from, or why the ledger fails.
pub fn check_slot(
    slot: &PendingSlot,
    ticks_per_slot: usize,
    next_slots: &Vec<u64>,
    entries_verified: bool,
    entries: &Vec<EntryInfo>,
) -> (outcome: Result<EntryHash, TickCheckError>)
    ensures
        outcome == slot_outcome(*slot, ticks_per_slot, next_slots@, entries_verified, entries@),
        outcome is Ok <==> (entries_verified && entries@.len() > 0 && (next_slots@.len() > 0 ==> slot.parent_slot <= slot.slot
            && (slot.slot - slot.parent_slot) * ticks_per_slot <= usize::MAX && entries@.filter(
            |e: EntryInfo| e.is_tick,
        ).len() == (slot.slot - slot.parent_slot) * ticks_per_slot)),
        outcome is Ok ==> outcome->Ok_0 == entries@.last().hash,
        outcome matches Err(TickCheckError::WrongTickCount { slot: s, expected, found }) ==> s
            == slot.slot && found == entries@.filter(|e: EntryInfo| e.is_tick).len() && expected
            == (slot.slot - slot.parent_slot) * ticks_per_slot && found != expected,
{
    proof {
        lemma_slot_outcome_passes(*slot, ticks_per_slot, next_slots@, entries_verified, entries@);
    }
    // If the slot is not the last of its fork, it should hold a full set of ticks
    let should_verify_ticks = if next_slots.len() > 0 {
        match expected_ticks(slot, ticks_per_slot) {
            Some(e) => Some(e),
            None => {
                return Err(
                    TickCheckError::TickCountOverflow {
                        slot: slot.slot,
                        parent_slot: slot.parent_slot,
                    },
                );
            },
        }
    } else {
        None
    };
    if !entries_verified {
        return Err(TickCheckError::BrokenChain { slot: slot.slot });
    }
    let found = num_ticks(entries);
    if let Some(expected) = should_verify_ticks {
        if found != expected {
            return Err(TickCheckError::WrongTickCount { slot: slot.slot, expected, found });
        }
    }
    if entries.len() == 0 {
        return Err(TickCheckError::EmptySlot { slot: slot.slot });
    }
    Ok(entries[entries.len() - 1].hash)
}

/// One step of the ledger tick check: takes in what was read of the ledger and
/// says what to read next, that the walk is finished, or why the ledger fails.
///
/// The zeroth slot is not itself checked; the slots chaining from it are
/// stacked with the zeroth slot as parent and its last entry hash. A slot that
/// passes `slot_outcome` has the slots chaining from it stacked in the order
/// listed, with itself as parent and its last entry hash; the last slot on the
/// stack is handed out next.
pub fn verify_ledger_ticks(walk: &mut LedgerTickWalk, event: LedgerEvent) -> (action: LedgerAction)
    requires
        (old(walk).phase() is Start && event is ZerothSlot) || (old(walk).phase() is Reading
            && event is SlotRead),
    ensures
        final(walk).spec_ticks_per_slot() == old(walk).spec_ticks_per_slot(),
        match event {
            LedgerEvent::ZerothSlot { entries, next_slots } => if entries@.len() == 0 {
                &&& action == LedgerAction::Failed(TickCheckError::EmptySlot { slot: 0 })
                &&& final(walk).phase() is Done
                &&& final(walk).pending() == old(walk).pending()
            } else {
                (final(walk).pending(), final(walk).phase(), action)
                    == LedgerTickWalk::spec_advance(
                    old(walk).pending() + pending_children(
                        next_slots@,
                        0,
                        entries@.last().hash,
                    ),
                )
            },
            LedgerEvent::SlotRead { next_slots, entries_verified, entries } => {
                let slot = old(walk).phase()->Reading_0;
                match slot_outcome(
                    slot,
                    old(walk).spec_ticks_per_slot(),
                    next_slots@,
                    entries_verified,
                    entries@,
                ) {
                    Err(e) => {
                        &&& action == LedgerAction::Failed(e)
                        &&& final(walk).phase() is Done
                        &&& final(walk).pending() == old(walk).pending()
                    },
                    Ok(last_id) => (final(walk).pending(), final(walk).phase(), action)
                        == LedgerTickWalk::spec_advance(
                        old(walk).pending() + pending_children(next_slots@, slot.slot, last_id),
                    ),
                }
            },
        },
        // the slot handed out is the slot the walk then waits for
        final(walk).phase() is Reading ==> action == LedgerAction::ReadSlot(
            final(walk).phase()->Reading_0,
        ),
        action is ReadSlot ==> final(walk).phase() is Reading,
        action is Finished ==> final(walk).pending().len() == 0,
        // the last listed child of a slot that passes is handed out next, to be
        // checked from the hash of that slot's last entry
        match event {
            LedgerEvent::ZerothSlot { entries, next_slots } => entries@.len() > 0
                && next_slots@.len() > 0 ==> action == LedgerAction::ReadSlot(
                PendingSlot { slot: next_slots@.last(), parent_slot: 0, last_id: entries@.last().hash },
            ),
            LedgerEvent::SlotRead { next_slots, entries_verified, entries } => {
                let slot = old(walk).phase()->Reading_0;
                (entries_verified && entries@.len() > 0 && (next_slots@.len() > 0
                    ==> slot.parent_slot <= slot.slot && (slot.slot - slot.parent_slot)
                    * old(walk).spec_ticks_per_slot() <= usize::MAX && entries@.filter(
                    |e: EntryInfo| e.is_tick,
                ).len() == (slot.slot - slot.parent_slot) * old(walk).spec_ticks_per_slot()))
                    ==> if next_slots@.len() > 0 {
                    action == LedgerAction::ReadSlot(
                        PendingSlot {
                            slot: next_slots@.last(),
                            parent_slot: slot.slot,
                            last_id: entries@.last().hash,
                        },
                    )
                } else if old(walk).pending().len() > 0 {
                    action == LedgerAction::ReadSlot(old(walk).pending().last())
                } else {
                    action is Finished
                }
            },
        },
{
    match event {
        LedgerEvent::ZerothSlot { entries, next_slots } => {
            if entries.len() == 0 {
                walk.phase = WalkPhase::Done;
                return LedgerAction::Failed(TickCheckError::EmptySlot { slot: 0 });
            }
            let last_id = entries[entries.len() - 1].hash;
            walk.push_children(&next_slots, 0, last_id);
            walk.advance()
        },
        LedgerEvent::SlotRead { next_slots, entries_verified, entries } => {
            let slot = match walk.phase {
                WalkPhase::Reading(p) => p,
                _ => {
                    return LedgerAction::Finished;
                },
            };
            match check_slot(&slot, walk.ticks_per_slot, &next_slots, entries_verified, &entries) {
                Err(e) => {
                    walk.phase = WalkPhase::Done;
                    LedgerAction::Failed(e)
                },
                Ok(last_id) => {
                    walk.push_children(&next_slots, slot.slot, last_id);
                    walk.advance()
                },
            }
        },
    }
}


/// A slot that is not the last of its fork passes only with a full set of
/// ticks, with entries that verify from its parent's last entry, and with at
/// least one entry, whose hash its children then chain from.
pub proof fn lemma_passing_slot_is_full(
    slot: PendingSlot,
    ticks_per_slot: usize,
    next_slots: Seq<u64>,
    entries_verified: bool,
    entries: Seq<EntryInfo>,
)
    requires
        slot_outcome(slot, ticks_per_slot, next_slots, entries_verified, entries) is Ok,
    ensures
        entries_verified,
        entries.len() > 0,
        slot_outcome(slot, ticks_per_slot, next_slots, entries_verified, entries)->Ok_0
            == entries.last().hash,
        next_slots.len() > 0 ==> slot.parent_slot <= slot.slot && count_ticks(entries)
            == full_ticks(slot, ticks_per_slot),
{
}


/// The ticks of a slot that ends its fork are never counted: two such slots
/// whose entries verify alike, and that both hold entries ending in the same
/// hash (or both hold none), have the same outcome whatever ticks they hold.
pub proof fn lemma_leaf_ticks_unchecked(
    slot: PendingSlot,
    ticks_per_slot: usize,
    entries_verified: bool,
    entries1: Seq<EntryInfo>,
    entries2: Seq<EntryInfo>,
)
    requires
        entries1.len() == 0 <==> entries2.len() == 0,
        entries1.len() > 0 ==> entries1.last().hash == entries2.last().hash,
    ensures
        slot_outcome(slot, ticks_per_slot, Seq::empty(), entries_verified, entries1)
            == slot_outcome(slot, ticks_per_slot, Seq::empty(), entries_verified, entries2),
{
}


/// A ledger as the tick check sees it: the slots that chain from each slot,
/// each slot's entries, and whether a slot's entries verify as a chain from a
/// given hash.
pub struct LedgerModel {
    pub next_slots: Map<u64, Seq<u64>>,
    pub entries: Map<u64, Seq<EntryInfo>>,
    pub verifies: spec_fn(u64, EntryHash) -> bool,
}

/// Every slot chains only to higher slots, as in a ledger built slot after slot.
pub open spec fn ascending(ledger: LedgerModel) -> bool {
    forall|s: u64, i: int|
        0 <= i < ledger.next_slots[s].len() ==> #[trigger] ledger.next_slots[s][i] > s
}

/// The outcome of checking a slot of the ledger, handed out as `slot`.
pub open spec fn ledger_slot_outcome(ledger: LedgerModel, ticks_per_slot: usize, slot: PendingSlot) -> Result<
    EntryHash,
    TickCheckError,
> {
    slot_outcome(
        slot,
        ticks_per_slot,
        ledger.next_slots[slot.slot],
        (ledger.verifies)(slot.slot, slot.last_id),
        ledger.entries[slot.slot],
    )
}

/// The slot passes its check, and so does every slot that chains from it,
/// each handed out with its parent's last entry hash.
pub open spec fn subtree_passes(ledger: LedgerModel, ticks_per_slot: usize, slot: PendingSlot) -> bool
    decreases u64::MAX - slot.slot + 1, 0int,
{
    match ledger_slot_outcome(ledger, ticks_per_slot, slot) {
        Err(_) => false,
        Ok(last_id) => children_pass(
            ledger,
            ticks_per_slot,
            slot.slot,
            last_id,
            ledger.next_slots[slot.slot],
        ),
    }
}

/// Each of the listed slots lies above `parent_slot` and passes, with all that
/// chains from it, when handed out with `parent_slot` as parent and `last_id`
/// as the hash to chain from.
pub open spec fn children_pass(
    ledger: LedgerModel,
    ticks_per_slot: usize,
    parent_slot: u64,
    last_id: EntryHash,
    next_slots: Seq<u64>,
) -> bool
    decreases u64::MAX - parent_slot, next_slots.len(),
{
    if next_slots.len() == 0 {
        true
    } else {
        &&& children_pass(ledger, ticks_per_slot, parent_slot, last_id, next_slots.drop_last())
        &&& next_slots.last() > parent_slot
        &&& subtree_passes(
            ledger,
            ticks_per_slot,
            PendingSlot { slot: next_slots.last(), parent_slot, last_id },
        )
    }
}

/// The `i`-th listed slot lies above `parent_slot` and passes, with all that
/// chains from it.
pub open spec fn child_passes(
    ledger: LedgerModel,
    ticks_per_slot: usize,
    parent_slot: u64,
    last_id: EntryHash,
    next_slots: Seq<u64>,
    i: int,
) -> bool {
    next_slots[i] > parent_slot && subtree_passes(
        ledger,
        ticks_per_slot,
        PendingSlot { slot: next_slots[i], parent_slot, last_id },
    )
}

proof fn lemma_children_pass_each(
    ledger: LedgerModel,
    ticks_per_slot: usize,
    parent_slot: u64,
    last_id: EntryHash,
    next_slots: Seq<u64>,
)
    requires
        children_pass(ledger, ticks_per_slot, parent_slot, last_id, next_slots),
    ensures
        forall|i: int|
            0 <= i < next_slots.len() ==> #[trigger] child_passes(
                ledger,
                ticks_per_slot,
                parent_slot,
                last_id,
                next_slots,
                i,
            ),
    decreases next_slots.len(),
{
    if next_slots.len() > 0 {
        let rest = next_slots.drop_last();
        let n = next_slots.len() - 1;
        lemma_children_pass_each(ledger, ticks_per_slot, parent_slot, last_id, rest);
        assert forall|i: int| 0 <= i < next_slots.len() implies #[trigger] child_passes(
            ledger,
            ticks_per_slot,
            parent_slot,
            last_id,
            next_slots,
            i,
        ) by {
            if i < n {
                assert(child_passes(ledger, ticks_per_slot, parent_slot, last_id, rest, i));
                assert(rest[i] == next_slots[i]);
            } else {
                assert(next_slots.last() == next_slots[i]);
            }
        }
    }
}

proof fn lemma_each_child_passes(
    ledger: LedgerModel,
    ticks_per_slot: usize,
    parent_slot: u64,
    last_id: EntryHash,
    next_slots: Seq<u64>,
)
    requires
        forall|i: int|
            0 <= i < next_slots.len() ==> #[trigger] child_passes(
                ledger,
                ticks_per_slot,
                parent_slot,
                last_id,
                next_slots,
                i,
            ),
    ensures
        children_pass(ledger, ticks_per_slot, parent_slot, last_id, next_slots),
    decreases next_slots.len(),
{
    if next_slots.len() > 0 {
        let rest = next_slots.drop_last();
        let n = next_slots.len() - 1;
        assert forall|i: int| 0 <= i < rest.len() implies #[trigger] child_passes(
            ledger,
            ticks_per_slot,
            parent_slot,
            last_id,
            rest,
            i,
        ) by {
            assert(child_passes(ledger, ticks_per_slot, parent_slot, last_id, next_slots, i));
            assert(rest[i] == next_slots[i]);
        }
        lemma_each_child_passes(ledger, ticks_per_slot, parent_slot, last_id, rest);
        assert(child_passes(ledger, ticks_per_slot, parent_slot, last_id, next_slots, n));
        assert(next_slots.last() == next_slots[n]);
    }
}

/// Every slot on the stack passes, with all that chains from it.
pub open spec fn stack_passes(ledger: LedgerModel, ticks_per_slot: usize, stack: Seq<PendingSlot>) -> bool {
    forall|i: int| 0 <= i < stack.len() ==> #[trigger] subtree_passes(ledger, ticks_per_slot, stack[i])
}

/// The slot being read, if any, passes with all that chains from it.
pub open spec fn phase_passes(ledger: LedgerModel, ticks_per_slot: usize, phase: WalkPhase) -> bool {
    match phase {
        WalkPhase::Reading(slot) => subtree_passes(ledger, ticks_per_slot, slot),
        _ => true,
    }
}

/// The ledger passes the tick check: the zeroth slot holds an entry, and every
/// slot that chains from it passes, with all that chains from those.
pub open spec fn ledger_passes(ledger: LedgerModel, ticks_per_slot: usize) -> bool {
    &&& ledger.entries[0].len() > 0
    &&& stack_passes(
        ledger,
        ticks_per_slot,
        pending_children(ledger.next_slots[0], 0, ledger.entries[0].last().hash),
    )
}

proof fn lemma_stack_passes_append(
    ledger: LedgerModel,
    ticks_per_slot: usize,
    a: Seq<PendingSlot>,
    b: Seq<PendingSlot>,
)
    ensures
        stack_passes(ledger, ticks_per_slot, a + b) == (stack_passes(ledger, ticks_per_slot, a)
            && stack_passes(ledger, ticks_per_slot, b)),
{
    if stack_passes(ledger, ticks_per_slot, a + b) {
        assert forall|i: int| 0 <= i < a.len() implies #[trigger] subtree_passes(ledger, ticks_per_slot, a[i]) by {
            assert((a + b)[i] == a[i]);
        }
        assert forall|i: int| 0 <= i < b.len() implies #[trigger] subtree_passes(ledger, ticks_per_slot, b[i]) by {
            assert((a + b)[a.len() + i] == b[i]);
        }
    }
}

proof fn lemma_advance_outcome(ledger: LedgerModel, ticks_per_slot: usize, stack: Seq<PendingSlot>)
    ensures
        ({
            let (pending, phase, action) = LedgerTickWalk::spec_advance(stack);
            &&& stack_passes(ledger, ticks_per_slot, stack) == (stack_passes(ledger, ticks_per_slot, pending)
                && phase_passes(ledger, ticks_per_slot, phase))
            &&& (action is Finished ==> pending.len() == 0)
        }),
{
    if stack.len() > 0 {
        assert(stack =~= stack.drop_last() + seq![stack.last()]);
        lemma_stack_passes_append(ledger, ticks_per_slot, stack.drop_last(), seq![stack.last()]);
        assert(subtree_passes(ledger, ticks_per_slot, seq![stack.last()][0]) == subtree_passes(ledger, ticks_per_slot, stack.last()));
    }
}

/// Reading the zeroth slot of a ledger settles the outcome of the whole check: with no
/// entry there the ledger fails; otherwise it passes exactly when the slots
/// left to read and the slot handed out next pass. With no slot to read, the
/// check finishes and the ledger passes.
pub proof fn lemma_zeroth_step_outcome(ledger: LedgerModel, ticks_per_slot: usize)
    ensures
        ledger.entries[0].len() == 0 ==> !ledger_passes(ledger, ticks_per_slot),
        ledger.entries[0].len() > 0 ==> ({
            let (pending, phase, action) = LedgerTickWalk::spec_advance(
                Seq::<PendingSlot>::empty() + pending_children(
                    ledger.next_slots[0],
                    0,
                    ledger.entries[0].last().hash,
                ),
            );
            &&& ledger_passes(ledger, ticks_per_slot) == (stack_passes(ledger, ticks_per_slot, pending)
                && phase_passes(ledger, ticks_per_slot, phase))
            &&& (action is Finished ==> ledger_passes(ledger, ticks_per_slot))
        }),
{
    if ledger.entries[0].len() > 0 {
        let children = pending_children(ledger.next_slots[0], 0, ledger.entries[0].last().hash);
        assert(Seq::<PendingSlot>::empty() + children =~= children);
        lemma_advance_outcome(ledger, ticks_per_slot, children);
    }
}

/// Each read step of the tick check keeps the outcome of the whole check: when the report on the
/// slot handed out is what the ledger holds, a failure means that slot fails,
/// and otherwise the slot and the stack below it pass exactly when the slots
/// left to read and the slot handed out next pass. With nothing left to read,
/// the check finishes, and they pass.
pub proof fn lemma_read_step_outcome(
    ledger: LedgerModel,
    ticks_per_slot: usize,
    pending: Seq<PendingSlot>,
    slot: PendingSlot,
)
    requires
        ascending(ledger),
    ensures
        match ledger_slot_outcome(ledger, ticks_per_slot, slot) {
            Err(_) => !subtree_passes(ledger, ticks_per_slot, slot),
            Ok(last_id) => {
                let (pending2, phase2, action) = LedgerTickWalk::spec_advance(
                    pending + pending_children(ledger.next_slots[slot.slot], slot.slot, last_id),
                );
                &&& (subtree_passes(ledger, ticks_per_slot, slot) && stack_passes(
                    ledger,
                    ticks_per_slot,
                    pending,
                )) == (stack_passes(ledger, ticks_per_slot, pending2) && phase_passes(
                    ledger,
                    ticks_per_slot,
                    phase2,
                ))
                &&& (action is Finished ==> subtree_passes(ledger, ticks_per_slot, slot)
                    && stack_passes(ledger, ticks_per_slot, pending))
            },
        },
{
    match ledger_slot_outcome(ledger, ticks_per_slot, slot) {
        Err(_) => {},
        Ok(last_id) => {
            let next = ledger.next_slots[slot.slot];
            let children = pending_children(next, slot.slot, last_id);
            assert(stack_passes(ledger, ticks_per_slot, children) == subtree_passes(
                ledger,
                ticks_per_slot,
                slot,
            )) by {
                assert forall|i: int| 0 <= i < next.len() implies #[trigger] children[i]
                    == PendingSlot { slot: next[i], parent_slot: slot.slot, last_id } by {}
                if stack_passes(ledger, ticks_per_slot, children) {
                    assert forall|i: int| 0 <= i < next.len() implies #[trigger] child_passes(
                        ledger,
                        ticks_per_slot,
                        slot.slot,
                        last_id,
                        next,
                        i,
                    ) by {
                        assert(subtree_passes(ledger, ticks_per_slot, children[i]));
                        assert(next[i] > slot.slot);
                    }
                    lemma_each_child_passes(ledger, ticks_per_slot, slot.slot, last_id, next);
                }
                if subtree_passes(ledger, ticks_per_slot, slot) {
                    lemma_children_pass_each(ledger, ticks_per_slot, slot.slot, last_id, next);
                    assert forall|i: int| 0 <= i < children.len() implies #[trigger] subtree_passes(
                        ledger,
                        ticks_per_slot,
                        children[i],
                    ) by {
                        assert(child_passes(ledger, ticks_per_slot, slot.slot, last_id, next, i));
                    }
                }
            }
            lemma_stack_passes_append(ledger, ticks_per_slot, pending, children);
            lemma_advance_outcome(ledger, ticks_per_slot, pending + children);
        },
    }
}


/// The number of slots in the tree of slots that chain from `slot`, itself
/// included, following only links to higher slots.
pub open spec fn tree_size(ledger: LedgerModel, slot: u64) -> nat
    decreases u64::MAX - slot + 1, 0int,
{
    1 + forest_size(ledger, slot, ledger.next_slots[slot])
}

/// The number of slots in the trees of the listed slots that lie above
/// `parent_slot`.
pub open spec fn forest_size(ledger: LedgerModel, parent_slot: u64, next_slots: Seq<u64>) -> nat
    decreases u64::MAX - parent_slot, next_slots.len(),
{
    if next_slots.len() == 0 {
        0
    } else {
        forest_size(ledger, parent_slot, next_slots.drop_last()) + if next_slots.last()
            > parent_slot {
            tree_size(ledger, next_slots.last())
        } else {
            0
        }
    }
}

/// The number of slots the walk still has to read: the trees of the slots on
/// the stack.
pub open spec fn stack_size(ledger: LedgerModel, stack: Seq<PendingSlot>) -> nat
    decreases stack.len(),
{
    if stack.len() == 0 {
        0
    } else {
        stack_size(ledger, stack.drop_last()) + tree_size(ledger, stack.last().slot)
    }
}

/// The slots the walk has left to read: the trees of the stacked slots and of
/// the slot being read.
pub open spec fn slots_left(ledger: LedgerModel, pending: Seq<PendingSlot>, phase: WalkPhase) -> nat {
    stack_size(ledger, pending) + match phase {
        WalkPhase::Reading(slot) => tree_size(ledger, slot.slot),
        _ => 0,
    }
}

proof fn lemma_stack_size_append(ledger: LedgerModel, a: Seq<PendingSlot>, b: Seq<PendingSlot>)
    ensures
        stack_size(ledger, a + b) == stack_size(ledger, a) + stack_size(ledger, b),
    decreases b.len(),
{
    if b.len() > 0 {
        lemma_stack_size_append(ledger, a, b.drop_last());
        assert((a + b).drop_last() =~= a + b.drop_last());
        assert((a + b).last() == b.last());
    } else {
        assert(a + b =~= a);
    }
}

proof fn lemma_children_size(ledger: LedgerModel, parent_slot: u64, last_id: EntryHash, next_slots: Seq<u64>)
    requires
        forall|i: int| 0 <= i < next_slots.len() ==> #[trigger] next_slots[i] > parent_slot,
    ensures
        stack_size(ledger, pending_children(next_slots, parent_slot, last_id)) == forest_size(
            ledger,
            parent_slot,
            next_slots,
        ),
    decreases next_slots.len(),
{
    if next_slots.len() > 0 {
        let rest = next_slots.drop_last();
        assert forall|i: int| 0 <= i < rest.len() implies #[trigger] rest[i] > parent_slot by {
            assert(rest[i] == next_slots[i]);
        }
        lemma_children_size(ledger, parent_slot, last_id, rest);
        let c = pending_children(next_slots, parent_slot, last_id);
        assert(c.drop_last() =~= pending_children(rest, parent_slot, last_id));
        assert(next_slots[next_slots.len() - 1] > parent_slot);
    } else {
        assert(pending_children(next_slots, parent_slot, last_id) =~= Seq::<PendingSlot>::empty());
    }
}

/// Every read step that passes a slot leaves one slot fewer to read, so on a
/// finite ascending ledger the tick check ends: it finishes or fails after at
/// most as many reads as there are slots chaining from the zeroth one.
pub proof fn lemma_read_step_progress(
    ledger: LedgerModel,
    pending: Seq<PendingSlot>,
    slot: PendingSlot,
    last_id: EntryHash,
)
    requires
        ascending(ledger),
    ensures
        ({
            let (pending2, phase2, action) = LedgerTickWalk::spec_advance(
                pending + pending_children(ledger.next_slots[slot.slot], slot.slot, last_id),
            );
            slots_left(ledger, pending2, phase2) + 1 == slots_left(
                ledger,
                pending,
                WalkPhase::Reading(slot),
            )
        }),
{
    let next = ledger.next_slots[slot.slot];
    assert forall|i: int| 0 <= i < next.len() implies #[trigger] next[i] > slot.slot by {}
    lemma_children_size(ledger, slot.slot, last_id, next);
    let children = pending_children(next, slot.slot, last_id);
    lemma_stack_size_append(ledger, pending, children);
    let stack = pending + children;
    if stack.len() > 0 {
        assert(stack_size(ledger, stack) == stack_size(ledger, stack.drop_last()) + tree_size(
            ledger,
            stack.last().slot,
        ));
    }
}

/// Reading the zeroth slot leaves to read exactly the slots that chain from it.
pub proof fn lemma_zeroth_step_progress(ledger: LedgerModel, last_id: EntryHash)
    requires
        ascending(ledger),
    ensures
        ({
            let (pending, phase, action) = LedgerTickWalk::spec_advance(
                Seq::<PendingSlot>::empty() + pending_children(ledger.next_slots[0], 0, last_id),
            );
            slots_left(ledger, pending, phase) == forest_size(ledger, 0, ledger.next_slots[0])
        }),
{
    let next = ledger.next_slots[0];
    assert forall|i: int| 0 <= i < next.len() implies #[trigger] next[i] > 0u64 by {}
    lemma_children_size(ledger, 0, last_id, next);
    let stack = Seq::<PendingSlot>::empty() + pending_children(next, 0, last_id);
    assert(stack =~= pending_children(next, 0, last_id));
    if stack.len() > 0 {
        assert(stack_size(ledger, stack) == stack_size(ledger, stack.drop_last()) + tree_size(
            ledger,
            stack.last().slot,
        ));
    }
}


/// Two ledgers that differ only in the ticks of the zeroth slot and of slots
/// that end their fork: the same links and chain verification, the same
/// entries in every other slot, and in those slots entries that are both
/// empty or both end in the same hash.
pub open spec fn differ_in_unchecked_ticks(l1: LedgerModel, l2: LedgerModel) -> bool {
    &&& l1.next_slots == l2.next_slots
    &&& l1.verifies == l2.verifies
    &&& forall|s: u64|
        (s == 0 || l1.next_slots[s].len() == 0) ==> (#[trigger] l1.entries[s].len() == 0
            <==> l2.entries[s].len() == 0) && (l1.entries[s].len() > 0 ==> l1.entries[s].last().hash
            == l2.entries[s].last().hash)
    &&& forall|s: u64|
        s != 0 && l1.next_slots[s].len() > 0 ==> #[trigger] l1.entries[s] == l2.entries[s]
}

proof fn lemma_subtree_unchecked_ticks(
    l1: LedgerModel,
    l2: LedgerModel,
    ticks_per_slot: usize,
    slot: PendingSlot,
)
    requires
        ascending(l1),
        differ_in_unchecked_ticks(l1, l2),
        slot.slot != 0,
    ensures
        subtree_passes(l1, ticks_per_slot, slot) == subtree_passes(l2, ticks_per_slot, slot),
    decreases u64::MAX - slot.slot + 1, 0int,
{
    let next = l1.next_slots[slot.slot];
    let e1 = l1.entries[slot.slot];
    let e2 = l2.entries[slot.slot];
    if next.len() == 0 {
        assert(e1.len() == 0 <==> e2.len() == 0);
        lemma_leaf_ticks_unchecked(slot, ticks_per_slot, (l1.verifies)(slot.slot, slot.last_id), e1, e2);
        assert(next =~= Seq::<u64>::empty());
    } else {
        assert(e1 == e2);
    }
    assert(ledger_slot_outcome(l1, ticks_per_slot, slot) == ledger_slot_outcome(l2, ticks_per_slot, slot));
    match ledger_slot_outcome(l1, ticks_per_slot, slot) {
        Err(_) => {},
        Ok(last_id) => {
            lemma_children_unchecked_ticks(l1, l2, ticks_per_slot, slot.slot, last_id, next);
        },
    }
}

proof fn lemma_children_unchecked_ticks(
    l1: LedgerModel,
    l2: LedgerModel,
    ticks_per_slot: usize,
    parent_slot: u64,
    last_id: EntryHash,
    next_slots: Seq<u64>,
)
    requires
        ascending(l1),
        differ_in_unchecked_ticks(l1, l2),
    ensures
        children_pass(l1, ticks_per_slot, parent_slot, last_id, next_slots) == children_pass(
            l2,
            ticks_per_slot,
            parent_slot,
            last_id,
            next_slots,
        ),
    decreases u64::MAX - parent_slot, next_slots.len(),
{
    if next_slots.len() > 0 {
        lemma_children_unchecked_ticks(l1, l2, ticks_per_slot, parent_slot, last_id, next_slots.drop_last());
        if next_slots.last() > parent_slot {
            lemma_subtree_unchecked_ticks(
                l1,
                l2,
                ticks_per_slot,
                PendingSlot { slot: next_slots.last(), parent_slot, last_id },
            );
        }
    }
}

/// The tick counts of the zeroth slot and of slots that end their fork are
/// never checked: two ascending ledgers that differ only there both pass the
/// tick check or both fail it.
pub proof fn lemma_unchecked_ticks_do_not_matter(
    l1: LedgerModel,
    l2: LedgerModel,
    ticks_per_slot: usize,
)
    requires
        ascending(l1),
        differ_in_unchecked_ticks(l1, l2),
    ensures
        ledger_passes(l1, ticks_per_slot) == ledger_passes(l2, ticks_per_slot),
{
    let e1 = l1.entries[0];
    let e2 = l2.entries[0];
    assert(e1.len() == 0 <==> e2.len() == 0);
    if e1.len() > 0 {
        let next = l1.next_slots[0];
        let children = pending_children(next, 0, e1.last().hash);
        assert(e1.last().hash == e2.last().hash);
        assert forall|i: int| 0 <= i < children.len() implies subtree_passes(
            l1,
            ticks_per_slot,
            #[trigger] children[i],
        ) == subtree_passes(l2, ticks_per_slot, children[i]) by {
            assert(next[i] > 0);
            lemma_subtree_unchecked_ticks(l1, l2, ticks_per_slot, children[i]);
        }
        if ledger_passes(l1, ticks_per_slot) {
            assert forall|i: int| 0 <= i < children.len() implies #[trigger] subtree_passes(
                l2,
                ticks_per_slot,
                children[i],
            ) by {
                assert(subtree_passes(l1, ticks_per_slot, children[i]));
            }
        }
        if ledger_passes(l2, ticks_per_slot) {
            assert forall|i: int| 0 <= i < children.len() implies #[trigger] subtree_passes(
                l1,
                ticks_per_slot,
                children[i],
            ) by {
                assert(subtree_passes(l2, ticks_per_slot, children[i]));
            }
        }
    }
}


/// Moving on from a stack of slots to read hands out the slot the walk then
/// waits for, taken off the top of the stack; the walk finishes only when
/// the stack is empty.
pub proof fn lemma_advance_hands_out_top(stack: Seq<PendingSlot>)
    ensures
        ({
            let (pending, phase, action) = LedgerTickWalk::spec_advance(stack);
            &&& phase is Reading ==> action == LedgerAction::ReadSlot(phase->Reading_0)
                && pending.push(phase->Reading_0) == stack
            &&& action is Finished <==> stack.len() == 0
            &&& action is Finished ==> pending.len() == 0
        }),
{
    if stack.len() > 0 {
        assert(stack.drop_last().push(stack.last()) =~= stack);
    }
}

} // verus!
