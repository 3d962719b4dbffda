//! Decisions of the write stage: how many received entries fit before the
//! next leader rotation, how received batches accumulate, how the entry
//! height advances as batches are written, and why the write thread stops.

use vstd::arithmetic::div_mod::{lemma_add_mod_noop, lemma_small_mod};
use vstd::prelude::*;

use crate::leader_schedule::{leader_rotation_due, LeaderSchedule};

verus! {

/// Why the write thread stopped.
#[derive(Debug, PartialEq, Eq, Clone, Copy, Structural)]
pub enum WriteStageReturnType {
    LeaderRotation,
    ChannelDisconnected,
}

/// What went wrong in one round of writing and sending entries.
#[derive(Debug, PartialEq, Eq, Clone, Copy, Structural)]
pub enum WriteError {
    /// No entries arrived before the receive timed out.
    RecvTimeout,
    /// The channel that feeds the stage was closed.
    RecvDisconnected,
    /// Writing to the ledger, or sending on, failed.
    Other,
}


/// Whether keeping the first `kept` of `len` entries, starting at entry height
/// `entry_height`, stops exactly before the first rotation height: no height
/// before the cut is a rotation height, and `rotation` says whether the cut
/// lies on one. Without a rotation height among `entry_height ..=
/// entry_height + len`, the whole batch is kept.
pub open spec fn is_rotation_cut(
    schedule: LeaderSchedule,
    interval: u64,
    entry_height: int,
    len: nat,
    kept: nat,
    rotation: bool,
) -> bool {
    &&& kept <= len
    &&& forall|x: int|
        entry_height <= x < entry_height + kept ==> !#[trigger] schedule.rotates_at(interval, x)
    &&& rotation ==> schedule.rotates_at(interval, entry_height + kept)
    &&& !rotation ==> kept == len && !schedule.rotates_at(interval, entry_height + len)
}

/// The heights that `find_leader_rotation_index` computes stay within `u64`:
/// either the whole batch fits, or a rotation height that fits comes first.
pub open spec fn heights_fit(schedule: LeaderSchedule, interval: u64, entry_height: int, len: nat) -> bool {
    ||| entry_height + len <= u64::MAX
    ||| exists|x: int|
        entry_height <= x <= entry_height + len && x <= u64::MAX && #[trigger] schedule.rotates_at(
            interval,
            x,
        )
}

/// Between a height `x` and the next multiple of `interval` after it there is
/// no multiple of `interval`.
proof fn lemma_no_boundary_before_next(x: int, d: int, interval: int)
    requires
        interval > 0,
        0 < d < interval - x % interval,
    ensures
        (x + d) % interval != 0,
{
    lemma_add_mod_noop(x, d, interval);
    lemma_small_mod(d as nat, interval as nat);
    lemma_small_mod((x % interval + d) as nat, interval as nat);
}

/// Whether the heights that cutting a batch of `len` entries from
/// `entry_height` computes stay within `u64`: the batch's end fits, or a
/// rotation height that fits comes first. Only the heights up to `u64::MAX`
/// are examined, which are fewer than `len` when the batch's end does not fit.
pub fn batch_heights_fit(
    schedule: &LeaderSchedule,
    leader_rotation_interval: u64,
    entry_height: u64,
    len: usize,
) -> (fit: bool)
    requires
        leader_rotation_interval > 0,
    ensures
        fit == heights_fit(*schedule, leader_rotation_interval, entry_height as int, len as nat),
{
    if len as u64 <= u64::MAX - entry_height {
        return true;
    }
    let ghost h = entry_height as int;
    let mut x = entry_height;
    loop
        invariant
            leader_rotation_interval > 0,
            h == entry_height as int,
            h + len > u64::MAX,
            entry_height <= x,
            forall|y: int| h <= y < x ==> !#[trigger] schedule.rotates_at(leader_rotation_interval, y),
        decreases u64::MAX - x,
    {
        if leader_rotation_due(schedule, leader_rotation_interval, x) {
            assert(schedule.rotates_at(leader_rotation_interval, x as int));
            return true;
        }
        let step = leader_rotation_interval - x % leader_rotation_interval;
        if step > u64::MAX - x {
            proof {
                assert forall|y: int|
                    h <= y <= h + len && y <= u64::MAX implies !#[trigger] schedule.rotates_at(
                    leader_rotation_interval,
                    y,
                ) by {
                    if y > x {
                        lemma_no_boundary_before_next(
                            x as int,
                            y - x,
                            leader_rotation_interval as int,
                        );
                    }
                }
            }
            return false;
        }
        let ghost prev = x;
        x = x + step;
        proof {
            assert forall|y: int| h <= y < x implies !#[trigger] schedule.rotates_at(
                leader_rotation_interval,
                y,
            ) by {
                if y > prev {
                    lemma_no_boundary_before_next(
                        prev as int,
                        y - prev,
                        leader_rotation_interval as int,
                    );
                }
            }
        }
    }
}

/// Given a batch of entries to write, returns as many as fit before the entry
/// height at which leadership rotates, and whether that height was reached.
pub fn find_leader_rotation_index<E>(
    schedule: &LeaderSchedule,
    leader_rotation_interval: u64,
    entry_height: u64,
    new_entries: Vec<E>,
) -> (res: (Vec<E>, bool))
    requires
        leader_rotation_interval > 0,
        heights_fit(*schedule, leader_rotation_interval, entry_height as int, new_entries@.len()),
    ensures
        is_rotation_cut(
            *schedule,
            leader_rotation_interval,
            entry_height as int,
            new_entries@.len(),
            res.0@.len(),
            res.1,
        ),
        res.0@ == new_entries@.subrange(0, res.0@.len() as int),
{
    let mut new_entries = new_entries;
    let new_entries_length = new_entries.len();
    let ghost len = new_entries@.len();
    let ghost h = entry_height as int;

    // i is the number of entries to take
    let mut i: usize = 0;
    let mut is_leader_rotation = false;

    loop
        invariant_except_break
            h == entry_height as int,
            new_entries_length == len,
            new_entries@.len() == len,
            i <= new_entries_length,
            leader_rotation_interval > 0,
            heights_fit(*schedule, leader_rotation_interval, h, len),
            forall|x: int| h <= x < h + i ==> !#[trigger] schedule.rotates_at(leader_rotation_interval, x),
            !is_leader_rotation,
        ensures
            new_entries@.len() == len,
            i <= new_entries_length,
            forall|x: int| h <= x < h + i ==> !#[trigger] schedule.rotates_at(leader_rotation_interval, x),
            is_leader_rotation ==> schedule.rotates_at(leader_rotation_interval, h + i),
            !is_leader_rotation ==> i == len && !schedule.rotates_at(leader_rotation_interval, h + len),
        decreases new_entries_length - i,
    {
        proof {
            if h + len > u64::MAX {
                let w = choose|x: int|
                    h <= x <= h + len && x <= u64::MAX && #[trigger] schedule.rotates_at(
                        leader_rotation_interval,
                        x,
                    );
                assert(w >= h + i);
            }
        }
        let height = entry_height + i as u64;
        if leader_rotation_due(schedule, leader_rotation_interval, height) {
            is_leader_rotation = true;
            break;
        }
        if i == new_entries_length {
            break;
        }
        // How many more entries fit until the next leader rotation
        let entries_until_leader_rotation = leader_rotation_interval - (height
            % leader_rotation_interval);
        let remaining = new_entries_length - i;
        let ghost prev = i;
        if entries_until_leader_rotation < remaining as u64 {
            i = i + entries_until_leader_rotation as usize;
        } else {
            i = i + remaining;
        }
        proof {
            assert forall|x: int| h <= x < h + i implies !#[trigger] schedule.rotates_at(
                leader_rotation_interval,
                x,
            ) by {
                if x > h + prev {
                    lemma_no_boundary_before_next(
                        h + prev,
                        x - (h + prev),
                        leader_rotation_interval as int,
                    );
                }
            }
        }
    }
    new_entries.truncate(i);
    (new_entries, is_leader_rotation)
}

/// Total number of entries held in a sequence of batches.
pub open spec fn total_entries<E>(batches: Seq<Vec<E>>) -> nat
    decreases batches.len(),
{
    if batches.len() == 0 {
        0
    } else {
        total_entries(batches.drop_last()) + batches.last()@.len()
    }
}

/// The batches gathered in one round of the write stage, each cut short at
/// the next leader rotation, and how many entries they hold in all.
pub struct EntryBatches<E> {
    batches: Vec<Vec<E>>,
    num_new_entries: usize,
}

impl<E> EntryBatches<E> {
    /// The batches gathered so far, in the order received.
    pub closed spec fn batches(&self) -> Seq<Vec<E>> {
        self.batches@
    }

    /// The number of entries gathered so far.
    pub closed spec fn spec_num_new_entries(&self) -> nat {
        self.num_new_entries as nat
    }

    /// The count of new entries is the number of entries in the batches.
    pub open spec fn well_formed(&self) -> bool {
        self.spec_num_new_entries() == total_entries(self.batches())
    }

    /// No batches yet.
    pub fn new() -> (batches: EntryBatches<E>)
        ensures
            batches.batches().len() == 0,
            batches.spec_num_new_entries() == 0,
            batches.well_formed(),
    {
        EntryBatches { batches: Vec::new(), num_new_entries: 0 }
    }

    /// Takes in a received batch: keeps as many entries as fit before the next
    /// leader rotation, counting heights from `entry_height` plus the entries
    /// already gathered. Returns whether the stage should keep receiving,
    /// which it should unless the rotation height was reached. When no
    /// rotation height lay among the entries gathered before, none lies among
    /// those gathered after.
    pub fn accept(
        &mut self,
        schedule: &LeaderSchedule,
        leader_rotation_interval: u64,
        entry_height: u64,
        received: Vec<E>,
    ) -> (keep_receiving: bool)
        requires
            old(self).well_formed(),
            leader_rotation_interval > 0,
            entry_height + old(self).spec_num_new_entries() <= u64::MAX,
            heights_fit(
                *schedule,
                leader_rotation_interval,
                entry_height + old(self).spec_num_new_entries(),
                received@.len(),
            ),
            old(self).spec_num_new_entries() + received@.len() <= usize::MAX,
        ensures
            final(self).batches() == old(self).batches().push(final(self).batches().last()),
            final(self).batches().last()@ == received@.subrange(
                0,
                final(self).batches().last()@.len() as int,
            ),
            final(self).spec_num_new_entries() == old(self).spec_num_new_entries()
                + final(self).batches().last()@.len(),
            is_rotation_cut(
                *schedule,
                leader_rotation_interval,
                entry_height + old(self).spec_num_new_entries(),
                received@.len(),
                final(self).batches().last()@.len(),
                !keep_receiving,
            ),
            (forall|x: int|
                entry_height <= x < entry_height + old(self).spec_num_new_entries()
                    ==> !#[trigger] schedule.rotates_at(leader_rotation_interval, x)) ==> (forall|
                x: int,
            |
                entry_height <= x < entry_height + final(self).spec_num_new_entries()
                    ==> !#[trigger] schedule.rotates_at(leader_rotation_interval, x)),
            final(self).well_formed(),
    {
        let height = entry_height + self.num_new_entries as u64;
        let (new_entries, is_leader_rotation) = find_leader_rotation_index(
            schedule,
            leader_rotation_interval,
            height,
            received,
        );
        let ghost before = *self;
        let ghost old_batches = self.batches@;
        self.num_new_entries = self.num_new_entries + new_entries.len();
        self.batches.push(new_entries);
        proof {
            assert(self.batches@.drop_last() =~= old_batches);
            assert(self.batches@ =~= old_batches.push(self.batches@.last()));
            if forall|x: int|
                entry_height <= x < entry_height + before.spec_num_new_entries()
                    ==> !#[trigger] schedule.rotates_at(leader_rotation_interval, x) {
                lemma_round_stays_in_term(
                    before,
                    *self,
                    *schedule,
                    leader_rotation_interval,
                    entry_height,
                    received@,
                    !is_leader_rotation,
                );
            }
        }
        !is_leader_rotation
    }

    /// The number of entries gathered so far.
    pub fn num_new_entries(&self) -> (n: usize)
        ensures
            n == self.spec_num_new_entries(),
    {
        self.num_new_entries
    }

    /// Hands out the gathered batches.
    pub fn into_batches(self) -> (batches: Vec<Vec<E>>)
        ensures
            batches@ == self.batches(),
    {
        self.batches
    }
}

/// Records that a batch of `batch_len` entries reached the ledger: the entry
/// height advances by that many. Returns whether the batch must be sent on,
/// which is so when it is not empty.
pub fn commit_written_batch(entry_height: &mut u64, batch_len: usize) -> (send: bool)
    requires
        *old(entry_height) + batch_len <= u64::MAX,
    ensures
        *final(entry_height) == *old(entry_height) + batch_len,
        send == (batch_len > 0),
{
    *entry_height = *entry_height + batch_len as u64;
    batch_len > 0
}

/// How the write thread answers an error of one round: it stops when the
/// channel feeding it is closed, and otherwise carries on.
pub fn write_error_outcome(error: &WriteError) -> (outcome: Option<WriteStageReturnType>)
    ensures
        outcome == (match *error {
            WriteError::RecvDisconnected => Some(WriteStageReturnType::ChannelDisconnected),
            _ => None::<WriteStageReturnType>,
        }),
{
    match error {
        WriteError::RecvDisconnected => Some(WriteStageReturnType::ChannelDisconnected),
        WriteError::RecvTimeout => None,
        WriteError::Other => None,
    }
}

/// The write thread stops for a leader rotation exactly when the entry height
/// it has reached ends this node's term.
pub fn rotation_outcome(
    schedule: &LeaderSchedule,
    leader_rotation_interval: u64,
    entry_height: u64,
) -> (outcome: Option<WriteStageReturnType>)
    requires
        leader_rotation_interval > 0,
    ensures
        outcome == (if schedule.rotates_at(leader_rotation_interval, entry_height as int) {
            Some(WriteStageReturnType::LeaderRotation)
        } else {
            None::<WriteStageReturnType>
        }),
{
    if leader_rotation_due(schedule, leader_rotation_interval, entry_height) {
        Some(WriteStageReturnType::LeaderRotation)
    } else {
        None
    }
}


/// A batch has one rotation cut: the number of entries kept and whether a
/// rotation height was reached are determined by the schedule, the interval,
/// the start height and the batch length.
pub proof fn lemma_rotation_cut_unique(
    schedule: LeaderSchedule,
    interval: u64,
    entry_height: int,
    len: nat,
    kept1: nat,
    rotation1: bool,
    kept2: nat,
    rotation2: bool,
)
    requires
        is_rotation_cut(schedule, interval, entry_height, len, kept1, rotation1),
        is_rotation_cut(schedule, interval, entry_height, len, kept2, rotation2),
    ensures
        kept1 == kept2,
        rotation1 == rotation2,
{
    if kept1 < kept2 {
        assert(!schedule.rotates_at(interval, entry_height + kept1));
    } else if kept2 < kept1 {
        assert(!schedule.rotates_at(interval, entry_height + kept2));
    }
}

/// The entries kept in a round never reach past the first rotation height
/// after the height the round started from: a round that keeps `n` entries
/// from height `entry_height` passes no rotation height below
/// `entry_height + n`, and stops on one when it stops receiving.
pub proof fn lemma_round_stays_in_term<E>(
    before: EntryBatches<E>,
    after: EntryBatches<E>,
    schedule: LeaderSchedule,
    interval: u64,
    entry_height: u64,
    received: Seq<E>,
    keep_receiving: bool,
)
    requires
        forall|x: int|
            entry_height <= x < entry_height + before.spec_num_new_entries()
                ==> !#[trigger] schedule.rotates_at(interval, x),
        is_rotation_cut(
            schedule,
            interval,
            entry_height + before.spec_num_new_entries(),
            received.len(),
            (after.spec_num_new_entries() - before.spec_num_new_entries()) as nat,
            !keep_receiving,
        ),
        after.spec_num_new_entries() >= before.spec_num_new_entries(),
    ensures
        forall|x: int|
            entry_height <= x < entry_height + after.spec_num_new_entries()
                ==> !#[trigger] schedule.rotates_at(interval, x),
        !keep_receiving ==> schedule.rotates_at(interval, entry_height + after.spec_num_new_entries()),
{
}


/// No rotation height lies in `from .. to`.
pub open spec fn term_clear(schedule: LeaderSchedule, interval: u64, from: int, to: int) -> bool {
    forall|x: int| from <= x < to ==> !#[trigger] schedule.rotates_at(interval, x)
}

/// The run of a write thread under one schedule never passes the first
/// rotation height at or after the height it started from.
///
/// Cut `k` of the run (one call of `EntryBatches::accept`) keeps `kept[k]` of
/// `lens[k]` entries from height `cut_from[k]`. The first cut starts at
/// `start`; every later cut starts no higher than where the one before it
/// ended: at that height within a round, or, in the next round, at the height
/// the entries actually written reached. Then no rotation height lies below
/// the end of any cut, so the entries written and forwarded over the whole run
/// number at most `r - start` for every rotation height `r >= start`.
pub proof fn lemma_run_stays_in_term(
    schedule: LeaderSchedule,
    interval: u64,
    start: int,
    cut_from: Seq<int>,
    lens: Seq<nat>,
    kept: Seq<nat>,
    rotations: Seq<bool>,
)
    requires
        cut_from.len() == lens.len(),
        cut_from.len() == kept.len(),
        cut_from.len() == rotations.len(),
        cut_from.len() > 0 ==> cut_from[0] == start,
        forall|k: int|
            0 <= k < cut_from.len() ==> is_rotation_cut(
                schedule,
                interval,
                #[trigger] cut_from[k],
                lens[k],
                kept[k],
                rotations[k],
            ),
        forall|k: int| 0 <= k < cut_from.len() ==> start <= #[trigger] cut_from[k],
        forall|k: int|
            0 < k < cut_from.len() ==> #[trigger] cut_from[k] <= cut_from[k - 1] + kept[k - 1],
    ensures
        forall|k: int|
            0 <= k < cut_from.len() ==> term_clear(
                schedule,
                interval,
                start,
                #[trigger] cut_from[k] + kept[k],
            ),
        forall|r: int, k: int|
            start <= r && 0 <= k < cut_from.len() && #[trigger] schedule.rotates_at(interval, r)
                ==> #[trigger] cut_from[k] + kept[k] <= r,
    decreases cut_from.len(),
{
    let n = cut_from.len();
    if n > 0 {
        let m = (n - 1) as int;
        lemma_run_stays_in_term(
            schedule,
            interval,
            start,
            cut_from.drop_last(),
            lens.drop_last(),
            kept.drop_last(),
            rotations.drop_last(),
        );
        assert(is_rotation_cut(schedule, interval, cut_from[m], lens[m], kept[m], rotations[m]));
        if m > 0 {
            assert(term_clear(schedule, interval, start, cut_from.drop_last()[m - 1] + kept.drop_last()[m - 1]));
        }
        assert(term_clear(schedule, interval, start, cut_from[m] + kept[m])) by {
            assert forall|x: int| start <= x < cut_from[m] + kept[m] implies !#[trigger] schedule.rotates_at(interval, x) by {
                if x < cut_from[m] {
                    assert(m > 0);
                    assert(cut_from.drop_last()[m - 1] == cut_from[m - 1]);
                    assert(kept.drop_last()[m - 1] == kept[m - 1]);
                }
            }
        }
        assert forall|k: int| 0 <= k < n implies term_clear(
            schedule,
            interval,
            start,
            #[trigger] cut_from[k] + kept[k],
        ) by {
            if k < m {
                assert(cut_from.drop_last()[k] == cut_from[k]);
                assert(kept.drop_last()[k] == kept[k]);
            }
        }
        assert forall|r: int, k: int|
            start <= r && 0 <= k < n && #[trigger] schedule.rotates_at(interval, r) implies #[trigger] cut_from[k]
            + kept[k] <= r by {
            assert(term_clear(schedule, interval, start, cut_from[k] + kept[k]));
            if cut_from[k] + kept[k] > r {
                assert(!schedule.rotates_at(interval, r));
            }
        }
    }
}

/// All the entries of a sequence of batches, in order.
pub open spec fn concat_batches<E>(batches: Seq<Seq<E>>) -> Seq<E>
    decreases batches.len(),
{
    if batches.len() == 0 {
        Seq::empty()
    } else {
        concat_batches(batches.drop_last()) + batches.last()
    }
}

/// What the write stage keeps of the batches it receives is a prefix of all it
/// received, in order: every cut but the last of a run kept its whole batch
/// (a cut that keeps less stops at a rotation height, which ends the run),
/// and the last kept a prefix of its batch.
pub proof fn lemma_forwarded_prefix<E>(received: Seq<Seq<E>>, kept: Seq<Seq<E>>)
    requires
        kept.len() == received.len(),
        forall|k: int| 0 <= k < kept.len() - 1 ==> #[trigger] kept[k] == received[k],
        kept.len() > 0 ==> kept.last().len() <= received.last().len() && kept.last()
            == received.last().subrange(0, kept.last().len() as int),
    ensures
        concat_batches(kept).len() <= concat_batches(received).len(),
        concat_batches(kept) == concat_batches(received).subrange(
            0,
            concat_batches(kept).len() as int,
        ),
{
    let n = kept.len();
    if n > 0 {
        assert(kept.drop_last() =~= received.drop_last());
        let before = concat_batches(received.drop_last());
        assert(concat_batches(kept) =~= before + kept.last());
        assert(concat_batches(received) =~= before + received.last());
        assert(concat_batches(kept) =~= concat_batches(received).subrange(
            0,
            concat_batches(kept).len() as int,
        ));
    }
}

} // verus!
