//! The job store: claim, delete, mark-failed and count-failed over the job
//! table, together with the row locks that open claim transactions hold.
//!
//! The table is modelled explicitly as a sequence of rows ordered by
//! identity. A claim selects the first row that is neither locked by another
//! transaction nor waiting out its retry backoff, and locks it; deletion and
//! failure bookkeeping act only on rows the caller has locked; commit
//! releases the lock. The SQL that realises these operations against a real
//! database lives outside the library.

use vstd::arithmetic::power2::lemma2_to64;
use vstd::arithmetic::power2::lemma2_to64_rest;
use vstd::arithmetic::power2::lemma_pow2_strictly_increases;
use vstd::arithmetic::power2::lemma_pow2_unfold;
use vstd::arithmetic::power2::pow2;
use vstd::prelude::*;

verus! {

/// One row of the background-job table.
pub struct JobRow {
    /// Unique identity; claims are served in ascending identity order.
    pub id: u64,
    /// Type tag that the dispatch registry resolves to a handler.
    pub job_type: String,
    /// Opaque serialized payload handed to the handler.
    pub data: Vec<u8>,
    /// How many times a handler has failed on this row.
    pub retries: u32,
    /// When the last failure was recorded, in seconds.
    pub last_retry: u64,
    /// When the row was inserted, in seconds.
    pub created_at: u64,
    /// Whether an open claim transaction currently holds this row. Not a
    /// column: it models the database row lock held from claim to commit.
    pub locked: bool,
}

/// Seconds a row that has failed `retries` times must wait after its last
/// failure before it may be reclaimed: one minute, doubled per failure.
pub open spec fn backoff_spec(retries: u32) -> nat {
    60 * pow2(retries as nat)
}

/// Failing jobs become progressively less eager to be reclaimed: each
/// further recorded failure strictly lengthens the wait.
pub proof fn lemma_backoff_grows_with_failures(a: u32, b: u32)
    requires
        a < b,
    ensures
        backoff_spec(a) < backoff_spec(b),
{
    lemma_pow2_strictly_increases(a as nat, b as nat);
}

/// A row is visible to claiming exactly when no transaction holds it and it
/// has either never failed or has waited out its backoff.
pub open spec fn row_visible(r: JobRow, now: u64) -> bool {
    &&& !r.locked
    &&& (r.retries == 0 || now as int >= r.last_retry + backoff_spec(r.retries))
}

/// The same row with the claim lock taken.
pub open spec fn lock_row(r: JobRow) -> JobRow {
    JobRow { locked: true, ..r }
}

/// The same row with the claim lock released (the transaction committed).
pub open spec fn unlock_row(r: JobRow) -> JobRow {
    JobRow { locked: false, ..r }
}

/// The same row after one recorded failure: the retry counter steps by
/// exactly one and the failure time is set; the row is not deleted and the
/// lock is still held.
pub open spec fn fail_row(r: JobRow, now: u64) -> JobRow {
    JobRow { retries: (r.retries + 1) as u32, last_retry: now, ..r }
}

/// Row identities are strictly increasing, so each identity occurs once and
/// "first visible" is a deterministic, fair claim order.
pub open spec fn ids_sorted(s: Seq<JobRow>) -> bool {
    forall|i: int, j: int| 0 <= i < j < s.len() ==> s[i].id < s[j].id
}

/// Whether some row of `s` carries identity `id`.
pub open spec fn contains_id(s: Seq<JobRow>, id: u64) -> bool {
    exists|i: int| 0 <= i < s.len() && s[i].id == id
}

/// Index of the row carrying `id`, or -1 when there is none.
pub open spec fn index_of_id(s: Seq<JobRow>, id: u64) -> int
    decreases s.len(),
{
    if s.len() == 0 {
        -1
    } else if s[0].id == id {
        0
    } else {
        let r = index_of_id(s.drop_first(), id);
        if r < 0 {
            -1
        } else {
            r + 1
        }
    }
}

/// Index of the first row visible to claiming, or -1 when no row is.
pub open spec fn first_visible(s: Seq<JobRow>, now: u64) -> int
    decreases s.len(),
{
    if s.len() == 0 {
        -1
    } else if row_visible(s[0], now) {
        0
    } else {
        let r = first_visible(s.drop_first(), now);
        if r < 0 {
            -1
        } else {
            r + 1
        }
    }
}

/// How many rows have crossed the dead-letter threshold, counted from
/// position `i` on.
pub open spec fn count_failed_from(s: Seq<JobRow>, threshold: u32, i: int) -> nat
    decreases s.len() - i,
{
    if i < 0 || i >= s.len() {
        0
    } else {
        (if s[i].retries >= threshold {
            1nat
        } else {
            0nat
        }) + count_failed_from(s, threshold, i + 1)
    }
}

/// How many rows of the whole table have crossed the dead-letter threshold.
pub open spec fn count_failed_spec(s: Seq<JobRow>, threshold: u32) -> nat {
    count_failed_from(s, threshold, 0)
}

/// `index_of_id` points at the row carrying `id` when one exists.
pub proof fn lemma_index_of_id(s: Seq<JobRow>, id: u64)
    ensures
        -1 <= index_of_id(s, id) < s.len(),
        contains_id(s, id) <==> 0 <= index_of_id(s, id),
        index_of_id(s, id) >= 0 ==> s[index_of_id(s, id)].id == id,
    decreases s.len(),
{
    if s.len() > 0 && s[0].id != id {
        lemma_index_of_id(s.drop_first(), id);
        assert(contains_id(s, id) ==> contains_id(s.drop_first(), id)) by {
            if contains_id(s, id) {
                let i = choose|i: int| 0 <= i < s.len() && s[i].id == id;
                assert(s.drop_first()[i - 1].id == id);
            }
        }
        let r = index_of_id(s.drop_first(), id);
        if r >= 0 {
            assert(s[r + 1] == s.drop_first()[r]);
        }
    }
}

/// `first_visible` points at a visible row, skips only invisible rows, and
/// is -1 exactly when no row is visible.
pub proof fn lemma_first_visible(s: Seq<JobRow>, now: u64)
    ensures
        first_visible(s, now) == -1 ==> forall|i: int|
            0 <= i < s.len() ==> !row_visible(s[i], now),
        first_visible(s, now) >= 0 ==> {
            &&& first_visible(s, now) < s.len()
            &&& row_visible(s[first_visible(s, now)], now)
            &&& forall|i: int| 0 <= i < first_visible(s, now) ==> !row_visible(s[i], now)
        },
    decreases s.len(),
{
    if s.len() > 0 && !row_visible(s[0], now) {
        lemma_first_visible(s.drop_first(), now);
        let r = first_visible(s.drop_first(), now);
        if r == -1 {
            assert forall|i: int| 0 <= i < s.len() implies !row_visible(s[i], now) by {
                if i > 0 {
                    assert(s[i] == s.drop_first()[i - 1]);
                }
            }
        } else {
            assert forall|i: int| 0 <= i < first_visible(s, now) implies !row_visible(
                s[i],
                now,
            ) by {
                if i > 0 {
                    assert(s[i] == s.drop_first()[i - 1]);
                }
            }
        }
    }
}

/// A position that is visible while everything before it is not is exactly
/// `first_visible`.
pub proof fn lemma_first_visible_is(s: Seq<JobRow>, now: u64, i: int)
    requires
        0 <= i < s.len(),
        row_visible(s[i], now),
        forall|j: int| 0 <= j < i ==> !row_visible(s[j], now),
    ensures
        first_visible(s, now) == i,
    decreases s.len(),
{
    if i > 0 {
        assert forall|j: int| 0 <= j < i - 1 implies !row_visible(s.drop_first()[j], now) by {
            assert(s.drop_first()[j] == s[j + 1]);
        }
        assert(s.drop_first()[i - 1] == s[i]);
        lemma_first_visible_is(s.drop_first(), now, i - 1);
    }
}

/// Mutual exclusion of claims: with one claim transaction already holding
/// the row it selected, a second claim can only select a different row.
pub proof fn lemma_claims_are_mutually_exclusive(s: Seq<JobRow>, now1: u64, now2: u64)
    requires
        ids_sorted(s),
        first_visible(s, now1) >= 0,
        first_visible(s.update(first_visible(s, now1), lock_row(s[first_visible(s, now1)])), now2)
            >= 0,
    ensures
        first_visible(s.update(first_visible(s, now1), lock_row(s[first_visible(s, now1)])), now2)
            != first_visible(s, now1),
        s.update(first_visible(s, now1), lock_row(s[first_visible(s, now1)]))[first_visible(
            s.update(first_visible(s, now1), lock_row(s[first_visible(s, now1)])),
            now2,
        )].id != s[first_visible(s, now1)].id,
{
    let i1 = first_visible(s, now1);
    let s2 = s.update(i1, lock_row(s[i1]));
    let i2 = first_visible(s2, now2);
    lemma_first_visible(s, now1);
    lemma_first_visible(s2, now2);
    assert(s2[i1].locked);
    assert(!row_visible(s2[i1], now2));
    assert(i2 != i1);
    assert(s2[i2].id == s[i2].id);
}

/// At-most-once completion: a claim never returns an identity that is no
/// longer in the table, so a deleted job is never observed again.
pub proof fn lemma_deleted_job_is_never_reclaimed(s: Seq<JobRow>, id: u64, now: u64)
    requires
        !contains_id(s, id),
        first_visible(s, now) >= 0,
    ensures
        s[first_visible(s, now)].id != id,
{
    lemma_first_visible(s, now);
}

/// Lock visibility: a row held by an open transaction is invisible to every
/// concurrent claim, for as long as the lock is held.
pub proof fn lemma_locked_row_not_claimable(s: Seq<JobRow>, i: int, now: u64)
    requires
        0 <= i < s.len(),
        s[i].locked,
    ensures
        first_visible(s, now) != i,
{
    lemma_first_visible(s, now);
    if first_visible(s, now) == i {
        assert(row_visible(s[i], now));
    }
}

/// The dead-letter count from position `i` on is zero exactly when every
/// row from `i` on sits below the threshold.
proof fn lemma_count_failed_from_zero_iff(s: Seq<JobRow>, threshold: u32, i: int)
    requires
        i >= 0,
    ensures
        count_failed_from(s, threshold, i) == 0 <==> forall|j: int|
            i <= j < s.len() ==> s[j].retries < threshold,
    decreases s.len() - i,
{
    if i < s.len() {
        lemma_count_failed_from_zero_iff(s, threshold, i + 1);
    }
}

/// Dead-letter threshold: the health check's count is zero exactly when no
/// row's retry counter has crossed the threshold.
pub proof fn lemma_count_failed_zero_iff(s: Seq<JobRow>, threshold: u32)
    ensures
        count_failed_spec(s, threshold) == 0 <==> forall|j: int|
            0 <= j < s.len() ==> s[j].retries < threshold,
{
    lemma_count_failed_from_zero_iff(s, threshold, 0);
}

/// No more rows can have crossed the threshold than there are rows.
proof fn lemma_count_failed_bound(s: Seq<JobRow>, threshold: u32, i: int)
    ensures
        count_failed_from(s, threshold, i) <= s.len() - i || count_failed_from(s, threshold, i)
            == 0,
    decreases s.len() - i,
{
    if 0 <= i < s.len() {
        lemma_count_failed_bound(s, threshold, i + 1);
    }
}

/// Seconds before a row that has failed `retries` times may be reclaimed.
pub fn backoff_secs(retries: u32) -> (b: u64)
    requires
        retries <= 58,
    ensures
        b == backoff_spec(retries),
{
    let mut b: u64 = 60;
    let mut i: u32 = 0;
    proof {
        lemma2_to64();
    }
    while i < retries
        invariant
            i <= retries <= 58,
            b == 60 * pow2(i as nat),
        decreases retries - i,
    {
        proof {
            lemma_pow2_unfold((i + 1) as nat);
            if i + 1 < 58 {
                lemma_pow2_strictly_increases((i + 1) as nat, 58);
            }
            lemma2_to64();
            lemma2_to64_rest();
            assert(pow2((i + 1) as nat) <= pow2(58));
            assert(60 * pow2((i + 1) as nat) <= 60 * pow2(58));
        }
        b = b * 2;
        i = i + 1;
    }
    b
}

/// Whether `r` is visible to claiming at time `now`.
pub fn is_visible(r: &JobRow, now: u64) -> (b: bool)
    ensures
        b == row_visible(*r, now),
{
    if r.locked {
        return false;
    }
    if r.retries == 0 {
        return true;
    }
    if r.retries >= 59 {
        proof {
            lemma2_to64();
            lemma2_to64_rest();
            if r.retries > 59 {
                lemma_pow2_strictly_increases(59, r.retries as nat);
            }
            assert(pow2(r.retries as nat) >= pow2(59));
            assert(backoff_spec(r.retries) >= 60 * pow2(59));
            assert(r.last_retry + backoff_spec(r.retries) > u64::MAX);
        }
        return false;
    }
    let b = backoff_secs(r.retries);
    now >= r.last_retry && now - r.last_retry >= b
}

/// What a successful claim hands to dispatch: the claimed row's identity,
/// type tag and payload.
pub struct ClaimedJob {
    /// Identity of the claimed row.
    pub id: u64,
    /// Type tag to resolve against the dispatch registry.
    pub job_type: String,
    /// Opaque serialized payload for the resolved handler.
    pub data: Vec<u8>,
}

/// The job table, as a claim transaction observes it: rows in identity
/// order, each carrying its lock state.
pub struct JobStore {
    rows: Vec<JobRow>,
}

impl View for JobStore {
    type V = Seq<JobRow>;

    closed spec fn view(&self) -> Seq<JobRow> {
        self.rows@
    }
}

impl JobStore {
    /// Identities strictly increase along the table.
    pub open spec fn wf(self) -> bool {
        ids_sorted(self@)
    }

    /// An empty table.
    pub fn new() -> (s: JobStore)
        ensures
            s@ =~= Seq::<JobRow>::empty(),
            s.wf(),
    {
        JobStore { rows: Vec::new() }
    }

    /// Append-only enqueue, as application code performs it: a fresh row
    /// with the next identity, no failures recorded, and no lock held.
    pub fn enqueue(&mut self, job_type: String, data: Vec<u8>, now: u64) -> (id: u64)
        requires
            old(self).wf(),
            old(self)@.len() == 0 || old(self)@.last().id < u64::MAX,
        ensures
            final(self).wf(),
            final(self)@ =~= old(self)@.push(
                JobRow {
                    id,
                    job_type,
                    data,
                    retries: 0,
                    last_retry: 0,
                    created_at: now,
                    locked: false,
                },
            ),
            !contains_id(old(self)@, id),
    {
        let id: u64 = if self.rows.len() == 0 {
            1
        } else {
            self.rows[self.rows.len() - 1].id + 1
        };
        assert(forall|i: int| 0 <= i < self@.len() ==> self@[i].id < id);
        let row = JobRow {
            id,
            job_type,
            data,
            retries: 0,
            last_retry: 0,
            created_at: now,
            locked: false,
        };
        self.rows.push(row);
        id
    }

    /// Claim the next visible row, locking it for this transaction; `None`
    /// exactly when every row is either locked or waiting out its backoff.
    pub fn claim_next(&mut self, now: u64) -> (r: Option<u64>)
        requires
            old(self).wf(),
        ensures
            final(self).wf(),
            ({
                let fv = first_visible(old(self)@, now);
                match r {
                    None => fv == -1 && final(self)@ =~= old(self)@,
                    Some(id) => {
                        &&& 0 <= fv < old(self)@.len()
                        &&& id == old(self)@[fv].id
                        &&& row_visible(old(self)@[fv], now)
                        &&& final(self)@ =~= old(self)@.update(fv, lock_row(old(self)@[fv]))
                    },
                }
            }),
    {
        let ghost s = self@;
        let mut i: usize = 0;
        while i < self.rows.len()
            invariant
                s == old(self)@,
                self@ =~= s,
                ids_sorted(s),
                i <= s.len(),
                forall|j: int| 0 <= j < i ==> !row_visible(s[j], now),
            decreases s.len() - i,
        {
            if is_visible(&self.rows[i], now) {
                proof {
                    lemma_first_visible_is(s, now, i as int);
                }
                let row = self.rows.remove(i);
                let id = row.id;
                let locked_row = JobRow { locked: true, ..row };
                self.rows.insert(i, locked_row);
                proof {
                    assert(self@ =~= s.update(i as int, lock_row(s[i as int])));
                    assert(forall|k: int| 0 <= k < self@.len() ==> self@[k].id == s[k].id);
                    assert forall|p: int, q: int|
                        0 <= p < q < self@.len() implies self@[p].id < self@[q].id by {
                        assert(self@[p].id == s[p].id && self@[q].id == s[q].id);
                        assert(s[p].id < s[q].id);
                    }
                }
                return Some(id);
            }
            i = i + 1;
        }
        proof {
            if first_visible(s, now) >= 0 {
                lemma_first_visible(s, now);
            }
        }
        None
    }

    /// Claim the next visible row and hand dispatch what it needs: the
    /// row's identity, type tag and payload. The row stays locked by this
    /// transaction until deletion or release.
    pub fn claim_next_job(&mut self, now: u64) -> (r: Option<ClaimedJob>)
        requires
            old(self).wf(),
        ensures
            final(self).wf(),
            ({
                let fv = first_visible(old(self)@, now);
                match r {
                    None => fv == -1 && final(self)@ =~= old(self)@,
                    Some(j) => {
                        &&& 0 <= fv < old(self)@.len()
                        &&& j.id == old(self)@[fv].id
                        &&& j.job_type@ == old(self)@[fv].job_type@
                        &&& j.data@ == old(self)@[fv].data@
                        &&& row_visible(old(self)@[fv], now)
                        &&& final(self)@ =~= old(self)@.update(fv, lock_row(old(self)@[fv]))
                    },
                }
            }),
    {
        let ghost s = self@;
        match self.claim_next(now) {
            None => None,
            Some(id) => {
                let ghost fv = first_visible(s, now);
                proof {
                    lemma_first_visible(s, now);
                    assert(forall|k: int| 0 <= k < self@.len() ==> self@[k].id == s[k].id);
                    assert forall|j: int| 0 <= j < fv implies self@[j].id != id by {
                        assert(s[j].id < s[fv].id);
                    }
                    lemma_index_of_id_is(self@, id, fv);
                    lemma_index_of_id(self@, id);
                }
                let i = self.find_index(id);
                let job_type = self.rows[i].job_type.clone();
                let data = self.rows[i].data.clone();
                proof {
                    assert(data@ =~= self.rows@[i as int].data@) by {
                        assert forall|k: int|
                            0 <= k < data@.len() implies data@[k] == self.rows@[i as int].data@[k]
                        by {
                            assert(cloned::<u8>(self.rows@[i as int].data[k], data[k]));
                        }
                    }
                }
                Some(ClaimedJob { id, job_type, data })
            },
        }
    }

    /// Delete a row on handler success. Runs inside the claim transaction:
    /// the caller must still hold the lock it took when claiming.
    pub fn delete_on_success(&mut self, id: u64)
        requires
            old(self).wf(),
            contains_id(old(self)@, id),
            old(self)@[index_of_id(old(self)@, id)].locked,
        ensures
            final(self).wf(),
            final(self)@ =~= old(self)@.remove(index_of_id(old(self)@, id)),
            !contains_id(final(self)@, id),
    {
        let ghost s = self@;
        proof {
            lemma_index_of_id(s, id);
        }
        let i = self.find_index(id);
        self.rows.remove(i);
        proof {
            let k = index_of_id(s, id);
            assert forall|p: int, q: int|
                0 <= p < q < self@.len() implies self@[p].id < self@[q].id by {
                let sp = if p < k { p } else { p + 1 };
                let sq = if q < k { q } else { q + 1 };
                assert(self@[p] == s[sp] && self@[q] == s[sq]);
            }
            assert forall|j: int| 0 <= j < self@.len() implies self@[j].id != id by {
                let sj = if j < k { j } else { j + 1 };
                assert(self@[j] == s[sj]);
                if s[sj].id == s[k].id {
                    if sj < k {
                        assert(s[sj].id < s[k].id);
                    } else {
                        assert(s[k].id < s[sj].id);
                    }
                }
            }
        }
    }

    /// Record one failure against a claimed row: the retry counter steps by
    /// exactly one, the failure time is set, and the row is not deleted. The
    /// caller still holds the lock; nothing else changes.
    pub fn mark_failed(&mut self, id: u64, now: u64)
        requires
            old(self).wf(),
            contains_id(old(self)@, id),
            old(self)@[index_of_id(old(self)@, id)].locked,
            old(self)@[index_of_id(old(self)@, id)].retries < u32::MAX,
        ensures
            final(self).wf(),
            final(self)@ =~= old(self)@.update(
                index_of_id(old(self)@, id),
                fail_row(old(self)@[index_of_id(old(self)@, id)], now),
            ),
    {
        let ghost s = self@;
        proof {
            lemma_index_of_id(s, id);
        }
        let i = self.find_index(id);
        let row = self.rows.remove(i);
        let failed = JobRow { retries: row.retries + 1, last_retry: now, ..row };
        self.rows.insert(i, failed);
        proof {
            let k = index_of_id(s, id);
            assert(self@ =~= s.update(k, fail_row(s[k], now)));
            assert forall|p: int, q: int|
                0 <= p < q < self@.len() implies self@[p].id < self@[q].id by {
                assert(s[p].id < s[q].id);
            }
        }
    }

    /// Release the claim lock: the transaction commits and the row, exactly
    /// as the transaction left it, becomes observable to other sessions.
    pub fn release(&mut self, id: u64)
        requires
            old(self).wf(),
            contains_id(old(self)@, id),
        ensures
            final(self).wf(),
            final(self)@ =~= old(self)@.update(
                index_of_id(old(self)@, id),
                unlock_row(old(self)@[index_of_id(old(self)@, id)]),
            ),
    {
        let ghost s = self@;
        proof {
            lemma_index_of_id(s, id);
        }
        let i = self.find_index(id);
        let row = self.rows.remove(i);
        let unlocked = JobRow { locked: false, ..row };
        self.rows.insert(i, unlocked);
        proof {
            let k = index_of_id(s, id);
            assert(self@ =~= s.update(k, unlock_row(s[k])));
            assert forall|p: int, q: int|
                0 <= p < q < self@.len() implies self@[p].id < self@[q].id by {
                assert(s[p].id < s[q].id);
            }
        }
    }

    /// Count the rows whose retry counter has crossed the dead-letter
    /// threshold. Used by health checks, never by the claim path.
    pub fn count_failed(&self, threshold: u32) -> (n: u64)
        ensures
            n == count_failed_spec(self@, threshold),
    {
        let mut n: u64 = 0;
        let mut i: usize = self.rows.len();
        while i > 0
            invariant
                i <= self@.len() <= usize::MAX,
                n == count_failed_from(self@, threshold, i as int),
                n <= self@.len() - i,
            decreases i,
        {
            proof {
                lemma_count_failed_bound(self@, threshold, i as int);
            }
            i = i - 1;
            if self.rows[i].retries >= threshold {
                n = n + 1;
            }
        }
        n
    }

    /// Number of rows in the table.
    pub fn len(&self) -> (n: usize)
        ensures
            n == self@.len(),
    {
        self.rows.len()
    }

    /// The retry counter of the row carrying `id`, if any.
    pub fn retries_of(&self, id: u64) -> (r: Option<u32>)
        ensures
            match r {
                Some(c) => contains_id(self@, id) && c == self@[index_of_id(self@, id)].retries,
                None => !contains_id(self@, id),
            },
    {
        proof {
            lemma_index_of_id(self@, id);
        }
        let mut i: usize = 0;
        while i < self.rows.len()
            invariant
                i <= self@.len(),
                forall|j: int| 0 <= j < i ==> self@[j].id != id,
            decreases self@.len() - i,
        {
            if self.rows[i].id == id {
                proof {
                    lemma_index_of_id_is(self@, id, i as int);
                }
                return Some(self.rows[i].retries);
            }
            i = i + 1;
        }
        None
    }

    /// Index of the row carrying `id`; the row must exist.
    fn find_index(&self, id: u64) -> (i: usize)
        requires
            contains_id(self@, id),
        ensures
            i == index_of_id(self@, id),
            0 <= i < self@.len(),
    {
        proof {
            lemma_index_of_id(self@, id);
        }
        let mut i: usize = 0;
        while i < self.rows.len()
            invariant
                i <= self@.len(),
                contains_id(self@, id),
                forall|j: int| 0 <= j < i ==> self@[j].id != id,
            decreases self@.len() - i,
        {
            if self.rows[i].id == id {
                proof {
                    lemma_index_of_id_is(self@, id, i as int);
                }
                return i;
            }
            i = i + 1;
        }
        proof {
            lemma_index_of_id(self@, id);
            let w = index_of_id(self@, id);
            assert(self@[w].id == id);
        }
        unreached()
    }
}

/// A position carrying `id` with no earlier occurrence is `index_of_id`.
pub proof fn lemma_index_of_id_is(s: Seq<JobRow>, id: u64, i: int)
    requires
        0 <= i < s.len(),
        s[i].id == id,
        forall|j: int| 0 <= j < i ==> s[j].id != id,
    ensures
        index_of_id(s, id) == i,
    decreases s.len(),
{
    if i > 0 {
        assert forall|j: int| 0 <= j < i - 1 implies s.drop_first()[j].id != id by {
            assert(s.drop_first()[j] == s[j + 1]);
        }
        assert(s.drop_first()[i - 1] == s[i]);
        lemma_index_of_id_is(s.drop_first(), id, i - 1);
    }
}

} // verus!
