//! The benchmark driver's per-worker piece: striping the total work across
//! workers, the per-worker progress counter, and the load and run phases a
//! worker performs between rendezvous points.

use vstd::prelude::*;
use vstd::arithmetic::div_mod::{lemma_fundamental_div_mod, lemma_mod_bound};
use crate::db::{row_covers_fields, StdBTreeMapMutex};
use crate::workloads::{CoreWorkload, spec_key};

verus! {

/// The per-run counts every worker shares.
#[derive(Clone, Debug)]
pub struct ClientProperties {
    pub operation_count: u64,
    pub record_count: u64,
}

impl Default for ClientProperties {
    /// The documented defaults: both counts zero.
    fn default() -> (r: ClientProperties)
        ensures
            r.operation_count == 0,
            r.record_count == 0,
    {
        ClientProperties { operation_count: 0, record_count: 0 }
    }
}

/// The driver-level options, already coerced to typed values by the caller.
#[derive(Clone, Debug)]
pub struct CoreProperties {
    pub workload: String,
    pub db: String,
    pub max_execution_time: u32,
    pub thread_count: u32,
    pub target: u32,
}

/// Whether a workload selection string names the one workload built here.
pub fn workload_supported(name: &String) -> (r: bool)
    ensures
        r == (name@ == "core"@),
{
    *name == "core".to_owned()
}

/// Whether a storage selection string names the default engine.
pub fn db_supported(name: &String) -> (r: bool)
    ensures
        r == (name@ == "std_btreemap_mutex"@),
{
    *name == "std_btreemap_mutex".to_owned()
}

/// Worker `i`'s slice of a total of `total` items striped over `t`
/// workers: everyone gets the quotient, and the first `total % t` workers
/// one extra item each.
pub open spec fn spec_worker_share(total: u64, t: nat, i: nat) -> nat
    recommends
        t >= 1,
{
    (total as nat) / t + if i < (total as nat) % t {
        1nat
    } else {
        0nat
    }
}

/// The sum of the first `k` workers' shares.
pub open spec fn sum_shares(total: u64, t: nat, k: nat) -> nat
    decreases k,
{
    if k == 0 {
        0
    } else {
        sum_shares(total, t, (k - 1) as nat) + spec_worker_share(total, t, (k - 1) as nat)
    }
}

proof fn lemma_sum_shares_closed(total: u64, t: nat, k: nat)
    requires
        t >= 1,
    ensures
        sum_shares(total, t, k) == k * ((total as nat) / t) + if k <= (total as nat) % t {
            k
        } else {
            (total as nat) % t
        },
    decreases k,
{
    let q = (total as nat) / t;
    let r = (total as nat) % t;
    if k == 0 {
        assert(k * q == 0) by (nonlinear_arith)
            requires
                k == 0,
        ;
    } else {
        lemma_sum_shares_closed(total, t, (k - 1) as nat);
        assert((k as int) * (q as int) == ((k - 1) as int) * (q as int) + (q as int))
            by (nonlinear_arith);
        if k <= r {
            assert(((k - 1) as nat) <= r);
            assert(((k - 1) as nat) < r);
        } else {
            if ((k - 1) as nat) <= r {
                assert(((k - 1) as nat) == r);
            }
        }
    }
}

/// Law: for any worker count `t >= 1` and any total, the striped shares
/// sum exactly to the total, and no two shares differ by more than one.
pub proof fn lemma_worker_share_partition(total: u64, t: nat)
    requires
        t >= 1,
    ensures
        sum_shares(total, t, t) == total,
        forall|i: nat, j: nat|
            i < t && j < t ==> #[trigger] spec_worker_share(total, t, i)
                <= #[trigger] spec_worker_share(total, t, j) + 1,
{
    let q = (total as nat) / t;
    let r = (total as nat) % t;
    lemma_sum_shares_closed(total, t, t);
    lemma_mod_bound(total as int, t as int);
    assert(r < t);
    lemma_fundamental_div_mod(total as int, t as int);
    assert((total as int) == (t as int) * ((total as int) / (t as int)) + (total as int) % (
    t as int));
    assert(sum_shares(total, t, t) == t * q + r);
    assert((t as int) * (q as int) == (q as int) * (t as int)) by (nonlinear_arith);
}

/// Computes worker `thread_index`'s share of `total`.
pub fn worker_share(total: u64, thread_count: u32, thread_index: u32) -> (r: u64)
    requires
        thread_count >= 1,
    ensures
        r == spec_worker_share(total, thread_count as nat, thread_index as nat),
{
    let t = thread_count as u64;
    let q = total / t;
    let rem = total % t;
    if (thread_index as u64) < rem {
        proof {
            lemma_fundamental_div_mod(total as int, t as int);
            lemma_mod_bound(total as int, t as int);
            assert(t >= 2);
            assert((t as int) * (q as int) >= 2 * (q as int)) by (nonlinear_arith)
                requires
                    t >= 2,
                    q >= 0,
            ;
            assert(2 * (q as int) <= total as int);
            assert(q < u64::MAX);
        }
        q + 1
    } else {
        q
    }
}

/// A worker's monotonically increasing progress counter, owned by the
/// driver, incremented only by its owning worker, and reset at phase
/// boundaries.
pub struct ProgressCounter {
    count: u64,
}

impl ProgressCounter {
    pub closed spec fn spec_count(self) -> u64 {
        self.count
    }

    pub fn new() -> (r: Self)
        ensures
            r.spec_count() == 0,
    {
        ProgressCounter { count: 0 }
    }

    /// One unit of completed work; increments are never lost.
    pub fn increment(&mut self)
        requires
            old(self).spec_count() < u64::MAX,
        ensures
            final(self).spec_count() == old(self).spec_count() + 1,
    {
        self.count = self.count + 1;
    }

    /// The phase-boundary reset.
    pub fn reset(&mut self)
        ensures
            final(self).spec_count() == 0,
    {
        self.count = 0;
    }

    pub fn get(&self) -> (r: u64)
        ensures
            r == self.spec_count(),
    {
        self.count
    }
}

/// One worker: its slot in the pool, the shared run counts, and its own
/// progress counter. The shared workload and engine are handed in by the
/// coordinator for each phase.
pub struct Client {
    props: ClientProperties,
    thread_index: u32,
    thread_count: u32,
    progress: ProgressCounter,
}

impl Client {
    pub closed spec fn spec_record_count(self) -> u64 {
        self.props.record_count
    }

    pub closed spec fn spec_operation_count(self) -> u64 {
        self.props.operation_count
    }

    pub closed spec fn spec_thread_index(self) -> u32 {
        self.thread_index
    }

    pub closed spec fn spec_thread_count(self) -> u32 {
        self.thread_count
    }

    pub closed spec fn spec_progress(self) -> u64 {
        self.progress.spec_count()
    }

    pub open spec fn wf(self) -> bool {
        self.spec_thread_count() >= 1 && self.spec_thread_index() < self.spec_thread_count()
    }

    /// This worker's share of the records to load.
    pub open spec fn spec_record_share(self) -> nat {
        spec_worker_share(
            self.spec_record_count(),
            self.spec_thread_count() as nat,
            self.spec_thread_index() as nat,
        )
    }

    /// This worker's share of the operations to run.
    pub open spec fn spec_operation_share(self) -> nat {
        spec_worker_share(
            self.spec_operation_count(),
            self.spec_thread_count() as nat,
            self.spec_thread_index() as nat,
        )
    }

    pub fn new(props: ClientProperties, thread_index: u32, thread_count: u32) -> (r: Client)
        requires
            thread_count >= 1,
            thread_index < thread_count,
        ensures
            r.wf(),
            r.spec_record_count() == props.record_count,
            r.spec_operation_count() == props.operation_count,
            r.spec_thread_index() == thread_index,
            r.spec_thread_count() == thread_count,
            r.spec_progress() == 0,
    {
        Client { props, thread_index, thread_count, progress: ProgressCounter::new() }
    }

    /// Lets the workload see this worker's slot; the core workload needs
    /// no per-worker state, so nothing changes.
    pub fn init_workload(&self, workload: &CoreWorkload) {
        workload.init(self.thread_index, self.thread_count);
    }

    /// Storage needs no per-worker setup in this engine.
    pub fn init_database(&mut self)
        ensures
            *final(self) == *old(self),
    {
    }

    pub fn progress(&self) -> (r: u64)
        ensures
            r == self.spec_progress(),
    {
        self.progress.get()
    }

    /// The phase-boundary reset of this worker's counter.
    pub fn reset_progress(&mut self)
        ensures
            final(self).spec_progress() == 0,
            final(self).spec_record_count() == old(self).spec_record_count(),
            final(self).spec_operation_count() == old(self).spec_operation_count(),
            final(self).spec_thread_index() == old(self).spec_thread_index(),
            final(self).spec_thread_count() == old(self).spec_thread_count(),
    {
        self.progress.reset();
    }

    /// This worker's share of the load phase.
    pub fn record_share(&self) -> (r: u64)
        requires
            self.wf(),
        ensures
            r == self.spec_record_share(),
    {
        worker_share(self.props.record_count, self.thread_count, self.thread_index)
    }

    /// This worker's share of the run phase.
    pub fn operation_share(&self) -> (r: u64)
        requires
            self.wf(),
        ensures
            r == self.spec_operation_share(),
    {
        worker_share(self.props.operation_count, self.thread_count, self.thread_index)
    }

    /// The load phase: this worker inserts its share of the total record
    /// count, bumping its progress counter once per completed insert. The
    /// table afterwards holds a row for every key of this worker's slice
    /// of the sequence-number range, every previously present key is still
    /// present with its row untouched (unless this worker's keys overlay
    /// it), and no key appears that is neither old nor from this slice.
    pub fn setup_initial_data(&mut self, workload: &mut CoreWorkload, db: &mut StdBTreeMapMutex)
        requires
            old(self).wf(),
            old(workload).wf(),
            old(db).wf(),
            old(self).spec_progress() + old(self).spec_record_share() <= u64::MAX,
            old(workload).spec_key_counter() + old(self).spec_record_share() <= u64::MAX,
            old(db).db.spec_len() + old(self).spec_record_share() <= usize::MAX,
            old(db).columns@.len() + 2 * old(workload).spec_field_names().len() <= usize::MAX,
        ensures
            final(self).wf(),
            final(self).spec_progress() == old(self).spec_progress() + old(
                self,
            ).spec_record_share(),
            final(self).spec_record_count() == old(self).spec_record_count(),
            final(self).spec_operation_count() == old(self).spec_operation_count(),
            final(self).spec_thread_index() == old(self).spec_thread_index(),
            final(self).spec_thread_count() == old(self).spec_thread_count(),
            final(workload).wf(),
            final(workload).spec_config() == old(workload).spec_config(),
            final(workload).spec_key_counter() == old(workload).spec_key_counter() + old(
                self,
            ).spec_record_share(),
            final(db).wf(),
            old(db).columns@.is_prefix_of(final(db).columns@),
            final(db).columns@.len() <= old(db).columns@.len() + old(
                workload,
            ).spec_field_names().len(),
            forall|k: Seq<char>|
                old(db).db.spec_contains_key(k) ==> final(db).db.spec_contains_key(k),
            forall|idx: u64|
                idx < old(self).spec_record_share() ==> final(db).db.spec_contains_key(
                    #[trigger] spec_key(
                        old(workload).spec_ordered_inserts(),
                        old(workload).spec_zero_padding() as nat,
                        (old(workload).spec_key_counter() + idx) as u64,
                    ),
                ),
            forall|idx: u64|
                idx < old(self).spec_record_share() ==> row_covers_fields(
                    final(db).columns@,
                    old(workload).spec_field_names(),
                    final(db).db.spec_row_of(
                        #[trigger] spec_key(
                            old(workload).spec_ordered_inserts(),
                            old(workload).spec_zero_padding() as nat,
                            (old(workload).spec_key_counter() + idx) as u64,
                        ),
                    ),
                    old(workload).spec_field_length() as nat,
                ),
            forall|k: Seq<char>|
                final(db).db.spec_contains_key(k) ==> old(db).db.spec_contains_key(k) || exists|
                    idx: u64,
                |
                    idx < old(self).spec_record_share() && k == #[trigger] spec_key(
                        old(workload).spec_ordered_inserts(),
                        old(workload).spec_zero_padding() as nat,
                        (old(workload).spec_key_counter() + idx) as u64,
                    ),
    {
        let share = self.record_share();
        let ghost ordered = old(workload).spec_ordered_inserts();
        let ghost pad = old(workload).spec_zero_padding() as nat;
        let ghost start = old(workload).spec_key_counter();
        let ghost names = old(workload).spec_field_names();
        let ghost flen = old(workload).spec_field_length() as nat;
        let mut j: u64 = 0;
        while j < share
            invariant
                j <= share,
                self.wf(),
                share == old(self).spec_record_share(),
                self.spec_record_count() == old(self).spec_record_count(),
                self.spec_operation_count() == old(self).spec_operation_count(),
                self.spec_thread_index() == old(self).spec_thread_index(),
                self.spec_thread_count() == old(self).spec_thread_count(),
                old(self).spec_progress() + share <= u64::MAX,
                self.spec_progress() == old(self).spec_progress() + j,
                workload.wf(),
                workload.spec_config() == old(workload).spec_config(),
                ordered == workload.spec_ordered_inserts(),
                pad == workload.spec_zero_padding() as nat,
                names == workload.spec_field_names(),
                start == old(workload).spec_key_counter(),
                start + share <= u64::MAX,
                workload.spec_key_counter() == start + j,
                db.wf(),
                old(db).columns@.is_prefix_of(db.columns@),
                db.columns@.len() <= old(db).columns@.len() + names.len(),
                old(db).columns@.len() + 2 * names.len() <= usize::MAX,
                j == 0 ==> *db == *old(db),
                j > 0 ==> forall|i: int|
                    0 <= i < names.len() ==> db.columns@.contains(#[trigger] names[i]),
                old(db).db.spec_len() + share <= usize::MAX,
                db.db.spec_len() <= old(db).db.spec_len() + j,
                forall|k: Seq<char>|
                    old(db).db.spec_contains_key(k) ==> db.db.spec_contains_key(k),
                forall|idx: u64|
                    idx < j ==> db.db.spec_contains_key(
                        #[trigger] spec_key(ordered, pad, (start + idx) as u64),
                    ),
                flen == workload.spec_field_length() as nat,
                forall|idx: u64|
                    idx < j ==> row_covers_fields(
                        db.columns@,
                        names,
                        db.db.spec_row_of(#[trigger] spec_key(ordered, pad, (start + idx) as u64)),
                        flen,
                    ),
                forall|k: Seq<char>|
                    db.db.spec_contains_key(k) ==> old(db).db.spec_contains_key(k) || exists|
                        idx: u64,
                    | idx < j && k == #[trigger] spec_key(ordered, pad, (start + idx) as u64),
            decreases share - j,
        {
            let ghost db_pre = *db;
            let ghost wl_pre = *workload;
            workload.do_insert(db);
            self.progress.increment();
            proof {
                let keyj = spec_key(ordered, pad, (start + j) as u64);
                assert(wl_pre.spec_key_counter() == start + j);
                assert(wl_pre.spec_ordered_inserts() == ordered);
                assert(wl_pre.spec_zero_padding() as nat == pad);
                assert(wl_pre.spec_field_names() == names);
                assert(db.db.spec_contains_key(keyj));
                if j > 0 {
                    assert forall|i: int|
                        0 <= i < names.len() implies db_pre.columns@.contains(
                        #[trigger] names[i],
                    ) by {}
                    assert(db.columns@ == db_pre.columns@);
                }
                assert forall|i: int| 0 <= i < names.len() implies db.columns@.contains(
                    #[trigger] names[i],
                ) by {}
                assert forall|k: Seq<char>| db.db.spec_contains_key(k) implies old(
                    db,
                ).db.spec_contains_key(k) || exists|idx: u64|
                    idx < j + 1 && k == #[trigger] spec_key(ordered, pad, (start + idx) as u64) by {
                    if k == keyj {
                        assert(j < j + 1 && k == spec_key(ordered, pad, (start + j) as u64));
                    } else {
                        assert(db_pre.db.spec_contains_key(k));
                        if !old(db).db.spec_contains_key(k) {
                            let w = choose|idx: u64|
                                idx < j && k == #[trigger] spec_key(
                                    ordered,
                                    pad,
                                    (start + idx) as u64,
                                );
                            assert(w < j + 1 && k == spec_key(ordered, pad, (start + w) as u64));
                        }
                    }
                }
                assert forall|idx: u64| idx < j + 1 implies db.db.spec_contains_key(
                    #[trigger] spec_key(ordered, pad, (start + idx) as u64),
                ) by {
                    if idx < j {
                        assert(db_pre.db.spec_contains_key(
                            spec_key(ordered, pad, (start + idx) as u64),
                        ));
                    }
                }
                assert forall|idx: u64| idx < j + 1 implies row_covers_fields(
                    db.columns@,
                    names,
                    db.db.spec_row_of(#[trigger] spec_key(ordered, pad, (start + idx) as u64)),
                    flen,
                ) by {
                    let k = spec_key(ordered, pad, (start + idx) as u64);
                    if k == keyj {
                        assert(row_covers_fields(db.columns@, names, db.db.spec_row_of(keyj), flen));
                    } else {
                        assert(idx < j);
                        assert(row_covers_fields(
                            db_pre.columns@,
                            names,
                            db_pre.db.spec_row_of(k),
                            flen,
                        ));
                        assert(db.columns@ == db_pre.columns@);
                        assert(db_pre.db.spec_contains_key(k));
                        assert(db.db.spec_row_of(k) == db_pre.db.spec_row_of(k));
                    }
                }
            }
            j = j + 1;
        }
    }

    /// The run phase: only the insert/load action is built end to end, so
    /// this worker counts its share of the operation total through its
    /// progress counter.
    pub fn benchmark(&mut self)
        requires
            old(self).wf(),
            old(self).spec_progress() + old(self).spec_operation_share() <= u64::MAX,
        ensures
            final(self).wf(),
            final(self).spec_progress() == old(self).spec_progress() + old(
                self,
            ).spec_operation_share(),
            final(self).spec_record_count() == old(self).spec_record_count(),
            final(self).spec_operation_count() == old(self).spec_operation_count(),
            final(self).spec_thread_index() == old(self).spec_thread_index(),
            final(self).spec_thread_count() == old(self).spec_thread_count(),
    {
        let share = self.operation_share();
        let mut j: u64 = 0;
        while j < share
            invariant
                j <= share,
                self.wf(),
                share == old(self).spec_operation_share(),
                self.spec_record_count() == old(self).spec_record_count(),
                self.spec_operation_count() == old(self).spec_operation_count(),
                self.spec_thread_index() == old(self).spec_thread_index(),
                self.spec_thread_count() == old(self).spec_thread_count(),
                old(self).spec_progress() + share <= u64::MAX,
                self.spec_progress() == old(self).spec_progress() + j,
            decreases share - j,
        {
            self.progress.increment();
            j = j + 1;
        }
    }
}

} // verus!
