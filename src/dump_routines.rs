use vstd::hash_set::StringHashSet;
use vstd::multiset::Multiset;
use vstd::prelude::*;

use crate::config::{
    keys_view, save_result, CheckpointFiles, Config, SyncedConfig,
};
use crate::eodhd::{response_action, ResponseAction};
use crate::models::{key_of, ExchangeSymbol};

verus! {

/// How a dispatch loop ended.
#[derive(PartialEq, Eq, Structural, Clone, Copy, Debug)]
pub enum RunOutcome {
    /// Every pending symbol was started.
    Completed,
    /// The failure count passed the breaker threshold.
    HaltedByBreaker,
    /// An interrupt was observed.
    HaltedByCancellation,
}

/// Whether a stage ended before its work was done; later stages run only
/// after one that did not.
#[derive(PartialEq, Eq, Structural, Clone, Copy, Debug)]
pub enum ExitedPrematurly {
    YES,
    NO,
}

impl Default for ExitedPrematurly {
    fn default() -> (r: Self)
        ensures
            r == ExitedPrematurly::NO,
    {
        ExitedPrematurly::NO
    }
}

impl RunOutcome {
    /// Only a run that started every pending symbol lets later stages run.
    pub fn exited_prematurely(&self) -> (r: ExitedPrematurly)
        ensures
            r == (if *self == RunOutcome::Completed {
                ExitedPrematurly::NO
            } else {
                ExitedPrematurly::YES
            }),
    {
        match self {
            RunOutcome::Completed => ExitedPrematurly::NO,
            _ => ExitedPrematurly::YES,
        }
    }
}

/// What the dispatch loop does next.
#[derive(PartialEq, Eq, Structural, Clone, Copy, Debug)]
pub enum Step {
    /// Start the unit of work for pending symbol `unit`, which is entry
    /// `entry` of the catalog.
    Dispatch { unit: usize, entry: usize },
    /// Every slot is taken: wait until a unit finishes.
    WaitForSlot,
    /// Start nothing more; let the units in flight finish.
    Stop(RunOutcome),
}

/// The identities of a catalog, entry by entry.
pub open spec fn catalog_keys(catalog: Seq<ExchangeSymbol>) -> Seq<Seq<char>> {
    catalog.map_values(|e: ExchangeSymbol| key_of(e.code@, e.exchange@))
}

/// Whether the last catalog entry is left out of a run: the resume filter
/// holds its identity, or an earlier entry has the same identity.
pub open spec fn last_left_out(catalog: Seq<Seq<char>>, skipped: Set<Seq<char>>) -> bool {
    skipped.contains(catalog.last()) || catalog.drop_last().contains(catalog.last())
}

/// The catalog positions of a run, in catalog order: the first entry of each
/// identity that the resume filter does not hold.
pub open spec fn pending_positions(catalog: Seq<Seq<char>>, skipped: Set<Seq<char>>) -> Seq<nat>
    decreases catalog.len(),
{
    if catalog.len() == 0 {
        Seq::empty()
    } else {
        let rest = pending_positions(catalog.drop_last(), skipped);
        if last_left_out(catalog, skipped) {
            rest
        } else {
            rest.push((catalog.len() - 1) as nat)
        }
    }
}

/// How many catalog entries a run leaves out: those whose identity the
/// resume filter holds or an earlier entry repeats.
pub open spec fn skipped_count(catalog: Seq<Seq<char>>, skipped: Set<Seq<char>>) -> nat
    decreases catalog.len(),
{
    if catalog.len() == 0 {
        0
    } else {
        let rest = skipped_count(catalog.drop_last(), skipped);
        if last_left_out(catalog, skipped) {
            rest + 1
        } else {
            rest
        }
    }
}

/// The state of a dispatch loop, as plain values.
pub struct SchedulerView {
    /// The identities of the catalog.
    pub catalog: Seq<Seq<char>>,
    /// The identities that the resumed ledger holds.
    pub skipped: Set<Seq<char>>,
    /// The catalog position of each pending symbol.
    pub positions: Seq<nat>,
    /// The identity of each pending symbol.
    pub keys: Seq<Seq<char>>,
    /// How many pending symbols have been started.
    pub next: nat,
    /// The concurrency bound.
    pub bound: nat,
    /// The pending symbols whose units are in flight.
    pub in_flight: Seq<nat>,
    /// Failed units since the start of the run; never decreases.
    pub failures: nat,
    /// Whether an interrupt was observed.
    pub cancelled: bool,
    /// The completed identities of the ledger.
    pub downloaded: Seq<Seq<char>>,
    /// The failed identities of the ledger.
    pub failed: Seq<Seq<char>>,
    /// The completed identities when the run began.
    pub initial_downloaded: Seq<Seq<char>>,
    /// The failed identities when the run began.
    pub initial_failed: Seq<Seq<char>>,
}

/// The failure count beyond which no further unit is started.
pub open spec fn breaker_threshold(bound: nat) -> nat {
    2 * bound
}

/// The units recorded since the run began.
pub open spec fn finished_count(v: SchedulerView) -> int {
    (v.downloaded.len() - v.initial_downloaded.len()) + (v.failed.len() - v.initial_failed.len())
}

/// The identities completed since the run began, in recording order.
pub open spec fn new_downloaded(v: SchedulerView) -> Seq<Seq<char>> {
    v.downloaded.subrange(v.initial_downloaded.len() as int, v.downloaded.len() as int)
}

/// The identities failed since the run began, in recording order.
pub open spec fn new_failed(v: SchedulerView) -> Seq<Seq<char>> {
    v.failed.subrange(v.initial_failed.len() as int, v.failed.len() as int)
}

/// The identities of the units in flight.
pub open spec fn in_flight_keys(v: SchedulerView) -> Seq<Seq<char>> {
    v.in_flight.map_values(|u: nat| v.keys[u as int])
}

/// Every started unit is in flight or recorded exactly once.
pub open spec fn started_accounted(v: SchedulerView) -> bool {
    v.keys.subrange(0, v.next as int).to_multiset() == new_downloaded(v).to_multiset().add(
        new_failed(v).to_multiset(),
    ).add(in_flight_keys(v).to_multiset())
}

/// What holds of every state a run passes through.
pub open spec fn inv(v: SchedulerView) -> bool {
    &&& v.positions == pending_positions(v.catalog, v.skipped)
    &&& v.keys.len() == v.positions.len()
    &&& v.keys.no_duplicates()
    &&& forall|i: int| 0 <= i < v.keys.len() ==> #[trigger] v.keys[i] == v.catalog[v.positions[i] as int]
    &&& v.next <= v.keys.len()
    &&& v.in_flight.no_duplicates()
    &&& forall|i: int| 0 <= i < v.in_flight.len() ==> #[trigger] v.in_flight[i] < v.next
    &&& v.in_flight.len() <= v.bound
    &&& v.initial_downloaded.len() <= v.downloaded.len()
    &&& v.downloaded.subrange(0, v.initial_downloaded.len() as int) == v.initial_downloaded
    &&& v.initial_failed.len() <= v.failed.len()
    &&& v.failed.subrange(0, v.initial_failed.len() as int) == v.initial_failed
    &&& finished_count(v) + v.in_flight.len() == v.next
    &&& v.failures == v.failed.len() - v.initial_failed.len()
    &&& v.next <= (v.downloaded.len() - v.initial_downloaded.len()) + 3 * v.bound
    &&& started_accounted(v)
    &&& v.skipped == (v.initial_downloaded + v.initial_failed).to_set()
}

/// The next step of the dispatch loop: stop once every pending symbol was
/// started, or the failures passed the threshold, or an interrupt was
/// observed (checked in that order); else wait for a free slot, or start
/// the next pending symbol.
pub open spec fn poll_step(v: SchedulerView) -> Step {
    if v.next >= v.keys.len() {
        Step::Stop(RunOutcome::Completed)
    } else if v.failures > breaker_threshold(v.bound) {
        Step::Stop(RunOutcome::HaltedByBreaker)
    } else if v.cancelled {
        Step::Stop(RunOutcome::HaltedByCancellation)
    } else if v.in_flight.len() >= v.bound {
        Step::WaitForSlot
    } else {
        Step::Dispatch { unit: v.next as usize, entry: v.positions[v.next as int] as usize }
    }
}

/// The state after a poll: a dispatched unit takes a slot.
pub open spec fn after_poll(v: SchedulerView) -> SchedulerView {
    match poll_step(v) {
        Step::Dispatch { unit, entry } => SchedulerView {
            next: v.next + 1,
            in_flight: v.in_flight.push(unit as nat),
            ..v
        },
        _ => v,
    }
}

/// The state after unit `unit` reports: if it is in flight, it frees its
/// slot and its identity joins the completed or the failed ledger, a
/// failure also raising the failure count; otherwise nothing changes.
pub open spec fn after_finish(v: SchedulerView, unit: nat, succeeded: bool) -> SchedulerView {
    if v.in_flight.contains(unit) {
        let freed = v.in_flight.remove(v.in_flight.index_of(unit));
        if succeeded {
            SchedulerView {
                in_flight: freed,
                downloaded: v.downloaded.push(v.keys[unit as int]),
                ..v
            }
        } else {
            SchedulerView {
                in_flight: freed,
                failed: v.failed.push(v.keys[unit as int]),
                failures: v.failures + 1,
                ..v
            }
        }
    } else {
        v
    }
}

/// The state after an interrupt: the cancellation flag is set for good.
pub open spec fn after_interrupt(v: SchedulerView) -> SchedulerView {
    SchedulerView { cancelled: true, ..v }
}

/// Every catalog entry is either pending or skipped.
pub proof fn lemma_pending_and_skipped(catalog: Seq<Seq<char>>, skipped: Set<Seq<char>>)
    ensures
        pending_positions(catalog, skipped).len() + skipped_count(catalog, skipped) == catalog.len(),
    decreases catalog.len(),
{
    if catalog.len() > 0 {
        lemma_pending_and_skipped(catalog.drop_last(), skipped);
    }
}

/// A pending position lies in the catalog, its identity is not one the
/// resume filter holds, and no earlier entry has that identity.
pub proof fn lemma_pending_not_skipped(catalog: Seq<Seq<char>>, skipped: Set<Seq<char>>, i: int)
    requires
        0 <= i < pending_positions(catalog, skipped).len(),
    ensures
        pending_positions(catalog, skipped)[i] < catalog.len(),
        !skipped.contains(catalog[pending_positions(catalog, skipped)[i] as int]),
        !catalog.subrange(0, pending_positions(catalog, skipped)[i] as int).contains(
            catalog[pending_positions(catalog, skipped)[i] as int],
        ),
    decreases catalog.len(),
{
    let rest = pending_positions(catalog.drop_last(), skipped);
    if i < rest.len() {
        lemma_pending_not_skipped(catalog.drop_last(), skipped, i);
        let p = rest[i] as int;
        assert(catalog.drop_last().subrange(0, p) =~= catalog.subrange(0, p));
    } else {
        assert(catalog.subrange(0, catalog.len() - 1) =~= catalog.drop_last());
    }
}

/// Pending positions increase strictly, so no pending identity repeats.
pub proof fn lemma_pending_distinct(catalog: Seq<Seq<char>>, skipped: Set<Seq<char>>)
    ensures
        forall|i: int, j: int|
            0 <= i < j < pending_positions(catalog, skipped).len() ==> #[trigger] pending_positions(
                catalog,
                skipped,
            )[i] < #[trigger] pending_positions(catalog, skipped)[j],
        forall|i: int, j: int|
            0 <= i < j < pending_positions(catalog, skipped).len() ==> catalog[pending_positions(
                catalog,
                skipped,
            )[i] as int] != catalog[pending_positions(catalog, skipped)[j] as int],
    decreases catalog.len(),
{
    let pos = pending_positions(catalog, skipped);
    if catalog.len() > 0 {
        lemma_pending_distinct(catalog.drop_last(), skipped);
        let rest = pending_positions(catalog.drop_last(), skipped);
        assert forall|i: int| 0 <= i < rest.len() implies #[trigger] rest[i] < catalog.len() - 1 by {
            lemma_pending_not_skipped(catalog.drop_last(), skipped, i);
        }
        assert forall|i: int, j: int| 0 <= i < j < pos.len() implies #[trigger] pos[i] < #[trigger] pos[j] by {
            if j >= rest.len() {
                assert(pos[i] == rest[i]);
            } else {
                assert(pos[i] == rest[i] && pos[j] == rest[j]);
            }
        }
    }
    assert forall|i: int, j: int| 0 <= i < j < pos.len() implies catalog[pos[i] as int]
        != catalog[pos[j] as int] by {
        assert(pos[i] < pos[j]);
        lemma_pending_not_skipped(catalog, skipped, i);
        lemma_pending_not_skipped(catalog, skipped, j);
        assert(catalog.subrange(0, pos[j] as int)[pos[i] as int] == catalog[pos[i] as int]);
    }
}

/// An identity that a run records, as completed or as failed, is one of its
/// pending identities, so it was in neither list of the ledger that the run
/// resumed from: a resumed run never records an identity twice across the
/// two lists.
pub proof fn lemma_recorded_were_pending(v: SchedulerView, x: Seq<char>)
    requires
        inv(v),
        new_downloaded(v).contains(x) || new_failed(v).contains(x),
    ensures
        v.keys.contains(x),
        !v.initial_downloaded.contains(x),
        !v.initial_failed.contains(x),
{
    broadcast use vstd::seq_lib::group_to_multiset_ensures;

    assert(v.keys.subrange(0, v.next as int).to_multiset().count(x) > 0);
    assert(v.keys.subrange(0, v.next as int).contains(x));
    let j = choose|j: int| 0 <= j < v.next && v.keys.subrange(0, v.next as int)[j] == x;
    assert(v.keys[j] == x);
    lemma_pending_not_skipped(v.catalog, v.skipped, j);
    if v.initial_downloaded.contains(x) {
        let k = choose|k: int| 0 <= k < v.initial_downloaded.len() && v.initial_downloaded[k] == x;
        assert((v.initial_downloaded + v.initial_failed)[k] == x);
    }
    if v.initial_failed.contains(x) {
        let k = choose|k: int| 0 <= k < v.initial_failed.len() && v.initial_failed[k] == x;
        assert((v.initial_downloaded + v.initial_failed)[v.initial_downloaded.len() + k] == x);
    }
}

/// Within a run an identity is recorded at most once: never in both lists,
/// and never twice in one of them.
pub proof fn lemma_recorded_once(v: SchedulerView)
    requires
        inv(v),
    ensures
        forall|x: Seq<char>| !(new_downloaded(v).contains(x) && #[trigger] new_failed(v).contains(x)),
        new_downloaded(v).no_duplicates(),
        new_failed(v).no_duplicates(),
{
    broadcast use vstd::seq_lib::group_to_multiset_ensures;

    let started = v.keys.subrange(0, v.next as int);
    assert(started.no_duplicates()) by {
        assert forall|i: int, j: int| 0 <= i < started.len() && 0 <= j < started.len() && i != j
            implies started[i] != started[j] by {
            assert(started[i] == v.keys[i] && started[j] == v.keys[j]);
        }
    }
    started.lemma_multiset_has_no_duplicates();
    let d = new_downloaded(v).to_multiset();
    let f = new_failed(v).to_multiset();
    assert forall|x: Seq<char>| d.count(x) + f.count(x) <= 1 by {
        assert(started.to_multiset().count(x) == d.count(x) + f.count(x) + in_flight_keys(
            v,
        ).to_multiset().count(x));
        if started.to_multiset().count(x) > 0 {
            assert(started.to_multiset().contains(x));
        }
    }
    assert forall|x: Seq<char>| !(new_downloaded(v).contains(x) && #[trigger] new_failed(v).contains(x)) by {
        if new_downloaded(v).contains(x) && new_failed(v).contains(x) {
            assert(d.count(x) > 0 && f.count(x) > 0);
        }
    }
    assert forall|x: Seq<char>| d.contains(x) implies d.count(x) == 1 by {
        assert(d.count(x) + f.count(x) <= 1);
    }
    new_downloaded(v).lemma_multiset_has_no_duplicates_conv();
    assert forall|x: Seq<char>| f.contains(x) implies f.count(x) == 1 by {
        assert(d.count(x) + f.count(x) <= 1);
    }
    new_failed(v).lemma_multiset_has_no_duplicates_conv();
}

/// A run that stops because every pending symbol was started has started
/// exactly `M - E` units, for a catalog of `M` entries of which `E` are left
/// out (held by the resumed ledger, or repeating an earlier entry).
pub proof fn lemma_full_run_dispatch_count(v: SchedulerView)
    requires
        inv(v),
        poll_step(v) == Step::Stop(RunOutcome::Completed),
    ensures
        v.next == v.catalog.len() - skipped_count(v.catalog, v.skipped),
{
    lemma_pending_and_skipped(v.catalog, v.skipped);
}

/// Once such a run has drained with no failure, the completed ledger has
/// grown by exactly `M - E` identities, which are the pending identities,
/// each recorded once, and the failed ledger is the one the run began with.
pub proof fn lemma_clean_run_ledger(v: SchedulerView)
    requires
        inv(v),
        poll_step(v) == Step::Stop(RunOutcome::Completed),
        v.in_flight.len() == 0,
        v.failures == 0,
    ensures
        v.downloaded.len() == v.initial_downloaded.len() + (v.catalog.len() - skipped_count(
            v.catalog,
            v.skipped,
        )),
        v.failed == v.initial_failed,
        new_downloaded(v).to_multiset() == v.keys.to_multiset(),
{
    broadcast use vstd::seq_lib::group_to_multiset_ensures;

    lemma_pending_and_skipped(v.catalog, v.skipped);
    assert(v.failed =~= v.failed.subrange(0, v.initial_failed.len() as int));
    assert(new_failed(v) =~= Seq::<Seq<char>>::empty());
    assert(in_flight_keys(v) =~= Seq::<Seq<char>>::empty());
    assert(v.keys.subrange(0, v.next as int) =~= v.keys);
    assert(new_downloaded(v).to_multiset().add(Multiset::empty()).add(Multiset::empty())
        =~= new_downloaded(v).to_multiset());
}

/// At most `bound` units are ever in flight, and while no unit has
/// succeeded at most `3 × bound` have been started: a unit starts only while
/// the failures do not exceed twice the bound and a slot is free. Once the
/// failures exceed twice the bound, no unit starts.
pub proof fn lemma_breaker_bounds_work(v: SchedulerView)
    requires
        inv(v),
    ensures
        v.in_flight.len() <= v.bound,
        v.downloaded.len() == v.initial_downloaded.len() ==> v.next <= 3 * v.bound,
        v.failures > breaker_threshold(v.bound) ==> !(poll_step(v) is Dispatch) && after_poll(v)
            == v,
        v.failures > breaker_threshold(v.bound) && v.next < v.keys.len() ==> poll_step(v)
            == Step::Stop(RunOutcome::HaltedByBreaker),
{
}

/// After an interrupt no unit starts, a second interrupt changes nothing,
/// and a unit that reports afterwards is recorded just as it would have been
/// without the interrupt.
pub proof fn lemma_interrupt_stops_dispatch(v: SchedulerView, unit: nat, succeeded: bool)
    requires
        inv(v),
    ensures
        !(poll_step(after_interrupt(v)) is Dispatch),
        after_poll(after_interrupt(v)) == after_interrupt(v),
        after_interrupt(after_interrupt(v)) == after_interrupt(v),
        after_finish(after_interrupt(v), unit, succeeded) == after_interrupt(
            after_finish(v, unit, succeeded),
        ),
        after_finish(after_interrupt(v), unit, succeeded).cancelled,
{
}

/// What a unit of work does once its fetch has returned.
#[derive(PartialEq, Eq, Structural, Clone, Copy, Debug)]
pub enum UnitNext {
    /// Hand the series to the store; the unit succeeds if the store does.
    Store,
    /// The unit is over, with this outcome.
    Done { succeeded: bool },
}

/// A failed fetch fails the unit; an empty series is a success with
/// nothing to store; any other series goes to the store.
pub open spec fn unit_after_fetch(fetched: Option<usize>) -> UnitNext {
    match fetched {
        None => UnitNext::Done { succeeded: false },
        Some(n) => if n == 0 {
            UnitNext::Done { succeeded: true }
        } else {
            UnitNext::Store
        },
    }
}

/// Decides how a unit goes on after its fetch returned `fetched` (the
/// length of the series, or `None` when the fetch failed).
pub fn after_fetch(fetched: Option<usize>) -> (r: UnitNext)
    ensures
        r == unit_after_fetch(fetched),
{
    match fetched {
        None => UnitNext::Done { succeeded: false },
        Some(n) => if n == 0 {
            UnitNext::Done { succeeded: true }
        } else {
            UnitNext::Store
        },
    }
}

/// A 404 from the provider is an empty result, not an error; a unit whose
/// series is empty succeeds; and recording that success leaves the failure
/// count as it was.
pub proof fn lemma_not_found_is_not_failure(v: SchedulerView, unit: nat, attempt: nat)
    requires
        inv(v),
    ensures
        response_action(attempt, 404) == ResponseAction::Empty,
        unit_after_fetch(Some(0)) == (UnitNext::Done { succeeded: true }),
        after_finish(v, unit, true).failures == v.failures,
        after_finish(v, unit, true).failed == v.failed,
{
}

/// The dispatch loop of one ingestion run: the pending symbols, the slots in
/// use, the failure count and the cancellation flag, and the ledger that
/// the units' outcomes go to.
pub struct Scheduler {
    config: SyncedConfig,
    positions: Vec<usize>,
    keys: Vec<String>,
    next: usize,
    bound: usize,
    in_flight: Vec<usize>,
    failures: usize,
    cancelled: bool,
    catalog: Ghost<Seq<Seq<char>>>,
    skipped: Ghost<Set<Seq<char>>>,
    initial_downloaded: Ghost<Seq<Seq<char>>>,
    initial_failed: Ghost<Seq<Seq<char>>>,
}

impl View for Scheduler {
    type V = SchedulerView;

    closed spec fn view(&self) -> SchedulerView {
        SchedulerView {
            catalog: self.catalog@,
            skipped: self.skipped@,
            positions: self.positions@.map_values(|p: usize| p as nat),
            keys: keys_view(self.keys@),
            next: self.next as nat,
            bound: self.bound as nat,
            in_flight: self.in_flight@.map_values(|u: usize| u as nat),
            failures: self.failures as nat,
            cancelled: self.cancelled,
            downloaded: self.config.downloaded_keys(),
            failed: self.config.failed_keys(),
            initial_downloaded: self.initial_downloaded@,
            initial_failed: self.initial_failed@,
        }
    }
}

impl Scheduler {
    /// Whether the state is one that a run can reach.
    pub open spec fn wf(&self) -> bool {
        inv(self@)
    }

    /// Starts a run over `catalog` with at most `bound` units in flight,
    /// skipping every symbol whose identity the ledger already holds.
    pub fn new(catalog: &Vec<ExchangeSymbol>, config: SyncedConfig, bound: usize) -> (r: Self)
        ensures
            r.wf(),
            r@.catalog == catalog_keys(catalog@),
            r@.skipped == (config.downloaded_keys() + config.failed_keys()).to_set(),
            r@.positions == pending_positions(r@.catalog, r@.skipped),
            r@.keys == r@.positions.map_values(|p: nat| r@.catalog[p as int]),
            r@.keys.no_duplicates(),
            r@.next == 0,
            r@.bound == bound,
            r@.in_flight.len() == 0,
            r@.failures == 0,
            !r@.cancelled,
            r@.downloaded == config.downloaded_keys(),
            r@.failed == config.failed_keys(),
            r@.initial_downloaded == config.downloaded_keys(),
            r@.initial_failed == config.failed_keys(),
    {
        let ledger = config.get_filter();
        let ghost ledger_keys = keys_view(ledger@);
        let mut filter = StringHashSet::with_capacity(ledger.len());
        let mut i: usize = 0;
        while i < ledger.len()
            invariant
                i <= ledger.len(),
                ledger_keys == keys_view(ledger@),
                filter@ =~= ledger_keys.subrange(0, i as int).to_set(),
            decreases ledger.len() - i,
        {
            proof {
                assert(ledger_keys.subrange(0, i + 1) =~= ledger_keys.subrange(0, i as int).push(
                    ledger_keys[i as int],
                ));
                ledger_keys.subrange(0, i as int).lemma_push_to_set_commute(ledger_keys[i as int]);
            }
            filter.insert(ledger[i].clone());
            i = i + 1;
        }
        proof {
            assert(ledger_keys.subrange(0, i as int) =~= ledger_keys);
        }
        let ghost skipped = filter@;
        let ghost cat = catalog_keys(catalog@);
        proof {
            assert(skipped + cat.subrange(0, 0).to_set() =~= skipped);
        }
        let mut positions: Vec<usize> = Vec::new();
        let mut keys: Vec<String> = Vec::new();
        let mut e: usize = 0;
        while e < catalog.len()
            invariant
                e <= catalog.len(),
                filter@ == skipped + cat.subrange(0, e as int).to_set(),
                cat == catalog_keys(catalog@),
                positions@.map_values(|p: usize| p as nat) == pending_positions(
                    cat.subrange(0, e as int),
                    skipped,
                ),
                keys@.len() == positions@.len(),
                forall|j: int|
                    0 <= j < keys@.len() ==> #[trigger] keys@[j]@ == cat[positions@[j] as int],
                forall|j: int| 0 <= j < positions@.len() ==> #[trigger] positions@[j] < e,
            decreases catalog.len() - e,
        {
            let key = catalog[e].key();
            proof {
                assert(cat.subrange(0, e + 1).drop_last() =~= cat.subrange(0, e as int));
                assert(cat.subrange(0, e + 1) =~= cat.subrange(0, e as int).push(cat[e as int]));
                cat.subrange(0, e as int).lemma_push_to_set_commute(cat[e as int]);
                assert(skipped + cat.subrange(0, e + 1).to_set() =~= filter@.insert(key@));
            }
            if !filter.contains(key.as_str()) {
                filter.insert(key.clone());
                positions.push(e);
                keys.push(key);
                proof {
                    assert(positions@.map_values(|p: usize| p as nat) =~= pending_positions(
                        cat.subrange(0, e as int),
                        skipped,
                    ).push(e as nat));
                }
            } else {
                proof {
                    assert(filter@.insert(key@) =~= filter@);
                    assert(positions@.map_values(|p: usize| p as nat) =~= pending_positions(
                        cat.subrange(0, e + 1),
                        skipped,
                    ));
                }
            }
            e = e + 1;
        }
        proof {
            assert(cat.subrange(0, e as int) =~= cat);
        }
        let ghost initial_downloaded = config.downloaded_keys();
        let ghost initial_failed = config.failed_keys();
        let r = Scheduler {
            config,
            positions,
            keys,
            next: 0,
            bound,
            in_flight: Vec::new(),
            failures: 0,
            cancelled: false,
            catalog: Ghost(cat),
            skipped: Ghost(skipped),
            initial_downloaded: Ghost(initial_downloaded),
            initial_failed: Ghost(initial_failed),
        };
        proof {
            assert(r@.downloaded.subrange(0, initial_downloaded.len() as int) =~= initial_downloaded);
            assert(r@.failed.subrange(0, initial_failed.len() as int) =~= initial_failed);
            assert(r@.keys.len() == r@.positions.len());
            assert(r@.keys =~= r@.positions.map_values(|p: nat| r@.catalog[p as int]));
            lemma_pending_distinct(cat, skipped);
            assert forall|i: int, j: int| 0 <= i < r@.keys.len() && 0 <= j < r@.keys.len() && i != j
                implies r@.keys[i] != r@.keys[j] by {
                if i < j {
                    assert(r@.keys[i] == cat[r@.positions[i] as int]);
                    assert(r@.keys[j] == cat[r@.positions[j] as int]);
                } else {
                    assert(r@.keys[i] == cat[r@.positions[i] as int]);
                    assert(r@.keys[j] == cat[r@.positions[j] as int]);
                }
            }
            assert(r@.keys.subrange(0, 0) =~= Seq::<Seq<char>>::empty());
            assert(new_downloaded(r@) =~= Seq::<Seq<char>>::empty());
            assert(new_failed(r@) =~= Seq::<Seq<char>>::empty());
            assert(in_flight_keys(r@) =~= Seq::<Seq<char>>::empty());
            assert(started_accounted(r@)) by {
                broadcast use vstd::seq_lib::group_to_multiset_ensures;

                let e = Seq::<Seq<char>>::empty();
                assert(e.to_multiset() =~= Multiset::empty());
                assert(e.to_multiset().add(e.to_multiset()).add(e.to_multiset()) =~= Multiset::empty());
            }
            assert forall|j: int| 0 <= j < r@.keys.len() implies #[trigger] r@.keys[j] == r@.catalog[r@.positions[j] as int] by {
                assert(keys@[j]@ == cat[positions@[j] as int]);
            }
        }
        r
    }

    /// The failure count beyond which no further unit is started: twice the
    /// concurrency bound (a count that cannot exceed `usize::MAX` never
    /// passes it, so the saturated value stands for it).
    fn threshold(&self) -> (r: usize)
        ensures
            r as nat == (if breaker_threshold(self.bound as nat) <= usize::MAX {
                breaker_threshold(self.bound as nat)
            } else {
                usize::MAX as nat
            }),
    {
        if self.bound > usize::MAX / 2 {
            usize::MAX
        } else {
            self.bound * 2
        }
    }

    /// Decides the next step of the dispatch loop; a dispatched unit takes
    /// a slot at once.
    pub fn poll(&mut self) -> (r: Step)
        requires
            old(self).wf(),
        ensures
            final(self).wf(),
            r == poll_step(old(self)@),
            final(self)@ == after_poll(old(self)@),
    {
        let ghost v = self@;
        if self.next >= self.keys.len() {
            return Step::Stop(RunOutcome::Completed);
        }
        if self.failures > self.threshold() {
            return Step::Stop(RunOutcome::HaltedByBreaker);
        }
        if self.cancelled {
            return Step::Stop(RunOutcome::HaltedByCancellation);
        }
        if self.in_flight.len() >= self.bound {
            return Step::WaitForSlot;
        }
        let unit = self.next;
        let entry = self.positions[unit];
        self.in_flight.push(unit);
        self.next = unit + 1;
        proof {
            assert(self@.in_flight =~= v.in_flight.push(unit as nat));
            assert(self@ == after_poll(v));
            assert forall|i: int| 0 <= i < self@.in_flight.len() implies #[trigger] self@.in_flight[i]
                < self@.next by {
                if i < v.in_flight.len() {
                    assert(self@.in_flight[i] == v.in_flight[i]);
                }
            }
            assert(!v.in_flight.contains(unit as nat));
            let w = self@;
            let k = v.keys[unit as int];
            assert(w.keys.subrange(0, w.next as int) =~= v.keys.subrange(0, v.next as int).push(k));
            assert(in_flight_keys(w) =~= in_flight_keys(v).push(k));
            assert(new_downloaded(w) =~= new_downloaded(v));
            assert(new_failed(w) =~= new_failed(v));
            assert(started_accounted(w)) by {
                broadcast use vstd::seq_lib::group_to_multiset_ensures;

                assert(new_downloaded(w).to_multiset().add(new_failed(w).to_multiset()).add(
                    in_flight_keys(w).to_multiset(),
                ) =~= new_downloaded(v).to_multiset().add(new_failed(v).to_multiset()).add(
                    in_flight_keys(v).to_multiset(),
                ).insert(k));
            }
        }
        Step::Dispatch { unit, entry }
    }

    /// Records the outcome of unit `unit`: when it is in flight, its slot is
    /// freed and its identity joins the completed or the failed ledger. The
    /// result tells whether it was in flight.
    pub fn record_outcome(&mut self, unit: usize, succeeded: bool) -> (r: bool)
        requires
            old(self).wf(),
        ensures
            final(self).wf(),
            r == old(self)@.in_flight.contains(unit as nat),
            final(self)@ == after_finish(old(self)@, unit as nat, succeeded),
    {
        let ghost v = self@;
        let mut p: usize = 0;
        while p < self.in_flight.len()
            invariant
                p <= self.in_flight.len(),
                self@ == v,
                forall|j: int| 0 <= j < p ==> self.in_flight@[j] != unit,
            ensures
                p <= self.in_flight.len(),
                self@ == v,
                forall|j: int| 0 <= j < p ==> self.in_flight@[j] != unit,
                p < self.in_flight.len() ==> self.in_flight@[p as int] == unit,
            decreases self.in_flight.len() - p,
        {
            if self.in_flight[p] == unit {
                break;
            }
            p = p + 1;
        }
        if p == self.in_flight.len() {
            proof {
                if v.in_flight.contains(unit as nat) {
                    let j = v.in_flight.index_of(unit as nat);
                    assert(self.in_flight@[j] == unit);
                }
            }
            return false;
        }
        proof {
            assert(v.in_flight[p as int] == unit as nat);
            assert(v.in_flight.contains(unit as nat));
            let j = v.in_flight.index_of(unit as nat);
            assert(v.in_flight[j] == unit as nat);
            assert(j == p);
        }
        self.in_flight.remove(p);
        let key = self.keys[unit].clone();
        proof {
            assert(key@ == v.keys[unit as int]);
            assert(self@.in_flight =~= v.in_flight.remove(p as int));
        }
        if succeeded {
            self.config.append_download(key);
        } else {
            self.config.append_failure(key);
            self.failures = self.failures + 1;
        }
        proof {
            let w = self@;
            assert(w == after_finish(v, unit as nat, succeeded));
            assert(w.downloaded.subrange(0, w.initial_downloaded.len() as int) =~= v.downloaded.subrange(
                0,
                v.initial_downloaded.len() as int,
            ));
            assert(w.failed.subrange(0, w.initial_failed.len() as int) =~= v.failed.subrange(
                0,
                v.initial_failed.len() as int,
            ));
            assert forall|i: int| 0 <= i < w.in_flight.len() implies #[trigger] w.in_flight[i] < w.next by {
                if i < p {
                    assert(w.in_flight[i] == v.in_flight[i]);
                } else {
                    assert(w.in_flight[i] == v.in_flight[i + 1]);
                }
            }
            let key_v = v.keys[unit as int];
            assert(in_flight_keys(v)[p as int] == key_v);
            assert(in_flight_keys(w) =~= in_flight_keys(v).remove(p as int));
            assert(w.keys =~= v.keys);
            assert(w.next == v.next);
            if succeeded {
                assert(new_downloaded(w) =~= new_downloaded(v).push(key_v));
                assert(new_failed(w) =~= new_failed(v));
            } else {
                assert(new_downloaded(w) =~= new_downloaded(v));
                assert(new_failed(w) =~= new_failed(v).push(key_v));
            }
            assert(started_accounted(w)) by {
                broadcast use vstd::seq_lib::group_to_multiset_ensures;

                assert(in_flight_keys(v).to_multiset().count(key_v) > 0);
                assert(new_downloaded(w).to_multiset().add(new_failed(w).to_multiset()).add(
                    in_flight_keys(w).to_multiset(),
                ) =~= new_downloaded(v).to_multiset().add(new_failed(v).to_multiset()).add(
                    in_flight_keys(v).to_multiset(),
                ));
            }
            assert forall|i: int, k: int|
                0 <= i < w.in_flight.len() && 0 <= k < w.in_flight.len() && i != k implies w.in_flight[i]
                != w.in_flight[k] by {
                let oi = if i < p { i } else { i + 1 };
                let ok = if k < p { k } else { k + 1 };
                assert(w.in_flight[i] == v.in_flight[oi]);
                assert(w.in_flight[k] == v.in_flight[ok]);
            }
        }
        true
    }

    /// Handles an interrupt: the first one sets the cancellation flag and
    /// hands back the checkpoint of the ledger as it stands, with nothing set
    /// aside; any later one changes nothing and asks for no save.
    pub fn interrupt(&mut self) -> (r: Option<CheckpointFiles>)
        requires
            old(self).wf(),
        ensures
            final(self).wf(),
            final(self)@ == after_interrupt(old(self)@),
            r is Some <==> !old(self)@.cancelled,
            r matches Some(plan) ==> plan@ == save_result(
                old(self)@.downloaded,
                old(self)@.failed,
                None,
            ),
    {
        if self.cancelled {
            return None;
        }
        let plan = self.config.save(None);
        self.cancelled = true;
        Some(plan)
    }

    /// The checkpoint written once the units in flight have finished: after
    /// a completed run or a breaker halt, the ledger with its last `failures`
    /// entries (this run's failure count) set aside; none after a
    /// cancellation, whose checkpoint the interrupt already wrote.
    pub fn closing_checkpoint(&self, outcome: RunOutcome) -> (r: Option<CheckpointFiles>)
        requires
            self.wf(),
        ensures
            outcome == RunOutcome::HaltedByCancellation <==> r is None,
            r matches Some(plan) ==> plan@ == save_result(
                self@.downloaded,
                self@.failed,
                Some(self@.failures as usize),
            ),
    {
        match outcome {
            RunOutcome::HaltedByCancellation => None,
            _ => Some(self.config.save(Some(self.failures))),
        }
    }

    /// The ledger of the run.
    pub fn config(&self) -> (r: &SyncedConfig)
        ensures
            r.downloaded_keys() == self@.downloaded,
            r.failed_keys() == self@.failed,
    {
        &self.config
    }

    /// The identity of pending symbol `unit`, if there is one.
    pub fn unit_key(&self, unit: usize) -> (r: Option<&String>)
        requires
            self.wf(),
        ensures
            r is Some <==> unit < self@.keys.len(),
            r matches Some(k) ==> k@ == self@.keys[unit as int],
    {
        if unit < self.keys.len() {
            Some(&self.keys[unit])
        } else {
            None
        }
    }

    /// Failed units since the run began.
    pub fn failures(&self) -> (r: usize)
        ensures
            r == self@.failures,
    {
        self.failures
    }

    /// Units in flight.
    pub fn in_flight_count(&self) -> (r: usize)
        ensures
            r == self@.in_flight.len(),
    {
        self.in_flight.len()
    }

    /// Pending symbols of the run: the catalog less the resumed ledger.
    pub fn pending_count(&self) -> (r: usize)
        ensures
            r == self@.keys.len(),
    {
        self.keys.len()
    }

    /// Units started so far.
    pub fn dispatched(&self) -> (r: usize)
        ensures
            r == self@.next,
    {
        self.next
    }

    /// Whether an interrupt was observed.
    pub fn is_cancelled(&self) -> (r: bool)
        ensures
            r == self@.cancelled,
    {
        self.cancelled
    }
}

} // verus!
