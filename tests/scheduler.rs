use super_eodhd::config::{Config, SyncedConfig};
use super_eodhd::dump_routines::{
    after_fetch, ExitedPrematurly, RunOutcome, Scheduler, Step, UnitNext,
};
use super_eodhd::eodhd::{on_response, ResponseAction};
use super_eodhd::models::ExchangeSymbol;

fn symbol(code: &str, exchange: &str) -> ExchangeSymbol {
    ExchangeSymbol {
        code: code.to_string(),
        name: format!("{} Inc", code),
        country: "USA".to_string(),
        exchange: exchange.to_string(),
        currency: "USD".to_string(),
        symbol_type: "Common Stock".to_string(),
        isin: None,
    }
}

fn catalog(codes: &[&str]) -> Vec<ExchangeSymbol> {
    codes.iter().map(|c| symbol(c, "US")).collect()
}

fn ledger(downloaded: &[&str], failed: &[&str]) -> SyncedConfig {
    SyncedConfig {
        downloaded: downloaded.iter().map(|s| s.to_string()).collect(),
        failed: failed.iter().map(|s| s.to_string()).collect(),
    }
}

/// Runs the loop to its stop, finishing every unit as soon as it starts.
fn run_all(s: &mut Scheduler, succeed: bool) -> (RunOutcome, Vec<usize>) {
    let mut started = Vec::new();
    loop {
        match s.poll() {
            Step::Dispatch { unit, .. } => {
                started.push(unit);
                assert!(s.record_outcome(unit, succeed));
            }
            Step::WaitForSlot => panic!("a slot is free after every record"),
            Step::Stop(outcome) => return (outcome, started),
        }
    }
}

#[test]
fn resumed_run_dispatches_only_unprocessed_symbols() {
    let cat = catalog(&["A", "B", "C", "D", "E"]);
    let mut s = Scheduler::new(&cat, ledger(&["B.US"], &["D.US"]), 2);
    assert_eq!(s.pending_count(), 3);
    let (outcome, started) = run_all(&mut s, true);
    assert_eq!(outcome, RunOutcome::Completed);
    assert_eq!(started.len(), 3);
    assert_eq!(s.dispatched(), 3);
}

#[test]
fn dispatch_names_catalog_entries_in_order() {
    let cat = catalog(&["A", "B", "C"]);
    let mut s = Scheduler::new(&cat, ledger(&["A.US"], &[]), 4);
    assert_eq!(s.poll(), Step::Dispatch { unit: 0, entry: 1 });
    assert_eq!(s.poll(), Step::Dispatch { unit: 1, entry: 2 });
    assert_eq!(s.unit_key(0).unwrap(), "B.US");
    assert_eq!(s.unit_key(1).unwrap(), "C.US");
    assert!(s.unit_key(2).is_none());
    assert_eq!(s.poll(), Step::Stop(RunOutcome::Completed));
}

#[test]
fn clean_run_grows_completed_and_keeps_failed() {
    let cat = catalog(&["A", "B", "C", "D"]);
    let mut s = Scheduler::new(&cat, ledger(&["A.US"], &["B.US"]), 3);
    let (outcome, _) = run_all(&mut s, true);
    assert_eq!(outcome, RunOutcome::Completed);
    assert_eq!(s.config().downloaded.len(), 1 + 2);
    assert_eq!(s.config().downloaded, vec!["A.US".to_string(), "C.US".to_string(), "D.US".to_string()]);
    assert_eq!(s.config().failed, vec!["B.US".to_string()]);
    assert_eq!(s.failures(), 0);
}

#[test]
fn empty_catalog_completes_at_once() {
    let mut s = Scheduler::new(&Vec::new(), ledger(&[], &[]), 2);
    assert_eq!(s.poll(), Step::Stop(RunOutcome::Completed));
    assert_eq!(s.dispatched(), 0);
}

#[test]
fn fully_resumed_catalog_dispatches_nothing() {
    let cat = catalog(&["A", "B"]);
    let mut s = Scheduler::new(&cat, ledger(&["A.US", "B.US"], &[]), 2);
    assert_eq!(s.pending_count(), 0);
    assert_eq!(s.poll(), Step::Stop(RunOutcome::Completed));
}

#[test]
fn slots_bound_units_in_flight() {
    let cat = catalog(&["A", "B", "C", "D"]);
    let mut s = Scheduler::new(&cat, ledger(&[], &[]), 2);
    assert!(matches!(s.poll(), Step::Dispatch { unit: 0, .. }));
    assert!(matches!(s.poll(), Step::Dispatch { unit: 1, .. }));
    assert_eq!(s.poll(), Step::WaitForSlot);
    assert_eq!(s.in_flight_count(), 2);
    assert!(s.record_outcome(1, true));
    assert!(matches!(s.poll(), Step::Dispatch { unit: 2, .. }));
    assert_eq!(s.in_flight_count(), 2);
}

#[test]
fn breaker_halts_when_every_unit_fails() {
    let names: Vec<String> = (0..50).map(|i| format!("S{}", i)).collect();
    let refs: Vec<&str> = names.iter().map(|s| s.as_str()).collect();
    let cat = catalog(&refs);
    let bound = 3;
    let mut s = Scheduler::new(&cat, ledger(&[], &[]), bound);
    let mut in_flight: Vec<usize> = Vec::new();
    let mut max_in_flight = 0;
    let outcome = loop {
        match s.poll() {
            Step::Dispatch { unit, .. } => {
                in_flight.push(unit);
                max_in_flight = max_in_flight.max(s.in_flight_count());
            }
            Step::WaitForSlot => {
                let unit = in_flight.remove(0);
                assert!(s.record_outcome(unit, false));
            }
            Step::Stop(outcome) => break outcome,
        }
    };
    assert_eq!(outcome, RunOutcome::HaltedByBreaker);
    assert!(s.failures() > 2 * bound);
    assert!(max_in_flight <= bound);
    assert!(s.dispatched() <= 3 * bound);
    for unit in in_flight {
        assert!(s.record_outcome(unit, false));
    }
    assert_eq!(s.poll(), Step::Stop(RunOutcome::HaltedByBreaker));
    assert_eq!(s.config().failed.len(), s.dispatched());
}

#[test]
fn breaker_checkpoint_sets_failures_aside() {
    let cat = catalog(&["A", "B", "C", "D", "E", "F"]);
    let mut s = Scheduler::new(&cat, ledger(&[], &["OLD.US"]), 1);
    let (outcome, started) = run_all(&mut s, false);
    assert_eq!(outcome, RunOutcome::HaltedByBreaker);
    assert_eq!(started.len(), 3);
    assert_eq!(s.failures(), 3);
    let files = s.closing_checkpoint(outcome).unwrap();
    assert_eq!(files.failed, br#"["OLD.US"]"#.to_vec());
    assert_eq!(files.removed, Some(br#"["A.US","B.US","C.US"]"#.to_vec()));
}

#[test]
fn completed_checkpoint_sets_run_failures_aside() {
    let cat = catalog(&["A", "B"]);
    let mut s = Scheduler::new(&cat, ledger(&[], &[]), 2);
    assert!(matches!(s.poll(), Step::Dispatch { unit: 0, .. }));
    assert!(s.record_outcome(0, false));
    let (outcome, _) = run_all(&mut s, true);
    assert_eq!(outcome, RunOutcome::Completed);
    let files = s.closing_checkpoint(outcome).unwrap();
    assert_eq!(files.downloaded, br#"["B.US"]"#.to_vec());
    assert_eq!(files.failed, b"[]".to_vec());
    assert_eq!(files.removed, Some(br#"["A.US"]"#.to_vec()));
}

#[test]
fn completed_checkpoint_keeps_earlier_failures() {
    let cat = catalog(&["A", "B", "C"]);
    let mut s = Scheduler::new(&cat, ledger(&[], &["OLD.US"]), 2);
    assert!(matches!(s.poll(), Step::Dispatch { unit: 0, .. }));
    assert!(s.record_outcome(0, false));
    let (outcome, _) = run_all(&mut s, true);
    assert_eq!(outcome, RunOutcome::Completed);
    let files = s.closing_checkpoint(outcome).unwrap();
    assert_eq!(files.failed, br#"["OLD.US"]"#.to_vec());
    assert_eq!(files.removed, Some(br#"["A.US"]"#.to_vec()));
    assert_eq!(files.downloaded, br#"["B.US","C.US"]"#.to_vec());
}

#[test]
fn clean_completed_checkpoint_sets_empty_list_aside() {
    let cat = catalog(&["A"]);
    let mut s = Scheduler::new(&cat, ledger(&[], &["OLD.US"]), 1);
    let (outcome, _) = run_all(&mut s, true);
    let files = s.closing_checkpoint(outcome).unwrap();
    assert_eq!(files.failed, br#"["OLD.US"]"#.to_vec());
    assert_eq!(files.removed, Some(b"[]".to_vec()));
}

#[test]
fn repeated_catalog_identity_is_dispatched_once() {
    let cat = vec![
        symbol("A", "US"),
        symbol("B", "US"),
        symbol("A", "US"),
        symbol("C", "US"),
        symbol("B", "US"),
    ];
    let mut s = Scheduler::new(&cat, ledger(&[], &["C.US"]), 4);
    assert_eq!(s.pending_count(), 2);
    assert_eq!(s.poll(), Step::Dispatch { unit: 0, entry: 0 });
    assert_eq!(s.poll(), Step::Dispatch { unit: 1, entry: 1 });
    assert_eq!(s.poll(), Step::Stop(RunOutcome::Completed));
    assert!(s.record_outcome(0, true));
    assert!(s.record_outcome(1, false));
    assert_eq!(s.config().downloaded, vec!["A.US".to_string()]);
    assert_eq!(s.config().failed, vec!["C.US".to_string(), "B.US".to_string()]);
}

#[test]
fn interrupt_saves_once_and_stops_dispatch() {
    let cat = catalog(&["A", "B", "C", "D"]);
    let mut s = Scheduler::new(&cat, ledger(&[], &[]), 2);
    assert!(matches!(s.poll(), Step::Dispatch { unit: 0, .. }));
    assert!(s.record_outcome(0, true));
    assert!(matches!(s.poll(), Step::Dispatch { unit: 1, .. }));

    let files = s.interrupt().expect("the first interrupt saves");
    assert_eq!(files.downloaded, br#"["A.US"]"#.to_vec());
    assert_eq!(files.failed, b"[]".to_vec());
    assert!(files.removed.is_none());
    assert!(s.is_cancelled());
    assert!(s.interrupt().is_none());

    assert_eq!(s.poll(), Step::Stop(RunOutcome::HaltedByCancellation));
    assert!(s.record_outcome(1, true));
    assert_eq!(s.config().downloaded, vec!["A.US".to_string(), "B.US".to_string()]);
    assert_eq!(s.poll(), Step::Stop(RunOutcome::HaltedByCancellation));
    assert_eq!(s.dispatched(), 2);
    assert!(s.closing_checkpoint(RunOutcome::HaltedByCancellation).is_none());
}

#[test]
fn unknown_or_repeated_reports_change_nothing() {
    let cat = catalog(&["A", "B"]);
    let mut s = Scheduler::new(&cat, ledger(&[], &[]), 2);
    assert!(!s.record_outcome(0, true));
    assert!(matches!(s.poll(), Step::Dispatch { unit: 0, .. }));
    assert!(s.record_outcome(0, false));
    assert!(!s.record_outcome(0, false));
    assert!(!s.record_outcome(7, true));
    assert_eq!(s.failures(), 1);
    assert_eq!(s.config().failed, vec!["A.US".to_string()]);
}

#[test]
fn not_found_is_an_empty_success() {
    assert_eq!(on_response(1, 404), ResponseAction::Empty);
    assert_eq!(after_fetch(Some(0)), UnitNext::Done { succeeded: true });
    let cat = catalog(&["A"]);
    let mut s = Scheduler::new(&cat, ledger(&[], &[]), 1);
    assert!(matches!(s.poll(), Step::Dispatch { unit: 0, .. }));
    assert!(s.record_outcome(0, true));
    assert_eq!(s.failures(), 0);
    assert!(s.config().failed.is_empty());
}

#[test]
fn unit_outcome_after_fetch() {
    assert_eq!(after_fetch(None), UnitNext::Done { succeeded: false });
    assert_eq!(after_fetch(Some(12)), UnitNext::Store);
}

#[test]
fn run_outcomes_and_stages() {
    assert_eq!(ExitedPrematurly::default(), ExitedPrematurly::NO);
    assert_eq!(RunOutcome::Completed.exited_prematurely(), ExitedPrematurly::NO);
    assert_eq!(RunOutcome::HaltedByBreaker.exited_prematurely(), ExitedPrematurly::YES);
    assert_eq!(RunOutcome::HaltedByCancellation.exited_prematurely(), ExitedPrematurly::YES);
}

#[test]
fn loaded_ledger_feeds_the_filter() {
    let ledger = SyncedConfig::load(br#"["A.US"]"#, br#"["C.US"]"#);
    let cat = catalog(&["A", "B", "C"]);
    let s = Scheduler::new(&cat, ledger, 2);
    assert_eq!(s.pending_count(), 1);
    assert_eq!(s.unit_key(0).unwrap(), "B.US");
}
