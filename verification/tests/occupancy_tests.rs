use evse_occupancy::input_models::{EVSEStatus, EVSEStatusRecord};
use evse_occupancy::lookup::{LookupTable, LookupTableEntry};
use evse_occupancy::occupancy::OccupancyState;
use evse_occupancy::output_models::Charging;

fn entry_66() -> LookupTableEntry {
    LookupTableEntry {
        location: (8_550_000, 47_360_000),
        zip: "3011".to_string(),
        estimated_power: 6_600,
        max_nominal_power: 11_000,
    }
}

fn table_with(ids: &[&str]) -> LookupTable {
    let mut table = LookupTable::new();
    for id in ids {
        table.insert(id.to_string(), entry_66());
    }
    table
}

fn obs(id: &str, status: EVSEStatus) -> EVSEStatusRecord {
    EVSEStatusRecord { evse_id: id.to_string(), evse_status: status }
}

#[test]
fn transition_occupied_then_free_emits_one_session() {
    // charger "X1" with estimated power 6.6: occupied at t=1000, free one
    // hour later; exactly one session with energy 6.6 comes out
    let table = table_with(&["X1"]);
    let mut state = OccupancyState::new();

    let out1 = state.reconcile(&table, &vec![obs("X1", EVSEStatus::Occupied)], 1000);
    assert_eq!(out1.closed_sessions.len(), 0);
    assert_eq!(out1.realtime.len(), 1);
    assert_eq!(out1.realtime[0].0, "X1");
    assert!(out1.realtime[0].1.occupied);
    assert_eq!(state.open_count(), 1);
    assert_eq!(state.get(&"X1".to_string()).unwrap().start, 1000);

    let out2 = state.reconcile(&table, &vec![obs("X1", EVSEStatus::Available)], 1000 + 3_600_000);
    assert_eq!(out2.closed_sessions.len(), 1);
    let session = &out2.closed_sessions[0];
    assert_eq!(session.charger, "X1");
    assert_eq!(session.start, 1000);
    assert_eq!(session.end, Some(3_601_000));
    assert_eq!(session.energy, Some(6_600));
    assert!(!out2.realtime[0].1.occupied);
    assert_eq!(state.open_count(), 0);
}

#[test]
fn occupied_reobservation_is_idempotent() {
    // repeated Occupied observations never open a second session nor emit
    // an intermediate session record
    let table = table_with(&["X1"]);
    let mut state = OccupancyState::new();

    let out1 = state.reconcile(&table, &vec![obs("X1", EVSEStatus::Occupied)], 1000);
    let out2 = state.reconcile(&table, &vec![obs("X1", EVSEStatus::Occupied)], 2000);
    let out3 = state.reconcile(&table, &vec![obs("X1", EVSEStatus::Occupied)], 3000);

    assert_eq!(out1.closed_sessions.len(), 0);
    assert_eq!(out2.closed_sessions.len(), 0);
    assert_eq!(out3.closed_sessions.len(), 0);
    assert_eq!(state.open_count(), 1);
    // the open session still carries its original start time
    assert_eq!(state.get(&"X1".to_string()).unwrap().start, 1000);
}

#[test]
fn at_most_one_open_session_per_charger() {
    let table = table_with(&["A", "B"]);
    let mut state = OccupancyState::new();
    state.reconcile(
        &table,
        &vec![obs("A", EVSEStatus::Occupied), obs("B", EVSEStatus::Occupied)],
        10,
    );
    state.reconcile(
        &table,
        &vec![obs("A", EVSEStatus::Occupied), obs("B", EVSEStatus::Occupied)],
        20,
    );
    assert_eq!(state.open_count(), 2);
    assert!(state.contains_id(&"A".to_string()));
    assert!(state.contains_id(&"B".to_string()));
}

#[test]
fn every_known_charger_yields_one_realtime_record() {
    let table = table_with(&["A", "B", "C"]);
    let mut state = OccupancyState::new();
    let out = state.reconcile(
        &table,
        &vec![
            obs("A", EVSEStatus::Occupied),
            obs("B", EVSEStatus::Available),
            obs("C", EVSEStatus::OutOfService),
        ],
        500,
    );
    assert_eq!(out.realtime.len(), 3);
    let mut ids: Vec<&str> = out.realtime.iter().map(|p| p.0.as_str()).collect();
    ids.sort();
    assert_eq!(ids, vec!["A", "B", "C"]);
    for (_, rt) in &out.realtime {
        assert_eq!(rt.last_update, 500);
        assert_eq!(rt.estimated_power, Some(6_600));
        assert_eq!(rt.nominal_max_power, 11_000);
        assert_eq!(rt.zip, "3011");
    }
}

#[test]
fn missing_lookup_charger_is_skipped_and_reported() {
    // "ZZZ" is absent from the lookup table: no realtime record, no
    // transition processing, and the other charger is unaffected
    let table = table_with(&["X1"]);
    let mut state = OccupancyState::new();
    let out = state.reconcile(
        &table,
        &vec![obs("ZZZ", EVSEStatus::Occupied), obs("X1", EVSEStatus::Occupied)],
        1000,
    );
    assert_eq!(out.lookup_misses, vec!["ZZZ".to_string()]);
    assert_eq!(out.realtime.len(), 1);
    assert_eq!(out.realtime[0].0, "X1");
    assert_eq!(out.closed_sessions.len(), 0);
    assert!(state.contains_id(&"X1".to_string()));
    assert!(!state.contains_id(&"ZZZ".to_string()));
    assert_eq!(state.open_count(), 1);
}

#[test]
fn out_of_service_closes_a_session() {
    let table = table_with(&["X1"]);
    let mut state = OccupancyState::new();
    state.reconcile(&table, &vec![obs("X1", EVSEStatus::Occupied)], 0);
    let out = state.reconcile(&table, &vec![obs("X1", EVSEStatus::OutOfService)], 1_800_000);
    assert_eq!(out.closed_sessions.len(), 1);
    // half an hour at 6.6: 3.3 in milli-unit-hours
    assert_eq!(out.closed_sessions[0].energy, Some(3_300));
    assert_eq!(state.open_count(), 0);
}

#[test]
fn charger_absent_from_snapshot_stays_open() {
    let table = table_with(&["A", "B"]);
    let mut state = OccupancyState::new();
    state.reconcile(&table, &vec![obs("A", EVSEStatus::Occupied)], 100);
    // the next snapshot no longer reports A: its session stays open
    let out = state.reconcile(&table, &vec![obs("B", EVSEStatus::Available)], 200);
    assert_eq!(out.closed_sessions.len(), 0);
    assert!(state.contains_id(&"A".to_string()));
    assert_eq!(state.get(&"A".to_string()).unwrap().start, 100);
}

#[test]
fn empty_snapshot_changes_nothing() {
    let table = table_with(&["A"]);
    let mut state = OccupancyState::new();
    state.reconcile(&table, &vec![obs("A", EVSEStatus::Occupied)], 100);
    let out = state.reconcile(&table, &vec![], 200);
    assert_eq!(out.realtime.len(), 0);
    assert_eq!(out.closed_sessions.len(), 0);
    assert_eq!(out.lookup_misses.len(), 0);
    assert_eq!(state.open_count(), 1);
}

#[test]
fn set_end_derives_duration_energy() {
    let mut session = Charging {
        start: 1000,
        end: None,
        nominal_max_power: 11_000,
        estimated_power: Some(6_600),
        charger: "X1".to_string(),
        zip: "-".to_string(),
        location: (0, 0),
        energy: Some(0),
    };
    session.set_end(1000 + 3_600_000);
    assert_eq!(session.end, Some(3_601_000));
    // exactly ((end - start) / 3_600_000) * 6.6 = 6.6
    assert_eq!(session.energy, Some(6_600));

    let mut short = Charging { end: None, energy: Some(0), ..session };
    short.start = 0;
    short.set_end(900_000);
    // a quarter hour: 1.65
    assert_eq!(short.energy, Some(1_650));
}

#[test]
fn clock_reads_epoch_millis() {
    let t = evse_occupancy::clock::now();
    // far past 2001 and well within the reconciler's time bound
    assert!(t > 1_000_000_000_000);
    assert!(t <= u64::MAX as u128);
}
