use evse_occupancy::input_models::{
    Address, EVSEDataRecord, EVSEDataRecordContainer, EVSEDataResponse, FacilityPower, Google,
};
use evse_occupancy::lookup::{
    build_lookup_table, estimated_power_milli, resolve_max_nominal_power, LookupBuildError,
    LookupTable, LookupTableEntry, POWER_FLOOR_MILLI,
};

fn record(
    id: &str,
    coords: &str,
    postal: Option<&str>,
    facilities: Vec<FacilityPower>,
) -> EVSEDataRecord {
    EVSEDataRecord {
        geo_coordinates: Google { google: coords.to_string() },
        last_update: None,
        evse_id: id.to_string(),
        address: Address { postal_code: postal.map(|p| p.to_string()) },
        charging_facilities: facilities,
    }
}

fn response(records: Vec<EVSEDataRecord>) -> EVSEDataResponse {
    EVSEDataResponse {
        evse_data: vec![EVSEDataRecordContainer { evse_data_record: records }],
    }
}

#[test]
fn power_floor_wins_over_bogus_and_low_ratings() {
    // facility list [{power: 7}, {power: "bogus"}]: the unparseable rating
    // contributes the floor, which beats the below-floor 7
    let fs = vec![FacilityPower::Rated(7_000), FacilityPower::Text("bogus".to_string())];
    let max = resolve_max_nominal_power(&fs);
    assert_eq!(max, 11_000);
    assert_eq!(estimated_power_milli(max), 6_600);
}

#[test]
fn single_usable_rating_is_kept() {
    let fs = vec![FacilityPower::Rated(7_000)];
    assert_eq!(resolve_max_nominal_power(&fs), 7_000);
    // the estimate still floors at 11 units: 0.6 * 11 = 6.6
    assert_eq!(estimated_power_milli(7_000), 6_600);
}

#[test]
fn rating_above_floor_raises_estimate() {
    let fs = vec![FacilityPower::Missing, FacilityPower::Rated(22_000)];
    assert_eq!(resolve_max_nominal_power(&fs), 22_000);
    assert_eq!(estimated_power_milli(22_000), 13_200);
}

#[test]
fn numeric_string_rating_is_parsed() {
    let fs = vec![FacilityPower::Text("22.5".to_string())];
    assert_eq!(resolve_max_nominal_power(&fs), 22_500);
}

#[test]
fn empty_facility_list_gets_floor() {
    assert_eq!(resolve_max_nominal_power(&vec![]), POWER_FLOOR_MILLI);
}

#[test]
fn build_produces_complete_entries() {
    let resp = response(vec![record(
        "CH001",
        "8.55 47.36",
        Some("3011"),
        vec![FacilityPower::Rated(22_000)],
    )]);
    let table = build_lookup_table(&resp).unwrap();
    let entry = table.get(&"CH001".to_string()).unwrap();
    assert_eq!(entry.location, (8_550_000, 47_360_000));
    assert_eq!(entry.zip, "3011");
    assert_eq!(entry.max_nominal_power, 22_000);
    assert_eq!(entry.estimated_power, 13_200);
}

#[test]
fn build_defaults_missing_postal_code() {
    let resp = response(vec![record("CH002", "7.0 46.0", None, vec![])]);
    let table = build_lookup_table(&resp).unwrap();
    let entry = table.get(&"CH002".to_string()).unwrap();
    assert_eq!(entry.zip, "-");
    assert_eq!(entry.max_nominal_power, 11_000);
    assert_eq!(entry.estimated_power, 6_600);
}

#[test]
fn build_fails_on_malformed_coordinates() {
    let resp = response(vec![
        record("CH001", "8.55 47.36", None, vec![]),
        record("CH003", "nowhere", None, vec![]),
    ]);
    match build_lookup_table(&resp) {
        Err(LookupBuildError::MalformedCoordinates) => {},
        _ => panic!("malformed coordinates must be a fatal construction error"),
    }
}

#[test]
fn build_later_record_overrides_earlier() {
    let resp = response(vec![
        record("CH001", "8.0 47.0", None, vec![FacilityPower::Rated(11_000)]),
        record("CH001", "9.0 46.0", None, vec![FacilityPower::Rated(43_000)]),
    ]);
    let table = build_lookup_table(&resp).unwrap();
    let entry = table.get(&"CH001".to_string()).unwrap();
    assert_eq!(entry.location, (9_000_000, 46_000_000));
    assert_eq!(entry.max_nominal_power, 43_000);
}

#[test]
fn get_unknown_charger_is_none() {
    let table = LookupTable::new();
    assert!(table.get(&"CH404".to_string()).is_none());
}

#[test]
fn insert_then_get() {
    let mut table = LookupTable::new();
    table.insert(
        "X1".to_string(),
        LookupTableEntry {
            location: (1, 2),
            zip: "-".to_string(),
            estimated_power: 6_600,
            max_nominal_power: 11_000,
        },
    );
    let entry = table.get(&"X1".to_string()).unwrap();
    assert_eq!(entry.estimated_power, 6_600);
}
