//! Input data as delivered by the station data provider: static station
//! metadata (used once to build the lookup table) and live status
//! snapshots (consumed every poll cycle).

use vstd::prelude::*;

verus! {

/// Raw coordinate string of a station record, for example "8.55 47.36".
#[derive(Debug)]
pub struct Google {
    pub google: String,
}

/// Postal address attributes of a station record.
#[derive(Debug)]
pub struct Address {
    pub postal_code: Option<String>,
}

/// Power rating reported by one charging facility.  The provider's data is
/// loosely typed: the field may be absent, a native number (held here in
/// milli-units), or a numeric string still to be parsed.
#[derive(Debug)]
pub enum FacilityPower {
    Missing,
    Rated(u64),
    Text(String),
}

/// Live status of one charger.
#[derive(PartialEq, Eq, Structural, Clone, Copy, Debug)]
pub enum EVSEStatus {
    Available,
    Occupied,
    OutOfService,
    Unknown,
}

/// Static metadata for one charger.
#[derive(Debug)]
pub struct EVSEDataRecord {
    pub geo_coordinates: Google,
    pub last_update: Option<String>,
    pub evse_id: String,
    pub address: Address,
    pub charging_facilities: Vec<FacilityPower>,
}

#[derive(Debug)]
pub struct EVSEDataRecordContainer {
    pub evse_data_record: Vec<EVSEDataRecord>,
}

#[derive(Debug)]
pub struct EVSEDataResponse {
    pub evse_data: Vec<EVSEDataRecordContainer>,
}

/// One observed (charger, status) pair of a snapshot.
#[derive(Debug)]
pub struct EVSEStatusRecord {
    pub evse_id: String,
    pub evse_status: EVSEStatus,
}

#[derive(Debug)]
pub struct EVSEStatusRecordContainer {
    pub evse_status_record: Vec<EVSEStatusRecord>,
}

#[derive(Debug)]
pub struct EVSEStatusResponse {
    pub evse_statuses: Vec<EVSEStatusRecordContainer>,
}

} // verus!
