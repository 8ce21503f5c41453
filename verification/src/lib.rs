//! Occupancy tracking for public EV charging stations.
//!
//! The crate ingests per-charger status snapshots, keeps track of which
//! chargers are currently occupied, opens and closes charging sessions on
//! status transitions, and derives the estimated energy of each closed
//! session.  A static lookup table, built once from station reference data,
//! supplies the physical attributes (location, postal code, power ratings)
//! that are frozen into every session.
//!
//! Power values are carried as fixed-point integers in thousandths of the
//! unit used by the station metadata; coordinates as fixed-point integers in
//! millionths of a degree.

pub mod clock;
pub mod input_models;
pub mod lookup;
pub mod occupancy;
pub mod output_models;
pub mod parse;
