//! Output records: charging sessions (emitted once when a charger turns
//! free) and realtime status records (emitted for every charger in every
//! cycle).
//!
//! Times are milliseconds since an epoch, powers are fixed-point
//! milli-units, and a session's energy is in milli-unit-hours.

use vstd::prelude::*;

verus! {

/// Milliseconds in one hour: the divisor that turns a duration in
/// milliseconds times a power into an energy.
pub const MILLIS_PER_HOUR: u64 = 3_600_000;

/// Energy attributed to a session, in milli-unit-hours: the duration in
/// milliseconds, times the estimated power in milli-units, divided by the
/// milliseconds of one hour.
pub open spec fn session_energy(start: int, end: int, estimated_power: int) -> int {
    ((end - start) * estimated_power) / (MILLIS_PER_HOUR as int)
}

/// Abstract value of a `Charging` record.
pub struct ChargingView {
    pub start: int,
    pub end: Option<int>,
    pub nominal_max_power: int,
    pub estimated_power: Option<int>,
    pub charger: Seq<char>,
    pub zip: Seq<char>,
    pub location: (int, int),
    pub energy: Option<int>,
}

/// A charging session: open while `end` is `None`, closed by `set_end`.
/// The physical attributes are snapshots of the lookup entry taken when
/// the session was opened.
#[derive(Debug)]
pub struct Charging {
    pub start: u128,
    pub end: Option<u128>,
    pub nominal_max_power: u64,
    pub estimated_power: Option<u64>,
    pub charger: String,
    pub zip: String,
    pub location: (i64, i64),
    pub energy: Option<u128>,
}

impl View for Charging {
    type V = ChargingView;

    open spec fn view(&self) -> ChargingView {
        ChargingView {
            start: self.start as int,
            end: match self.end {
                Some(e) => Some(e as int),
                None => None,
            },
            nominal_max_power: self.nominal_max_power as int,
            estimated_power: match self.estimated_power {
                Some(p) => Some(p as int),
                None => None,
            },
            charger: self.charger@,
            zip: self.zip@,
            location: (self.location.0 as int, self.location.1 as int),
            energy: match self.energy {
                Some(e) => Some(e as int),
                None => None,
            },
        }
    }
}

impl Charging {
    /// Closes the session at `end`, deriving the estimated energy from the
    /// session's own frozen power estimate (not a freshly resolved value).
    pub fn set_end(&mut self, end: u128)
        requires
            old(self).estimated_power is Some,
            old(self).start <= end,
            (end - old(self).start) * old(self).estimated_power.unwrap() <= u128::MAX,
        ensures
            final(self)@ == (ChargingView {
                end: Some(end as int),
                energy: Some(
                    session_energy(
                        old(self)@.start,
                        end as int,
                        old(self)@.estimated_power.unwrap(),
                    ),
                ),
                ..old(self)@
            }),
    {
        self.end = Some(end);
        let duration = end - self.start;
        let est = self.estimated_power.unwrap();
        let energy = duration * (est as u128) / (MILLIS_PER_HOUR as u128);
        self.energy = Some(energy);
    }
}

/// Abstract value of a `Realtime` record.
pub struct RealtimeView {
    pub last_update: int,
    pub occupied: bool,
    pub nominal_max_power: int,
    pub estimated_power: Option<int>,
    pub zip: Seq<char>,
    pub location: (int, int),
}

/// Point-in-time status of one charger, superseded every cycle.
#[derive(Debug)]
pub struct Realtime {
    pub last_update: u128,
    pub occupied: bool,
    pub nominal_max_power: u64,
    pub estimated_power: Option<u64>,
    pub zip: String,
    pub location: (i64, i64),
}

impl View for Realtime {
    type V = RealtimeView;

    open spec fn view(&self) -> RealtimeView {
        RealtimeView {
            last_update: self.last_update as int,
            occupied: self.occupied,
            nominal_max_power: self.nominal_max_power as int,
            estimated_power: match self.estimated_power {
                Some(p) => Some(p as int),
                None => None,
            },
            zip: self.zip@,
            location: (self.location.0 as int, self.location.1 as int),
        }
    }
}

} // verus!
