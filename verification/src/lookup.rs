//! The static lookup table: one entry per charger, built once at startup
//! from station metadata and read-only while polling.
//!
//! Each entry carries the charger's location, postal code, and two power
//! figures in milli-units: `max_nominal_power`, the highest rated power
//! among the charger's facilities, and `estimated_power`, a conservative
//! draw estimate of six tenths of that rating, floored at 11 units.

use crate::input_models::{EVSEDataRecord, EVSEDataRecordContainer, EVSEDataResponse, FacilityPower};
use crate::parse::{coords_of, parse_coordinates, parse_power_milli, power_milli_of};
use crate::parse::lemma_scaled_value_nonneg;
use vstd::prelude::*;
use vstd::string::StringExecFns;

verus! {

/// The floor applied to facility power ratings, in milli-units: a facility
/// with a missing or unparseable rating counts as 11 units.
pub const POWER_FLOOR_MILLI: u64 = 11_000;

/// Milli-unit power contributed by one facility: its rating if it reports
/// a usable one, the floor otherwise.
pub open spec fn facility_milli(f: FacilityPower) -> int {
    match f {
        FacilityPower::Rated(p) => p as int,
        FacilityPower::Text(s) => match power_milli_of(s@) {
            Some(v) => v,
            None => POWER_FLOOR_MILLI as int,
        },
        FacilityPower::Missing => POWER_FLOOR_MILLI as int,
    }
}

/// Highest power contributed by any facility of the list; the floor value
/// if the list is empty.
pub open spec fn max_nominal_milli(fs: Seq<FacilityPower>) -> int
    decreases fs.len(),
{
    if fs.len() == 0 {
        POWER_FLOOR_MILLI as int
    } else if fs.len() == 1 {
        facility_milli(fs[0])
    } else {
        let rest = max_nominal_milli(fs.drop_first());
        if facility_milli(fs[0]) >= rest {
            facility_milli(fs[0])
        } else {
            rest
        }
    }
}

/// The conservative draw estimate: six tenths of the nominal maximum,
/// which itself is floored at 11 units.
pub open spec fn estimated_milli(max_nominal: int) -> int {
    3 * (if max_nominal > POWER_FLOOR_MILLI as int {
        max_nominal
    } else {
        POWER_FLOOR_MILLI as int
    }) / 5
}

pub proof fn lemma_power_milli_of_range(s: Seq<char>)
    ensures
        match power_milli_of(s) {
            Some(v) => 0 <= v <= u64::MAX,
            None => true,
        },
{
    lemma_scaled_value_nonneg(s, 3);
}

pub proof fn lemma_coordinate_micro_range(s: Seq<char>)
    ensures
        match crate::parse::coordinate_micro_of(s) {
            Some(v) => -(i64::MAX as int) <= v <= i64::MAX,
            None => true,
        },
{
    if s.len() > 0 && s[0] == '-' {
        lemma_scaled_value_nonneg(s.drop_first(), 6);
    } else {
        lemma_scaled_value_nonneg(s, 6);
    }
}

pub proof fn lemma_coords_of_range(s: Seq<char>)
    ensures
        match coords_of(s) {
            Some(q) => -(i64::MAX as int) <= q.0 <= i64::MAX && -(i64::MAX as int) <= q.1
                <= i64::MAX,
            None => true,
        },
{
    let i = crate::parse::first_index_of(s, ' ');
    if i != s.len() {
        let rest = s.skip(i + 1);
        let j = crate::parse::first_index_of(rest, ' ');
        lemma_coordinate_micro_range(s.take(i));
        lemma_coordinate_micro_range(rest.take(j));
    }
}

/// Milli-unit power contributed by one facility.
pub fn facility_power_milli(f: &FacilityPower) -> (r: u64)
    ensures
        r as int == facility_milli(*f),
{
    match f {
        FacilityPower::Rated(p) => *p,
        FacilityPower::Text(s) => {
            proof {
                lemma_power_milli_of_range(s@);
            }
            match parse_power_milli(s.as_str()) {
                Some(v) => v,
                None => POWER_FLOOR_MILLI,
            }
        },
        FacilityPower::Missing => POWER_FLOOR_MILLI,
    }
}

/// Scans all facility descriptors of a charger and resolves its highest
/// nominal power, in milli-units.
pub fn resolve_max_nominal_power(fs: &Vec<FacilityPower>) -> (r: u64)
    ensures
        r as int == max_nominal_milli(fs@),
{
    let n = fs.len();
    if n == 0 {
        return POWER_FLOOR_MILLI;
    }
    let mut acc = facility_power_milli(&fs[n - 1]);
    proof {
        assert(fs@.skip(n - 1) =~= seq![fs@[n - 1]]);
    }
    let mut i = n - 1;
    while i > 0
        invariant
            0 <= i < n == fs@.len(),
            acc as int == max_nominal_milli(fs@.skip(i as int)),
        decreases i,
    {
        i -= 1;
        let c = facility_power_milli(&fs[i]);
        proof {
            let tail = fs@.skip(i + 1);
            assert(fs@.skip(i as int).drop_first() =~= tail);
            assert(fs@.skip(i as int)[0] == fs@[i as int]);
        }
        if c >= acc {
            acc = c;
        }
    }
    proof {
        assert(fs@.skip(0) =~= fs@);
    }
    acc
}

/// The conservative draw estimate for a resolved nominal power.
pub fn estimated_power_milli(max_nominal: u64) -> (r: u64)
    ensures
        r as int == estimated_milli(max_nominal as int),
{
    let base: u64 = if max_nominal > POWER_FLOOR_MILLI {
        max_nominal
    } else {
        POWER_FLOOR_MILLI
    };
    let v: u128 = 3 * (base as u128) / 5;
    proof {
        assert(3 * (base as int) / 5 <= u64::MAX) by (nonlinear_arith)
            requires
                0 <= base as int <= u64::MAX,
        ;
    }
    v as u64
}

/// Abstract value of a lookup table entry.
pub struct LookupEntryView {
    pub location: (int, int),
    pub zip: Seq<char>,
    pub estimated_power: int,
    pub max_nominal_power: int,
}

/// Static attributes of one charger, immutable after construction.
#[derive(Debug)]
pub struct LookupTableEntry {
    pub location: (i64, i64),
    pub zip: String,
    pub estimated_power: u64,
    pub max_nominal_power: u64,
}

impl View for LookupTableEntry {
    type V = LookupEntryView;

    open spec fn view(&self) -> LookupEntryView {
        LookupEntryView {
            location: (self.location.0 as int, self.location.1 as int),
            zip: self.zip@,
            estimated_power: self.estimated_power as int,
            max_nominal_power: self.max_nominal_power as int,
        }
    }
}

/// The mapping of a list of keyed entries, later entries overriding
/// earlier ones.
pub open spec fn map_of(s: Seq<(String, LookupTableEntry)>) -> Map<Seq<char>, LookupEntryView>
    decreases s.len(),
{
    if s.len() == 0 {
        Map::empty()
    } else {
        map_of(s.drop_last()).insert(s.last().0@, s.last().1@)
    }
}

/// The lookup table: charger ID to entry, at most one entry per charger.
pub struct LookupTable {
    entries: Vec<(String, LookupTableEntry)>,
}

impl View for LookupTable {
    type V = Map<Seq<char>, LookupEntryView>;

    closed spec fn view(&self) -> Map<Seq<char>, LookupEntryView> {
        map_of(self.entries@)
    }
}

proof fn lemma_map_of_contains(s: Seq<(String, LookupTableEntry)>, k: Seq<char>)
    ensures
        map_of(s).contains_key(k) <==> exists|i: int| 0 <= i < s.len() && #[trigger] s[i].0@ == k,
    decreases s.len(),
{
    if s.len() > 0 {
        lemma_map_of_contains(s.drop_last(), k);
        if s.last().0@ == k {
            assert(s[s.len() - 1].0@ == k);
        } else if map_of(s).contains_key(k) {
            let i = choose|i: int| 0 <= i < s.len() - 1 && #[trigger] s.drop_last()[i].0@ == k;
            assert(s[i].0@ == k);
        } else {
            assert forall|i: int| 0 <= i < s.len() implies #[trigger] s[i].0@ != k by {
                if i < s.len() - 1 {
                    assert(s.drop_last()[i].0@ == s[i].0@);
                }
            }
        }
    }
}

proof fn lemma_map_of_get(s: Seq<(String, LookupTableEntry)>, i: int)
    requires
        0 <= i < s.len(),
        forall|a: int, b: int| 0 <= a < b < s.len() ==> s[a].0@ != s[b].0@,
    ensures
        map_of(s).contains_key(s[i].0@),
        map_of(s)[s[i].0@] == s[i].1@,
    decreases s.len(),
{
    lemma_map_of_contains(s, s[i].0@);
    if i == s.len() - 1 {
    } else {
        assert(s.drop_last()[i] == s[i]);
        lemma_map_of_get(s.drop_last(), i);
        assert(s.last().0@ != s[i].0@);
    }
}

impl LookupTable {
    /// Every charger ID occurs at most once.
    pub closed spec fn wf(self) -> bool {
        forall|a: int, b: int|
            0 <= a < b < self.entries@.len() ==> self.entries@[a].0@ != self.entries@[b].0@
    }

    /// An empty table.
    pub fn new() -> (r: LookupTable)
        ensures
            r.wf(),
            r@ == Map::<Seq<char>, LookupEntryView>::empty(),
    {
        LookupTable { entries: Vec::new() }
    }

    /// Index of the entry for `id`, if one exists.
    fn index_of(&self, id: &String) -> (r: Option<usize>)
        ensures
            match r {
                Some(i) => i < self.entries@.len() && self.entries@[i as int].0@ == id@,
                None => forall|i: int|
                    0 <= i < self.entries@.len() ==> #[trigger] self.entries@[i].0@ != id@,
            },
    {
        let n = self.entries.len();
        let mut i: usize = 0;
        while i < n
            invariant
                0 <= i <= n == self.entries@.len(),
                forall|j: int| 0 <= j < i ==> #[trigger] self.entries@[j].0@ != id@,
            decreases n - i,
        {
            if id.eq(&self.entries[i].0) {
                return Some(i);
            }
            i += 1;
        }
        None
    }

    /// Looks a charger up by its ID.
    pub fn get(&self, id: &String) -> (r: Option<&LookupTableEntry>)
        requires
            self.wf(),
        ensures
            match r {
                Some(e) => self@.contains_key(id@) && e@ == self@[id@],
                None => !self@.contains_key(id@),
            },
    {
        proof {
            lemma_map_of_contains(self.entries@, id@);
        }
        match self.index_of(id) {
            Some(i) => {
                proof {
                    lemma_map_of_get(self.entries@, i as int);
                }
                Some(&self.entries[i].1)
            },
            None => None,
        }
    }

    /// Inserts or replaces the entry for a charger.
    pub fn insert(&mut self, id: String, entry: LookupTableEntry)
        requires
            old(self).wf(),
        ensures
            final(self).wf(),
            final(self)@ == old(self)@.insert(id@, entry@),
    {
        match self.index_of(&id) {
            Some(i) => {
                let ghost pre = self.entries@;
                self.entries.remove(i);
                proof {
                    lemma_map_of_remove(pre, i as int);
                    lemma_map_of_contains(pre.remove(i as int), id@);
                    assert forall|a: int, b: int|
                        0 <= a < b < pre.remove(i as int).len() implies pre.remove(i as int)[a].0@
                        != pre.remove(i as int)[b].0@ by {
                        let r = pre.remove(i as int);
                        assert(r[a] == if a < i {
                            pre[a]
                        } else {
                            pre[a + 1]
                        });
                        assert(r[b] == if b < i {
                            pre[b]
                        } else {
                            pre[b + 1]
                        });
                    }
                }
                self.entries.push((id, entry));
                proof {
                    let s = self.entries@;
                    assert(s.drop_last() =~= pre.remove(i as int));
                    assert(map_of(s) =~= old(self)@.insert(s.last().0@, s.last().1@));
                }
            },
            None => {
                self.entries.push((id, entry));
                proof {
                    let s = self.entries@;
                    assert(s.drop_last() =~= old(self).entries@);
                    assert forall|a: int, b: int| 0 <= a < b < s.len() implies s[a].0@ != s[b].0@
                    by {
                        if b < s.len() - 1 {
                            assert(old(self).entries@[a].0@ != old(self).entries@[b].0@);
                        } else {
                            assert(old(self).entries@[a].0@ != id@);
                        }
                    }
                }
            },
        }
    }
}

/// Construction failure: a record whose coordinate string cannot be
/// parsed makes the whole table construction fail.
#[derive(PartialEq, Eq, Structural, Clone, Copy, Debug)]
pub enum LookupBuildError {
    MalformedCoordinates,
}

/// All metadata records of a response, containers in order.
pub open spec fn records_of(containers: Seq<EVSEDataRecordContainer>) -> Seq<EVSEDataRecord>
    decreases containers.len(),
{
    if containers.len() == 0 {
        Seq::empty()
    } else {
        containers[0].evse_data_record@ + records_of(containers.drop_first())
    }
}

pub proof fn lemma_records_of_append(
    a: Seq<EVSEDataRecordContainer>,
    b: Seq<EVSEDataRecordContainer>,
)
    ensures
        records_of(a + b) == records_of(a) + records_of(b),
    decreases a.len(),
{
    if a.len() == 0 {
        assert(a + b =~= b);
        assert(records_of(a) + records_of(b) =~= records_of(b));
    } else {
        assert((a + b).drop_first() =~= a.drop_first() + b);
        assert((a + b)[0] == a[0]);
        lemma_records_of_append(a.drop_first(), b);
        assert(a[0].evse_data_record@ + (records_of(a.drop_first()) + records_of(b)) =~= (
        a[0].evse_data_record@ + records_of(a.drop_first())) + records_of(b));
    }
}

/// The lookup entry derived from one metadata record, `None` if its
/// coordinate string is malformed.
pub open spec fn entry_view_of(r: EVSEDataRecord) -> Option<LookupEntryView> {
    match coords_of(r.geo_coordinates.google@) {
        Some(loc) => Some(
            LookupEntryView {
                location: loc,
                zip: match r.address.postal_code {
                    Some(z) => z@,
                    None => seq!['-'],
                },
                max_nominal_power: max_nominal_milli(r.charging_facilities@),
                estimated_power: estimated_milli(max_nominal_milli(r.charging_facilities@)),
            },
        ),
        None => None,
    }
}

/// The mapping that table construction produces from `records`, starting
/// from `acc`: entries in order, later records overriding earlier ones,
/// `None` as soon as any record is malformed.
pub open spec fn spec_build(
    acc: Map<Seq<char>, LookupEntryView>,
    records: Seq<EVSEDataRecord>,
) -> Option<Map<Seq<char>, LookupEntryView>>
    decreases records.len(),
{
    if records.len() == 0 {
        Some(acc)
    } else {
        match entry_view_of(records[0]) {
            Some(e) => spec_build(acc.insert(records[0].evse_id@, e), records.drop_first()),
            None => None,
        }
    }
}

pub proof fn lemma_spec_build_append(
    acc: Map<Seq<char>, LookupEntryView>,
    a: Seq<EVSEDataRecord>,
    b: Seq<EVSEDataRecord>,
)
    ensures
        spec_build(acc, a + b) == match spec_build(acc, a) {
            Some(m) => spec_build(m, b),
            None => None::<Map<Seq<char>, LookupEntryView>>,
        },
    decreases a.len(),
{
    if a.len() == 0 {
        assert(a + b =~= b);
    } else {
        assert((a + b).drop_first() =~= a.drop_first() + b);
        assert((a + b)[0] == a[0]);
        match entry_view_of(a[0]) {
            Some(e) => {
                lemma_spec_build_append(acc.insert(a[0].evse_id@, e), a.drop_first(), b);
            },
            None => {},
        }
    }
}

/// Builds and inserts the lookup entry for one metadata record.
pub fn insert_record(table: &mut LookupTable, record: &EVSEDataRecord) -> (r: Result<
    (),
    LookupBuildError,
>)
    requires
        old(table).wf(),
    ensures
        final(table).wf(),
        match r {
            Ok(u) => entry_view_of(*record) is Some && final(table)@ == old(table)@.insert(
                record.evse_id@,
                entry_view_of(*record).unwrap(),
            ),
            Err(e) => entry_view_of(*record) is None && *final(table) == *old(table) && e
                == LookupBuildError::MalformedCoordinates,
        },
{
    proof {
        lemma_coords_of_range(record.geo_coordinates.google@);
    }
    let loc = match parse_coordinates(record.geo_coordinates.google.as_str()) {
        Some(loc) => loc,
        None => {
            return Err(LookupBuildError::MalformedCoordinates);
        },
    };
    let mnp = resolve_max_nominal_power(&record.charging_facilities);
    let est = estimated_power_milli(mnp);
    let zip = match &record.address.postal_code {
        Some(z) => z.clone(),
        None => dash_string(),
    };
    let entry = LookupTableEntry {
        location: loc,
        zip,
        estimated_power: est,
        max_nominal_power: mnp,
    };
    proof {
        assert(entry@ == entry_view_of(*record).unwrap());
    }
    table.insert(record.evse_id.clone(), entry);
    Ok(())
}

/// The placeholder postal code for records without one.
fn dash_string() -> (r: String)
    ensures
        r@ == seq!['-'],
{
    let s = "-".to_owned();
    proof {
        reveal_strlit("-");
        assert(s@ =~= seq!['-']);
    }
    s
}

/// Builds the lookup table from a full metadata response.  A malformed
/// coordinate string anywhere is a fatal construction error; otherwise
/// the table holds an entry for every charger of the response, later
/// records overriding earlier ones.
pub fn build_lookup_table(response: &EVSEDataResponse) -> (r: Result<
    LookupTable,
    LookupBuildError,
>)
    ensures
        match r {
            Ok(t) => t.wf() && Some(t@) == spec_build(
                Map::empty(),
                records_of(response.evse_data@),
            ),
            Err(e) => spec_build(Map::empty(), records_of(response.evse_data@)) is None && e
                == LookupBuildError::MalformedCoordinates,
        },
{
    let mut table = LookupTable::new();
    let containers = &response.evse_data;
    let n = containers.len();
    let mut i: usize = 0;
    while i < n
        invariant
            0 <= i <= n == containers@.len(),
            containers@ == response.evse_data@,
            table.wf(),
            spec_build(Map::empty(), records_of(containers@.take(i as int))) == Some(table@),
        decreases n - i,
    {
        let recs = &containers[i].evse_data_record;
        let m = recs.len();
        let mut j: usize = 0;
        while j < m
            invariant
                0 <= j <= m == recs@.len(),
                0 <= i < n == containers@.len(),
                containers@ == response.evse_data@,
                recs@ == containers@[i as int].evse_data_record@,
                table.wf(),
                spec_build(
                    Map::empty(),
                    records_of(containers@.take(i as int)) + recs@.take(j as int),
                ) == Some(table@),
            decreases m - j,
        {
            let ghost prefix = records_of(containers@.take(i as int)) + recs@.take(j as int);
            let ghost acc = table@;
            match insert_record(&mut table, &recs[j]) {
                Ok(u) => {
                    proof {
                        lemma_spec_build_append(Map::empty(), prefix, seq![recs@[j as int]]);
                        assert(prefix + seq![recs@[j as int]] =~= records_of(
                            containers@.take(i as int),
                        ) + recs@.take(j + 1));
                        let single = seq![recs@[j as int]];
                        assert(single.drop_first() =~= Seq::<EVSEDataRecord>::empty());
                        reveal_with_fuel(spec_build, 3);
                        assert(spec_build(acc, single) == Some(table@));
                    }
                },
                Err(e) => {
                    proof {
                        lemma_build_failure(containers@, i as int, j as int, acc);
                    }
                    return Err(e);
                },
            }
            j += 1;
        }
        proof {
            assert(containers@.take(i + 1) =~= containers@.take(i as int) + seq![
                containers@[i as int],
            ]);
            lemma_records_of_append(containers@.take(i as int), seq![containers@[i as int]]);
            let single = seq![containers@[i as int]];
            assert(single.drop_first() =~= Seq::<EVSEDataRecordContainer>::empty());
            reveal_with_fuel(records_of, 3);
            assert(records_of(single) =~= containers@[i as int].evse_data_record@);
            assert(recs@.take(j as int) =~= recs@);
        }
        i += 1;
    }
    proof {
        assert(containers@.take(n as int) =~= containers@);
        assert(records_of(containers@) + Seq::<EVSEDataRecord>::empty().take(0) =~= records_of(
            containers@,
        ));
    }
    Ok(table)
}

/// When the record at container `i`, position `j` is malformed and the
/// records before it built `acc`, the whole construction fails.
proof fn lemma_build_failure(
    containers: Seq<EVSEDataRecordContainer>,
    i: int,
    j: int,
    acc: Map<Seq<char>, LookupEntryView>,
)
    requires
        0 <= i < containers.len(),
        0 <= j < containers[i].evse_data_record@.len(),
        spec_build(
            Map::empty(),
            records_of(containers.take(i)) + containers[i].evse_data_record@.take(j),
        ) == Some(acc),
        entry_view_of(containers[i].evse_data_record@[j]) is None,
    ensures
        spec_build(Map::empty(), records_of(containers)) is None,
{
    let recs = containers[i].evse_data_record@;
    let prefix = records_of(containers.take(i)) + recs.take(j);
    let suffix = recs.skip(j) + records_of(containers.skip(i + 1));
    assert(containers =~= containers.take(i) + containers.skip(i));
    lemma_records_of_append(containers.take(i), containers.skip(i));
    assert(containers.skip(i)[0] == containers[i]);
    assert(containers.skip(i).drop_first() =~= containers.skip(i + 1));
    assert(records_of(containers.skip(i)) == recs + records_of(containers.skip(i + 1)));
    assert(recs =~= recs.take(j) + recs.skip(j));
    assert(records_of(containers) =~= prefix + suffix);
    lemma_spec_build_append(Map::empty(), prefix, suffix);
    assert(suffix[0] == recs[j]);
}

/// Removing an entry of a duplicate-free list removes exactly its key
/// from the mapping.
proof fn lemma_map_of_remove(s: Seq<(String, LookupTableEntry)>, i: int)
    requires
        0 <= i < s.len(),
        forall|a: int, b: int| 0 <= a < b < s.len() ==> s[a].0@ != s[b].0@,
    ensures
        map_of(s.remove(i)) == map_of(s).remove(s[i].0@),
    decreases s.len(),
{
    let k = s[i].0@;
    if i == s.len() - 1 {
        assert(s.remove(i) =~= s.drop_last());
        lemma_map_of_contains(s.drop_last(), k);
        assert forall|j: int| 0 <= j < s.len() - 1 implies #[trigger] s.drop_last()[j].0@ != k by {
            assert(s[j].0@ != s[s.len() - 1].0@);
        }
        assert(map_of(s.drop_last()) =~= map_of(s).remove(k));
    } else {
        assert(s.remove(i).drop_last() =~= s.drop_last().remove(i));
        assert forall|a: int, b: int| 0 <= a < b < s.drop_last().len() implies s.drop_last()[a].0@
            != s.drop_last()[b].0@ by {
            assert(s[a].0@ != s[b].0@);
        }
        lemma_map_of_remove(s.drop_last(), i);
        assert(s.drop_last()[i] == s[i]);
        assert(s.remove(i).last() == s.last());
        assert(map_of(s.remove(i)) == map_of(s.drop_last().remove(i)).insert(
            s.last().0@,
            s.last().1@,
        ));
        assert(s[i].0@ != s.last().0@);
        assert(map_of(s.drop_last()).remove(k).insert(s.last().0@, s.last().1@) =~= map_of(
            s.drop_last(),
        ).insert(s.last().0@, s.last().1@).remove(k));
    }
}

} // verus!
