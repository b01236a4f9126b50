//! Distance units of GEODIST and the counters of the geospatial store.
//! (Distances themselves are floating point and live with the server
//! around this library.)

use vstd::prelude::*;
use crate::error::{Result, SynapError};
use crate::text::{concat, same_text, to_uppercase, uppercase_text};

verus! {

/// A distance unit.
#[derive(Debug, Clone, Copy, PartialEq, Eq, Structural)]
pub enum DistanceUnit {
    Meters,
    Kilometers,
    Miles,
    Feet,
}

/// The unit an uppercase name stands for.
pub open spec fn unit_named(u: Seq<char>) -> Option<DistanceUnit> {
    if u == "M"@ || u == "METER"@ || u == "METERS"@ {
        Some(DistanceUnit::Meters)
    } else if u == "KM"@ || u == "KILOMETER"@ || u == "KILOMETERS"@ {
        Some(DistanceUnit::Kilometers)
    } else if u == "MI"@ || u == "MILE"@ || u == "MILES"@ {
        Some(DistanceUnit::Miles)
    } else if u == "FT"@ || u == "FOOT"@ || u == "FEET"@ {
        Some(DistanceUnit::Feet)
    } else {
        None
    }
}

/// The message for a name that is no unit.
pub open spec fn bad_unit_message(s: Seq<char>) -> Seq<char> {
    "Invalid distance unit: "@ + s + ". Must be one of: m, km, mi, ft"@
}

/// Parse a unit name `s` given its uppercase form `upper`.
pub fn distance_unit_from_upper(s: &str, upper: &str) -> (r: Result<DistanceUnit>)
    ensures
        match unit_named(upper@) {
            Some(d) => r matches Ok(x) && x == d,
            None => r matches Err(SynapError::InvalidValue(m)) && m@ == bad_unit_message(s@),
        },
{
    if same_text(upper, "M") || same_text(upper, "METER") || same_text(upper, "METERS") {
        Ok(DistanceUnit::Meters)
    } else if same_text(upper, "KM") || same_text(upper, "KILOMETER") || same_text(upper, "KILOMETERS") {
        Ok(DistanceUnit::Kilometers)
    } else if same_text(upper, "MI") || same_text(upper, "MILE") || same_text(upper, "MILES") {
        Ok(DistanceUnit::Miles)
    } else if same_text(upper, "FT") || same_text(upper, "FOOT") || same_text(upper, "FEET") {
        Ok(DistanceUnit::Feet)
    } else {
        let head = concat("Invalid distance unit: ", s);
        Err(SynapError::InvalidValue(concat(head.as_str(), ". Must be one of: m, km, mi, ft")))
    }
}

/// Parse a unit name in any letter case.
pub fn parse_distance_unit(s: &str) -> (r: Result<DistanceUnit>)
    ensures
        match unit_named(uppercase_text(s@)) {
            Some(d) => r matches Ok(x) && x == d,
            None => r matches Err(SynapError::InvalidValue(m)) && m@ == bad_unit_message(s@),
        },
{
    let upper = to_uppercase(s);
    distance_unit_from_upper(s, upper.as_str())
}

impl std::str::FromStr for DistanceUnit {
    type Err = SynapError;

    fn from_str(s: &str) -> std::result::Result<Self, Self::Err> {
        parse_distance_unit(s)
    }
}

/// Counters of the geospatial store.
#[derive(Debug, Clone, Copy)]
pub struct GeospatialStats {
    pub total_keys: usize,
    pub total_locations: usize,
    pub geoadd_count: usize,
    pub geodist_count: usize,
    pub georadius_count: usize,
    pub geopos_count: usize,
    pub geohash_count: usize,
}

} // verus!
