//! Timelock durations: a magnitude with a unit, converted to seconds.

use vstd::prelude::*;

verus! {

/// The units a timelock duration can be expressed in.
#[derive(Clone, Debug, PartialEq, Eq, Structural)]
pub enum TimeUnit {
    Second,
    Minute,
    Hour,
    Day,
    Week,
}

/// A timelock duration: `magnitude` many `unit`s.
#[derive(Clone, Debug, PartialEq, Eq, Structural)]
pub struct Time {
    pub magnitude: u64,
    pub unit: TimeUnit,
}

/// How many seconds one `unit` lasts.
pub open spec fn spec_unit_seconds(unit: TimeUnit) -> u64 {
    match unit {
        TimeUnit::Second => 1,
        TimeUnit::Minute => 60,
        TimeUnit::Hour => 3600,
        TimeUnit::Day => 86400,
        TimeUnit::Week => 604800,
    }
}

/// The canonical lower-case name of a unit.
pub open spec fn spec_unit_name(unit: TimeUnit) -> Seq<char> {
    match unit {
        TimeUnit::Second => "seconds"@,
        TimeUnit::Minute => "minutes"@,
        TimeUnit::Hour => "hours"@,
        TimeUnit::Day => "days"@,
        TimeUnit::Week => "weeks"@,
    }
}

/// The unit whose canonical name is `name`, if any.
pub open spec fn spec_unit_from_name(name: Seq<char>) -> Option<TimeUnit> {
    if name == "seconds"@ {
        Some(TimeUnit::Second)
    } else if name == "minutes"@ {
        Some(TimeUnit::Minute)
    } else if name == "hours"@ {
        Some(TimeUnit::Hour)
    } else if name == "days"@ {
        Some(TimeUnit::Day)
    } else if name == "weeks"@ {
        Some(TimeUnit::Week)
    } else {
        None
    }
}

/// Every unit, from the shortest to the longest.
pub fn time_units() -> (units: Vec<TimeUnit>)
    ensures
        units@ == seq![
            TimeUnit::Second,
            TimeUnit::Minute,
            TimeUnit::Hour,
            TimeUnit::Day,
            TimeUnit::Week,
        ],
{
    let mut units: Vec<TimeUnit> = Vec::new();
    units.push(TimeUnit::Second);
    units.push(TimeUnit::Minute);
    units.push(TimeUnit::Hour);
    units.push(TimeUnit::Day);
    units.push(TimeUnit::Week);
    assert(units@ =~= seq![
        TimeUnit::Second,
        TimeUnit::Minute,
        TimeUnit::Hour,
        TimeUnit::Day,
        TimeUnit::Week,
    ]);
    units
}

/// The canonical name of `time_unit`.
pub fn get_time_unit_name(time_unit: TimeUnit) -> (name: String)
    ensures
        name@ == spec_unit_name(time_unit),
{
    match time_unit {
        TimeUnit::Second => "seconds".to_owned(),
        TimeUnit::Minute => "minutes".to_owned(),
        TimeUnit::Hour => "hours".to_owned(),
        TimeUnit::Day => "days".to_owned(),
        TimeUnit::Week => "weeks".to_owned(),
    }
}

/// The unit named `time_unit`, or an error naming the rejected input.
pub fn get_time_unit_from_name(time_unit: String) -> (result: Result<TimeUnit, String>)
    ensures
        match result {
            Ok(unit) => spec_unit_from_name(time_unit@) == Some(unit),
            Err(e) => spec_unit_from_name(time_unit@) is None
                && e@ == "Invalid time unit: "@ + time_unit@,
        },
{
    if time_unit == "seconds".to_owned() {
        Ok(TimeUnit::Second)
    } else if time_unit == "minutes".to_owned() {
        Ok(TimeUnit::Minute)
    } else if time_unit == "hours".to_owned() {
        Ok(TimeUnit::Hour)
    } else if time_unit == "days".to_owned() {
        Ok(TimeUnit::Day)
    } else if time_unit == "weeks".to_owned() {
        Ok(TimeUnit::Week)
    } else {
        Err("Invalid time unit: ".to_owned().concat(time_unit.as_str()))
    }
}

/// `time` expressed in seconds. The product must fit a `u64`; the caller
/// checks the magnitude against the unit before converting.
pub fn time_to_seconds(time: Time) -> (seconds: u64)
    requires
        time.magnitude * spec_unit_seconds(time.unit) <= u64::MAX,
    ensures
        seconds == time.magnitude * spec_unit_seconds(time.unit),
{
    let factor: u64 = match time.unit {
        TimeUnit::Second => 1,
        TimeUnit::Minute => 60,
        TimeUnit::Hour => 3600,
        TimeUnit::Day => 86400,
        TimeUnit::Week => 604800,
    };
    time.magnitude * factor
}

} // verus!
