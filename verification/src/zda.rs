use vstd::prelude::*;
use vstd::slice::slice_subrange;
use crate::error::ParseError;
use crate::fields::{num_u16, num_u8, parse_utc_stamp, spec_num, spec_uint_until, spec_utc_stamp};
use crate::scan::{char_at, opt_val, spec_char, spec_opt};
use crate::types::{GpsDate, GpsTime};

verus! {

/// A local time zone as an offset from UTC.
///
/// The two zone fields of a ZDA sentence are stored crosswise: `hours` holds
/// the value of the second zone field (the one before the `*`) and `minutes`
/// the value of the first, so that `...,05,30*` gives `hours: 30, minutes: 5`.
#[derive(Debug, Clone, Copy, PartialEq, Eq, Structural)]
pub struct Zone {
    pub hours: u8,
    pub minutes: u8,
}

/// Time and date (ZDA).
#[derive(Debug, Clone, Copy, PartialEq, Eq, Structural)]
pub struct ZdaData {
    pub time: Option<GpsTime>,
    pub date: Option<GpsDate>,
    pub zone: Option<Zone>,
}

/// The date, when day, month and year are all present.
pub open spec fn spec_zda_date(day: Option<nat>, month: Option<nat>, year: Option<nat>) -> Option<
    GpsDate,
> {
    match (day, month, year) {
        (Some(d), Some(m), Some(y)) => Some(
            GpsDate { day: d as u8, month: m as u8, year: y as u64 },
        ),
        _ => None,
    }
}

/// The zone, when both zone fields are present. The fields are stored
/// crosswise: the first field (`first`) becomes `minutes`, the second
/// (`second`, before the `*`) becomes `hours`.
pub open spec fn spec_zda_zone(first: Option<nat>, second: Option<nat>) -> Option<Zone> {
    match (first, second) {
        (Some(f), Some(sec)) => Some(Zone { hours: sec as u8, minutes: f as u8 }),
        _ => None,
    }
}

/// The body of a ZDA sentence up to the `*` of the checksum: an optional time
/// and `,`; day, month (`u8`) and year (`u16`), each optional and followed by
/// `,`; a first zone field (`u8`), `,`, a second zone field (`u8`) up to the
/// `*`, and `*`. The zone stores the second field as its hours and the first
/// as its minutes.
pub open spec fn spec_zda(s: Seq<u8>) -> Result<(int, ZdaData), ParseError> {
    match spec_opt(spec_utc_stamp(s, 0), 0) {
        Err(e) => Err(e),
        Ok((p1, time)) => match spec_char(s, p1, 44, false) {
            Err(e) => Err(e),
            Ok(p2) => {
                let (p3, day) = spec_num(s, p2, 44, 0xff);
                match spec_char(s, p3, 44, false) {
                    Err(e) => Err(e),
                    Ok(p4) => {
                        let (p5, month) = spec_num(s, p4, 44, 0xff);
                        match spec_char(s, p5, 44, false) {
                            Err(e) => Err(e),
                            Ok(p6) => {
                                let (p7, year) = spec_num(s, p6, 44, 0xffff);
                                match spec_char(s, p7, 44, false) {
                                    Err(e) => Err(e),
                                    Ok(p8) => {
                                        let (p9, first) = spec_num(s, p8, 44, 0xff);
                                        match spec_char(s, p9, 44, false) {
                                            Err(e) => Err(e),
                                            Ok(p10) => {
                                                let (p11, second) = spec_num(s, p10, 42, 0xff);
                                                match spec_char(s, p11, 42, false) {
                                                    Err(e) => Err(e),
                                                    Ok(p12) => Ok(
                                                        (
                                                            p12,
                                                            ZdaData {
                                                                time,
                                                                date: spec_zda_date(
                                                                    day,
                                                                    month,
                                                                    year,
                                                                ),
                                                                zone: spec_zda_zone(first, second),
                                                            },
                                                        ),
                                                    ),
                                                }
                                            },
                                        }
                                    },
                                }
                            },
                        }
                    },
                }
            },
        },
    }
}

/// Parses the body of a ZDA sentence and returns what follows its `*`
/// together with the record. The two zone fields are stored crosswise: the
/// zone's `hours` is the second field, its `minutes` the first.
pub fn parse(inp: &[u8]) -> (r: Result<(&[u8], ZdaData), ParseError>)
    ensures
        match spec_zda(inp@) {
            Ok((q, d)) => r matches Ok((rest, g)) && rest@ == inp@.skip(q) && g == d,
            Err(e) => r matches Err(e2) && e2 == e,
        },
{
    proof {
        reveal(spec_uint_until);
    }
    let s = inp;
    let (p1, time) = opt_val(parse_utc_stamp(s, 0), 0)?;
    let p2 = char_at(s, p1, 44, false)?;
    let (p3, day) = num_u8(s, p2, 44);
    let p4 = char_at(s, p3, 44, false)?;
    let (p5, month) = num_u8(s, p4, 44);
    let p6 = char_at(s, p5, 44, false)?;
    let (p7, year) = num_u16(s, p6, 44);
    let p8 = char_at(s, p7, 44, false)?;
    let date = match (day, month, year) {
        (Some(day), Some(month), Some(year)) => Some(GpsDate { year: year as u64, month, day }),
        _ => None,
    };
    let (p9, first) = num_u8(s, p8, 44);
    let p10 = char_at(s, p9, 44, false)?;
    let (p11, second) = num_u8(s, p10, 42);
    let p12 = char_at(s, p11, 42, false)?;
    let zone = match (first, second) {
        (Some(first), Some(second)) => Some(Zone { hours: second, minutes: first }),
        _ => None,
    };
    Ok((slice_subrange(s, p12, s.len()), ZdaData { time, date, zone }))
}

} // verus!
