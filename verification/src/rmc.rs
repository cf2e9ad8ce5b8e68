use vstd::prelude::*;
use vstd::slice::slice_subrange;
use crate::error::{NmeaSentenceError, ParseError};
use crate::fields::{
    float_until, parse_date, parse_gps_position, parse_utc_stamp, speed_until, spec_date,
    spec_float_until, spec_gps_position, spec_speed_until, spec_utc_stamp, lon_dirs,
};
use crate::gll::{status_letters, opt_char};
use crate::scan::{
    char_at, complete, one_of, opt_val, spec_char, spec_complete, spec_one_of, spec_opt,
    spec_take_until, take_until,
};
use crate::types::{
    opt_bytes, opt_position, spec_longitude_direction, GpsDate, GpsPosition, GpsTime,
    LongitudeDirection, SpecGpsPosition,
};

verus! {

/// The status letter of an RMC sentence.
#[derive(Debug, Clone, Copy, PartialEq, Eq, Structural)]
pub enum RmStatus {
    /// `A`
    Active,
    /// `V`
    Void,
    /// `P`, which the grammar admits beside `A` and `V`.
    Precise,
}

pub open spec fn spec_rm_status(c: char) -> Option<RmStatus> {
    if c == 'A' {
        Some(RmStatus::Active)
    } else if c == 'V' {
        Some(RmStatus::Void)
    } else if c == 'P' {
        Some(RmStatus::Precise)
    } else {
        None
    }
}

impl RmStatus {
    /// `A`, `V` and `P` name a status; any other character is refused.
    pub fn from_char(c: char) -> (r: Result<RmStatus, NmeaSentenceError>)
        ensures
            match spec_rm_status(c) {
                Some(st) => r == Ok::<RmStatus, NmeaSentenceError>(st),
                None => r == Err::<RmStatus, NmeaSentenceError>(
                    NmeaSentenceError::InvalidStatus(c),
                ),
            },
    {
        if c == 'A' {
            Ok(RmStatus::Active)
        } else if c == 'V' {
            Ok(RmStatus::Void)
        } else if c == 'P' {
            Ok(RmStatus::Precise)
        } else {
            Err(NmeaSentenceError::InvalidStatus(c))
        }
    }
}

/// Recommended minimum navigation information (RMC). Heading and magnetic
/// variation keep their decimal text, which `str::parse::<f32>` reads.
#[derive(Debug, Clone, Copy, PartialEq)]
pub struct RmcData<'a> {
    pub time: Option<GpsTime>,
    pub status: Option<RmStatus>,
    pub position: Option<GpsPosition<'a>>,
    pub speed_knots: Option<(u16, u8)>,
    pub heading: Option<&'a [u8]>,
    pub date: Option<GpsDate>,
    pub magnetic_variation: Option<&'a [u8]>,
    pub magnetic_direction: Option<LongitudeDirection>,
}

pub struct SpecRmcData {
    pub time: Option<GpsTime>,
    pub status: Option<RmStatus>,
    pub position: Option<SpecGpsPosition>,
    pub speed_knots: Option<(u16, u8)>,
    pub heading: Option<Seq<u8>>,
    pub date: Option<GpsDate>,
    pub magnetic_variation: Option<Seq<u8>>,
    pub magnetic_direction: Option<LongitudeDirection>,
}

impl<'a> View for RmcData<'a> {
    type V = SpecRmcData;

    open spec fn view(&self) -> SpecRmcData {
        SpecRmcData {
            time: self.time,
            status: self.status,
            position: opt_position(self.position),
            speed_knots: self.speed_knots,
            heading: opt_bytes(self.heading),
            date: self.date,
            magnetic_variation: opt_bytes(self.magnetic_variation),
            magnetic_direction: self.magnetic_direction,
        }
    }
}

/// The parts of an RMC sentence, in the order in which they stand.
pub struct SpecRmcParts {
    pub time: Option<GpsTime>,
    pub status: Option<char>,
    pub position: Option<SpecGpsPosition>,
    pub speed_knots: Option<(u16, u8)>,
    pub heading: Option<Seq<u8>>,
    pub date: Option<GpsDate>,
    pub magnetic_variation: Option<Seq<u8>>,
    pub magnetic_direction: Option<char>,
}

/// The record of an RMC sentence from its parts: the status letter must name
/// a status (checked first), the magnetic direction must be `E` or `W`.
pub open spec fn spec_build_rmc(parts: SpecRmcParts) -> Result<SpecRmcData, NmeaSentenceError> {
    let status = match parts.status {
        Some(c) => match spec_rm_status(c) {
            Some(st) => Ok(Some(st)),
            None => Err(NmeaSentenceError::InvalidStatus(c)),
        },
        None => Ok(None),
    };
    let direction = match parts.magnetic_direction {
        Some(c) => match spec_longitude_direction(c) {
            Some(d) => Ok(Some(d)),
            None => Err(NmeaSentenceError::InvalidStatus(c)),
        },
        None => Ok(None),
    };
    match (status, direction) {
        (Err(e), _) => Err(e),
        (Ok(_), Err(e)) => Err(e),
        (Ok(status), Ok(magnetic_direction)) => Ok(
            SpecRmcData {
                time: parts.time,
                status,
                position: parts.position,
                speed_knots: parts.speed_knots,
                heading: parts.heading,
                date: parts.date,
                magnetic_variation: parts.magnetic_variation,
                magnetic_direction,
            },
        ),
    }
}

/// Time, `,`, status, `,`, position: each of the three optional.
pub open spec fn spec_rmc_fix(s: Seq<u8>) -> Result<
    (int, (Option<GpsTime>, Option<u8>, Option<SpecGpsPosition>)),
    ParseError,
> {
    match spec_opt(spec_complete(spec_utc_stamp(s, 0)), 0) {
        Err(e) => Err(e),
        Ok((p1, time)) => match spec_char(s, p1, 44, true) {
            Err(e) => Err(e),
            Ok(p2) => match spec_opt(spec_one_of(s, p2, status_letters()), p2) {
                Err(e) => Err(e),
                Ok((p3, status)) => match spec_char(s, p3, 44, true) {
                    Err(e) => Err(e),
                    Ok(p4) => match spec_opt(spec_complete(spec_gps_position(s, p4)), p4) {
                        Err(e) => Err(e),
                        Ok((p5, position)) => Ok((p5, (time, status, position))),
                    },
                },
            },
        },
    }
}

/// `,` speed `,` heading `,` date: each of the three optional.
pub open spec fn spec_rmc_course(s: Seq<u8>, p: int) -> Result<
    (int, (Option<(u16, u8)>, Option<Seq<u8>>, Option<GpsDate>)),
    ParseError,
> {
    match spec_char(s, p, 44, true) {
        Err(e) => Err(e),
        Ok(p1) => match spec_opt(spec_speed_until(s, p1, 44, true), p1) {
            Err(e) => Err(e),
            Ok((p2, speed)) => match spec_char(s, p2, 44, true) {
                Err(e) => Err(e),
                Ok(p3) => match spec_opt(spec_float_until(s, p3, 44, true), p3) {
                    Err(e) => Err(e),
                    Ok((p4, heading)) => match spec_char(s, p4, 44, true) {
                        Err(e) => Err(e),
                        Ok(p5) => match spec_opt(spec_complete(spec_date(s, p5)), p5) {
                            Err(e) => Err(e),
                            Ok((p6, date)) => Ok((p6, (speed, heading, date))),
                        },
                    },
                },
            },
        },
    }
}

/// `,` magnetic variation `,` direction, anything up to `*`, and `*`.
pub open spec fn spec_rmc_variation(s: Seq<u8>, p: int) -> Result<
    (int, (Option<Seq<u8>>, Option<u8>)),
    ParseError,
> {
    match spec_char(s, p, 44, true) {
        Err(e) => Err(e),
        Ok(p1) => match spec_opt(spec_float_until(s, p1, 44, true), p1) {
            Err(e) => Err(e),
            Ok((p2, variation)) => match spec_char(s, p2, 44, true) {
                Err(e) => Err(e),
                Ok(p3) => match spec_opt(spec_one_of(s, p3, lon_dirs()), p3) {
                    Err(e) => Err(e),
                    Ok((p4, direction)) => match spec_take_until(s, p4, 42, true) {
                        Err(e) => Err(e),
                        Ok(p5) => match spec_char(s, p5, 42, true) {
                            Err(e) => Err(e),
                            Ok(p6) => Ok((p6, (variation, direction))),
                        },
                    },
                },
            },
        },
    }
}

/// The body of an RMC sentence up to the `*` of the checksum: time, status,
/// position, speed, heading, date, magnetic variation and its direction, each
/// optional and separated by commas; then anything up to `*` (some receivers
/// add fields there), and `*`.
pub open spec fn spec_rmc(s: Seq<u8>) -> Result<(int, SpecRmcData), ParseError> {
    match spec_rmc_fix(s) {
        Err(e) => Err(e),
        Ok((p1, (time, status, position))) => match spec_rmc_course(s, p1) {
            Err(e) => Err(e),
            Ok((p2, (speed_knots, heading, date))) => match spec_rmc_variation(s, p2) {
                Err(e) => Err(e),
                Ok((p3, (magnetic_variation, direction))) => match spec_build_rmc(
                    SpecRmcParts {
                        time,
                        status: opt_char(status),
                        position,
                        speed_knots,
                        heading,
                        date,
                        magnetic_variation,
                        magnetic_direction: opt_char(direction),
                    },
                ) {
                    Ok(d) => Ok((p3, d)),
                    Err(_) => Err(ParseError::Invalid),
                },
            },
        },
    }
}

/// Puts the parts of an RMC sentence together, turning the status letter and
/// the direction of the magnetic variation into their values.
pub fn build_rmc<'a>(
    sentence: (
        Option<GpsTime>,
        Option<char>,
        Option<GpsPosition<'a>>,
        Option<(u16, u8)>,
        Option<&'a [u8]>,
        Option<GpsDate>,
        Option<&'a [u8]>,
        Option<char>,
    ),
) -> (r: Result<RmcData<'a>, NmeaSentenceError>)
    ensures
        match spec_build_rmc(
            SpecRmcParts {
                time: sentence.0,
                status: sentence.1,
                position: opt_position(sentence.2),
                speed_knots: sentence.3,
                heading: opt_bytes(sentence.4),
                date: sentence.5,
                magnetic_variation: opt_bytes(sentence.6),
                magnetic_direction: sentence.7,
            },
        ) {
            Ok(d) => r matches Ok(g) && g@ == d,
            Err(e) => r matches Err(e2) && e2 == e,
        },
{
    let status = match sentence.1 {
        Some(c) => Some(RmStatus::from_char(c)?),
        None => None,
    };
    let magnetic_direction = match sentence.7 {
        Some(c) => Some(LongitudeDirection::from_char(c)?),
        None => None,
    };
    Ok(
        RmcData {
            time: sentence.0,
            status,
            position: sentence.2,
            speed_knots: sentence.3,
            heading: sentence.4,
            date: sentence.5,
            magnetic_variation: sentence.6,
            magnetic_direction,
        },
    )
}

fn rmc_fix<'a>(s: &'a [u8]) -> (r: Result<
    (usize, (Option<GpsTime>, Option<u8>, Option<GpsPosition<'a>>)),
    ParseError,
>)
    ensures
        match spec_rmc_fix(s@) {
            Ok((q, v)) => r matches Ok((q2, w)) && q2 == q && w.0 == v.0 && w.1 == v.1
                && opt_position(w.2) == v.2,
            Err(e) => r matches Err(e2) && e2 == e,
        },
        r matches Ok((q, _)) ==> q <= s@.len(),
{
    let (p1, time) = opt_val(complete(parse_utc_stamp(s, 0)), 0)?;
    let p2 = char_at(s, p1, 44, true)?;
    let (p3, status) = opt_val(one_of(s, p2, &[65u8, 86, 80]), p2)?;
    let p4 = char_at(s, p3, 44, true)?;
    let (p5, position) = opt_val(complete(parse_gps_position(s, p4)), p4)?;
    Ok((p5, (time, status, position)))
}

fn rmc_course<'a>(s: &'a [u8], p: usize) -> (r: Result<
    (usize, (Option<(u16, u8)>, Option<&'a [u8]>, Option<GpsDate>)),
    ParseError,
>)
    requires
        p <= s@.len(),
    ensures
        match spec_rmc_course(s@, p as int) {
            Ok((q, v)) => r matches Ok((q2, w)) && q2 == q && w.0 == v.0 && opt_bytes(w.1) == v.1
                && w.2 == v.2,
            Err(e) => r matches Err(e2) && e2 == e,
        },
        r matches Ok((q, _)) ==> q <= s@.len(),
{
    let p1 = char_at(s, p, 44, true)?;
    let (p2, speed) = opt_val(speed_until(s, p1, 44, true), p1)?;
    let p3 = char_at(s, p2, 44, true)?;
    let (p4, heading) = opt_val(float_until(s, p3, 44, true), p3)?;
    let p5 = char_at(s, p4, 44, true)?;
    let (p6, date) = opt_val(complete(parse_date(s, p5)), p5)?;
    Ok((p6, (speed, heading, date)))
}

fn rmc_variation<'a>(s: &'a [u8], p: usize) -> (r: Result<
    (usize, (Option<&'a [u8]>, Option<u8>)),
    ParseError,
>)
    requires
        p <= s@.len(),
    ensures
        match spec_rmc_variation(s@, p as int) {
            Ok((q, v)) => r matches Ok((q2, w)) && q2 == q && opt_bytes(w.0) == v.0 && w.1 == v.1,
            Err(e) => r matches Err(e2) && e2 == e,
        },
        r matches Ok((q, _)) ==> q <= s@.len(),
{
    let p1 = char_at(s, p, 44, true)?;
    let (p2, variation) = opt_val(float_until(s, p1, 44, true), p1)?;
    let p3 = char_at(s, p2, 44, true)?;
    let (p4, direction) = opt_val(one_of(s, p3, &[69u8, 87]), p3)?;
    let p5 = take_until(s, p4, 42, true)?;
    let p6 = char_at(s, p5, 42, true)?;
    Ok((p6, (variation, direction)))
}

/// Parses the body of an RMC sentence and returns what follows its `*`
/// together with the record.
pub fn parse_rmc<'a>(input: &'a [u8]) -> (r: Result<(&'a [u8], RmcData<'a>), ParseError>)
    ensures
        match spec_rmc(input@) {
            Ok((q, d)) => r matches Ok((rest, g)) && rest@ == input@.skip(q) && g@ == d,
            Err(e) => r matches Err(e2) && e2 == e,
        },
{
    let s = input;
    let (p1, (time, status, position)) = rmc_fix(s)?;
    let (p2, (speed_knots, heading, date)) = rmc_course(s, p1)?;
    let (p3, (magnetic_variation, direction)) = rmc_variation(s, p2)?;
    let status = match status {
        Some(b) => Some(b as char),
        None => None,
    };
    let direction = match direction {
        Some(b) => Some(b as char),
        None => None,
    };
    match build_rmc(
        (time, status, position, speed_knots, heading, date, magnetic_variation, direction),
    ) {
        Ok(d) => Ok((slice_subrange(s, p3, s.len()), d)),
        Err(_) => Err(ParseError::Invalid),
    }
}

/// Every status letter and every direction that the RMC grammar admits names
/// a value: putting the record of a sentence together never fails on them.
pub proof fn admitted_rmc_letters_are_named(status: u8, direction: u8)
    requires
        status_letters().contains(status),
        lon_dirs().contains(direction),
    ensures
        spec_rm_status(status as char) is Some,
        spec_longitude_direction(direction as char) is Some,
{
    let i = choose|i: int| 0 <= i < status_letters().len() && status_letters()[i] == status;
    let j = choose|j: int| 0 <= j < lon_dirs().len() && lon_dirs()[j] == direction;
    assert(status == 65 || status == 86 || status == 80);
    assert(direction == 69 || direction == 87);
}

} // verus!
