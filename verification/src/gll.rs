use vstd::prelude::*;
use vstd::slice::slice_subrange;
use crate::error::{NmeaSentenceError, ParseError};
use crate::fields::{parse_gps_position, parse_utc_stamp, spec_gps_position, spec_utc_stamp};
use crate::scan::{
    char_at, complete, one_of, opt_pos_of, opt_val, spec_char, spec_complete, spec_one_of,
    spec_opt, spec_opt_pos, spec_tag, tag, };
use crate::types::{opt_position, GpsPosition, GpsTime, SpecGpsPosition};

verus! {

/// The status letter of a GLL sentence.
#[derive(Debug, Clone, Copy, PartialEq, Eq, Structural)]
pub enum GllStatus {
    /// `A`
    DataValid,
    /// `V`
    DataInvalid,
    /// `P`, which the grammar admits beside `A` and `V`.
    Precise,
}

pub open spec fn spec_gll_status(c: char) -> Option<GllStatus> {
    if c == 'A' {
        Some(GllStatus::DataValid)
    } else if c == 'V' {
        Some(GllStatus::DataInvalid)
    } else if c == 'P' {
        Some(GllStatus::Precise)
    } else {
        None
    }
}

impl GllStatus {
    /// `A`, `V` and `P` name a status; any other character is refused.
    pub fn from_char(c: char) -> (r: Result<GllStatus, NmeaSentenceError>)
        ensures
            match spec_gll_status(c) {
                Some(st) => r == Ok::<GllStatus, NmeaSentenceError>(st),
                None => r == Err::<GllStatus, NmeaSentenceError>(
                    NmeaSentenceError::InvalidStatus(c),
                ),
            },
    {
        if c == 'A' {
            Ok(GllStatus::DataValid)
        } else if c == 'V' {
            Ok(GllStatus::DataInvalid)
        } else if c == 'P' {
            Ok(GllStatus::Precise)
        } else {
            Err(NmeaSentenceError::InvalidStatus(c))
        }
    }
}

/// Geographic position, latitude and longitude (GLL).
#[derive(Debug, Clone, Copy, PartialEq)]
pub struct GllData<'a> {
    pub position: Option<GpsPosition<'a>>,
    pub time: Option<GpsTime>,
    pub status: Option<GllStatus>,
}

pub struct SpecGllData {
    pub position: Option<SpecGpsPosition>,
    pub time: Option<GpsTime>,
    pub status: Option<GllStatus>,
}

impl<'a> View for GllData<'a> {
    type V = SpecGllData;

    open spec fn view(&self) -> SpecGllData {
        SpecGllData { position: opt_position(self.position), time: self.time, status: self.status }
    }
}

/// The record of a GLL sentence from its parts: the status letter, when there
/// is one, must name a status.
pub open spec fn spec_build_gll(
    position: Option<SpecGpsPosition>,
    time: Option<GpsTime>,
    status: Option<char>,
) -> Result<SpecGllData, NmeaSentenceError> {
    match status {
        Some(c) => match spec_gll_status(c) {
            Some(st) => Ok(SpecGllData { position, time, status: Some(st) }),
            None => Err(NmeaSentenceError::InvalidStatus(c)),
        },
        None => Ok(SpecGllData { position, time, status: None }),
    }
}

pub open spec fn opt_char(o: Option<u8>) -> Option<char> {
    match o {
        Some(b) => Some(b as char),
        None => None,
    }
}

pub open spec fn status_letters() -> Seq<u8> {
    seq![65u8, 86, 80]
}

pub open spec fn mode_letters() -> Seq<u8> {
    seq![65u8, 68, 69, 77, 83, 78]
}

/// The position part of a GLL sentence: a full position, or `,,,` when the
/// receiver has none.
pub open spec fn spec_gll_position(s: Seq<u8>) -> Result<
    (int, Option<SpecGpsPosition>),
    ParseError,
> {
    match spec_complete(spec_gps_position(s, 0)) {
        Ok((q, g)) => Ok((q, Some(g))),
        Err(ParseError::Invalid) => match spec_tag(s, 0, seq![44u8, 44, 44], false) {
            Ok(q) => Ok((q, None)),
            Err(e) => Err(e),
        },
        Err(e) => Err(e),
    }
}

/// The body of a GLL sentence, after the talker and sentence name and up to
/// the `*` of the checksum: position (or `,,,`), `,`, an optional time, `,`,
/// an optional status out of `AVP`, an optional `,`, an optional mode out of
/// `ADEMSN`, and `*`. The result is where the parse stopped and the record.
pub open spec fn spec_gll(s: Seq<u8>) -> Result<(int, SpecGllData), ParseError> {
    match spec_gll_position(s) {
        Err(e) => Err(e),
        Ok((p1, position)) => match spec_char(s, p1, 44, true) {
            Err(e) => Err(e),
            Ok(p2) => match spec_opt(spec_complete(spec_utc_stamp(s, p2)), p2) {
                Err(e) => Err(e),
                Ok((p3, time)) => match spec_char(s, p3, 44, true) {
                    Err(e) => Err(e),
                    Ok(p4) => match spec_opt(spec_one_of(s, p4, status_letters()), p4) {
                        Err(e) => Err(e),
                        Ok((p5, status)) => match spec_opt_pos(spec_char(s, p5, 44, true), p5) {
                            Err(e) => Err(e),
                            Ok(p6) => match spec_opt(spec_one_of(s, p6, mode_letters()), p6) {
                                Err(e) => Err(e),
                                Ok((p7, _mode)) => match spec_char(s, p7, 42, true) {
                                    Err(e) => Err(e),
                                    Ok(p8) => match spec_build_gll(
                                        position,
                                        time,
                                        opt_char(status),
                                    ) {
                                        Ok(d) => Ok((p8, d)),
                                        Err(_) => Err(ParseError::Invalid),
                                    },
                                },
                            },
                        },
                    },
                },
            },
        },
    }
}

/// Puts the parts of a GLL sentence together, turning the status letter into
/// a status.
pub fn build_gll<'a>(sentence: (Option<GpsPosition<'a>>, Option<GpsTime>, Option<char>)) -> (r:
    Result<GllData<'a>, NmeaSentenceError>)
    ensures
        match spec_build_gll(opt_position(sentence.0), sentence.1, sentence.2) {
            Ok(d) => r matches Ok(g) && g@ == d,
            Err(e) => r matches Err(e2) && e2 == e,
        },
{
    let status = match sentence.2 {
        Some(c) => Some(GllStatus::from_char(c)?),
        None => None,
    };
    Ok(GllData { position: sentence.0, time: sentence.1, status })
}

fn gll_position<'a>(s: &'a [u8]) -> (r: Result<(usize, Option<GpsPosition<'a>>), ParseError>)
    ensures
        match spec_gll_position(s@) {
            Ok((q, v)) => r matches Ok((q2, w)) && q2 == q && opt_position(w) == v,
            Err(e) => r matches Err(e2) && e2 == e,
        },
        r matches Ok((q, _)) ==> q <= s@.len(),
{
    match complete(parse_gps_position(s, 0)) {
        Ok((q, g)) => Ok((q, Some(g))),
        Err(ParseError::Invalid) => {
            let q = tag(s, 0, &[44u8, 44, 44], false)?;
            Ok((q, None))
        },
        Err(e) => Err(e),
    }
}

/// Parses the body of a GLL sentence and returns what follows its `*`
/// together with the record.
pub fn parse_gll<'a>(input: &'a [u8]) -> (r: Result<(&'a [u8], GllData<'a>), ParseError>)
    ensures
        match spec_gll(input@) {
            Ok((q, d)) => r matches Ok((rest, g)) && rest@ == input@.skip(q) && g@ == d,
            Err(e) => r matches Err(e2) && e2 == e,
        },
{
    let s = input;
    let (p1, position) = gll_position(s)?;
    let p2 = char_at(s, p1, 44, true)?;
    let (p3, time) = opt_val(complete(parse_utc_stamp(s, p2)), p2)?;
    let p4 = char_at(s, p3, 44, true)?;
    let (p5, status) = opt_val(one_of(s, p4, &[65u8, 86, 80]), p4)?;
    let p6 = opt_pos_of(char_at(s, p5, 44, true), p5)?;
    let (p7, _mode) = opt_val(one_of(s, p6, &[65u8, 68, 69, 77, 83, 78]), p6)?;
    let p8 = char_at(s, p7, 42, true)?;
    let status_char = match status {
        Some(b) => Some(b as char),
        None => None,
    };
    match build_gll((position, time, status_char)) {
        Ok(d) => Ok((slice_subrange(s, p8, s.len()), d)),
        Err(_) => Err(ParseError::Invalid),
    }
}

/// Every status letter that the GLL grammar admits names a status: putting the
/// record of a sentence together never fails on its status.
pub proof fn admitted_gll_status_is_named(b: u8)
    requires
        status_letters().contains(b),
    ensures
        spec_gll_status(b as char) is Some,
{
    let i = choose|i: int| 0 <= i < status_letters().len() && status_letters()[i] == b;
    assert(b == 65 || b == 86 || b == 80);
}

} // verus!
