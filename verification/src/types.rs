use vstd::prelude::*;
use crate::error::NmeaSentenceError;

verus! {

/// A time of day as the receiver reports it (`hhmmss.sss`).
#[derive(Debug, Clone, Copy, PartialEq, Eq, Structural)]
pub struct GpsTime {
    pub hour: u8,
    pub minute: u8,
    pub second: u8,
    pub millisecond: u16,
}

/// A calendar date as the receiver reports it.
#[derive(Debug, Clone, Copy, PartialEq, Eq, Structural)]
pub struct GpsDate {
    pub day: u8,
    pub month: u8,
    pub year: u64,
}

#[derive(Debug, Clone, Copy, PartialEq, Eq, Structural)]
pub enum LatitudeDirection {
    North,
    South,
}

#[derive(Debug, Clone, Copy, PartialEq, Eq, Structural)]
pub enum LongitudeDirection {
    East,
    West,
}

pub open spec fn spec_latitude_direction(c: char) -> Option<LatitudeDirection> {
    if c == 'N' {
        Some(LatitudeDirection::North)
    } else if c == 'S' {
        Some(LatitudeDirection::South)
    } else {
        None
    }
}

pub open spec fn spec_longitude_direction(c: char) -> Option<LongitudeDirection> {
    if c == 'E' {
        Some(LongitudeDirection::East)
    } else if c == 'W' {
        Some(LongitudeDirection::West)
    } else {
        None
    }
}

impl LatitudeDirection {
    /// `N` is north, `S` south; any other character is refused.
    pub fn from_char(c: char) -> (r: Result<LatitudeDirection, NmeaSentenceError>)
        ensures
            match spec_latitude_direction(c) {
                Some(d) => r == Ok::<LatitudeDirection, NmeaSentenceError>(d),
                None => r == Err::<LatitudeDirection, NmeaSentenceError>(
                    NmeaSentenceError::InvalidStatus(c),
                ),
            },
    {
        if c == 'N' {
            Ok(LatitudeDirection::North)
        } else if c == 'S' {
            Ok(LatitudeDirection::South)
        } else {
            Err(NmeaSentenceError::InvalidStatus(c))
        }
    }
}

impl LongitudeDirection {
    /// `E` is east, `W` west; any other character is refused.
    pub fn from_char(c: char) -> (r: Result<LongitudeDirection, NmeaSentenceError>)
        ensures
            match spec_longitude_direction(c) {
                Some(d) => r == Ok::<LongitudeDirection, NmeaSentenceError>(d),
                None => r == Err::<LongitudeDirection, NmeaSentenceError>(
                    NmeaSentenceError::InvalidStatus(c),
                ),
            },
    {
        if c == 'E' {
            Ok(LongitudeDirection::East)
        } else if c == 'W' {
            Ok(LongitudeDirection::West)
        } else {
            Err(NmeaSentenceError::InvalidStatus(c))
        }
    }
}

/// A position in degrees and minutes. The minutes keep the decimal text of
/// the sentence, which is known to be a number that `str::parse::<f32>` reads.
#[derive(Debug, Clone, Copy, PartialEq)]
pub struct GpsPosition<'a> {
    pub lat_deg: u8,
    pub lat_min: &'a [u8],
    pub lat_dir: LatitudeDirection,
    pub lon_deg: u8,
    pub lon_min: &'a [u8],
    pub lon_dir: LongitudeDirection,
}

pub struct SpecGpsPosition {
    pub lat_deg: u8,
    pub lat_min: Seq<u8>,
    pub lat_dir: LatitudeDirection,
    pub lon_deg: u8,
    pub lon_min: Seq<u8>,
    pub lon_dir: LongitudeDirection,
}

impl<'a> View for GpsPosition<'a> {
    type V = SpecGpsPosition;

    open spec fn view(&self) -> SpecGpsPosition {
        SpecGpsPosition {
            lat_deg: self.lat_deg,
            lat_min: self.lat_min@,
            lat_dir: self.lat_dir,
            lon_deg: self.lon_deg,
            lon_min: self.lon_min@,
            lon_dir: self.lon_dir,
        }
    }
}

pub open spec fn opt_position(o: Option<GpsPosition>) -> Option<SpecGpsPosition> {
    match o {
        Some(p) => Some(p@),
        None => None,
    }
}

pub open spec fn opt_bytes(o: Option<&[u8]>) -> Option<Seq<u8>> {
    match o {
        Some(b) => Some(b@),
        None => None,
    }
}

} // verus!
