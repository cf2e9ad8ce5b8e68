use vstd::prelude::*;
use vstd::slice::slice_subrange;
use crate::error::ParseError;
use crate::fields::{float_until, speed_until, spec_float_until, spec_speed_until};
use crate::gll::{mode_letters, opt_char};
use crate::scan::{
    char_at, one_of, opt_pos_of, opt_val, pos_res, spec_char, spec_one_of, spec_opt, spec_opt_pos,
    spec_tag, tag,
};
use crate::types::opt_bytes;

verus! {

/// Course over ground and ground speed (VTG). Bearings and the speed in knots
/// keep their decimal text, which `str::parse::<f32>` reads.
#[derive(Debug, Clone, Copy, PartialEq)]
pub struct VtgData<'a> {
    pub bearing_true: Option<&'a [u8]>,
    pub bearing_magnetic: Option<&'a [u8]>,
    pub speed_knots: Option<&'a [u8]>,
    pub speed_kmh: Option<(u16, u8)>,
    pub mode: Option<char>,
}

pub struct SpecVtgData {
    pub bearing_true: Option<Seq<u8>>,
    pub bearing_magnetic: Option<Seq<u8>>,
    pub speed_knots: Option<Seq<u8>>,
    pub speed_kmh: Option<(u16, u8)>,
    pub mode: Option<char>,
}

impl<'a> View for VtgData<'a> {
    type V = SpecVtgData;

    open spec fn view(&self) -> SpecVtgData {
        SpecVtgData {
            bearing_true: opt_bytes(self.bearing_true),
            bearing_magnetic: opt_bytes(self.bearing_magnetic),
            speed_knots: opt_bytes(self.speed_knots),
            speed_kmh: self.speed_kmh,
            mode: self.mode,
        }
    }
}

/// `,U,` for the unit letter `unit`, or `,,` when the unit is left out.
pub open spec fn spec_unit_sep(s: Seq<u8>, p: int, unit: u8) -> Result<int, ParseError> {
    match spec_tag(s, p, seq![44u8, unit, 44], true) {
        Err(ParseError::Invalid) => spec_tag(s, p, seq![44u8, 44], true),
        other => other,
    }
}

/// An optional number up to the next comma, then its unit separator.
pub open spec fn spec_measure(s: Seq<u8>, p: int, unit: u8) -> Result<
    (int, Option<Seq<u8>>),
    ParseError,
> {
    match spec_opt(spec_float_until(s, p, 44, true), p) {
        Err(e) => Err(e),
        Ok((p1, v)) => match spec_unit_sep(s, p1, unit) {
            Err(e) => Err(e),
            Ok(p2) => Ok((p2, v)),
        },
    }
}

/// The body of a VTG sentence up to the `*` of the checksum: true bearing and
/// `,T,`, magnetic bearing and `,M,`, speed in knots and `,N,` (each unit
/// separator may be `,,`), speed in km/h, `,`, an optional `K`, an optional
/// `,`, an optional mode out of `ADEMSN`, and `*`.
pub open spec fn spec_vtg(s: Seq<u8>) -> Result<(int, SpecVtgData), ParseError> {
    match spec_measure(s, 0, 84) {
        Err(e) => Err(e),
        Ok((p1, bearing_true)) => match spec_measure(s, p1, 77) {
            Err(e) => Err(e),
            Ok((p2, bearing_magnetic)) => match spec_measure(s, p2, 78) {
                Err(e) => Err(e),
                Ok((p3, speed_knots)) => match spec_opt(spec_speed_until(s, p3, 44, true), p3) {
                    Err(e) => Err(e),
                    Ok((p4, speed_kmh)) => match spec_char(s, p4, 44, true) {
                        Err(e) => Err(e),
                        Ok(p5) => match spec_opt_pos(spec_char(s, p5, 75, true), p5) {
                            Err(e) => Err(e),
                            Ok(p6) => match spec_opt_pos(spec_char(s, p6, 44, true), p6) {
                                Err(e) => Err(e),
                                Ok(p7) => match spec_opt(spec_one_of(s, p7, mode_letters()), p7) {
                                    Err(e) => Err(e),
                                    Ok((p8, mode)) => match spec_char(s, p8, 42, true) {
                                        Err(e) => Err(e),
                                        Ok(p9) => Ok(
                                            (
                                                p9,
                                                SpecVtgData {
                                                    bearing_true,
                                                    bearing_magnetic,
                                                    speed_knots,
                                                    speed_kmh,
                                                    mode: opt_char(mode),
                                                },
                                            ),
                                        ),
                                    },
                                },
                            },
                        },
                    },
                },
            },
        },
    }
}

fn unit_sep(s: &[u8], p: usize, unit: u8) -> (r: Result<usize, ParseError>)
    requires
        p <= s@.len(),
    ensures
        pos_res(r) == spec_unit_sep(s@, p as int, unit),
        r matches Ok(q) ==> q <= s@.len(),
{
    let with_unit = [44u8, unit, 44];
    assert(with_unit@ =~= seq![44u8, unit, 44]);
    match tag(s, p, &with_unit, true) {
        Err(ParseError::Invalid) => tag(s, p, &[44u8, 44], true),
        other => other,
    }
}

fn measure<'a>(s: &'a [u8], p: usize, unit: u8) -> (r: Result<(usize, Option<&'a [u8]>), ParseError>)
    requires
        p <= s@.len(),
    ensures
        match spec_measure(s@, p as int, unit) {
            Ok((q, v)) => r matches Ok((q2, w)) && q2 == q && opt_bytes(w) == v,
            Err(e) => r matches Err(e2) && e2 == e,
        },
        r matches Ok((q, _)) ==> q <= s@.len(),
{
    let (p1, v) = opt_val(float_until(s, p, 44, true), p)?;
    let p2 = unit_sep(s, p1, unit)?;
    Ok((p2, v))
}

/// Parses the body of a VTG sentence and returns what follows its `*`
/// together with the record.
pub fn parse_vtg<'a>(input: &'a [u8]) -> (r: Result<(&'a [u8], VtgData<'a>), ParseError>)
    ensures
        match spec_vtg(input@) {
            Ok((q, d)) => r matches Ok((rest, g)) && rest@ == input@.skip(q) && g@ == d,
            Err(e) => r matches Err(e2) && e2 == e,
        },
{
    let s = input;
    let (p1, bearing_true) = measure(s, 0, 84)?;
    let (p2, bearing_magnetic) = measure(s, p1, 77)?;
    let (p3, speed_knots) = measure(s, p2, 78)?;
    let (p4, speed_kmh) = opt_val(speed_until(s, p3, 44, true), p3)?;
    let p5 = char_at(s, p4, 44, true)?;
    let p6 = opt_pos_of(char_at(s, p5, 75, true), p5)?;
    let p7 = opt_pos_of(char_at(s, p6, 44, true), p6)?;
    let (p8, mode) = opt_val(one_of(s, p7, &[65u8, 68, 69, 77, 83, 78]), p7)?;
    let p9 = char_at(s, p8, 42, true)?;
    let mode = match mode {
        Some(b) => Some(b as char),
        None => None,
    };
    Ok(
        (
            slice_subrange(s, p9, s.len()),
            VtgData { bearing_true, bearing_magnetic, speed_knots, speed_kmh, mode },
        ),
    )
}

} // verus!
