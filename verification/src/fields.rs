use vstd::prelude::*;
use vstd::slice::slice_subrange;
use crate::error::{NmeaSentenceError, ParseError};
use crate::number::{
    is_float_literal, parse_num_fill, parse_uint, spec_is_float_literal, spec_parse_num_fill,
    spec_parse_uint,
};
use crate::scan::{
    char_at, find_byte, find_byte_from, one_of, spec_char, spec_one_of, spec_take,
    spec_take_until, take, take_until, val_res,
};
use crate::types::{
    opt_bytes, spec_latitude_direction, spec_longitude_direction, GpsDate, GpsPosition, GpsTime,
    LatitudeDirection, LongitudeDirection, SpecGpsPosition,
};

verus! {

/// `n` bytes read as an unsigned number no larger than `max`.
#[verifier::opaque]
pub open spec fn spec_fixed_uint(s: Seq<u8>, p: int, n: int, max: nat) -> Result<
    (int, nat),
    ParseError,
> {
    match spec_take(s, p, n) {
        Ok(q) => match spec_parse_uint(s.subrange(p, q), max) {
            Some(v) => Ok((q, v)),
            None => Err(ParseError::Invalid),
        },
        Err(e) => Err(e),
    }
}

/// The bytes up to the next `b`, read as an unsigned number no larger than `max`.
#[verifier::opaque]
pub open spec fn spec_uint_until(s: Seq<u8>, p: int, b: u8, streaming: bool, max: nat) -> Result<
    (int, nat),
    ParseError,
> {
    match spec_take_until(s, p, b, streaming) {
        Ok(q) => match spec_parse_uint(s.subrange(p, q), max) {
            Some(v) => Ok((q, v)),
            None => Err(ParseError::Invalid),
        },
        Err(e) => Err(e),
    }
}

/// The bytes up to the next `b`, which must be a number that
/// `str::parse::<f32>` reads; the value is that text.
#[verifier::opaque]
pub open spec fn spec_float_until(s: Seq<u8>, p: int, b: u8, streaming: bool) -> Result<
    (int, Seq<u8>),
    ParseError,
> {
    match spec_take_until(s, p, b, streaming) {
        Ok(q) => if spec_is_float_literal(s.subrange(p, q)) {
            Ok((q, s.subrange(p, q)))
        } else {
            Err(ParseError::Invalid)
        },
        Err(e) => Err(e),
    }
}

/// `hhmmss.f`: three two-digit numbers, a dot, and a fraction of a second up to
/// the next comma, read in thousandths with missing digits taken as zeros.
#[verifier::opaque]
pub open spec fn spec_utc_stamp(s: Seq<u8>, p: int) -> Result<(int, GpsTime), ParseError> {
    match spec_fixed_uint(s, p, 2, 0xff) {
        Err(e) => Err(e),
        Ok((p1, hour)) => match spec_fixed_uint(s, p1, 2, 0xff) {
            Err(e) => Err(e),
            Ok((p2, minute)) => match spec_fixed_uint(s, p2, 2, 0xff) {
                Err(e) => Err(e),
                Ok((p3, second)) => match spec_char(s, p3, 46, true) {
                    Err(e) => Err(e),
                    Ok(p4) => match spec_take_until(s, p4, 44, true) {
                        Err(e) => Err(e),
                        Ok(p5) => match spec_parse_num_fill(s.subrange(p4, p5), 3) {
                            None => Err(ParseError::Invalid),
                            Some(ms) => Ok(
                                (
                                    p5,
                                    GpsTime {
                                        hour: hour as u8,
                                        minute: minute as u8,
                                        second: second as u8,
                                        millisecond: ms as u16,
                                    },
                                ),
                            ),
                        },
                    },
                },
            },
        },
    }
}

/// `ddmmyy`: day, month and year as two-digit numbers.
#[verifier::opaque]
pub open spec fn spec_date(s: Seq<u8>, p: int) -> Result<(int, GpsDate), ParseError> {
    match spec_fixed_uint(s, p, 2, 0xff) {
        Err(e) => Err(e),
        Ok((p1, day)) => match spec_fixed_uint(s, p1, 2, 0xff) {
            Err(e) => Err(e),
            Ok((p2, month)) => match spec_fixed_uint(s, p2, 2, u64::MAX as nat) {
                Err(e) => Err(e),
                Ok((p3, year)) => Ok(
                    (p3, GpsDate { day: day as u8, month: month as u8, year: year as u64 }),
                ),
            },
        },
    }
}

pub open spec fn lat_dirs() -> Seq<u8> {
    seq![78u8, 83]
}

pub open spec fn lon_dirs() -> Seq<u8> {
    seq![69u8, 87]
}

/// `ddmm.mm,N,dddmm.mm,E`: two digits of latitude degrees, latitude minutes up
/// to the comma, `N` or `S`, three digits of longitude degrees, longitude
/// minutes up to the comma, `E` or `W`.
#[verifier::opaque]
pub open spec fn spec_gps_position(s: Seq<u8>, p: int) -> Result<
    (int, SpecGpsPosition),
    ParseError,
> {
    match spec_fixed_uint(s, p, 2, 0xff) {
        Err(e) => Err(e),
        Ok((p1, lat_deg)) => match spec_float_until(s, p1, 44, true) {
            Err(e) => Err(e),
            Ok((p2, lat_min)) => match spec_char(s, p2, 44, true) {
                Err(e) => Err(e),
                Ok(p3) => match spec_one_of(s, p3, lat_dirs()) {
                    Err(e) => Err(e),
                    Ok((p4, lat_c)) => match spec_char(s, p4, 44, true) {
                        Err(e) => Err(e),
                        Ok(p5) => match spec_fixed_uint(s, p5, 3, 0xff) {
                            Err(e) => Err(e),
                            Ok((p6, lon_deg)) => match spec_float_until(s, p6, 44, true) {
                                Err(e) => Err(e),
                                Ok((p7, lon_min)) => match spec_char(s, p7, 44, true) {
                                    Err(e) => Err(e),
                                    Ok(p8) => match spec_one_of(s, p8, lon_dirs()) {
                                        Err(e) => Err(e),
                                        Ok((p9, lon_c)) => Ok(
                                            (
                                                p9,
                                                SpecGpsPosition {
                                                    lat_deg: lat_deg as u8,
                                                    lat_min,
                                                    lat_dir: spec_latitude_direction(
                                                        lat_c as char,
                                                    ).unwrap(),
                                                    lon_deg: lon_deg as u8,
                                                    lon_min,
                                                    lon_dir: spec_longitude_direction(
                                                        lon_c as char,
                                                    ).unwrap(),
                                                },
                                            ),
                                        ),
                                    },
                                },
                            },
                        },
                    },
                },
            },
        },
    }
}

/// A speed `whole.fraction`: the digits before the dot as a `u16`, the digits
/// after it as a `u8`, each as `str::parse` reads them.
pub open spec fn spec_parse_speed(field: Seq<u8>) -> Option<(u16, u8)> {
    match find_byte(field, 0, 46) {
        None => None,
        Some(i) => match (
            spec_parse_uint(field.take(i), 0xffff),
            spec_parse_uint(field.skip(i + 1), 0xff),
        ) {
            (Some(w), Some(h)) => Some((w as u16, h as u8)),
            _ => None,
        },
    }
}

/// The bytes up to the next `b`, read as a speed.
#[verifier::opaque]
pub open spec fn spec_speed_until(s: Seq<u8>, p: int, b: u8, streaming: bool) -> Result<
    (int, (u16, u8)),
    ParseError,
> {
    match spec_take_until(s, p, b, streaming) {
        Ok(q) => match spec_parse_speed(s.subrange(p, q)) {
            Some(v) => Ok((q, v)),
            None => Err(ParseError::Invalid),
        },
        Err(e) => Err(e),
    }
}

/// An optional unsigned number up to the next `b` in a complete input: a field
/// that is not such a number gives `None` and consumes nothing.
pub open spec fn spec_num(s: Seq<u8>, p: int, b: u8, max: nat) -> (int, Option<nat>) {
    match spec_uint_until(s, p, b, false, max) {
        Ok((q, v)) => (q, Some(v)),
        Err(_) => (p, None),
    }
}

/// A height field: absent, `-` or empty means no height; any other text must
/// be a number that `str::parse::<f32>` reads.
pub open spec fn spec_invalid_height_check(height: Option<Seq<u8>>) -> Result<
    Option<Seq<u8>>,
    NmeaSentenceError,
> {
    match height {
        Some(val) => if val == seq![45u8] || val.len() == 0 {
            Ok(None)
        } else if spec_is_float_literal(val) {
            Ok(Some(val))
        } else {
            Err(NmeaSentenceError::GeneralParsingError)
        },
        None => Ok(None),
    }
}

/// Reads `n` bytes as a `u8`.
pub fn fixed_u8(s: &[u8], p: usize, n: usize) -> (r: Result<(usize, u8), ParseError>)
    requires
        p <= s@.len(),
    ensures
        match spec_fixed_uint(s@, p as int, n as int, 0xff) {
            Ok((q, v)) => r matches Ok((q2, w)) && q2 == q && w == v,
            Err(e) => r == Err::<(usize, u8), ParseError>(e),
        },
        r matches Ok((q, _)) ==> q <= s@.len(),
{
    proof {
        reveal(spec_fixed_uint);
    }
    let q = take(s, p, n)?;
    match parse_uint(slice_subrange(s, p, q), 0xff) {
        Some(v) => Ok((q, v as u8)),
        None => Err(ParseError::Invalid),
    }
}

/// Reads `n` bytes as a `u64`.
pub fn fixed_u64(s: &[u8], p: usize, n: usize) -> (r: Result<(usize, u64), ParseError>)
    requires
        p <= s@.len(),
    ensures
        match spec_fixed_uint(s@, p as int, n as int, u64::MAX as nat) {
            Ok((q, v)) => r matches Ok((q2, w)) && q2 == q && w == v,
            Err(e) => r == Err::<(usize, u64), ParseError>(e),
        },
        r matches Ok((q, _)) ==> q <= s@.len(),
{
    proof {
        reveal(spec_fixed_uint);
    }
    let q = take(s, p, n)?;
    match parse_uint(slice_subrange(s, p, q), u64::MAX) {
        Some(v) => Ok((q, v)),
        None => Err(ParseError::Invalid),
    }
}

/// Reads the bytes up to the next `b` as an unsigned number no larger than `max`.
pub fn uint_until(s: &[u8], p: usize, b: u8, streaming: bool, max: u64) -> (r: Result<
    (usize, u64),
    ParseError,
>)
    requires
        p <= s@.len(),
    ensures
        match spec_uint_until(s@, p as int, b, streaming, max as nat) {
            Ok((q, v)) => r matches Ok((q2, w)) && q2 == q && w == v,
            Err(e) => r == Err::<(usize, u64), ParseError>(e),
        },
        r matches Ok((q, v)) ==> q <= s@.len() && v <= max,
{
    proof {
        reveal(spec_uint_until);
    }
    let q = take_until(s, p, b, streaming)?;
    match parse_uint(slice_subrange(s, p, q), max) {
        Some(v) => Ok((q, v)),
        None => Err(ParseError::Invalid),
    }
}

/// Reads the bytes up to the next `b`, which must be a number that `f32` parsing accepts.
pub fn float_until<'a>(s: &'a [u8], p: usize, b: u8, streaming: bool) -> (r: Result<
    (usize, &'a [u8]),
    ParseError,
>)
    requires
        p <= s@.len(),
    ensures
        match spec_float_until(s@, p as int, b, streaming) {
            Ok((q, v)) => r matches Ok((q2, w)) && q2 == q && w@ == v,
            Err(e) => r == Err::<(usize, &[u8]), ParseError>(e),
        },
        r matches Ok((q, _)) ==> q <= s@.len(),
{
    proof {
        reveal(spec_float_until);
    }
    let q = take_until(s, p, b, streaming)?;
    let text = slice_subrange(s, p, q);
    if is_float_literal(text) {
        Ok((q, text))
    } else {
        Err(ParseError::Invalid)
    }
}

/// Reads a time stamp `hhmmss.f` that starts at `p`.
pub fn parse_utc_stamp(s: &[u8], p: usize) -> (r: Result<(usize, GpsTime), ParseError>)
    requires
        p <= s@.len(),
    ensures
        val_res(r) == spec_utc_stamp(s@, p as int),
        r matches Ok((q, _)) ==> q <= s@.len(),
{
    proof {
        reveal(spec_utc_stamp);
    }
    let (p1, hour) = fixed_u8(s, p, 2)?;
    let (p2, minute) = fixed_u8(s, p1, 2)?;
    let (p3, second) = fixed_u8(s, p2, 2)?;
    let p4 = char_at(s, p3, 46, true)?;
    let p5 = take_until(s, p4, 44, true)?;
    match parse_num_fill(slice_subrange(s, p4, p5), 3) {
        Ok(ms) => Ok((p5, GpsTime { hour, minute, second, millisecond: ms })),
        Err(_) => Err(ParseError::Invalid),
    }
}

/// Reads a date `ddmmyy` that starts at `p`.
pub fn parse_date(s: &[u8], p: usize) -> (r: Result<(usize, GpsDate), ParseError>)
    requires
        p <= s@.len(),
    ensures
        val_res(r) == spec_date(s@, p as int),
        r matches Ok((q, _)) ==> q <= s@.len(),
{
    proof {
        reveal(spec_date);
    }
    let (p1, day) = fixed_u8(s, p, 2)?;
    let (p2, month) = fixed_u8(s, p1, 2)?;
    let (p3, year) = fixed_u64(s, p2, 2)?;
    Ok((p3, GpsDate { day, month, year }))
}

/// Reads a position `ddmm.mm,N,dddmm.mm,E` that starts at `p`.
pub fn parse_gps_position<'a>(s: &'a [u8], p: usize) -> (r: Result<
    (usize, GpsPosition<'a>),
    ParseError,
>)
    requires
        p <= s@.len(),
    ensures
        match spec_gps_position(s@, p as int) {
            Ok((q, v)) => r matches Ok((q2, w)) && q2 == q && w@ == v,
            Err(e) => r == Err::<(usize, GpsPosition), ParseError>(e),
        },
        r matches Ok((q, _)) ==> q <= s@.len(),
{
    proof {
        reveal(spec_gps_position);
    }
    let (p1, lat_deg) = fixed_u8(s, p, 2)?;
    let (p2, lat_min) = float_until(s, p1, 44, true)?;
    let p3 = char_at(s, p2, 44, true)?;
    let (p4, lat_c) = one_of(s, p3, &[78u8, 83])?;
    let p5 = char_at(s, p4, 44, true)?;
    let (p6, lon_deg) = fixed_u8(s, p5, 3)?;
    let (p7, lon_min) = float_until(s, p6, 44, true)?;
    let p8 = char_at(s, p7, 44, true)?;
    let (p9, lon_c) = one_of(s, p8, &[69u8, 87])?;
    let lat_dir = if lat_c == 78 {
        LatitudeDirection::North
    } else {
        LatitudeDirection::South
    };
    let lon_dir = if lon_c == 69 {
        LongitudeDirection::East
    } else {
        LongitudeDirection::West
    };
    Ok((p9, GpsPosition { lat_deg, lat_min, lat_dir, lon_deg, lon_min, lon_dir }))
}

/// Reads a speed `whole.fraction`: the digits before the dot as a `u16`, those
/// after it as a `u8`.
pub fn parse_speed(inp: &[u8]) -> (r: Result<(u16, u8), ParseError>)
    ensures
        match spec_parse_speed(inp@) {
            Some(v) => r == Ok::<(u16, u8), ParseError>(v),
            None => r == Err::<(u16, u8), ParseError>(ParseError::Invalid),
        },
{
    let len = inp.len();
    let dot = match find_byte_from(inp, 0, 46) {
        Some(i) => i,
        None => return Err(ParseError::Invalid),
    };
    proof {
        crate::scan::lemma_find_byte(inp@, 0, 46);
    }
    let whole = parse_uint(slice_subrange(inp, 0, dot), 0xffff);
    assert(dot < len);
    let hundredths = parse_uint(slice_subrange(inp, dot + 1, len), 0xff);
    assert(inp@.subrange(0, dot as int) =~= inp@.take(dot as int));
    assert(inp@.subrange(dot + 1, inp@.len() as int) =~= inp@.skip(dot + 1));
    match (whole, hundredths) {
        (Some(w), Some(h)) => Ok((w as u16, h as u8)),
        _ => Err(ParseError::Invalid),
    }
}

/// Reads the bytes up to the next `b` as a speed.
pub fn speed_until(s: &[u8], p: usize, b: u8, streaming: bool) -> (r: Result<
    (usize, (u16, u8)),
    ParseError,
>)
    requires
        p <= s@.len(),
    ensures
        val_res(r) == spec_speed_until(s@, p as int, b, streaming),
        r matches Ok((q, _)) ==> q <= s@.len(),
{
    proof {
        reveal(spec_speed_until);
    }
    let q = take_until(s, p, b, streaming)?;
    match parse_speed(slice_subrange(s, p, q)) {
        Ok(v) => Ok((q, v)),
        Err(_) => Err(ParseError::Invalid),
    }
}

/// An optional `u8` up to the next `b` of a complete input.
pub fn num_u8(s: &[u8], p: usize, b: u8) -> (r: (usize, Option<u8>))
    requires
        p <= s@.len(),
    ensures
        r.0 <= s@.len(),
        r.0 as int == spec_num(s@, p as int, b, 0xff).0,
        match spec_num(s@, p as int, b, 0xff).1 {
            Some(v) => r.1 == Some(v as u8),
            None => r.1 is None,
        },
{
    match uint_until(s, p, b, false, 0xff) {
        Ok((q, v)) => (q, Some(v as u8)),
        Err(_) => (p, None),
    }
}

/// An optional `u16` up to the next `b` of a complete input.
pub fn num_u16(s: &[u8], p: usize, b: u8) -> (r: (usize, Option<u16>))
    requires
        p <= s@.len(),
    ensures
        r.0 <= s@.len(),
        r.0 as int == spec_num(s@, p as int, b, 0xffff).0,
        match spec_num(s@, p as int, b, 0xffff).1 {
            Some(v) => r.1 == Some(v as u16),
            None => r.1 is None,
        },
{
    match uint_until(s, p, b, false, 0xffff) {
        Ok((q, v)) => (q, Some(v as u16)),
        Err(_) => (p, None),
    }
}

/// Checks a height field: absent, `-` or empty gives no height, a number gives
/// its text, anything else is an error.
pub fn invalid_height_check<'a>(height: Option<&'a [u8]>) -> (r: Result<
    Option<&'a [u8]>,
    NmeaSentenceError,
>)
    ensures
        match spec_invalid_height_check(opt_bytes(height)) {
            Ok(v) => r matches Ok(w) && opt_bytes(w) == v,
            Err(e) => r == Err::<Option<&[u8]>, NmeaSentenceError>(e),
        },
{
    match height {
        Some(val) => {
            if val.len() == 0 || (val.len() == 1 && val[0] == 45) {
                assert(val.len() == 1 ==> val@ =~= seq![val@[0]]);
                Ok(None)
            } else if is_float_literal(val) {
                Ok(Some(val))
            } else {
                assert(val@.len() != 1 || val@[0] != 45);
                assert(val@ != seq![45u8]);
                Err(NmeaSentenceError::GeneralParsingError)
            }
        },
        None => Ok(None),
    }
}

/// Every direction letter that the position grammar admits names a direction.
pub proof fn admitted_directions_are_named(lat: u8, lon: u8)
    requires
        lat_dirs().contains(lat),
        lon_dirs().contains(lon),
    ensures
        spec_latitude_direction(lat as char) is Some,
        spec_longitude_direction(lon as char) is Some,
{
    let i = choose|i: int| 0 <= i < lat_dirs().len() && lat_dirs()[i] == lat;
    let j = choose|j: int| 0 <= j < lon_dirs().len() && lon_dirs()[j] == lon;
    assert(lat == 78 || lat == 83);
    assert(lon == 69 || lon == 87);
}

/// A speed is its whole part and its fraction: for a whole part without a
/// dot, `whole.frac` reads as the whole part as a `u16` and the fraction as a
/// `u8`, each as `str::parse` reads them, and fails when either does not.
pub proof fn speed_is_whole_and_fraction(whole: Seq<u8>, frac: Seq<u8>)
    requires
        !whole.contains(46),
    ensures
        spec_parse_speed(whole + seq![46u8] + frac) == match (
            spec_parse_uint(whole, 0xffff),
            spec_parse_uint(frac, 0xff),
        ) {
            (Some(w), Some(h)) => Some((w as u16, h as u8)),
            _ => None,
        },
{
    let f = whole + seq![46u8] + frac;
    assert forall|j: int| 0 <= j < whole.len() implies f[j] != 46 by {
        assert(f[j] == whole[j]);
        if whole[j] == 46 {
            assert(whole.contains(46));
        }
    }
    assert(f[whole.len() as int] == 46);
    crate::scan::lemma_find_byte_at(f, 0, 46, whole.len() as int);
    assert(f.take(whole.len() as int) =~= whole);
    assert(f.skip(whole.len() as int + 1) =~= frac);
}

/// A speed needs its dot: a text without one is no speed.
pub proof fn speed_needs_a_dot(f: Seq<u8>)
    requires
        !f.contains(46),
    ensures
        spec_parse_speed(f) is None,
{
    assert forall|j: int| 0 <= j < f.len() implies f[j] != 46 by {
        if f[j] == 46 {
            assert(f.contains(46));
        }
    }
    crate::scan::lemma_find_byte_absent(f, 0, 46);
}

/// A string of digits reads as the number it spells, when that fits.
pub proof fn digit_strings_read_as_their_value(d: Seq<u8>, max: nat)
    requires
        d.len() > 0,
        crate::number::all_digits(d),
        crate::number::digits_value(d) <= max,
    ensures
        spec_parse_uint(d, max) == Some(crate::number::digits_value(d)),
{
    assert(crate::number::is_digit(d[0]));
    assert(crate::number::unsigned_body(d) == d);
}

/// Digit speeds: for digit strings `w` and `h` whose values fit a `u16` and a
/// `u8`, `w.h` reads as those two values.
pub proof fn digit_speeds_read_as_their_parts(w: Seq<u8>, h: Seq<u8>)
    requires
        w.len() > 0,
        h.len() > 0,
        crate::number::all_digits(w),
        crate::number::all_digits(h),
        crate::number::digits_value(w) <= 0xffff,
        crate::number::digits_value(h) <= 0xff,
    ensures
        spec_parse_speed(w + seq![46u8] + h) == Some(
            (crate::number::digits_value(w) as u16, crate::number::digits_value(h) as u8),
        ),
{
    assert(!w.contains(46)) by {
        if w.contains(46) {
            let i = choose|i: int| 0 <= i < w.len() && w[i] == 46;
            assert(crate::number::is_digit(w[i]));
        }
    }
    speed_is_whole_and_fraction(w, h);
    digit_strings_read_as_their_value(w, 0xffff);
    digit_strings_read_as_their_value(h, 0xff);
}

/// A height field by cases: none when absent, `-` or empty; a decimal number or
/// a special value is kept as its text; anything else is an error.
pub proof fn heights_by_cases(t: Seq<u8>)
    ensures
        spec_invalid_height_check(None) == Ok::<Option<Seq<u8>>, NmeaSentenceError>(None),
        t == seq![45u8] || t.len() == 0 ==> spec_invalid_height_check(Some(t)) == Ok::<
            Option<Seq<u8>>,
            NmeaSentenceError,
        >(None),
        t != seq![45u8] && t.len() > 0 ==> spec_invalid_height_check(Some(t)) == (
        if crate::float_laws::decimal_text(t) || crate::float_laws::special_value_text(t) {
            Ok::<Option<Seq<u8>>, NmeaSentenceError>(Some(t))
        } else {
            Err::<Option<Seq<u8>>, NmeaSentenceError>(NmeaSentenceError::GeneralParsingError)
        }),
{
    crate::float_laws::float_literals_are_decimals_or_special_values(t);
}

} // verus!
