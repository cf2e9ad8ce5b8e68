use vstd::prelude::*;
use crate::error::ParseError;
use crate::fields::{
    lat_dirs, lon_dirs, spec_date, spec_fixed_uint, spec_float_until, spec_gps_position,
    spec_num, spec_parse_speed, spec_speed_until, spec_uint_until, spec_utc_stamp,
};
use crate::framing::{lemma_float_star_free, lemma_uint_star_free};
use crate::gll::{
    mode_letters, opt_char, spec_gll, spec_gll_position, spec_gll_status, status_letters,
    SpecGllData,
};
use crate::number::{lowered, spec_is_float_literal, spec_parse_num_fill, spec_parse_uint};
use crate::rmc::{
    spec_rm_status, spec_rmc, spec_rmc_course, spec_rmc_fix, spec_rmc_variation, RmStatus,
    SpecRmcData,
};
use crate::scan::{
    find_byte, lemma_find_byte, lemma_find_byte_at, spec_char, spec_complete, spec_one_of,
    spec_opt, spec_opt_pos, spec_tag,
};
use crate::txt::{opt_u8, spec_txt, SpecTxtData};
use crate::types::{
    spec_latitude_direction, spec_longitude_direction, GpsDate, GpsTime, LongitudeDirection,
    SpecGpsPosition,
};
use crate::vtg::{spec_measure, spec_unit_sep, spec_vtg, SpecVtgData};
use crate::zda::{spec_zda, spec_zda_date, spec_zda_zone, ZdaData};

verus! {

/// A numeric field: empty, or an unsigned number no larger than `max`.
pub open spec fn num_field(f: Seq<u8>, max: nat) -> bool {
    f.len() == 0 || spec_parse_uint(f, max) is Some
}

/// The value of a numeric field: none when it is empty.
pub open spec fn num_value(f: Seq<u8>, max: nat) -> Option<nat> {
    if f.len() == 0 {
        None
    } else {
        spec_parse_uint(f, max)
    }
}

/// Where the input from `p` on is the field `f`, the separator `b` and `r`,
/// and `f` holds no `b`, the field ends at the separator.
pub proof fn lemma_split(s: Seq<u8>, p: int, f: Seq<u8>, b: u8, r: Seq<u8>)
    requires
        0 <= p <= s.len(),
        s.subrange(p, s.len() as int) == f + seq![b] + r,
        forall|j: int| 0 <= j < f.len() ==> f[j] != b,
    ensures
        p + f.len() + 1 <= s.len(),
        find_byte(s, p, b) == Some(p + f.len()),
        s.subrange(p, p + f.len()) == f,
        s[p + f.len()] == b,
        s.subrange(p + f.len() + 1, s.len() as int) == r,
{
    let u = s.subrange(p, s.len() as int);
    assert(u.len() == f.len() + 1 + r.len());
    assert forall|j: int| p <= j < p + f.len() implies s[j] != b by {
        assert(s[j] == u[j - p]);
        assert(u[j - p] == f[j - p]);
    }
    assert(s[p + f.len()] == u[f.len() as int]);
    lemma_find_byte_at(s, p, b, p + f.len());
    assert forall|j: int| 0 <= j < f.len() implies s.subrange(p, p + f.len())[j] == f[j] by {
        assert(s[p + j] == u[j]);
    }
    assert(s.subrange(p, p + f.len()) =~= f);
    assert forall|j: int| 0 <= j < r.len() implies s.subrange(
        p + f.len() + 1,
        s.len() as int,
    )[j] == r[j] by {
        assert(s[p + f.len() + 1 + j] == u[f.len() + 1 + j]);
    }
    assert(s.subrange(p + f.len() + 1, s.len() as int) =~= r);
}

/// An optional number of a complete input, standing as its own field before
/// the separator `b`.
pub proof fn lemma_num_field(s: Seq<u8>, p: int, f: Seq<u8>, b: u8, r: Seq<u8>, max: nat)
    requires
        0 <= p <= s.len(),
        s.subrange(p, s.len() as int) == f + seq![b] + r,
        num_field(f, max),
        b == 44 || b == 42,
    ensures
        spec_num(s, p, b, max) == (p + f.len(), num_value(f, max)),
        spec_char(s, p + f.len(), b, false) == Ok::<int, ParseError>(p + f.len() + 1),
        s.subrange(p + f.len() + 1, s.len() as int) == r,
{
    reveal(spec_uint_until);
    if f.len() > 0 {
        lemma_uint_star_free(f, max);
    }
    lemma_split(s, p, f, b, r);
    if f.len() == 0 {
        assert(s.subrange(p, p) =~= Seq::<u8>::empty());
        assert(spec_parse_uint(Seq::<u8>::empty(), max) is None);
    }
}

/// A TXT sentence by its fields: when the total, the sentence number and the
/// identifier are each empty or a `u8`, and the text holds no `*`, the body
/// reads as those values and that text, and the rest is what follows the `*`.
pub proof fn txt_by_fields(
    total: Seq<u8>,
    sentence: Seq<u8>,
    id: Seq<u8>,
    text: Seq<u8>,
    rest: Seq<u8>,
)
    requires
        num_field(total, 0xff),
        num_field(sentence, 0xff),
        num_field(id, 0xff),
        !text.contains(42),
    ensures
        spec_txt(
            total + seq![44u8] + sentence + seq![44u8] + id + seq![44u8] + text + seq![42u8] + rest,
        ) == Ok::<(int, SpecTxtData), ParseError>(
            (
                (total.len() + sentence.len() + id.len() + text.len() + 4) as int,
                SpecTxtData {
                    total: opt_u8(num_value(total, 0xff)),
                    sentence: opt_u8(num_value(sentence, 0xff)),
                    id: opt_u8(num_value(id, 0xff)),
                    text,
                },
            ),
        ),
{
    let s = total + seq![44u8] + sentence + seq![44u8] + id + seq![44u8] + text + seq![42u8] + rest;
    let r3 = text + seq![42u8] + rest;
    let r2 = id + seq![44u8] + r3;
    let r1 = sentence + seq![44u8] + r2;
    assert(s.subrange(0, s.len() as int) =~= total + seq![44u8] + r1);
    lemma_num_field(s, 0, total, 44, r1, 0xff);
    let p2: int = total.len() as int + 1;
    assert(r1 =~= sentence + seq![44u8] + r2);
    lemma_num_field(s, p2, sentence, 44, r2, 0xff);
    let p4: int = p2 + sentence.len() + 1;
    lemma_num_field(s, p4, id, 44, r3, 0xff);
    let p6: int = p4 + id.len() + 1;
    assert forall|j: int| 0 <= j < text.len() implies text[j] != 42 by {
        if text[j] == 42 {
            assert(text.contains(42));
        }
    }
    lemma_split(s, p6, text, 42, rest);
}

/// A time field `hhmmss.f`: hours, minutes and seconds as two-byte `u8`
/// numbers, a dot, and a fraction of a second of at most three digits.
pub open spec fn time_field(t: Seq<u8>) -> bool {
    &&& t.len() >= 7
    &&& spec_parse_uint(t.subrange(0, 2), 0xff) is Some
    &&& spec_parse_uint(t.subrange(2, 4), 0xff) is Some
    &&& spec_parse_uint(t.subrange(4, 6), 0xff) is Some
    &&& t[6] == 46
    &&& spec_parse_num_fill(t.skip(7), 3) is Some
}

/// The time a time field gives, the fraction counted in thousandths.
pub open spec fn time_value(t: Seq<u8>) -> GpsTime {
    GpsTime {
        hour: spec_parse_uint(t.subrange(0, 2), 0xff).unwrap() as u8,
        minute: spec_parse_uint(t.subrange(2, 4), 0xff).unwrap() as u8,
        second: spec_parse_uint(t.subrange(4, 6), 0xff).unwrap() as u8,
        millisecond: spec_parse_num_fill(t.skip(7), 3).unwrap() as u16,
    }
}

/// An optional time field: empty, or a time field.
pub open spec fn opt_time_field(t: Seq<u8>) -> bool {
    t.len() == 0 || time_field(t)
}

pub open spec fn opt_time_value(t: Seq<u8>) -> Option<GpsTime> {
    if t.len() == 0 {
        None
    } else {
        Some(time_value(t))
    }
}

/// A time stamp read at `p` where the input from `p` on is the field `t`, a
/// comma, and `r`: an empty field is a mismatch, a time field gives its time.
pub proof fn lemma_time_at(s: Seq<u8>, p: int, t: Seq<u8>, r: Seq<u8>)
    requires
        0 <= p <= s.len(),
        s.subrange(p, s.len() as int) == t + seq![44u8] + r,
        opt_time_field(t),
        r.len() > 0 || t.len() > 0,
    ensures
        spec_utc_stamp(s, p) == (if t.len() == 0 {
            Err::<(int, GpsTime), ParseError>(ParseError::Invalid)
        } else {
            Ok::<(int, GpsTime), ParseError>((p + t.len(), time_value(t)))
        }),
        spec_char(s, p + t.len(), 44, false) == Ok::<int, ParseError>(p + t.len() + 1),
        spec_char(s, p + t.len(), 44, true) == Ok::<int, ParseError>(p + t.len() + 1),
        s.subrange(p + t.len() + 1, s.len() as int) == r,
{
    let u = s.subrange(p, s.len() as int);
    assert(u.len() == t.len() + 1 + r.len());
    assert(s[p] == u[0]);
    if t.len() == 0 {
        assert(s[p + 1] == u[1]);
        crate::streaming::lemma_comma_field(s, p);
        lemma_split(s, p, t, 44, r);
    } else {
        reveal(spec_utc_stamp);
        reveal(spec_fixed_uint);
        let frac = t.skip(7);
        lemma_uint_star_free(frac, 0xffff);
        assert(u.subrange(7, u.len() as int) =~= frac + seq![44u8] + r);
        assert(s.subrange(p + 7, s.len() as int) =~= u.subrange(7, u.len() as int));
        lemma_split(s, p + 7, frac, 44, r);
        assert(s.subrange(p, p + 2) =~= t.subrange(0, 2)) by {
            assert forall|j: int| 0 <= j < 2 implies s[p + j] == t[j] by {
                assert(s[p + j] == u[j]);
            }
        }
        assert(s.subrange(p + 2, p + 4) =~= t.subrange(2, 4)) by {
            assert forall|j: int| 2 <= j < 4 implies s[p + j] == t[j] by {
                assert(s[p + j] == u[j]);
            }
        }
        assert(s.subrange(p + 4, p + 6) =~= t.subrange(4, 6)) by {
            assert forall|j: int| 4 <= j < 6 implies s[p + j] == t[j] by {
                assert(s[p + j] == u[j]);
            }
        }
        assert(s[p + 6] == u[6]);
        assert(s.subrange(p + t.len() + 1, s.len() as int) == r);
    }
}

/// A ZDA sentence by its fields: when the time is empty or a time field, the
/// day, month and the two zone fields are each empty or a `u8`, and the year
/// is empty or a `u16`, the body reads as those values (a date when all of
/// day, month and year are there, a zone when both zone fields are), and the
/// rest is what follows the `*`.
pub proof fn zda_by_fields(
    time: Seq<u8>,
    day: Seq<u8>,
    month: Seq<u8>,
    year: Seq<u8>,
    zone_first: Seq<u8>,
    zone_second: Seq<u8>,
    rest: Seq<u8>,
)
    requires
        opt_time_field(time),
        num_field(day, 0xff),
        num_field(month, 0xff),
        num_field(year, 0xffff),
        num_field(zone_first, 0xff),
        num_field(zone_second, 0xff),
    ensures
        spec_zda(
            time + seq![44u8] + day + seq![44u8] + month + seq![44u8] + year + seq![44u8]
                + zone_first + seq![44u8] + zone_second + seq![42u8] + rest,
        ) == Ok::<(int, ZdaData), ParseError>(
            (
                (time.len() + day.len() + month.len() + year.len() + zone_first.len()
                    + zone_second.len() + 6) as int,
                ZdaData {
                    time: opt_time_value(time),
                    date: spec_zda_date(
                        num_value(day, 0xff),
                        num_value(month, 0xff),
                        num_value(year, 0xffff),
                    ),
                    zone: spec_zda_zone(num_value(zone_first, 0xff), num_value(zone_second, 0xff)),
                },
            ),
        ),
{
    let r5 = zone_second + seq![42u8] + rest;
    let r4 = zone_first + seq![44u8] + r5;
    let r3 = year + seq![44u8] + r4;
    let r2 = month + seq![44u8] + r3;
    let r1 = day + seq![44u8] + r2;
    let s = time + seq![44u8] + day + seq![44u8] + month + seq![44u8] + year + seq![44u8]
        + zone_first + seq![44u8] + zone_second + seq![42u8] + rest;
    assert(s.subrange(0, s.len() as int) =~= time + seq![44u8] + r1);
    lemma_time_at(s, 0, time, r1);
    let p2: int = time.len() as int + 1;
    lemma_num_field(s, p2, day, 44, r2, 0xff);
    let p4: int = p2 + day.len() + 1;
    lemma_num_field(s, p4, month, 44, r3, 0xff);
    let p6: int = p4 + month.len() + 1;
    lemma_num_field(s, p6, year, 44, r4, 0xffff);
    let p8: int = p6 + year.len() + 1;
    lemma_num_field(s, p8, zone_first, 44, r5, 0xff);
    let p10: int = p8 + zone_first.len() + 1;
    lemma_num_field(s, p10, zone_second, 42, rest, 0xff);
    assert(spec_opt(spec_utc_stamp(s, 0), 0) == Ok::<(int, Option<GpsTime>), ParseError>(
        (time.len() as int, opt_time_value(time)),
    ));
}

/// A decimal field: empty, or a number that `str::parse::<f32>` reads.
pub open spec fn float_field(f: Seq<u8>) -> bool {
    f.len() == 0 || spec_is_float_literal(f)
}

/// The text a decimal field gives: none when it is empty.
pub open spec fn float_value(f: Seq<u8>) -> Option<Seq<u8>> {
    if f.len() == 0 {
        None
    } else {
        Some(f)
    }
}

/// A speed field: empty, or `whole.fraction`.
pub open spec fn speed_field(f: Seq<u8>) -> bool {
    f.len() == 0 || spec_parse_speed(f) is Some
}

pub open spec fn speed_value(f: Seq<u8>) -> Option<(u16, u8)> {
    if f.len() == 0 {
        None
    } else {
        spec_parse_speed(f)
    }
}

/// A field that is empty or holds just the letter `c`.
pub open spec fn letter_field(f: Seq<u8>, c: u8) -> bool {
    f.len() == 0 || f == seq![c]
}

/// A mode field: empty, or one letter out of `ADEMSN`.
pub open spec fn mode_field(f: Seq<u8>) -> bool {
    f.len() == 0 || (f.len() == 1 && mode_letters().contains(f[0]))
}

pub open spec fn mode_value(f: Seq<u8>) -> Option<char> {
    if f.len() == 0 {
        None
    } else {
        Some(f[0] as char)
    }
}

proof fn lemma_empty_is_not_float()
    ensures
        !spec_is_float_literal(Seq::<u8>::empty()),
{
    assert(lowered(Seq::<u8>::empty()) =~= Seq::<u8>::empty());
    assert(!(Seq::<u8>::empty() =~= crate::number::word_inf()));
    assert(!(Seq::<u8>::empty() =~= crate::number::word_infinity()));
    assert(!(Seq::<u8>::empty() =~= crate::number::word_nan()));
}

/// A decimal field standing before a comma.
proof fn lemma_float_field(s: Seq<u8>, p: int, f: Seq<u8>, r: Seq<u8>)
    requires
        0 <= p <= s.len(),
        s.subrange(p, s.len() as int) == f + seq![44u8] + r,
        float_field(f),
    ensures
        spec_opt(spec_float_until(s, p, 44, true), p) == Ok::<(int, Option<Seq<u8>>), ParseError>(
            (p + f.len(), float_value(f)),
        ),
        s[p + f.len()] == 44,
        p + f.len() + 1 <= s.len(),
        s.subrange(p + f.len() + 1, s.len() as int) == r,
{
    reveal(spec_float_until);
    if f.len() > 0 {
        lemma_float_star_free(f);
    } else {
        lemma_empty_is_not_float();
    }
    lemma_split(s, p, f, 44, r);
    if f.len() == 0 {
        assert(s.subrange(p, p) =~= Seq::<u8>::empty());
    }
}

/// `,U,` or `,,` read where a comma, a unit field and a comma stand.
proof fn lemma_unit_field(s: Seq<u8>, q: int, uf: Seq<u8>, unit: u8, r: Seq<u8>)
    requires
        0 <= q <= s.len(),
        s.subrange(q, s.len() as int) == seq![44u8] + uf + seq![44u8] + r,
        letter_field(uf, unit),
        unit != 44,
        r.len() > 0,
    ensures
        spec_unit_sep(s, q, unit) == Ok::<int, ParseError>(q + uf.len() + 2),
        s.subrange(q + uf.len() + 2, s.len() as int) == r,
{
    let u = s.subrange(q, s.len() as int);
    assert(u.len() == uf.len() + 2 + r.len());
    if uf.len() == 0 {
        assert(s.subrange(q, q + 2) =~= seq![44u8, 44]) by {
            assert(s[q] == u[0]);
            assert(s[q + 1] == u[1]);
        }
        assert(s.subrange(q, q + 3)[1] == s[q + 1]);
        assert(s[q + 1] == u[1]);
        assert(spec_tag(s, q, seq![44u8, unit, 44], true) == Err::<int, ParseError>(
            ParseError::Invalid,
        ));
    } else {
        assert(s.subrange(q, q + 3) =~= seq![44u8, unit, 44]) by {
            assert(s[q] == u[0]);
            assert(s[q + 1] == u[1]);
            assert(s[q + 2] == u[2]);
        }
    }
    assert forall|j: int| 0 <= j < r.len() implies s.subrange(
        q + uf.len() + 2,
        s.len() as int,
    )[j] == r[j] by {
        assert(s[q + uf.len() + 2 + j] == u[uf.len() + 2 + j]);
    }
    assert(s.subrange(q + uf.len() + 2, s.len() as int) =~= r);
}

/// A decimal field and its unit field.
proof fn lemma_measure_field(s: Seq<u8>, p: int, f: Seq<u8>, uf: Seq<u8>, unit: u8, r: Seq<u8>)
    requires
        0 <= p <= s.len(),
        s.subrange(p, s.len() as int) == f + seq![44u8] + uf + seq![44u8] + r,
        float_field(f),
        letter_field(uf, unit),
        unit != 44,
        r.len() > 0,
    ensures
        spec_measure(s, p, unit) == Ok::<(int, Option<Seq<u8>>), ParseError>(
            (p + f.len() + uf.len() + 2, float_value(f)),
        ),
        s.subrange(p + f.len() + uf.len() + 2, s.len() as int) == r,
{
    assert(s.subrange(p, s.len() as int) =~= f + seq![44u8] + (uf + seq![44u8] + r));
    lemma_float_field(s, p, f, uf + seq![44u8] + r);
    let q = p + f.len();
    assert(s.subrange(q, s.len() as int) =~= seq![44u8] + uf + seq![44u8] + r) by {
        assert forall|j: int| 0 <= j < s.len() - q implies s.subrange(q, s.len() as int)[j] == (
        seq![44u8] + uf + seq![44u8] + r)[j] by {
            if j > 0 {
                assert(s[q + j] == s.subrange(q + 1, s.len() as int)[j - 1]);
            }
        }
    }
    lemma_unit_field(s, q, uf, unit, r);
}

proof fn lemma_speed_bytes(k: Seq<u8>)
    requires
        spec_parse_speed(k) is Some,
    ensures
        forall|j: int| 0 <= j < k.len() ==> k[j] != 44,
{
    lemma_find_byte(k, 0, 46);
    let i = find_byte(k, 0, 46).unwrap();
    lemma_uint_star_free(k.take(i), 0xffff);
    lemma_uint_star_free(k.skip(i + 1), 0xff);
    assert forall|j: int| 0 <= j < k.len() implies k[j] != 44 by {
        if j < i {
            assert(k.take(i)[j] == k[j]);
        } else if j > i {
            assert(k.skip(i + 1)[j - i - 1] == k[j]);
        }
    }
}

/// A VTG sentence by its fields: true bearing, `T` or nothing, magnetic
/// bearing, `M` or nothing, speed in knots, `N` or nothing, speed in km/h,
/// `K` or nothing, and the mode, separated by commas and ended by `*`. When
/// each bearing and the speed in knots is empty or a decimal number, the speed
/// in km/h is empty or `whole.fraction`, and the mode is empty or one letter
/// out of `ADEMSN`, the body reads as those values, and the rest is what
/// follows the `*`.
#[verifier::rlimit(100)]
pub proof fn vtg_by_fields(
    bearing_true: Seq<u8>,
    unit_t: Seq<u8>,
    bearing_magnetic: Seq<u8>,
    unit_m: Seq<u8>,
    speed_knots: Seq<u8>,
    unit_n: Seq<u8>,
    speed_kmh: Seq<u8>,
    unit_k: Seq<u8>,
    mode: Seq<u8>,
    rest: Seq<u8>,
)
    requires
        float_field(bearing_true),
        letter_field(unit_t, 84),
        float_field(bearing_magnetic),
        letter_field(unit_m, 77),
        float_field(speed_knots),
        letter_field(unit_n, 78),
        speed_field(speed_kmh),
        letter_field(unit_k, 75),
        mode_field(mode),
    ensures
        spec_vtg(
            bearing_true + seq![44u8] + unit_t + seq![44u8] + bearing_magnetic + seq![44u8] + unit_m
                + seq![44u8] + speed_knots + seq![44u8] + unit_n + seq![44u8] + speed_kmh
                + seq![44u8] + unit_k + seq![44u8] + mode + seq![42u8] + rest,
        ) == Ok::<(int, SpecVtgData), ParseError>(
            (
                (bearing_true.len() + unit_t.len() + bearing_magnetic.len() + unit_m.len()
                    + speed_knots.len() + unit_n.len() + speed_kmh.len() + unit_k.len() + mode.len()
                    + 9) as int,
                SpecVtgData {
                    bearing_true: float_value(bearing_true),
                    bearing_magnetic: float_value(bearing_magnetic),
                    speed_knots: float_value(speed_knots),
                    speed_kmh: speed_value(speed_kmh),
                    mode: mode_value(mode),
                },
            ),
        ),
{
    crate::framing::lemma_star_set();
    let t8 = mode + seq![42u8] + rest;
    let t7 = unit_k + seq![44u8] + t8;
    let t6 = speed_kmh + seq![44u8] + t7;
    let t4 = speed_knots + seq![44u8] + unit_n + seq![44u8] + t6;
    let t2 = bearing_magnetic + seq![44u8] + unit_m + seq![44u8] + t4;
    let s = bearing_true + seq![44u8] + unit_t + seq![44u8] + bearing_magnetic + seq![44u8]
        + unit_m + seq![44u8] + speed_knots + seq![44u8] + unit_n + seq![44u8] + speed_kmh
        + seq![44u8] + unit_k + seq![44u8] + mode + seq![42u8] + rest;
    assert(s.subrange(0, s.len() as int) =~= bearing_true + seq![44u8] + unit_t + seq![44u8] + t2);
    lemma_measure_field(s, 0, bearing_true, unit_t, 84, t2);
    let p1: int = bearing_true.len() as int + unit_t.len() + 2;
    assert(t2 =~= bearing_magnetic + seq![44u8] + unit_m + seq![44u8] + t4);
    lemma_measure_field(s, p1, bearing_magnetic, unit_m, 77, t4);
    let p2: int = p1 + bearing_magnetic.len() + unit_m.len() + 2;
    assert(t4 =~= speed_knots + seq![44u8] + unit_n + seq![44u8] + t6);
    lemma_measure_field(s, p2, speed_knots, unit_n, 78, t6);
    let p3: int = p2 + speed_knots.len() + unit_n.len() + 2;
    assert(t6 =~= speed_kmh + seq![44u8] + (unit_k + seq![44u8] + (mode + seq![42u8] + rest)));
    lemma_vtg_tail(s, p3, speed_kmh, unit_k, mode, rest);
}

/// The end of a VTG body: speed in km/h, `K` or nothing, mode, `*`.
proof fn lemma_vtg_tail(s: Seq<u8>, p3: int, speed_kmh: Seq<u8>, unit_k: Seq<u8>, mode: Seq<u8>, rest: Seq<u8>)
    requires
        0 <= p3 <= s.len(),
        s.subrange(p3, s.len() as int) == speed_kmh + seq![44u8] + (unit_k + seq![44u8] + (mode
            + seq![42u8] + rest)),
        speed_field(speed_kmh),
        letter_field(unit_k, 75),
        mode_field(mode),
    ensures
        spec_opt(spec_speed_until(s, p3, 44, true), p3) == Ok::<(int, Option<(u16, u8)>), ParseError>(
            (p3 + speed_kmh.len(), speed_value(speed_kmh)),
        ),
        spec_char(s, p3 + speed_kmh.len(), 44, true) == Ok::<int, ParseError>(p3 + speed_kmh.len() + 1),
        spec_opt_pos(spec_char(s, p3 + speed_kmh.len() + 1, 75, true), p3 + speed_kmh.len() + 1)
            == Ok::<int, ParseError>(p3 + speed_kmh.len() + 1 + unit_k.len()),
        spec_opt_pos(spec_char(s, p3 + speed_kmh.len() + 1 + unit_k.len(), 44, true), p3 + speed_kmh.len() + 1 + unit_k.len())
            == Ok::<int, ParseError>(p3 + speed_kmh.len() + unit_k.len() + 2),
        spec_opt(spec_one_of(s, p3 + speed_kmh.len() + unit_k.len() + 2, mode_letters()), p3 + speed_kmh.len() + unit_k.len() + 2) matches Ok((q, m))
            && q == p3 + speed_kmh.len() + unit_k.len() + 2 + mode.len() && opt_char(m) == mode_value(mode),
        spec_char(s, p3 + speed_kmh.len() + unit_k.len() + 2 + mode.len(), 42, true) == Ok::<int, ParseError>(
            p3 + speed_kmh.len() + unit_k.len() + 3 + mode.len(),
        ),
{
    crate::framing::lemma_star_set();
    let t8 = mode + seq![42u8] + rest;
    let t7 = unit_k + seq![44u8] + t8;
    // The speed in km/h.
    reveal(spec_speed_until);
    if speed_kmh.len() > 0 {
        lemma_speed_bytes(speed_kmh);
    }
    lemma_split(s, p3, speed_kmh, 44, t7);
    if speed_kmh.len() == 0 {
        assert(s.subrange(p3, p3) =~= Seq::<u8>::empty());
        lemma_find_byte(Seq::<u8>::empty(), 0, 46);
    }
    let p4: int = p3 + speed_kmh.len();
    let p5: int = p4 + 1;
    // `K` or nothing, then the comma before the mode.
    let u = s.subrange(p5, s.len() as int);
    assert(t7 =~= unit_k + seq![44u8] + t8);
    assert(u == t7);
    assert(t7.len() == unit_k.len() + 1 + t8.len());
    assert(t8.len() == mode.len() + 1 + rest.len());
    assert(s[p5] == u[0]);
    assert(s[p5 + 1] == u[1]);
    let p6: int = p5 + unit_k.len();
    assert(s[p6] == 44) by {
        assert(s[p6] == u[unit_k.len() as int]);
    }
    let p7: int = p6 + 1;
    assert(spec_opt_pos(spec_char(s, p5, 75, true), p5) == Ok::<int, ParseError>(p6));
    assert(spec_opt_pos(spec_char(s, p6, 44, true), p6) == Ok::<int, ParseError>(p7));
    // The mode and the `*`.
    assert(s[p7] == u[unit_k.len() as int + 1]);
    assert(u[unit_k.len() as int + 1] == t8[0]);
    if mode.len() > 0 {
        assert(s[p7 + 1] == u[unit_k.len() as int + 2]);
        assert(u[unit_k.len() as int + 2] == t8[1]);
        assert(spec_one_of(s, p7, mode_letters()) == Ok::<(int, u8), ParseError>((p7 + 1, mode[0])));
    } else {
        assert(spec_one_of(s, p7, mode_letters()) == Err::<(int, u8), ParseError>(
            ParseError::Invalid,
        ));
    }
    assert(opt_char(spec_opt(spec_one_of(s, p7, mode_letters()), p7).unwrap().1) == mode_value(mode));
    assert(s[p7 + mode.len()] == 42) by {
        assert(s[p7 + mode.len()] == u[unit_k.len() as int + 1 + mode.len()]);
    }
}

/// Where the input from `p` on is `a` and then `b`, the input from `p + |a|` on
/// is `b`.
pub proof fn lemma_shift(s: Seq<u8>, p: int, a: Seq<u8>, b: Seq<u8>)
    requires
        0 <= p <= s.len(),
        s.subrange(p, s.len() as int) == a + b,
    ensures
        p + a.len() <= s.len(),
        s.subrange(p, p + a.len()) == a,
        s.subrange(p + a.len(), s.len() as int) == b,
{
    let u = s.subrange(p, s.len() as int);
    assert(u.len() == a.len() + b.len());
    assert forall|j: int| 0 <= j < a.len() implies s.subrange(p, p + a.len())[j] == a[j] by {
        assert(s[p + j] == u[j]);
    }
    assert(s.subrange(p, p + a.len()) =~= a);
    assert forall|j: int| 0 <= j < b.len() implies s.subrange(p + a.len(), s.len() as int)[j]
        == b[j] by {
        assert(s[p + a.len() + j] == u[a.len() + j]);
    }
    assert(s.subrange(p + a.len(), s.len() as int) =~= b);
}

/// A coordinate field: `n` bytes of degrees as a `u8`, then the minutes as a
/// decimal number.
pub open spec fn coordinate_field(c: Seq<u8>, n: int) -> bool {
    &&& c.len() >= n
    &&& spec_parse_uint(c.take(n), 0xff) is Some
    &&& spec_is_float_literal(c.skip(n))
}

/// The four fields of a position: latitude, `N` or `S`, longitude, `E` or `W`.
pub open spec fn position_fields(lat: Seq<u8>, ns: Seq<u8>, lon: Seq<u8>, ew: Seq<u8>) -> bool {
    &&& coordinate_field(lat, 2)
    &&& (ns == seq![78u8] || ns == seq![83u8])
    &&& coordinate_field(lon, 3)
    &&& (ew == seq![69u8] || ew == seq![87u8])
}

/// The position the four fields give.
pub open spec fn position_value(lat: Seq<u8>, ns: Seq<u8>, lon: Seq<u8>, ew: Seq<u8>) -> SpecGpsPosition {
    SpecGpsPosition {
        lat_deg: spec_parse_uint(lat.take(2), 0xff).unwrap() as u8,
        lat_min: lat.skip(2),
        lat_dir: spec_latitude_direction(ns[0] as char).unwrap(),
        lon_deg: spec_parse_uint(lon.take(3), 0xff).unwrap() as u8,
        lon_min: lon.skip(3),
        lon_dir: spec_longitude_direction(ew[0] as char).unwrap(),
    }
}

/// A coordinate field standing before a comma.
proof fn lemma_coordinate(s: Seq<u8>, p: int, c: Seq<u8>, n: int, r: Seq<u8>)
    requires
        0 <= p <= s.len(),
        0 <= n,
        s.subrange(p, s.len() as int) == c + seq![44u8] + r,
        coordinate_field(c, n),
    ensures
        spec_fixed_uint(s, p, n, 0xff) == Ok::<(int, nat), ParseError>(
            (p + n, spec_parse_uint(c.take(n), 0xff).unwrap()),
        ),
        spec_float_until(s, p + n, 44, true) == Ok::<(int, Seq<u8>), ParseError>(
            (p + c.len(), c.skip(n)),
        ),
        spec_char(s, p + c.len(), 44, true) == Ok::<int, ParseError>(p + c.len() + 1),
        s.subrange(p + c.len() + 1, s.len() as int) == r,
{
    reveal(spec_fixed_uint);
    reveal(spec_float_until);
    let m = c.skip(n);
    assert(c =~= c.take(n) + m);
    assert(c + seq![44u8] + r =~= c.take(n) + (m + seq![44u8] + r));
    lemma_shift(s, p, c.take(n), m + seq![44u8] + r);
    lemma_float_star_free(m);
    lemma_split(s, p + n, m, 44, r);
}

/// A one-letter field standing before `r`.
proof fn lemma_letter(s: Seq<u8>, p: int, f: Seq<u8>, set: Seq<u8>, r: Seq<u8>)
    requires
        0 <= p <= s.len(),
        s.subrange(p, s.len() as int) == f + r,
        f.len() == 1,
        set.contains(f[0]),
    ensures
        spec_one_of(s, p, set) == Ok::<(int, u8), ParseError>((p + 1, f[0])),
        s.subrange(p + 1, s.len() as int) == r,
{
    lemma_shift(s, p, f, r);
    assert(s[p] == s.subrange(p, p + 1)[0]);
}

/// A comma standing before `r`.
proof fn lemma_comma(s: Seq<u8>, p: int, r: Seq<u8>, streaming: bool)
    requires
        0 <= p <= s.len(),
        s.subrange(p, s.len() as int) == seq![44u8] + r,
    ensures
        spec_char(s, p, 44, streaming) == Ok::<int, ParseError>(p + 1),
        s.subrange(p + 1, s.len() as int) == r,
{
    lemma_shift(s, p, seq![44u8], r);
    assert(s[p] == s.subrange(p, p + 1)[0]);
}

/// The four fields of a position, standing before `r`.
pub proof fn lemma_position(s: Seq<u8>, p: int, lat: Seq<u8>, ns: Seq<u8>, lon: Seq<u8>, ew: Seq<u8>, r: Seq<u8>)
    requires
        0 <= p <= s.len(),
        s.subrange(p, s.len() as int) == lat + seq![44u8] + ns + seq![44u8] + lon + seq![44u8] + ew + r,
        position_fields(lat, ns, lon, ew),
    ensures
        spec_gps_position(s, p) == Ok::<(int, SpecGpsPosition), ParseError>(
            (p + lat.len() + lon.len() + 5, position_value(lat, ns, lon, ew)),
        ),
        s.subrange(p + lat.len() + lon.len() + 5, s.len() as int) == r,
{
    reveal(spec_gps_position);
    crate::fields::admitted_directions_are_named(ns[0], ew[0]);
    let r3 = ew + r;
    let r2 = lon + seq![44u8] + r3;
    let r1 = ns + seq![44u8] + r2;
    assert(s.subrange(p, s.len() as int) =~= lat + seq![44u8] + r1);
    lemma_coordinate(s, p, lat, 2, r1);
    let q1 = p + lat.len() + 1;
    assert(r1 =~= ns + (seq![44u8] + r2));
    assert(lat_dirs().contains(ns[0])) by {
        if ns == seq![78u8] {
            assert(lat_dirs()[0] == ns[0]);
        } else {
            assert(lat_dirs()[1] == ns[0]);
        }
    }
    lemma_letter(s, q1, ns, lat_dirs(), seq![44u8] + r2);
    lemma_comma(s, q1 + 1, r2, true);
    let q2 = q1 + 2;
    lemma_coordinate(s, q2, lon, 3, r3);
    let q3 = q2 + lon.len() + 1;
    assert(lon_dirs().contains(ew[0])) by {
        if ew == seq![69u8] {
            assert(lon_dirs()[0] == ew[0]);
        } else {
            assert(lon_dirs()[1] == ew[0]);
        }
    }
    lemma_letter(s, q3, ew, lon_dirs(), r);
}

/// A field that is empty or one letter out of `set`.
pub open spec fn opt_letter_field(f: Seq<u8>, set: Seq<u8>) -> bool {
    f.len() == 0 || (f.len() == 1 && set.contains(f[0]))
}

pub open spec fn opt_letter(f: Seq<u8>) -> Option<u8> {
    if f.len() == 0 {
        None
    } else {
        Some(f[0])
    }
}

/// An optional letter standing before `r`, whose first byte is no letter of
/// `set`.
proof fn lemma_opt_letter(s: Seq<u8>, p: int, f: Seq<u8>, set: Seq<u8>, r: Seq<u8>)
    requires
        0 <= p <= s.len(),
        s.subrange(p, s.len() as int) == f + r,
        opt_letter_field(f, set),
        f.len() == 0 ==> r.len() > 0 && !set.contains(r[0]),
    ensures
        spec_opt(spec_one_of(s, p, set), p) == Ok::<(int, Option<u8>), ParseError>(
            (p + f.len(), opt_letter(f)),
        ),
        s.subrange(p + f.len(), s.len() as int) == r,
{
    if f.len() == 1 {
        lemma_letter(s, p, f, set, r);
    } else {
        assert(f + r =~= r);
        assert(s[p] == s.subrange(p, s.len() as int)[0]);
    }
}

/// The end of a GLL body from the comma after the position: time, status,
/// mode and `*`.
proof fn lemma_gll_tail(s: Seq<u8>, p1: int, time: Seq<u8>, status: Seq<u8>, mode: Seq<u8>, rest: Seq<u8>)
    requires
        0 <= p1 <= s.len(),
        s.subrange(p1, s.len() as int) == seq![44u8] + (time + seq![44u8] + (status + seq![44u8]
            + (mode + seq![42u8] + rest))),
        opt_time_field(time),
        opt_letter_field(status, status_letters()),
        opt_letter_field(mode, mode_letters()),
    ensures
        ({
            let p2 = p1 + 1;
            let p3 = p2 + time.len();
            let p4 = p3 + 1;
            let p5 = p4 + status.len();
            let p6 = p5 + 1;
            let p7 = p6 + mode.len();
            &&& spec_char(s, p1, 44, true) == Ok::<int, ParseError>(p2)
            &&& spec_opt(spec_complete(spec_utc_stamp(s, p2)), p2) == Ok::<
                (int, Option<GpsTime>),
                ParseError,
            >((p3, opt_time_value(time)))
            &&& spec_char(s, p3, 44, true) == Ok::<int, ParseError>(p4)
            &&& spec_opt(spec_one_of(s, p4, status_letters()), p4) == Ok::<
                (int, Option<u8>),
                ParseError,
            >((p5, opt_letter(status)))
            &&& spec_opt_pos(spec_char(s, p5, 44, true), p5) == Ok::<int, ParseError>(p6)
            &&& spec_opt(spec_one_of(s, p6, mode_letters()), p6) == Ok::<
                (int, Option<u8>),
                ParseError,
            >((p7, opt_letter(mode)))
            &&& spec_char(s, p7, 42, true) == Ok::<int, ParseError>(p7 + 1)
            &&& p7 + 1 + rest.len() == s.len()
        }),
{
    crate::framing::lemma_star_set();
    let r3 = mode + seq![42u8] + rest;
    let r2 = status + seq![44u8] + r3;
    let r1 = time + seq![44u8] + r2;
    lemma_comma(s, p1, r1, true);
    let p2 = p1 + 1;
    lemma_time_at(s, p2, time, r2);
    let p4 = p2 + time.len() + 1;
    assert(r2 =~= status + (seq![44u8] + r3));
    lemma_opt_letter(s, p4, status, status_letters(), seq![44u8] + r3);
    let p5 = p4 + status.len();
    lemma_comma(s, p5, r3, true);
    let p6 = p5 + 1;
    assert(r3 =~= mode + (seq![42u8] + rest));
    lemma_opt_letter(s, p6, mode, mode_letters(), seq![42u8] + rest);
    let p7 = p6 + mode.len();
    lemma_shift(s, p7, seq![42u8], rest);
    assert(s[p7] == s.subrange(p7, p7 + 1)[0]);
}

/// The status a GLL status field gives.
pub open spec fn gll_status_value(f: Seq<u8>) -> Option<crate::gll::GllStatus> {
    if f.len() == 0 {
        None
    } else {
        spec_gll_status(f[0] as char)
    }
}

/// A GLL sentence by its fields: the position (the four fields latitude,
/// `N`/`S`, longitude, `E`/`W`, or four empty fields), the time, the status
/// and the mode, separated by commas and ended by `*`. When the time is empty
/// or a time field, the status empty or one of `AVP` and the mode empty or one
/// of `ADEMSN`, the body reads as those values, and the rest is what follows
/// the `*`.
#[verifier::rlimit(100)]
pub proof fn gll_by_fields(
    position: Seq<u8>,
    lat: Seq<u8>,
    ns: Seq<u8>,
    lon: Seq<u8>,
    ew: Seq<u8>,
    time: Seq<u8>,
    status: Seq<u8>,
    mode: Seq<u8>,
    rest: Seq<u8>,
)
    requires
        position == seq![44u8, 44, 44] || (position == lat + seq![44u8] + ns + seq![44u8] + lon
            + seq![44u8] + ew && position_fields(lat, ns, lon, ew)),
        opt_time_field(time),
        opt_letter_field(status, status_letters()),
        opt_letter_field(mode, mode_letters()),
    ensures
        spec_gll(
            position + seq![44u8] + time + seq![44u8] + status + seq![44u8] + mode + seq![42u8]
                + rest,
        ) == Ok::<(int, SpecGllData), ParseError>(
            (
                (position.len() + time.len() + status.len() + mode.len() + 4) as int,
                SpecGllData {
                    position: if position == seq![44u8, 44, 44] {
                        None
                    } else {
                        Some(position_value(lat, ns, lon, ew))
                    },
                    time: opt_time_value(time),
                    status: gll_status_value(status),
                },
            ),
        ),
{
    let tail = seq![44u8] + (time + seq![44u8] + (status + seq![44u8] + (mode + seq![42u8]
        + rest)));
    let s = position + seq![44u8] + time + seq![44u8] + status + seq![44u8] + mode + seq![42u8]
        + rest;
    assert(s.subrange(0, s.len() as int) =~= position + tail);
    if position == seq![44u8, 44, 44] {
        assert(s[0] == 44 && s[1] == 44 && s[2] == 44);
        crate::streaming::lemma_comma_field(s, 0);
        lemma_shift(s, 0, position, tail);
        assert(spec_tag(s, 0, seq![44u8, 44, 44], false) == Ok::<int, ParseError>(3));
        assert(spec_gll_position(s) == Ok::<(int, Option<SpecGpsPosition>), ParseError>((3, None)));
    } else {
        assert(position + tail =~= lat + seq![44u8] + ns + seq![44u8] + lon + seq![44u8] + ew
            + tail);
        lemma_position(s, 0, lat, ns, lon, ew, tail);
        assert(position.len() == lat.len() + lon.len() + 5);
        assert(position != seq![44u8, 44, 44]);
        assert(spec_gll_position(s) == Ok::<(int, Option<SpecGpsPosition>), ParseError>(
            (position.len() as int, Some(position_value(lat, ns, lon, ew))),
        ));
    }
    lemma_shift(s, 0, position, tail);
    lemma_gll_tail(s, position.len() as int, time, status, mode, rest);
    if status.len() == 1 {
        crate::gll::admitted_gll_status_is_named(status[0]);
    }
}

/// A date field `ddmmyy`: day and month as two-byte `u8` numbers, the year as
/// a two-byte `u64` number.
pub open spec fn date_field(d: Seq<u8>) -> bool {
    &&& d.len() == 6
    &&& spec_parse_uint(d.subrange(0, 2), 0xff) is Some
    &&& spec_parse_uint(d.subrange(2, 4), 0xff) is Some
    &&& spec_parse_uint(d.subrange(4, 6), u64::MAX as nat) is Some
}

pub open spec fn opt_date_value(d: Seq<u8>) -> Option<GpsDate> {
    if d.len() == 0 {
        None
    } else {
        Some(
            GpsDate {
                day: spec_parse_uint(d.subrange(0, 2), 0xff).unwrap() as u8,
                month: spec_parse_uint(d.subrange(2, 4), 0xff).unwrap() as u8,
                year: spec_parse_uint(d.subrange(4, 6), u64::MAX as nat).unwrap() as u64,
            },
        )
    }
}

/// A date read at `p` where the input from `p` on is the field `d`, a comma,
/// and `r`.
proof fn lemma_date_at(s: Seq<u8>, p: int, d: Seq<u8>, r: Seq<u8>)
    requires
        0 <= p <= s.len(),
        s.subrange(p, s.len() as int) == d + seq![44u8] + r,
        d.len() == 0 || date_field(d),
        r.len() > 0,
    ensures
        spec_opt(spec_complete(spec_date(s, p)), p) == Ok::<(int, Option<GpsDate>), ParseError>(
            (p + d.len(), opt_date_value(d)),
        ),
        spec_char(s, p + d.len(), 44, true) == Ok::<int, ParseError>(p + d.len() + 1),
        s.subrange(p + d.len() + 1, s.len() as int) == r,
{
    let u = s.subrange(p, s.len() as int);
    assert(u.len() == d.len() + 1 + r.len());
    assert(d + seq![44u8] + r =~= d + (seq![44u8] + r));
    lemma_shift(s, p, d, seq![44u8] + r);
    lemma_comma(s, p + d.len(), r, true);
    if d.len() == 0 {
        assert(s[p] == u[0]);
        assert(s[p + 1] == u[1]);
        crate::streaming::lemma_comma_field(s, p);
    } else {
        reveal(spec_date);
        reveal(spec_fixed_uint);
        assert(s.subrange(p, p + 2) =~= d.subrange(0, 2));
        assert(s.subrange(p + 2, p + 4) =~= d.subrange(2, 4));
        assert(s.subrange(p + 4, p + 6) =~= d.subrange(4, 6));
    }
}

/// A speed field standing before a comma.
proof fn lemma_speed_field(s: Seq<u8>, p: int, k: Seq<u8>, r: Seq<u8>)
    requires
        0 <= p <= s.len(),
        s.subrange(p, s.len() as int) == k + seq![44u8] + r,
        speed_field(k),
    ensures
        spec_opt(spec_speed_until(s, p, 44, true), p) == Ok::<(int, Option<(u16, u8)>), ParseError>(
            (p + k.len(), speed_value(k)),
        ),
        spec_char(s, p + k.len(), 44, true) == Ok::<int, ParseError>(p + k.len() + 1),
        s.subrange(p + k.len() + 1, s.len() as int) == r,
{
    reveal(spec_speed_until);
    if k.len() > 0 {
        lemma_speed_bytes(k);
    }
    lemma_split(s, p, k, 44, r);
    if k.len() == 0 {
        assert(s.subrange(p, p) =~= Seq::<u8>::empty());
        lemma_find_byte(Seq::<u8>::empty(), 0, 46);
    }
}

pub open spec fn rm_status_value(f: Seq<u8>) -> Option<RmStatus> {
    if f.len() == 0 {
        None
    } else {
        spec_rm_status(f[0] as char)
    }
}

pub open spec fn direction_value(f: Seq<u8>) -> Option<LongitudeDirection> {
    if f.len() == 0 {
        None
    } else {
        spec_longitude_direction(f[0] as char)
    }
}

/// The fields of an RMC position: one empty field, or the four fields of a
/// position.
pub open spec fn rmc_position_fields(
    position: Seq<u8>,
    lat: Seq<u8>,
    ns: Seq<u8>,
    lon: Seq<u8>,
    ew: Seq<u8>,
) -> bool {
    position.len() == 0 || (position == lat + seq![44u8] + ns + seq![44u8] + lon + seq![44u8] + ew
        && position_fields(lat, ns, lon, ew))
}

proof fn lemma_rmc_fix_fields(
    s: Seq<u8>,
    time: Seq<u8>,
    status: Seq<u8>,
    position: Seq<u8>,
    lat: Seq<u8>,
    ns: Seq<u8>,
    lon: Seq<u8>,
    ew: Seq<u8>,
    r: Seq<u8>,
)
    requires
        s == time + seq![44u8] + (status + seq![44u8] + (position + (seq![44u8] + r))),
        r.len() > 0,
        opt_time_field(time),
        opt_letter_field(status, status_letters()),
        rmc_position_fields(position, lat, ns, lon, ew),
    ensures
        spec_rmc_fix(s) == Ok::<
            (int, (Option<GpsTime>, Option<u8>, Option<SpecGpsPosition>)),
            ParseError,
        >(
            (
                (time.len() + status.len() + position.len() + 2) as int,
                (
                    opt_time_value(time),
                    opt_letter(status),
                    if position.len() == 0 {
                        None
                    } else {
                        Some(position_value(lat, ns, lon, ew))
                    },
                ),
            ),
        ),
        s.subrange((time.len() + status.len() + position.len() + 2) as int, s.len() as int) == seq![
            44u8,
        ] + r,
{
    crate::framing::lemma_star_set();
    let r2 = position + (seq![44u8] + r);
    let r1 = status + seq![44u8] + r2;
    assert(s.subrange(0, s.len() as int) =~= time + seq![44u8] + r1);
    lemma_time_at(s, 0, time, r1);
    let p2: int = time.len() as int + 1;
    assert(r1 =~= status + (seq![44u8] + r2));
    lemma_opt_letter(s, p2, status, status_letters(), seq![44u8] + r2);
    let p3: int = p2 + status.len();
    lemma_comma(s, p3, r2, true);
    let p4: int = p3 + 1;
    if position.len() == 0 {
        assert(r2 =~= seq![44u8] + r);
        let u = s.subrange(p4, s.len() as int);
        assert(s[p4] == u[0]);
        assert(s[p4 + 1] == u[1]);
        crate::streaming::lemma_comma_field(s, p4);
    } else {
        assert(r2 =~= lat + seq![44u8] + ns + seq![44u8] + lon + seq![44u8] + ew + (seq![44u8]
            + r));
        lemma_position(s, p4, lat, ns, lon, ew, seq![44u8] + r);
    }
    lemma_shift(s, p4, position, seq![44u8] + r);
}

proof fn lemma_rmc_course_fields(
    s: Seq<u8>,
    p: int,
    speed: Seq<u8>,
    heading: Seq<u8>,
    date: Seq<u8>,
    r: Seq<u8>,
)
    requires
        0 <= p <= s.len(),
        s.subrange(p, s.len() as int) == seq![44u8] + (speed + seq![44u8] + (heading + seq![44u8]
            + (date + (seq![44u8] + r)))),
        r.len() > 0,
        speed_field(speed),
        float_field(heading),
        date.len() == 0 || date_field(date),
    ensures
        spec_rmc_course(s, p) == Ok::<
            (int, (Option<(u16, u8)>, Option<Seq<u8>>, Option<GpsDate>)),
            ParseError,
        >(
            (
                p + speed.len() + heading.len() + date.len() + 3,
                (speed_value(speed), float_value(heading), opt_date_value(date)),
            ),
        ),
        s.subrange(p + speed.len() + heading.len() + date.len() + 3, s.len() as int) == seq![
            44u8,
        ] + r,
{
    let r2 = date + (seq![44u8] + r);
    let r1 = heading + seq![44u8] + r2;
    let r0 = speed + seq![44u8] + r1;
    lemma_comma(s, p, r0, true);
    lemma_speed_field(s, p + 1, speed, r1);
    let p3 = p + 1 + speed.len() + 1;
    lemma_float_field(s, p3, heading, r2);
    let p5 = p3 + heading.len() + 1;
    assert(r2 =~= date + seq![44u8] + r);
    lemma_date_at(s, p5, date, r);
    lemma_shift(s, p5, date, seq![44u8] + r);
}

proof fn lemma_rmc_variation_fields(
    s: Seq<u8>,
    p: int,
    variation: Seq<u8>,
    direction: Seq<u8>,
    extra: Seq<u8>,
    rest: Seq<u8>,
)
    requires
        0 <= p <= s.len(),
        s.subrange(p, s.len() as int) == seq![44u8] + (variation + seq![44u8] + (direction + (extra
            + seq![42u8] + rest))),
        float_field(variation),
        opt_letter_field(direction, lon_dirs()),
        !extra.contains(42),
        direction.len() == 0 && extra.len() > 0 ==> !lon_dirs().contains(extra[0]),
    ensures
        spec_rmc_variation(s, p) == Ok::<(int, (Option<Seq<u8>>, Option<u8>)), ParseError>(
            (
                p + variation.len() + direction.len() + extra.len() + 3,
                (float_value(variation), opt_letter(direction)),
            ),
        ),
        p + variation.len() + direction.len() + extra.len() + 3 + rest.len() == s.len(),
{
    crate::framing::lemma_star_set();
    let r2 = extra + seq![42u8] + rest;
    let r1 = direction + r2;
    let r0 = variation + seq![44u8] + r1;
    lemma_comma(s, p, r0, true);
    lemma_float_field(s, p + 1, variation, r1);
    let p3 = p + 1 + variation.len() + 1;
    if direction.len() == 0 {
        if extra.len() == 0 {
            assert(r2[0] == 42);
        } else {
            assert(r2[0] == extra[0]);
        }
    }
    lemma_opt_letter(s, p3, direction, lon_dirs(), r2);
    let p4 = p3 + direction.len();
    assert forall|j: int| 0 <= j < extra.len() implies extra[j] != 42 by {
        if extra[j] == 42 {
            assert(extra.contains(42));
        }
    }
    lemma_split(s, p4, extra, 42, rest);
}

/// The fields of an RMC body, grouped as its readers take them.
proof fn lemma_rmc_layout(
    time: Seq<u8>,
    status: Seq<u8>,
    position: Seq<u8>,
    speed: Seq<u8>,
    heading: Seq<u8>,
    date: Seq<u8>,
    variation: Seq<u8>,
    direction: Seq<u8>,
    extra: Seq<u8>,
    rest: Seq<u8>,
)
    ensures
        time + seq![44u8] + status + seq![44u8] + position + seq![44u8] + speed + seq![44u8]
            + heading + seq![44u8] + date + seq![44u8] + variation + seq![44u8] + direction + extra
            + seq![42u8] + rest == time + seq![44u8] + (status + seq![44u8] + (position + (seq![
            44u8,
        ] + (speed + seq![44u8] + (heading + seq![44u8] + (date + (seq![44u8] + (variation
            + seq![44u8] + (direction + (extra + seq![42u8] + rest)))))))))),
{
    assert(time + seq![44u8] + status + seq![44u8] + position + seq![44u8] + speed + seq![44u8]
        + heading + seq![44u8] + date + seq![44u8] + variation + seq![44u8] + direction + extra
        + seq![42u8] + rest =~= time + seq![44u8] + (status + seq![44u8] + (position + (seq![
        44u8,
    ] + (speed + seq![44u8] + (heading + seq![44u8] + (date + (seq![44u8] + (variation
        + seq![44u8] + (direction + (extra + seq![42u8] + rest)))))))))));
}

/// An RMC sentence by its fields: time, status, position (one empty field, or
/// the four fields latitude, `N`/`S`, longitude, `E`/`W`), speed, heading,
/// date, magnetic variation, its direction, then any further bytes without a
/// `*` (some receivers add fields there), and `*`. When each field is empty or
/// of its kind (a further byte right after an empty direction being no `E` or
/// `W`), the body reads as those values, and the rest is what follows the `*`.
#[verifier::rlimit(100)]
pub proof fn rmc_by_fields(
    time: Seq<u8>,
    status: Seq<u8>,
    position: Seq<u8>,
    lat: Seq<u8>,
    ns: Seq<u8>,
    lon: Seq<u8>,
    ew: Seq<u8>,
    speed: Seq<u8>,
    heading: Seq<u8>,
    date: Seq<u8>,
    variation: Seq<u8>,
    direction: Seq<u8>,
    extra: Seq<u8>,
    rest: Seq<u8>,
)
    requires
        opt_time_field(time),
        opt_letter_field(status, status_letters()),
        rmc_position_fields(position, lat, ns, lon, ew),
        speed_field(speed),
        float_field(heading),
        date.len() == 0 || date_field(date),
        float_field(variation),
        opt_letter_field(direction, lon_dirs()),
        !extra.contains(42),
        direction.len() == 0 && extra.len() > 0 ==> !lon_dirs().contains(extra[0]),
    ensures
        spec_rmc(
            time + seq![44u8] + status + seq![44u8] + position + seq![44u8] + speed + seq![44u8]
                + heading + seq![44u8] + date + seq![44u8] + variation + seq![44u8] + direction
                + extra + seq![42u8] + rest,
        ) == Ok::<(int, SpecRmcData), ParseError>(
            (
                (time.len() + status.len() + position.len() + speed.len() + heading.len()
                    + date.len() + variation.len() + direction.len() + extra.len() + 8) as int,
                SpecRmcData {
                    time: opt_time_value(time),
                    status: rm_status_value(status),
                    position: if position.len() == 0 {
                        None
                    } else {
                        Some(position_value(lat, ns, lon, ew))
                    },
                    speed_knots: speed_value(speed),
                    heading: float_value(heading),
                    date: opt_date_value(date),
                    magnetic_variation: float_value(variation),
                    magnetic_direction: direction_value(direction),
                },
            ),
        ),
{
    let tail = extra + seq![42u8] + rest;
    let rv = variation + seq![44u8] + (direction + tail);
    let rc = speed + seq![44u8] + (heading + seq![44u8] + (date + (seq![44u8] + rv)));
    let s = time + seq![44u8] + status + seq![44u8] + position + seq![44u8] + speed + seq![44u8]
        + heading + seq![44u8] + date + seq![44u8] + variation + seq![44u8] + direction + extra
        + seq![42u8] + rest;
    lemma_rmc_layout(
        time,
        status,
        position,
        speed,
        heading,
        date,
        variation,
        direction,
        extra,
        rest,
    );
    lemma_rmc_fix_fields(s, time, status, position, lat, ns, lon, ew, rc);
    let p1: int = (time.len() + status.len() + position.len() + 2) as int;
    lemma_rmc_course_fields(s, p1, speed, heading, date, rv);
    let p2: int = p1 + speed.len() + heading.len() + date.len() + 3;
    lemma_rmc_variation_fields(s, p2, variation, direction, extra, rest);
    if status.len() == 1 && direction.len() == 1 {
        crate::rmc::admitted_rmc_letters_are_named(status[0], direction[0]);
    } else if status.len() == 1 {
        crate::rmc::admitted_rmc_letters_are_named(status[0], 69);
    } else if direction.len() == 1 {
        crate::rmc::admitted_rmc_letters_are_named(65, direction[0]);
    }
}

/// An optional byte `c` standing before `r`.
proof fn lemma_opt_byte(s: Seq<u8>, p: int, f: Seq<u8>, c: u8, r: Seq<u8>)
    requires
        0 <= p <= s.len(),
        s.subrange(p, s.len() as int) == f + r,
        letter_field(f, c),
        f.len() == 0 ==> r.len() > 0 && r[0] != c,
    ensures
        spec_opt_pos(spec_char(s, p, c, true), p) == Ok::<int, ParseError>(p + f.len()),
        s.subrange(p + f.len(), s.len() as int) == r,
{
    lemma_shift(s, p, f, r);
    if f.len() == 1 {
        assert(s[p] == s.subrange(p, p + 1)[0]);
        assert(f[0] == c);
    } else {
        assert(f + r =~= r);
        assert(s[p] == s.subrange(p, s.len() as int)[0]);
    }
}

/// The end of a VTG body in all its forms: speed in km/h, a comma, `K` or
/// nothing, a comma or nothing, the mode or nothing, and `*`.
proof fn lemma_vtg_ending(
    s: Seq<u8>,
    p3: int,
    speed_kmh: Seq<u8>,
    unit_k: Seq<u8>,
    mode_sep: Seq<u8>,
    mode: Seq<u8>,
    rest: Seq<u8>,
)
    requires
        0 <= p3 <= s.len(),
        s.subrange(p3, s.len() as int) == speed_kmh + seq![44u8] + (unit_k + (mode_sep + (mode
            + seq![42u8] + rest))),
        speed_field(speed_kmh),
        letter_field(unit_k, 75),
        letter_field(mode_sep, 44),
        mode_field(mode),
    ensures
        ({
            let p4 = p3 + speed_kmh.len();
            let p5 = p4 + 1;
            let p6 = p5 + unit_k.len();
            let p7 = p6 + mode_sep.len();
            let p8 = p7 + mode.len();
            &&& spec_opt(spec_speed_until(s, p3, 44, true), p3) == Ok::<
                (int, Option<(u16, u8)>),
                ParseError,
            >((p4, speed_value(speed_kmh)))
            &&& spec_char(s, p4, 44, true) == Ok::<int, ParseError>(p5)
            &&& spec_opt_pos(spec_char(s, p5, 75, true), p5) == Ok::<int, ParseError>(p6)
            &&& spec_opt_pos(spec_char(s, p6, 44, true), p6) == Ok::<int, ParseError>(p7)
            &&& spec_opt(spec_one_of(s, p7, mode_letters()), p7) == Ok::<
                (int, Option<u8>),
                ParseError,
            >((p8, opt_letter(mode)))
            &&& spec_char(s, p8, 42, true) == Ok::<int, ParseError>(p8 + 1)
            &&& p8 + 1 + rest.len() == s.len()
        }),
{
    crate::framing::lemma_star_set();
    let t3 = mode + seq![42u8] + rest;
    let t2 = mode_sep + t3;
    let t1 = unit_k + t2;
    lemma_speed_field(s, p3, speed_kmh, t1);
    let p5 = p3 + speed_kmh.len() + 1;
    assert(mode_letters()[0] == 65);
    if unit_k.len() == 0 {
        if mode_sep.len() > 0 {
            assert(t1[0] == mode_sep[0]);
        } else if mode.len() > 0 {
            assert(t1[0] == mode[0]);
            assert(mode[0] != 75) by {
                let i = choose|i: int| 0 <= i < mode_letters().len() && mode_letters()[i]
                    == mode[0];
            }
        } else {
            assert(t1[0] == 42);
        }
    }
    lemma_opt_byte(s, p5, unit_k, 75, t2);
    let p6 = p5 + unit_k.len();
    if mode_sep.len() == 0 {
        if mode.len() > 0 {
            assert(t2[0] == mode[0]);
            assert(mode[0] != 44) by {
                let i = choose|i: int| 0 <= i < mode_letters().len() && mode_letters()[i]
                    == mode[0];
            }
        } else {
            assert(t2[0] == 42);
        }
    }
    lemma_opt_byte(s, p6, mode_sep, 44, t3);
    let p7 = p6 + mode_sep.len();
    assert(t3 =~= mode + (seq![42u8] + rest));
    if mode.len() == 0 {
        assert((seq![42u8] + rest)[0] == 42);
    }
    lemma_opt_letter(s, p7, mode, mode_letters(), seq![42u8] + rest);
    let p8 = p7 + mode.len();
    lemma_shift(s, p8, seq![42u8], rest);
    assert(s[p8] == s.subrange(p8, p8 + 1)[0]);
}

/// A VTG sentence by its fields, in every form of its ending: true bearing,
/// `T` or nothing, magnetic bearing, `M` or nothing, speed in knots, `N` or
/// nothing, speed in km/h, `K` or nothing, then an optional comma and an
/// optional mode before `*` (so `...,K*`, `...,K,A*`, `...,,A*` and `...,*`).
/// When each field is empty or of its kind, the body reads as those values,
/// and the rest is what follows the `*`. The true bearing in particular is
/// always the value of the first field.
#[verifier::rlimit(100)]
pub proof fn vtg_by_fields_any_ending(
    bearing_true: Seq<u8>,
    unit_t: Seq<u8>,
    bearing_magnetic: Seq<u8>,
    unit_m: Seq<u8>,
    speed_knots: Seq<u8>,
    unit_n: Seq<u8>,
    speed_kmh: Seq<u8>,
    unit_k: Seq<u8>,
    mode_sep: Seq<u8>,
    mode: Seq<u8>,
    rest: Seq<u8>,
)
    requires
        float_field(bearing_true),
        letter_field(unit_t, 84),
        float_field(bearing_magnetic),
        letter_field(unit_m, 77),
        float_field(speed_knots),
        letter_field(unit_n, 78),
        speed_field(speed_kmh),
        letter_field(unit_k, 75),
        letter_field(mode_sep, 44),
        mode_field(mode),
    ensures
        spec_vtg(
            bearing_true + seq![44u8] + unit_t + seq![44u8] + bearing_magnetic + seq![44u8] + unit_m
                + seq![44u8] + speed_knots + seq![44u8] + unit_n + seq![44u8] + speed_kmh
                + seq![44u8] + unit_k + mode_sep + mode + seq![42u8] + rest,
        ) == Ok::<(int, SpecVtgData), ParseError>(
            (
                (bearing_true.len() + unit_t.len() + bearing_magnetic.len() + unit_m.len()
                    + speed_knots.len() + unit_n.len() + speed_kmh.len() + unit_k.len()
                    + mode_sep.len() + mode.len() + 8) as int,
                SpecVtgData {
                    bearing_true: float_value(bearing_true),
                    bearing_magnetic: float_value(bearing_magnetic),
                    speed_knots: float_value(speed_knots),
                    speed_kmh: speed_value(speed_kmh),
                    mode: mode_value(mode),
                },
            ),
        ),
{
    let t6 = speed_kmh + seq![44u8] + (unit_k + (mode_sep + (mode + seq![42u8] + rest)));
    let t4 = speed_knots + seq![44u8] + unit_n + seq![44u8] + t6;
    let t2 = bearing_magnetic + seq![44u8] + unit_m + seq![44u8] + t4;
    let s = bearing_true + seq![44u8] + unit_t + seq![44u8] + t2;
    lemma_vtg_layout(
        bearing_true,
        unit_t,
        bearing_magnetic,
        unit_m,
        speed_knots,
        unit_n,
        speed_kmh,
        unit_k,
        mode_sep,
        mode,
        rest,
    );
    assert(s.subrange(0, s.len() as int) =~= s);
    assert(opt_char(opt_letter(mode)) == mode_value(mode));
    lemma_measure_field(s, 0, bearing_true, unit_t, 84, t2);
    let p1: int = bearing_true.len() as int + unit_t.len() + 2;
    lemma_measure_field(s, p1, bearing_magnetic, unit_m, 77, t4);
    let p2: int = p1 + bearing_magnetic.len() + unit_m.len() + 2;
    lemma_measure_field(s, p2, speed_knots, unit_n, 78, t6);
    let p3: int = p2 + speed_knots.len() + unit_n.len() + 2;
    lemma_vtg_ending(s, p3, speed_kmh, unit_k, mode_sep, mode, rest);
}

/// The fields of a VTG body, grouped as its readers take them.
proof fn lemma_vtg_layout(
    bearing_true: Seq<u8>,
    unit_t: Seq<u8>,
    bearing_magnetic: Seq<u8>,
    unit_m: Seq<u8>,
    speed_knots: Seq<u8>,
    unit_n: Seq<u8>,
    speed_kmh: Seq<u8>,
    unit_k: Seq<u8>,
    mode_sep: Seq<u8>,
    mode: Seq<u8>,
    rest: Seq<u8>,
)
    ensures
        bearing_true + seq![44u8] + unit_t + seq![44u8] + bearing_magnetic + seq![44u8] + unit_m
            + seq![44u8] + speed_knots + seq![44u8] + unit_n + seq![44u8] + speed_kmh + seq![44u8]
            + unit_k + mode_sep + mode + seq![42u8] + rest == bearing_true + seq![44u8] + unit_t
            + seq![44u8] + (bearing_magnetic + seq![44u8] + unit_m + seq![44u8] + (speed_knots
            + seq![44u8] + unit_n + seq![44u8] + (speed_kmh + seq![44u8] + (unit_k + (mode_sep + (
        mode + seq![42u8] + rest)))))),
{
    assert(bearing_true + seq![44u8] + unit_t + seq![44u8] + bearing_magnetic + seq![44u8]
        + unit_m + seq![44u8] + speed_knots + seq![44u8] + unit_n + seq![44u8] + speed_kmh
        + seq![44u8] + unit_k + mode_sep + mode + seq![42u8] + rest =~= bearing_true + seq![44u8]
        + unit_t + seq![44u8] + (bearing_magnetic + seq![44u8] + unit_m + seq![44u8] + (
    speed_knots + seq![44u8] + unit_n + seq![44u8] + (speed_kmh + seq![44u8] + (unit_k + (
    mode_sep + (mode + seq![42u8] + rest)))))));
}

/// The end of a GLL body in all its forms: from the comma after the position,
/// the time, a comma, the status or nothing, a comma or nothing, the mode or
/// nothing, and `*`.
proof fn lemma_gll_ending(
    s: Seq<u8>,
    p1: int,
    time: Seq<u8>,
    status: Seq<u8>,
    mode_sep: Seq<u8>,
    mode: Seq<u8>,
    rest: Seq<u8>,
)
    requires
        0 <= p1 <= s.len(),
        s.subrange(p1, s.len() as int) == seq![44u8] + (time + seq![44u8] + (status + (mode_sep
            + (mode + seq![42u8] + rest)))),
        opt_time_field(time),
        opt_letter_field(status, status_letters()),
        letter_field(mode_sep, 44),
        opt_letter_field(mode, mode_letters()),
        status.len() == 0 && mode_sep.len() == 0 && mode.len() > 0 ==> !status_letters().contains(
            mode[0],
        ),
    ensures
        ({
            let p2 = p1 + 1;
            let p3 = p2 + time.len();
            let p4 = p3 + 1;
            let p5 = p4 + status.len();
            let p6 = p5 + mode_sep.len();
            let p7 = p6 + mode.len();
            &&& spec_char(s, p1, 44, true) == Ok::<int, ParseError>(p2)
            &&& spec_opt(spec_complete(spec_utc_stamp(s, p2)), p2) == Ok::<
                (int, Option<GpsTime>),
                ParseError,
            >((p3, opt_time_value(time)))
            &&& spec_char(s, p3, 44, true) == Ok::<int, ParseError>(p4)
            &&& spec_opt(spec_one_of(s, p4, status_letters()), p4) == Ok::<
                (int, Option<u8>),
                ParseError,
            >((p5, opt_letter(status)))
            &&& spec_opt_pos(spec_char(s, p5, 44, true), p5) == Ok::<int, ParseError>(p6)
            &&& spec_opt(spec_one_of(s, p6, mode_letters()), p6) == Ok::<
                (int, Option<u8>),
                ParseError,
            >((p7, opt_letter(mode)))
            &&& spec_char(s, p7, 42, true) == Ok::<int, ParseError>(p7 + 1)
            &&& p7 + 1 + rest.len() == s.len()
        }),
{
    crate::framing::lemma_star_set();
    let r3 = mode + seq![42u8] + rest;
    let r2b = mode_sep + r3;
    let r2 = status + r2b;
    let r1 = time + seq![44u8] + r2;
    lemma_comma(s, p1, r1, true);
    let p2 = p1 + 1;
    lemma_time_at(s, p2, time, r2);
    let p4 = p2 + time.len() + 1;
    if status.len() == 0 {
        if mode_sep.len() > 0 {
            assert(r2b[0] == mode_sep[0]);
            assert(!status_letters().contains(44)) by {
                if status_letters().contains(44) {
                    let i = choose|i: int| 0 <= i < status_letters().len() && status_letters()[i]
                        == 44;
                }
            }
        } else if mode.len() > 0 {
            assert(r2b[0] == mode[0]);
        } else {
            assert(r2b[0] == 42);
        }
    }
    lemma_opt_letter(s, p4, status, status_letters(), r2b);
    let p5 = p4 + status.len();
    if mode_sep.len() == 0 {
        if mode.len() > 0 {
            assert(r3[0] == mode[0]);
            assert(mode[0] != 44) by {
                let i = choose|i: int| 0 <= i < mode_letters().len() && mode_letters()[i]
                    == mode[0];
            }
        } else {
            assert(r3[0] == 42);
        }
    }
    lemma_opt_byte(s, p5, mode_sep, 44, r3);
    let p6 = p5 + mode_sep.len();
    assert(r3 =~= mode + (seq![42u8] + rest));
    if mode.len() == 0 {
        assert((seq![42u8] + rest)[0] == 42);
    }
    lemma_opt_letter(s, p6, mode, mode_letters(), seq![42u8] + rest);
    let p7 = p6 + mode.len();
    lemma_shift(s, p7, seq![42u8], rest);
    assert(s[p7] == s.subrange(p7, p7 + 1)[0]);
}

/// A GLL sentence by its fields, in every form of its ending: the position
/// (four fields, or four empty ones), the time, the status or nothing, then an
/// optional comma and an optional mode before `*` (so `...,A,A*`, `...,A*`,
/// `...,V,*`). When each field is empty or of its kind (and a mode right after
/// an empty status with no comma between is no status letter), the body reads
/// as those values, and the rest is what follows the `*`.
#[verifier::rlimit(100)]
pub proof fn gll_by_fields_any_ending(
    position: Seq<u8>,
    lat: Seq<u8>,
    ns: Seq<u8>,
    lon: Seq<u8>,
    ew: Seq<u8>,
    time: Seq<u8>,
    status: Seq<u8>,
    mode_sep: Seq<u8>,
    mode: Seq<u8>,
    rest: Seq<u8>,
)
    requires
        position == seq![44u8, 44, 44] || (position == lat + seq![44u8] + ns + seq![44u8] + lon
            + seq![44u8] + ew && position_fields(lat, ns, lon, ew)),
        opt_time_field(time),
        opt_letter_field(status, status_letters()),
        letter_field(mode_sep, 44),
        opt_letter_field(mode, mode_letters()),
        status.len() == 0 && mode_sep.len() == 0 && mode.len() > 0 ==> !status_letters().contains(
            mode[0],
        ),
    ensures
        spec_gll(
            position + seq![44u8] + time + seq![44u8] + status + mode_sep + mode + seq![42u8] + rest,
        ) == Ok::<(int, SpecGllData), ParseError>(
            (
                (position.len() + time.len() + status.len() + mode_sep.len() + mode.len()
                    + 3) as int,
                SpecGllData {
                    position: if position == seq![44u8, 44, 44] {
                        None
                    } else {
                        Some(position_value(lat, ns, lon, ew))
                    },
                    time: opt_time_value(time),
                    status: gll_status_value(status),
                },
            ),
        ),
{
    let tail = seq![44u8] + (time + seq![44u8] + (status + (mode_sep + (mode + seq![42u8]
        + rest))));
    let s = position + seq![44u8] + time + seq![44u8] + status + mode_sep + mode + seq![42u8]
        + rest;
    assert(s.subrange(0, s.len() as int) =~= position + tail);
    if position == seq![44u8, 44, 44] {
        assert(s[0] == 44 && s[1] == 44 && s[2] == 44);
        crate::streaming::lemma_comma_field(s, 0);
        lemma_shift(s, 0, position, tail);
        assert(spec_tag(s, 0, seq![44u8, 44, 44], false) == Ok::<int, ParseError>(3));
        assert(spec_gll_position(s) == Ok::<(int, Option<SpecGpsPosition>), ParseError>((3, None)));
    } else {
        assert(position + tail =~= lat + seq![44u8] + ns + seq![44u8] + lon + seq![44u8] + ew
            + tail);
        lemma_position(s, 0, lat, ns, lon, ew, tail);
        assert(position.len() == lat.len() + lon.len() + 5);
        assert(position != seq![44u8, 44, 44]);
        assert(spec_gll_position(s) == Ok::<(int, Option<SpecGpsPosition>), ParseError>(
            (position.len() as int, Some(position_value(lat, ns, lon, ew))),
        ));
    }
    lemma_shift(s, 0, position, tail);
    lemma_gll_ending(s, position.len() as int, time, status, mode_sep, mode, rest);
    if status.len() == 1 {
        crate::gll::admitted_gll_status_is_named(status[0]);
    }
}

} // verus!
