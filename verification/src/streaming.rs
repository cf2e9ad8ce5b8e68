use vstd::prelude::*;
use crate::error::ParseError;
use crate::fields::{
    spec_date, spec_fixed_uint, spec_float_until, spec_gps_position, spec_num, spec_speed_until,
    spec_uint_until, spec_utc_stamp,
};
use crate::number::{all_digits, unsigned_body};
use crate::gll::{status_letters, mode_letters, spec_gll, spec_gll_position};
use crate::rmc::{spec_rmc, spec_rmc_course, spec_rmc_fix, spec_rmc_variation};
use crate::vtg::{spec_measure, spec_unit_sep, spec_vtg};
use crate::txt::spec_txt;
use crate::zda::spec_zda;
use crate::scan::{
    find_byte, lemma_find_byte, lemma_find_byte_at, spec_char, spec_complete, spec_one_of,
    spec_opt, spec_opt_pos, spec_tag, spec_take, spec_take_until,
};

verus! {

/// The reader came to a decision: it matched or it did not, and did not ask
/// for more input.
pub open spec fn settled<T>(r: Result<T, ParseError>) -> bool {
    !(r matches Err(ParseError::Incomplete))
}

pub proof fn lemma_prefix_subrange(s: Seq<u8>, t: Seq<u8>, p: int, q: int)
    requires
        0 <= p <= q <= s.len(),
    ensures
        (s + t).subrange(p, q) == s.subrange(p, q),
{
    assert((s + t).subrange(p, q) =~= s.subrange(p, q));
}

pub proof fn lemma_find_byte_prefix(s: Seq<u8>, t: Seq<u8>, p: int, b: u8)
    requires
        0 <= p,
        find_byte(s, p, b) is Some,
    ensures
        find_byte(s + t, p, b) == find_byte(s, p, b),
{
    lemma_find_byte(s, p, b);
    let i = find_byte(s, p, b).unwrap();
    assert forall|j: int| p <= j < i implies (s + t)[j] != b by {
        assert((s + t)[j] == s[j]);
    }
    lemma_find_byte_at(s + t, p, b, i);
}

/// A streaming `take_until` that decided keeps its decision; a complete one
/// keeps a match.
pub proof fn lemma_take_until_prefix(s: Seq<u8>, t: Seq<u8>, p: int, b: u8, streaming: bool)
    requires
        0 <= p <= s.len(),
        if streaming {
            settled(spec_take_until(s, p, b, streaming))
        } else {
            spec_take_until(s, p, b, streaming) is Ok
        },
    ensures
        spec_take_until(s + t, p, b, streaming) == spec_take_until(s, p, b, streaming),
{
    lemma_find_byte_prefix(s, t, p, b);
}

pub proof fn lemma_char_prefix(s: Seq<u8>, t: Seq<u8>, p: int, c: u8, streaming: bool)
    requires
        0 <= p <= s.len(),
        if streaming {
            settled(spec_char(s, p, c, streaming))
        } else {
            spec_char(s, p, c, streaming) is Ok
        },
    ensures
        spec_char(s + t, p, c, streaming) == spec_char(s, p, c, streaming),
{
}

pub proof fn lemma_one_of_prefix(s: Seq<u8>, t: Seq<u8>, p: int, set: Seq<u8>)
    requires
        0 <= p <= s.len(),
        settled(spec_one_of(s, p, set)),
    ensures
        spec_one_of(s + t, p, set) == spec_one_of(s, p, set),
{
}

pub proof fn lemma_tag_prefix(s: Seq<u8>, t: Seq<u8>, p: int, w: Seq<u8>, streaming: bool)
    requires
        0 <= p <= s.len(),
        if streaming {
            settled(spec_tag(s, p, w, streaming))
        } else {
            spec_tag(s, p, w, streaming) is Ok
        },
    ensures
        spec_tag(s + t, p, w, streaming) == spec_tag(s, p, w, streaming),
{
    let st = s + t;
    if p + w.len() <= s.len() {
        lemma_prefix_subrange(s, t, p, p + w.len());
    } else {
        // What is at hand is shorter than `w` and already differs from it.
        let a = s.subrange(p, s.len() as int);
        let b = w.take(s.len() - p);
        if forall|k: int| 0 <= k < a.len() ==> a[k] == b[k] {
            assert(a =~= b);
        }
        let k = choose|k: int| 0 <= k < a.len() && a[k] != b[k];
        assert(a[k] == s[p + k]);
        assert(b[k] == w[k]);
        assert(st[p + k] == s[p + k]);
        if p + w.len() <= st.len() {
            assert(st.subrange(p, p + w.len())[k] == st[p + k]);
        } else {
            assert(st.subrange(p, st.len() as int)[k] == st[p + k]);
            assert(w.take(st.len() - p)[k] == w[k]);
        }
    }
}

pub proof fn lemma_fixed_uint_prefix(s: Seq<u8>, t: Seq<u8>, p: int, n: int, max: nat)
    requires
        0 <= p <= s.len(),
        0 <= n,
        settled(spec_fixed_uint(s, p, n, max)),
    ensures
        spec_fixed_uint(s + t, p, n, max) == spec_fixed_uint(s, p, n, max),
{
    reveal(spec_fixed_uint);
    if p + n <= s.len() {
        lemma_prefix_subrange(s, t, p, p + n);
    }
}

pub proof fn lemma_uint_until_prefix(
    s: Seq<u8>,
    t: Seq<u8>,
    p: int,
    b: u8,
    streaming: bool,
    max: nat,
)
    requires
        0 <= p <= s.len(),
        if streaming {
            settled(spec_uint_until(s, p, b, streaming, max))
        } else {
            spec_uint_until(s, p, b, streaming, max) is Ok
        },
    ensures
        spec_uint_until(s + t, p, b, streaming, max) == spec_uint_until(s, p, b, streaming, max),
{
    reveal(spec_uint_until);
    lemma_find_byte(s, p, b);
    lemma_take_until_prefix(s, t, p, b, streaming);
    if let Ok(q) = spec_take_until(s, p, b, streaming) {
        lemma_prefix_subrange(s, t, p, q);
    }
}

pub proof fn lemma_float_until_prefix(s: Seq<u8>, t: Seq<u8>, p: int, b: u8)
    requires
        0 <= p <= s.len(),
        settled(spec_float_until(s, p, b, true)),
    ensures
        spec_float_until(s + t, p, b, true) == spec_float_until(s, p, b, true),
{
    reveal(spec_float_until);
    lemma_find_byte(s, p, b);
    lemma_take_until_prefix(s, t, p, b, true);
    if let Ok(q) = spec_take_until(s, p, b, true) {
        lemma_prefix_subrange(s, t, p, q);
    }
}

pub proof fn lemma_speed_until_prefix(s: Seq<u8>, t: Seq<u8>, p: int, b: u8)
    requires
        0 <= p <= s.len(),
        settled(spec_speed_until(s, p, b, true)),
    ensures
        spec_speed_until(s + t, p, b, true) == spec_speed_until(s, p, b, true),
{
    reveal(spec_speed_until);
    lemma_find_byte(s, p, b);
    lemma_take_until_prefix(s, t, p, b, true);
    if let Ok(q) = spec_take_until(s, p, b, true) {
        lemma_prefix_subrange(s, t, p, q);
    }
}

/// The time-stamp reader is a streaming one: once it has decided, more input
/// does not change its result.
pub proof fn lemma_utc_stamp_prefix(s: Seq<u8>, t: Seq<u8>, p: int)
    requires
        0 <= p <= s.len(),
        settled(spec_utc_stamp(s, p)),
    ensures
        spec_utc_stamp(s + t, p) == spec_utc_stamp(s, p),
{
    reveal(spec_utc_stamp);
    crate::framing::lemma_fixed_uint(s, p, 2, 0xff);
    lemma_fixed_uint_prefix(s, t, p, 2, 0xff);
    if let Ok((p1, _)) = spec_fixed_uint(s, p, 2, 0xff) {
        crate::framing::lemma_fixed_uint(s, p1, 2, 0xff);
        lemma_fixed_uint_prefix(s, t, p1, 2, 0xff);
        if let Ok((p2, _)) = spec_fixed_uint(s, p1, 2, 0xff) {
            crate::framing::lemma_fixed_uint(s, p2, 2, 0xff);
            lemma_fixed_uint_prefix(s, t, p2, 2, 0xff);
            if let Ok((p3, _)) = spec_fixed_uint(s, p2, 2, 0xff) {
                lemma_char_prefix(s, t, p3, 46, true);
                if let Ok(p4) = spec_char(s, p3, 46, true) {
                    lemma_find_byte(s, p4, 44);
                    lemma_take_until_prefix(s, t, p4, 44, true);
                    if let Ok(p5) = spec_take_until(s, p4, 44, true) {
                        lemma_prefix_subrange(s, t, p4, p5);
                    }
                }
            }
        }
    }
}

/// The date reader is a streaming one.
pub proof fn lemma_date_prefix(s: Seq<u8>, t: Seq<u8>, p: int)
    requires
        0 <= p <= s.len(),
        settled(spec_date(s, p)),
    ensures
        spec_date(s + t, p) == spec_date(s, p),
{
    reveal(spec_date);
    crate::framing::lemma_fixed_uint(s, p, 2, 0xff);
    lemma_fixed_uint_prefix(s, t, p, 2, 0xff);
    if let Ok((p1, _)) = spec_fixed_uint(s, p, 2, 0xff) {
        crate::framing::lemma_fixed_uint(s, p1, 2, 0xff);
        lemma_fixed_uint_prefix(s, t, p1, 2, 0xff);
        if let Ok((p2, _)) = spec_fixed_uint(s, p1, 2, 0xff) {
            lemma_fixed_uint_prefix(s, t, p2, 2, u64::MAX as nat);
        }
    }
}

/// The position reader is a streaming one.
pub proof fn lemma_gps_position_prefix(s: Seq<u8>, t: Seq<u8>, p: int)
    requires
        0 <= p <= s.len(),
        settled(spec_gps_position(s, p)),
    ensures
        spec_gps_position(s + t, p) == spec_gps_position(s, p),
{
    reveal(spec_gps_position);
    crate::framing::lemma_fixed_uint(s, p, 2, 0xff);
    lemma_fixed_uint_prefix(s, t, p, 2, 0xff);
    if let Ok((p1, _)) = spec_fixed_uint(s, p, 2, 0xff) {
        crate::framing::lemma_float_until(s, p1, 44, true);
        lemma_float_until_prefix(s, t, p1, 44);
        if let Ok((p2, _)) = spec_float_until(s, p1, 44, true) {
            lemma_char_prefix(s, t, p2, 44, true);
            if let Ok(p3) = spec_char(s, p2, 44, true) {
                lemma_one_of_prefix(s, t, p3, crate::fields::lat_dirs());
                if let Ok((p4, _)) = spec_one_of(s, p3, crate::fields::lat_dirs()) {
                    lemma_char_prefix(s, t, p4, 44, true);
                    if let Ok(p5) = spec_char(s, p4, 44, true) {
                        crate::framing::lemma_fixed_uint(s, p5, 3, 0xff);
                        lemma_fixed_uint_prefix(s, t, p5, 3, 0xff);
                        if let Ok((p6, _)) = spec_fixed_uint(s, p5, 3, 0xff) {
                            crate::framing::lemma_float_until(s, p6, 44, true);
                            lemma_float_until_prefix(s, t, p6, 44);
                            if let Ok((p7, _)) = spec_float_until(s, p6, 44, true) {
                                lemma_char_prefix(s, t, p7, 44, true);
                                if let Ok(p8) = spec_char(s, p7, 44, true) {
                                    lemma_one_of_prefix(s, t, p8, crate::fields::lon_dirs());
                                }
                            }
                        }
                    }
                }
            }
        }
    }
}


/// A field that starts with a comma is not a number.
pub(crate) proof fn lemma_comma_not_number(s: Seq<u8>, p: int, n: int, max: nat)
    requires
        0 <= p,
        1 <= n,
        p + n <= s.len(),
        s[p] == 44,
    ensures
        spec_fixed_uint(s, p, n, max) == Err::<(int, nat), ParseError>(ParseError::Invalid),
{
    reveal(spec_fixed_uint);
    let x = s.subrange(p, p + n);
    assert(x[0] == 44);
    assert(unsigned_body(x) == x);
    assert(!all_digits(x));
}

/// Where a comma stands and two bytes are at hand, no time stamp, position or
/// date begins.
pub(crate) proof fn lemma_comma_field(s: Seq<u8>, p: int)
    requires
        0 <= p,
        p + 2 <= s.len(),
        s[p] == 44,
    ensures
        spec_utc_stamp(s, p) == Err::<(int, crate::types::GpsTime), ParseError>(ParseError::Invalid),
        spec_date(s, p) == Err::<(int, crate::types::GpsDate), ParseError>(ParseError::Invalid),
        spec_gps_position(s, p) == Err::<(int, crate::types::SpecGpsPosition), ParseError>(
            ParseError::Invalid,
        ),
{
    reveal(spec_utc_stamp);
    reveal(spec_date);
    reveal(spec_gps_position);
    lemma_comma_not_number(s, p, 2, 0xff);
}

proof fn lemma_unit_sep_prefix(s: Seq<u8>, t: Seq<u8>, p: int, unit: u8)
    requires
        0 <= p <= s.len(),
        settled(spec_unit_sep(s, p, unit)),
    ensures
        spec_unit_sep(s + t, p, unit) == spec_unit_sep(s, p, unit),
{
    lemma_tag_prefix(s, t, p, seq![44u8, unit, 44], true);
    if spec_tag(s, p, seq![44u8, unit, 44], true) == Err::<int, ParseError>(ParseError::Invalid) {
        lemma_tag_prefix(s, t, p, seq![44u8, 44], true);
    }
}

proof fn lemma_measure_prefix(s: Seq<u8>, t: Seq<u8>, p: int, unit: u8)
    requires
        0 <= p <= s.len(),
        settled(spec_measure(s, p, unit)),
    ensures
        spec_measure(s + t, p, unit) == spec_measure(s, p, unit),
{
    crate::framing::lemma_float_until(s, p, 44, true);
    lemma_float_until_prefix(s, t, p, 44);
    if let Ok((p1, _)) = spec_opt(spec_float_until(s, p, 44, true), p) {
        lemma_unit_sep_prefix(s, t, p1, unit);
    }
}

/// A VTG reader is a streaming one throughout: once it has decided, to match
/// or not to match, more input does not change its result.
pub proof fn vtg_decision_is_final(s: Seq<u8>, t: Seq<u8>)
    requires
        settled(spec_vtg(s)),
    ensures
        spec_vtg(s + t) == spec_vtg(s),
{
    crate::framing::lemma_measure(s, 0, 84);
    lemma_measure_prefix(s, t, 0, 84);
    if let Ok((p1, _)) = spec_measure(s, 0, 84) {
        crate::framing::lemma_measure(s, p1, 77);
        lemma_measure_prefix(s, t, p1, 77);
        if let Ok((p2, _)) = spec_measure(s, p1, 77) {
            crate::framing::lemma_measure(s, p2, 78);
            lemma_measure_prefix(s, t, p2, 78);
            if let Ok((p3, _)) = spec_measure(s, p2, 78) {
                crate::framing::lemma_speed_until(s, p3, 44, true);
                lemma_speed_until_prefix(s, t, p3, 44);
                if let Ok((p4, _)) = spec_opt(spec_speed_until(s, p3, 44, true), p3) {
                    lemma_char_prefix(s, t, p4, 44, true);
                    if let Ok(p5) = spec_char(s, p4, 44, true) {
                        lemma_char_prefix(s, t, p5, 75, true);
                        if let Ok(p6) = spec_opt_pos(spec_char(s, p5, 75, true), p5) {
                            lemma_char_prefix(s, t, p6, 44, true);
                            if let Ok(p7) = spec_opt_pos(spec_char(s, p6, 44, true), p6) {
                                lemma_one_of_prefix(s, t, p7, mode_letters());
                                if let Ok((p8, _)) = spec_opt(spec_one_of(s, p7, mode_letters()), p7) {
                                    lemma_char_prefix(s, t, p8, 42, true);
                                }
                            }
                        }
                    }
                }
            }
        }
    }
}

proof fn lemma_gll_position_prefix(s: Seq<u8>, t: Seq<u8>)
    requires
        spec_gll_position(s) is Ok,
    ensures
        spec_gll_position(s + t) == spec_gll_position(s),
{
    if spec_gps_position(s, 0) == Err::<(int, crate::types::SpecGpsPosition), ParseError>(
        ParseError::Incomplete,
    ) {
        assert(s.subrange(0, 3)[0] == s[0]);
        lemma_comma_field(s, 0);
    } else {
        lemma_gps_position_prefix(s, t, 0);
        if spec_gps_position(s, 0) is Err {
            lemma_tag_prefix(s, t, 0, seq![44u8, 44, 44], false);
        }
    }
}

/// A GLL sentence body that parses keeps its record and its end when more
/// input follows it.
pub proof fn gll_match_is_final(s: Seq<u8>, t: Seq<u8>)
    requires
        spec_gll(s) is Ok,
    ensures
        spec_gll(s + t) == spec_gll(s),
{
    crate::framing::gll_ends_at_first_star(s);
    lemma_gll_position_prefix(s, t);
    let (p1, _) = spec_gll_position(s).unwrap();
    crate::framing::lemma_gll_position(s);
    lemma_char_prefix(s, t, p1, 44, true);
    let p2 = spec_char(s, p1, 44, true).unwrap();
    crate::framing::lemma_utc_stamp(s, p2);
    if spec_utc_stamp(s, p2) == Err::<(int, crate::types::GpsTime), ParseError>(
        ParseError::Incomplete,
    ) {
        if p2 + 2 <= s.len() {
            lemma_comma_field(s, p2);
        }
    } else {
        lemma_utc_stamp_prefix(s, t, p2);
    }
    let (p3, _) = spec_opt(spec_complete(spec_utc_stamp(s, p2)), p2).unwrap();
    lemma_char_prefix(s, t, p3, 44, true);
    let p4 = spec_char(s, p3, 44, true).unwrap();
    lemma_one_of_prefix(s, t, p4, status_letters());
    let (p5, _) = spec_opt(spec_one_of(s, p4, status_letters()), p4).unwrap();
    lemma_char_prefix(s, t, p5, 44, true);
    let p6 = spec_opt_pos(spec_char(s, p5, 44, true), p5).unwrap();
    lemma_one_of_prefix(s, t, p6, mode_letters());
    let (p7, _) = spec_opt(spec_one_of(s, p6, mode_letters()), p6).unwrap();
    lemma_char_prefix(s, t, p7, 42, true);
}


/// At the end of the input, a streaming field reader asks for more.
proof fn lemma_fields_at_end(s: Seq<u8>)
    ensures
        spec_speed_until(s, s.len() as int, 44, true) == Err::<(int, (u16, u8)), ParseError>(
            ParseError::Incomplete,
        ),
        spec_float_until(s, s.len() as int, 44, true) == Err::<(int, Seq<u8>), ParseError>(
            ParseError::Incomplete,
        ),
{
    reveal(spec_speed_until);
    reveal(spec_float_until);
}

/// An RMC sentence body that parses keeps its record and its end when more
/// input follows it.
pub proof fn rmc_match_is_final(s: Seq<u8>, t: Seq<u8>)
    requires
        spec_rmc(s) is Ok,
    ensures
        spec_rmc(s + t) == spec_rmc(s),
{
    lemma_fields_at_end(s);
    // The fix: time, status, position.
    crate::framing::lemma_utc_stamp(s, 0);
    if spec_utc_stamp(s, 0) == Err::<(int, crate::types::GpsTime), ParseError>(
        ParseError::Incomplete,
    ) {
        if 2 <= s.len() {
            lemma_comma_field(s, 0);
        }
    } else {
        lemma_utc_stamp_prefix(s, t, 0);
    }
    let (p1, _) = spec_opt(spec_complete(spec_utc_stamp(s, 0)), 0).unwrap();
    lemma_char_prefix(s, t, p1, 44, true);
    let p2 = spec_char(s, p1, 44, true).unwrap();
    lemma_one_of_prefix(s, t, p2, status_letters());
    let (p3, _) = spec_opt(spec_one_of(s, p2, status_letters()), p2).unwrap();
    lemma_char_prefix(s, t, p3, 44, true);
    let p4 = spec_char(s, p3, 44, true).unwrap();
    crate::framing::lemma_gps_position(s, p4);
    if spec_gps_position(s, p4) == Err::<(int, crate::types::SpecGpsPosition), ParseError>(
        ParseError::Incomplete,
    ) {
        if p4 + 2 <= s.len() {
            lemma_comma_field(s, p4);
        }
    } else {
        lemma_gps_position_prefix(s, t, p4);
    }
    let (p5, _) = spec_opt(spec_complete(spec_gps_position(s, p4)), p4).unwrap();
    assert(spec_rmc_fix(s + t) == spec_rmc_fix(s));
    // The course: speed, heading, date.
    lemma_char_prefix(s, t, p5, 44, true);
    let q1 = spec_char(s, p5, 44, true).unwrap();
    crate::framing::lemma_speed_until(s, q1, 44, true);
    lemma_speed_until_prefix(s, t, q1, 44);
    let (q2, _) = spec_opt(spec_speed_until(s, q1, 44, true), q1).unwrap();
    lemma_char_prefix(s, t, q2, 44, true);
    let q3 = spec_char(s, q2, 44, true).unwrap();
    crate::framing::lemma_float_until(s, q3, 44, true);
    lemma_float_until_prefix(s, t, q3, 44);
    let (q4, _) = spec_opt(spec_float_until(s, q3, 44, true), q3).unwrap();
    lemma_char_prefix(s, t, q4, 44, true);
    let q5 = spec_char(s, q4, 44, true).unwrap();
    crate::framing::lemma_date(s, q5);
    if spec_date(s, q5) == Err::<(int, crate::types::GpsDate), ParseError>(ParseError::Incomplete) {
        if q5 + 2 <= s.len() {
            lemma_comma_field(s, q5);
        }
    } else {
        lemma_date_prefix(s, t, q5);
    }
    let (q6, _) = spec_opt(spec_complete(spec_date(s, q5)), q5).unwrap();
    assert(spec_rmc_course(s + t, p5) == spec_rmc_course(s, p5));
    // The variation and the end.
    lemma_char_prefix(s, t, q6, 44, true);
    let r1 = spec_char(s, q6, 44, true).unwrap();
    crate::framing::lemma_float_until(s, r1, 44, true);
    lemma_float_until_prefix(s, t, r1, 44);
    let (r2, _) = spec_opt(spec_float_until(s, r1, 44, true), r1).unwrap();
    lemma_char_prefix(s, t, r2, 44, true);
    let r3 = spec_char(s, r2, 44, true).unwrap();
    lemma_one_of_prefix(s, t, r3, crate::fields::lon_dirs());
    let (r4, _) = spec_opt(spec_one_of(s, r3, crate::fields::lon_dirs()), r3).unwrap();
    lemma_find_byte(s, r4, 42);
    lemma_take_until_prefix(s, t, r4, 42, true);
    let r5 = spec_take_until(s, r4, 42, true).unwrap();
    lemma_char_prefix(s, t, r5, 42, true);
    assert(spec_rmc_variation(s + t, q6) == spec_rmc_variation(s, q6));
}

/// An optional number of a complete input, when what follows it is the comma
/// (or other byte) it runs up to, keeps its reading when more input follows.
proof fn lemma_num_prefix(s: Seq<u8>, t: Seq<u8>, p: int, b: u8, max: nat)
    requires
        0 <= p <= s.len(),
        spec_char(s, spec_num(s, p, b, max).0, b, false) is Ok,
    ensures
        spec_num(s + t, p, b, max) == spec_num(s, p, b, max),
{
    reveal(spec_uint_until);
    lemma_find_byte(s, p, b);
    if let Ok(_) = spec_uint_until(s, p, b, false, max) {
        lemma_uint_until_prefix(s, t, p, b, false, max);
    } else {
        // The field ran up to the `b` that follows it, so `take_until` found it.
        if find_byte(s, p, b) is None {
            assert(s[p] == b);
        }
        lemma_take_until_prefix(s, t, p, b, false);
        let q = spec_take_until(s, p, b, false).unwrap();
        lemma_prefix_subrange(s, t, p, q);
    }
}

/// A TXT sentence body that parses keeps its record and its end when more
/// input follows it.
pub proof fn txt_match_is_final(s: Seq<u8>, t: Seq<u8>)
    requires
        spec_txt(s) is Ok,
    ensures
        spec_txt(s + t) == spec_txt(s),
{
    lemma_num_prefix(s, t, 0, 44, 0xff);
    crate::framing::lemma_num(s, 0, 44, 0xff);
    let p1 = spec_num(s, 0, 44, 0xff).0;
    lemma_char_prefix(s, t, p1, 44, false);
    let p2 = spec_char(s, p1, 44, false).unwrap();
    lemma_num_prefix(s, t, p2, 44, 0xff);
    crate::framing::lemma_num(s, p2, 44, 0xff);
    let p3 = spec_num(s, p2, 44, 0xff).0;
    lemma_char_prefix(s, t, p3, 44, false);
    let p4 = spec_char(s, p3, 44, false).unwrap();
    lemma_num_prefix(s, t, p4, 44, 0xff);
    crate::framing::lemma_num(s, p4, 44, 0xff);
    let p5 = spec_num(s, p4, 44, 0xff).0;
    lemma_char_prefix(s, t, p5, 44, false);
    let p6 = spec_char(s, p5, 44, false).unwrap();
    lemma_find_byte(s, p6, 42);
    lemma_take_until_prefix(s, t, p6, 42, false);
    let p7 = spec_take_until(s, p6, 42, false).unwrap();
    lemma_prefix_subrange(s, t, p6, p7);
    lemma_char_prefix(s, t, p7, 42, false);
}

/// A ZDA sentence body that parses keeps its record and its end when more
/// input follows it.
pub proof fn zda_match_is_final(s: Seq<u8>, t: Seq<u8>)
    requires
        spec_zda(s) is Ok,
    ensures
        spec_zda(s + t) == spec_zda(s),
{
    crate::framing::lemma_utc_stamp(s, 0);
    lemma_utc_stamp_prefix(s, t, 0);
    let (p1, _) = spec_opt(spec_utc_stamp(s, 0), 0).unwrap();
    lemma_char_prefix(s, t, p1, 44, false);
    let p2 = spec_char(s, p1, 44, false).unwrap();
    lemma_num_prefix(s, t, p2, 44, 0xff);
    crate::framing::lemma_num(s, p2, 44, 0xff);
    let p3 = spec_num(s, p2, 44, 0xff).0;
    lemma_char_prefix(s, t, p3, 44, false);
    let p4 = spec_char(s, p3, 44, false).unwrap();
    lemma_num_prefix(s, t, p4, 44, 0xff);
    crate::framing::lemma_num(s, p4, 44, 0xff);
    let p5 = spec_num(s, p4, 44, 0xff).0;
    lemma_char_prefix(s, t, p5, 44, false);
    let p6 = spec_char(s, p5, 44, false).unwrap();
    lemma_num_prefix(s, t, p6, 44, 0xffff);
    crate::framing::lemma_num(s, p6, 44, 0xffff);
    let p7 = spec_num(s, p6, 44, 0xffff).0;
    lemma_char_prefix(s, t, p7, 44, false);
    let p8 = spec_char(s, p7, 44, false).unwrap();
    lemma_num_prefix(s, t, p8, 44, 0xff);
    crate::framing::lemma_num(s, p8, 44, 0xff);
    let p9 = spec_num(s, p8, 44, 0xff).0;
    lemma_char_prefix(s, t, p9, 44, false);
    let p10 = spec_char(s, p9, 44, false).unwrap();
    lemma_num_prefix(s, t, p10, 42, 0xff);
    crate::framing::lemma_num(s, p10, 42, 0xff);
    let p11 = spec_num(s, p10, 42, 0xff).0;
    lemma_char_prefix(s, t, p11, 42, false);
}

} // verus!
