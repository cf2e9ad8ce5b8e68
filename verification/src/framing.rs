use vstd::prelude::*;
use crate::error::ParseError;
use crate::fields::{
    lat_dirs, lon_dirs, spec_date, spec_fixed_uint, spec_float_until, spec_gps_position, spec_num,
    spec_speed_until, spec_uint_until, spec_utc_stamp,
};
use crate::number::{
    ascii_lower, is_sign, lowered, spec_is_float_literal, spec_parse_num_fill, spec_parse_uint,
    unsigned_body, without_sign, word_inf, word_infinity, word_nan,
};
use crate::scan::{
    find_byte, lemma_find_byte, lemma_find_byte_at, spec_char, spec_complete, spec_one_of,
    spec_opt, spec_opt_pos, spec_tag, spec_take_until,
};
use crate::gll::{status_letters, mode_letters, spec_gll, spec_gll_position};
use crate::rmc::{spec_rmc, spec_rmc_course, spec_rmc_fix};
use crate::vtg::{spec_measure, spec_vtg};
use crate::txt::spec_txt;
use crate::zda::spec_zda;

verus! {

/// No `*` stands in `s` from `a` up to (not including) `b`.
pub open spec fn star_free(s: Seq<u8>, a: int, b: int) -> bool {
    forall|j: int| a <= j < b ==> s[j] != 42
}

/// A successful reader that starts at `p` moves forward within `s` over
/// bytes none of which is `*`.
pub open spec fn advances_star_free<T>(r: Result<(int, T), ParseError>, s: Seq<u8>, p: int) -> bool {
    r matches Ok((q, _)) ==> p <= q <= s.len() && star_free(s, p, q)
}

pub open spec fn pos_advances_star_free(r: Result<int, ParseError>, s: Seq<u8>, p: int) -> bool {
    r matches Ok(q) ==> p <= q <= s.len() && star_free(s, p, q)
}

pub(crate) proof fn lemma_uint_star_free(x: Seq<u8>, max: nat)
    requires
        spec_parse_uint(x, max) is Some,
    ensures
        forall|j: int| 0 <= j < x.len() ==> (x[j] != 42 && x[j] != 44),
{
    let body = unsigned_body(x);
    assert forall|j: int| 0 <= j < x.len() implies (x[j] != 42 && x[j] != 44) by {
        if x.len() > 0 && x[0] == 43 {
            if j > 0 {
                assert(x[j] == body[j - 1]);
            }
        } else {
            assert(x[j] == body[j]);
        }
    }
}

pub(crate) proof fn lemma_float_star_free(x: Seq<u8>)
    requires
        spec_is_float_literal(x),
    ensures
        forall|j: int| 0 <= j < x.len() ==> (x[j] != 42 && x[j] != 44),
{
    let l = lowered(x);
    let u = without_sign(l);
    assert forall|i: int| 0 <= i < u.len() implies (u[i] != 42 && u[i] != 44) by {
        if u == word_inf() || u == word_infinity() || u == word_nan() {
        } else {
            match find_byte(u, 0, 101) {
                Some(k) => {
                    lemma_find_byte(u, 0, 101);
                    if i < k {
                        assert(u.take(k)[i] == u[i]);
                    } else if i > k {
                        let e = u.skip(k);
                        let r = e.drop_first();
                        let d = without_sign(r);
                        assert(r[i - k - 1] == u[i]);
                        if r.len() > 0 && is_sign(r[0]) {
                            if i - k - 1 > 0 {
                                assert(d[i - k - 2] == r[i - k - 1]);
                            }
                        } else {
                            assert(d[i - k - 1] == r[i - k - 1]);
                        }
                    }
                },
                None => {},
            }
        }
    }
    assert forall|j: int| 0 <= j < x.len() implies (x[j] != 42 && x[j] != 44) by {
        assert(l[j] == ascii_lower(x[j]));
        if l.len() > 0 && is_sign(l[0]) {
            if j > 0 {
                assert(u[j - 1] == l[j]);
            }
        } else {
            assert(u[j] == l[j]);
        }
    }
}

pub(crate) proof fn lemma_subrange_star_free(s: Seq<u8>, p: int, q: int)
    requires
        0 <= p <= q <= s.len(),
        forall|j: int| 0 <= j < s.subrange(p, q).len() ==> s.subrange(p, q)[j] != 42,
    ensures
        star_free(s, p, q),
{
    assert forall|j: int| p <= j < q implies s[j] != 42 by {
        assert(s.subrange(p, q)[j - p] == s[j]);
    }
}

pub proof fn lemma_fixed_uint(s: Seq<u8>, p: int, n: int, max: nat)
    requires
        0 <= p <= s.len(),
        0 <= n,
    ensures
        advances_star_free(spec_fixed_uint(s, p, n, max), s, p),
{
    reveal(spec_fixed_uint);
    if let Ok((q, _)) = spec_fixed_uint(s, p, n, max) {
        lemma_uint_star_free(s.subrange(p, q), max);
        lemma_subrange_star_free(s, p, q);
    }
}

pub proof fn lemma_uint_until(s: Seq<u8>, p: int, b: u8, streaming: bool, max: nat)
    requires
        0 <= p <= s.len(),
    ensures
        advances_star_free(spec_uint_until(s, p, b, streaming, max), s, p),
{
    reveal(spec_uint_until);
    lemma_find_byte(s, p, b);
    if let Ok((q, _)) = spec_uint_until(s, p, b, streaming, max) {
        lemma_uint_star_free(s.subrange(p, q), max);
        lemma_subrange_star_free(s, p, q);
    }
}

pub proof fn lemma_float_until(s: Seq<u8>, p: int, b: u8, streaming: bool)
    requires
        0 <= p <= s.len(),
    ensures
        advances_star_free(spec_float_until(s, p, b, streaming), s, p),
{
    reveal(spec_float_until);
    lemma_find_byte(s, p, b);
    if let Ok((q, _)) = spec_float_until(s, p, b, streaming) {
        lemma_float_star_free(s.subrange(p, q));
        lemma_subrange_star_free(s, p, q);
    }
}

pub proof fn lemma_speed_until(s: Seq<u8>, p: int, b: u8, streaming: bool)
    requires
        0 <= p <= s.len(),
    ensures
        advances_star_free(spec_speed_until(s, p, b, streaming), s, p),
{
    reveal(spec_speed_until);
    lemma_find_byte(s, p, b);
    if let Ok((q, _)) = spec_speed_until(s, p, b, streaming) {
        let field = s.subrange(p, q);
        lemma_find_byte(field, 0, 46);
        let i = find_byte(field, 0, 46).unwrap();
        lemma_uint_star_free(field.take(i), 0xffff);
        lemma_uint_star_free(field.skip(i + 1), 0xff);
        assert forall|j: int| 0 <= j < field.len() implies field[j] != 42 by {
            if j < i {
                assert(field.take(i)[j] == field[j]);
            } else if j > i {
                assert(field.skip(i + 1)[j - i - 1] == field[j]);
            }
        }
        lemma_subrange_star_free(s, p, q);
    }
}

pub proof fn lemma_one_of(s: Seq<u8>, p: int, set: Seq<u8>)
    requires
        0 <= p <= s.len(),
        !set.contains(42),
    ensures
        advances_star_free(spec_one_of(s, p, set), s, p),
{
}

pub proof fn lemma_opt<T>(r: Result<(int, T), ParseError>, s: Seq<u8>, p: int)
    requires
        0 <= p <= s.len(),
        advances_star_free(r, s, p),
    ensures
        advances_star_free(spec_opt(r, p), s, p),
        advances_star_free(spec_complete(r), s, p),
{
}

pub proof fn lemma_utc_stamp(s: Seq<u8>, p: int)
    requires
        0 <= p <= s.len(),
    ensures
        advances_star_free(spec_utc_stamp(s, p), s, p),
{
    reveal(spec_utc_stamp);
    lemma_fixed_uint(s, p, 2, 0xff);
    if let Ok((p1, _)) = spec_fixed_uint(s, p, 2, 0xff) {
        lemma_fixed_uint(s, p1, 2, 0xff);
        if let Ok((p2, _)) = spec_fixed_uint(s, p1, 2, 0xff) {
            lemma_fixed_uint(s, p2, 2, 0xff);
            if let Ok((p3, _)) = spec_fixed_uint(s, p2, 2, 0xff) {
                if let Ok(p4) = spec_char(s, p3, 46, true) {
                    lemma_find_byte(s, p4, 44);
                    if let Ok(p5) = spec_take_until(s, p4, 44, true) {
                        if let Some(_) = spec_parse_num_fill(s.subrange(p4, p5), 3) {
                            lemma_uint_star_free(s.subrange(p4, p5), 0xffff);
                            lemma_subrange_star_free(s, p4, p5);
                        }
                    }
                }
            }
        }
    }
}

pub proof fn lemma_date(s: Seq<u8>, p: int)
    requires
        0 <= p <= s.len(),
    ensures
        advances_star_free(spec_date(s, p), s, p),
{
    reveal(spec_date);
    lemma_fixed_uint(s, p, 2, 0xff);
    if let Ok((p1, _)) = spec_fixed_uint(s, p, 2, 0xff) {
        lemma_fixed_uint(s, p1, 2, 0xff);
        if let Ok((p2, _)) = spec_fixed_uint(s, p1, 2, 0xff) {
            lemma_fixed_uint(s, p2, 2, u64::MAX as nat);
        }
    }
}

pub proof fn lemma_gps_position(s: Seq<u8>, p: int)
    requires
        0 <= p <= s.len(),
    ensures
        advances_star_free(spec_gps_position(s, p), s, p),
{
    reveal(spec_gps_position);
    lemma_fixed_uint(s, p, 2, 0xff);
    if let Ok((p1, _)) = spec_fixed_uint(s, p, 2, 0xff) {
        lemma_float_until(s, p1, 44, true);
        if let Ok((p2, _)) = spec_float_until(s, p1, 44, true) {
            if let Ok(p3) = spec_char(s, p2, 44, true) {
                if let Ok((p4, _)) = spec_one_of(s, p3, lat_dirs()) {
                    if let Ok(p5) = spec_char(s, p4, 44, true) {
                        lemma_fixed_uint(s, p5, 3, 0xff);
                        if let Ok((p6, _)) = spec_fixed_uint(s, p5, 3, 0xff) {
                            lemma_float_until(s, p6, 44, true);
                        }
                    }
                }
            }
        }
    }
}


pub(crate) proof fn lemma_opt_pos(r: Result<int, ParseError>, s: Seq<u8>, p: int)
    requires
        0 <= p <= s.len(),
        pos_advances_star_free(r, s, p),
    ensures
        pos_advances_star_free(spec_opt_pos(r, p), s, p),
{
}

pub(crate) proof fn lemma_gll_position(s: Seq<u8>)
    ensures
        advances_star_free(spec_gll_position(s), s, 0),
{
    lemma_gps_position(s, 0);
    if let Ok(q) = spec_tag(s, 0, seq![44u8, 44, 44], false) {
        assert forall|j: int| 0 <= j < 3 implies s[j] != 42 by {
            assert(s.subrange(0, 3)[j] == s[j]);
        }
    }
}

pub(crate) proof fn lemma_star_set()
    ensures
        !status_letters().contains(42),
        !mode_letters().contains(42),
        !lat_dirs().contains(42),
        !lon_dirs().contains(42),
{
    assert(!status_letters().contains(42)) by {
        if status_letters().contains(42) {
            let i = choose|i: int| 0 <= i < status_letters().len() && status_letters()[i] == 42;
        }
    }
    assert(!mode_letters().contains(42)) by {
        if mode_letters().contains(42) {
            let i = choose|i: int| 0 <= i < mode_letters().len() && mode_letters()[i] == 42;
        }
    }
    assert(!lat_dirs().contains(42)) by {
        if lat_dirs().contains(42) {
            let i = choose|i: int| 0 <= i < lat_dirs().len() && lat_dirs()[i] == 42;
        }
    }
    assert(!lon_dirs().contains(42)) by {
        if lon_dirs().contains(42) {
            let i = choose|i: int| 0 <= i < lon_dirs().len() && lon_dirs()[i] == 42;
        }
    }
}

/// A parse that ended with the `*` at `q - 1`, having passed no other `*`,
/// ended at the first `*` of the input.
pub(crate) proof fn lemma_first_star(s: Seq<u8>, q: int)
    requires
        1 <= q <= s.len(),
        s[q - 1] == 42,
        star_free(s, 0, q - 1),
    ensures
        find_byte(s, 0, 42) == Some(q - 1),
{
    lemma_find_byte_at(s, 0, 42, q - 1);
}

/// A GLL sentence body that parses ends right after the first `*` of the
/// input: what is returned as the rest is what follows that `*`.
pub proof fn gll_ends_at_first_star(s: Seq<u8>)
    ensures
        spec_gll(s) matches Ok((q, _)) ==> 1 <= q <= s.len() && find_byte(s, 0, 42) == Some(q - 1),
{
    lemma_star_set();
    lemma_gll_position(s);
    if let Ok((p1, _)) = spec_gll_position(s) {
        if let Ok(p2) = spec_char(s, p1, 44, true) {
            lemma_utc_stamp(s, p2);
            lemma_opt(spec_utc_stamp(s, p2), s, p2);
            lemma_opt(spec_complete(spec_utc_stamp(s, p2)), s, p2);
            if let Ok((p3, _)) = spec_opt(spec_complete(spec_utc_stamp(s, p2)), p2) {
                if let Ok(p4) = spec_char(s, p3, 44, true) {
                    lemma_one_of(s, p4, status_letters());
                    lemma_opt(spec_one_of(s, p4, status_letters()), s, p4);
                    if let Ok((p5, _)) = spec_opt(spec_one_of(s, p4, status_letters()), p4) {
                        lemma_opt_pos(spec_char(s, p5, 44, true), s, p5);
                        if let Ok(p6) = spec_opt_pos(spec_char(s, p5, 44, true), p5) {
                            lemma_one_of(s, p6, mode_letters());
                            lemma_opt(spec_one_of(s, p6, mode_letters()), s, p6);
                            if let Ok((p7, _)) = spec_opt(spec_one_of(s, p6, mode_letters()), p6) {
                                if let Ok(p8) = spec_char(s, p7, 42, true) {
                                    lemma_first_star(s, p8);
                                }
                            }
                        }
                    }
                }
            }
        }
    }
}

pub(crate) proof fn lemma_rmc_fix(s: Seq<u8>)
    ensures
        advances_star_free(spec_rmc_fix(s), s, 0),
{
    lemma_star_set();
    lemma_utc_stamp(s, 0);
    lemma_opt(spec_utc_stamp(s, 0), s, 0);
    lemma_opt(spec_complete(spec_utc_stamp(s, 0)), s, 0);
    if let Ok((p1, _)) = spec_opt(spec_complete(spec_utc_stamp(s, 0)), 0) {
        if let Ok(p2) = spec_char(s, p1, 44, true) {
            lemma_one_of(s, p2, status_letters());
            lemma_opt(spec_one_of(s, p2, status_letters()), s, p2);
            if let Ok((p3, _)) = spec_opt(spec_one_of(s, p2, status_letters()), p2) {
                if let Ok(p4) = spec_char(s, p3, 44, true) {
                    lemma_gps_position(s, p4);
                    lemma_opt(spec_gps_position(s, p4), s, p4);
                    lemma_opt(spec_complete(spec_gps_position(s, p4)), s, p4);
                }
            }
        }
    }
}

pub(crate) proof fn lemma_rmc_course(s: Seq<u8>, p: int)
    requires
        0 <= p <= s.len(),
    ensures
        advances_star_free(spec_rmc_course(s, p), s, p),
{
    if let Ok(p1) = spec_char(s, p, 44, true) {
        lemma_speed_until(s, p1, 44, true);
        lemma_opt(spec_speed_until(s, p1, 44, true), s, p1);
        if let Ok((p2, _)) = spec_opt(spec_speed_until(s, p1, 44, true), p1) {
            if let Ok(p3) = spec_char(s, p2, 44, true) {
                lemma_float_until(s, p3, 44, true);
                lemma_opt(spec_float_until(s, p3, 44, true), s, p3);
                if let Ok((p4, _)) = spec_opt(spec_float_until(s, p3, 44, true), p3) {
                    if let Ok(p5) = spec_char(s, p4, 44, true) {
                        lemma_date(s, p5);
                        lemma_opt(spec_date(s, p5), s, p5);
                        lemma_opt(spec_complete(spec_date(s, p5)), s, p5);
                    }
                }
            }
        }
    }
}

/// An RMC sentence body that parses ends right after the first `*` of the
/// input: what is returned as the rest is what follows that `*`.
pub proof fn rmc_ends_at_first_star(s: Seq<u8>)
    ensures
        spec_rmc(s) matches Ok((q, _)) ==> 1 <= q <= s.len() && find_byte(s, 0, 42) == Some(q - 1),
{
    lemma_star_set();
    lemma_rmc_fix(s);
    if let Ok((p1, _)) = spec_rmc_fix(s) {
        lemma_rmc_course(s, p1);
        if let Ok((p2, _)) = spec_rmc_course(s, p1) {
            if let Ok(p3) = spec_char(s, p2, 44, true) {
                lemma_float_until(s, p3, 44, true);
                lemma_opt(spec_float_until(s, p3, 44, true), s, p3);
                if let Ok((p4, _)) = spec_opt(spec_float_until(s, p3, 44, true), p3) {
                    if let Ok(p5) = spec_char(s, p4, 44, true) {
                        lemma_one_of(s, p5, lon_dirs());
                        lemma_opt(spec_one_of(s, p5, lon_dirs()), s, p5);
                        if let Ok((p6, _)) = spec_opt(spec_one_of(s, p5, lon_dirs()), p5) {
                            lemma_find_byte(s, p6, 42);
                            if let Ok(p7) = spec_take_until(s, p6, 42, true) {
                                if let Ok(p8) = spec_char(s, p7, 42, true) {
                                    lemma_first_star(s, p8);
                                }
                            }
                        }
                    }
                }
            }
        }
    }
}

pub(crate) proof fn lemma_measure(s: Seq<u8>, p: int, unit: u8)
    requires
        0 <= p <= s.len(),
        unit != 42,
    ensures
        advances_star_free(spec_measure(s, p, unit), s, p),
{
    lemma_float_until(s, p, 44, true);
    lemma_opt(spec_float_until(s, p, 44, true), s, p);
    if let Ok((p1, _)) = spec_opt(spec_float_until(s, p, 44, true), p) {
        if let Ok(q) = spec_tag(s, p1, seq![44u8, unit, 44], true) {
            assert forall|j: int| p1 <= j < q implies s[j] != 42 by {
                assert(s.subrange(p1, q)[j - p1] == s[j]);
            }
        } else if let Ok(q) = spec_tag(s, p1, seq![44u8, 44], true) {
            assert forall|j: int| p1 <= j < q implies s[j] != 42 by {
                assert(s.subrange(p1, q)[j - p1] == s[j]);
            }
        }
    }
}

/// A VTG sentence body that parses ends right after the first `*` of the
/// input: what is returned as the rest is what follows that `*`.
pub proof fn vtg_ends_at_first_star(s: Seq<u8>)
    ensures
        spec_vtg(s) matches Ok((q, _)) ==> 1 <= q <= s.len() && find_byte(s, 0, 42) == Some(q - 1),
{
    lemma_star_set();
    lemma_measure(s, 0, 84);
    if let Ok((p1, _)) = spec_measure(s, 0, 84) {
        lemma_measure(s, p1, 77);
        if let Ok((p2, _)) = spec_measure(s, p1, 77) {
            lemma_measure(s, p2, 78);
            if let Ok((p3, _)) = spec_measure(s, p2, 78) {
                lemma_speed_until(s, p3, 44, true);
                lemma_opt(spec_speed_until(s, p3, 44, true), s, p3);
                if let Ok((p4, _)) = spec_opt(spec_speed_until(s, p3, 44, true), p3) {
                    if let Ok(p5) = spec_char(s, p4, 44, true) {
                        lemma_opt_pos(spec_char(s, p5, 75, true), s, p5);
                        if let Ok(p6) = spec_opt_pos(spec_char(s, p5, 75, true), p5) {
                            lemma_opt_pos(spec_char(s, p6, 44, true), s, p6);
                            if let Ok(p7) = spec_opt_pos(spec_char(s, p6, 44, true), p6) {
                                lemma_one_of(s, p7, mode_letters());
                                lemma_opt(spec_one_of(s, p7, mode_letters()), s, p7);
                                if let Ok((p8, _)) = spec_opt(spec_one_of(s, p7, mode_letters()), p7) {
                                    if let Ok(p9) = spec_char(s, p8, 42, true) {
                                        lemma_first_star(s, p9);
                                    }
                                }
                            }
                        }
                    }
                }
            }
        }
    }
}

pub(crate) proof fn lemma_num(s: Seq<u8>, p: int, b: u8, max: nat)
    requires
        0 <= p <= s.len(),
    ensures
        p <= spec_num(s, p, b, max).0 <= s.len(),
        star_free(s, p, spec_num(s, p, b, max).0),
{
    lemma_uint_until(s, p, b, false, max);
}

/// A TXT sentence body that parses ends right after the first `*` of the
/// input: what is returned as the rest is what follows that `*`.
pub proof fn txt_ends_at_first_star(s: Seq<u8>)
    ensures
        spec_txt(s) matches Ok((q, _)) ==> 1 <= q <= s.len() && find_byte(s, 0, 42) == Some(q - 1),
{
    lemma_num(s, 0, 44, 0xff);
    let p1 = spec_num(s, 0, 44, 0xff).0;
    if let Ok(p2) = spec_char(s, p1, 44, false) {
        lemma_num(s, p2, 44, 0xff);
        let p3 = spec_num(s, p2, 44, 0xff).0;
        if let Ok(p4) = spec_char(s, p3, 44, false) {
            lemma_num(s, p4, 44, 0xff);
            let p5 = spec_num(s, p4, 44, 0xff).0;
            if let Ok(p6) = spec_char(s, p5, 44, false) {
                lemma_find_byte(s, p6, 42);
                if let Ok(p7) = spec_take_until(s, p6, 42, false) {
                    if let Ok(p8) = spec_char(s, p7, 42, false) {
                        lemma_first_star(s, p8);
                    }
                }
            }
        }
    }
}

/// A ZDA sentence body that parses ends right after the first `*` of the
/// input: what is returned as the rest is what follows that `*`.
pub proof fn zda_ends_at_first_star(s: Seq<u8>)
    ensures
        spec_zda(s) matches Ok((q, _)) ==> 1 <= q <= s.len() && find_byte(s, 0, 42) == Some(q - 1),
{
    lemma_utc_stamp(s, 0);
    lemma_opt(spec_utc_stamp(s, 0), s, 0);
    if let Ok((p1, _)) = spec_opt(spec_utc_stamp(s, 0), 0) {
        if let Ok(p2) = spec_char(s, p1, 44, false) {
            lemma_num(s, p2, 44, 0xff);
            let p3 = spec_num(s, p2, 44, 0xff).0;
            if let Ok(p4) = spec_char(s, p3, 44, false) {
                lemma_num(s, p4, 44, 0xff);
                let p5 = spec_num(s, p4, 44, 0xff).0;
                if let Ok(p6) = spec_char(s, p5, 44, false) {
                    lemma_num(s, p6, 44, 0xffff);
                    let p7 = spec_num(s, p6, 44, 0xffff).0;
                    if let Ok(p8) = spec_char(s, p7, 44, false) {
                        lemma_num(s, p8, 44, 0xff);
                        let p9 = spec_num(s, p8, 44, 0xff).0;
                        if let Ok(p10) = spec_char(s, p9, 44, false) {
                            lemma_num(s, p10, 42, 0xff);
                            let p11 = spec_num(s, p10, 42, 0xff).0;
                            if let Ok(p12) = spec_char(s, p11, 42, false) {
                                lemma_first_star(s, p12);
                            }
                        }
                    }
                }
            }
        }
    }
}

} // verus!
