use vstd::prelude::*;
use crate::error::NmeaSentenceError;
use crate::scan::{find_byte, lemma_find_byte, lemma_find_byte_absent, lemma_find_byte_at};

verus! {

pub open spec fn is_digit(b: u8) -> bool {
    48 <= b <= 57
}

pub open spec fn all_digits(s: Seq<u8>) -> bool {
    forall|i: int| 0 <= i < s.len() ==> is_digit(#[trigger] s[i])
}

/// The value of a string of decimal digits.
pub open spec fn digits_value(s: Seq<u8>) -> nat
    decreases s.len(),
{
    if s.len() == 0 {
        0
    } else {
        digits_value(s.drop_last()) * 10 + (s.last() - 48) as nat
    }
}

/// What follows an optional leading `+`.
pub open spec fn unsigned_body(s: Seq<u8>) -> Seq<u8> {
    if s.len() > 0 && s[0] == 43 {
        s.drop_first()
    } else {
        s
    }
}

/// The value that `str::parse` gives for an unsigned integer type whose largest
/// value is `max`: the text is an optional `+` and then at least one decimal
/// digit, and the value fits.
pub open spec fn spec_parse_uint(s: Seq<u8>, max: nat) -> Option<nat> {
    let d = unsigned_body(s);
    if d.len() > 0 && all_digits(d) && digits_value(d) <= max {
        Some(digits_value(d))
    } else {
        None
    }
}

pub open spec fn pow10(n: nat) -> nat
    decreases n,
{
    if n == 0 {
        1
    } else {
        10 * pow10((n - 1) as nat)
    }
}

/// A fraction whose first digit stands at the place of `10^(digits - 1)`;
/// missing trailing digits count as zeros. The places are those of the digits,
/// after an optional `+`. Longer fractions, and values beyond `u16`, are
/// refused.
pub open spec fn spec_parse_num_fill(s: Seq<u8>, digits: nat) -> Option<nat> {
    let n = unsigned_body(s).len();
    match spec_parse_uint(s, 0xffff) {
        Some(v) => if n <= digits && v * pow10((digits - n) as nat) <= 0xffff {
            Some(v * pow10((digits - n) as nat))
        } else {
            None
        },
        None => None,
    }
}

pub open spec fn ascii_lower(b: u8) -> u8 {
    if 65 <= b <= 90 {
        (b + 32) as u8
    } else {
        b
    }
}

/// The text with ASCII capitals turned into small letters.
pub open spec fn lowered(s: Seq<u8>) -> Seq<u8> {
    s.map_values(|b: u8| ascii_lower(b))
}

pub open spec fn is_sign(b: u8) -> bool {
    b == 43 || b == 45
}

pub open spec fn without_sign(s: Seq<u8>) -> Seq<u8> {
    if s.len() > 0 && is_sign(s[0]) {
        s.drop_first()
    } else {
        s
    }
}

/// `Digit+ | Digit+ '.' Digit* | Digit* '.' Digit+`: digits and at most one dot,
/// with at least one digit.
pub open spec fn is_mantissa(m: Seq<u8>) -> bool {
    &&& forall|i: int| 0 <= i < m.len() ==> is_digit(#[trigger] m[i]) || m[i] == 46
    &&& forall|i: int, j: int|
        0 <= i < m.len() && 0 <= j < m.len() && #[trigger] m[i] == 46 && #[trigger] m[j] == 46
            ==> i == j
    &&& exists|i: int| 0 <= i < m.len() && is_digit(#[trigger] m[i])
}

/// `'e' Sign? Digit+`, on lowercased text.
pub open spec fn is_exponent(e: Seq<u8>) -> bool {
    &&& e.len() > 0
    &&& e[0] == 101
    &&& without_sign(e.drop_first()).len() > 0
    &&& all_digits(without_sign(e.drop_first()))
}

/// `Number ::= Mantissa Exp?` on lowercased text: the mantissa runs up to the
/// first `e`.
pub open spec fn is_number(u: Seq<u8>) -> bool {
    match find_byte(u, 0, 101) {
        Some(k) => is_mantissa(u.take(k)) && is_exponent(u.skip(k)),
        None => is_mantissa(u),
    }
}

pub open spec fn word_inf() -> Seq<u8> {
    seq![105u8, 110, 102]
}

pub open spec fn word_infinity() -> Seq<u8> {
    seq![105u8, 110, 102, 105, 110, 105, 116, 121]
}

pub open spec fn word_nan() -> Seq<u8> {
    seq![110u8, 97, 110]
}

/// The texts that `str::parse::<f32>` accepts, as its documentation gives them:
/// once lowercased, `Sign? ('inf' | 'infinity' | 'nan' | Number)`.
pub open spec fn spec_is_float_literal(s: Seq<u8>) -> bool {
    let u = without_sign(lowered(s));
    u == word_inf() || u == word_infinity() || u == word_nan() || is_number(u)
}

/// The value of a digit string is at least that of any of its prefixes.
pub proof fn lemma_digits_value_prefix(d: Seq<u8>, k: int)
    requires
        0 <= k <= d.len(),
    ensures
        digits_value(d.take(k)) <= digits_value(d),
    decreases d.len(),
{
    if k < d.len() {
        lemma_digits_value_prefix(d.drop_last(), k);
        assert(d.drop_last().take(k) =~= d.take(k));
    } else {
        assert(d.take(k) =~= d);
    }
}

/// Reads an unsigned decimal number no larger than `max`, as `str::parse`
/// does for an unsigned integer type.
pub fn parse_uint(data: &[u8], max: u64) -> (r: Option<u64>)
    ensures
        match spec_parse_uint(data@, max as nat) {
            Some(v) => r == Some(v as u64),
            None => r is None,
        },
{
    let len = data.len();
    let mut start: usize = 0;
    if len > 0 && data[0] == 43 {
        start = 1;
    }
    let ghost body = unsigned_body(data@);
    assert(body =~= data@.subrange(start as int, len as int));
    if start == len {
        return None;
    }
    let mut i = start;
    let mut acc: u64 = 0;
    while i < len
        invariant
            start <= i <= len,
            len == data@.len(),
            body == unsigned_body(data@),
            body == data@.subrange(start as int, len as int),
            acc <= max,
            all_digits(body.take(i - start)),
            acc == digits_value(body.take(i - start)),
        decreases len - i,
    {
        let b = data[i];
        if b < 48 || b > 57 {
            assert(body[i - start] == b);
            return None;
        }
        let ghost prev = body.take(i - start);
        let ghost next = body.take(i - start + 1);
        assert(next.drop_last() =~= prev);
        assert(next.last() == b);
        let d = (b - 48) as u64;
        let wide: u128 = acc as u128 * 10 + d as u128;
        if wide > max as u128 {
            proof {
                if all_digits(body) {
                    lemma_digits_value_prefix(body, i - start + 1);
                }
            }
            return None;
        }
        acc = wide as u64;
        i = i + 1;
        assert(all_digits(body.take(i - start))) by {
            assert forall|j: int| 0 <= j < next.len() implies is_digit(#[trigger] next[j]) by {
                if j < prev.len() {
                    assert(next[j] == prev[j]);
                }
            }
        }
    }
    assert(body.take(len - start) =~= body);
    Some(acc)
}

/// Reads a `u8` as `str::parse` does.
pub fn parse_num_u8(data: &[u8]) -> (r: Result<u8, NmeaSentenceError>)
    ensures
        match spec_parse_uint(data@, 0xff) {
            Some(v) => r == Ok::<u8, NmeaSentenceError>(v as u8),
            None => r == Err::<u8, NmeaSentenceError>(NmeaSentenceError::GeneralParsingError),
        },
{
    match parse_uint(data, 0xff) {
        Some(v) => Ok(v as u8),
        None => Err(NmeaSentenceError::GeneralParsingError),
    }
}

/// Reads a `u16` as `str::parse` does.
pub fn parse_num_u16(data: &[u8]) -> (r: Result<u16, NmeaSentenceError>)
    ensures
        match spec_parse_uint(data@, 0xffff) {
            Some(v) => r == Ok::<u16, NmeaSentenceError>(v as u16),
            None => r == Err::<u16, NmeaSentenceError>(NmeaSentenceError::GeneralParsingError),
        },
{
    match parse_uint(data, 0xffff) {
        Some(v) => Ok(v as u16),
        None => Err(NmeaSentenceError::GeneralParsingError),
    }
}

/// Reads a `u64` as `str::parse` does.
pub fn parse_num_u64(data: &[u8]) -> (r: Result<u64, NmeaSentenceError>)
    ensures
        match spec_parse_uint(data@, u64::MAX as nat) {
            Some(v) => r == Ok::<u64, NmeaSentenceError>(v as u64),
            None => r == Err::<u64, NmeaSentenceError>(NmeaSentenceError::GeneralParsingError),
        },
{
    match parse_uint(data, u64::MAX) {
        Some(v) => Ok(v),
        None => Err(NmeaSentenceError::GeneralParsingError),
    }
}

/// Once the running value exceeds what fits, further shifts only grow it.
proof fn lemma_shift_grows(v: nat, n: nat)
    requires
        n >= 1,
    ensures
        v * pow10(n) >= v * 10,
    decreases n,
{
    if n > 1 {
        lemma_shift_grows(v, (n - 1) as nat);
        assert(v * pow10(n) == (v * pow10((n - 1) as nat)) * 10) by (nonlinear_arith)
            requires
                pow10(n) == 10 * pow10((n - 1) as nat),
        ;
        assert(v * pow10((n - 1) as nat) * 10 >= v * 10 * 10) by (nonlinear_arith)
            requires
                v * pow10((n - 1) as nat) >= v * 10,
        ;
    } else {
        assert(pow10(1) == 10 * pow10(0));
    }
}

/// Reads a fraction of `digits` places: the first digit stands at the place
/// of `10^(digits - 1)`, and missing trailing digits are zeros.
pub fn parse_num_fill(data: &[u8], digits: u8) -> (r: Result<u16, NmeaSentenceError>)
    ensures
        match spec_parse_num_fill(data@, digits as nat) {
            Some(v) => r == Ok::<u16, NmeaSentenceError>(v as u16),
            None => r == Err::<u16, NmeaSentenceError>(NmeaSentenceError::GeneralParsingError),
        },
{
    let v = match parse_uint(data, 0xffff) {
        Some(v) => v,
        None => return Err(NmeaSentenceError::GeneralParsingError),
    };
    let len = if data.len() > 0 && data[0] == 43 {
        data.len() - 1
    } else {
        data.len()
    };
    assert(len == unsigned_body(data@).len());
    if len > digits as usize {
        return Err(NmeaSentenceError::GeneralParsingError);
    }
    let mut k: usize = len;
    let mut acc: u64 = v;
    assert((k - len) as nat == 0);
    assert(pow10(0) == 1);
    assert(v * pow10(0) == v) by (nonlinear_arith)
        requires
            pow10(0) == 1,
    ;
    assert(acc == v * pow10((k - len) as nat));
    while k < digits as usize
        invariant
            len <= k <= digits,
            len == unsigned_body(data@).len(),
            spec_parse_uint(data@, 0xffff) == Some(v as nat),
            acc <= 0xffff,
            acc == v * pow10((k - len) as nat),
        decreases digits - k,
    {
        if acc > 6553 {
            proof {
                let n = (digits - len) as nat;
                let m = (k - len) as nat;
                lemma_pow10_split(m, (n - m) as nat);
                lemma_shift_grows(acc as nat, (n - m) as nat);
                assert(v * pow10(n) == acc * pow10((n - m) as nat)) by (nonlinear_arith)
                    requires
                        pow10(n) == pow10(m) * pow10((n - m) as nat),
                        acc == v * pow10(m),
                ;
                assert(acc * pow10((n - m) as nat) >= acc * 10);
                assert(v * pow10(n) > 0xffff);
            }
            return Err(NmeaSentenceError::GeneralParsingError);
        }
        proof {
            let m = (k - len) as nat;
            assert(pow10(m + 1) == 10 * pow10(m));
            assert(v * pow10(m + 1) == (v * pow10(m)) * 10) by (nonlinear_arith)
                requires
                    pow10(m + 1) == 10 * pow10(m),
            ;
        }
        acc = acc * 10;
        k = k + 1;
    }
    Ok(acc as u16)
}

proof fn lemma_pow10_split(a: nat, b: nat)
    ensures
        pow10(a + b) == pow10(a) * pow10(b),
    decreases b,
{
    if b > 0 {
        let b1 = (b - 1) as nat;
        lemma_pow10_split(a, b1);
        assert(a + b == (a + b1) + 1);
        let x = pow10(a + b1);
        let y = pow10(b1);
        let z = pow10(a);
        assert(pow10(a + b) == 10 * x);
        assert(pow10(b) == 10 * y);
        assert(10 * x == z * (10 * y)) by (nonlinear_arith)
            requires
                x == z * y,
        ;
    } else {
        assert(pow10(a) * pow10(0) == pow10(a) * 1);
    }
}


fn lower(b: u8) -> (r: u8)
    ensures
        r == ascii_lower(b),
{
    if 65 <= b && b <= 90 {
        b + 32
    } else {
        b
    }
}

/// Whether the bytes of `data` from `start` on, lowercased, spell `w`.
fn lower_matches(data: &[u8], start: usize, w: &[u8]) -> (r: bool)
    requires
        start <= data@.len(),
    ensures
        r == (lowered(data@.subrange(start as int, data@.len() as int)) == w@),
{
    let ghost u = lowered(data@.subrange(start as int, data@.len() as int));
    let dlen = data.len();
    if dlen - start != w.len() {
        return false;
    }
    let mut j: usize = 0;
    while j < w.len()
        invariant
            j <= w@.len(),
            dlen == data@.len(),
            w@.len() == u.len(),
            start + u.len() == data@.len(),
            u == lowered(data@.subrange(start as int, data@.len() as int)),
            forall|t: int| 0 <= t < j ==> u[t] == w@[t],
        decreases w@.len() - j,
    {
        if lower(data[start + j]) != w[j] {
            assert(u[j as int] == ascii_lower(data@[start + j]));
            return false;
        }
        j = j + 1;
    }
    assert(u =~= w@);
    true
}

/// Whether `data` is a text that `str::parse::<f32>` accepts: a decimal number
/// or a special value.
pub fn is_float_literal(data: &[u8]) -> (r: bool)
    ensures
        r == spec_is_float_literal(data@),
        r == (crate::float_laws::decimal_text(data@) || crate::float_laws::special_value_text(
            data@,
        )),
{
    proof {
        crate::float_laws::float_literals_are_decimals_or_special_values(data@);
    }
    scan_float_literal(data)
}

fn scan_float_literal(data: &[u8]) -> (r: bool)
    ensures
        r == spec_is_float_literal(data@),
{
    let len = data.len();
    let ghost l = lowered(data@);
    let mut start: usize = 0;
    if len > 0 && (data[0] == 43 || data[0] == 45) {
        start = 1;
    }
    let ghost u = without_sign(l);
    assert(u =~= lowered(data@.subrange(start as int, len as int)));
    if lower_matches(data, start, &[105u8, 110, 102]) || lower_matches(
        data,
        start,
        &[105u8, 110, 102, 105, 110, 105, 116, 121],
    ) || lower_matches(data, start, &[110u8, 97, 110]) {
        return true;
    }
    assert(u != word_inf() && u != word_infinity() && u != word_nan());
    let mut k = start;
    let mut seen_dot = false;
    let mut seen_digit = false;
    let ghost mut dot_at: int = 0;
    let ghost mut digit_at: int = 0;
    while k < len
        invariant
            start <= k <= len,
            len == data@.len(),
            u == without_sign(lowered(data@)),
            u != word_inf() && u != word_infinity() && u != word_nan(),
            u.len() == len - start,
            forall|j: int| 0 <= j < u.len() ==> u[j] == ascii_lower(#[trigger] data@[start + j]),
            forall|j: int| 0 <= j < k - start ==> is_digit(#[trigger] u[j]) || u[j] == 46,
            seen_dot ==> 0 <= dot_at < k - start && u[dot_at] == 46,
            forall|j: int| 0 <= j < k - start && #[trigger] u[j] == 46 ==> seen_dot && j == dot_at,
            seen_digit ==> 0 <= digit_at < k - start && is_digit(u[digit_at]),
            !seen_digit ==> forall|j: int| 0 <= j < k - start ==> !is_digit(#[trigger] u[j]),
        ensures
            start <= k <= len,
            k < len ==> u[k - start] == 101,
            forall|j: int| 0 <= j < k - start ==> is_digit(#[trigger] u[j]) || u[j] == 46,
            seen_dot ==> 0 <= dot_at < k - start && u[dot_at] == 46,
            forall|j: int| 0 <= j < k - start && #[trigger] u[j] == 46 ==> seen_dot && j == dot_at,
            seen_digit ==> 0 <= digit_at < k - start && is_digit(u[digit_at]),
            !seen_digit ==> forall|j: int| 0 <= j < k - start ==> !is_digit(#[trigger] u[j]),
        decreases len - k,
    {
        let c = lower(data[k]);
        assert(u[k - start] == ascii_lower(data@[start + (k - start)]));
        if c == 101 {
            break;
        }
        if 48 <= c && c <= 57 {
            proof {
                digit_at = k - start;
            }
            seen_digit = true;
        } else if c == 46 {
            if seen_dot {
                proof {
                    lemma_find_byte(u, 0, 101);
                    match find_byte(u, 0, 101) {
                        Some(i) => {
                            assert(u.take(i)[dot_at] == 46 && u.take(i)[k - start] == 46);
                        },
                        None => {},
                    }
                }
                return false;
            }
            proof {
                dot_at = k - start;
            }
            seen_dot = true;
        } else {
            proof {
                lemma_find_byte(u, 0, 101);
                match find_byte(u, 0, 101) {
                    Some(i) => {
                        assert(u.take(i)[k - start] == c);
                    },
                    None => {},
                }
            }
            return false;
        }
        k = k + 1;
    }
    let ghost m = k - start;
    proof {
        if seen_digit {
            if k < len {
                assert(u.take(m)[digit_at] == u[digit_at]);
            }
        } else {
            if k < len {
                assert forall|i: int| 0 <= i < u.take(m).len() implies !is_digit(
                    #[trigger] u.take(m)[i],
                ) by {
                    assert(u.take(m)[i] == u[i]);
                }
            }
        }
    }
    if k == len {
        proof {
            lemma_find_byte_absent(u, 0, 101);
        }
        return seen_digit;
    }
    proof {
        lemma_find_byte_at(u, 0, 101, m);
        assert forall|i: int| 0 <= i < u.take(m).len() implies (is_digit(#[trigger] u.take(m)[i])
            || u.take(m)[i] == 46) by {
            assert(u.take(m)[i] == u[i]);
        }
        assert forall|i: int, j: int|
            0 <= i < u.take(m).len() && 0 <= j < u.take(m).len() && #[trigger] u.take(m)[i] == 46
                && #[trigger] u.take(m)[j] == 46 implies i == j by {
            assert(u.take(m)[i] == u[i]);
            assert(u.take(m)[j] == u[j]);
        }
    }
    if !seen_digit {
        return false;
    }
    // The exponent: 'e', an optional sign, then at least one digit.
    let mut j = k + 1;
    if j < len && (data[j] == 43 || data[j] == 45) {
        j = j + 1;
    }
    let ghost e = u.skip(m);
    let ghost digs = without_sign(e.drop_first());
    assert(digs =~= u.subrange(j - start, u.len() as int));
    if j == len {
        return false;
    }
    let j0 = j;
    while j < len
        invariant
            j0 <= j <= len,
            start < j0,
            len == data@.len(),
            u == without_sign(lowered(data@)),
            u != word_inf() && u != word_infinity() && u != word_nan(),
            find_byte(u, 0, 101) == Some(m),
            is_mantissa(u.take(m)),
            e == u.skip(m),
            digs == without_sign(e.drop_first()),
            u.len() == len - start,
            digs == u.subrange(j0 - start, u.len() as int),
            forall|t: int| 0 <= t < u.len() ==> u[t] == ascii_lower(#[trigger] data@[start + t]),
            forall|t: int| 0 <= t < j - j0 ==> is_digit(#[trigger] digs[t]),
        decreases len - j,
    {
        let c = data[j];
        assert(u[j - start] == ascii_lower(data@[start + (j - start)]));
        if c < 48 || c > 57 {
            assert(digs[j - j0] == u[j - start]);
            return false;
        }
        assert(digs[j - j0] == u[j - start]);
        j = j + 1;
    }
    true
}


/// A fraction that fills all its places is read as the number it spells.
pub proof fn fill_of_full_width_is_the_number(s: Seq<u8>)
    ensures
        spec_parse_num_fill(s, unsigned_body(s).len()) == spec_parse_uint(s, 0xffff),
{
    assert(pow10(0) == 1);
    if let Some(v) = spec_parse_uint(s, 0xffff) {
        assert(v * pow10(0) == v);
    }
}

/// Missing digits of a fraction are zeros: while there is a place left,
/// writing a `0` after the last digit leaves the value as it is.
pub proof fn fill_trailing_zero_keeps_value(s: Seq<u8>, digits: nat)
    requires
        spec_parse_uint(s, 0xffff) is Some,
        unsigned_body(s).len() < digits,
    ensures
        spec_parse_num_fill(s.push(48), digits) == spec_parse_num_fill(s, digits),
{
    let b = unsigned_body(s);
    let z = s.push(48);
    let bz = unsigned_body(z);
    if s.len() > 0 && s[0] == 43 {
        assert(z[0] == 43);
        assert(bz =~= b.push(48));
    } else {
        assert(bz =~= b.push(48));
    }
    assert(bz.drop_last() =~= b);
    assert(digits_value(bz) == digits_value(b) * 10);
    assert(all_digits(bz)) by {
        assert forall|i: int| 0 <= i < bz.len() implies is_digit(#[trigger] bz[i]) by {
            if i < b.len() {
                assert(bz[i] == b[i]);
            }
        }
    }
    let v = digits_value(b);
    let n = (digits - b.len()) as nat;
    let m = (digits - bz.len()) as nat;
    assert(n == m + 1);
    assert(pow10(n) == 10 * pow10(m));
    assert(v * pow10(n) == (v * 10) * pow10(m)) by (nonlinear_arith)
        requires
            pow10(n) == 10 * pow10(m),
    ;
    if v * 10 > 0xffff {
        lemma_shift_grows(v, n);
    }
}

/// The value of digits written one after the other: the first part's value
/// shifted by the length of the second, plus the second part's value.
pub proof fn digits_value_of_concatenation(a: Seq<u8>, b: Seq<u8>)
    ensures
        digits_value(a + b) == digits_value(a) * pow10(b.len()) + digits_value(b),
    decreases b.len(),
{
    if b.len() == 0 {
        assert(a + b =~= a);
        assert(digits_value(a) * pow10(0) == digits_value(a) * 1);
    } else {
        let b1 = b.drop_last();
        digits_value_of_concatenation(a, b1);
        assert((a + b).drop_last() =~= a + b1);
        assert((a + b).last() == b.last());
        let x = digits_value(a);
        let y = digits_value(b1);
        let q = pow10(b1.len());
        assert(pow10(b.len()) == 10 * q);
        assert((x * q + y) * 10 == x * (10 * q) + y * 10) by (nonlinear_arith);
    }
}

/// A single digit is worth its digit.
pub proof fn digits_value_of_one_digit(d: u8)
    requires
        is_digit(d),
    ensures
        digits_value(seq![d]) == d - 48,
{
    assert(seq![d].drop_last() =~= Seq::<u8>::empty());
    assert(digits_value(Seq::<u8>::empty()) == 0);
    assert(seq![d].last() == d);
    assert(digits_value(seq![d]) == digits_value(seq![d].drop_last()) * 10 + (seq![d].last() - 48) as nat);
}

/// How `str::parse` reads an unsigned integer, stated by cases: a string of
/// digits reads as the number it spells when that fits and is refused when it
/// does not; a leading `+` before digits changes nothing; an empty text, a
/// lone `+`, and any text with some other byte (a second `+`, a `-`, a blank,
/// a letter) are refused.
pub proof fn unsigned_numbers_by_cases(d: Seq<u8>, max: nat)
    ensures
        d.len() > 0 && all_digits(d) ==> spec_parse_uint(d, max) == (if digits_value(d) <= max {
            Some(digits_value(d))
        } else {
            None
        }),
        d.len() > 0 && all_digits(d) ==> spec_parse_uint(seq![43u8] + d, max) == spec_parse_uint(
            d,
            max,
        ),
        spec_parse_uint(Seq::<u8>::empty(), max) is None,
        spec_parse_uint(seq![43u8], max) is None,
        (exists|i: int| 0 <= i < d.len() && !is_digit(#[trigger] d[i]) && !(i == 0 && d[i] == 43))
            ==> spec_parse_uint(d, max) is None,
{
    if d.len() > 0 && all_digits(d) {
        assert(is_digit(d[0]));
        assert(unsigned_body(d) == d);
        let pd = seq![43u8] + d;
        assert(pd[0] == 43);
        assert(unsigned_body(pd) =~= d);
    }
    assert(unsigned_body(seq![43u8]) =~= Seq::<u8>::empty());
    if exists|i: int| 0 <= i < d.len() && !is_digit(#[trigger] d[i]) && !(i == 0 && d[i] == 43) {
        let i = choose|i: int| 0 <= i < d.len() && !is_digit(#[trigger] d[i]) && !(i == 0 && d[i]
            == 43);
        let b = unsigned_body(d);
        if d.len() > 0 && d[0] == 43 {
            assert(b[i - 1] == d[i]);
        } else {
            assert(b[i] == d[i]);
        }
    }
}

/// A fraction is refused when it is no number, or when it has more digits
/// than places.
pub proof fn fill_refuses_what_does_not_fit(s: Seq<u8>, digits: nat)
    ensures
        spec_parse_uint(s, 0xffff) is None ==> spec_parse_num_fill(s, digits) is None,
        unsigned_body(s).len() > digits ==> spec_parse_num_fill(s, digits) is None,
{
}

} // verus!
