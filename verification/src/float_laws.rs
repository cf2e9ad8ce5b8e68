use vstd::prelude::*;
use crate::number::{
    all_digits, ascii_lower, is_digit, is_exponent, is_mantissa, is_number, is_sign, lowered,
    spec_is_float_literal, without_sign, word_inf, word_infinity, word_nan,
};
use crate::scan::{find_byte, lemma_find_byte, lemma_find_byte_absent, lemma_find_byte_at};

verus! {

/// An optional sign: nothing, `+` or `-`.
pub open spec fn sign_text(t: Seq<u8>) -> bool {
    t.len() == 0 || t == seq![43u8] || t == seq![45u8]
}

/// An optional exponent: nothing, or `e` or `E`, an optional sign, and at
/// least one digit.
pub open spec fn exponent_text(e: Seq<u8>) -> bool {
    e.len() == 0 || ((e[0] == 101 || e[0] == 69) && ((e.len() >= 2 && all_digits(e.skip(1))) || (
    e.len() >= 3 && (e[1] == 43 || e[1] == 45) && all_digits(e.skip(2)))))
}

proof fn lemma_lower_keeps(b: u8)
    requires
        !(65 <= b <= 90),
    ensures
        ascii_lower(b) == b,
{
}

/// Decimal numbers are float literals: an optional sign, digits, an optional
/// dot and further digits (at least one digit in all), and an optional
/// exponent, is a text that `str::parse::<f32>` accepts. So `16.4512`,
/// `054.7`, `-0.5`, `.5`, `7.` and `1.5E-3` all are.
pub proof fn decimal_texts_are_float_literals(
    sign: Seq<u8>,
    whole: Seq<u8>,
    dot: Seq<u8>,
    frac: Seq<u8>,
    exp: Seq<u8>,
)
    requires
        sign_text(sign),
        all_digits(whole),
        dot.len() == 0 || dot == seq![46u8],
        all_digits(frac),
        dot.len() == 0 ==> frac.len() == 0,
        whole.len() + frac.len() >= 1,
        exponent_text(exp),
    ensures
        spec_is_float_literal(sign + whole + dot + frac + exp),
{
    let m = whole + dot + frac;
    let t = sign + m + exp;
    assert(t =~= sign + whole + dot + frac + exp);
    let l = lowered(t);
    let k = m.len() as int;
    let le = lowered(exp);
    // Lowercasing changes nothing but an `E` of the exponent.
    assert forall|i: int| 0 <= i < m.len() implies is_digit(#[trigger] m[i]) || m[i] == 46 by {
        if i < whole.len() {
            assert(m[i] == whole[i]);
        } else if i < whole.len() + dot.len() {
            assert(m[i] == dot[i - whole.len()]);
        } else {
            assert(m[i] == frac[i - whole.len() - dot.len()]);
        }
    }
    let u = m + le;
    assert(without_sign(l) =~= u) by {
        assert forall|i: int| 0 <= i < sign.len() implies l[i] == sign[i] by {
            assert(t[i] == sign[i]);
        }
        assert forall|i: int| 0 <= i < m.len() implies l[sign.len() + i] == m[i] by {
            assert(t[sign.len() + i] == m[i]);
        }
        assert forall|i: int| 0 <= i < exp.len() implies l[sign.len() + k + i] == le[i] by {
            assert(t[sign.len() + k + i] == exp[i]);
        }
        if sign.len() == 1 {
            assert(l[0] == sign[0]);
        } else {
            assert(l[0] == m[0]);
        }
    }
    // The mantissa.
    assert(is_mantissa(m)) by {
        if whole.len() > 0 {
            assert(m[0] == whole[0]);
        } else {
            assert(m[k - 1] == frac[frac.len() - 1]);
        }
        assert forall|i: int, j: int|
            0 <= i < m.len() && 0 <= j < m.len() && #[trigger] m[i] == 46 && #[trigger] m[j]
                == 46 implies i == j by {
            if i < whole.len() {
                assert(m[i] == whole[i]);
            } else if i >= whole.len() + dot.len() {
                assert(m[i] == frac[i - whole.len() - dot.len()]);
            }
            if j < whole.len() {
                assert(m[j] == whole[j]);
            } else if j >= whole.len() + dot.len() {
                assert(m[j] == frac[j - whole.len() - dot.len()]);
            }
        }
    }
    assert forall|i: int| 0 <= i < k implies u[i] != 101 by {
        assert(u[i] == m[i]);
    }
    assert(u[0] == m[0]);
    assert(u != word_inf() && u != word_infinity() && u != word_nan()) by {
        assert(word_inf()[0] == 105 && word_infinity()[0] == 105 && word_nan()[0] == 110);
    }
    if exp.len() == 0 {
        assert(u =~= m);
        lemma_find_byte_absent(u, 0, 101);
    } else {
        assert(le[0] == 101);
        assert(u[k] == le[0]);
        lemma_find_byte_at(u, 0, 101, k);
        assert(u.take(k) =~= m);
        assert(u.skip(k) =~= le);
        let r = le.drop_first();
        assert forall|i: int| 0 <= i < r.len() implies r[i] == exp[i + 1] by {
            assert(exp[i + 1] == exp.skip(1)[i]);
            if exp.len() >= 3 && (exp[1] == 43 || exp[1] == 45) && i >= 1 {
                assert(exp[i + 1] == exp.skip(2)[i - 1]);
            }
        }
        if exp.len() >= 3 && (exp[1] == 43 || exp[1] == 45) {
            assert(r[0] == exp[1]);
            assert(exp.skip(1)[0] == exp[1]);
            assert(all_digits(exp.skip(2)));
            assert(without_sign(r) =~= r.drop_first());
            assert forall|i: int| 0 <= i < without_sign(r).len() implies is_digit(
                #[trigger] without_sign(r)[i],
            ) by {
                assert(without_sign(r)[i] == r[i + 1]);
                assert(exp.skip(2)[i] == exp[i + 2]);
            }
        } else {
            assert(all_digits(exp.skip(1)));
            assert(!is_sign(r[0])) by {
                assert(exp.skip(1)[0] == exp[1]);
            }
            assert forall|i: int| 0 <= i < r.len() implies is_digit(#[trigger] r[i]) by {
                assert(exp.skip(1)[i] == exp[i + 1]);
            }
        }
        assert(is_exponent(le));
    }
}

/// The names `inf`, `infinity` and `nan`, in any mix of capitals and small
/// letters and after an optional sign, are float literals.
pub proof fn special_values_are_float_literals(sign: Seq<u8>, word: Seq<u8>)
    requires
        sign_text(sign),
        lowered(word) == word_inf() || lowered(word) == word_infinity() || lowered(word)
            == word_nan(),
    ensures
        spec_is_float_literal(sign + word),
{
    let t = sign + word;
    let l = lowered(t);
    assert(without_sign(l) =~= lowered(word)) by {
        assert forall|i: int| 0 <= i < word.len() implies l[sign.len() + i] == lowered(word)[i] by {
            assert(t[sign.len() + i] == word[i]);
        }
        if sign.len() == 1 {
            assert(t[0] == sign[0]);
        } else {
            assert(l[0] == lowered(word)[0]);
        }
    }
}

/// A float literal is not empty, and holds only digits, dots, signs, the
/// exponent letter and the letters of `inf`, `infinity` and `nan`, in capitals
/// or small letters: no comma, `*` or blank is ever part of one.
pub proof fn float_literal_alphabet(s: Seq<u8>)
    requires
        spec_is_float_literal(s),
    ensures
        s.len() > 0,
        forall|i: int|
            0 <= i < s.len() ==> is_digit(#[trigger] s[i]) || s[i] == 46 || s[i] == 43 || s[i]
                == 45 || ascii_lower(s[i]) == 101 || ascii_lower(s[i]) == 105 || ascii_lower(s[i])
                == 110 || ascii_lower(s[i]) == 102 || ascii_lower(s[i]) == 116 || ascii_lower(s[i])
                == 121 || ascii_lower(s[i]) == 97,
{
    let l = lowered(s);
    let u = without_sign(l);
    let off: int = if l.len() > 0 && is_sign(l[0]) { 1 } else { 0 };
    assert(u.len() > 0) by {
        if u == word_inf() || u == word_infinity() || u == word_nan() {
        } else {
            match find_byte(u, 0, 101) {
                Some(k) => {},
                None => {
                    let i = choose|i: int| 0 <= i < u.len() && is_digit(#[trigger] u[i]);
                },
            }
        }
    }
    assert forall|j: int| 0 <= j < u.len() implies is_digit(#[trigger] u[j]) || u[j] == 46 || u[j]
        == 43 || u[j] == 45 || u[j] == 101 || u[j] == 105 || u[j] == 110 || u[j] == 102 || u[j]
        == 116 || u[j] == 121 || u[j] == 97 by {
        if u == word_inf() || u == word_infinity() || u == word_nan() {
        } else {
            match find_byte(u, 0, 101) {
                Some(k) => {
                    crate::scan::lemma_find_byte(u, 0, 101);
                    if j < k {
                        assert(u.take(k)[j] == u[j]);
                    } else if j > k {
                        let r = u.skip(k).drop_first();
                        assert(r[j - k - 1] == u[j]);
                        if r.len() > 0 && is_sign(r[0]) {
                            if j - k - 1 > 0 {
                                assert(without_sign(r)[j - k - 2] == r[j - k - 1]);
                            }
                        } else {
                            assert(without_sign(r)[j - k - 1] == r[j - k - 1]);
                        }
                    }
                },
                None => {},
            }
        }
    }
    assert forall|i: int| 0 <= i < s.len() implies is_digit(#[trigger] s[i]) || s[i] == 46 || s[i]
        == 43 || s[i] == 45 || ascii_lower(s[i]) == 101 || ascii_lower(s[i]) == 105 || ascii_lower(
        s[i],
    ) == 110 || ascii_lower(s[i]) == 102 || ascii_lower(s[i]) == 116 || ascii_lower(s[i]) == 121
        || ascii_lower(s[i]) == 97 by {
        assert(l[i] == ascii_lower(s[i]));
        if off == 1 {
            if i > 0 {
                assert(u[i - 1] == l[i]);
            }
        } else {
            assert(u[i] == l[i]);
        }
    }
}

/// The parts of a decimal text: an optional sign, digits, an optional dot and
/// further digits (a dot-less text has no further digits; at least one digit
/// in all), and an optional exponent.
pub open spec fn decimal_parts(
    sign: Seq<u8>,
    whole: Seq<u8>,
    dot: Seq<u8>,
    frac: Seq<u8>,
    exp: Seq<u8>,
) -> bool {
    &&& sign_text(sign)
    &&& all_digits(whole)
    &&& (dot.len() == 0 || dot == seq![46u8])
    &&& all_digits(frac)
    &&& (dot.len() == 0 ==> frac.len() == 0)
    &&& whole.len() + frac.len() >= 1
    &&& exponent_text(exp)
}

/// A decimal text: made of the parts of `decimal_parts`.
pub open spec fn decimal_text(s: Seq<u8>) -> bool {
    exists|sign: Seq<u8>, whole: Seq<u8>, dot: Seq<u8>, frac: Seq<u8>, exp: Seq<u8>|
        #![trigger decimal_parts(sign, whole, dot, frac, exp)]
        decimal_parts(sign, whole, dot, frac, exp) && s == sign + whole + dot + frac + exp
}

/// A special value: an optional sign and `inf`, `infinity` or `nan` in any
/// mix of capitals and small letters.
pub open spec fn special_value_text(s: Seq<u8>) -> bool {
    exists|sign: Seq<u8>, word: Seq<u8>|
        #![trigger sign_text(sign), lowered(word)]
        sign_text(sign) && (lowered(word) == word_inf() || lowered(word) == word_infinity()
            || lowered(word) == word_nan()) && s == sign + word
}

proof fn lemma_lower_back(b: u8)
    ensures
        ascii_lower(b) < 97 || ascii_lower(b) > 122 ==> ascii_lower(b) == b,
        ascii_lower(b) == 101 ==> b == 101 || b == 69,
{
}

/// The float literals are exactly the decimal texts and the special values:
/// a text is accepted if and only if it is one of them.
pub proof fn float_literals_are_decimals_or_special_values(s: Seq<u8>)
    ensures
        spec_is_float_literal(s) <==> decimal_text(s) || special_value_text(s),
{
    if decimal_text(s) {
        let (sign, whole, dot, frac, exp) = choose|
            sign: Seq<u8>,
            whole: Seq<u8>,
            dot: Seq<u8>,
            frac: Seq<u8>,
            exp: Seq<u8>,
        |
            #![trigger decimal_parts(sign, whole, dot, frac, exp)]
            decimal_parts(sign, whole, dot, frac, exp) && s == sign + whole + dot + frac + exp;
        decimal_texts_are_float_literals(sign, whole, dot, frac, exp);
    }
    if special_value_text(s) {
        let (sign, word) = choose|sign: Seq<u8>, word: Seq<u8>|
            #![trigger sign_text(sign), lowered(word)]
            sign_text(sign) && (lowered(word) == word_inf() || lowered(word) == word_infinity()
                || lowered(word) == word_nan()) && s == sign + word;
        special_values_are_float_literals(sign, word);
    }
    if spec_is_float_literal(s) {
        lemma_float_literal_parts(s);
    }
}

proof fn lemma_unsigned_part(s: Seq<u8>) -> (r: (Seq<u8>, Seq<u8>))
    ensures
        sign_text(r.0),
        s == r.0 + r.1,
        without_sign(lowered(s)) == lowered(r.1),
{
    let l = lowered(s);
    let signed = s.len() > 0 && is_sign(s[0]);
    let sg = if signed {
        s.take(1)
    } else {
        Seq::<u8>::empty()
    };
    let v = s.skip(sg.len() as int);
    assert(s =~= sg + v);
    if s.len() > 0 {
        lemma_lower_back(s[0]);
        assert(l[0] == ascii_lower(s[0]));
    }
    assert(sign_text(sg)) by {
        if signed {
            if s[0] == 43 {
                assert(sg =~= seq![43u8]);
            } else {
                assert(sg =~= seq![45u8]);
            }
        }
    }
    assert(without_sign(l) =~= lowered(v)) by {
        assert forall|i: int| 0 <= i < v.len() implies lowered(v)[i] == l[sg.len() + i] by {
            assert(v[i] == s[sg.len() + i]);
        }
    }
    (sg, v)
}

proof fn lemma_mantissa_is_kept(m: Seq<u8>)
    requires
        is_mantissa(lowered(m)),
    ensures
        lowered(m) == m,
{
    let um = lowered(m);
    assert forall|i: int| 0 <= i < m.len() implies um[i] == m[i] by {
        assert(is_digit(um[i]) || um[i] == 46);
        lemma_lower_back(m[i]);
    }
    assert(um =~= m);
}

proof fn lemma_mantissa_parts(m: Seq<u8>) -> (r: (Seq<u8>, Seq<u8>, Seq<u8>))
    requires
        is_mantissa(m),
    ensures
        m == r.0 + r.1 + r.2,
        all_digits(r.0),
        r.1.len() == 0 || r.1 == seq![46u8],
        all_digits(r.2),
        r.1.len() == 0 ==> r.2.len() == 0,
        r.0.len() + r.2.len() >= 1,
{
    let witness = choose|i: int| 0 <= i < m.len() && is_digit(#[trigger] m[i]);
    lemma_find_byte(m, 0, 46);
    let (whole, dot, frac) = match find_byte(m, 0, 46) {
        Some(j) => (m.take(j), seq![46u8], m.skip(j + 1)),
        None => (m, Seq::<u8>::empty(), Seq::<u8>::empty()),
    };
    assert(m =~= whole + dot + frac);
    assert(all_digits(whole)) by {
        assert forall|i: int| 0 <= i < whole.len() implies is_digit(#[trigger] whole[i]) by {
            assert(whole[i] == m[i]);
        }
    }
    assert(all_digits(frac)) by {
        if let Some(j) = find_byte(m, 0, 46) {
            assert forall|i: int| 0 <= i < frac.len() implies is_digit(#[trigger] frac[i]) by {
                assert(frac[i] == m[j + 1 + i]);
                if m[j + 1 + i] == 46 {
                    assert(m[j] == 46);
                }
            }
        }
    }
    assert(whole.len() + frac.len() >= 1) by {
        if let Some(j) = find_byte(m, 0, 46) {
            assert(witness != j);
        }
    }
    (whole, dot, frac)
}

proof fn lemma_exponent_part(exp: Seq<u8>)
    requires
        is_exponent(lowered(exp)),
    ensures
        exponent_text(exp),
{
    let ue = lowered(exp);
    lemma_lower_back(exp[0]);
    let r = ue.drop_first();
    assert forall|i: int| 0 <= i < r.len() implies r[i] == ascii_lower(exp[i + 1]) by {
        assert(r[i] == ue[i + 1]);
    }
    if is_sign(r[0]) {
        lemma_lower_back(exp[1]);
        assert forall|i: int| 0 <= i < exp.skip(2).len() implies is_digit(
            #[trigger] exp.skip(2)[i],
        ) by {
            assert(without_sign(r)[i] == r[i + 1]);
            lemma_lower_back(exp[i + 2]);
        }
    } else {
        assert forall|i: int| 0 <= i < exp.skip(1).len() implies is_digit(
            #[trigger] exp.skip(1)[i],
        ) by {
            assert(without_sign(r)[i] == r[i]);
            lemma_lower_back(exp[i + 1]);
        }
    }
}

proof fn lemma_float_literal_parts(s: Seq<u8>)
    requires
        spec_is_float_literal(s),
    ensures
        decimal_text(s) || special_value_text(s),
{
    let (sg, v) = lemma_unsigned_part(s);
    let u = lowered(v);
    if u == word_inf() || u == word_infinity() || u == word_nan() {
        assert(sign_text(sg) && lowered(v) == u && s == sg + v);
        return;
    }
    assert(is_number(u));
    lemma_find_byte(u, 0, 101);
    let k: int = match find_byte(u, 0, 101) {
        Some(k) => k,
        None => u.len() as int,
    };
    let m = v.take(k);
    let exp = v.skip(k);
    assert(v =~= m + exp);
    assert(lowered(m) =~= u.take(k));
    assert(lowered(exp) =~= u.skip(k));
    if k == u.len() {
        assert(u.take(k) =~= u);
    }
    lemma_mantissa_is_kept(m);
    let (whole, dot, frac) = lemma_mantissa_parts(m);
    if k < u.len() {
        lemma_exponent_part(exp);
    } else {
        assert(exp.len() == 0);
    }
    assert(s =~= sg + whole + dot + frac + exp);
    assert(decimal_parts(sg, whole, dot, frac, exp));
}

} // verus!
