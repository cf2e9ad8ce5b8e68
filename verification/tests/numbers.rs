use nmea_parse::number::{is_float_literal, parse_num_fill, parse_uint};
use nmea_parse::error::NmeaSentenceError;

/// Every string of up to `n` bytes drawn from `alphabet`.
fn strings(alphabet: &[u8], n: usize) -> Vec<Vec<u8>> {
    let mut out = vec![Vec::new()];
    let mut layer = vec![Vec::new()];
    for _ in 0..n {
        let mut next = Vec::new();
        for s in &layer {
            for &b in alphabet {
                let mut t: Vec<u8> = s.clone();
                t.push(b);
                next.push(t);
            }
        }
        out.extend(next.iter().cloned());
        layer = next;
    }
    out
}

#[test]
fn float_literals_are_those_std_reads() {
    for s in strings(b"019.eE+-inftyaIN ", 4) {
        let std_reads = std::str::from_utf8(&s).unwrap().parse::<f32>().is_ok();
        assert_eq!(is_float_literal(&s), std_reads, "text {:?}", String::from_utf8_lossy(&s));
    }
    for s in [&b"infinity"[..], b"-Infinity", b"+NaN", b"INF", b"infinit", b"1e+05", b"1.5E-3", b".e1", b"1..2"] {
        let std_reads = std::str::from_utf8(s).unwrap().parse::<f32>().is_ok();
        assert_eq!(is_float_literal(s), std_reads, "text {:?}", String::from_utf8_lossy(s));
    }
}

#[test]
fn unsigned_numbers_are_those_std_reads() {
    for s in strings(b"0129+- a", 4) {
        let text = std::str::from_utf8(&s).unwrap();
        assert_eq!(parse_uint(&s, 0xff), text.parse::<u8>().ok().map(|v| v as u64), "text {:?}", text);
        assert_eq!(parse_uint(&s, 0xffff), text.parse::<u16>().ok().map(|v| v as u64), "text {:?}", text);
    }
    assert_eq!(parse_uint(b"255", 0xff), Some(255));
    assert_eq!(parse_uint(b"256", 0xff), None);
    assert_eq!(parse_uint(b"18446744073709551615", u64::MAX), Some(u64::MAX));
    assert_eq!(parse_uint(b"18446744073709551616", u64::MAX), None);
}

#[test]
fn fraction_digits_missing_are_zeros() {
    assert_eq!(parse_num_fill(b"860", 3), Ok(860));
    assert_eq!(parse_num_fill(b"5", 3), Ok(500));
    assert_eq!(parse_num_fill(b"28", 3), Ok(280));
    assert_eq!(parse_num_fill(b"000", 3), Ok(0));
    assert_eq!(parse_num_fill(b"1234", 3), Err(NmeaSentenceError::GeneralParsingError));
    assert_eq!(parse_num_fill(b"", 3), Err(NmeaSentenceError::GeneralParsingError));
    assert_eq!(parse_num_fill(b"7", 5), Err(NmeaSentenceError::GeneralParsingError));
    assert_eq!(parse_num_fill(b"6", 5), Ok(60000));
    // A leading `+` takes no place.
    assert_eq!(parse_num_fill(b"+5", 3), Ok(500));
    assert_eq!(parse_num_fill(b"+860", 3), Ok(860));
    assert_eq!(parse_num_fill(b"+8601", 3), Err(NmeaSentenceError::GeneralParsingError));
}
