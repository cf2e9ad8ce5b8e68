use nmea_parse::error::{NmeaSentenceError, ParseError};
use nmea_parse::fields::{invalid_height_check, parse_speed};
use nmea_parse::gll::{build_gll, parse_gll, GllStatus};
use nmea_parse::number::{is_float_literal, parse_num_fill, parse_num_u16, parse_num_u64, parse_num_u8};
use nmea_parse::rmc::{build_rmc, parse_rmc, RmStatus};
use nmea_parse::types::{GpsTime, LatitudeDirection, LongitudeDirection};
use nmea_parse::vtg::parse_vtg;
use nmea_parse::{txt, zda};

#[test]
fn parse_stops_after_first_star() {
    let (rest, _) = parse_gll(b",,,,175936.860,V,M*4F\r\n").unwrap();
    assert_eq!(rest, &b"4F\r\n"[..]);
    let (rest, _) = parse_vtg(b",,,,,,,,M*33*").unwrap();
    assert_eq!(rest, &b"33*"[..]);
    let (rest, _) = txt::parse(b"01,01,02,HELLO*5A").unwrap();
    assert_eq!(rest, &b"5A"[..]);
    let (rest, _) = zda::parse(b"084929.282,09,05,2022,00,00*6E").unwrap();
    assert_eq!(rest, &b"6E"[..]);
    let (rest, _) = parse_rmc(b",V,,,,,,,,,,N,V*2B").unwrap();
    assert_eq!(rest, &b"2B"[..]);
}

#[test]
fn a_match_is_unchanged_by_what_follows() {
    let s: &[u8] = b"163428.000,A,0053.9,N,00002.33,E,0.58,0.00,080522,,,E,V*";
    let mut longer = s.to_vec();
    longer.extend_from_slice(b"7C\r\n$GPGGA,...");
    let (_, a) = parse_rmc(s).unwrap();
    let (rest, b) = parse_rmc(&longer).unwrap();
    assert_eq!(a, b);
    assert_eq!(rest, &b"7C\r\n$GPGGA,..."[..]);
    let g: &[u8] = b"4916.45,N,12311.12,W,225444.5,A,A*";
    let mut g2 = g.to_vec();
    g2.extend_from_slice(b"1D");
    assert_eq!(parse_gll(g).unwrap().1, parse_gll(&g2).unwrap().1);
}

#[test]
fn vtg_decision_stays_with_more_input() {
    // Undecided: the input ends inside the true bearing.
    assert_eq!(parse_vtg(b"054.7"), Err(ParseError::Incomplete));
    // Decided not to match: a unit letter that is not `T`.
    assert_eq!(parse_vtg(b"054.7,X,"), Err(ParseError::Invalid));
    assert_eq!(parse_vtg(b"054.7,X,034.4,M,005.5,N,010.2,K*48"), Err(ParseError::Invalid));
}

#[test]
fn truncated_sentences_ask_for_more() {
    assert_eq!(parse_gll(b",,,,175936.860,V,M"), Err(ParseError::Incomplete));
    assert_eq!(parse_gll(b",,,,175936.860,"), Err(ParseError::Incomplete));
    assert_eq!(parse_rmc(b"163428.000,A,"), Err(ParseError::Incomplete));
    // A position cut short is read as a final input: its field is refused.
    assert_eq!(parse_rmc(b"163428.000,A,0053.9"), Err(ParseError::Invalid));
    // Readers of a complete input refuse instead.
    assert_eq!(txt::parse(b"01,01,01,ANTENNA OPEN"), Err(ParseError::Invalid));
    assert_eq!(zda::parse(b"084929.282,09,05"), Err(ParseError::Invalid));
}

#[test]
fn gll_with_position_and_time() {
    let (rest, d) = parse_gll(b"4916.45,N,12311.12,W,225444.5,A,A*").unwrap();
    assert_eq!(rest, &b""[..]);
    let p = d.position.unwrap();
    assert_eq!((p.lat_deg, p.lat_min, p.lat_dir), (49, &b"16.45"[..], LatitudeDirection::North));
    assert_eq!((p.lon_deg, p.lon_min, p.lon_dir), (123, &b"11.12"[..], LongitudeDirection::West));
    // A fraction of one digit is in tenths: `.5` is 500 ms.
    assert_eq!(d.time, Some(GpsTime { hour: 22, minute: 54, second: 44, millisecond: 500 }));
    assert_eq!(d.status, Some(GllStatus::DataValid));
}

#[test]
fn gll_refuses_a_broken_position() {
    assert_eq!(parse_gll(b"49x6.45,N,12311.12,W,225444.5,A*"), Err(ParseError::Invalid));
    assert_eq!(parse_gll(b",,,,1759.860,V*"), Err(ParseError::Invalid));
}

#[test]
fn status_letters() {
    assert_eq!(GllStatus::from_char('P'), Ok(GllStatus::Precise));
    assert_eq!(GllStatus::from_char('X'), Err(NmeaSentenceError::InvalidStatus('X')));
    assert_eq!(RmStatus::from_char('V'), Ok(RmStatus::Void));
    assert_eq!(LatitudeDirection::from_char('S'), Ok(LatitudeDirection::South));
    assert_eq!(LongitudeDirection::from_char('N'), Err(NmeaSentenceError::InvalidStatus('N')));
}

#[test]
fn build_gll_checks_the_status() {
    let time = Some(GpsTime { hour: 1, minute: 2, second: 3, millisecond: 4 });
    let d = build_gll((None, time, Some('A'))).unwrap();
    assert_eq!(d.status, Some(GllStatus::DataValid));
    assert_eq!(d.time, time);
    assert_eq!(build_gll((None, None, Some('Q'))), Err(NmeaSentenceError::InvalidStatus('Q')));
    assert_eq!(build_gll((None, None, None)).unwrap().status, None);
}

#[test]
fn build_rmc_checks_status_before_direction() {
    let ok = build_rmc((None, Some('A'), None, Some((1, 2)), None, None, Some(&b"3.1"[..]), Some('W')))
        .unwrap();
    assert_eq!(ok.status, Some(RmStatus::Active));
    assert_eq!(ok.magnetic_direction, Some(LongitudeDirection::West));
    assert_eq!(ok.magnetic_variation, Some(&b"3.1"[..]));
    assert_eq!(
        build_rmc((None, Some('Z'), None, None, None, None, None, Some('Q'))),
        Err(NmeaSentenceError::InvalidStatus('Z'))
    );
    assert_eq!(
        build_rmc((None, None, None, None, None, None, None, Some('Q'))),
        Err(NmeaSentenceError::InvalidStatus('Q'))
    );
}

#[test]
fn speeds() {
    assert_eq!(parse_speed(b"0.58"), Ok((0, 58)));
    assert_eq!(parse_speed(b"0.5"), Ok((0, 5)));
    assert_eq!(parse_speed(b"12.345"), Err(ParseError::Invalid));
    assert_eq!(parse_speed(b"12"), Err(ParseError::Invalid));
    assert_eq!(parse_speed(b".5"), Err(ParseError::Invalid));
    assert_eq!(parse_speed(b"65535.255"), Ok((65535, 255)));
    assert_eq!(parse_speed(b"65536.0"), Err(ParseError::Invalid));
}

#[test]
fn heights() {
    assert_eq!(invalid_height_check(None), Ok(None));
    assert_eq!(invalid_height_check(Some(b"-")), Ok(None));
    assert_eq!(invalid_height_check(Some(b"")), Ok(None));
    assert_eq!(invalid_height_check(Some(b"12.5")), Ok(Some(&b"12.5"[..])));
    assert_eq!(invalid_height_check(Some(b"-12.5")), Ok(Some(&b"-12.5"[..])));
    assert_eq!(invalid_height_check(Some(b"--")), Err(NmeaSentenceError::GeneralParsingError));
}

#[test]
fn integers() {
    assert_eq!(parse_num_u8(b"+7"), Ok(7));
    assert_eq!(parse_num_u8(b"256"), Err(NmeaSentenceError::GeneralParsingError));
    assert_eq!(parse_num_u16(b"2022"), Ok(2022));
    assert_eq!(parse_num_u64(b"22"), Ok(22));
    assert_eq!(parse_num_u8(b"-1"), Err(NmeaSentenceError::GeneralParsingError));
}

#[test]
fn fraction_law_on_values() {
    // Writing a zero after the last digit leaves the value.
    assert_eq!(parse_num_fill(b"5", 3), parse_num_fill(b"50", 3));
    assert_eq!(parse_num_fill(b"50", 3), parse_num_fill(b"500", 3));
    // A fraction that fills all places is the number it spells.
    assert_eq!(parse_num_fill(b"042", 3), Ok(42));
}

#[test]
fn float_texts() {
    assert!(is_float_literal(b"53.9"));
    assert!(is_float_literal(b"1E5"));
    assert!(is_float_literal(b"-inf"));
    assert!(is_float_literal(b"NaN"));
    assert!(!is_float_literal(b""));
    assert!(!is_float_literal(b"."));
    assert!(!is_float_literal(b"1e"));
}

#[test]
fn zda_partial_date_and_zone() {
    let (_, d) = zda::parse(b"084929.282,09,,2022,00,*").unwrap();
    assert_eq!(d.date, None);
    assert_eq!(d.zone, None);
    let (_, d) = zda::parse(b",09,05,2022,,00*").unwrap();
    assert_eq!(d.time, None);
    assert_eq!(d.date, Some(nmea_parse::types::GpsDate { day: 9, month: 5, year: 2022 }));
    assert_eq!(d.zone, None);
    // A field that holds something other than a number is refused.
    assert_eq!(zda::parse(b",09,05,2022,-1,00*"), Err(ParseError::Invalid));
}

#[test]
fn txt_fields_that_are_not_numbers() {
    let (_, d) = txt::parse(b",,,text with, commas*").unwrap();
    assert_eq!((d.total, d.sentence, d.id), (None, None, None));
    assert_eq!(d.text, &b"text with, commas"[..]);
    assert_eq!(txt::parse(b"01,300,01,text*"), Err(ParseError::Invalid));
    assert_eq!(txt::parse(b"01,x,01,text*"), Err(ParseError::Invalid));
}

#[test]
fn zda_zone_fields_are_stored_crosswise() {
    let (_, d) = zda::parse(b"084929.282,09,05,2022,05,30*").unwrap();
    assert_eq!(d.zone, Some(nmea_parse::zda::Zone { hours: 30, minutes: 5 }));
}

#[test]
fn rmc_by_fields_with_an_empty_position() {
    let (rest, d) = parse_rmc(b"123519.00,A,,0.5,,,,*").unwrap();
    assert_eq!(rest, &b""[..]);
    assert_eq!(d.time, Some(GpsTime { hour: 12, minute: 35, second: 19, millisecond: 0 }));
    assert_eq!(d.status, Some(RmStatus::Active));
    assert_eq!(d.position, None);
    assert_eq!(d.speed_knots, Some((0, 5)));
    assert_eq!((d.heading, d.date, d.magnetic_variation, d.magnetic_direction), (None, None, None, None));
}

#[test]
fn signed_fraction_counts_only_its_digits() {
    let (_, d) = parse_gll(b",,,,175936.+86,V*").unwrap();
    assert_eq!(d.time, Some(GpsTime { hour: 17, minute: 59, second: 36, millisecond: 860 }));
}
