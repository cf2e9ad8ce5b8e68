//! The sentence parsers held against the same grammars written with nom's
//! parser functions, over sample sentences and many variations of them.

use nmea_parse::error::ParseError;
use nmea_parse::gll::{parse_gll, GllStatus};
use nmea_parse::rmc::{parse_rmc, RmStatus};
use nmea_parse::types::{GpsPosition, LatitudeDirection, LongitudeDirection};
use nmea_parse::vtg::parse_vtg;
use nmea_parse::{txt, zda};

use nom::branch::alt;
use nom::bytes::complete as bc;
use nom::bytes::streaming as bs;
use nom::character::complete as cc;
use nom::character::streaming as cs;
use nom::combinator::{complete, map_res, opt, rest, value};

type E<'a> = nom::error::Error<&'a [u8]>;
type R<'a, O> = nom::IResult<&'a [u8], O, E<'a>>;

#[derive(Debug, PartialEq)]
enum Outcome<T> {
    Done(usize, T),
    Incomplete,
    Invalid,
}

fn from_nom<'a, T, U>(r: R<'a, T>, f: impl Fn(T) -> U) -> Outcome<U> {
    match r {
        Ok((rest, v)) => Outcome::Done(rest.len(), f(v)),
        Err(nom::Err::Incomplete(_)) => Outcome::Incomplete,
        Err(_) => Outcome::Invalid,
    }
}

fn from_lib<'a, T, U>(r: Result<(&'a [u8], T), ParseError>, f: impl Fn(T) -> U) -> Outcome<U> {
    match r {
        Ok((rest, v)) => Outcome::Done(rest.len(), f(v)),
        Err(ParseError::Incomplete) => Outcome::Incomplete,
        Err(ParseError::Invalid) => Outcome::Invalid,
    }
}

fn pn<T: std::str::FromStr>(d: &[u8]) -> Result<T, ()> {
    std::str::from_utf8(d).map_err(|_| ())?.parse::<T>().map_err(|_| ())
}

fn bits(text: &[u8]) -> u32 {
    pn::<f32>(text).unwrap().to_bits()
}

fn opt_bits(text: Option<&[u8]>) -> Option<u32> {
    text.map(bits)
}

/// A fraction of a second in thousandths, missing digits being zeros.
fn fill(d: &[u8]) -> Result<u16, ()> {
    let v: u16 = pn(d)?;
    // The places are those of the digits, after an optional `+`.
    let places = if d.first() == Some(&b'+') { d.len() - 1 } else { d.len() };
    if places > 3 {
        return Err(());
    }
    let mut a = v as u32;
    for _ in places..3 {
        a *= 10;
    }
    if a > 0xffff {
        Err(())
    } else {
        Ok(a as u16)
    }
}

type Time = (u8, u8, u8, u16);
type Pos = (u8, u32, char, u8, u32, char);

fn r_utc(i: &[u8]) -> R<Time> {
    let (i, h) = map_res(bs::take(2usize), pn::<u8>)(i)?;
    let (i, m) = map_res(bs::take(2usize), pn::<u8>)(i)?;
    let (i, s) = map_res(bs::take(2usize), pn::<u8>)(i)?;
    let (i, _) = cs::char('.')(i)?;
    let (i, ms) = map_res(bs::take_until(","), fill)(i)?;
    Ok((i, (h, m, s, ms)))
}

fn r_date(i: &[u8]) -> R<(u8, u8, u64)> {
    let (i, d) = map_res(bs::take(2usize), pn::<u8>)(i)?;
    let (i, m) = map_res(bs::take(2usize), pn::<u8>)(i)?;
    let (i, y) = map_res(bs::take(2usize), pn::<u64>)(i)?;
    Ok((i, (d, m, y)))
}

fn r_pos(i: &[u8]) -> R<Pos> {
    let (i, a) = map_res(bs::take(2usize), pn::<u8>)(i)?;
    let (i, b) = map_res(bs::take_until(","), pn::<f32>)(i)?;
    let (i, _) = cs::char(',')(i)?;
    let (i, c) = cs::one_of("NS")(i)?;
    let (i, _) = cs::char(',')(i)?;
    let (i, d) = map_res(bs::take(3usize), pn::<u8>)(i)?;
    let (i, e) = map_res(bs::take_until(","), pn::<f32>)(i)?;
    let (i, _) = cs::char(',')(i)?;
    let (i, f) = cs::one_of("EW")(i)?;
    Ok((i, (a, b.to_bits(), c, d, e.to_bits(), f)))
}

fn r_speed(inp: &[u8]) -> Result<(u16, u8), nom::Err<E>> {
    let (inp, whole) = map_res(bc::take_until("."), pn::<u16>)(inp)?;
    let (inp, _) = cc::char('.')(inp)?;
    let (_, hundredths) = map_res(rest, pn::<u8>)(inp)?;
    Ok((whole, hundredths))
}

fn r_gll(i: &[u8]) -> R<(Option<Pos>, Option<Time>, Option<char>)> {
    let (i, position) = complete(alt((
        complete(nom::combinator::map(r_pos, Some)),
        value(None, bc::tag(",,,")),
    )))(i)?;
    let (i, _) = cs::char(',')(i)?;
    let (i, time) = opt(complete(r_utc))(i)?;
    let (i, _) = cs::char(',')(i)?;
    let (i, status) = opt(cs::one_of("AVP"))(i)?;
    let (i, _) = opt(cs::char(','))(i)?;
    let (i, _) = opt(cs::one_of("ADEMSN"))(i)?;
    let (i, _) = cs::char('*')(i)?;
    Ok((i, (position, time, status)))
}

type Rmc = (
    Option<Time>,
    Option<char>,
    Option<Pos>,
    Option<(u16, u8)>,
    Option<u32>,
    Option<(u8, u8, u64)>,
    Option<u32>,
    Option<char>,
);

fn r_rmc(i: &[u8]) -> R<Rmc> {
    let (i, time) = opt(complete(r_utc))(i)?;
    let (i, _) = cs::char(',')(i)?;
    let (i, status) = opt(cs::one_of("AVP"))(i)?;
    let (i, _) = cs::char(',')(i)?;
    let (i, position) = opt(complete(r_pos))(i)?;
    let (i, _) = cs::char(',')(i)?;
    let (i, speed) = opt(map_res(bs::take_until(","), r_speed))(i)?;
    let (i, _) = cs::char(',')(i)?;
    let (i, heading) = opt(map_res(bs::take_until(","), pn::<f32>))(i)?;
    let (i, _) = cs::char(',')(i)?;
    let (i, date) = opt(complete(r_date))(i)?;
    let (i, _) = cs::char(',')(i)?;
    let (i, variation) = opt(map_res(bs::take_until(","), pn::<f32>))(i)?;
    let (i, _) = cs::char(',')(i)?;
    let (i, direction) = opt(cs::one_of("EW"))(i)?;
    let (i, _) = bs::take_until("*")(i)?;
    let (i, _) = cs::char('*')(i)?;
    Ok((
        i,
        (
            time,
            status,
            position,
            speed,
            heading.map(f32::to_bits),
            date,
            variation.map(f32::to_bits),
            direction,
        ),
    ))
}

type Vtg = (Option<u32>, Option<u32>, Option<u32>, Option<(u16, u8)>, Option<char>);

fn r_vtg(i: &[u8]) -> R<Vtg> {
    let (i, bt) = opt(map_res(bs::take_until(","), pn::<f32>))(i)?;
    let (i, _) = alt((bs::tag(",T,"), bs::tag(",,")))(i)?;
    let (i, bm) = opt(map_res(bs::take_until(","), pn::<f32>))(i)?;
    let (i, _) = alt((bs::tag(",M,"), bs::tag(",,")))(i)?;
    let (i, sk) = opt(map_res(bs::take_until(","), pn::<f32>))(i)?;
    let (i, _) = alt((bs::tag(",N,"), bs::tag(",,")))(i)?;
    let (i, kmh) = opt(map_res(bs::take_until(","), r_speed))(i)?;
    let (i, _) = cs::char(',')(i)?;
    let (i, _) = opt(cs::char('K'))(i)?;
    let (i, _) = opt(cs::char(','))(i)?;
    let (i, mode) = opt(cs::one_of("ADEMSN"))(i)?;
    let (i, _) = cs::char('*')(i)?;
    Ok((i, (bt.map(f32::to_bits), bm.map(f32::to_bits), sk.map(f32::to_bits), kmh, mode)))
}

fn r_num<T: std::str::FromStr>(i: &[u8]) -> R<Option<T>> {
    opt(map_res(bc::take_until(","), pn::<T>))(i)
}

type Txt = (Option<u8>, Option<u8>, Option<u8>, Vec<u8>);

fn r_txt(i: &[u8]) -> R<Txt> {
    let (i, total) = r_num::<u8>(i)?;
    let (i, _) = cc::char(',')(i)?;
    let (i, sentence) = r_num::<u8>(i)?;
    let (i, _) = cc::char(',')(i)?;
    let (i, id) = r_num::<u8>(i)?;
    let (i, _) = cc::char(',')(i)?;
    let (i, text) = bc::take_until("*")(i)?;
    let (i, _) = cc::char('*')(i)?;
    Ok((i, (total, sentence, id, text.to_vec())))
}

type Zda = (Option<Time>, Option<(u8, u8, u64)>, Option<(u8, u8)>);

fn r_zda(i: &[u8]) -> R<Zda> {
    let (i, time) = opt(r_utc)(i)?;
    let (i, _) = cc::char(',')(i)?;
    let (i, day) = r_num::<u8>(i)?;
    let (i, _) = cc::char(',')(i)?;
    let (i, month) = r_num::<u8>(i)?;
    let (i, _) = cc::char(',')(i)?;
    let (i, year) = r_num::<u16>(i)?;
    let (i, _) = cc::char(',')(i)?;
    let date = match (day, month, year) {
        (Some(d), Some(m), Some(y)) => Some((d, m, y as u64)),
        _ => None,
    };
    let (i, hours) = r_num::<u8>(i)?;
    let (i, _) = cc::char(',')(i)?;
    let (i, minutes) = opt(map_res(bc::take_until("*"), pn::<u8>))(i)?;
    let (i, _) = cc::char('*')(i)?;
    // As the original builds it: the pair is (minutes, hours) read back as
    // (hours, minutes).
    let zone = hours.and_then(|h| minutes.map(|m| (m, h)));
    Ok((i, (time, date, zone)))
}

fn pos_of(p: GpsPosition) -> Pos {
    (
        p.lat_deg,
        bits(p.lat_min),
        match p.lat_dir {
            LatitudeDirection::North => 'N',
            LatitudeDirection::South => 'S',
        },
        p.lon_deg,
        bits(p.lon_min),
        match p.lon_dir {
            LongitudeDirection::East => 'E',
            LongitudeDirection::West => 'W',
        },
    )
}

fn time_of(t: nmea_parse::types::GpsTime) -> Time {
    (t.hour, t.minute, t.second, t.millisecond)
}

fn date_of(d: nmea_parse::types::GpsDate) -> (u8, u8, u64) {
    (d.day, d.month, d.year)
}

/// Sample sentences with prefixes, deletions, insertions and substitutions.
fn variants(samples: &[&[u8]]) -> Vec<Vec<u8>> {
    let pool: &[u8] = b",.*-+0159AVPNSEWTMKeE ";
    let mut out = Vec::new();
    for s in samples {
        let s = s.to_vec();
        for cut in 0..=s.len() {
            out.push(s[..cut].to_vec());
        }
        for k in 0..s.len() {
            let mut d = s.clone();
            d.remove(k);
            out.push(d);
            for &b in pool {
                let mut m = s.clone();
                m[k] = b;
                for cut in (k + 1)..=m.len() {
                    out.push(m[..cut].to_vec());
                }
                let mut ins = s.clone();
                ins.insert(k, b);
                out.push(ins);
            }
        }
    }
    out
}

#[test]
fn gll_agrees_with_nom_grammar() {
    let samples: &[&[u8]] = &[
        b",,,,175936.860,V,M*",
        b"4916.45,N,12311.12,W,225444.5,A,A*1D",
        b"0053.9,N,00002.33,E,163428.000,A*",
        b"4916.45,N,12311.12,W,,V*",
    ];
    for v in variants(samples) {
        let ours = from_lib(parse_gll(&v), |d| {
            (
                d.position.map(pos_of),
                d.time.map(time_of),
                d.status.map(|s| match s {
                    GllStatus::DataValid => 'A',
                    GllStatus::DataInvalid => 'V',
                    GllStatus::Precise => 'P',
                }),
            )
        });
        assert_eq!(ours, from_nom(r_gll(&v), |d| d), "input {:?}", String::from_utf8_lossy(&v));
    }
}

#[test]
fn rmc_agrees_with_nom_grammar() {
    let samples: &[&[u8]] = &[
        b"163428.000,A,0053.9,N,00002.33,E,0.58,0.00,080522,,,E,V*",
        b"225446.33,A,4916.45,N,12311.12,W,000.5,054.7,191194,020.3,E,A*68",
        b",V,,,,,,,,,*",
    ];
    for v in variants(samples) {
        let ours = from_lib(parse_rmc(&v), |d| {
            (
                d.time.map(time_of),
                d.status.map(|s| match s {
                    RmStatus::Active => 'A',
                    RmStatus::Void => 'V',
                    RmStatus::Precise => 'P',
                }),
                d.position.map(pos_of),
                d.speed_knots,
                opt_bits(d.heading),
                d.date.map(date_of),
                opt_bits(d.magnetic_variation),
                d.magnetic_direction.map(|m| match m {
                    LongitudeDirection::East => 'E',
                    LongitudeDirection::West => 'W',
                }),
            )
        });
        assert_eq!(ours, from_nom(r_rmc(&v), |d| d), "input {:?}", String::from_utf8_lossy(&v));
    }
}

#[test]
fn vtg_agrees_with_nom_grammar() {
    let samples: &[&[u8]] = &[
        b"0.00,T,,M,0.00,N,0.00,K,A*",
        b",,,,,,,,M*",
        b"054.7,T,034.4,M,005.5,N,010.2,K*48",
        b"1e2,T,inf,M,-0.5,N,12.34,K,D*",
    ];
    for v in variants(samples) {
        let ours = from_lib(parse_vtg(&v), |d| {
            (
                opt_bits(d.bearing_true),
                opt_bits(d.bearing_magnetic),
                opt_bits(d.speed_knots),
                d.speed_kmh,
                d.mode,
            )
        });
        assert_eq!(ours, from_nom(r_vtg(&v), |d| d), "input {:?}", String::from_utf8_lossy(&v));
    }
}

#[test]
fn txt_agrees_with_nom_grammar() {
    let samples: &[&[u8]] = &[b"01,01,01,ANTENNA OPEN*", b",,,*", b"02,01,02,u-blox AG - www.u-blox.com*4E"];
    for v in variants(samples) {
        let ours = from_lib(txt::parse(&v), |d| (d.total, d.sentence, d.id, d.text.to_vec()));
        assert_eq!(ours, from_nom(r_txt(&v), |d| d), "input {:?}", String::from_utf8_lossy(&v));
    }
}

#[test]
fn zda_agrees_with_nom_grammar() {
    let samples: &[&[u8]] = &[b"084929.282,09,05,2022,00,00*", b",,,,,*", b"201530.00,04,07,2002,-7,00*"];
    for v in variants(samples) {
        let ours = from_lib(zda::parse(&v), |d| {
            (d.time.map(time_of), d.date.map(date_of), d.zone.map(|z| (z.hours, z.minutes)))
        });
        assert_eq!(ours, from_nom(r_zda(&v), |d| d), "input {:?}", String::from_utf8_lossy(&v));
    }
}
