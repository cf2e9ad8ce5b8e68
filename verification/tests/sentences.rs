use nmea_parse::gll::{parse_gll, GllData, GllStatus};
use nmea_parse::rmc::{parse_rmc, RmStatus, RmcData};
use nmea_parse::types::{GpsDate, GpsTime, LatitudeDirection, LongitudeDirection};
use nmea_parse::vtg::{parse_vtg, VtgData};
use nmea_parse::zda::{ZdaData, Zone};
use nmea_parse::{txt, zda};

fn float(text: &[u8]) -> f32 {
    std::str::from_utf8(text).unwrap().parse::<f32>().unwrap()
}

fn opt_float(text: Option<&[u8]>) -> Option<f32> {
    text.map(float)
}

#[test]
fn gll_parse() {
    let s = b",,,,175936.860,V,M*";
    assert_eq!(
        parse_gll(s),
        Ok((
            &b""[..],
            GllData {
                position: None,
                time: Some(GpsTime { hour: 17, minute: 59, second: 36, millisecond: 860 }),
                status: Some(GllStatus::DataInvalid),
            },
        ))
    )
}

#[test]
fn rmc_parse() {
    let s = b"163428.000,A,0053.9,N,00002.33,E,0.58,0.00,080522,,,E,V*";
    let (rest, data) = parse_rmc(s).unwrap();
    assert_eq!(rest, &b""[..]);
    assert_eq!(data.time, Some(GpsTime { hour: 16, minute: 34, second: 28, millisecond: 0 }));
    assert_eq!(data.status, Some(RmStatus::Active));
    let position = data.position.unwrap();
    let lat = (position.lat_deg as f32) + float(position.lat_min) / 60.;
    let lon = (position.lon_deg as f32) + float(position.lon_min) / 60.;
    assert_eq!(lat, 0.8983334);
    assert_eq!(position.lat_dir, LatitudeDirection::North);
    assert_eq!(lon, 0.03883333);
    assert_eq!(position.lon_dir, LongitudeDirection::East);
    assert_eq!(data.speed_knots, Some((0, 58)));
    assert_eq!(opt_float(data.heading), Some(0.0));
    assert_eq!(data.date, Some(GpsDate { day: 8, month: 5, year: 22 }));
    assert_eq!(opt_float(data.magnetic_variation), None);
    assert_eq!(data.magnetic_direction, None);
    let _: RmcData = data;
}

#[test]
fn vtg_parse() {
    let s = b"0.00,T,,M,0.00,N,0.00,K,A*";
    let (rest, data) = parse_vtg(s).unwrap();
    assert_eq!(rest, &b""[..]);
    assert_eq!(opt_float(data.bearing_magnetic), None);
    assert_eq!(opt_float(data.bearing_true), Some(0.0));
    assert_eq!(opt_float(data.speed_knots), Some(0.0));
    assert_eq!(data.speed_kmh, Some((0, 0)));
    assert_eq!(data.mode, Some('A'));
}

#[test]
fn empty() {
    let s = b",,,,,,,,M*";
    assert_eq!(
        parse_vtg(s),
        Ok((
            &b""[..],
            VtgData {
                bearing_magnetic: None,
                bearing_true: None,
                speed_knots: None,
                speed_kmh: None,
                mode: Some('M'),
            },
        ))
    )
}

#[test]
fn txt_t_parse() {
    let s = b"01,01,01,ANTENNA OPEN*";
    assert_eq!(
        txt::parse(s),
        Ok((
            &b""[..],
            txt::TxtData {
                total: Some(1),
                sentence: Some(1),
                id: Some(1),
                text: &b"ANTENNA OPEN"[..],
            },
        ))
    )
}

#[test]
fn zda_t_parse() {
    let s = b"084929.282,09,05,2022,00,00*";
    assert_eq!(
        zda::parse(s),
        Ok((
            &b""[..],
            ZdaData {
                time: Some(GpsTime { hour: 8, minute: 49, second: 29, millisecond: 282 }),
                date: Some(GpsDate { day: 9, month: 5, year: 2022 }),
                zone: Some(Zone { hours: 0, minutes: 0 }),
            },
        ))
    )
}
