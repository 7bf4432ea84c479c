use chrono::{NaiveDate, NaiveTime};
use nmea::decoders::{parse_date, parse_position, parse_time};
use nmea::numeral::{parse_decimal, parse_digits, parse_unsigned_decimal};
use nmea::rmc::parse_status;
use nmea::split::split;
use nmea::{
    do_parse_rmc, parse_rmc, Coordinate, Decimal, Error, FixDate, FixTime, NmeaSentence,
    RmcData, RmcField, RmcStatusOfFix, SentenceType,
};

fn rmc(data: &str) -> NmeaSentence<'_> {
    NmeaSentence {
        message_id: SentenceType::RMC,
        data,
    }
}

fn decimal_value(d: Decimal) -> f64 {
    let v = d.mantissa as f64 / 10f64.powi(d.scale as i32);
    if d.negative {
        -v
    } else {
        v
    }
}

fn degrees(c: Coordinate) -> f64 {
    let v = c.degrees as f64 + decimal_value(c.minutes) / 60.0;
    if c.negative {
        -v
    } else {
        v
    }
}

fn naive_time(t: FixTime) -> NaiveTime {
    NaiveTime::from_hms_nano_opt(t.hour, t.minute, t.second, t.nano).unwrap()
}

fn naive_date(d: FixDate) -> NaiveDate {
    NaiveDate::from_ymd_opt(d.year, d.month, d.day).unwrap()
}

fn close(a: f64, b: f64) -> bool {
    (a - b).abs() <= 1e-9 * a.abs().max(b.abs())
}

#[test]
fn test_parse_rmc() {
    let s = rmc("225446.33,A,4916.45,N,12311.12,W,000.5,054.7,191194,020.3,E,A");
    let rmc_data = parse_rmc(s).unwrap();
    assert_eq!(
        naive_time(rmc_data.fix_time.unwrap()),
        NaiveTime::from_hms_milli_opt(22, 54, 46, 330).unwrap()
    );
    assert_eq!(
        naive_date(rmc_data.fix_date.unwrap()),
        NaiveDate::from_ymd_opt(1994, 11, 19).unwrap()
    );

    println!("lat: {}", degrees(rmc_data.lat.unwrap()));
    assert!(close(degrees(rmc_data.lat.unwrap()), 49.0 + 16.45 / 60.));
    println!(
        "lon: {}, diff {}",
        degrees(rmc_data.lon.unwrap()),
        (degrees(rmc_data.lon.unwrap()) + (123.0 + 11.12 / 60.)).abs()
    );
    assert!(close(degrees(rmc_data.lon.unwrap()), -(123.0 + 11.12 / 60.)));

    assert!(close(decimal_value(rmc_data.speed_over_ground.unwrap()), 0.5));
    assert!(close(decimal_value(rmc_data.true_course.unwrap()), 54.7));

    let s = rmc(",V,,,,,,,,,,N");
    let rmc = parse_rmc(s).unwrap();
    assert_eq!(
        RmcData {
            fix_time: None,
            fix_date: None,
            status_of_fix: RmcStatusOfFix::Invalid,
            lat: None,
            lon: None,
            speed_over_ground: None,
            true_course: None,
        },
        rmc
    );
}

#[test]
fn scenario_full_sentence_exact_fields() {
    let d = parse_rmc(rmc("225446.33,A,4916.45,N,12311.12,W,000.5,054.7,191194,020.3,E,A")).unwrap();
    assert_eq!(
        d.fix_time,
        Some(FixTime { hour: 22, minute: 54, second: 46, nano: 330_000_000 })
    );
    assert_eq!(d.fix_date, Some(FixDate { year: 1994, month: 11, day: 19 }));
    assert_eq!(d.status_of_fix, RmcStatusOfFix::Autonomous);
    assert_eq!(
        d.lat,
        Some(Coordinate {
            negative: false,
            degrees: 49,
            minutes: Decimal { negative: false, mantissa: 1645, scale: 2 },
        })
    );
    assert_eq!(
        d.lon,
        Some(Coordinate {
            negative: true,
            degrees: 123,
            minutes: Decimal { negative: false, mantissa: 1112, scale: 2 },
        })
    );
    assert_eq!(d.speed_over_ground, Some(Decimal { negative: false, mantissa: 5, scale: 1 }));
    assert_eq!(d.true_course, Some(Decimal { negative: false, mantissa: 547, scale: 1 }));
}

#[test]
fn wrong_sentence_type_names_both_tags() {
    let s = NmeaSentence {
        message_id: SentenceType::GGA,
        data: "225446.33,A,4916.45,N,12311.12,W,000.5,054.7,191194,020.3,E,A",
    };
    assert_eq!(
        parse_rmc(s),
        Err(Error::WrongSentenceType { expected: SentenceType::RMC, found: SentenceType::GGA })
    );
    let s = NmeaSentence { message_id: SentenceType::VTG, data: "garbage" };
    assert_eq!(
        parse_rmc(s),
        Err(Error::WrongSentenceType { expected: SentenceType::RMC, found: SentenceType::VTG })
    );
}

#[test]
fn unknown_status_is_malformed() {
    assert_eq!(
        parse_rmc(rmc("225446.33,X,4916.45,N,12311.12,W,000.5,054.7,191194,020.3,E,A")),
        Err(Error::MalformedField(RmcField::StatusOfFix))
    );
    assert_eq!(
        parse_rmc(rmc(",,,,,,,,,")),
        Err(Error::MalformedField(RmcField::StatusOfFix))
    );
    assert_eq!(
        parse_rmc(rmc(",AV,,,,,,,,")),
        Err(Error::MalformedField(RmcField::StatusOfFix))
    );
}

#[test]
fn status_table() {
    assert_eq!(parse_status(b"A"), Some(RmcStatusOfFix::Autonomous));
    assert_eq!(parse_status(b"D"), Some(RmcStatusOfFix::Differential));
    assert_eq!(parse_status(b"V"), Some(RmcStatusOfFix::Invalid));
    assert_eq!(parse_status(b"X"), None);
    assert_eq!(parse_status(b"a"), None);
    assert_eq!(parse_status(b""), None);
    for (c, st) in [
        ("A", RmcStatusOfFix::Autonomous),
        ("D", RmcStatusOfFix::Differential),
        ("V", RmcStatusOfFix::Invalid),
    ] {
        let data = format!(",{},,,,,,,,", c);
        assert_eq!(do_parse_rmc(&data).unwrap().status_of_fix, st);
    }
}

#[test]
fn decoding_twice_gives_the_same_record() {
    let data = "225446.33,A,4916.45,N,12311.12,W,000.5,054.7,191194,020.3,E,A";
    assert_eq!(parse_rmc(rmc(data)), parse_rmc(rmc(data)));
    let bad = "225446.33,A,4916.45,N";
    assert_eq!(parse_rmc(rmc(bad)), parse_rmc(rmc(bad)));
}

#[test]
fn position_is_all_or_nothing() {
    let empty = do_parse_rmc("225446,A,,,,,1.0,2.0,191194,").unwrap();
    assert!(empty.lat.is_none() && empty.lon.is_none());
    let full = do_parse_rmc("225446,A,4916.45,S,12311.12,E,1.0,2.0,191194,").unwrap();
    assert!(full.lat.is_some() && full.lon.is_some());
    assert!(full.lat.unwrap().negative);
    assert!(!full.lon.unwrap().negative);
    assert_eq!(
        do_parse_rmc("225446,A,4916.45,N,,,1.0,2.0,191194,"),
        Err(Error::MalformedField(RmcField::Position))
    );
    assert_eq!(
        do_parse_rmc("225446,A,,N,,,1.0,2.0,191194,"),
        Err(Error::MalformedField(RmcField::Position))
    );
    assert_eq!(
        do_parse_rmc("225446,A,4916.45,Q,12311.12,W,1.0,2.0,191194,"),
        Err(Error::MalformedField(RmcField::Position))
    );
}

#[test]
fn trailing_fields_are_ignored() {
    let base = "225446.33,A,4916.45,N,12311.12,W,000.5,054.7,191194,";
    let a = do_parse_rmc(base).unwrap();
    let b = do_parse_rmc("225446.33,A,4916.45,N,12311.12,W,000.5,054.7,191194,020.3,E").unwrap();
    let c =
        do_parse_rmc("225446.33,A,4916.45,N,12311.12,W,000.5,054.7,191194,020.3,E,A,V").unwrap();
    assert_eq!(a, b);
    assert_eq!(a, c);
}

#[test]
fn missing_delimiters_truncate() {
    assert_eq!(do_parse_rmc("225446.33"), Err(Error::TruncatedSentence));
    assert_eq!(do_parse_rmc(""), Err(Error::TruncatedSentence));
    assert_eq!(do_parse_rmc("225446.33,A"), Err(Error::TruncatedSentence));
    assert_eq!(do_parse_rmc("225446.33,A,4916.45,N"), Err(Error::TruncatedSentence));
    assert_eq!(
        do_parse_rmc("225446.33,A,4916.45,N,12311.12,W,000.5,054.7,191194"),
        Err(Error::TruncatedSentence)
    );
}

#[test]
fn malformed_fields_are_named() {
    assert_eq!(
        do_parse_rmc("2254x6,A,,,,,,,,"),
        Err(Error::MalformedField(RmcField::FixTime))
    );
    assert_eq!(
        do_parse_rmc("245446,A,,,,,,,,"),
        Err(Error::MalformedField(RmcField::FixTime))
    );
    assert_eq!(
        do_parse_rmc(",A,,,,,1.2.3,,,"),
        Err(Error::MalformedField(RmcField::SpeedOverGround))
    );
    assert_eq!(
        do_parse_rmc(",A,,,,,,abc,,"),
        Err(Error::MalformedField(RmcField::TrueCourse))
    );
    assert_eq!(
        do_parse_rmc(",A,,,,,,,1911944,"),
        Err(Error::MalformedField(RmcField::FixDate))
    );
}

#[test]
fn calendar_validity_of_dates() {
    assert_eq!(parse_date(b"290200"), Some(FixDate { year: 2000, month: 2, day: 29 }));
    assert_eq!(parse_date(b"290201"), None);
    assert_eq!(parse_date(b"290296"), Some(FixDate { year: 1996, month: 2, day: 29 }));
    assert_eq!(parse_date(b"310494"), None);
    assert_eq!(parse_date(b"300494"), Some(FixDate { year: 1994, month: 4, day: 30 }));
    assert_eq!(parse_date(b"011369"), None);
    assert_eq!(parse_date(b"000169"), None);
    assert_eq!(parse_date(b"010169"), Some(FixDate { year: 1969, month: 1, day: 1 }));
    assert_eq!(parse_date(b"311268"), Some(FixDate { year: 2068, month: 12, day: 31 }));
    assert_eq!(parse_date(b"1911a4"), None);
}

#[test]
fn times_of_day() {
    assert_eq!(
        parse_time(b"000000"),
        Some(FixTime { hour: 0, minute: 0, second: 0, nano: 0 })
    );
    assert_eq!(
        parse_time(b"235959.123456789999"),
        Some(FixTime { hour: 23, minute: 59, second: 59, nano: 123_456_789 })
    );
    assert_eq!(
        parse_time(b"120000."),
        Some(FixTime { hour: 12, minute: 0, second: 0, nano: 0 })
    );
    assert_eq!(parse_time(b"126000"), None);
    assert_eq!(parse_time(b"120060"), None);
    assert_eq!(parse_time(b"12000"), None);
    assert_eq!(parse_time(b"120000,5"), None);
    assert_eq!(parse_time(b"120000.5x"), None);
}

#[test]
fn numerals() {
    assert_eq!(parse_decimal(b"054.7"), Some(Decimal { negative: false, mantissa: 547, scale: 1 }));
    assert_eq!(parse_decimal(b"-1.25"), Some(Decimal { negative: true, mantissa: 125, scale: 2 }));
    assert_eq!(parse_decimal(b"+7"), Some(Decimal { negative: false, mantissa: 7, scale: 0 }));
    assert_eq!(parse_decimal(b".5"), Some(Decimal { negative: false, mantissa: 5, scale: 1 }));
    assert_eq!(parse_decimal(b"12."), Some(Decimal { negative: false, mantissa: 12, scale: 0 }));
    assert_eq!(parse_decimal(b"."), None);
    assert_eq!(parse_decimal(b"-"), None);
    assert_eq!(parse_decimal(b"1e3"), None);
    assert_eq!(parse_unsigned_decimal(b"-1"), None);
    assert_eq!(
        parse_unsigned_decimal(b"18446744073709551615"),
        Some(Decimal { negative: false, mantissa: u64::MAX, scale: 0 })
    );
    assert_eq!(parse_unsigned_decimal(b"18446744073709551616"), None);
    assert_eq!(parse_digits(b"4294967295"), Some(u32::MAX));
    assert_eq!(parse_digits(b"4294967296"), None);
    assert_eq!(parse_digits(b"019"), Some(19));
    assert_eq!(parse_digits(b""), None);
}

#[test]
fn fields_split_on_commas() {
    assert_eq!(split(b""), vec![Vec::<u8>::new()]);
    assert_eq!(split(b",V,"), vec![b"".to_vec(), b"V".to_vec(), b"".to_vec()]);
    assert_eq!(split(b"ab,c"), vec![b"ab".to_vec(), b"c".to_vec()]);
}

#[test]
fn positions_decode_hemispheres() {
    let p = parse_position(b"0030.5", b"S", b"00100", b"W").unwrap().unwrap();
    assert_eq!(
        p.0,
        Coordinate {
            negative: true,
            degrees: 0,
            minutes: Decimal { negative: false, mantissa: 305, scale: 1 },
        }
    );
    assert_eq!(
        p.1,
        Coordinate {
            negative: true,
            degrees: 1,
            minutes: Decimal { negative: false, mantissa: 0, scale: 0 },
        }
    );
    assert_eq!(parse_position(b"", b"", b"", b""), Some(None));
    assert_eq!(parse_position(b"49", b"N", b"12311", b"E"), None);
    assert_eq!(parse_position(b"4916", b"N", b"123", b"E"), None);
}
