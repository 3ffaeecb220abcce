use exiftime::date::{parse, CaptureTime};

struct Case {
    name: &'static str,
    input: &'static str,
    want_ok: Option<CaptureTime>,
}

#[test]
fn parse_cases() {
    let cases = vec![
        Case {
            name: "well formed",
            input: "2023:07:04 14:22:09",
            want_ok: Some(CaptureTime {
                year: 2023,
                month: 7,
                day: 4,
                hour: 14,
                minute: 22,
                second: 9,
                subsec: None,
                offset: None,
            }),
        },
        Case {
            name: "all zero means camera has no clock set",
            input: "0000:00:00 00:00:00",
            want_ok: None,
        },
        Case {
            name: "leap second is accepted",
            input: "2016:12:31 23:59:60",
            want_ok: Some(CaptureTime {
                year: 2016,
                month: 12,
                day: 31,
                hour: 23,
                minute: 59,
                second: 60,
                subsec: None,
                offset: None,
            }),
        },
        Case {
            name: "month out of range",
            input: "2023:13:01 00:00:01",
            want_ok: None,
        },
        Case {
            name: "day zero with nonzero year is not the unknown-date case",
            input: "2023:07:00 00:00:00",
            want_ok: None,
        },
        Case {
            name: "hour out of range",
            input: "2023:07:04 24:00:00",
            want_ok: None,
        },
        Case {
            name: "minute out of range",
            input: "2023:07:04 00:60:00",
            want_ok: None,
        },
        Case {
            name: "second past leap-second allowance",
            input: "2023:07:04 00:00:61",
            want_ok: None,
        },
        Case {
            name: "too short",
            input: "2023:07:04 14:22",
            want_ok: None,
        },
        Case {
            name: "too long",
            input: "2023:07:04 14:22:09Z",
            want_ok: None,
        },
        Case {
            name: "wrong separators",
            input: "2023-07-04 14:22:09",
            want_ok: None,
        },
        Case {
            name: "non numeric field",
            input: "202a:07:04 14:22:09",
            want_ok: None,
        },
        Case {
            name: "midnight new year is valid",
            input: "2000:01:01 00:00:00",
            want_ok: Some(CaptureTime {
                year: 2000,
                month: 1,
                day: 1,
                hour: 0,
                minute: 0,
                second: 0,
                subsec: None,
                offset: None,
            }),
        },
    ];

    for case in cases {
        let got = parse(case.input, None, None);
        match (&case.want_ok, &got) {
            (Some(want), Ok(got)) => {
                assert_eq!(want, got, "case '{}'", case.name)
            }
            (None, Err(_)) => {}
            _ => panic!(
                "case '{}': want {:?}, got {:?}",
                case.name, case.want_ok, got
            ),
        }
    }
}

#[test]
fn subsec_is_included_when_present_and_numeric() {
    let got = parse("2023:07:04 14:22:09", Some("500"), None).unwrap();
    assert_eq!(got.subsec.as_deref(), Some("500"));
    assert_eq!(got.to_string(), "2023-07-04 14:22:09.500");
}

#[test]
fn non_numeric_subsec_is_dropped_rather_than_failing_the_parse() {
    let got = parse("2023:07:04 14:22:09", Some("abc"), None).unwrap();
    assert_eq!(got.subsec, None);
}

#[test]
fn positive_offset_is_included() {
    let got = parse("2023:07:04 14:22:09", None, Some("+05:30")).unwrap();
    assert_eq!(got.to_string(), "2023-07-04 14:22:09+05:30");
}

#[test]
fn negative_offset_is_included() {
    let got = parse("2023:07:04 14:22:09", None, Some("-07:00")).unwrap();
    assert_eq!(got.to_string(), "2023-07-04 14:22:09-07:00");
}

#[test]
fn subsec_and_offset_combine_in_display() {
    let got = parse("2023:07:04 14:22:09", Some("12"), Some("+00:00")).unwrap();
    assert_eq!(got.to_string(), "2023-07-04 14:22:09.12+00:00");
}

#[test]
fn z_offset_means_utc() {
    let got = parse("2023:07:04 14:22:09", None, Some("Z")).unwrap();
    assert_eq!(got.to_string(), "2023-07-04 14:22:09+00:00");
}

#[test]
fn malformed_offset_is_dropped_rather_than_failing_the_parse() {
    let got = parse("2023:07:04 14:22:09", None, Some("not-an-offset")).unwrap();
    assert_eq!(got.offset, None);
}

#[test]
fn offset_hours_out_of_range_is_dropped() {
    let got = parse("2023:07:04 14:22:09", None, Some("+15:00")).unwrap();
    assert_eq!(got.offset, None);
}
