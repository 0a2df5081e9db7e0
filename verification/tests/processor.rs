use std::sync::{Arc, Mutex};

use access_log_metrics::collector::LogCollectorBuilder;
use access_log_metrics::log_parser::LogParser;
use access_log_metrics::processor::{ExtractorFunc, FilterFunc, LogProcessor};
use access_log_metrics::text::{float_ok, parse_u64_dec, str_eq};

fn test_parse(
    processor: &LogProcessor,
    line: &str,
    expected: Option<(&[&str], Option<f32>, Option<u64>)>,
) {
    let mut label_values = vec!["unk".to_owned(); processor.labels.len()];
    let mut duration: Option<String> = None;
    let mut response_body_size: Option<u64> = None;
    let matched = processor
        .process_line(line, &mut label_values, &mut duration, &mut response_body_size)
        .unwrap();
    let duration_secs: Option<f32> = duration.map(|d| d.parse().unwrap());
    match (matched, expected) {
        (false, None) => {}
        (false, Some(_)) => panic!("Line was filtered unexpectedly"),
        (true, None) => panic!("Line was not filtered"),
        (true, Some((v, d, s))) => {
            let got: Vec<&str> = label_values.iter().map(|l| l.as_str()).collect();
            assert_eq!(got, v);
            assert_eq!(duration_secs, d);
            assert_eq!(response_body_size, s);
        }
    }
}

#[test]
fn test_process() {
    let log_parser = LogParser::from_format(
        r#"$host $remote_addr - $remote_user [$time_local] "$request" $status $request_time $body_bytes_sent "$http_referer" "$http_user_agent""#,
    )
    .unwrap();
    let collector_builder = LogCollectorBuilder::new(log_parser, "/tmp/access.log".into());
    let _data = Arc::new(Mutex::new(collector_builder.build_data()));
    let processor = collector_builder.build_processor();

    test_parse(
        &processor,
        r#"example.org 1.2.3.4 - - [11/Nov/2021:02:34:39 +0000] "GET /api/v4/pets/1 HTTP/1.1" 200 0.092 263 "-" "Mozilla/5.0 (Linux)""#,
        Some((&["example.org", "no", "200"], Some(0.092), Some(263))),
    );
    test_parse(
        &processor,
        r#"remram.fr 8.8.8.8 - person [11/Nov/2021:02:34:41 +0000] "POST /api/v4/pets HTTP/1.1" 201 0.132 14 "-" "Mozilla/5.0 (Linux)""#,
        Some((&["remram.fr", "yes", "201"], Some(0.132), Some(14))),
    );
}

#[test]
fn test_process_re() {
    let log_parser = LogParser::from_format(
        r#"$host $remote_addr - $remote_user [$time_local] "$request" $status $request_time $body_bytes_sent "$http_referer" "$http_user_agent""#,
    )
    .unwrap();
    let mut collector_builder = LogCollectorBuilder::new(log_parser, "/tmp/access.log".into());
    // -m 'status:^200$'
    collector_builder
        .add_filter(
            "status".to_owned(),
            FilterFunc::Regex { regex: regex::Regex::new("^200$").unwrap() },
        )
        .unwrap();
    // -l 'api_version:$1:request:^[A-Z]+ /api/(v[0-9]+)/'
    collector_builder
        .add_extractor(
            Some("api_version".to_owned()),
            "request".to_owned(),
            ExtractorFunc::Regex {
                target: "$1".to_owned(),
                regex: regex::Regex::new("^.*[A-Z]+ /api/(v[0-9]+)/.*$").unwrap(),
            },
        )
        .unwrap();
    let _data = Arc::new(Mutex::new(collector_builder.build_data()));
    let processor = collector_builder.build_processor();

    test_parse(
        &processor,
        r#"example.org 1.2.3.4 - - [11/Nov/2021:02:34:39 +0000] "GET /api/v4/pets/1 HTTP/1.1" 200 0.092 263 "-" "Mozilla/5.0 (Linux)""#,
        Some((&["example.org", "no", "200", "v4"], Some(0.092), Some(263))),
    );
    test_parse(
        &processor,
        r#"remram.fr 8.8.8.8 - person [11/Nov/2021:02:34:41 +0000] "POST /api/v4/pets HTTP/1.1" 201 0.132 14 "-" "Mozilla/5.0 (Linux)""#,
        None,
    );
}

#[test]
fn status_filter_rejects_other_status() {
    // a filter `status:^200$` and a line with status 201: the line is
    // filtered, not an error
    let log_parser = LogParser::from_format(
        r#"$host $remote_addr - $remote_user [$time_local] "$request" $status $request_time $body_bytes_sent "$http_referer" "$http_user_agent""#,
    )
    .unwrap();
    let mut builder = LogCollectorBuilder::new(log_parser, "/tmp/access.log".into());
    builder
        .add_filter(
            "status".to_owned(),
            FilterFunc::Regex { regex: regex::Regex::new("^200$").unwrap() },
        )
        .unwrap();
    let processor = builder.build_processor();
    test_parse(
        &processor,
        r#"remram.fr 8.8.8.8 - person [11/Nov/2021:02:34:41 +0000] "POST /api/v4/pets HTTP/1.1" 201 0.132 14 "-" "Mozilla/5.0 (Linux)""#,
        None,
    );
}

#[test]
fn malformed_request_time_is_a_parse_error() {
    let log_parser = LogParser::from_format("$status $request_time").unwrap();
    let builder = LogCollectorBuilder::new(log_parser, "/tmp/access.log".into());
    let processor = builder.build_processor();
    let mut label_values = vec!["unk".to_owned(); processor.labels.len()];
    let mut duration: Option<String> = None;
    let mut size: Option<u64> = None;
    match processor.process_line("200 fast", &mut label_values, &mut duration, &mut size) {
        Ok(_) => panic!("malformed duration accepted"),
        Err(e) => assert_eq!(e.message(), "Invalid duration"),
    }
    assert_eq!(duration, None);
}

#[test]
fn malformed_body_bytes_is_a_parse_error() {
    let log_parser = LogParser::from_format("$status $body_bytes_sent").unwrap();
    let builder = LogCollectorBuilder::new(log_parser, "/tmp/access.log".into());
    let processor = builder.build_processor();
    let mut label_values = vec!["unk".to_owned(); processor.labels.len()];
    let mut duration: Option<String> = None;
    let mut size: Option<u64> = None;
    match processor.process_line("200 -12", &mut label_values, &mut duration, &mut size) {
        Ok(_) => panic!("malformed size accepted"),
        Err(e) => assert_eq!(e.message(), "Invalid number of bytes"),
    }
    assert!(processor
        .process_line("200 18446744073709551616", &mut label_values, &mut duration, &mut size)
        .is_err());
    assert!(processor
        .process_line("200 18446744073709551615", &mut label_values, &mut duration, &mut size)
        .unwrap());
    assert_eq!(size, Some(18446744073709551615));
}

#[test]
fn unknown_field_fails_the_build() {
    let log_parser = LogParser::from_format("$status").unwrap();
    let mut builder = LogCollectorBuilder::new(log_parser, "/tmp/access.log".into());
    assert!(builder
        .add_filter(
            "nosuch".to_owned(),
            FilterFunc::Regex { regex: regex::Regex::new("x").unwrap() },
        )
        .is_err());
    assert!(builder
        .add_extractor(Some("l".to_owned()), "nosuch".to_owned(), ExtractorFunc::Host)
        .is_err());
}

#[test]
fn remote_user_dash_maps_to_no() {
    let log_parser = LogParser::from_format("$remote_user $status").unwrap();
    let builder = LogCollectorBuilder::new(log_parser, "/tmp/access.log".into());
    let processor = builder.build_processor();
    test_parse(&processor, "- 404", Some((&["no", "404"], None, None)));
    test_parse(&processor, "alice 500", Some((&["yes", "500"], None, None)));
}

#[test]
fn regex_extractor_without_match_copies_the_value() {
    let log_parser = LogParser::from_format(r#""$request" $status"#).unwrap();
    let mut builder = LogCollectorBuilder::new(log_parser, "/tmp/access.log".into());
    builder
        .add_extractor(
            Some("api_version".to_owned()),
            "request".to_owned(),
            ExtractorFunc::Regex {
                target: "$1".to_owned(),
                regex: regex::Regex::new("^.*GET /api/(v[0-9]+)/.*$").unwrap(),
            },
        )
        .unwrap();
    let processor = builder.build_processor();
    // the regex does not match: replace hands the haystack back unchanged
    test_parse(
        &processor,
        r#""POST /other HTTP/1.1" 201"#,
        Some((&["201", "POST /other HTTP/1.1"], None, None)),
    );
}

#[test]
fn float_shapes_accepted_and_rejected() {
    assert!(float_ok("0.092"));
    assert!(float_ok("3."));
    assert!(float_ok(".5"));
    assert!(float_ok("+3"));
    assert!(float_ok("-2.5e-3"));
    assert!(float_ok("1E7"));
    assert!(float_ok("inf"));
    assert!(float_ok("Infinity"));
    assert!(float_ok("NaN"));
    assert!(!float_ok(""));
    assert!(!float_ok("."));
    assert!(!float_ok("+"));
    assert!(!float_ok("1e"));
    assert!(!float_ok("1e+"));
    assert!(!float_ok("abc"));
    assert!(!float_ok("1.2.3"));
    assert!(!float_ok("0x10"));
}

#[test]
fn float_shape_agrees_with_float_parsing() {
    for s in [
        "0.092", "3.", ".5", "+3", "-2.5e-3", "1E7", "inf", "Infinity", "NaN", "", ".", "+",
        "1e", "1e+", "abc", "1.2.3", "0x10", "12 ", " 12",
    ] {
        assert_eq!(float_ok(s), s.parse::<f32>().is_ok(), "disagreement on {:?}", s);
    }
}

#[test]
fn u64_decimal_shapes() {
    assert_eq!(parse_u64_dec("0"), Some(0));
    assert_eq!(parse_u64_dec("263"), Some(263));
    assert_eq!(parse_u64_dec("+42"), Some(42));
    assert_eq!(parse_u64_dec("007"), Some(7));
    assert_eq!(parse_u64_dec("18446744073709551615"), Some(u64::MAX));
    assert_eq!(parse_u64_dec("18446744073709551616"), None);
    assert_eq!(parse_u64_dec(""), None);
    assert_eq!(parse_u64_dec("+"), None);
    assert_eq!(parse_u64_dec("-1"), None);
    assert_eq!(parse_u64_dec("1 2"), None);
    for s in ["0", "263", "+42", "007", "18446744073709551615", "18446744073709551616", "", "+", "-1", "1 2"] {
        assert_eq!(parse_u64_dec(s), s.parse::<u64>().ok(), "disagreement on {:?}", s);
    }
}

#[test]
fn str_eq_matches_plain_equality() {
    assert!(str_eq("", ""));
    assert!(str_eq("abc", "abc"));
    assert!(!str_eq("abc", "abd"));
    assert!(!str_eq("abc", "ab"));
    assert!(str_eq("naïve", "naïve"));
}
