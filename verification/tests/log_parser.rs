use access_log_metrics::log_parser::{LogFormatParser, LogParser, LogToken, LogValue};

fn f(n: &str) -> LogToken {
    LogToken::Field(n.to_owned())
}

fn s(r: &str) -> LogToken {
    LogToken::Str(r.to_owned())
}

fn v(n: &str, d: &str) -> LogValue {
    LogValue { variable: n.to_owned(), value: d.to_owned() }
}

#[test]
fn test_format_parser() {
    assert_eq!(
        LogFormatParser::new("log_format combined '$remote_addr - $remote_user [$time_local]';")
            .parse()
            .unwrap(),
        vec![f("remote_addr"), s(" - "), f("remote_user"), s(" ["), f("time_local"), s("]")],
    );
    assert_eq!(
        LogFormatParser::new("    log_format '$remote_addr - $remote_user [$time_local]';  ")
            .parse()
            .unwrap(),
        vec![f("remote_addr"), s(" - "), f("remote_user"), s(" ["), f("time_local"), s("]")],
    );
    assert_eq!(
        LogFormatParser::new("$remote_addr - $remote_user [$time_local]").parse().unwrap(),
        vec![f("remote_addr"), s(" - "), f("remote_user"), s(" ["), f("time_local"), s("]")],
    );
}

#[test]
fn test_parser() {
    let parser = LogParser {
        tokens: vec![
            f("remote_addr"),
            s(" - "),
            f("remote_user"),
            s(" "),
            f("request_time"),
            s(" ["),
            f("time_local"),
            s("]"),
        ],
        fields: vec![
            "remote_addr".to_owned(),
            "remote_user".to_owned(),
            "request_time".to_owned(),
            "time_local".to_owned(),
        ],
    };

    assert_eq!(
        parser.parse("216.165.95.86 - remi 0.012 [15/Oct/2021:15:39:52 +0000]").unwrap(),
        vec![
            v("remote_addr", "216.165.95.86"),
            v("remote_user", "remi"),
            v("request_time", "0.012"),
            v("time_local", "15/Oct/2021:15:39:52 +0000"),
        ],
    );
}

#[test]
fn format_empty_input_is_an_error() {
    assert!(LogFormatParser::new("").parse().is_err());
    assert!(LogFormatParser::new("   \t ").parse().is_err());
}

#[test]
fn format_missing_quotes_are_errors() {
    match LogFormatParser::new("log_format $a").parse() {
        Ok(_) => panic!("missing quote accepted"),
        Err(e) => assert_eq!(e.message(), "Missing '"),
    }
    match LogFormatParser::new("log_format '$a").parse() {
        Ok(_) => panic!("missing final quote accepted"),
        Err(e) => assert_eq!(e.message(), "Missing final '"),
    }
}

#[test]
fn format_trailing_characters_are_errors() {
    assert!(LogFormatParser::new("log_format '$a'x").parse().is_err());
    assert!(LogFormatParser::new("log_format '$a'; x").parse().is_err());
    assert!(LogFormatParser::new("$a'").parse().is_err());
}

#[test]
fn format_empty_identifier_is_an_error() {
    match LogFormatParser::new("$a $").parse() {
        Ok(_) => panic!("empty identifier accepted"),
        Err(e) => assert_eq!(e.message(), "Expected identifier"),
    }
    assert!(LogFormatParser::new("log_format '$-'").parse().is_err());
}

#[test]
fn format_identifier_stops_at_non_identifier_characters() {
    assert_eq!(
        LogFormatParser::new("$host@X").parse().unwrap(),
        vec![f("host"), s("@X")],
    );
}

#[test]
fn fields_are_in_declaration_order_with_duplicates() {
    let p = LogParser::from_format("$host $status $host").unwrap();
    assert_eq!(p.fields(), &vec!["host".to_owned(), "status".to_owned(), "host".to_owned()]);
}

#[test]
fn final_field_takes_rest_of_line() {
    let p = LogParser::from_format("$a $b").unwrap();
    assert_eq!(
        p.parse("one two three").unwrap(),
        vec![v("a", "one"), v("b", "two three")],
    );
    assert_eq!(p.parse("one ").unwrap(), vec![v("a", "one"), v("b", "")]);
}

#[test]
fn literal_mismatch_is_an_error() {
    let p = LogParser::from_format("$a - $b").unwrap();
    assert!(p.parse("one + two").is_err());
}

#[test]
fn missing_separator_is_an_error() {
    let p = LogParser::from_format("$a:$b:$c").unwrap();
    assert!(p.parse("one:two").is_err());
}

#[test]
fn adjacent_fields_fail_compilation() {
    // every field must be bounded by a literal run or end the format
    match LogParser::from_format("$a$b") {
        Ok(_) => panic!("adjacent placeholders accepted"),
        Err(e) => assert_eq!(e.message(), "No separator before field \"b\""),
    }
    assert!(LogFormatParser::new("log_format '$a$b';").parse().is_err());
    assert!(LogFormatParser::new("x $a$b y").parse().is_err());
    assert!(LogParser::from_format("$a-$b").is_ok());
}

#[test]
fn parse_errors_cite_the_literal_and_the_text_found() {
    let p = LogParser::from_format("$a - $b").unwrap();
    match p.parse("one + two") {
        Ok(_) => panic!("mismatching line parsed"),
        Err(e) => assert_eq!(e.message(), "Expected \" - \", found \" \""),
    }
    let q = LogParser::from_format("$a:$b:$c").unwrap();
    match q.parse("one:two") {
        Ok(_) => panic!("line without separator parsed"),
        Err(e) => assert_eq!(e.message(), "Missing separator \":\""),
    }
}

#[test]
fn reparsing_the_same_line_gives_identical_output() {
    let p = LogParser::from_format("$a [$b] $c").unwrap();
    let line = "x [middle part] tail";
    let first = p.parse(line).unwrap();
    let second = p.parse(line).unwrap();
    assert_eq!(first, second);
    assert_eq!(
        first,
        vec![v("a", "x"), v("b", "middle part"), v("c", "tail")],
    );
}

#[test]
fn field_value_stops_at_first_separator_character() {
    let p = LogParser::from_format("$a - $b").unwrap();
    // the scan stops at the first space; the full literal must stand there
    assert!(p.parse("one two-three - four").is_err());
    assert_eq!(
        p.parse("one - two - three").unwrap(),
        vec![v("a", "one"), v("b", "two - three")],
    );
}

#[test]
fn parse_error_carries_a_message() {
    match LogParser::from_format("") {
        Ok(_) => panic!("empty format accepted"),
        Err(e) => assert_eq!(e.message(), "Empty string"),
    }
}
