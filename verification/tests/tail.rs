use access_log_metrics::collector::{LogCollectorBuilder, LogData};
use access_log_metrics::log_parser::LogParser;
use access_log_metrics::processor::{
    handle_event, handle_open_failure, LogProcessor, TailEvent, TailState, TailStep,
};

fn pipeline(format: &str) -> LogProcessor {
    let log_parser = LogParser::from_format(format).unwrap();
    LogCollectorBuilder::new(log_parser, "/tmp/access.log".into()).build_processor()
}

#[test]
fn truncation_resets_offset() {
    let mut tail = TailState::new();
    let mut data = LogData::new();
    tail.start_watch(&mut data, 1000);
    assert_eq!(tail.offset(), 1000);
    // the file shrank below the consumed offset: resume from its new end
    tail.check_size(120);
    assert_eq!(tail.offset(), 120);
    // a larger size leaves the offset alone
    tail.check_size(4096);
    assert_eq!(tail.offset(), 120);
}

#[test]
fn missing_file_is_retried_cleanly() {
    let mut data = LogData::new();
    let fatal = handle_open_failure(&mut data, true);
    assert!(!fatal);
    assert!(!data.active);
    assert_eq!(data.error_count, 0);
    // any other open failure is fatal
    assert!(handle_open_failure(&mut data, false));
}

#[test]
fn write_events_keep_the_watch() {
    let mut data = LogData::new();
    data.active = true;
    assert!(matches!(handle_event(&mut data, &TailEvent::Write), TailStep::ReadMore));
    assert!(data.active);
    assert!(matches!(handle_event(&mut data, &TailEvent::CloseWrite), TailStep::ReadMore));
    assert!(data.active);
}

#[test]
fn other_events_drop_the_watch() {
    let mut data = LogData::new();
    data.active = true;
    assert!(matches!(handle_event(&mut data, &TailEvent::Other), TailStep::Reopen));
    assert!(!data.active);
}

#[test]
fn start_watch_makes_counters_visible() {
    let mut tail = TailState::new();
    let mut data = LogData::new();
    assert!(!data.active);
    tail.start_watch(&mut data, 0);
    assert!(data.active);
}

#[test]
fn chunk_lines_are_processed_and_partial_kept() {
    let processor = pipeline("$host $status $body_bytes_sent");
    let mut tail = TailState::new();
    let mut data = LogData::new();
    tail.start_watch(&mut data, 0);

    let text = "a.example 200 10\nb.example 404 20\nc.example 5";
    let chunk: Vec<char> = text.chars().collect();
    let updates = processor.consume_chunk(&mut tail, &mut data, &chunk, text.len() as u64);
    assert_eq!(tail.offset(), text.len() as u64);
    assert_eq!(updates.len(), 2);
    assert_eq!(updates[0].labels, vec!["a.example".to_owned(), "200".to_owned()]);
    assert_eq!(updates[0].size, Some(10));
    assert_eq!(updates[0].duration, None);
    assert_eq!(updates[1].labels, vec!["b.example".to_owned(), "404".to_owned()]);
    assert_eq!(updates[1].size, Some(20));
    assert_eq!(data.error_count, 0);
    // "c.example 5" is not newline-terminated yet
    assert_eq!(tail.buffered(), "c.example 5".len());

    // the rest of the last line arrives
    let text2 = "00 30\n";
    let chunk2: Vec<char> = text2.chars().collect();
    let updates2 = processor.consume_chunk(&mut tail, &mut data, &chunk2, text2.len() as u64);
    assert_eq!(updates2.len(), 1);
    assert_eq!(updates2[0].labels, vec!["c.example".to_owned(), "500".to_owned()]);
    assert_eq!(updates2[0].size, Some(30));
    assert_eq!(tail.buffered(), 0);
}

#[test]
fn failing_line_counts_an_error_and_yields_no_update() {
    let processor = pipeline("$status $request_time");
    let mut tail = TailState::new();
    let mut data = LogData::new();
    tail.start_watch(&mut data, 0);

    let text = "200 banana\n";
    let chunk: Vec<char> = text.chars().collect();
    let updates = processor.consume_chunk(&mut tail, &mut data, &chunk, text.len() as u64);
    assert!(updates.is_empty());
    assert_eq!(data.error_count, 1);

    // a good line after a bad one still goes through
    let text2 = "200 0.5\n204 zebra\n";
    let chunk2: Vec<char> = text2.chars().collect();
    let updates2 = processor.consume_chunk(&mut tail, &mut data, &chunk2, text2.len() as u64);
    assert_eq!(updates2.len(), 1);
    assert_eq!(updates2[0].duration, Some("0.5".to_owned()));
    assert_eq!(data.error_count, 2);
}

#[test]
fn offset_advances_by_bytes_not_characters() {
    let processor = pipeline("$host $status");
    let mut tail = TailState::new();
    let mut data = LogData::new();
    tail.start_watch(&mut data, 7);

    let text = "naïve.example 200\n";
    let chunk: Vec<char> = text.chars().collect();
    processor.consume_chunk(&mut tail, &mut data, &chunk, text.len() as u64);
    // "ï" is two bytes: the byte offset moves by the bytes read
    assert_eq!(tail.offset(), 7 + text.len() as u64);
}

#[test]
fn label_slots_are_deduplicated() {
    let mut labels: Vec<String> = Vec::new();
    let a = LogCollectorBuilder::label(&mut labels, "user");
    let b = LogCollectorBuilder::label(&mut labels, "status");
    let again = LogCollectorBuilder::label(&mut labels, "user");
    assert_eq!(a, 0);
    assert_eq!(b, 1);
    assert_eq!(again, 0);
    assert_eq!(labels, vec!["user".to_owned(), "status".to_owned()]);
    let c = LogCollectorBuilder::label(&mut labels, "vhost");
    assert_eq!(c, 2);
    assert_eq!(labels.len(), 3);
}

#[test]
fn filters_and_extractors_run_in_field_order() {
    // registration order of the user extractor precedes the auto one in
    // the list, yet the auto extractor on the earlier field runs first:
    // the sort is by field position, stable for ties
    let log_parser = LogParser::from_format("$remote_user $status").unwrap();
    let mut builder = LogCollectorBuilder::new(log_parser, "/tmp/access.log".into());
    builder
        .add_extractor(
            Some("user".to_owned()),
            "status".to_owned(),
            access_log_metrics::processor::ExtractorFunc::Host,
        )
        .unwrap();
    let processor = builder.build_processor();
    let mut label_values = vec!["unk".to_owned(); processor.labels.len()];
    let mut duration: Option<String> = None;
    let mut size: Option<u64> = None;
    let matched = processor
        .process_line("bob 302", &mut label_values, &mut duration, &mut size)
        .unwrap();
    assert!(matched);
    // the user-declared extractor targets the existing `user` slot and,
    // standing at the later field, overwrites the auto value
    assert_eq!(label_values, vec!["302".to_owned(), "302".to_owned()]);
}
