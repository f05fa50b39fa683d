use syslog_decoder::dictionary::FormatError;
use syslog_decoder::parser::{DecodeError, SyslogParser};

fn dict_value_template() -> Vec<u8> {
    let mut d: Vec<u8> = Vec::new();
    d.extend_from_slice(b"1;4;f.c:1;MOD;Value %d");
    d.push(0);
    d
}

fn record(timestamp: u32, arg_count: u32, offset: u32, args: &[u32]) -> Vec<u8> {
    let mut b: Vec<u8> = Vec::new();
    b.extend_from_slice(&timestamp.to_le_bytes());
    b.extend_from_slice(&((arg_count << 28) | offset).to_le_bytes());
    for a in args {
        b.extend_from_slice(&a.to_le_bytes());
    }
    b
}

#[test]
fn single_record_resolves_and_formats() {
    let parser = SyslogParser::new(dict_value_template());
    let binary = record(100, 1, 0, &[42]);
    let logs = parser.parse_binary(&binary, 6).unwrap();
    assert_eq!(logs.len(), 1);
    assert_eq!(logs[0].timestamp_formatted, "100ms");
    assert_eq!(logs[0].module_name, "MOD");
    assert_eq!(logs[0].formatted_message, "Value 42");
    assert_eq!(logs[0].log_level, 4);
}

#[test]
fn two_placeholders_one_argument() {
    let parser = SyslogParser::new(dict_value_template());
    let result = parser.format_message("A %d B %d", &[7]);
    assert_eq!(result, "A 7 B <missing>");
}

#[test]
fn threshold_filtering_is_monotone() {
    let mut d: Vec<u8> = Vec::new();
    d.extend_from_slice(b"0;1;a.c:1;M1;one");
    d.push(0);
    d.extend_from_slice(b"0;3;b.c:2;M3;three");
    d.push(0);
    d.extend_from_slice(b"0;5;c.c:3;M5;five");
    d.push(0);
    let second = 17u32; // "0;3;b.c:2;M3;three" starts after the first entry and its NUL
    let third = 36u32;
    let parser = SyslogParser::new(d);
    let mut binary: Vec<u8> = Vec::new();
    binary.extend_from_slice(&record(1, 0, 0, &[]));
    binary.extend_from_slice(&record(2, 0, second, &[]));
    binary.extend_from_slice(&record(3, 0, third, &[]));

    let low = parser.parse_binary(&binary, 1).unwrap();
    let mid = parser.parse_binary(&binary, 3).unwrap();
    let high = parser.parse_binary(&binary, 5).unwrap();
    assert_eq!(low.len(), 1);
    assert_eq!(mid.len(), 2);
    assert_eq!(high.len(), 3);
    // every line included at a lower threshold is included at a higher one
    let low_lines = parser.format_logs(&low);
    let mid_lines = parser.format_logs(&mid);
    let high_lines = parser.format_logs(&high);
    for l in &low_lines {
        assert!(mid_lines.contains(l));
    }
    for l in &mid_lines {
        assert!(high_lines.contains(l));
    }
}

#[test]
fn merged_hex_run_renders_one_value() {
    let parser = SyslogParser::new(dict_value_template());
    let result = parser.format_message("ID 0x%x%x%x%x", &[0x32, 0x30, 0x46, 0x44]);
    assert_eq!(result, "ID 0x32304644");
}

#[test]
fn hex_run_starved_of_arguments_renders_missing_once() {
    let parser = SyslogParser::new(dict_value_template());
    let result = parser.format_message("ID 0x%x%x%x tail %d", &[0x0A]);
    assert_eq!(result, "ID <missing> tail 10");
}

#[test]
fn double_quotes_are_stripped_from_rendered_text() {
    let parser = SyslogParser::new(dict_value_template());
    let result = parser.format_message("say \"hi\" %d", &[1]);
    assert_eq!(result, "say hi 1");
}

#[test]
fn streaming_chunks_match_buffered_decode() {
    let parser = SyslogParser::new(dict_value_template());
    let mut binary: Vec<u8> = Vec::new();
    binary.extend_from_slice(&record(1, 1, 0, &[10]));
    binary.extend_from_slice(&record(2, 1, 0, &[20]));
    binary.extend_from_slice(&record(3, 1, 0, &[30]));

    let buffered = parser.parse_binary_legacy(&binary, 6);
    let reference = parser.format_logs(&buffered).join("\n");

    // chunk boundaries forced inside a record header and inside arguments
    for chunk_size in [1usize, 3, 5, 7, 8, 9, 10, 11, 13] {
        let chunked = parser.parse_binary_chunked(&binary, chunk_size, 6);
        let text = parser.format_logs(&chunked).join("\n");
        assert_eq!(text, reference);
    }
}

#[test]
fn offset_past_buffer_end_is_not_found() {
    let parser = SyslogParser::new(dict_value_template());
    assert!(parser.get_entry_by_byte_offset(10_000).is_none());
    // offset pointing at the separator itself is "not found" too
    assert!(parser.get_entry_by_byte_offset(22).is_none());
    // a record with an out-of-range offset is simply dropped, never a crash
    let binary = record(5, 0, 10_000, &[]);
    let logs = parser.parse_binary(&binary, 6).unwrap();
    assert_eq!(logs.len(), 0);
}

#[test]
fn truncated_trailing_record_is_dropped() {
    let parser = SyslogParser::new(dict_value_template());
    let mut binary = record(1, 1, 0, &[10]);
    // header declaring two arguments, with only one present
    binary.extend_from_slice(&record(2, 2, 0, &[20]));
    let logs = parser.parse_binary(&binary, 6).unwrap();
    assert_eq!(logs.len(), 1);
    assert_eq!(logs[0].formatted_message, "Value 10");
}

#[test]
fn short_trailing_header_is_dropped() {
    let parser = SyslogParser::new(dict_value_template());
    let mut binary = record(1, 1, 0, &[10]);
    binary.extend_from_slice(&[1, 2, 3]);
    let logs = parser.parse_binary(&binary, 6).unwrap();
    assert_eq!(logs.len(), 1);
}

#[test]
fn parse_chunk_carries_incomplete_record_as_remainder() {
    let parser = SyslogParser::new(dict_value_template());
    // a full header declaring one argument, but no argument bytes
    let header_only = record(9, 1, 0, &[]);
    let (entries, rest) = parser.parse_chunk(&header_only);
    assert_eq!(entries.len(), 0);
    assert_eq!(rest, header_only);

    // feeding the rest of the record completes it
    let mut full = rest;
    full.extend_from_slice(&7u32.to_le_bytes());
    let (entries, rest) = parser.parse_chunk(&full);
    assert_eq!(entries.len(), 1);
    assert_eq!(entries[0].timestamp_ms, 9);
    assert_eq!(entries[0].arguments, vec![7]);
    assert!(rest.is_empty());
}

#[test]
fn malformed_dictionary_entries_are_skipped() {
    let mut d: Vec<u8> = Vec::new();
    d.extend_from_slice(b"only;three;fields");
    d.push(0);
    d.extend_from_slice(b"1;bad;x.c:1;M;msg %d");
    d.push(0);
    d.extend_from_slice(b"1;2;x.c:1;GOOD;fine");
    d.push(0);
    let parser = SyslogParser::new(d);
    assert_eq!(parser.dictionary_size(), 1);
}

#[test]
fn dictionary_line_errors_name_the_failure() {
    assert!(matches!(
        SyslogParser::parse_dictionary_line("a;b;c"),
        Err(FormatError::MissingField)
    ));
    assert!(matches!(
        SyslogParser::parse_dictionary_line("1;high;x.c:1;M;msg"),
        Err(FormatError::BadLevel)
    ));
    let entry = SyslogParser::parse_dictionary_line("2;4;test.c:9;MOD;hello %d").unwrap();
    assert_eq!(entry.log_level, 4);
    assert_eq!(entry.module_name, "MOD");
    assert_eq!(entry.log_message, "hello %d");
}

#[test]
fn template_keeps_semicolons_after_fifth_field() {
    let entry = SyslogParser::parse_dictionary_line("1;4;a.c:1;M;x;y;z").unwrap();
    assert_eq!(entry.log_message, "x;y;z");
}

#[test]
fn injected_level_names_are_used_for_rendering() {
    let parser_dict = dict_value_template();
    let mut parser = SyslogParser::new(parser_dict);
    let names: Vec<String> = vec![
        "N0".to_string(),
        "N1".to_string(),
        "N2".to_string(),
        "N3".to_string(),
        "N4".to_string(),
    ];
    parser.set_level_names(names);
    let binary = record(100, 1, 0, &[42]);
    let logs = parser.parse_binary(&binary, 6).unwrap();
    let lines = parser.format_logs_with_options(&logs, true);
    assert!(lines[0].contains("[N4]\t[MOD]"));
}

#[test]
fn oversized_input_is_rejected_before_parsing() {
    // the ceiling itself is 2 GiB; the error variant is distinct
    assert!(matches!(DecodeError::SizeLimitExceeded, DecodeError::SizeLimitExceeded));
    assert_eq!(syslog_decoder::parser::MAX_FILE_SIZE, 2 * 1024 * 1024 * 1024);
}

#[test]
fn decode_text_and_sessions_share_one_pipeline() {
    let mut d: Vec<u8> = Vec::new();
    d.extend_from_slice(b"0;4;a.c:1;BOOT;System Reset Cause 3");
    d.push(0);
    d.extend_from_slice(b"1;4;b.c:2;MOD;Value %d");
    d.push(0);
    let parser = SyslogParser::new(d);
    let mut binary: Vec<u8> = Vec::new();
    binary.extend_from_slice(&record(0, 0, 0, &[]));
    binary.extend_from_slice(&record(5, 1, 36, &[1]));
    binary.extend_from_slice(&record(9, 0, 0, &[]));
    binary.extend_from_slice(&record(12, 1, 36, &[2]));

    let text = parser.decode_text(&binary, 6, false).unwrap();
    assert!(text.contains("System Reset Cause 3"));
    assert!(text.contains("Value 1"));

    let sessions = parser.decode_sessions(&binary, 6, false).unwrap();
    assert_eq!(sessions.len(), 2);
    assert_eq!(sessions[0].id, 0);
    assert_eq!(sessions[1].id, 1);
    assert!(sessions[0].content.contains("Value 1"));
    assert!(!sessions[0].content.contains("Value 2"));
    assert!(sessions[1].content.contains("Value 2"));
}
