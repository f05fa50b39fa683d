use syslog_decoder::format::find_and_replace_printf_format_specifiers;
use syslog_decoder::line_decoder::{parse_binary_data, CsvRecord, LogDecoder, ParsedData};
use syslog_decoder::parser::DecodeError;

#[test]
fn test_format_message_optimized() {
    let result = find_and_replace_printf_format_specifiers(
        "Hello %s, number %d",
        &vec!["World".to_string(), "42".to_string()],
    );
    assert_eq!(result, "Hello World, number 42");
}

#[test]
fn exhausted_replacements_render_as_nothing() {
    let result =
        find_and_replace_printf_format_specifiers("a %d b %d", &vec!["1".to_string()]);
    assert_eq!(result, "a 1 b ");
}

#[test]
fn width_and_precision_specifiers_are_recognized() {
    let result = find_and_replace_printf_format_specifiers(
        "v=%08x p=%.3f w=%5d",
        &vec!["A".to_string(), "B".to_string(), "C".to_string()],
    );
    assert_eq!(result, "v=A p=B w=C");
}

#[test]
fn read_syslog_dict_keys_lines_by_cumulative_offset() {
    let content = "1;1;a.c:1;M1;t1\nshort line\n2;2;b.c:2;M2;t2\n";
    let records = syslog_decoder::line_decoder::read_syslog_dict(content);
    assert_eq!(records.len(), 2);
    assert_eq!(records[0].mem_offset, 0);
    assert_eq!(records[0].log_module, "M1");
    assert_eq!(records[0].log_str, "t1");
    // only lines that parse advance the running offset
    assert_eq!(records[1].mem_offset, 16);
    assert_eq!(records[1].log_level, "2");
}

#[test]
fn find_by_mem_offset_returns_the_first_match() {
    let records = syslog_decoder::line_decoder::read_syslog_dict("1;1;a;M1;t1\n2;2;b;M2;t2\n");
    let hit = CsvRecord::find_by_mem_offset(&records, 12).unwrap();
    assert_eq!(hit.log_module, "M2");
    assert!(CsvRecord::find_by_mem_offset(&records, 5).is_none());
}

#[test]
fn parse_binary_data_stringifies_arguments() {
    let mut binary: Vec<u8> = Vec::new();
    binary.extend_from_slice(&7u32.to_le_bytes());
    binary.extend_from_slice(&((2u32 << 28) | 13).to_le_bytes());
    binary.extend_from_slice(&42u32.to_le_bytes());
    binary.extend_from_slice(&4294967295u32.to_le_bytes());
    let parsed = parse_binary_data(&binary).unwrap();
    assert_eq!(parsed.len(), 1);
    assert_eq!(parsed[0].timestamp, 7);
    assert_eq!(parsed[0].num_args, 2);
    assert_eq!(parsed[0].arg_offset, 13);
    assert_eq!(parsed[0].args, vec!["42".to_string(), "4294967295".to_string()]);
}

#[test]
fn parse_binary_data_fails_on_truncated_arguments() {
    let mut binary: Vec<u8> = Vec::new();
    binary.extend_from_slice(&7u32.to_le_bytes());
    binary.extend_from_slice(&((2u32 << 28) | 13).to_le_bytes());
    binary.extend_from_slice(&42u32.to_le_bytes());
    // second argument word missing
    let err = parse_binary_data(&binary).unwrap_err();
    assert!(matches!(err, DecodeError::Truncated));
}

#[test]
fn parse_binary_data_ignores_a_short_trailing_header() {
    let mut binary: Vec<u8> = Vec::new();
    binary.extend_from_slice(&7u32.to_le_bytes());
    binary.extend_from_slice(&0u32.to_le_bytes());
    binary.extend_from_slice(&[1, 2, 3]);
    let parsed = parse_binary_data(&binary).unwrap();
    assert_eq!(parsed.len(), 1);
}

#[test]
fn decode_logs_resolves_offsets_and_formats() {
    let decoder = LogDecoder::new("4;3;src.c:1;MODA;Count %d\n");
    let data = vec![ParsedData {
        timestamp: 7,
        num_args: 1,
        arg_offset: 1,
        args: vec!["9".to_string()],
    }];
    let lines = decoder.decode_logs(data, 6);
    assert_eq!(lines, vec!["7ms\t\t[MODA]\tCount 9".to_string()]);
}

#[test]
fn decode_logs_filters_by_level_and_drops_unresolved() {
    let decoder = LogDecoder::new("4;5;src.c:1;LOUD;noisy %d\n1;1;src.c:2;QUIET;calm\n");
    let data = vec![
        ParsedData { timestamp: 1, num_args: 0, arg_offset: 1, args: vec![] },
        ParsedData { timestamp: 2, num_args: 0, arg_offset: 27, args: vec![] },
        ParsedData { timestamp: 3, num_args: 0, arg_offset: 9999, args: vec![] },
    ];
    let lines = decoder.decode_logs(data, 2);
    assert_eq!(lines.len(), 1);
    assert!(lines[0].contains("[QUIET]"));
    assert!(lines[0].contains("calm"));
}
