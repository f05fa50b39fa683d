use syslog_decoder::parser::SyslogParser;

fn create_test_dictionary() -> Vec<u8> {
    let mut d: Vec<u8> = Vec::new();
    d.extend_from_slice(b"2;4;test.c:123;TEST_MODULE;Trigger no %d at %d");
    d.push(0);
    d.extend_from_slice(b"0;1;init.c:45;SYS_INIT;System started");
    d.push(0);
    d.extend_from_slice(b"1;2;main.c:67;MAIN_APP;Processing item %d");
    d.push(0);
    d
}

fn create_test_binary() -> Vec<u8> {
    let mut binary_data: Vec<u8> = Vec::new();

    // Entry 1: timestamp=0, log_id=0 (0 args, byte offset 0), no arguments
    binary_data.extend_from_slice(&0u32.to_le_bytes());
    binary_data.extend_from_slice(&0u32.to_le_bytes());

    // Entry 2: timestamp=1000, 2 args at byte offset 0 (first entry)
    binary_data.extend_from_slice(&1000u32.to_le_bytes());
    let log_id_with_args = (2u32 << 28) | 0u32;
    binary_data.extend_from_slice(&log_id_with_args.to_le_bytes());
    binary_data.extend_from_slice(&42u32.to_le_bytes());
    binary_data.extend_from_slice(&100u32.to_le_bytes());

    // Entry 3: timestamp=2000, log_id=47 (0 args, byte offset 47 for SYS_INIT)
    binary_data.extend_from_slice(&2000u32.to_le_bytes());
    binary_data.extend_from_slice(&47u32.to_le_bytes());

    binary_data
}

fn create_test_dictionary_with_unsigned() -> Vec<u8> {
    let mut d: Vec<u8> = Vec::new();
    d.extend_from_slice(b"1;4;protocol.c:123;SYS_PROTOCOL_DATE_TIME;Date time set rcvd: %u");
    d.push(0);
    d
}

#[test]
fn test_dictionary_parsing() {
    let parser = SyslogParser::new(create_test_dictionary());
    assert_eq!(parser.dictionary_size(), 3);
}

#[test]
fn test_binary_parsing() {
    let parser = SyslogParser::new(create_test_dictionary());
    let binary_data = create_test_binary();

    let parsed_logs = parser.parse_binary(&binary_data, 5).unwrap();
    assert_eq!(parsed_logs.len(), 3);

    assert_eq!(parsed_logs[0].timestamp_formatted, "0ms");
    assert_eq!(parsed_logs[0].module_name, "TEST_MODULE");

    assert_eq!(parsed_logs[1].timestamp_formatted, "1000ms");
    assert_eq!(parsed_logs[1].formatted_message, "Trigger no 42 at 100");
}

#[test]
fn test_timestamp_formatting() {
    assert_eq!(SyslogParser::format_timestamp(0), "0ms");
    assert_eq!(SyslogParser::format_timestamp(1234), "1234ms");
    assert_eq!(SyslogParser::format_timestamp(60000), "60000ms");
}

#[test]
fn test_message_formatting() {
    let parser = SyslogParser::new(create_test_dictionary());

    let args = vec![42, 100];
    let result = parser.format_message("Trigger no %d at %d", &args);
    assert_eq!(result, "Trigger no 42 at 100");

    // Missing arguments
    let result = parser.format_message("Value %d and %d", &vec![42]);
    assert_eq!(result, "Value 42 and <missing>");

    // Hex formatting: a lone %x carries its own 0x prefix
    let result = parser.format_message("Address 0x%x", &vec![255]);
    assert_eq!(result, "Address 0x0xFF");
}

#[test]
fn test_log_level_filtering() {
    let parser = SyslogParser::new(create_test_dictionary());
    let binary_data = create_test_binary();

    // Filter to only level 1 and below (should get 1 entry)
    let parsed_logs = parser.parse_binary(&binary_data, 1).unwrap();
    assert_eq!(parsed_logs.len(), 1);
    assert_eq!(parsed_logs[0].module_name, "SYS_INIT");
}

#[test]
fn test_format_output() {
    let parser = SyslogParser::new(create_test_dictionary());
    let binary_data = create_test_binary();

    let parsed_logs = parser.parse_binary(&binary_data, 5).unwrap();
    let formatted = parser.format_logs(&parsed_logs);

    assert_eq!(formatted.len(), 3);
    assert!(formatted[0].contains("0ms"));
    assert!(formatted[0].contains("[TEST_MODULE]"));
    assert!(formatted[1].contains("1000ms"));
    assert!(formatted[1].contains("Trigger no 42 at 100"));
}

#[test]
fn test_byte_offset_mapping() {
    let parser = SyslogParser::new(create_test_dictionary());

    let mut binary_data: Vec<u8> = Vec::new();
    binary_data.extend_from_slice(&5000u32.to_le_bytes());
    // Second entry "0;1;init.c:45;SYS_INIT;System started" starts at byte 47
    let second_entry_offset = 47u32;
    binary_data.extend_from_slice(&second_entry_offset.to_le_bytes());

    let parsed_logs = parser.parse_binary(&binary_data, 5).unwrap();
    assert_eq!(parsed_logs.len(), 1);
    assert_eq!(parsed_logs[0].module_name, "SYS_INIT");
}

#[test]
fn test_log_level_in_output() {
    let parser = SyslogParser::new(create_test_dictionary());
    let binary_data = create_test_binary();

    let parsed_logs = parser.parse_binary(&binary_data, 5).unwrap();

    let formatted_without_level = parser.format_logs(&parsed_logs);
    assert!(formatted_without_level[0].contains("[TEST_MODULE]"));
    assert!(!formatted_without_level[0].contains("[Warning]"));

    let formatted_with_level = parser.format_logs_with_options(&parsed_logs, true);
    assert!(formatted_with_level[0].contains("[Info]\t[TEST_MODULE]"));
    assert!(formatted_with_level[2].contains("[FatalError]\t[SYS_INIT]"));

    // Structure: timestamp\t[log_level]\t[module]\tmessage
    let parts: Vec<&str> = formatted_with_level[0].split('\t').collect();
    assert_eq!(parts.len(), 4);
    assert!(parts[1].starts_with('[') && parts[1].ends_with(']'));
    assert!(parts[2].starts_with('[') && parts[2].ends_with(']'));
}

#[test]
fn test_log_level_strings() {
    assert_eq!(SyslogParser::log_level_to_string(0), "Critical");
    assert_eq!(SyslogParser::log_level_to_string(1), "FatalError");
    assert_eq!(SyslogParser::log_level_to_string(2), "Error");
    assert_eq!(SyslogParser::log_level_to_string(3), "Warning");
    assert_eq!(SyslogParser::log_level_to_string(4), "Info");
    assert_eq!(SyslogParser::log_level_to_string(5), "Debug");
    assert_eq!(SyslogParser::log_level_to_string(6), "Verbose");
    assert_eq!(SyslogParser::log_level_to_string(255), "Unknown");
}

#[test]
fn test_unsigned_placeholder() {
    let parser = SyslogParser::new(create_test_dictionary_with_unsigned());

    let result = parser.format_message("Date time set rcvd: %u", &vec![1234567890]);
    assert_eq!(result, "Date time set rcvd: 1234567890");

    let result = parser.format_message(
        "Free space in workspace volume : (%lu kb / %lu kb)",
        &vec![1024, 2048],
    );
    assert_eq!(result, "Free space in workspace volume : (1024 kb / 2048 kb)");

    let result = parser.format_message(
        "Event %d at time %u with status 0x%x and size %lu",
        &vec![42, 1234567890, 255, 1024],
    );
    assert_eq!(result, "Event 42 at time 1234567890 with status 0x0xFF and size 1024");

    let result = parser.format_message("Size: %lu", &vec![]);
    assert_eq!(result, "Size: <missing>");
}

#[test]
fn test_long_format_specifiers() {
    let parser = SyslogParser::new(create_test_dictionary_with_unsigned());

    let result = parser.format_message("Long unsigned: %lu", &vec![4294967295]);
    assert_eq!(result, "Long unsigned: 4294967295");

    let result = parser.format_message("Long decimal: %ld", &vec![123456]);
    assert_eq!(result, "Long decimal: 123456");

    let result = parser.format_message("Long hex: %lx", &vec![255]);
    assert_eq!(result, "Long hex: 0xFF");

    let result = parser.format_message("Long long: %llu", &vec![9999]);
    assert_eq!(result, "Long long: 9999");

    let result = parser.format_message("Values: %d %u %x %lu %ld", &vec![1, 2, 3, 4, 5]);
    assert_eq!(result, "Values: 1 2 0x3 4 5");
}

#[test]
fn test_consecutive_hex_formatting() {
    let parser = SyslogParser::new(create_test_dictionary());

    let result = parser.format_message("Session is ....0x%x%x%x%x", &vec![0x32, 0x30, 0x46, 0x44]);
    assert_eq!(result, "Session is ....0x32304644");

    let result = parser.format_message("Address %x and value %x", &vec![0x32, 0x44]);
    assert_eq!(result, "Address 0x32 and value 0x44");

    let result = parser.format_message("ID: 0x%x%x, Status: %x", &vec![0xAB, 0xCD, 0xFF]);
    assert_eq!(result, "ID: 0xABCD, Status: 0xFF");
}
