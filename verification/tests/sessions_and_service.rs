use syslog_decoder::display::format_timestamp_ms;
use syslog_decoder::service::{map_firmware_version_to_decoder, ErrorResponse};
use syslog_decoder::sessions::{
    epoch_to_local_time, extract_timestamp_from_line, parse_date_time_line, parse_log_sessions,
};

#[test]
fn reset_cause_lines_open_new_sessions() {
    let content = "System Reset Cause: POR\nline one\nSystem Reset Cause: WDT\nline two\n";
    let sessions = parse_log_sessions(content);
    assert_eq!(sessions.len(), 2);
    assert_eq!(sessions[0].id, 0);
    assert_eq!(sessions[1].id, 1);
    assert!(sessions[0].content.contains("line one"));
    assert!(!sessions[0].content.contains("line two"));
    assert!(sessions[1].content.contains("line two"));
}

#[test]
fn single_line_sessions_are_dropped_and_survivors_renumbered() {
    let content = "System Reset Cause: A\nalpha\nSystem Reset Cause: B\nSystem Reset Cause: C\ngamma\n";
    let sessions = parse_log_sessions(content);
    assert_eq!(sessions.len(), 2);
    assert_eq!(sessions[0].id, 0);
    assert_eq!(sessions[1].id, 1);
    assert!(sessions[0].content.contains("alpha"));
    assert!(sessions[1].content.contains("gamma"));
}

#[test]
fn zero_timestamp_after_nonzero_opens_new_session() {
    let content = "10ms\tfirst\n20ms\tsecond\n0ms\tthird\n1ms\tfourth\n";
    let sessions = parse_log_sessions(content);
    assert_eq!(sessions.len(), 2);
    assert!(sessions[0].content.contains("first"));
    assert!(sessions[0].content.contains("second"));
    assert!(sessions[1].content.contains("third"));
    assert!(sessions[1].content.contains("fourth"));
}

#[test]
fn date_time_line_sets_session_timestamp() {
    let content = "10ms\tboot\nDate time set rcvd: 1756474625\n20ms\twork\n";
    let sessions = parse_log_sessions(content);
    assert_eq!(sessions.len(), 1);
    assert_eq!(sessions[0].timestamp, Some("Epoch: 1756474625".to_string()));
    assert!(sessions[0].content.contains("Date time set rcvd: 1756474625"));
}

#[test]
fn banner_lines_are_never_appended() {
    let content = "10ms\tkept\nUsing default dictionary for decode\n20ms\talso kept\n";
    let sessions = parse_log_sessions(content);
    assert_eq!(sessions.len(), 1);
    assert!(!sessions[0].content.contains("Using default"));
    assert!(sessions[0].content.contains("kept"));
}

#[test]
fn parse_date_time_line_reads_both_forms() {
    assert_eq!(parse_date_time_line("Date time set rcvd: 1756474625"), Some(1756474625));
    assert_eq!(
        parse_date_time_line("69808ms\t\t[SYS_PROTOCOL_DATE_TIME]\tDate time set rcvd: 1756474625"),
        Some(1756474625)
    );
    assert_eq!(parse_date_time_line("no marker here"), None);
    assert_eq!(parse_date_time_line("Date time set rcvd: not-a-number"), None);
    // a value that overflows 64 bits is rejected, not mangled
    assert_eq!(parse_date_time_line("Date time set rcvd: 99999999999999999999999"), None);
}

#[test]
fn extract_timestamp_reads_the_prefix_before_ms() {
    assert_eq!(extract_timestamp_from_line("1234ms\t\t[MOD]\tmessage"), Some(1234));
    assert_eq!(extract_timestamp_from_line("0ms\tx"), Some(0));
    assert_eq!(extract_timestamp_from_line("no timestamp"), None);
    assert_eq!(extract_timestamp_from_line("abcms\tx"), None);
}

#[test]
fn epoch_to_local_time_formats_the_epoch() {
    assert_eq!(epoch_to_local_time(0), "Epoch: 0");
    assert_eq!(epoch_to_local_time(1756474625), "Epoch: 1756474625");
}

#[test]
fn format_timestamp_ms_pads_minutes_seconds_millis() {
    assert_eq!(format_timestamp_ms(0), "00.000");
    assert_eq!(format_timestamp_ms(1234), "01.234");
    assert_eq!(format_timestamp_ms(60000), "01:00.000");
    assert_eq!(format_timestamp_ms(125678), "02:05.678");
}

#[test]
fn firmware_versions_map_to_known_decoders() {
    assert_eq!(
        map_firmware_version_to_decoder("Quara_fw_9.17.3.13"),
        Some("decoder_9_17_3_1".to_string())
    );
    assert_eq!(
        map_firmware_version_to_decoder("Quara_fw_9.12.2.0"),
        Some("decoder_9_12_2_0".to_string())
    );
    assert_eq!(
        map_firmware_version_to_decoder("Quara_fw_9.6.1.0"),
        Some("decoder_9_6_1_0".to_string())
    );
    // unknown patch falls back on the major and minor version
    assert_eq!(
        map_firmware_version_to_decoder("Quara_fw_9.17.9.9"),
        Some("decoder_9_17_3_1".to_string())
    );
    assert_eq!(map_firmware_version_to_decoder("Quara_fw_9.18.0.0"), None);
    assert_eq!(map_firmware_version_to_decoder("Quara_fw_9.17"), None);
    assert_eq!(map_firmware_version_to_decoder("Other_fw_9.17.3.0"), None);
}

#[test]
fn error_response_wraps_the_message() {
    let e = ErrorResponse::new("went wrong".to_string());
    assert_eq!(e.error, "went wrong");
}
