use baeum::conf::target_command;
use baeum::decimal::{decimal_string, decimal_text_of, parse_decimal_i64};
use baeum::exec::{classify_status, parse_feedback, ExecResult};
use baeum::fuzz::accumulate_nodes;
use baeum::random::get_random;
use baeum::seed::{test_case_name, Seed};
use baeum::stat::{Log, LogData, LogInfo, LOG_INTERVAL};
use baeum::web::{file_route, info_entries, sec_to_timef, FileRoute};
use baeum::exec::Feedback;

#[test]
fn decimal_text_spells_integers() {
    assert_eq!(decimal_text_of(0), b"0".to_vec());
    assert_eq!(decimal_text_of(-123), b"-123".to_vec());
    assert_eq!(decimal_text_of(i64::MIN), b"-9223372036854775808".to_vec());
    assert_eq!(decimal_text_of(i64::MAX), b"9223372036854775807".to_vec());
    assert_eq!(decimal_string(4294967295), "4294967295");
}

#[test]
fn parse_decimal_reads_i64() {
    assert_eq!(parse_decimal_i64(b"42"), Some(42));
    assert_eq!(parse_decimal_i64(b"-0"), Some(0));
    assert_eq!(parse_decimal_i64(b"007"), Some(7));
    assert_eq!(parse_decimal_i64(b"-9223372036854775808"), Some(i64::MIN));
    assert_eq!(parse_decimal_i64(b"9223372036854775807"), Some(i64::MAX));
    assert_eq!(parse_decimal_i64(b"9223372036854775808"), None);
    assert_eq!(parse_decimal_i64(b"-9223372036854775809"), None);
    assert_eq!(parse_decimal_i64(b"123456789012345678901234567890"), None);
}

#[test]
fn decimal_round_trip() {
    for v in [0i64, 1, -1, 10, -99, 123456789, i64::MIN, i64::MAX] {
        assert_eq!(parse_decimal_i64(&decimal_text_of(v)), Some(v));
    }
}

#[test]
fn parse_feedback_little_endian() {
    let mut bytes = vec![0u8; 16];
    bytes[0] = 0x01;
    bytes[1] = 0x02;
    bytes[7] = 0x80;
    bytes[8] = 0x10;
    bytes[9] = 0x01;
    bytes[12] = 0x05;
    bytes[15] = 0x01;
    let f = parse_feedback(&bytes);
    assert_eq!(f.exec_id, 0x8000_0000_0000_0201);
    assert_eq!(f.node, 0x0110);
    assert_eq!(f.newnode, 0x0100_0005);
}

#[test]
fn classify_status_kinds() {
    assert_eq!(classify_status(-1), ExecResult::Hang);
    assert_eq!(classify_status(0), ExecResult::Success);
    assert_eq!(classify_status(11), ExecResult::Crash);
    assert_eq!(classify_status(6), ExecResult::Crash);
}

#[test]
fn accumulate_nodes_first_run_sets_count() {
    let f1 = Feedback { exec_id: 1, node: 30, newnode: 30 };
    let f2 = Feedback { exec_id: 2, node: 35, newnode: 5 };
    let t = accumulate_nodes(0, &f1);
    assert_eq!(t, 30);
    assert_eq!(accumulate_nodes(t, &f2), 35);
}

#[test]
fn random_numbers_stay_in_range() {
    for _ in 0..200 {
        assert!(get_random(7) < 7);
    }
    assert_eq!(get_random(1), 0);
}

#[test]
fn log_info_new_is_zero() {
    let i = LogInfo::new();
    assert_eq!((i.seed_count, i.crash_count, i.uniq_crash_count, i.exec_count, i.total_node), (0, 0, 0, 0, 0));
}

#[test]
fn log_data_new_is_empty() {
    let mut d = LogData::new();
    assert!(d.infos.is_empty());
    assert!(d.crash_paths.is_empty());
    d.reset_last_time();
    let t = std::time::SystemTime::UNIX_EPOCH;
    d.set_last_time(t);
    assert_eq!(d.last_time, t);
    assert!(d.infos.is_empty());
}

#[test]
fn log_update_after_interval() {
    let mut log = Log::new();
    log.info.exec_count = 5;
    let now = std::time::SystemTime::now();
    log.update_after(LOG_INTERVAL - 1, now);
    assert!(log.data.infos.is_empty());
    log.update_after(LOG_INTERVAL, now);
    assert_eq!(log.data.last_time, now);
    assert_eq!(log.data.infos.len(), 1);
    assert_eq!(log.data.infos[0].exec_count, 5);
}

#[test]
fn log_update_right_after_start_takes_nothing() {
    let mut log = Log::new();
    assert!(log.update());
    assert!(log.data.infos.is_empty());
}

#[test]
fn record_crash_counts_distinct_paths() {
    let mut log = Log::new();
    assert_eq!(log.record_crash(7), Some(1));
    assert_eq!(log.record_crash(7), None);
    assert_eq!(log.record_crash(8), Some(2));
    assert_eq!(log.info.crash_count, 3);
    assert_eq!(log.info.uniq_crash_count, 2);
    assert_eq!(log.data.crash_paths.len(), 2);
}

#[test]
fn seed_numbers_and_exec_counts() {
    let mut log = Log::new();
    assert_eq!(log.next_seed_number(), 1);
    assert_eq!(log.next_seed_number(), 2);
    assert!(log.record_exec(3));
    assert!(!log.record_exec(0));
    assert_eq!(log.info.exec_count, 2);
    assert_eq!(log.info.total_node, 3);
    log.record_dry_run(4, 100);
    assert_eq!(log.info.exec_count, 4);
    assert_eq!(log.info.total_node, 100);
    assert_eq!(log.info.seed_count, 2);
}

#[test]
fn sec_to_timef_formats() {
    assert_eq!(sec_to_timef(0), "0 days, 00:00:00");
    assert_eq!(sec_to_timef(90061), "1 days, 01:01:01");
    assert_eq!(sec_to_timef(86399), "0 days, 23:59:59");
    assert_eq!(sec_to_timef(10 * 86400 + 3600 * 13 + 60 * 7 + 9), "10 days, 13:07:09");
}

#[test]
fn info_entries_report() {
    let info = LogInfo { seed_count: 3, crash_count: 2, uniq_crash_count: 1, exec_count: 100, total_node: 77 };
    let e = info_entries(&info, 30);
    let pairs: Vec<(String, String)> = e.into_iter().map(|x| (x.id, x.value)).collect();
    assert_eq!(
        pairs,
        vec![
            ("seed_count".to_string(), "3".to_string()),
            ("crash_count".to_string(), "2".to_string()),
            ("uniq_crash_count".to_string(), "1".to_string()),
            ("total_node".to_string(), "77".to_string()),
            ("time".to_string(), "0 days, 00:00:30".to_string()),
            ("execspeed".to_string(), "3".to_string()),
        ]
    );
    let e = info_entries(&info, 0);
    assert_eq!(e[5].value, "0");
}

#[test]
fn target_command_with_file_marker() {
    let args = vec!["./prog".to_string(), "-f".to_string(), "@@".to_string()];
    let (cmd, input) = target_command(&args, "out", "out/.input", "/opt/baeum");
    assert_eq!(input, "out/.input");
    assert_eq!(cmd, vec!["/opt/baeum/qemu-trace-coverage", "./prog", "-f", "out/.input"]);
}

#[test]
fn target_command_reads_stdin() {
    let args = vec!["./prog".to_string()];
    let (cmd, input) = target_command(&args, "out", "out/.input", "");
    assert_eq!(input, "out/.stdin");
    assert_eq!(cmd, vec!["/qemu-trace-coverage", "./prog"]);
}

#[test]
fn test_case_names() {
    assert_eq!(test_case_name(12), "tc-12");
    assert_eq!(test_case_name(0), "tc-0");
    let s = Seed { filepath: "out/queue/tc-1".to_string() };
    assert_eq!(s.clone().filepath, "out/queue/tc-1");
}

#[test]
fn file_route_serves_accepted_paths() {
    assert_eq!(file_route(Some("app.js"), "/opt/baeum"), FileRoute::Serve("/opt/baeum/ui/app.js".to_string()));
    assert_eq!(file_route(Some("css/a.css"), "/opt/"), FileRoute::Serve("/opt/ui/css/a.css".to_string()));
    assert_eq!(file_route(Some("./a"), ""), FileRoute::Serve("ui/./a".to_string()));
    assert_eq!(file_route(Some("a..b/...c"), "b"), FileRoute::Serve("b/ui/a..b/...c".to_string()));
}

#[test]
fn file_route_forbids_other_paths() {
    assert_eq!(file_route(None, "/opt"), FileRoute::Forbidden);
    assert_eq!(file_route(Some("../secret"), "/opt"), FileRoute::Forbidden);
    assert_eq!(file_route(Some("a/../../b"), "/opt"), FileRoute::Forbidden);
    assert_eq!(file_route(Some("a/.."), "/opt"), FileRoute::Forbidden);
    assert_eq!(file_route(Some("/etc/passwd"), "/opt"), FileRoute::Forbidden);
}

#[test]
fn log_data_new_at_keeps_times() {
    let t1 = std::time::SystemTime::UNIX_EPOCH;
    let t2 = t1 + std::time::Duration::from_secs(5);
    let d = LogData::new_at(t1, t2);
    assert_eq!(d.start_time, t1);
    assert_eq!(d.last_time, t2);
    assert!(d.infos.is_empty());
}
