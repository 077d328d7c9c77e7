use task_registry::hex::{parse_dec, parse_hex, render_dec, render_hex};
use task_registry::task_log::{read_status_from_log_tail, render_log_line, shard_name};
use task_registry::task_state::TaskState;
use task_registry::timefmt::{parse_rfc3339, render_rfc3339};
use task_registry::upid::UPID;

#[test]
fn hex_codec_roundtrip() {
    assert_eq!(render_hex(0, 8), b"00000000".to_vec());
    assert_eq!(render_hex(0x6553F002, 8), b"6553F002".to_vec());
    assert_eq!(render_hex(u64::MAX, 16), b"FFFFFFFFFFFFFFFF".to_vec());
    assert_eq!(parse_hex(b"6553F002"), Some(0x6553F002));
    assert_eq!(parse_hex(b"00000000"), Some(0));
    assert_eq!(parse_hex(b"g0000000"), None);
    assert_eq!(parse_hex(b"0000000a"), None, "lower case digits are not canonical");
}

#[test]
fn dec_codec_roundtrip() {
    assert_eq!(render_dec(0), b"0".to_vec());
    assert_eq!(render_dec(1), b"1".to_vec());
    assert_eq!(render_dec(18446744073709551615), b"18446744073709551615".to_vec());
    assert_eq!(parse_dec(b"42"), Some(42));
    assert_eq!(parse_dec(b"042"), None, "leading zeroes are not canonical");
    assert_eq!(parse_dec(b""), None);
    assert_eq!(parse_dec(b"18446744073709551616"), None, "does not fit a u64");
}

#[test]
fn upid_text_roundtrip() {
    let upid = UPID::new(
        b"pve1".to_vec(),
        b"vzdump".to_vec(),
        None,
        b"root@pam".to_vec(),
        1234,
        0x1122334455,
        7,
        1_700_000_000,
    )
    .unwrap();
    let text = upid.to_text();
    assert_eq!(
        text,
        b"UPID:pve1:000004D2:0000001122334455:0000000000000007:6553F100:vzdump::root@pam:".to_vec()
    );
    let back = UPID::parse(&text).unwrap();
    assert_eq!(back, upid);

    assert!(UPID::parse(b"UPID:pve1:zz").is_none());
    assert!(UPID::parse(b"").is_none());
    // Hexadecimal fields must have their exact canonical width.
    assert!(UPID::parse(b"UPID:pve1:4D2:0000001122334455:0000000000000007:6553F100:vzdump::root@pam:").is_none());
    // A missing trailing colon changes the field count and is refused.
    assert!(UPID::parse(b"UPID:pve1:000004D2:0000001122334455:0000000000000007:6553F100:vzdump::root@pam").is_none());
    // A field holding a space is refused.
    assert!(
        UPID::new(
            b"bad node".to_vec(),
            b"t".to_vec(),
            None,
            b"a".to_vec(),
            1,
            1,
            1,
            1
        )
        .is_none()
    );
}

#[test]
fn status_text_roundtrip() {
    let ok = TaskState::OK { endtime: 10 };
    assert_eq!(ok.status_text(), b"OK".to_vec());
    assert_eq!(
        TaskState::from_endtime_and_message(10, b"OK"),
        Some(TaskState::OK { endtime: 10 })
    );
    assert_eq!(
        TaskState::from_endtime_and_message(10, b"unknown"),
        Some(TaskState::Unknown { endtime: 10 })
    );
    assert_eq!(
        TaskState::from_endtime_and_message(10, b"WARNINGS: 3"),
        Some(TaskState::Warning { count: 3, endtime: 10 })
    );
    assert_eq!(
        TaskState::from_endtime_and_message(10, b"ERROR: it broke"),
        Some(TaskState::Error { message: b"it broke".to_vec(), endtime: 10 })
    );
    assert_eq!(TaskState::from_endtime_and_message(10, b"whatever else"), None);
    assert_eq!(TaskState::from_endtime_and_message(10, b""), None);

    let err = TaskState::Error { message: b"no space".to_vec(), endtime: 99 };
    assert_eq!(err.result_text(), b"TASK ERROR: no space".to_vec());
}

#[test]
fn rfc3339_codec() {
    assert_eq!(render_rfc3339(0), b"1970-01-01T00:00:00Z".to_vec());
    assert_eq!(render_rfc3339(1_700_000_002), b"2023-11-14T22:13:22Z".to_vec());
    assert_eq!(parse_rfc3339(b"1970-01-01T00:00:00Z"), Some(0));
    assert_eq!(parse_rfc3339(b"2023-11-14T22:13:22Z"), Some(1_700_000_002));
    assert_eq!(parse_rfc3339(b"2024-02-29T12:00:00Z"), Some(1_709_208_000));
    assert_eq!(parse_rfc3339(b"not a time, surely"), None);
    assert_eq!(parse_rfc3339(b"2023-13-14T22:13:22Z"), None, "no thirteenth month");

    // Rendering then reading gives the second back.
    for &t in &[0i64, 86399, 86400, 951_868_800, 4_102_444_799] {
        assert_eq!(parse_rfc3339(&render_rfc3339(t)), Some(t));
    }
}

#[test]
fn log_lines_and_trailer_recovery() {
    let line = render_log_line(1_700_000_001, b"starting up");
    assert_eq!(line, b"2023-11-14T22:13:21Z: starting up".to_vec());

    let mut tail = line.clone();
    tail.push(b'\n');
    tail.extend_from_slice(b"2023-11-14T22:13:22Z: TASK WARNINGS: 2\n");
    let st = read_status_from_log_tail(&tail, 123);
    assert_eq!(st, TaskState::Warning { count: 2, endtime: 1_700_000_002 });

    // No trailer at all: the fallback time is used.
    let st = read_status_from_log_tail(b"nothing here", 123);
    assert_eq!(st, TaskState::Unknown { endtime: 123 });

    // A timestamp without a status keeps the parsed time.
    let st = read_status_from_log_tail(b"2023-11-14T22:13:22Z: just chatter\n\n", 123);
    assert_eq!(st, TaskState::Unknown { endtime: 1_700_000_002 });
}

#[test]
fn shard_names() {
    assert_eq!(shard_name(0), b"00".to_vec());
    assert_eq!(shard_name(0x1FF), b"FF".to_vec());
    assert_eq!(shard_name(77), b"4D".to_vec());
}
