use timestamp_store::Duration;
use timestamp_store::Error;
use timestamp_store::RecordScope;
use timestamp_store::SessionRecord;
use timestamp_store::SystemTime;

#[test]
fn can_encode_and_decode() {
    let tty_sample = SessionRecord::new(
        RecordScope::TTY {
            tty_device: 10,
            session_pid: 42,
            init_time: SystemTime::now().unwrap().sub_duration(Duration::seconds(150)),
        },
        999,
    )
    .unwrap();

    let mut bytes = tty_sample.as_bytes();
    let decoded = SessionRecord::from_bytes(&bytes).unwrap();
    assert_eq!(tty_sample, decoded);

    // we provide some invalid input
    assert!(SessionRecord::from_bytes(&bytes[1..]).is_err());

    // we have remaining input after decoding
    bytes.push(0);
    assert!(SessionRecord::from_bytes(&bytes).is_err());

    let ppid_sample = SessionRecord::new(
        RecordScope::PPID {
            group_pid: 42,
            init_time: SystemTime::now().unwrap(),
        },
        123,
    )
    .unwrap();
    let bytes = ppid_sample.as_bytes();
    let decoded = SessionRecord::from_bytes(&bytes).unwrap();
    assert_eq!(ppid_sample, decoded);
}

#[test]
fn timestamp_record_matches_works() {
    let init_time = SystemTime::now().unwrap();
    let scope = RecordScope::TTY {
        tty_device: 12,
        session_pid: 1234,
        init_time,
    };

    let tty_sample = SessionRecord::new(scope, 675).unwrap();

    assert!(tty_sample.matches(&scope, 675));
    assert!(!tty_sample.matches(&scope, 789));
    assert!(!tty_sample.matches(
        &RecordScope::TTY {
            tty_device: 20,
            session_pid: 1234,
            init_time
        },
        675
    ));
    assert!(!tty_sample.matches(
        &RecordScope::PPID {
            group_pid: 42,
            init_time
        },
        675
    ));

    // make sure the time is different
    assert!(!tty_sample.matches(
        &RecordScope::TTY {
            tty_device: 12,
            session_pid: 1234,
            init_time: init_time.add_duration(Duration::seconds(1))
        },
        675
    ));
}

#[test]
fn timestamp_record_written_between_works() {
    let some_time = SystemTime::now().unwrap().add_duration(Duration::minutes(100));
    let scope = RecordScope::TTY {
        tty_device: 12,
        session_pid: 1234,
        init_time: some_time,
    };
    let sample = SessionRecord::init(scope, 1234, true, some_time);

    let dur = Duration::seconds(30);

    assert!(sample.written_between(some_time, some_time));
    assert!(sample.written_between(some_time, some_time.add_duration(dur)));
    assert!(sample.written_between(some_time.sub_duration(dur), some_time));
    assert!(!sample.written_between(some_time.add_duration(dur), some_time.sub_duration(dur)));
    assert!(!sample.written_between(
        some_time.add_duration(dur),
        some_time.add_duration(dur).add_duration(dur)
    ));
    assert!(!sample.written_between(
        some_time.sub_duration(dur).sub_duration(dur),
        some_time.sub_duration(dur)
    ));
}

#[test]
fn encoding_has_exact_layout() {
    let record = SessionRecord::init(
        RecordScope::PPID {
            group_pid: 1,
            init_time: SystemTime::new(2, 3),
        },
        4,
        true,
        SystemTime::new(5, 6),
    );
    let bytes = record.as_bytes();
    let mut expected: Vec<u8> = Vec::new();
    expected.push(2); // scope discriminant
    expected.extend_from_slice(&1u32.to_le_bytes()); // group pid
    expected.extend_from_slice(&2u64.to_le_bytes()); // init time seconds
    expected.extend_from_slice(&3u64.to_le_bytes()); // init time nanoseconds
    expected.extend_from_slice(&4u32.to_le_bytes()); // auth user
    expected.extend_from_slice(&5u64.to_le_bytes()); // timestamp seconds
    expected.extend_from_slice(&6u64.to_le_bytes()); // timestamp nanoseconds
    expected.push(0xFF); // enabled flag
    assert_eq!(bytes, expected);
    assert_eq!(bytes.len(), 42);

    let tty = SessionRecord::init(
        RecordScope::TTY {
            tty_device: 7,
            session_pid: -8,
            init_time: SystemTime::new(2, 3),
        },
        4,
        false,
        SystemTime::new(5, 6),
    );
    let tty_bytes = tty.as_bytes();
    assert_eq!(tty_bytes.len(), 50);
    assert_eq!(tty_bytes[0], 1);
    assert_eq!(&tty_bytes[1..9], &7u64.to_le_bytes());
    assert_eq!(&tty_bytes[9..13], &(-8i32).to_le_bytes());
    assert_eq!(tty_bytes[49], 0x00);
}

#[test]
fn decode_reports_the_right_error() {
    assert_eq!(
        SessionRecord::from_bytes(&[]).unwrap_err(),
        Error::TruncatedRecord
    );
    assert_eq!(
        SessionRecord::from_bytes(&[3u8, 0, 0]).unwrap_err(),
        Error::UnknownScopeTag
    );
    assert_eq!(
        SessionRecord::from_bytes(&[2u8, 0, 0]).unwrap_err(),
        Error::TruncatedRecord
    );

    let record = SessionRecord::init(
        RecordScope::PPID {
            group_pid: 9,
            init_time: SystemTime::new(0, 0),
        },
        1,
        true,
        SystemTime::new(0, 0),
    );
    let mut bytes = record.as_bytes();
    bytes[41] = 0x02; // neither sentinel: rejected, not read as true
    assert_eq!(
        SessionRecord::from_bytes(&bytes).unwrap_err(),
        Error::InvalidBoolean
    );

    let mut bytes = record.as_bytes();
    bytes.push(0);
    assert_eq!(
        SessionRecord::from_bytes(&bytes).unwrap_err(),
        Error::TrailingBytes
    );
}

#[test]
fn write_bool_uses_sentinels() {
    let mut v: Vec<u8> = Vec::new();
    timestamp_store::write_bool(true, &mut v);
    timestamp_store::write_bool(false, &mut v);
    assert_eq!(v, vec![0xFF, 0x00]);
}
