use timestamp_store::CreateResult;
use timestamp_store::Duration;
use timestamp_store::Error;
use timestamp_store::MemoryStream;
use timestamp_store::RecordScope;
use timestamp_store::SessionRecord;
use timestamp_store::SessionRecordFile;
use timestamp_store::SetLength;
use timestamp_store::SystemTime;
use timestamp_store::TouchResult;

const HEADER: [u8; 4] = [0xD0, 0x50, 0x01, 0x00];

fn tty_scope() -> RecordScope {
    RecordScope::TTY {
        tty_device: 0,
        session_pid: 0,
        init_time: SystemTime::new(0, 0),
    }
}

/// A file image holding the header and then the framed encodings given.
fn file_with_records(bodies: &[Vec<u8>]) -> Vec<u8> {
    let mut data = HEADER.to_vec();
    for body in bodies {
        data.extend_from_slice(&(body.len() as u16).to_le_bytes());
        data.extend_from_slice(body);
    }
    data
}

#[test]
fn session_record_file_header_checks() {
    // valid header should remain valid
    let v = vec![0xD0, 0x50, 0x01, 0x00];
    let c = MemoryStream::new(v);
    let timeout = Duration::seconds(30);
    let srf = SessionRecordFile::new("test", c, timeout);
    assert!(srf.is_ok());
    assert_eq!(srf.unwrap().raw_data().as_slice(), &HEADER);

    // invalid headers should be corrected
    let v = vec![0xAB, 0xBA];
    let c = MemoryStream::new(v);
    let srf = SessionRecordFile::new("test", c, timeout);
    assert!(srf.is_ok());
    assert_eq!(srf.unwrap().raw_data().as_slice(), &HEADER);

    // empty header should be filled in
    let v = vec![];
    let c = MemoryStream::new(v);
    let srf = SessionRecordFile::new("test", c, timeout);
    assert!(srf.is_ok());
    assert_eq!(srf.unwrap().raw_data().as_slice(), &HEADER);

    // invalid version should reset the file
    let v = vec![0xD0, 0x50, 0xAB, 0xBA, 0x0, 0x0];
    let c = MemoryStream::new(v);
    let srf = SessionRecordFile::new("test", c, timeout);
    assert!(srf.is_ok());
    assert_eq!(srf.unwrap().raw_data().as_slice(), &HEADER);
}

#[test]
fn can_create_and_update_valid_file() {
    let timeout = Duration::seconds(30);
    let c = MemoryStream::new(vec![]);
    let mut srf = SessionRecordFile::new("test", c, timeout).unwrap();
    let tty_scope = tty_scope();
    let auth_user = 2424;
    let t0 = SystemTime::new(100, 0);
    let res = srf.create_at(tty_scope, auth_user, t0).unwrap();
    let CreateResult::Created { time } = res else {
        panic!("Expected record to be created");
    };
    assert_eq!(time, t0);

    let t1 = SystemTime::new(100, 500_000_000);
    let second = srf.touch_at(tty_scope, auth_user, t1).unwrap();
    let TouchResult::Updated { old_time, new_time } = second else {
        panic!("Expected record to be updated");
    };
    assert_eq!(time, old_time);
    assert_ne!(old_time, new_time);

    let t2 = SystemTime::new(101, 0);
    let res = srf.create_at(tty_scope, auth_user, t2).unwrap();
    let CreateResult::Updated { .. } = res else {
        panic!("Expected record to be updated");
    };

    // reset the file
    assert!(srf.reset().is_ok());

    // after all this the data should be just an empty header
    assert_eq!(srf.raw_data().as_slice(), &HEADER);
}

#[test]
fn create_then_touch_with_clock() {
    let timeout = Duration::seconds(30);
    let c = MemoryStream::new(vec![]);
    let mut srf = SessionRecordFile::new("test", c, timeout).unwrap();
    let scope = tty_scope();
    let res = srf.create(scope, 2424).unwrap();
    let CreateResult::Created { time } = res else {
        panic!("Expected record to be created");
    };
    let second = srf.touch(scope, 2424).unwrap();
    let TouchResult::Updated { old_time, .. } = second else {
        panic!("Expected record to be updated");
    };
    assert_eq!(time, old_time);
}

#[test]
fn disabled_slot_is_reused() {
    let timeout = Duration::seconds(30);
    let c = MemoryStream::new(vec![]);
    let mut srf = SessionRecordFile::new("test", c, timeout).unwrap();
    let scope = tty_scope();
    let user = 1000;
    let t0 = SystemTime::new(50, 0);
    let CreateResult::Created { .. } = srf.create_at(scope, user, t0).unwrap() else {
        panic!("Expected record to be created");
    };
    let len_after_create = srf.raw_data().len();

    srf.disable(scope, Some(user)).unwrap();
    assert_eq!(
        srf.touch_at(scope, user, t0).unwrap(),
        TouchResult::NotFound
    );

    // the next create reuses the disabled slot instead of appending
    let t1 = SystemTime::new(51, 0);
    let CreateResult::Updated { old_time, new_time } = srf.create_at(scope, user, t1).unwrap()
    else {
        panic!("Expected the disabled slot to be updated");
    };
    assert_eq!(old_time, t0);
    assert_eq!(new_time, t1);
    assert_eq!(srf.raw_data().len(), len_after_create);

    // and the record is live again
    let t2 = SystemTime::new(52, 0);
    let TouchResult::Updated { .. } = srf.touch_at(scope, user, t2).unwrap() else {
        panic!("Expected the re-enabled record to be updated");
    };
}

#[test]
fn disable_without_filter_hits_every_user() {
    let timeout = Duration::seconds(30);
    let c = MemoryStream::new(vec![]);
    let mut srf = SessionRecordFile::new("test", c, timeout).unwrap();
    let scope = tty_scope();
    let t0 = SystemTime::new(10, 0);
    srf.create_at(scope, 1, t0).unwrap();
    srf.create_at(scope, 2, t0).unwrap();

    srf.disable(scope, None).unwrap();
    assert_eq!(srf.touch_at(scope, 1, t0).unwrap(), TouchResult::NotFound);
    assert_eq!(srf.touch_at(scope, 2, t0).unwrap(), TouchResult::NotFound);
}

#[test]
fn outdated_and_not_found_are_distinguished() {
    let timeout = Duration::seconds(30);
    let c = MemoryStream::new(vec![]);
    let mut srf = SessionRecordFile::new("test", c, timeout).unwrap();
    let scope = tty_scope();
    let user = 2424;
    let t0 = SystemTime::new(1000, 0);
    srf.create_at(scope, user, t0).unwrap();

    // written at now - timeout - 1s: a record exists but is no longer valid
    let late = t0.add_duration(Duration::seconds(31));
    assert_eq!(
        srf.touch_at(scope, user, late).unwrap(),
        TouchResult::Outdated { time: t0 }
    );

    // a future timestamp (clock rollback) is invalid as well
    let early = t0.sub_duration(Duration::seconds(1));
    assert_eq!(
        srf.touch_at(scope, user, early).unwrap(),
        TouchResult::Outdated { time: t0 }
    );

    // a key never created is not found at all
    assert_eq!(
        srf.touch_at(scope, 1, t0).unwrap(),
        TouchResult::NotFound
    );
}

#[test]
fn corrupt_tail_is_truncated_on_scan() {
    let record = SessionRecord::init(tty_scope(), 7, true, SystemTime::new(5, 0));
    let body = record.as_bytes();
    let mut data = file_with_records(&[body.clone()]);
    let good_len = data.len();
    // a frame that declares 9 bytes but holds only 2
    data.extend_from_slice(&9u16.to_le_bytes());
    data.extend_from_slice(&[1, 2]);

    let timeout = Duration::seconds(30);
    let c = MemoryStream::new(data);
    let mut srf = SessionRecordFile::new("test", c, timeout).unwrap();

    // scanning for some other key passes the whole record, hits the damage,
    // and truncates the stream right after the last whole record
    assert_eq!(
        srf.touch_at(tty_scope(), 8, SystemTime::new(5, 0)).unwrap(),
        TouchResult::NotFound
    );
    assert_eq!(srf.raw_data().len(), good_len);
    assert_eq!(srf.raw_data().as_slice(), &file_with_records(&[body])[..]);
}

#[test]
fn undecodable_record_is_truncated_on_scan() {
    let record = SessionRecord::init(tty_scope(), 7, true, SystemTime::new(5, 0));
    let body = record.as_bytes();
    let mut bad = body.clone();
    bad[0] = 9; // unknown scope discriminant
    let data = file_with_records(&[body.clone(), bad]);

    let timeout = Duration::seconds(30);
    let c = MemoryStream::new(data);
    let mut srf = SessionRecordFile::new("test", c, timeout).unwrap();
    assert_eq!(
        srf.touch_at(tty_scope(), 8, SystemTime::new(5, 0)).unwrap(),
        TouchResult::NotFound
    );
    assert_eq!(srf.raw_data().as_slice(), &file_with_records(&[body])[..]);
}

#[test]
fn zero_length_record_is_a_hard_error() {
    let mut data = HEADER.to_vec();
    data.extend_from_slice(&[0, 0]);
    let timeout = Duration::seconds(30);
    let c = MemoryStream::new(data);
    let mut srf = SessionRecordFile::new("test", c, timeout).unwrap();
    assert_eq!(
        srf.touch_at(tty_scope(), 1, SystemTime::new(5, 0)).unwrap_err(),
        Error::EmptyRecord
    );
}

#[test]
fn memory_stream_set_length() {
    let mut ms = MemoryStream::new(vec![1, 2, 3, 4]);
    SetLength::set_len(&mut ms, 2);
    assert_eq!(ms.get_ref().as_slice(), &[1, 2]);
    SetLength::set_len(&mut ms, 4);
    assert_eq!(ms.get_ref().as_slice(), &[1, 2, 0, 0]);
    assert_eq!(ms.into_inner(), vec![1, 2, 0, 0]);
}

#[test]
fn clock_reading_is_normalized() {
    let now = SystemTime::now().unwrap();
    assert!(now.secs >= 0);
    assert!(now.nanos >= 0);
    assert!(now.nanos < 1_000_000_000);
}
