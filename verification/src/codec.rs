//! The record codec: one ledger entry, and how it is laid out as bytes.
//!
//! Scalars are fixed-width little-endian; a single discriminant byte tells the
//! scope variants apart; the enabled flag uses an explicit sentinel encoding
//! so that bit-flip damage is rejected instead of being read as `true`.

use vstd::prelude::*;
use vstd::bytes::lemma_auto_spec_u32_to_from_le_bytes;
use vstd::bytes::lemma_auto_spec_u64_to_from_le_bytes;
use vstd::bytes::spec_u32_from_le_bytes;
use vstd::bytes::spec_u32_to_le_bytes;
use vstd::bytes::spec_u64_from_le_bytes;
use vstd::bytes::spec_u64_to_le_bytes;
use vstd::bytes::u32_from_le_bytes;
use vstd::bytes::u32_to_le_bytes;
use vstd::bytes::u64_from_le_bytes;
use vstd::bytes::u64_to_le_bytes;
use vstd::slice::slice_subrange;

use crate::error::Error;
use crate::time::spec_time_bytes;
use crate::time::spec_time_of;
use crate::time::lemma_time_bytes_of;
use crate::time::lemma_time_roundtrip;
use crate::time::SystemTime;

verus! {

/// Discriminant byte of a terminal-bound scope.
pub const TAG_TTY: u8 = 1;

/// Discriminant byte of a parent-process-bound scope.
pub const TAG_PPID: u8 = 2;

/// Sentinel byte encoding `true`.
pub const BOOL_TRUE: u8 = 0xFF;

/// Sentinel byte encoding `false`.
pub const BOOL_FALSE: u8 = 0x00;

/// Encoded size of a record with a terminal-bound scope.
pub const TTY_RECORD_LEN: usize = 50;

/// Encoded size of a record with a parent-process-bound scope.
pub const PPID_RECORD_LEN: usize = 42;

/// The login context a cached authentication applies to.
///
/// Matching is structural on every field: a recycled process id with a
/// different start time is a different session and never matches.
#[derive(Clone, Copy, Debug, PartialEq, Eq, Structural)]
pub enum RecordScope {
    /// Bound to a controlling terminal device, the session leader that first
    /// authenticated on it, and that leader's start time.
    TTY { tty_device: u64, session_pid: i32, init_time: SystemTime },
    /// Bound to a parent process group and its start time, for sessions
    /// without a controlling terminal.
    PPID { group_pid: i32, init_time: SystemTime },
}

/// One ledger entry: in which login context an authentication succeeded, for
/// which target user, when it last did, and whether the entry is live.
#[derive(Clone, Copy, Debug, PartialEq, Eq, Structural)]
pub struct SessionRecord {
    /// The matching key: which login context this entry applies to.
    pub scope: RecordScope,
    /// The user that was authenticated against (the target of escalation).
    pub auth_user: u32,
    /// Time of the last successful authentication or refresh.
    pub timestamp: SystemTime,
    /// A disabled entry acts as absent, but its storage slot is reused.
    pub enabled: bool,
}

/// The byte encoding of a scope: discriminant, then the fixed fields.
pub open spec fn spec_scope_bytes(s: RecordScope) -> Seq<u8> {
    match s {
        RecordScope::TTY { tty_device, session_pid, init_time } => seq![TAG_TTY]
            + spec_u64_to_le_bytes(tty_device) + spec_u32_to_le_bytes(session_pid as u32)
            + spec_time_bytes(init_time),
        RecordScope::PPID { group_pid, init_time } => seq![TAG_PPID]
            + spec_u32_to_le_bytes(group_pid as u32) + spec_time_bytes(init_time),
    }
}

/// The sentinel byte of a boolean.
pub open spec fn spec_bool_byte(b: bool) -> u8 {
    if b {
        BOOL_TRUE
    } else {
        BOOL_FALSE
    }
}

/// The byte encoding of a whole record: scope, auth user, timestamp, flag.
pub open spec fn spec_record_bytes(r: SessionRecord) -> Seq<u8> {
    spec_scope_bytes(r.scope) + spec_u32_to_le_bytes(r.auth_user)
        + spec_time_bytes(r.timestamp) + seq![spec_bool_byte(r.enabled)]
}

/// The record a byte sequence encodes, if it encodes one exactly.
pub open spec fn spec_decode_record(d: Seq<u8>) -> Option<SessionRecord> {
    if d.len() == TTY_RECORD_LEN as int && d[0] == TAG_TTY && (d[49] == BOOL_TRUE || d[49]
        == BOOL_FALSE) {
        Some(
            SessionRecord {
                scope: RecordScope::TTY {
                    tty_device: spec_u64_from_le_bytes(d.subrange(1, 9)),
                    session_pid: spec_u32_from_le_bytes(d.subrange(9, 13)) as i32,
                    init_time: spec_time_of(d.subrange(13, 29)),
                },
                auth_user: spec_u32_from_le_bytes(d.subrange(29, 33)),
                timestamp: spec_time_of(d.subrange(33, 49)),
                enabled: d[49] == BOOL_TRUE,
            },
        )
    } else if d.len() == PPID_RECORD_LEN as int && d[0] == TAG_PPID && (d[41] == BOOL_TRUE || d[41]
        == BOOL_FALSE) {
        Some(
            SessionRecord {
                scope: RecordScope::PPID {
                    group_pid: spec_u32_from_le_bytes(d.subrange(1, 5)) as i32,
                    init_time: spec_time_of(d.subrange(5, 21)),
                },
                auth_user: spec_u32_from_le_bytes(d.subrange(21, 25)),
                timestamp: spec_time_of(d.subrange(25, 41)),
                enabled: d[41] == BOOL_TRUE,
            },
        )
    } else {
        None
    }
}

/// The error decoding reports for a byte sequence that encodes no record.
pub open spec fn spec_decode_err(d: Seq<u8>) -> Error {
    if d.len() == 0 {
        Error::TruncatedRecord
    } else if d[0] != TAG_TTY && d[0] != TAG_PPID {
        Error::UnknownScopeTag
    } else {
        let full = if d[0] == TAG_TTY {
            TTY_RECORD_LEN as int
        } else {
            PPID_RECORD_LEN as int
        };
        if d.len() < full {
            Error::TruncatedRecord
        } else if d[full - 1] != BOOL_TRUE && d[full - 1] != BOOL_FALSE {
            Error::InvalidBoolean
        } else {
            Error::TrailingBytes
        }
    }
}

pub proof fn lemma_i32_u32_roundtrip(x: i32)
    ensures
        ((x as u32) as i32) == x,
{
    assert(((x as u32) as i32) == x) by (bit_vector);
}

pub proof fn lemma_u32_i32_roundtrip(x: u32)
    ensures
        ((x as i32) as u32) == x,
{
    assert(((x as i32) as u32) == x) by (bit_vector);
}

/// How long a record encodes to, by scope variant.
pub proof fn lemma_record_bytes_len(r: SessionRecord)
    ensures
        r.scope is TTY ==> spec_record_bytes(r).len() == TTY_RECORD_LEN as int,
        r.scope is PPID ==> spec_record_bytes(r).len() == PPID_RECORD_LEN as int,
        PPID_RECORD_LEN as int <= spec_record_bytes(r).len() <= TTY_RECORD_LEN as int,
{
    lemma_auto_spec_u64_to_from_le_bytes();
    lemma_auto_spec_u32_to_from_le_bytes();
}

/// Law: decoding is the exact inverse of encoding; every constructible record
/// decodes back from its own encoding.
pub proof fn lemma_record_roundtrip(r: SessionRecord)
    ensures
        spec_decode_record(spec_record_bytes(r)) == Some(r),
{
    lemma_auto_spec_u64_to_from_le_bytes();
    lemma_auto_spec_u32_to_from_le_bytes();
    lemma_record_bytes_len(r);
    let d = spec_record_bytes(r);
    match r.scope {
        RecordScope::TTY { tty_device, session_pid, init_time } => {
            lemma_time_roundtrip(init_time);
            lemma_time_roundtrip(r.timestamp);
            lemma_i32_u32_roundtrip(session_pid);
            assert(d.subrange(1, 9) =~= spec_u64_to_le_bytes(tty_device));
            assert(d.subrange(9, 13) =~= spec_u32_to_le_bytes(session_pid as u32));
            assert(d.subrange(13, 29) =~= spec_time_bytes(init_time));
            assert(d.subrange(29, 33) =~= spec_u32_to_le_bytes(r.auth_user));
            assert(d.subrange(33, 49) =~= spec_time_bytes(r.timestamp));
            assert(d[49] == spec_bool_byte(r.enabled));
        },
        RecordScope::PPID { group_pid, init_time } => {
            lemma_time_roundtrip(init_time);
            lemma_time_roundtrip(r.timestamp);
            lemma_i32_u32_roundtrip(group_pid);
            assert(d.subrange(1, 5) =~= spec_u32_to_le_bytes(group_pid as u32));
            assert(d.subrange(5, 21) =~= spec_time_bytes(init_time));
            assert(d.subrange(21, 25) =~= spec_u32_to_le_bytes(r.auth_user));
            assert(d.subrange(25, 41) =~= spec_time_bytes(r.timestamp));
            assert(d[41] == spec_bool_byte(r.enabled));
        },
    }
}

/// Law: encodings are unique; a byte sequence that decodes to a record is that
/// record's encoding, so no two records share one.
pub proof fn lemma_decode_is_encoding(d: Seq<u8>, r: SessionRecord)
    requires
        spec_decode_record(d) == Some(r),
    ensures
        d == spec_record_bytes(r),
{
    lemma_auto_spec_u64_to_from_le_bytes();
    lemma_auto_spec_u32_to_from_le_bytes();
    if d[0] == TAG_TTY {
        lemma_u32_i32_roundtrip(spec_u32_from_le_bytes(d.subrange(9, 13)));
        lemma_time_bytes_of(d.subrange(13, 29));
        lemma_time_bytes_of(d.subrange(33, 49));
        assert(spec_record_bytes(r) =~= d);
    } else {
        lemma_u32_i32_roundtrip(spec_u32_from_le_bytes(d.subrange(1, 5)));
        lemma_time_bytes_of(d.subrange(5, 21));
        lemma_time_bytes_of(d.subrange(25, 41));
        assert(spec_record_bytes(r) =~= d);
    }
}

/// A record whose timestamp and flag change keeps its encoding except for
/// the final 17 bytes: 16 bytes of timestamp, then the flag byte.
pub proof fn lemma_record_bytes_patch(rec: SessionRecord, ts2: SystemTime, en2: bool)
    ensures
        ({
            let b = spec_record_bytes(rec);
            let rec2 = SessionRecord { timestamp: ts2, enabled: en2, ..rec };
            &&& spec_record_bytes(rec2).len() == b.len()
            &&& spec_record_bytes(rec2) == b.take(b.len() - 17) + spec_time_bytes(ts2) + seq![
                spec_bool_byte(en2),
            ]
        }),
{
    lemma_auto_spec_u64_to_from_le_bytes();
    lemma_auto_spec_u32_to_from_le_bytes();
    let b = spec_record_bytes(rec);
    let rec2 = SessionRecord { timestamp: ts2, enabled: en2, ..rec };
    lemma_record_bytes_len(rec);
    lemma_record_bytes_len(rec2);
    assert(spec_record_bytes(rec2) =~= b.take(b.len() - 17) + spec_time_bytes(ts2) + seq![
        spec_bool_byte(en2),
    ]);
}

/// Law: a buffer with one byte appended after an encoding fails to decode.
pub proof fn lemma_decode_rejects_trailing(r: SessionRecord, extra: u8)
    ensures
        spec_decode_record(spec_record_bytes(r).push(extra)) is None,
{
    lemma_record_bytes_len(r);
}

/// Law: any strict prefix of an encoding fails to decode.
pub proof fn lemma_decode_rejects_prefix(r: SessionRecord, n: int)
    requires
        0 <= n < spec_record_bytes(r).len(),
    ensures
        spec_decode_record(spec_record_bytes(r).take(n)) is None,
{
    lemma_record_bytes_len(r);
}

/// Law: scope equality is structural on every field.  Two terminal scopes
/// that differ only in the leader's start time never match — a recycled
/// process id is a different session — while two parent-process scopes with
/// the same group id and start time always do.
pub proof fn lemma_scope_equality(dev: u64, pid: i32, t1: SystemTime, t2: SystemTime, gp: i32)
    ensures
        t1 != t2 ==> (RecordScope::TTY { tty_device: dev, session_pid: pid, init_time: t1 })
            != (RecordScope::TTY { tty_device: dev, session_pid: pid, init_time: t2 }),
        (RecordScope::PPID { group_pid: gp, init_time: t1 }) == (RecordScope::PPID {
            group_pid: gp,
            init_time: t1,
        }),
{
}

/// Append the sentinel encoding of a boolean: `0xFF` for true, `0x00` for
/// false.
pub fn write_bool(b: bool, target: &mut Vec<u8>)
    ensures
        final(target)@ == old(target)@ + seq![spec_bool_byte(b)],
{
    target.push(if b {
        BOOL_TRUE
    } else {
        BOOL_FALSE
    });
    assert(target@ =~= old(target)@ + seq![spec_bool_byte(b)]);
}

impl RecordScope {
    /// Append the byte encoding of this scope.
    fn encode_into(&self, out: &mut Vec<u8>)
        ensures
            final(out)@ == old(out)@ + spec_scope_bytes(*self),
    {
        match self {
            RecordScope::TTY { tty_device, session_pid, init_time } => {
                out.push(TAG_TTY);
                let mut b = u64_to_le_bytes(*tty_device);
                out.append(&mut b);
                let mut b2 = u32_to_le_bytes(#[verifier::truncate] (*session_pid as u32));
                out.append(&mut b2);
                init_time.encode_into(out);
                assert(out@ =~= old(out)@ + spec_scope_bytes(*self));
            },
            RecordScope::PPID { group_pid, init_time } => {
                out.push(TAG_PPID);
                let mut b = u32_to_le_bytes(#[verifier::truncate] (*group_pid as u32));
                out.append(&mut b);
                init_time.encode_into(out);
                assert(out@ =~= old(out)@ + spec_scope_bytes(*self));
            },
        }
    }
}

impl SessionRecord {
    /// Build a record with the given fields.
    pub fn init(scope: RecordScope, auth_user: u32, enabled: bool, timestamp: SystemTime) -> (r:
        SessionRecord)
        ensures
            r == (SessionRecord { scope, auth_user, timestamp, enabled }),
    {
        SessionRecord { scope, auth_user, timestamp, enabled }
    }

    /// Build a live record stamped with the current clock reading.
    pub fn new(scope: RecordScope, auth_user: u32) -> (r: Result<SessionRecord, Error>)
        ensures
            r matches Ok(rec) ==> rec.scope == scope && rec.auth_user == auth_user && rec.enabled
                && rec.timestamp.wf(),
            r matches Err(e) ==> e == Error::ClockFailure,
    {
        match SystemTime::now() {
            Ok(t) => Ok(Self::init(scope, auth_user, true, t)),
            Err(e) => Err(e),
        }
    }

    /// The byte encoding of this record.
    pub fn as_bytes(&self) -> (r: Vec<u8>)
        ensures
            r@ == spec_record_bytes(*self),
    {
        let mut out: Vec<u8> = Vec::new();
        self.scope.encode_into(&mut out);
        let mut b = u32_to_le_bytes(self.auth_user);
        out.append(&mut b);
        self.timestamp.encode_into(&mut out);
        write_bool(self.enabled, &mut out);
        assert(out@ =~= spec_record_bytes(*self));
        out
    }

    /// Decode a record from a byte slice; the slice must be consumed exactly,
    /// so a trailing byte or a missing one is an error, never ignored.
    pub fn from_bytes(data: &[u8]) -> (r: Result<SessionRecord, Error>)
        ensures
            match spec_decode_record(data@) {
                Some(rec) => r == Ok::<SessionRecord, Error>(rec),
                None => r == Err::<SessionRecord, Error>(spec_decode_err(data@)),
            },
    {
        if data.len() == 0 {
            return Err(Error::TruncatedRecord);
        }
        let tag = *vstd::slice::slice_index_get(data, 0);
        if tag == TAG_TTY {
            if data.len() < TTY_RECORD_LEN {
                return Err(Error::TruncatedRecord);
            }
            let flag = *vstd::slice::slice_index_get(data, TTY_RECORD_LEN - 1);
            if flag != BOOL_TRUE && flag != BOOL_FALSE {
                return Err(Error::InvalidBoolean);
            }
            if data.len() != TTY_RECORD_LEN {
                return Err(Error::TrailingBytes);
            }
            let tty_device = u64_from_le_bytes(slice_subrange(data, 1, 9));
            let session_pid = #[verifier::truncate] (u32_from_le_bytes(
                slice_subrange(data, 9, 13),
            ) as i32);
            let init_time = SystemTime::decode_bytes(slice_subrange(data, 13, 29));
            let auth_user = u32_from_le_bytes(slice_subrange(data, 29, 33));
            let timestamp = SystemTime::decode_bytes(slice_subrange(data, 33, 49));
            Ok(
                SessionRecord {
                    scope: RecordScope::TTY { tty_device, session_pid, init_time },
                    auth_user,
                    timestamp,
                    enabled: flag == BOOL_TRUE,
                },
            )
        } else if tag == TAG_PPID {
            if data.len() < PPID_RECORD_LEN {
                return Err(Error::TruncatedRecord);
            }
            let flag = *vstd::slice::slice_index_get(data, PPID_RECORD_LEN - 1);
            if flag != BOOL_TRUE && flag != BOOL_FALSE {
                return Err(Error::InvalidBoolean);
            }
            if data.len() != PPID_RECORD_LEN {
                return Err(Error::TrailingBytes);
            }
            let group_pid = #[verifier::truncate] (u32_from_le_bytes(
                slice_subrange(data, 1, 5),
            ) as i32);
            let init_time = SystemTime::decode_bytes(slice_subrange(data, 5, 21));
            let auth_user = u32_from_le_bytes(slice_subrange(data, 21, 25));
            let timestamp = SystemTime::decode_bytes(slice_subrange(data, 25, 41));
            Ok(
                SessionRecord {
                    scope: RecordScope::PPID { group_pid, init_time },
                    auth_user,
                    timestamp,
                    enabled: flag == BOOL_TRUE,
                },
            )
        } else {
            Err(Error::UnknownScopeTag)
        }
    }

    /// Whether this record is keyed by the given scope and target user.
    pub fn matches(&self, scope: &RecordScope, auth_user: u32) -> (r: bool)
        ensures
            r == (self.scope == *scope && self.auth_user == auth_user),
    {
        self.scope == *scope && self.auth_user == auth_user
    }

    /// Whether this record was written between `early_time` and `later_time`,
    /// both inclusive; false whenever `early_time` lies after `later_time`.
    pub fn written_between(&self, early_time: SystemTime, later_time: SystemTime) -> (r: bool)
        ensures
            r == (early_time.as_nanos() <= later_time.as_nanos() && early_time.as_nanos()
                <= self.timestamp.as_nanos() && self.timestamp.as_nanos()
                <= later_time.as_nanos()),
    {
        let e = early_time.total_nanos();
        let l = later_time.total_nanos();
        let t = self.timestamp.total_nanos();
        e <= l && e <= t && t <= l
    }
}

} // verus!
