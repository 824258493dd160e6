//! Timestamps and durations, in whole seconds plus nanoseconds, together with
//! their fixed-width little-endian byte encoding and a clock reading.

use vstd::prelude::*;
use vstd::bytes::lemma_auto_spec_u64_to_from_le_bytes;
use vstd::bytes::spec_u64_from_le_bytes;
use vstd::bytes::spec_u64_to_le_bytes;
use vstd::bytes::u64_from_le_bytes;
use vstd::bytes::u64_to_le_bytes;
use vstd::slice::slice_subrange;

use crate::error::Error;

verus! {

/// Number of nanoseconds in one second.
pub const NANOS_PER_SEC: i64 = 1_000_000_000;

/// A point in time, counted from a fixed origin in whole seconds plus
/// nanoseconds.
///
/// A normalized value keeps the nanosecond part in `[0, NANOS_PER_SEC)`;
/// values read back from stored bytes may carry an arbitrary one, and every
/// comparison goes by the total nanosecond count, never by a field alone.
#[derive(Clone, Copy, Debug, PartialEq, Eq, Structural)]
pub struct SystemTime {
    pub secs: i64,
    pub nanos: i64,
}

/// A span of time, in whole seconds plus nanoseconds.
#[derive(Clone, Copy, Debug, PartialEq, Eq, Structural)]
pub struct Duration {
    pub secs: i64,
    pub nanos: i64,
}

impl SystemTime {
    /// Total nanoseconds since the origin, as a mathematical integer.
    pub open spec fn as_nanos(self) -> int {
        self.secs * (NANOS_PER_SEC as int) + self.nanos
    }

    /// A normalized timestamp: the nanosecond part is within one second.
    pub open spec fn wf(self) -> bool {
        0 <= self.nanos < NANOS_PER_SEC as int
    }

    pub fn new(secs: i64, nanos: i64) -> (r: SystemTime)
        requires
            0 <= nanos < NANOS_PER_SEC,
        ensures
            r == (SystemTime { secs, nanos }),
            r.wf(),
    {
        SystemTime { secs, nanos }
    }

    /// The total nanosecond count, exactly, in a machine integer.
    pub fn total_nanos(&self) -> (r: i128)
        ensures
            r as int == self.as_nanos(),
    {
        let s = self.secs as i128;
        let n = self.nanos as i128;
        proof {
            assert((i64::MIN as i128) * 1_000_000_000 <= s * 1_000_000_000 <= (i64::MAX as i128)
                * 1_000_000_000) by (nonlinear_arith)
                requires
                    i64::MIN as i128 <= s <= i64::MAX as i128,
            ;
        }
        s * (NANOS_PER_SEC as i128) + n
    }

    /// This time moved later by `d`.
    pub fn add_duration(self, d: Duration) -> (r: SystemTime)
        requires
            self.wf(),
            d.wf(),
            i64::MIN <= self.secs + d.secs,
            self.secs + d.secs + 1 <= i64::MAX,
        ensures
            r.wf(),
            r.as_nanos() == self.as_nanos() + d.as_nanos(),
    {
        let mut secs = self.secs + d.secs;
        let mut nanos = self.nanos + d.nanos;
        if nanos >= NANOS_PER_SEC {
            nanos = nanos - NANOS_PER_SEC;
            secs = secs + 1;
        }
        SystemTime { secs, nanos }
    }

    /// This time moved earlier by `d`.
    pub fn sub_duration(self, d: Duration) -> (r: SystemTime)
        requires
            self.wf(),
            d.wf(),
            i64::MIN <= self.secs - d.secs - 1,
            self.secs - d.secs <= i64::MAX,
        ensures
            r.wf(),
            r.as_nanos() == self.as_nanos() - d.as_nanos(),
    {
        let mut secs = self.secs - d.secs;
        let mut nanos = self.nanos - d.nanos;
        if nanos < 0 {
            nanos = nanos + NANOS_PER_SEC;
            secs = secs - 1;
        }
        SystemTime { secs, nanos }
    }
}

impl Duration {
    /// Total nanoseconds, as a mathematical integer.
    pub open spec fn as_nanos(self) -> int {
        self.secs * (NANOS_PER_SEC as int) + self.nanos
    }

    /// A normalized duration: the nanosecond part is within one second.
    pub open spec fn wf(self) -> bool {
        0 <= self.nanos < NANOS_PER_SEC as int
    }

    /// The total nanosecond count, exactly, in a machine integer.
    pub fn total_nanos(&self) -> (r: i128)
        ensures
            r as int == self.as_nanos(),
    {
        let s = self.secs as i128;
        let n = self.nanos as i128;
        proof {
            assert((i64::MIN as i128) * 1_000_000_000 <= s * 1_000_000_000 <= (i64::MAX as i128)
                * 1_000_000_000) by (nonlinear_arith)
                requires
                    i64::MIN as i128 <= s <= i64::MAX as i128,
            ;
        }
        s * (NANOS_PER_SEC as i128) + n
    }

    pub fn seconds(secs: i64) -> (r: Duration)
        ensures
            r == (Duration { secs, nanos: 0i64 }),
            r.wf(),
            r.as_nanos() == secs * (NANOS_PER_SEC as int),
    {
        Duration { secs, nanos: 0 }
    }

    pub fn minutes(minutes: i64) -> (r: Duration)
        requires
            i64::MIN <= minutes * 60 <= i64::MAX,
        ensures
            r == (Duration { secs: (minutes * 60) as i64, nanos: 0i64 }),
            r.wf(),
            r.as_nanos() == minutes * 60 * (NANOS_PER_SEC as int),
    {
        Duration { secs: minutes * 60, nanos: 0 }
    }
}

/// The 16-byte little-endian encoding of a timestamp: seconds, then
/// nanoseconds, each as the two's-complement image in eight bytes.
pub open spec fn spec_time_bytes(t: SystemTime) -> Seq<u8> {
    spec_u64_to_le_bytes(t.secs as u64) + spec_u64_to_le_bytes(t.nanos as u64)
}

/// The timestamp whose encoding a 16-byte sequence is.
pub open spec fn spec_time_of(b: Seq<u8>) -> SystemTime {
    SystemTime {
        secs: spec_u64_from_le_bytes(b.subrange(0, 8)) as i64,
        nanos: spec_u64_from_le_bytes(b.subrange(8, 16)) as i64,
    }
}

pub proof fn lemma_i64_u64_roundtrip(x: i64)
    ensures
        ((x as u64) as i64) == x,
{
    assert(((x as u64) as i64) == x) by (bit_vector);
}

pub proof fn lemma_u64_i64_roundtrip(x: u64)
    ensures
        ((x as i64) as u64) == x,
{
    assert(((x as i64) as u64) == x) by (bit_vector);
}

/// Encoding and decoding a timestamp are exact inverses.
pub proof fn lemma_time_roundtrip(t: SystemTime)
    ensures
        spec_time_bytes(t).len() == 16,
        spec_time_of(spec_time_bytes(t)) == t,
{
    lemma_auto_spec_u64_to_from_le_bytes();
    lemma_i64_u64_roundtrip(t.secs);
    lemma_i64_u64_roundtrip(t.nanos);
    assert(spec_time_bytes(t).subrange(0, 8) =~= spec_u64_to_le_bytes(t.secs as u64));
    assert(spec_time_bytes(t).subrange(8, 16) =~= spec_u64_to_le_bytes(t.nanos as u64));
}

/// Any 16 bytes are the encoding of the timestamp they decode to.
pub proof fn lemma_time_bytes_of(b: Seq<u8>)
    requires
        b.len() == 16,
    ensures
        spec_time_bytes(spec_time_of(b)) == b,
{
    lemma_auto_spec_u64_to_from_le_bytes();
    lemma_u64_i64_roundtrip(spec_u64_from_le_bytes(b.subrange(0, 8)));
    lemma_u64_i64_roundtrip(spec_u64_from_le_bytes(b.subrange(8, 16)));
    assert(spec_time_bytes(spec_time_of(b)) =~= b);
}

impl SystemTime {
    /// Append the 16-byte encoding of this timestamp.
    pub(crate) fn encode_into(&self, out: &mut Vec<u8>)
        ensures
            final(out)@ == old(out)@ + spec_time_bytes(*self),
    {
        let mut s = u64_to_le_bytes(self.secs as u64);
        out.append(&mut s);
        let mut n = u64_to_le_bytes(self.nanos as u64);
        out.append(&mut n);
        assert(out@ =~= old(out)@ + spec_time_bytes(*self));
    }

    /// Read a timestamp back from its 16-byte encoding.
    pub(crate) fn decode_bytes(b: &[u8]) -> (r: SystemTime)
        requires
            b@.len() == 16,
        ensures
            r == spec_time_of(b@),
    {
        let secs = u64_from_le_bytes(slice_subrange(b, 0, 8));
        let nanos = u64_from_le_bytes(slice_subrange(b, 8, 16));
        SystemTime { secs: #[verifier::truncate] (secs as i64), nanos: #[verifier::truncate] (nanos as i64) }
    }
}

#[verifier::external_type_specification]
#[verifier::external_body]
pub struct ExStdSystemTime(std::time::SystemTime);

/// Relies on std::time::SystemTime::now: a reading of the system clock.
#[verifier::external_body]
fn sys_time_now() -> std::time::SystemTime {
    std::time::SystemTime::now()
}

/// Relies on std::time::SystemTime::duration_since: the span from
/// `UNIX_EPOCH` to `t`, or an error when the reading lies before the epoch.
#[verifier::external_body]
fn sys_time_since_epoch(t: std::time::SystemTime) -> (r: Result<core::time::Duration, Error>)
    ensures
        r matches Err(e) ==> e == Error::ClockFailure,
{
    match t.duration_since(std::time::UNIX_EPOCH) {
        Ok(d) => Ok(d),
        Err(_) => Err(Error::ClockFailure),
    }
}

/// Relies on core::time::Duration::as_secs: the whole-seconds part of a span.
#[verifier::external_body]
fn duration_whole_secs(d: &core::time::Duration) -> u64 {
    d.as_secs()
}

/// Relies on core::time::Duration::subsec_nanos: the fractional part of a
/// span, which its documentation bounds below one second.
#[verifier::external_body]
fn duration_subsec_nanos(d: &core::time::Duration) -> (r: u32)
    ensures
        r < 1_000_000_000,
{
    d.subsec_nanos()
}

impl SystemTime {
    /// A reading of the system clock, as time elapsed since the Unix epoch.
    ///
    /// The reading depends on the environment: nothing relates two calls, and
    /// a clock stuck before the epoch or past the representable range is
    /// reported as a failure.
    pub fn now() -> (r: Result<SystemTime, Error>)
        ensures
            r matches Ok(t) ==> t.wf() && t.secs >= 0,
            r matches Err(e) ==> e == Error::ClockFailure,
    {
        let t = sys_time_now();
        match sys_time_since_epoch(t) {
            Err(e) => Err(e),
            Ok(d) => {
                let s: u64 = duration_whole_secs(&d);
                let n: u32 = duration_subsec_nanos(&d);
                if s <= i64::MAX as u64 {
                    Ok(SystemTime { secs: s as i64, nanos: n as i64 })
                } else {
                    Err(Error::ClockFailure)
                }
            },
        }
    }
}

} // verus!
