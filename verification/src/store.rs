//! The session record store: a per-user ledger of authentication records.
//!
//! The backing stream starts with a two-byte magic number and a two-byte
//! format version; records follow, each framed by a two-byte little-endian
//! length prefix.  A damaged header is rewritten; a damaged record truncates
//! the ledger at the point of damage.  Either way the store degrades to "no
//! valid record", which only ever forces re-authentication.

use vstd::prelude::*;
use vstd::bytes::lemma_auto_spec_u16_to_from_le_bytes;
use vstd::bytes::spec_u16_from_le_bytes;
use vstd::bytes::spec_u16_to_le_bytes;
use vstd::bytes::u16_from_le_bytes;
use vstd::bytes::u16_to_le_bytes;

use crate::codec::spec_decode_record;
use crate::codec::spec_record_bytes;
use crate::codec::RecordScope;
use crate::codec::SessionRecord;
use crate::error::Error;
use crate::stream::spec_set_len;
use crate::stream::spec_write_at;
use crate::stream::MemoryStream;
use crate::time::spec_time_bytes;
use crate::time::Duration;
use crate::time::SystemTime;

verus! {

/// The magic number identifying a session record file.
pub const MAGIC_NUM: u16 = 0x50D0;

/// The only supported format version.
pub const FILE_VERSION: u16 = 1;

/// Where the version field starts.
pub const VERSION_OFFSET: usize = 2;

/// Where the first record starts.
pub const FIRST_RECORD_OFFSET: usize = 4;

/// The canonical four header bytes: magic number, then format version, each
/// little-endian.
pub open spec fn header_bytes() -> Seq<u8> {
    spec_u16_to_le_bytes(MAGIC_NUM) + spec_u16_to_le_bytes(FILE_VERSION)
}

/// Whether a ledger starts with the canonical header.
pub open spec fn header_ok(d: Seq<u8>) -> bool {
    d.len() >= 4 && d.subrange(0, 4) == header_bytes()
}

/// One parsed record together with the position its frame starts at.
pub ghost struct RecordAt {
    pub rec: SessionRecord,
    pub start: int,
}

/// How a scan of the ledger ends.
pub ghost enum ScanEnd {
    /// Fewer than two bytes remain at `at`: the clean end of the list.
    Clean { at: int },
    /// The record starting at `at` is truncated or does not decode; the scan
    /// heals the ledger by cutting it off at `at`.
    Damaged { at: int },
    /// A zero length prefix sits at `at`: a hard format error.
    Fatal { at: int },
}

/// Everything a scan of the ledger yields.
pub ghost struct Scan {
    pub records: Seq<RecordAt>,
    pub end: ScanEnd,
}

/// The position a scan stopped at.
pub open spec fn end_at(e: ScanEnd) -> int {
    match e {
        ScanEnd::Clean { at } => at,
        ScanEnd::Damaged { at } => at,
        ScanEnd::Fatal { at } => at,
    }
}

/// Bytes of one framed record: the length prefix, then the record body.
pub open spec fn spec_frame_bytes(rec: SessionRecord) -> Seq<u8> {
    spec_u16_to_le_bytes(spec_record_bytes(rec).len() as u16) + spec_record_bytes(rec)
}

/// How many bytes one framed record occupies.
pub open spec fn frame_len(rec: SessionRecord) -> int {
    2 + spec_record_bytes(rec).len() as int
}

/// Parse the ledger from `pos` on: the records that decode, then how the
/// list ends.
pub open spec fn scan_at(d: Seq<u8>, pos: int) -> Scan
    decreases d.len() - pos,
{
    if pos < 0 || pos + 2 > d.len() {
        Scan { records: seq![], end: ScanEnd::Clean { at: pos } }
    } else {
        let n = spec_u16_from_le_bytes(d.subrange(pos, pos + 2)) as int;
        if n == 0 {
            Scan { records: seq![], end: ScanEnd::Fatal { at: pos } }
        } else if pos + 2 + n > d.len() {
            Scan { records: seq![], end: ScanEnd::Damaged { at: pos } }
        } else {
            match spec_decode_record(d.subrange(pos + 2, pos + 2 + n)) {
                Option::None => Scan { records: seq![], end: ScanEnd::Damaged { at: pos } },
                Option::Some(rec) => {
                    let rest = scan_at(d, pos + 2 + n);
                    Scan {
                        records: seq![RecordAt { rec, start: pos }] + rest.records,
                        end: rest.end,
                    }
                },
            }
        }
    }
}

/// Parse the whole ledger, from just past the header.
pub open spec fn ledger(d: Seq<u8>) -> Scan {
    scan_at(d, FIRST_RECORD_OFFSET as int)
}

/// Whether a live record is keyed by the given scope and target user.
pub open spec fn is_live_match(rec: SessionRecord, scope: RecordScope, user: u32) -> bool {
    rec.enabled && rec.scope == scope && rec.auth_user == user
}

/// Whether a record, live or not, is keyed by the given scope and user.
pub open spec fn is_key_match(rec: SessionRecord, scope: RecordScope, user: u32) -> bool {
    rec.scope == scope && rec.auth_user == user
}

/// The first index whose record is keyed by `scope` and `user`; with
/// `live_only`, disabled records are passed over.
pub open spec fn first_match(
    records: Seq<RecordAt>,
    scope: RecordScope,
    user: u32,
    live_only: bool,
) -> Option<int>
    decreases records.len(),
{
    if records.len() == 0 {
        Option::None
    } else if is_key_match(records[0].rec, scope, user) && (records[0].rec.enabled || !live_only) {
        Option::Some(0)
    } else {
        match first_match(records.skip(1), scope, user, live_only) {
            Option::None => Option::None,
            Option::Some(i) => Option::Some(i + 1),
        }
    }
}

/// Whether a record index is what `first_match` looks for.
pub open spec fn match_here(records: Seq<RecordAt>, j: int, scope: RecordScope, user: u32, live_only: bool) -> bool {
    is_key_match(records[j].rec, scope, user) && (records[j].rec.enabled || !live_only)
}

/// What `first_match` finds: the first matching index, or none anywhere.
pub proof fn lemma_first_match_props(records: Seq<RecordAt>, scope: RecordScope, user: u32, live_only: bool)
    ensures
        match first_match(records, scope, user, live_only) {
            Option::Some(i) => 0 <= i < records.len() && match_here(records, i, scope, user, live_only)
                && forall|j: int| 0 <= j < i ==> !match_here(records, j, scope, user, live_only),
            Option::None => forall|j: int|
                0 <= j < records.len() ==> !match_here(records, j, scope, user, live_only),
        },
    decreases records.len(),
{
    if records.len() == 0 {
    } else if match_here(records, 0, scope, user, live_only) {
    } else {
        let r1 = records.skip(1);
        lemma_first_match_props(r1, scope, user, live_only);
        assert forall|j: int| 1 <= j < records.len() implies (match_here(
            records,
            j,
            scope,
            user,
            live_only,
        ) == match_here(r1, j - 1, scope, user, live_only)) by {
            assert(r1[j - 1] == records[j]);
        }
        match first_match(r1, scope, user, live_only) {
            Option::Some(i) => {
                assert(match_here(records, i + 1, scope, user, live_only));
                assert forall|j: int| 0 <= j < i + 1 implies !match_here(
                    records,
                    j,
                    scope,
                    user,
                    live_only,
                ) by {
                    if j >= 1 {
                        assert(!match_here(r1, j - 1, scope, user, live_only));
                    }
                }
            },
            Option::None => {
                assert forall|j: int| 0 <= j < records.len() implies !match_here(
                    records,
                    j,
                    scope,
                    user,
                    live_only,
                ) by {
                    if j >= 1 {
                        assert(!match_here(r1, j - 1, scope, user, live_only));
                    }
                }
            },
        }
    }
}

/// A matching index with no match before it is what `first_match` returns.
pub proof fn lemma_first_match_at(
    records: Seq<RecordAt>,
    scope: RecordScope,
    user: u32,
    live_only: bool,
    k: int,
)
    requires
        0 <= k < records.len(),
        match_here(records, k, scope, user, live_only),
        forall|j: int| 0 <= j < k ==> !match_here(records, j, scope, user, live_only),
    ensures
        first_match(records, scope, user, live_only) == Option::Some(k),
    decreases k,
{
    if k == 0 {
    } else {
        let r1 = records.skip(1);
        assert(!match_here(records, 0, scope, user, live_only));
        assert(r1[k - 1] == records[k]);
        assert forall|j: int| 0 <= j < k - 1 implies !match_here(r1, j, scope, user, live_only) by {
            assert(r1[j] == records[j + 1]);
            assert(!match_here(records, j + 1, scope, user, live_only));
        }
        lemma_first_match_at(r1, scope, user, live_only, k - 1);
    }
}

/// No match anywhere means `first_match` finds none.
pub proof fn lemma_first_match_none(records: Seq<RecordAt>, scope: RecordScope, user: u32, live_only: bool)
    requires
        forall|j: int| 0 <= j < records.len() ==> !match_here(records, j, scope, user, live_only),
    ensures
        first_match(records, scope, user, live_only) is None,
{
    lemma_first_match_props(records, scope, user, live_only);
    if first_match(records, scope, user, live_only) is Some {
        let i = first_match(records, scope, user, live_only)->Some_0;
        assert(!match_here(records, i, scope, user, live_only));
    }
}

/// Scanning depends only on the bytes from `pos` on.
proof fn lemma_scan_same_suffix(d1: Seq<u8>, d2: Seq<u8>, pos: int)
    requires
        d1.len() == d2.len(),
        forall|i: int| pos <= i < d1.len() ==> d1[i] == d2[i],
    ensures
        scan_at(d2, pos) == scan_at(d1, pos),
    decreases d1.len() - pos,
{
    if pos < 0 || pos + 2 > d1.len() {
    } else {
        assert(d2.subrange(pos, pos + 2) =~= d1.subrange(pos, pos + 2));
        let n = spec_u16_from_le_bytes(d1.subrange(pos, pos + 2)) as int;
        if n == 0 {
        } else if pos + 2 + n > d1.len() {
        } else {
            assert(d2.subrange(pos + 2, pos + 2 + n) =~= d1.subrange(pos + 2, pos + 2 + n));
            lemma_scan_same_suffix(d1, d2, pos + 2 + n);
        }
    }
}

/// Every frame a scan yields starts at or after the scan position and lies
/// within the data; the scan's end does too.
proof fn lemma_scan_bounds(d: Seq<u8>, pos: int)
    requires
        0 <= pos <= d.len(),
    ensures
        pos <= end_at(scan_at(d, pos).end) <= d.len(),
        forall|j: int|
            0 <= j < scan_at(d, pos).records.len() ==> pos <= (#[trigger] scan_at(
                d,
                pos,
            ).records[j]).start && scan_at(d, pos).records[j].start + frame_len(
                scan_at(d, pos).records[j].rec,
            ) <= d.len(),
    decreases d.len() - pos,
{
    if pos < 0 || pos + 2 > d.len() {
    } else {
        let n = spec_u16_from_le_bytes(d.subrange(pos, pos + 2)) as int;
        if n == 0 {
        } else if pos + 2 + n > d.len() {
        } else {
            match spec_decode_record(d.subrange(pos + 2, pos + 2 + n)) {
                Option::None => {},
                Option::Some(rec) => {
                    crate::codec::lemma_decode_is_encoding(d.subrange(pos + 2, pos + 2 + n), rec);
                    lemma_scan_bounds(d, pos + 2 + n);
                    let s = scan_at(d, pos);
                    let rest = scan_at(d, pos + 2 + n);
                    assert(forall|j: int| 1 <= j < s.records.len() ==> s.records[j] == rest.records[j - 1]);
                },
            }
        }
    }
}

/// Replacing one record's body with another well-formed body of the same
/// length reparses to the same ledger with just that record swapped.
proof fn lemma_scan_update(d: Seq<u8>, pos: int, k: int, b2: Seq<u8>)
    requires
        0 <= pos <= d.len(),
        0 <= k < scan_at(d, pos).records.len(),
        spec_decode_record(b2) is Some,
        b2.len() == spec_record_bytes(scan_at(d, pos).records[k].rec).len(),
    ensures
        ({
            let s = scan_at(d, pos);
            let ra = s.records[k];
            let d2 = spec_write_at(d, ra.start + 2, b2);
            &&& d2.len() == d.len()
            &&& scan_at(d2, pos) == (Scan {
                records: s.records.update(
                    k,
                    RecordAt { rec: spec_decode_record(b2)->Some_0, start: ra.start },
                ),
                end: s.end,
            })
        }),
    decreases k,
{
    lemma_scan_bounds(d, pos);
    let s = scan_at(d, pos);
    let ra = s.records[k];
    let rec2 = spec_decode_record(b2)->Some_0;
    let d2 = spec_write_at(d, ra.start + 2, b2);
    let n = spec_u16_from_le_bytes(d.subrange(pos, pos + 2)) as int;
    let body = d.subrange(pos + 2, pos + 2 + n);
    let rec0 = spec_decode_record(body)->Some_0;
    crate::codec::lemma_decode_is_encoding(body, rec0);
    let rest = scan_at(d, pos + 2 + n);
    assert(d2.len() == d.len()) by {
        assert(ra.start + 2 + b2.len() <= d.len());
        assert(d2 =~= d.take(ra.start + 2) + b2 + d.skip(ra.start + 2 + b2.len()));
    }
    if k == 0 {
        assert(ra.start == pos);
        assert(d2.subrange(pos, pos + 2) =~= d.subrange(pos, pos + 2));
        assert(d2.subrange(pos + 2, pos + 2 + n) =~= b2);
        lemma_scan_same_suffix(d, d2, pos + 2 + n);
        assert(scan_at(d2, pos).records =~= s.records.update(
            0,
            RecordAt { rec: rec2, start: pos },
        ));
    } else {
        assert(ra == rest.records[k - 1]);
        lemma_scan_bounds(d, pos + 2 + n);
        assert(ra.start >= pos + 2 + n);
        assert(d2.subrange(pos, pos + 2) =~= d.subrange(pos, pos + 2));
        assert(d2.subrange(pos + 2, pos + 2 + n) =~= body);
        lemma_scan_update(d, pos + 2 + n, k - 1, b2);
        assert(scan_at(d2, pos).records =~= s.records.update(
            k,
            RecordAt { rec: rec2, start: ra.start },
        ));
    }
}

/// Cutting the ledger off at the point of damage keeps every record already
/// scanned and ends the list cleanly right there.
proof fn lemma_scan_truncate(d: Seq<u8>, pos: int)
    requires
        0 <= pos <= d.len(),
        scan_at(d, pos).end is Damaged,
    ensures
        scan_at(d.take(end_at(scan_at(d, pos).end)), pos) == (Scan {
            records: scan_at(d, pos).records,
            end: ScanEnd::Clean { at: end_at(scan_at(d, pos).end) },
        }),
    decreases d.len() - pos,
{
    lemma_scan_bounds(d, pos);
    let s = scan_at(d, pos);
    let at = end_at(s.end);
    let dt = d.take(at);
    if pos + 2 > d.len() {
    } else {
        let n = spec_u16_from_le_bytes(d.subrange(pos, pos + 2)) as int;
        if n == 0 {
        } else if pos + 2 + n > d.len() {
            assert(at == pos);
            assert(scan_at(dt, pos).records =~= s.records);
        } else {
            match spec_decode_record(d.subrange(pos + 2, pos + 2 + n)) {
                Option::None => {
                    assert(at == pos);
                    assert(scan_at(dt, pos).records =~= s.records);
                },
                Option::Some(rec) => {
                    crate::codec::lemma_decode_is_encoding(d.subrange(pos + 2, pos + 2 + n), rec);
                    lemma_scan_bounds(d, pos + 2 + n);
                    assert(at >= pos + 2 + n);
                    assert(dt.subrange(pos, pos + 2) =~= d.subrange(pos, pos + 2));
                    assert(dt.subrange(pos + 2, pos + 2 + n) =~= d.subrange(pos + 2, pos + 2 + n));
                    lemma_scan_truncate(d, pos + 2 + n);
                    assert(scan_at(dt, pos).records =~= s.records);
                },
            }
        }
    }
}

/// Appending one framed record to a cleanly ended ledger reparses to the
/// same records plus the new one, still cleanly ended.
proof fn lemma_scan_append(d: Seq<u8>, pos: int, rec: SessionRecord)
    requires
        0 <= pos <= d.len(),
        scan_at(d, pos).end == (ScanEnd::Clean { at: d.len() as int }),
    ensures
        ({
            let dx = d + spec_frame_bytes(rec);
            scan_at(dx, pos) == (Scan {
                records: scan_at(d, pos).records.push(
                    RecordAt { rec, start: d.len() as int },
                ),
                end: ScanEnd::Clean { at: d.len() + frame_len(rec) },
            })
        }),
    decreases d.len() - pos,
{
    lemma_auto_spec_u16_to_from_le_bytes();
    crate::codec::lemma_record_bytes_len(rec);
    crate::codec::lemma_record_roundtrip(rec);
    let s = scan_at(d, pos);
    let dx = d + spec_frame_bytes(rec);
    let m = spec_record_bytes(rec).len() as int;
    if pos + 2 > d.len() {
        assert(pos == d.len());
        assert(dx.subrange(pos, pos + 2) =~= spec_u16_to_le_bytes(m as u16));
        assert(spec_u16_from_le_bytes(dx.subrange(pos, pos + 2)) as int == m);
        assert(dx.subrange(pos + 2, pos + 2 + m) =~= spec_record_bytes(rec));
        assert(scan_at(dx, pos + 2 + m) == (Scan {
            records: Seq::<RecordAt>::empty(),
            end: ScanEnd::Clean { at: pos + 2 + m },
        }));
        assert(scan_at(dx, pos).records =~= s.records.push(
            RecordAt { rec, start: d.len() as int },
        ));
    } else {
        let n = spec_u16_from_le_bytes(d.subrange(pos, pos + 2)) as int;
        assert(dx.subrange(pos, pos + 2) =~= d.subrange(pos, pos + 2));
        if n == 0 {
        } else if pos + 2 + n > d.len() {
        } else {
            assert(dx.subrange(pos + 2, pos + 2 + n) =~= d.subrange(pos + 2, pos + 2 + n));
            match spec_decode_record(d.subrange(pos + 2, pos + 2 + n)) {
                Option::None => {},
                Option::Some(r0) => {
                    lemma_scan_append(d, pos + 2 + n, rec);
                    assert(scan_at(dx, pos).records =~= s.records.push(
                        RecordAt { rec, start: d.len() as int },
                    ));
                },
            }
        }
    }
}

/// What `touch` reports.
#[derive(Clone, Copy, Debug, PartialEq, Eq, Structural)]
pub enum TouchResult {
    /// The record was found within the timeout, and was refreshed.
    Updated { old_time: SystemTime, new_time: SystemTime },
    /// A record was found, but it is no longer (or not yet) valid.
    Outdated { time: SystemTime },
    /// No live record matches the input.
    NotFound,
}

/// What `create` reports.
#[derive(Clone, Copy, Debug, PartialEq, Eq, Structural)]
pub enum CreateResult {
    /// A record for this key already existed; it was refreshed and enabled.
    Updated { old_time: SystemTime, new_time: SystemTime },
    /// A new record was created, stamped with the time returned.
    Created { time: SystemTime },
}

/// Whether a record written at `ts` is still valid at `now`: within the
/// window `[now - timeout, now]`.  A timestamp in the future counts as
/// invalid, as does a negative window.
pub open spec fn valid_window(ts: SystemTime, now: SystemTime, timeout: Duration) -> bool {
    &&& 0 <= timeout.as_nanos()
    &&& now.as_nanos() - timeout.as_nanos() <= ts.as_nanos()
    &&& ts.as_nanos() <= now.as_nanos()
}

/// Everything `touch` does, as a relation between the ledger bytes before
/// and after, the result, and the clock reading `now` it acted on.
pub open spec fn touch_outcome(
    pre: Seq<u8>,
    timeout: Duration,
    scope: RecordScope,
    auth_user: u32,
    now: SystemTime,
    post: Seq<u8>,
    r: Result<TouchResult, Error>,
) -> bool {
    let s = ledger(pre);
    match first_match(s.records, scope, auth_user, true) {
        Option::Some(i) => {
            let ra = s.records[i];
            if valid_window(ra.rec.timestamp, now, timeout) {
                let rec2 = SessionRecord { timestamp: now, ..ra.rec };
                let epos = ra.start + frame_len(ra.rec);
                &&& r == Ok::<TouchResult, Error>(
                    TouchResult::Updated { old_time: ra.rec.timestamp, new_time: now },
                )
                &&& post == spec_write_at(pre, epos - 17, spec_time_bytes(now))
                &&& ledger(post) == (Scan {
                    records: s.records.update(i, RecordAt { rec: rec2, start: ra.start }),
                    end: s.end,
                })
            } else {
                &&& r == Ok::<TouchResult, Error>(
                    TouchResult::Outdated { time: ra.rec.timestamp },
                )
                &&& post == pre
            }
        },
        Option::None => match s.end {
            ScanEnd::Fatal { at } => r == Err::<TouchResult, Error>(Error::EmptyRecord) && post
                == pre,
            ScanEnd::Damaged { at } => {
                &&& r == Ok::<TouchResult, Error>(TouchResult::NotFound)
                &&& post == pre.take(at)
                &&& ledger(post) == (Scan { records: s.records, end: ScanEnd::Clean { at } })
            },
            ScanEnd::Clean { at } => r == Ok::<TouchResult, Error>(TouchResult::NotFound) && post
                == pre,
        },
    }
}

/// Everything `create` does, as a relation between the ledger bytes before
/// and after, the result, and the clock reading `now` it acted on.
pub open spec fn create_outcome(
    pre: Seq<u8>,
    scope: RecordScope,
    auth_user: u32,
    now: SystemTime,
    post: Seq<u8>,
    r: Result<CreateResult, Error>,
) -> bool {
    let s = ledger(pre);
    match first_match(s.records, scope, auth_user, false) {
        Option::Some(i) => {
            let ra = s.records[i];
            let rec2 = SessionRecord { timestamp: now, enabled: true, ..ra.rec };
            let epos = ra.start + frame_len(ra.rec);
            &&& r == Ok::<CreateResult, Error>(
                CreateResult::Updated { old_time: ra.rec.timestamp, new_time: now },
            )
            &&& post == spec_write_at(
                pre,
                epos - 17,
                spec_time_bytes(now) + seq![crate::codec::BOOL_TRUE],
            )
            &&& ledger(post) == (Scan {
                records: s.records.update(i, RecordAt { rec: rec2, start: ra.start }),
                end: s.end,
            })
        },
        Option::None => {
            let newrec = SessionRecord { scope, auth_user, timestamp: now, enabled: true };
            match s.end {
                ScanEnd::Fatal { at } => r == Err::<CreateResult, Error>(Error::EmptyRecord)
                    && post == pre,
                ScanEnd::Damaged { at } => {
                    &&& r == Ok::<CreateResult, Error>(CreateResult::Created { time: now })
                    &&& post == pre.take(at) + spec_frame_bytes(newrec)
                    &&& ledger(post) == (Scan {
                        records: s.records.push(RecordAt { rec: newrec, start: at }),
                        end: ScanEnd::Clean { at: at + frame_len(newrec) },
                    })
                },
                ScanEnd::Clean { at } => {
                    &&& r == Ok::<CreateResult, Error>(CreateResult::Created { time: now })
                    &&& post == pre + spec_frame_bytes(newrec)
                    &&& (at == pre.len() ==> ledger(post) == (Scan {
                        records: s.records.push(RecordAt { rec: newrec, start: at }),
                        end: ScanEnd::Clean { at: at + frame_len(newrec) },
                    }))
                },
            }
        },
    }
}

/// Whether `disable` must disable a record: the scope must match, and the
/// target user too when a filter is given.
pub open spec fn must_disable(rec: SessionRecord, scope: RecordScope, auth_user: Option<u32>) -> bool {
    match auth_user {
        Option::Some(u) => is_key_match(rec, scope, u),
        Option::None => rec.scope == scope,
    }
}

/// The records with every one the filter selects among the first `k` marked
/// disabled.
pub open spec fn mark_upto(
    records: Seq<RecordAt>,
    scope: RecordScope,
    auth_user: Option<u32>,
    k: int,
) -> Seq<RecordAt> {
    records.map(
        |j: int, ra: RecordAt|
            if j < k && must_disable(ra.rec, scope, auth_user) {
                RecordAt { rec: SessionRecord { enabled: false, ..ra.rec }, start: ra.start }
            } else {
                ra
            },
    )
}

/// The records with every one the filter selects marked disabled.
pub open spec fn mark_disabled(
    records: Seq<RecordAt>,
    scope: RecordScope,
    auth_user: Option<u32>,
) -> Seq<RecordAt> {
    mark_upto(records, scope, auth_user, records.len() as int)
}

/// Everything `disable` does, as a relation between the ledger bytes before
/// and after and the result.
pub open spec fn disable_outcome(
    pre: Seq<u8>,
    scope: RecordScope,
    auth_user: Option<u32>,
    post: Seq<u8>,
    r: Result<(), Error>,
) -> bool {
    let s = ledger(pre);
    let marked = mark_disabled(s.records, scope, auth_user);
    match s.end {
        ScanEnd::Fatal { at } => {
            &&& r == Err::<(), Error>(Error::EmptyRecord)
            &&& post.len() == pre.len()
            &&& ledger(post) == (Scan { records: marked, end: s.end })
        },
        ScanEnd::Damaged { at } => {
            &&& r == Ok::<(), Error>(())
            &&& post.len() == at
            &&& ledger(post) == (Scan { records: marked, end: ScanEnd::Clean { at } })
        },
        ScanEnd::Clean { at } => {
            &&& r == Ok::<(), Error>(())
            &&& post.len() == pre.len()
            &&& (forall|i: int| at <= i < pre.len() ==> post[i] == pre[i])
            &&& ledger(post) == (Scan { records: marked, end: s.end })
        },
    }
}

/// Index-for-index equal matching decides `first_match` equally.
proof fn lemma_first_match_congruence(
    r1: Seq<RecordAt>,
    r2: Seq<RecordAt>,
    scope: RecordScope,
    user: u32,
    live_only: bool,
)
    requires
        r1.len() == r2.len(),
        forall|j: int|
            0 <= j < r1.len() ==> match_here(r1, j, scope, user, live_only) == match_here(
                r2,
                j,
                scope,
                user,
                live_only,
            ),
    ensures
        first_match(r1, scope, user, live_only) == first_match(r2, scope, user, live_only),
    decreases r1.len(),
{
    if r1.len() == 0 {
    } else {
        assert(match_here(r1, 0, scope, user, live_only) == match_here(
            r2,
            0,
            scope,
            user,
            live_only,
        ));
        let s1 = r1.skip(1);
        let s2 = r2.skip(1);
        assert forall|j: int| 0 <= j < s1.len() implies match_here(s1, j, scope, user, live_only)
            == match_here(s2, j, scope, user, live_only) by {
            assert(s1[j] == r1[j + 1]);
            assert(s2[j] == r2[j + 1]);
            assert(match_here(r1, j + 1, scope, user, live_only) == match_here(
                r2,
                j + 1,
                scope,
                user,
                live_only,
            ));
        }
        lemma_first_match_congruence(s1, s2, scope, user, live_only);
    }
}

/// Law: disabling every record for a key leaves a `touch` for that key with
/// nothing to find, while a `create` still finds the very same slot — and
/// since the slot count is untouched, the ledger never grows through a
/// disable/create cycle.
pub proof fn lemma_disabled_slot_reuse(records: Seq<RecordAt>, scope: RecordScope, user: u32)
    ensures
        mark_disabled(records, scope, Option::Some(user)).len() == records.len(),
        first_match(mark_disabled(records, scope, Option::Some(user)), scope, user, true) is None,
        first_match(mark_disabled(records, scope, Option::Some(user)), scope, user, false)
            == first_match(records, scope, user, false),
{
    let marked = mark_disabled(records, scope, Option::Some(user));
    assert forall|j: int| 0 <= j < marked.len() implies !match_here(
        marked,
        j,
        scope,
        user,
        true,
    ) by {
        assert(marked[j] == if must_disable(records[j].rec, scope, Option::Some(user)) {
            RecordAt {
                rec: SessionRecord { enabled: false, ..records[j].rec },
                start: records[j].start,
            }
        } else {
            records[j]
        });
    }
    lemma_first_match_none(marked, scope, user, true);
    assert forall|j: int| 0 <= j < marked.len() implies match_here(marked, j, scope, user, false)
        == match_here(records, j, scope, user, false) by {
        assert(marked[j] == if must_disable(records[j].rec, scope, Option::Some(user)) {
            RecordAt {
                rec: SessionRecord { enabled: false, ..records[j].rec },
                start: records[j].start,
            }
        } else {
            records[j]
        });
    }
    lemma_first_match_congruence(marked, records, scope, user, false);
}

/// Law: a ledger holding one whole record and then a frame that declares
/// more bytes than are present parses to exactly the whole record, and the
/// scan ends damaged right where the incomplete frame starts — so a store
/// operation truncates the stream right after the last whole record.
pub proof fn lemma_corruption_truncation(r1: SessionRecord, m: u16, partial: Seq<u8>)
    requires
        m != 0,
        partial.len() < m as int,
    ensures
        ({
            let d = header_bytes() + spec_frame_bytes(r1) + spec_u16_to_le_bytes(m) + partial;
            &&& ledger(d).records == seq![RecordAt { rec: r1, start: 4 }]
            &&& ledger(d).end == (ScanEnd::Damaged { at: 4 + frame_len(r1) })
        }),
{
    lemma_auto_spec_u16_to_from_le_bytes();
    crate::codec::lemma_record_bytes_len(r1);
    crate::codec::lemma_record_roundtrip(r1);
    let b = spec_record_bytes(r1);
    let n = b.len() as int;
    let d = header_bytes() + spec_frame_bytes(r1) + spec_u16_to_le_bytes(m) + partial;
    let e = 4 + 2 + n;
    assert(d.len() == e + 2 + partial.len());
    assert(d.subrange(4, 6) =~= spec_u16_to_le_bytes(n as u16));
    assert(spec_u16_from_le_bytes(d.subrange(4, 6)) as int == n);
    assert(d.subrange(6, 6 + n) =~= b);
    assert(d.subrange(e, e + 2) =~= spec_u16_to_le_bytes(m));
    assert(spec_u16_from_le_bytes(d.subrange(e, e + 2)) as int == m as int);
    assert(e + 2 + (m as int) > d.len());
    assert(scan_at(d, e) == (Scan {
        records: Seq::<RecordAt>::empty(),
        end: ScanEnd::Damaged { at: e },
    }));
    assert(ledger(d).records =~= seq![RecordAt { rec: r1, start: 4 }]);
}

/// A persistent, TTL-aware ledger of authentication records for one user.
///
/// Every operation takes the stream's advisory lock, rescans the ledger from
/// the start, acts, and releases the lock; no state is cached in memory.
pub struct SessionRecordFile {
    io: MemoryStream,
    timeout: Duration,
    for_user: String,
}

impl SessionRecordFile {
    /// The bytes the backing stream holds.
    pub closed spec fn contents(self) -> Seq<u8> {
        self.io.contents()
    }

    /// The validity window records are held to.
    pub closed spec fn config_timeout(self) -> Duration {
        self.timeout
    }

    /// A well-formed store: the backing stream starts with the header.
    pub open spec fn wf(self) -> bool {
        header_ok(self.contents())
    }

    spec fn position(self) -> int {
        self.io.position()
    }

    /// The store's unchanging configuration.
    pub open spec fn same_config(self, other: SessionRecordFile) -> bool {
        self.config_timeout() == other.config_timeout()
    }

    /// The user label this store was opened for, carried for diagnostics.
    pub fn for_user(&self) -> &String {
        &self.for_user
    }

    /// Borrow the raw bytes of the backing stream.
    pub fn raw_data(&self) -> (r: &Vec<u8>)
        ensures
            r@ == self.contents(),
    {
        self.io.get_ref()
    }

    /// Give the backing stream's bytes back.
    pub fn into_inner(self) -> (r: Vec<u8>)
        ensures
            r@ == self.contents(),
    {
        self.io.into_inner()
    }

    /// Reinitialize the stream to an empty ledger: just the header, with the
    /// position left at `offset`.
    fn init(&mut self, offset: usize) -> (r: Result<(), Error>)
        requires
            offset <= 4,
        ensures
            r is Ok,
            final(self).contents() == header_bytes(),
            final(self).position() == offset as int,
            final(self).wf(),
            final(self).same_config(*old(self)),
            !final(self).io.is_locked(),
    {
        proof {
            lemma_auto_spec_u16_to_from_le_bytes();
        }
        self.io.lock_exclusive();
        self.io.set_len(0);
        self.io.rewind();
        let magic = u16_to_le_bytes(MAGIC_NUM);
        self.io.write_bytes(magic.as_slice());
        let version = u16_to_le_bytes(FILE_VERSION);
        self.io.write_bytes(version.as_slice());
        assert(self.io.contents() =~= header_bytes());
        assert(self.io.contents().subrange(0, 4) =~= header_bytes());
        self.io.seek_to(offset);
        self.io.unlock();
        Ok(())
    }

    /// Open a store over the given stream.  A missing or foreign header is
    /// rewritten, never reported: afterwards the stream always starts with
    /// the canonical header, and an already well-formed ledger is untouched.
    pub fn new(for_user: &str, io: MemoryStream, timeout: Duration) -> (r: Result<
        SessionRecordFile,
        Error,
    >)
        ensures
            r is Ok,
            r matches Ok(f) ==> {
                &&& f.wf()
                &&& f.config_timeout() == timeout
                &&& f.contents() == if header_ok(io.contents()) {
                    io.contents()
                } else {
                    header_bytes()
                }
            },
    {
        proof {
            lemma_auto_spec_u16_to_from_le_bytes();
        }
        let ghost d0 = io.contents();
        let mut io = io;
        io.rewind();
        let mut file = SessionRecordFile { io, timeout, for_user: for_user.to_string() };

        // match the magic number, otherwise reset the stream
        let magic_ok = match file.io.read_bytes(2) {
            Option::Some(m) => u16_from_le_bytes(m.as_slice()) == MAGIC_NUM,
            Option::None => false,
        };
        if !magic_ok {
            let _ = file.init(VERSION_OFFSET);
        }

        // match the file version, otherwise reset the stream
        let version_ok = match file.io.read_bytes(2) {
            Option::Some(v) => u16_from_le_bytes(v.as_slice()) == FILE_VERSION,
            Option::None => false,
        };
        if !version_ok {
            let _ = file.init(FIRST_RECORD_OFFSET);
        }
        proof {
            if header_ok(d0) {
                assert(d0.subrange(0, 2) =~= d0.subrange(0, 4).subrange(0, 2));
                assert(d0.subrange(2, 4) =~= d0.subrange(0, 4).subrange(2, 4));
                assert(header_bytes().subrange(0, 2) =~= spec_u16_to_le_bytes(MAGIC_NUM));
                assert(header_bytes().subrange(2, 4) =~= spec_u16_to_le_bytes(FILE_VERSION));
                assert(magic_ok);
                assert(version_ok);
                assert(file.contents() == d0);
            } else {
                if magic_ok && version_ok {
                    assert(d0.subrange(0, 4) =~= d0.subrange(0, 2) + d0.subrange(2, 4));
                    assert(d0.subrange(0, 2) == spec_u16_to_le_bytes(MAGIC_NUM));
                    assert(d0.subrange(2, 4) == spec_u16_to_le_bytes(FILE_VERSION));
                    assert(false);
                }
                assert(file.contents() == header_bytes());
            }
            assert(file.contents().subrange(0, 4) =~= header_bytes());
        }
        Ok(file)
    }

    /// Truncate the ledger back to the bare header, forgetting every record.
    pub fn reset(&mut self) -> (r: Result<(), Error>)
        ensures
            r is Ok,
            final(self).contents() == header_bytes(),
            final(self).wf(),
            final(self).same_config(*old(self)),
    {
        self.init(0)
    }

    /// Move to where the first record starts.
    fn seek_to_first_record(&mut self)
        requires
            old(self).wf(),
        ensures
            final(self).timeout == old(self).timeout,
            final(self).for_user == old(self).for_user,
            final(self).contents() == old(self).contents(),
            final(self).position() == FIRST_RECORD_OFFSET as int,
            final(self).io.is_locked() == old(self).io.is_locked(),
    {
        self.io.seek_to(FIRST_RECORD_OFFSET);
    }

    /// Read the next record, assuming the stream is already locked.
    ///
    /// A truncated or undecodable record is healed on the spot: the stream is
    /// cut off where that record's frame starts, and the list ends there.  A
    /// zero length prefix is a hard error, reported and left in place.
    fn next_record(&mut self) -> (r: Result<Option<SessionRecord>, Error>)
        requires
            old(self).wf(),
            4 <= old(self).position() <= old(self).contents().len(),
        ensures
            final(self).wf(),
            final(self).same_config(*old(self)),
            final(self).timeout == old(self).timeout,
            final(self).for_user == old(self).for_user,
            final(self).io.is_locked() == old(self).io.is_locked(),
            ({
                let s = scan_at(old(self).contents(), old(self).position());
                if s.records.len() > 0 {
                    &&& r == Ok::<Option<SessionRecord>, Error>(Some(s.records[0].rec))
                    &&& final(self).contents() == old(self).contents()
                    &&& final(self).position() == old(self).position() + frame_len(
                        s.records[0].rec,
                    )
                    &&& final(self).position() <= final(self).contents().len()
                } else {
                    match s.end {
                        ScanEnd::Clean { at } => {
                            &&& r == Ok::<Option<SessionRecord>, Error>(None)
                            &&& final(self).contents() == old(self).contents()
                            &&& final(self).position() == old(self).position()
                        },
                        ScanEnd::Damaged { at } => {
                            &&& r == Ok::<Option<SessionRecord>, Error>(None)
                            &&& final(self).contents() == old(self).contents().take(at)
                        },
                        ScanEnd::Fatal { at } => {
                            &&& r == Err::<Option<SessionRecord>, Error>(Error::EmptyRecord)
                            &&& final(self).contents() == old(self).contents()
                        },
                    }
                }
            }),
    {
        proof {
            lemma_auto_spec_u16_to_from_le_bytes();
        }
        let ghost d = self.contents();
        let ghost p = self.position();
        let curr_pos = self.io.stream_position();

        // if the length prefix is not even there, this is the end of the list
        let len_bytes = match self.io.read_bytes(2) {
            Option::None => {
                return Ok(None);
            },
            Option::Some(v) => v,
        };
        let record_length = u16_from_le_bytes(len_bytes.as_slice());

        // empty records are never valid: a corrupted length field
        if record_length == 0 {
            return Err(Error::EmptyRecord);
        }

        // a missing tail means a crash mid-write: cut the ledger off here
        let buf = match self.io.read_bytes(record_length as usize) {
            Option::None => {
                self.io.set_len(curr_pos);
                proof {
                    assert(self.contents() =~= d.take(p));
                    assert(self.contents().subrange(0, 4) =~= d.subrange(0, 4));
                }
                return Ok(None);
            },
            Option::Some(v) => v,
        };

        // a body that does not decode exactly spoils the ledger from here on
        match SessionRecord::from_bytes(buf.as_slice()) {
            Result::Err(_) => {
                self.io.set_len(curr_pos);
                proof {
                    assert(self.contents() =~= d.take(p));
                    assert(self.contents().subrange(0, 4) =~= d.subrange(0, 4));
                }
                Ok(None)
            },
            Result::Ok(record) => {
                proof {
                    crate::codec::lemma_decode_is_encoding(buf@, record);
                }
                Ok(Some(record))
            },
        }
    }

    /// Find a live record for the given scope and target user and, if it is
    /// still within the validity window at `now`, overwrite just its
    /// timestamp in place.  Never creates a record.
    pub fn touch_at(&mut self, scope: RecordScope, auth_user: u32, now: SystemTime) -> (r: Result<
        TouchResult,
        Error,
    >)
        requires
            old(self).wf(),
        ensures
            final(self).wf(),
            final(self).same_config(*old(self)),
            touch_outcome(
                old(self).contents(),
                old(self).config_timeout(),
                scope,
                auth_user,
                now,
                final(self).contents(),
                r,
            ),
    {
        let ghost d = self.contents();
        let ghost s = ledger(d);
        self.io.lock_exclusive();
        self.seek_to_first_record();
        let ghost mut k: int = 0;
        proof {
            assert(s.records.skip(0) =~= s.records);
        }
        loop
            invariant
                self.wf(),
                self.timeout == old(self).timeout,
                self.contents() == d,
                d == old(self).contents(),
                s == ledger(d),
                4 <= self.position() <= d.len(),
                0 <= k <= s.records.len(),
                scan_at(d, self.position()) == (Scan { records: s.records.skip(k), end: s.end }),
                forall|j: int|
                    0 <= j < k ==> !match_here(s.records, j, scope, auth_user, true),
            decreases s.records.len() - k,
        {
            let ghost p = self.position();
            match self.next_record() {
                Result::Err(e) => {
                    // a zero length prefix: surface the hard error
                    proof {
                        assert(s.records.skip(k).len() == 0);
                        assert(k == s.records.len());
                        lemma_first_match_none(s.records, scope, auth_user, true);
                    }
                    self.io.unlock();
                    return Err(e);
                },
                Result::Ok(Option::None) => {
                    proof {
                        assert(s.records.skip(k).len() == 0);
                        assert(k == s.records.len());
                        lemma_first_match_none(s.records, scope, auth_user, true);
                        if s.end is Damaged {
                            lemma_scan_bounds(d, 4);
                            lemma_scan_truncate(d, 4);
                            assert(self.contents().subrange(0, 4) =~= d.subrange(0, 4));
                        }
                    }
                    self.io.unlock();
                    return Ok(TouchResult::NotFound);
                },
                Result::Ok(Option::Some(record)) => {
                    proof {
                        assert(s.records.skip(k)[0] == s.records[k]);
                        assert(s.records[k].rec == record);
                        assert(s.records[k].start == p);
                    }
                    if record.enabled && record.matches(&scope, auth_user) {
                        proof {
                            lemma_first_match_at(s.records, scope, auth_user, true, k);
                        }
                        let timeout = self.timeout;
                        let nn = now.total_nanos();
                        let tn = record.timestamp.total_nanos();
                        let dn = timeout.total_nanos();
                        if 0 <= dn && nn - dn <= tn && tn <= nn {
                            // still valid: move back over timestamp and flag,
                            // overwrite the timestamp, and reseek past the flag
                            proof {
                                crate::codec::lemma_record_bytes_len(record);
                                crate::time::lemma_time_roundtrip(now);
                            }
                            let e_pos = self.io.stream_position();
                            self.io.seek_to(e_pos - 17);
                            let mut tbuf: Vec<u8> = Vec::new();
                            now.encode_into(&mut tbuf);
                            self.io.write_bytes(tbuf.as_slice());
                            proof {
                                lemma_record_body_at(d, p, record);
                                let b = spec_record_bytes(record);
                                let n = b.len() as int;
                                let rec2 = SessionRecord { timestamp: now, ..record };
                                crate::codec::lemma_record_bytes_patch(
                                    record,
                                    now,
                                    record.enabled,
                                );
                                crate::codec::lemma_record_bytes_patch(
                                    record,
                                    record.timestamp,
                                    record.enabled,
                                );
                                let b2 = spec_record_bytes(rec2);
                                crate::codec::lemma_record_roundtrip(rec2);
                                assert(b[n - 1] == crate::codec::spec_bool_byte(record.enabled));
                                assert(self.contents() =~= spec_write_at(d, p + 2, b2));
                                lemma_ledger_update(d, k, p, record, b2);
                                assert(self.contents().subrange(0, 4) == d.subrange(0, 4));
                            }
                            self.io.seek_to(e_pos);
                            self.io.unlock();
                            return Ok(
                                TouchResult::Updated {
                                    old_time: record.timestamp,
                                    new_time: now,
                                },
                            );
                        } else {
                            self.io.unlock();
                            return Ok(TouchResult::Outdated { time: record.timestamp });
                        }
                    }
                    proof {
                        assert(!match_here(s.records, k, scope, auth_user, true));
                        lemma_record_body_at(d, p, record);
                        let rest = scan_at(d, p + frame_len(record));
                        assert(scan_at(d, p).records == seq![
                            RecordAt { rec: record, start: p },
                        ] + rest.records);
                        assert(rest.end == s.end);
                        assert forall|j: int| 0 <= j < rest.records.len() implies rest.records[j]
                            == s.records[k + 1 + j] by {
                            assert(rest.records[j] == (seq![
                                RecordAt { rec: record, start: p },
                            ] + rest.records)[j + 1]);
                            assert(s.records.skip(k)[j + 1] == s.records[k + 1 + j]);
                        }
                        assert(s.records.skip(k + 1) =~= rest.records);
                        k = k + 1;
                    }
                },
            }
        }
    }

    /// Find a live record for the given scope and target user and, if it is
    /// still valid now, refresh its timestamp in place.  Never creates a
    /// record; reports `Outdated` or `NotFound` instead.
    pub fn touch(&mut self, scope: RecordScope, auth_user: u32) -> (r: Result<TouchResult, Error>)
        requires
            old(self).wf(),
        ensures
            final(self).wf(),
            final(self).same_config(*old(self)),
            (r == Err::<TouchResult, Error>(Error::ClockFailure) && final(self).contents() == old(
                self,
            ).contents()) || (exists|now: SystemTime|
                now.wf() && #[trigger] touch_outcome(
                    old(self).contents(),
                    old(self).config_timeout(),
                    scope,
                    auth_user,
                    now,
                    final(self).contents(),
                    r,
                )),
    {
        let now = match SystemTime::now() {
            Result::Ok(t) => t,
            Result::Err(e) => {
                return Err(e);
            },
        };
        self.touch_at(scope, auth_user, now)
    }

    /// Write one framed record at the end of the stream.
    fn write_record(&mut self, record: &SessionRecord)
        requires
            old(self).position() == old(self).contents().len(),
            old(self).contents().len() + 52 <= usize::MAX,
        ensures
            final(self).timeout == old(self).timeout,
            final(self).for_user == old(self).for_user,
            final(self).io.is_locked() == old(self).io.is_locked(),
            final(self).contents() == old(self).contents() + spec_frame_bytes(*record),
    {
        proof {
            crate::codec::lemma_record_bytes_len(*record);
        }
        let bytes = record.as_bytes();
        let record_length = #[verifier::truncate] (bytes.len() as u16);
        let len_bytes = u16_to_le_bytes(record_length);
        self.io.write_bytes(len_bytes.as_slice());
        self.io.write_bytes(bytes.as_slice());
        assert(self.contents() =~= old(self).contents() + spec_frame_bytes(*record));
    }

    /// Record a success for the given scope and target user at `now`.  An
    /// existing record for that key, live or disabled, is refreshed and
    /// re-enabled in place; otherwise a fresh record is appended.
    pub fn create_at(&mut self, scope: RecordScope, auth_user: u32, now: SystemTime) -> (r: Result<
        CreateResult,
        Error,
    >)
        requires
            old(self).wf(),
            old(self).contents().len() + 52 <= usize::MAX,
        ensures
            final(self).wf(),
            final(self).same_config(*old(self)),
            create_outcome(
                old(self).contents(),
                scope,
                auth_user,
                now,
                final(self).contents(),
                r,
            ),
    {
        let ghost d = self.contents();
        let ghost s = ledger(d);
        self.io.lock_exclusive();
        self.seek_to_first_record();
        let ghost mut k: int = 0;
        proof {
            assert(s.records.skip(0) =~= s.records);
        }
        loop
            invariant_except_break
                self.contents() == d,
                4 <= self.position() <= d.len(),
                scan_at(d, self.position()) == (Scan { records: s.records.skip(k), end: s.end }),
            invariant
                self.wf(),
                self.timeout == old(self).timeout,
                d == old(self).contents(),
                d.len() + 52 <= usize::MAX,
                s == ledger(d),
                self.io.is_locked(),
                0 <= k <= s.records.len(),
                forall|j: int|
                    0 <= j < k ==> !match_here(s.records, j, scope, auth_user, false),
            ensures
                self.wf(),
                self.timeout == old(self).timeout,
                self.io.is_locked(),
                first_match(s.records, scope, auth_user, false) is None,
                (s.end is Clean && self.contents() == d) || (s.end is Damaged && self.contents()
                    == d.take(end_at(s.end))),
            decreases s.records.len() - k,
        {
            let ghost p = self.position();
            match self.next_record() {
                Result::Err(e) => {
                    // a zero length prefix: surface the hard error
                    proof {
                        assert(s.records.skip(k).len() == 0);
                        assert(k == s.records.len());
                        lemma_first_match_none(s.records, scope, auth_user, false);
                    }
                    self.io.unlock();
                    return Err(e);
                },
                Result::Ok(Option::None) => {
                    proof {
                        assert(s.records.skip(k).len() == 0);
                        assert(k == s.records.len());
                        lemma_first_match_none(s.records, scope, auth_user, false);
                    }
                    break;
                },
                Result::Ok(Option::Some(record)) => {
                    proof {
                        assert(s.records.skip(k)[0] == s.records[k]);
                        assert(s.records[k].rec == record);
                        assert(s.records[k].start == p);
                    }
                    if record.matches(&scope, auth_user) {
                        // reuse the slot: overwrite timestamp and flag in place
                        proof {
                            lemma_first_match_at(s.records, scope, auth_user, false, k);
                            crate::codec::lemma_record_bytes_len(record);
                            crate::time::lemma_time_roundtrip(now);
                        }
                        let e_pos = self.io.stream_position();
                        self.io.seek_to(e_pos - 17);
                        let mut tbuf: Vec<u8> = Vec::new();
                        now.encode_into(&mut tbuf);
                        crate::codec::write_bool(true, &mut tbuf);
                        self.io.write_bytes(tbuf.as_slice());
                        proof {
                            lemma_record_body_at(d, p, record);
                            let b = spec_record_bytes(record);
                            let n = b.len() as int;
                            let rec2 = SessionRecord { timestamp: now, enabled: true, ..record };
                            crate::codec::lemma_record_bytes_patch(record, now, true);
                            let b2 = spec_record_bytes(rec2);
                            crate::codec::lemma_record_roundtrip(rec2);
                            assert(self.contents() =~= spec_write_at(d, p + 2, b2));
                            lemma_ledger_update(d, k, p, record, b2);
                            assert(self.contents().subrange(0, 4) == d.subrange(0, 4));
                        }
                        self.io.unlock();
                        return Ok(
                            CreateResult::Updated { old_time: record.timestamp, new_time: now },
                        );
                    }
                    proof {
                        assert(!match_here(s.records, k, scope, auth_user, false));
                        lemma_record_body_at(d, p, record);
                        let rest = scan_at(d, p + frame_len(record));
                        assert(scan_at(d, p).records == seq![
                            RecordAt { rec: record, start: p },
                        ] + rest.records);
                        assert(rest.end == s.end);
                        assert forall|j: int| 0 <= j < rest.records.len() implies rest.records[j]
                            == s.records[k + 1 + j] by {
                            assert(rest.records[j] == (seq![
                                RecordAt { rec: record, start: p },
                            ] + rest.records)[j + 1]);
                            assert(s.records.skip(k)[j + 1] == s.records[k + 1 + j]);
                        }
                        assert(s.records.skip(k + 1) =~= rest.records);
                        k = k + 1;
                    }
                },
            }
        }

        // no record for this key exists: append a brand-new enabled one
        let record = SessionRecord::init(scope, auth_user, true, now);
        let ghost dt = self.contents();
        proof {
            if s.end is Damaged {
                lemma_scan_bounds(d, 4);
                lemma_scan_truncate(d, 4);
                assert(dt.subrange(0, 4) =~= d.subrange(0, 4));
                assert(dt.len() == end_at(s.end));
            }
            crate::codec::lemma_record_bytes_len(record);
        }
        self.io.seek_to_end();
        self.write_record(&record);
        proof {
            match s.end {
                ScanEnd::Clean { at } => {
                    if at == d.len() {
                        lemma_scan_append(dt, 4, record);
                    }
                },
                ScanEnd::Damaged { at } => {
                    lemma_scan_append(dt, 4, record);
                },
                ScanEnd::Fatal { at } => {
                    assert(false);
                },
            }
            assert(self.contents().subrange(0, 4) =~= d.subrange(0, 4));
        }
        self.io.unlock();
        Ok(CreateResult::Created { time: now })
    }

    /// Disable every record that matches the given scope — all of them, or
    /// only those targeting a given auth user when a filter is given.  A
    /// disabled record is passed over by `touch`, but its slot is reused by
    /// the next `create` for the same key.
    pub fn disable(&mut self, scope: RecordScope, auth_user: Option<u32>) -> (r: Result<(), Error>)
        requires
            old(self).wf(),
        ensures
            final(self).wf(),
            final(self).same_config(*old(self)),
            disable_outcome(old(self).contents(), scope, auth_user, final(self).contents(), r),
    {
        let ghost d = self.contents();
        let ghost s = ledger(d);
        self.io.lock_exclusive();
        self.seek_to_first_record();
        let ghost mut k: int = 0;
        proof {
            assert(s.records.skip(0) =~= s.records);
            assert(mark_upto(s.records, scope, auth_user, 0) =~= s.records);
        }
        loop
            invariant_except_break
                self.contents().len() == d.len(),
                4 <= self.position() <= d.len(),
                forall|i: int|
                    self.position() <= i < d.len() ==> self.contents()[i] == d[i],
                scan_at(self.contents(), self.position()) == (Scan {
                    records: s.records.skip(k),
                    end: s.end,
                }),
                ledger(self.contents()) == (Scan {
                    records: mark_upto(s.records, scope, auth_user, k),
                    end: s.end,
                }),
            invariant
                self.wf(),
                self.timeout == old(self).timeout,
                self.io.is_locked(),
                d == old(self).contents(),
                s == ledger(d),
                0 <= k <= s.records.len(),
            ensures
                self.wf(),
                self.timeout == old(self).timeout,
                self.io.is_locked(),
                match s.end {
                    ScanEnd::Clean { at } => self.contents().len() == d.len() && ledger(
                        self.contents(),
                    ) == (Scan { records: mark_disabled(s.records, scope, auth_user), end: s.end })
                        && (forall|i: int| at <= i < d.len() ==> self.contents()[i] == d[i]),
                    ScanEnd::Damaged { at } => self.contents().len() == at && ledger(
                        self.contents(),
                    ) == (Scan {
                        records: mark_disabled(s.records, scope, auth_user),
                        end: ScanEnd::Clean { at },
                    }),
                    ScanEnd::Fatal { at } => false,
                },
            decreases s.records.len() - k,
        {
            let ghost dc = self.contents();
            let ghost p = self.position();
            match self.next_record() {
                Result::Err(e) => {
                    // a zero length prefix: surface the hard error, keeping
                    // the records already disabled
                    proof {
                        assert(s.records.skip(k).len() == 0);
                        assert(k == s.records.len());
                        assert(mark_upto(s.records, scope, auth_user, k) =~= mark_disabled(
                            s.records,
                            scope,
                            auth_user,
                        ));
                    }
                    self.io.unlock();
                    return Err(e);
                },
                Result::Ok(Option::None) => {
                    proof {
                        assert(s.records.skip(k).len() == 0);
                        assert(k == s.records.len());
                        assert(mark_upto(s.records, scope, auth_user, k) =~= mark_disabled(
                            s.records,
                            scope,
                            auth_user,
                        ));
                        if s.end is Damaged {
                            lemma_scan_bounds(dc, 4);
                            lemma_scan_truncate(dc, 4);
                            assert(self.contents().subrange(0, 4) =~= dc.subrange(0, 4));
                        }
                    }
                    break;
                },
                Result::Ok(Option::Some(record)) => {
                    proof {
                        assert(s.records.skip(k)[0] == s.records[k]);
                        assert(s.records[k].rec == record);
                        assert(s.records[k].start == p);
                        lemma_record_body_at(dc, p, record);
                    }
                    let must = match auth_user {
                        Option::Some(u) => record.matches(&scope, u),
                        Option::None => record.scope == scope,
                    };
                    if must {
                        // flip just the flag byte, in place
                        let e_pos = self.io.stream_position();
                        proof {
                            crate::codec::lemma_record_bytes_len(record);
                        }
                        self.io.seek_to(e_pos - 1);
                        let mut fbuf: Vec<u8> = Vec::new();
                        crate::codec::write_bool(false, &mut fbuf);
                        self.io.write_bytes(fbuf.as_slice());
                        proof {
                            let b = spec_record_bytes(record);
                            let n = b.len() as int;
                            let rec2 = SessionRecord { enabled: false, ..record };
                            crate::codec::lemma_record_bytes_patch(
                                record,
                                record.timestamp,
                                false,
                            );
                            crate::codec::lemma_record_bytes_patch(
                                record,
                                record.timestamp,
                                record.enabled,
                            );
                            let b2 = spec_record_bytes(rec2);
                            crate::codec::lemma_record_roundtrip(rec2);
                            let e = p + frame_len(record);
                            assert forall|x: int| 0 <= x < n - 1 implies b2[x] == b[x] by {
                                if x < n - 17 {
                                    assert(b2[x] == (b.take(n - 17) + spec_time_bytes(
                                        record.timestamp,
                                    ))[x]);
                                    assert(b[x] == (b.take(n - 17) + spec_time_bytes(
                                        record.timestamp,
                                    ))[x]);
                                } else {
                                    assert(b2[x] == (b.take(n - 17) + spec_time_bytes(
                                        record.timestamp,
                                    ))[x]);
                                    assert(b[x] == (b.take(n - 17) + spec_time_bytes(
                                        record.timestamp,
                                    ))[x]);
                                }
                            }
                            assert forall|j: int|
                                0 <= j < dc.len() implies self.contents()[j] == spec_write_at(
                                dc,
                                p + 2,
                                b2,
                            )[j] by {
                                if p + 2 <= j < e - 1 {
                                    assert(dc.subrange(p + 2, e)[j - p - 2] == dc[j]);
                                    assert(b2[j - p - 2] == b[j - p - 2]);
                                }
                            }
                            assert(self.contents() =~= spec_write_at(dc, p + 2, b2));
                            assert(ledger(dc).records[k] == (RecordAt { rec: record, start: p }));
                            lemma_ledger_update(dc, k, p, record, b2);
                            assert(self.contents().subrange(0, 4) == dc.subrange(0, 4));
                            assert(mark_upto(s.records, scope, auth_user, k + 1) =~= mark_upto(
                                s.records,
                                scope,
                                auth_user,
                                k,
                            ).update(k, RecordAt { rec: rec2, start: p }));
                        }
                    } else {
                        proof {
                            assert(mark_upto(s.records, scope, auth_user, k + 1) =~= mark_upto(
                                s.records,
                                scope,
                                auth_user,
                                k,
                            ));
                        }
                    }
                    proof {
                        let e = p + frame_len(record);
                        let rest = scan_at(dc, e);
                        assert(scan_at(dc, p).records == seq![
                            RecordAt { rec: record, start: p },
                        ] + rest.records);
                        assert(rest.end == s.end);
                        assert forall|j: int| 0 <= j < rest.records.len() implies rest.records[j]
                            == s.records[k + 1 + j] by {
                            assert(rest.records[j] == (seq![
                                RecordAt { rec: record, start: p },
                            ] + rest.records)[j + 1]);
                            assert(s.records.skip(k)[j + 1] == s.records[k + 1 + j]);
                        }
                        assert(s.records.skip(k + 1) =~= rest.records);
                        assert(self.contents().len() == dc.len());
                        assert forall|i: int| e <= i < d.len() implies self.contents()[i]
                            == dc[i] by {}
                        lemma_scan_same_suffix(dc, self.contents(), e);
                        k = k + 1;
                    }
                },
            }
        }
        self.io.unlock();
        Ok(())
    }

    /// Record a success for the given scope and target user at the current
    /// clock reading.
    pub fn create(&mut self, scope: RecordScope, auth_user: u32) -> (r: Result<
        CreateResult,
        Error,
    >)
        requires
            old(self).wf(),
            old(self).contents().len() + 52 <= usize::MAX,
        ensures
            final(self).wf(),
            final(self).same_config(*old(self)),
            (r == Err::<CreateResult, Error>(Error::ClockFailure) && final(self).contents() == old(
                self,
            ).contents()) || (exists|now: SystemTime|
                now.wf() && #[trigger] create_outcome(
                    old(self).contents(),
                    scope,
                    auth_user,
                    now,
                    final(self).contents(),
                    r,
                )),
    {
        let now = match SystemTime::now() {
            Result::Ok(t) => t,
            Result::Err(e) => {
                return Err(e);
            },
        };
        self.create_at(scope, auth_user, now)
    }

}

/// The frame at `p` carries exactly the record's own encoding as its body.
proof fn lemma_record_body_at(d: Seq<u8>, p: int, record: SessionRecord)
    requires
        0 <= p <= d.len(),
        scan_at(d, p).records.len() > 0,
        scan_at(d, p).records[0] == (RecordAt { rec: record, start: p }),
    ensures
        spec_u16_from_le_bytes(d.subrange(p, p + 2)) as int == spec_record_bytes(record).len(),
        p + frame_len(record) <= d.len(),
        d.subrange(p + 2, p + frame_len(record)) == spec_record_bytes(record),
{
    let n = spec_u16_from_le_bytes(d.subrange(p, p + 2)) as int;
    assert(spec_decode_record(d.subrange(p + 2, p + 2 + n)) == Some(record));
    crate::codec::lemma_decode_is_encoding(d.subrange(p + 2, p + 2 + n), record);
}

/// Replacing one record's whole body in the ledger bytes swaps just that
/// record in the parse and keeps the header.
proof fn lemma_ledger_update(d: Seq<u8>, k: int, p: int, record: SessionRecord, b2: Seq<u8>)
    requires
        4 <= d.len(),
        0 <= k < ledger(d).records.len(),
        ledger(d).records[k] == (RecordAt { rec: record, start: p }),
        spec_decode_record(b2) is Some,
        b2.len() == spec_record_bytes(record).len(),
    ensures
        ({
            let d2 = spec_write_at(d, p + 2, b2);
            &&& d2.len() == d.len()
            &&& d2.subrange(0, 4) == d.subrange(0, 4)
            &&& ledger(d2) == (Scan {
                records: ledger(d).records.update(
                    k,
                    RecordAt { rec: spec_decode_record(b2)->Some_0, start: p },
                ),
                end: ledger(d).end,
            })
        }),
{
    lemma_scan_bounds(d, 4);
    lemma_scan_update(d, 4, k, b2);
    let d2 = spec_write_at(d, p + 2, b2);
    assert(d2.subrange(0, 4) =~= d.subrange(0, 4));
}

} // verus!
