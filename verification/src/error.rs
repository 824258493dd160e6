//! Errors surfaced by the record codec and the store.

use vstd::prelude::*;

verus! {

/// What can go wrong while decoding a record or scanning the ledger.
///
/// Format damage found during a scan (a truncated or undecodable record) is
/// not reported through this type: the store heals it silently.  Only a hard
/// codec error or a zero length prefix reaches a caller.
#[derive(Clone, Copy, Debug, PartialEq, Eq, Structural)]
pub enum Error {
    /// The input ended before a full record could be read.
    TruncatedRecord,
    /// The scope discriminant byte named no known scope variant.
    UnknownScopeTag,
    /// The enabled flag byte was neither the true nor the false sentinel.
    InvalidBoolean,
    /// Bytes remained after a complete record was decoded.
    TrailingBytes,
    /// A record length prefix of zero was found in the ledger.
    EmptyRecord,
    /// The system clock could not produce a usable reading.
    ClockFailure,
}

} // verus!
