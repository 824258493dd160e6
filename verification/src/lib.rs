//! A persistent, TTL-aware session timestamp store.
//!
//! A successful authentication is remembered for a grace period by writing a
//! small record, keyed by login context and target user, into a per-user
//! ledger of bytes.  The ledger survives partial writes and corrupted content
//! by truncating at the first damaged record, never by failing open.

mod codec;
mod error;
mod store;
mod stream;
mod time;

pub use codec::RecordScope;
pub use codec::SessionRecord;
pub use codec::write_bool;
pub use error::Error;
pub use store::CreateResult;
pub use store::SessionRecordFile;
pub use store::TouchResult;
pub use stream::MemoryStream;
pub use stream::SetLength;
pub use time::Duration;
pub use time::SystemTime;
