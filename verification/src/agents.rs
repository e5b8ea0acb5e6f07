//! The requests of the inventory application's background workers and the
//! decisions they take.
use vstd::prelude::*;
use crate::data::MktItemHashes;
use crate::keyed::merged_maps;
use crate::model::Timestamp;

verus! {

/// What the import worker is asked to do.
#[derive(Debug, Clone)]
pub enum ImportRequest {
    /// Read the inventory from a screenshot (the image file's bytes).
    ImportScreenshot(Vec<u8>),
    /// Learn the item hashes from screenshots of a whole item list.
    BootstrapItemHashes(Vec<Vec<u8>>),
}

/// What the update worker is asked to do.
#[derive(Debug, Copy, Clone, PartialEq, Eq, Structural)]
pub enum UpdateRequest {
    CheckUpdateData,
}

/// How the update worker answers.
#[derive(Debug, Copy, Clone, PartialEq, Eq, Structural)]
pub enum UpdateResponse {
    NoDataUpdate,
    DoneDataUpdate,
}

/// Whether instant `a` comes after instant `b`.
pub open spec fn later(a: Timestamp, b: Timestamp) -> bool {
    a.secs > b.secs || (a.secs == b.secs && a.nanos > b.nanos)
}

/// Whether the published database, last changed at `latest`, is newer
/// than the one stored, fetched at `stored`.
pub fn data_is_newer(latest: Timestamp, stored: Timestamp) -> (r: bool)
    ensures
        r == later(latest, stored),
{
    latest.secs > stored.secs || (latest.secs == stored.secs && latest.nanos > stored.nanos)
}

/// The answer to a check for a new database: whether one was loaded.
pub fn update_response(loaded: bool) -> (r: UpdateResponse)
    ensures
        r == (if loaded {
            UpdateResponse::DoneDataUpdate
        } else {
            UpdateResponse::NoDataUpdate
        }),
{
    if loaded {
        UpdateResponse::DoneDataUpdate
    } else {
        UpdateResponse::NoDataUpdate
    }
}

/// The hashes to store after an import learned `learned`: none to store
/// when nothing was learned, else the stored hashes (none yet counting as
/// empty) with the learned ones merged in.
pub fn hashes_to_store(stored: Option<MktItemHashes>, learned: MktItemHashes) -> (r: Option<
    MktItemHashes,
>)
    requires
        stored matches Some(h) ==> h.wf(),
        learned.wf(),
    ensures
        learned.hashes@.len() == 0 ==> r is None,
        learned.hashes@.len() > 0 ==> (r matches Some(h) && h.wf() && h.hash_map() == merged_maps::<
            Vec<String>,
        >(
            match stored {
                Some(s) => s.hash_map(),
                None => Map::empty(),
            },
            learned.hash_map(),
        )),
{
    if learned.hashes.len() == 0 {
        return None;
    }
    let mut h = match stored {
        Some(s) => s,
        None => MktItemHashes::new(),
    };
    h.merge(learned);
    Some(h)
}

} // verus!
