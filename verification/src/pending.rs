use vstd::prelude::*;

verus! {

/// The intent behind one in-flight command, deciding where its response goes.
/// Reply channels are opaque `u64` handles owned by the surrounding runtime.
#[derive(Debug)]
pub enum PendingRequest {
    /// Create a target; deliver the resulting page to this reply handle.
    CreateTarget { tx: u64 },
    /// A navigation command for this navigation id.
    Navigate { navigation_id: u64 },
    /// An external command; deliver the raw response to this reply handle.
    ExternalCommand { tx: u64 },
    /// An internal command issued by this target; feed the response back.
    InternalCommand { target_id: String },
}

/// One unresolved outbound command: its intent and when it was submitted
/// (milliseconds on the driver's clock), for timeout eviction.
#[derive(Debug)]
pub struct PendingEntry {
    pub request: PendingRequest,
    pub issued_at: u64,
}

/// The pending-command table, keyed by call-id. Call-ids are small integers
/// under the core's own control, so an fnv-hashed map holds them.
#[verifier::external_body]
pub struct PendingMap {
    inner: fnv::FnvHashMap<u64, PendingEntry>,
}

/// What a [`PendingMap`] holds: its entries, keyed by call-id.
pub uninterp spec fn pending_contents(m: PendingMap) -> Map<u64, PendingEntry>;

/// The contents of a pending table with nothing in flight.
pub open spec fn no_pending() -> Map<u64, PendingEntry> {
    Map::empty()
}

impl PendingMap {
    /// Relies on `fnv::FnvHashMap::default` (std's `HashMap` with the fnv
    /// hasher): a fresh map is empty.
    #[verifier::external_body]
    pub fn new() -> (m: PendingMap)
        ensures
            pending_contents(m) == no_pending(),
    {
        PendingMap { inner: fnv::FnvHashMap::default() }
    }

    /// Relies on `HashMap::insert`: maps the key to the new entry and leaves
    /// every other key unchanged.
    #[verifier::external_body]
    pub fn insert(&mut self, call_id: u64, entry: PendingEntry)
        ensures
            pending_contents(*final(self)) == pending_contents(*old(self)).insert(call_id, entry),
    {
        self.inner.insert(call_id, entry);
    }

    /// Relies on `HashMap::remove`: takes the key's entry out if it is
    /// present and leaves every other key unchanged.
    #[verifier::external_body]
    pub fn remove(&mut self, call_id: u64) -> (r: Option<PendingEntry>)
        ensures
            pending_contents(*final(self)) == pending_contents(*old(self)).remove(call_id),
            match r {
                Some(e) => pending_contents(*old(self)).contains_key(call_id)
                    && pending_contents(*old(self))[call_id] == e,
                None => !pending_contents(*old(self)).contains_key(call_id),
            },
    {
        self.inner.remove(&call_id)
    }

    /// Relies on `HashMap::drain`: empties the map, handing every entry out
    /// exactly once, in no promised order.
    #[verifier::external_body]
    pub fn drain(&mut self) -> (entries: Vec<(u64, PendingEntry)>)
        ensures
            pending_contents(*final(self)) == no_pending(),
            forall|i: int, j: int|
                0 <= i < j < entries@.len() ==> (#[trigger] entries@[i]).0 != (#[trigger] entries@[j]).0,
            forall|i: int|
                0 <= i < entries@.len() ==> pending_contents(*old(self)).contains_key(
                    (#[trigger] entries@[i]).0,
                ) && pending_contents(*old(self))[entries@[i].0] == entries@[i].1,
            forall|k: u64|
                pending_contents(*old(self)).contains_key(k) ==> exists|i: int|
                    0 <= i < entries@.len() && (#[trigger] entries@[i]).0 == k,
    {
        self.inner.drain().collect()
    }
}

} // verus!
