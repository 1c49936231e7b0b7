use vstd::prelude::*;

use crate::wire::Response;

verus! {

/// A navigation that has been submitted and not yet answered to its caller.
///
/// A navigation completes only when both the navigate command's reply and the
/// terminal frame-lifecycle signal have arrived; whichever arrives first
/// stores its half here and waits for the other.
#[derive(Debug)]
pub struct NavigationInProgress {
    /// Whether the frame lifecycle has reported completion.
    pub navigated: bool,
    /// The navigate command's reply, once it has arrived.
    pub response: Option<Response>,
    /// Reply handle of the caller who initiated the navigation.
    pub tx: u64,
}

impl NavigationInProgress {
    /// A fresh entry: neither signal has arrived yet.
    pub fn new(tx: u64) -> (nav: NavigationInProgress)
        ensures
            nav == (NavigationInProgress { navigated: false, response: None, tx }),
    {
        NavigationInProgress { navigated: false, response: None, tx }
    }

    /// Stores the navigate command's reply.
    pub fn set_response(&mut self, resp: Response)
        ensures
            *final(self) == (NavigationInProgress {
                response: Some(resp),
                ..*old(self)
            }),
    {
        self.response = Some(resp);
    }

    /// Records that the frame lifecycle has completed.
    pub fn set_navigated(&mut self)
        ensures
            *final(self) == (NavigationInProgress { navigated: true, ..*old(self) }),
    {
        self.navigated = true;
    }
}

/// The kinds of navigation the coordinator tracks; today only a full page
/// load initiated by a goto-style command.
#[derive(Debug)]
pub enum NavigationRequest {
    Goto(NavigationInProgress),
}

impl NavigationRequest {
    /// Stores the navigate command's reply on the underlying navigation.
    pub fn set_response(&mut self, response: Response)
        ensures
            *final(self) == (NavigationRequest::Goto(NavigationInProgress {
                response: Some(response),
                ..old(self)->0
            })),
    {
        match self {
            NavigationRequest::Goto(nav) => nav.set_response(response),
        }
    }
}

/// A terminal frame-lifecycle signal: the navigation reached a usable state.
#[derive(Debug)]
pub struct NavigationOk {
    pub navigation_id: u64,
}

/// A terminal frame-lifecycle signal: the navigation failed before
/// completion, with the browser's failure kind (such as a net error name).
#[derive(Debug)]
pub struct NavigationError {
    pub navigation_id: u64,
    pub kind: String,
}

/// The navigation table, keyed by navigation id: every navigation whose
/// caller still awaits an answer.
#[verifier::external_body]
pub struct NavigationMap {
    inner: fnv::FnvHashMap<u64, NavigationRequest>,
}

/// What a [`NavigationMap`] holds: its entries, keyed by navigation id.
pub uninterp spec fn navigation_contents(m: NavigationMap) -> Map<u64, NavigationRequest>;

/// The contents of a navigation table with no navigation in flight.
pub open spec fn no_navigations() -> Map<u64, NavigationRequest> {
    Map::empty()
}

impl NavigationMap {
    /// Relies on `fnv::FnvHashMap::default` (std's `HashMap` with the fnv
    /// hasher): a fresh map is empty.
    #[verifier::external_body]
    pub fn new() -> (m: NavigationMap)
        ensures
            navigation_contents(m) == no_navigations(),
    {
        NavigationMap { inner: fnv::FnvHashMap::default() }
    }

    /// Relies on `HashMap::insert`: maps the key to the new entry and leaves
    /// every other key unchanged.
    #[verifier::external_body]
    pub fn insert(&mut self, id: u64, nav: NavigationRequest)
        ensures
            navigation_contents(*final(self)) == navigation_contents(*old(self)).insert(id, nav),
    {
        self.inner.insert(id, nav);
    }

    /// Relies on `HashMap::remove`: takes the key's entry out if it is
    /// present and leaves every other key unchanged.
    #[verifier::external_body]
    pub fn remove(&mut self, id: u64) -> (r: Option<NavigationRequest>)
        ensures
            navigation_contents(*final(self)) == navigation_contents(*old(self)).remove(id),
            match r {
                Some(nav) => navigation_contents(*old(self)).contains_key(id)
                    && navigation_contents(*old(self))[id] == nav,
                None => !navigation_contents(*old(self)).contains_key(id),
            },
    {
        self.inner.remove(&id)
    }
}

} // verus!
