use vstd::prelude::*;

use crate::conn::{Connection, OutgoingMessage};
use crate::error::CdpError;
use crate::navigation::{
    navigation_contents, NavigationError, NavigationInProgress, NavigationMap, NavigationOk,
    NavigationRequest,
};
use crate::pending::{pending_contents, PendingEntry, PendingMap, PendingRequest};
use crate::target::{nav_after_event, Target, TargetEvent};
use crate::wire::{
    created_target_id, spec_created_target_id, spec_to_command_response, to_command_response,
    CdpEvent, CdpEventMessage, CdpRequest, CommandMessage, Response,
};

verus! {

/// One live session: a routing entry from a session id to the target the
/// browser attached it to.
#[derive(Debug)]
pub struct Session {
    pub session_id: String,
    pub target_id: String,
    pub kind: String,
}

/// What the core asks the surrounding runtime to do. The core never performs
/// I/O itself; it hands these out and the runtime writes frames and resolves
/// one-shot reply handles.
#[derive(Debug)]
pub enum Effect {
    /// Write this frame to the browser connection.
    Send(OutgoingMessage),
    /// Resolve a caller's reply handle with a command outcome.
    CompleteCommand { tx: u64, result: Result<Response, CdpError> },
    /// Resolve a page creator's reply handle with the page's target id.
    CompletePage { tx: u64, result: Result<String, CdpError> },
    /// Resolve a page-listing reply handle with one page per ready target.
    CompletePages { tx: u64, pages: Vec<String> },
}

/// An inbound client request.
#[derive(Debug)]
pub enum HandlerMessage {
    /// Create a page from these create-target parameters; answer on `tx`.
    CreatePage { params: serde_json::Value, tx: u64 },
    /// List the pages of all targets that can produce one; answer on `tx`.
    GetPages { tx: u64 },
    /// Run one command and deliver its raw response.
    Command(CommandMessage),
    /// Reserved; accepted and ignored.
    Subscribe,
}

/// One item read from the browser connection.
#[derive(Debug)]
pub enum IncomingMessage {
    Response(Response),
    Event(CdpEventMessage),
    /// The transport failed; terminal for the core.
    TransportError,
}

/// The views of a list of ids.
pub open spec fn id_views(ids: Seq<String>) -> Seq<Seq<char>> {
    ids.map_values(|s: String| s@)
}

/// The views of the ids of a list of targets.
pub open spec fn target_id_views(ts: Seq<Target>) -> Seq<Seq<char>> {
    ts.map_values(|t: Target| t.target_id@)
}

/// Whether some target in the registry bears this id.
pub open spec fn has_target(ts: Seq<Target>, tid: Seq<char>) -> bool {
    exists|i: int| 0 <= i < ts.len() && #[trigger] ts[i].target_id@ == tid
}

/// The index of the target bearing this id, when there is one.
pub open spec fn target_index_of(ts: Seq<Target>, tid: Seq<char>) -> Option<int> {
    if has_target(ts, tid) {
        Some(choose|i: int| 0 <= i < ts.len() && #[trigger] ts[i].target_id@ == tid)
    } else {
        None
    }
}

/// Whether some session in the table bears this id.
pub open spec fn has_session(ss: Seq<Session>, sid: Seq<char>) -> bool {
    exists|i: int| 0 <= i < ss.len() && #[trigger] ss[i].session_id@ == sid
}

/// The index of the session bearing this id, when there is one.
pub open spec fn session_index_of(ss: Seq<Session>, sid: Seq<char>) -> Option<int> {
    if has_session(ss, sid) {
        Some(choose|i: int| 0 <= i < ss.len() && #[trigger] ss[i].session_id@ == sid)
    } else {
        None
    }
}

/// What the navigation coordinator does when the navigate command's reply
/// arrives: a navigation whose lifecycle already completed is answered now
/// and dropped; otherwise the reply is stored and the entry waits on.
pub open spec fn nav_response_step(
    navs: Map<u64, NavigationRequest>,
    id: u64,
    resp: Response,
) -> (Map<u64, NavigationRequest>, Seq<Effect>) {
    if navs.contains_key(id) {
        let nav = navs[id]->0;
        if nav.navigated {
            (navs.remove(id), seq![Effect::CompleteCommand { tx: nav.tx, result: Ok(resp) }])
        } else {
            (
                navs.insert(
                    id,
                    NavigationRequest::Goto(NavigationInProgress { response: Some(resp), ..nav }),
                ),
                Seq::empty(),
            )
        }
    } else {
        (navs, Seq::empty())
    }
}

/// What the navigation coordinator does when the frame lifecycle completes:
/// a navigation whose reply is already stored is answered now and dropped;
/// otherwise the completion is recorded and the entry waits on.
pub open spec fn nav_lifecycle_ok_step(navs: Map<u64, NavigationRequest>, id: u64) -> (
    Map<u64, NavigationRequest>,
    Seq<Effect>,
) {
    if navs.contains_key(id) {
        let nav = navs[id]->0;
        match nav.response {
            Some(resp) => (
                navs.remove(id),
                seq![Effect::CompleteCommand { tx: nav.tx, result: Ok(resp) }],
            ),
            None => (
                navs.insert(
                    id,
                    NavigationRequest::Goto(NavigationInProgress { navigated: true, ..nav }),
                ),
                Seq::empty(),
            ),
        }
    } else {
        (navs, Seq::empty())
    }
}

/// What the navigation coordinator does when the frame lifecycle fails: the
/// navigation is answered with the failure and dropped, whether or not the
/// command's reply was stored.
pub open spec fn nav_lifecycle_err_step(
    navs: Map<u64, NavigationRequest>,
    id: u64,
    kind: String,
) -> (Map<u64, NavigationRequest>, Seq<Effect>) {
    if navs.contains_key(id) {
        let nav = navs[id]->0;
        (
            navs.remove(id),
            seq![
                Effect::CompleteCommand {
                    tx: nav.tx,
                    result: Err(CdpError::Navigation { kind }),
                },
            ],
        )
    } else {
        (navs, Seq::empty())
    }
}

/// The triage of a create-target response: the target id it names, or the
/// error the waiting creator is answered with.
pub open spec fn create_target_outcome(resp: Response) -> Result<Seq<char>, CdpError> {
    match spec_to_command_response(resp) {
        Ok(cr) => match spec_created_target_id(cr.result) {
            Some(tid) => Ok(tid),
            None => Err(CdpError::Serialization),
        },
        Err(e) => Err(e),
    }
}

/// Every pending call-id lies below the connection's next call-id.
pub open spec fn pending_bounded(m: Map<u64, PendingEntry>, next: u64) -> bool {
    forall|k: u64| #[trigger] m.contains_key(k) ==> k < next
}

/// Every live navigation id lies below the next navigation id.
pub open spec fn navs_bounded(m: Map<u64, NavigationRequest>, next: u64) -> bool {
    forall|n: u64| #[trigger] m.contains_key(n) ==> n < next
}

/// No two targets in the registry bear the same id.
pub open spec fn targets_unique(ts: Seq<Target>) -> bool {
    forall|i: int, j: int|
        0 <= i < j < ts.len() ==> (#[trigger] ts[i]).target_id@ != (#[trigger] ts[j]).target_id@
}

/// No two sessions in the table bear the same id.
pub open spec fn sessions_unique(ss: Seq<Session>) -> bool {
    forall|i: int, j: int|
        0 <= i < j < ss.len() ==> (#[trigger] ss[i]).session_id@ != (#[trigger] ss[j]).session_id@
}

/// A table that was bounded stays bounded when it gains one key below the
/// (possibly advanced) bound.
proof fn lemma_pending_bound_extend(
    pre: Map<u64, PendingEntry>,
    post: Map<u64, PendingEntry>,
    call_id: u64,
    pre_next: u64,
    post_next: u64,
)
    requires
        forall|k: u64| #[trigger] post.contains_key(k) ==> k == call_id || pre.contains_key(k),
        pending_bounded(pre, pre_next),
        call_id < post_next,
        pre_next <= post_next,
    ensures
        pending_bounded(post, post_next),
{
    assert forall|k: u64| #[trigger] post.contains_key(k) implies k < post_next by {
        if k != call_id {
            assert(pre.contains_key(k));
        }
    }
}

/// The navigation-table counterpart of the bound-extension lemma.
proof fn lemma_navs_bound_extend(
    pre: Map<u64, NavigationRequest>,
    post: Map<u64, NavigationRequest>,
    id: u64,
    pre_next: u64,
    post_next: u64,
)
    requires
        forall|n: u64| #[trigger] post.contains_key(n) ==> n == id || pre.contains_key(n),
        navs_bounded(pre, pre_next),
        id < post_next,
        pre_next <= post_next,
    ensures
        navs_bounded(post, post_next),
{
    assert forall|n: u64| #[trigger] post.contains_key(n) implies n < post_next by {
        if n != id {
            assert(pre.contains_key(n));
        }
    }
}

/// A table that was bounded stays bounded when it only loses or keeps keys.
proof fn lemma_navs_bound_shrink(
    pre: Map<u64, NavigationRequest>,
    post: Map<u64, NavigationRequest>,
    next: u64,
)
    requires
        forall|n: u64| #[trigger] post.contains_key(n) ==> pre.contains_key(n),
        navs_bounded(pre, next),
    ensures
        navs_bounded(post, next),
{
    assert forall|n: u64| #[trigger] post.contains_key(n) implies n < next by {
        assert(pre.contains_key(n));
    }
}

/// The event loop's state: every table the core owns. Nothing outside the
/// core mutates any of it.
pub struct Handler {
    /// Commands awaiting a response from the browser, keyed by call-id.
    pending_commands: PendingMap,
    /// The created targets, and the id list that fixes iteration order.
    targets: Vec<Target>,
    target_ids: Vec<String>,
    /// Navigations awaiting their second signal, keyed by navigation id.
    navigations: NavigationMap,
    /// The live sessions.
    sessions: Vec<Session>,
    /// The sending half of the browser connection.
    conn: Connection,
    /// The next navigation id to allocate.
    next_nav_id: u64,
    /// Pending commands older than this many milliseconds are evicted.
    request_timeout: u64,
}

impl Handler {
    /// The pending-command table.
    pub closed spec fn pending(self) -> Map<u64, PendingEntry> {
        pending_contents(self.pending_commands)
    }

    /// The navigation table.
    pub closed spec fn nav_table(self) -> Map<u64, NavigationRequest> {
        navigation_contents(self.navigations)
    }

    /// The target registry.
    pub closed spec fn targets_seq(self) -> Seq<Target> {
        self.targets@
    }

    /// The iteration-order list of target ids.
    pub closed spec fn target_id_list(self) -> Seq<String> {
        self.target_ids@
    }

    /// The session table.
    pub closed spec fn session_list(self) -> Seq<Session> {
        self.sessions@
    }

    /// The connection adapter.
    pub closed spec fn connection(self) -> Connection {
        self.conn
    }

    /// The next navigation id to allocate.
    pub closed spec fn nav_id_counter(self) -> u64 {
        self.next_nav_id
    }

    /// The command timeout in milliseconds.
    pub closed spec fn timeout_ms(self) -> u64 {
        self.request_timeout
    }

    /// The core's invariant: the connection is well formed, every pending
    /// call-id and every live navigation id is below its allocator, target
    /// and session ids are unique, and the id list and the registry hold the
    /// same ids as multisets.
    pub open spec fn wf(self) -> bool {
        &&& self.connection().wf()
        &&& pending_bounded(self.pending(), self.connection().next_call_id())
        &&& navs_bounded(self.nav_table(), self.nav_id_counter())
        &&& targets_unique(self.targets_seq())
        &&& sessions_unique(self.session_list())
        &&& id_views(self.target_id_list()).to_multiset() == target_id_views(
            self.targets_seq(),
        ).to_multiset()
    }

    /// Nothing about targets, their id list or sessions changed.
    pub open spec fn registry_same(pre: Handler, post: Handler) -> bool {
        &&& post.targets_seq() == pre.targets_seq()
        &&& post.target_id_list() == pre.target_id_list()
        &&& post.session_list() == pre.session_list()
    }

    /// Nothing about the navigation table or its id allocator changed.
    pub open spec fn nav_same(pre: Handler, post: Handler) -> bool {
        &&& post.nav_table() == pre.nav_table()
        &&& post.nav_id_counter() == pre.nav_id_counter()
    }

    /// The timeout configuration did not change.
    pub open spec fn config_same(pre: Handler, post: Handler) -> bool {
        post.timeout_ms() == pre.timeout_ms()
    }

    /// The pending table and the connection did not change.
    pub open spec fn commands_same(pre: Handler, post: Handler) -> bool {
        &&& post.pending() == pre.pending()
        &&& post.connection() == pre.connection()
    }

    /// A fresh core over a fresh connection. Its first act is to ask the
    /// browser to announce targets, so it returns the discover frame to put
    /// on the wire; that command awaits no reply, so it is not pending.
    pub fn new(first_call_id: u64, request_timeout: u64, discover_params: serde_json::Value)
        -> (r: (Handler, Option<OutgoingMessage>))
        ensures
            r.0.wf(),
            r.0.pending() == crate::pending::no_pending(),
            r.0.nav_table() == crate::navigation::no_navigations(),
            r.0.targets_seq() == Seq::<Target>::empty(),
            r.0.target_id_list() == Seq::<String>::empty(),
            r.0.session_list() == Seq::<Session>::empty(),
            r.0.nav_id_counter() == 0,
            r.0.timeout_ms() == request_timeout,
            first_call_id < u64::MAX ==> (r.1 matches Some(msg) && {
                &&& msg.id == first_call_id
                &&& msg.method@ == "Target.setDiscoverTargets"@
                &&& msg.params == discover_params
                &&& r.0.connection().next_call_id() == first_call_id + 1
            }),
            first_call_id == u64::MAX ==> r.1 is None,
    {
        let mut conn = Connection::new(first_call_id);
        let discover = conn.submit(
            String::from_str("Target.setDiscoverTargets"),
            None,
            discover_params,
        );
        let handler = Handler {
            pending_commands: PendingMap::new(),
            targets: Vec::new(),
            target_ids: Vec::new(),
            navigations: NavigationMap::new(),
            sessions: Vec::new(),
            conn,
            next_nav_id: 0,
            request_timeout,
        };
        proof {
            assert(id_views(handler.target_ids@) =~= target_id_views(handler.targets@));
        }
        match discover {
            Ok(msg) => (handler, Some(msg)),
            Err(_) => (handler, None),
        }
    }

    /// The index of the target with this id, if the registry holds one.
    fn find_target_index(&self, target_id: &String) -> (r: Option<usize>)
        ensures
            match r {
                Some(i) => 0 <= i < self.targets_seq().len()
                    && self.targets_seq()[i as int].target_id@ == target_id@,
                None => !has_target(self.targets_seq(), target_id@),
            },
    {
        let mut i: usize = 0;
        while i < self.targets.len()
            invariant
                0 <= i <= self.targets@.len(),
                forall|j: int| 0 <= j < i ==> (#[trigger] self.targets@[j]).target_id@ != target_id@,
            decreases self.targets@.len() - i,
        {
            if self.targets[i].target_id == *target_id {
                return Some(i);
            }
            i = i + 1;
        }
        None
    }

    /// The index of the session with this id, if the table holds one.
    fn find_session_index(&self, session_id: &String) -> (r: Option<usize>)
        ensures
            match r {
                Some(i) => 0 <= i < self.session_list().len()
                    && self.session_list()[i as int].session_id@ == session_id@,
                None => !has_session(self.session_list(), session_id@),
            },
    {
        let mut i: usize = 0;
        while i < self.sessions.len()
            invariant
                0 <= i <= self.sessions@.len(),
                forall|j: int| 0 <= j < i ==> (#[trigger] self.sessions@[j]).session_id@
                    != session_id@,
            decreases self.sessions@.len() - i,
        {
            if self.sessions[i].session_id == *session_id {
                return Some(i);
            }
            i = i + 1;
        }
        None
    }

    /// The target with the matching id.
    pub fn get_target(&self, target_id: &String) -> (r: Option<&Target>)
        ensures
            match r {
                Some(t) => has_target(self.targets_seq(), target_id@) && t.target_id@
                    == target_id@ && self.targets_seq().contains(*t),
                None => !has_target(self.targets_seq(), target_id@),
            },
    {
        match self.find_target_index(target_id) {
            Some(i) => {
                let t = &self.targets[i];
                proof {
                    assert(self.targets_seq()[i as int] == *t);
                }
                Some(t)
            },
            None => None,
        }
    }

    /// All currently attached targets, in registry order.
    pub fn targets(&self) -> (r: &Vec<Target>)
        ensures
            r@ == self.targets_seq(),
    {
        &self.targets
    }

    /// Puts one external command on the wire and records it as pending under
    /// its fresh call-id. A refused submission (the connection's id space is
    /// exhausted) is the terminal transport error: nothing is sent on the
    /// caller's reply handle and the error propagates upward.
    #[verifier::rlimit(50)]
    pub fn submit_external_command(
        &mut self,
        msg: CommandMessage,
        now: u64,
        effects: &mut Vec<Effect>,
    ) -> (r: Result<(), CdpError>)
        requires
            old(self).wf(),
        ensures
            final(self).wf(),
            Handler::registry_same(*old(self), *final(self)),
            Handler::nav_same(*old(self), *final(self)),
            Handler::config_same(*old(self), *final(self)),
            r is Ok <==> old(self).connection().next_call_id() < u64::MAX,
            old(self).connection().next_call_id() < u64::MAX ==> {
                &&& final(self).pending() == old(self).pending().insert(
                    old(self).connection().next_call_id(),
                    (PendingEntry {
                        request: PendingRequest::ExternalCommand { tx: msg.sender },
                        issued_at: now,
                    }),
                )
                &&& final(effects)@ == old(effects)@.push(Effect::Send(OutgoingMessage {
                    id: old(self).connection().next_call_id(),
                    method: msg.method,
                    session_id: msg.session_id,
                    params: msg.params,
                }))
                &&& final(self).connection().next_call_id() == old(self).connection().next_call_id() + 1
            },
            old(self).connection().next_call_id() == u64::MAX ==> r == Err::<(), CdpError>(
                CdpError::Transport,
            ) && *final(self) == *old(self) && final(effects)@ == old(effects)@,
    {
        let CommandMessage { method, session_id, params, sender } = msg;
        match self.conn.submit(method, session_id, params) {
            Ok(out) => {
                let call_id = out.id;
                self.pending_commands.insert(
                    call_id,
                    PendingEntry {
                        request: PendingRequest::ExternalCommand { tx: sender },
                        issued_at: now,
                    },
                );
                effects.push(Effect::Send(out));
                proof {
                    lemma_pending_bound_extend(
                        old(self).pending(),
                        self.pending(),
                        call_id,
                        old(self).connection().next_call_id(),
                        self.connection().next_call_id(),
                    );
                    assert(self.nav_table() == old(self).nav_table());
                    assert(self.session_list() == old(self).session_list());
                }
                Ok(())
            },
            Err(e) => Err(e),
        }
    }

    /// Puts one internal command of a target on the wire and records it as
    /// pending. A refused submission is the terminal transport error and
    /// propagates upward; nothing else changes.
    #[verifier::rlimit(50)]
    pub fn submit_internal_command(
        &mut self,
        target_id: String,
        req: CdpRequest,
        now: u64,
        effects: &mut Vec<Effect>,
    ) -> (r: Result<(), CdpError>)
        requires
            old(self).wf(),
        ensures
            final(self).wf(),
            Handler::registry_same(*old(self), *final(self)),
            Handler::nav_same(*old(self), *final(self)),
            Handler::config_same(*old(self), *final(self)),
            r is Ok <==> old(self).connection().next_call_id() < u64::MAX,
            old(self).connection().next_call_id() < u64::MAX ==> {
                &&& final(self).pending() == old(self).pending().insert(
                    old(self).connection().next_call_id(),
                    (PendingEntry {
                        request: PendingRequest::InternalCommand { target_id },
                        issued_at: now,
                    }),
                )
                &&& final(effects)@ == old(effects)@.push(Effect::Send(OutgoingMessage {
                    id: old(self).connection().next_call_id(),
                    method: req.method,
                    session_id: req.session_id,
                    params: req.params,
                }))
                &&& final(self).connection().next_call_id() == old(self).connection().next_call_id() + 1
            },
            old(self).connection().next_call_id() == u64::MAX ==> r == Err::<(), CdpError>(
                CdpError::Transport,
            ) && *final(self) == *old(self) && final(effects)@ == old(effects)@,
    {
        let CdpRequest { method, session_id, params } = req;
        match self.conn.submit(method, session_id, params) {
            Ok(out) => {
                let call_id = out.id;
                self.pending_commands.insert(
                    call_id,
                    PendingEntry {
                        request: PendingRequest::InternalCommand { target_id },
                        issued_at: now,
                    },
                );
                effects.push(Effect::Send(out));
                proof {
                    lemma_pending_bound_extend(
                        old(self).pending(),
                        self.pending(),
                        call_id,
                        old(self).connection().next_call_id(),
                        self.connection().next_call_id(),
                    );
                    assert(self.nav_table() == old(self).nav_table());
                    assert(self.session_list() == old(self).session_list());
                }
                Ok(())
            },
            Err(e) => Err(e),
        }
    }

    /// Puts the navigate command of a navigation on the wire and records it
    /// as pending. A refused submission is the terminal transport error and
    /// propagates upward; the navigation entry stays untouched and its
    /// caller's reply handle is not written to.
    #[verifier::rlimit(50)]
    pub fn submit_navigation(&mut self, id: u64, req: CdpRequest, now: u64, effects: &mut Vec<
        Effect,
    >) -> (r: Result<(), CdpError>)
        requires
            old(self).wf(),
        ensures
            final(self).wf(),
            Handler::registry_same(*old(self), *final(self)),
            Handler::config_same(*old(self), *final(self)),
            Handler::nav_same(*old(self), *final(self)),
            r is Ok <==> old(self).connection().next_call_id() < u64::MAX,
            old(self).connection().next_call_id() < u64::MAX ==> {
                &&& final(self).pending() == old(self).pending().insert(
                    old(self).connection().next_call_id(),
                    (PendingEntry {
                        request: PendingRequest::Navigate { navigation_id: id },
                        issued_at: now,
                    }),
                )
                &&& final(effects)@ == old(effects)@.push(Effect::Send(OutgoingMessage {
                    id: old(self).connection().next_call_id(),
                    method: req.method,
                    session_id: req.session_id,
                    params: req.params,
                }))
                &&& final(self).connection().next_call_id() == old(self).connection().next_call_id() + 1
            },
            old(self).connection().next_call_id() == u64::MAX ==> r == Err::<(), CdpError>(
                CdpError::Transport,
            ) && *final(self) == *old(self) && final(effects)@ == old(effects)@,
    {
        let CdpRequest { method, session_id, params } = req;
        match self.conn.submit(method, session_id, params) {
            Ok(out) => {
                let call_id = out.id;
                self.pending_commands.insert(
                    call_id,
                    PendingEntry {
                        request: PendingRequest::Navigate { navigation_id: id },
                        issued_at: now,
                    },
                );
                effects.push(Effect::Send(out));
                proof {
                    lemma_pending_bound_extend(
                        old(self).pending(),
                        self.pending(),
                        call_id,
                        old(self).connection().next_call_id(),
                        self.connection().next_call_id(),
                    );
                    assert(self.nav_table() == old(self).nav_table());
                    assert(self.session_list() == old(self).session_list());
                }
                Ok(())
            },
            Err(e) => Err(e),
        }
    }

    /// Allocates the next navigation id; none once the id space is
    /// exhausted, so a live navigation is never collided with.
    pub fn next_navigation_id(&mut self) -> (r: Option<u64>)
        requires
            old(self).wf(),
        ensures
            final(self).wf(),
            Handler::registry_same(*old(self), *final(self)),
            Handler::config_same(*old(self), *final(self)),
            Handler::commands_same(*old(self), *final(self)),
            final(self).nav_table() == old(self).nav_table(),
            old(self).nav_id_counter() < u64::MAX ==> r == Some(old(self).nav_id_counter())
                && final(self).nav_id_counter() == old(self).nav_id_counter() + 1,
            old(self).nav_id_counter() == u64::MAX ==> r is None && *final(self) == *old(self),
    {
        if self.next_nav_id == u64::MAX {
            return None;
        }
        let id = self.next_nav_id;
        self.next_nav_id = self.next_nav_id + 1;
        proof {
            assert(self.nav_table() == old(self).nav_table());
            lemma_navs_bound_shrink(
                old(self).nav_table(),
                self.nav_table(),
                self.nav_id_counter(),
            );
            assert(self.pending() == old(self).pending());
            assert(self.session_list() == old(self).session_list());
        }
        Some(id)
    }

    /// Asks the browser for a new target and records the waiting creator
    /// under the command's call-id; if the connection's id space is
    /// exhausted, answers the creator with the terminal transport error.
    #[verifier::rlimit(50)]
    pub fn create_page(&mut self, params: serde_json::Value, tx: u64, now: u64, effects: &mut Vec<
        Effect,
    >)
        requires
            old(self).wf(),
        ensures
            final(self).wf(),
            Handler::registry_same(*old(self), *final(self)),
            Handler::nav_same(*old(self), *final(self)),
            Handler::config_same(*old(self), *final(self)),
            old(self).connection().next_call_id() < u64::MAX ==> {
                &&& final(self).pending() == old(self).pending().insert(
                    old(self).connection().next_call_id(),
                    (PendingEntry {
                        request: PendingRequest::CreateTarget { tx },
                        issued_at: now,
                    }),
                )
                &&& exists|method: String|
                    #[trigger] method@ == create_target_method() && final(effects)@ == old(effects)@.push(Effect::Send(OutgoingMessage {
                        id: old(self).connection().next_call_id(),
                        method,
                        session_id: None,
                        params,
                    }))
                &&& final(self).connection().next_call_id() == old(self).connection().next_call_id() + 1
            },
            old(self).connection().next_call_id() == u64::MAX ==> {
                &&& Handler::commands_same(*old(self), *final(self))
                &&& final(effects)@ == old(effects)@.push(Effect::CompletePage {
                    tx,
                    result: Err(CdpError::Transport),
                })
            },
    {
        let method = String::from_str("Target.createTarget");
        match self.conn.submit(method, None, params) {
            Ok(out) => {
                let call_id = out.id;
                self.pending_commands.insert(
                    call_id,
                    PendingEntry { request: PendingRequest::CreateTarget { tx }, issued_at: now },
                );
                effects.push(Effect::Send(out));
                proof {
                    lemma_pending_bound_extend(
                        old(self).pending(),
                        self.pending(),
                        call_id,
                        old(self).connection().next_call_id(),
                        self.connection().next_call_id(),
                    );
                    assert(self.nav_table() == old(self).nav_table());
                    assert(self.session_list() == old(self).session_list());
                }
            },
            Err(_) => {
                effects.push(Effect::CompletePage { tx, result: Err(CdpError::Transport) });
            },
        }
    }

    /// The navigate command's reply arrived (routed here by call-id): hand
    /// it to the navigation coordinator.
    #[verifier::rlimit(50)]
    pub fn on_navigation_response(&mut self, id: u64, resp: Response, effects: &mut Vec<Effect>)
        requires
            old(self).wf(),
        ensures
            final(self).wf(),
            Handler::registry_same(*old(self), *final(self)),
            Handler::config_same(*old(self), *final(self)),
            Handler::commands_same(*old(self), *final(self)),
            final(self).nav_id_counter() == old(self).nav_id_counter(),
            final(self).nav_table() == nav_response_step(old(self).nav_table(), id, resp).0,
            final(effects)@ == old(effects)@ + nav_response_step(old(self).nav_table(), id, resp).1,
    {
        match self.navigations.remove(id) {
            Some(NavigationRequest::Goto(mut nav)) => {
                if nav.navigated {
                    let tx = nav.tx;
                    effects.push(Effect::CompleteCommand { tx, result: Ok(resp) });
                    proof {
                        assert(final(effects)@ =~= old(effects)@ + nav_response_step(
                            old(self).nav_table(),
                            id,
                            resp,
                        ).1);
                    }
                } else {
                    nav.set_response(resp);
                    self.navigations.insert(id, NavigationRequest::Goto(nav));
                    proof {
                        assert(self.nav_table() =~= nav_response_step(
                            old(self).nav_table(),
                            id,
                            resp,
                        ).0);
                        assert(final(effects)@ =~= old(effects)@ + Seq::<Effect>::empty());
                    }
                }
            },
            None => {
                proof {
                    assert(self.nav_table() =~= old(self).nav_table());
                    assert(final(effects)@ =~= old(effects)@ + Seq::<Effect>::empty());
                }
            },
        }
        proof {
            lemma_navs_bound_shrink(
                old(self).nav_table(),
                self.nav_table(),
                self.nav_id_counter(),
            );
            assert(self.pending() == old(self).pending());
            assert(self.session_list() == old(self).session_list());
        }
    }

    /// The frame lifecycle settled a navigation: on success, answer the
    /// caller if the command's reply is already stored, else record the
    /// completion; on failure, answer the caller with the failure at once.
    #[verifier::rlimit(50)]
    pub fn on_navigation_lifecycle_completed(
        &mut self,
        res: Result<NavigationOk, NavigationError>,
        effects: &mut Vec<Effect>,
    )
        requires
            old(self).wf(),
        ensures
            final(self).wf(),
            Handler::registry_same(*old(self), *final(self)),
            Handler::config_same(*old(self), *final(self)),
            Handler::commands_same(*old(self), *final(self)),
            final(self).nav_id_counter() == old(self).nav_id_counter(),
            res matches Ok(ok) ==> final(self).nav_table() == nav_lifecycle_ok_step(
                old(self).nav_table(),
                ok.navigation_id,
            ).0 && final(effects)@ == old(effects)@ + nav_lifecycle_ok_step(
                old(self).nav_table(),
                ok.navigation_id,
            ).1,
            res matches Err(err) ==> final(self).nav_table() == nav_lifecycle_err_step(
                old(self).nav_table(),
                err.navigation_id,
                err.kind,
            ).0 && final(effects)@ == old(effects)@ + nav_lifecycle_err_step(
                old(self).nav_table(),
                err.navigation_id,
                err.kind,
            ).1,
    {
        match res {
            Ok(ok) => {
                let id = ok.navigation_id;
                match self.navigations.remove(id) {
                    Some(NavigationRequest::Goto(mut nav)) => {
                        match nav.response {
                            Some(resp) => {
                                let tx = nav.tx;
                                effects.push(Effect::CompleteCommand { tx, result: Ok(resp) });
                                proof {
                                    assert(final(effects)@ =~= old(effects)@
                                        + nav_lifecycle_ok_step(old(self).nav_table(), id).1);
                                }
                            },
                            None => {
                                nav.set_navigated();
                                self.navigations.insert(id, NavigationRequest::Goto(nav));
                                proof {
                                    assert(self.nav_table() =~= nav_lifecycle_ok_step(
                                        old(self).nav_table(),
                                        id,
                                    ).0);
                                    assert(final(effects)@ =~= old(effects)@
                                        + Seq::<Effect>::empty());
                                }
                            },
                        }
                    },
                    None => {
                        proof {
                            assert(self.nav_table() =~= old(self).nav_table());
                            assert(final(effects)@ =~= old(effects)@ + Seq::<Effect>::empty());
                        }
                    },
                }
                proof {
                    lemma_navs_bound_shrink(
                        old(self).nav_table(),
                        self.nav_table(),
                        self.nav_id_counter(),
                    );
                    assert(self.pending() == old(self).pending());
                    assert(self.session_list() == old(self).session_list());
                }
            },
            Err(err) => {
                let NavigationError { navigation_id, kind } = err;
                match self.navigations.remove(navigation_id) {
                    Some(NavigationRequest::Goto(nav)) => {
                        effects.push(Effect::CompleteCommand {
                            tx: nav.tx,
                            result: Err(CdpError::Navigation { kind }),
                        });
                    },
                    None => {},
                }
                proof {
                    if !old(self).nav_table().contains_key(navigation_id) {
                        assert(old(self).nav_table().remove(navigation_id) =~= old(self).nav_table());
                    }
                    assert(final(effects)@ =~= old(effects)@ + nav_lifecycle_err_step(
                        old(self).nav_table(),
                        navigation_id,
                        err.kind,
                    ).1);
                    lemma_navs_bound_shrink(
                        old(self).nav_table(),
                        self.nav_table(),
                        self.nav_id_counter(),
                    );
                    assert(self.pending() == old(self).pending());
                    assert(self.session_list() == old(self).session_list());
                }
            },
        }
    }

    /// A response arrived: take its pending entry by call-id and dispatch by
    /// intent. A response whose call-id is no longer pending (already
    /// answered or evicted) is dropped without any other change.
    #[verifier::rlimit(100)]
    pub fn on_response(&mut self, resp: Response, effects: &mut Vec<Effect>)
        requires
            old(self).wf(),
        ensures
            final(self).wf(),
            Handler::config_same(*old(self), *final(self)),
            final(self).connection() == old(self).connection(),
            final(self).nav_id_counter() == old(self).nav_id_counter(),
            final(self).target_id_list() == old(self).target_id_list(),
            final(self).session_list() == old(self).session_list(),
            final(self).pending() == old(self).pending().remove(resp.id),
            !old(self).pending().contains_key(resp.id) ==> final(self).targets_seq() == old(self).targets_seq() && final(self).nav_table() == old(self).nav_table() && final(effects)@
                == old(effects)@,
            old(self).pending().contains_key(resp.id) ==> match old(self).pending()[resp.id as u64].request {
                PendingRequest::ExternalCommand { tx } => {
                    &&& final(self).targets_seq() == old(self).targets_seq()
                    &&& final(self).nav_table() == old(self).nav_table()
                    &&& final(effects)@ == old(effects)@.push(Effect::CompleteCommand {
                        tx,
                        result: Ok(resp),
                    })
                },
                PendingRequest::InternalCommand { target_id } => {
                    &&& final(self).nav_table() == old(self).nav_table()
                    &&& final(effects)@ == old(effects)@
                    &&& if has_target(old(self).targets_seq(), target_id@) {
                        exists|i: int|
                            0 <= i < old(self).targets_seq().len() && (#[trigger] old(self).targets_seq()[i]).target_id@ == target_id@ && final(self).targets_seq() == old(self).targets_seq().update(
                                i,
                                (Target {
                                    responses: final(self).targets_seq()[i].responses,
                                    ..old(self).targets_seq()[i]
                                }),
                            ) && final(self).targets_seq()[i].responses@ == old(self).targets_seq()[i].responses@.push(resp)
                    } else {
                        final(self).targets_seq() == old(self).targets_seq()
                    }
                },
                PendingRequest::Navigate { navigation_id } => {
                    &&& final(self).targets_seq() == old(self).targets_seq()
                    &&& final(self).nav_table() == nav_response_step(
                        old(self).nav_table(),
                        navigation_id,
                        resp,
                    ).0
                    &&& final(effects)@ == old(effects)@ + nav_response_step(
                        old(self).nav_table(),
                        navigation_id,
                        resp,
                    ).1
                },
                PendingRequest::CreateTarget { tx } => {
                    &&& final(self).nav_table() == old(self).nav_table()
                    &&& match create_target_outcome(resp) {
                        Ok(tid) => {
                            if has_target(old(self).targets_seq(), tid) {
                                &&& exists|i: int|
                                    0 <= i < old(self).targets_seq().len() && (#[trigger] old(self).targets_seq()[i]).target_id@ == tid && final(self).targets_seq() == old(self).targets_seq().update(
                                        i,
                                        (Target {
                                            initiator: Some(tx),
                                            ..old(self).targets_seq()[i]
                                        }),
                                    )
                                &&& final(effects)@ == old(effects)@
                            } else {
                                &&& final(self).targets_seq() == old(self).targets_seq()
                                &&& final(effects)@ == old(effects)@.push(Effect::CompletePage {
                                    tx,
                                    result: Err(CdpError::UnknownTarget),
                                })
                            }
                        },
                        Err(e) => {
                            &&& final(self).targets_seq() == old(self).targets_seq()
                            &&& final(effects)@ == old(effects)@.push(Effect::CompletePage {
                                tx,
                                result: Err(e),
                            })
                        },
                    }
                },
            },
    {
        let id = resp.id;
        let removed = self.pending_commands.remove(id);
        proof {
            assert forall|k: u64| #[trigger] self.pending().contains_key(k)
                implies k < self.connection().next_call_id() by {
                assert(old(self).pending().contains_key(k));
            }
            assert(self.nav_table() == old(self).nav_table());
            assert(forall|n: u64| #[trigger] self.nav_table().contains_key(n)
                ==> n < self.nav_id_counter());
            assert(self.session_list() == old(self).session_list());
            assert(forall|i: int, j: int|
                0 <= i < j < self.session_list().len() ==> (
                #[trigger] self.session_list()[i]).session_id@ != (
                #[trigger] self.session_list()[j]).session_id@);
            assert(self.targets_seq() == old(self).targets_seq());
            assert(self.target_id_list() == old(self).target_id_list());
            assert(self.wf());
        }
        match removed {
            None => {},
            Some(entry) => match entry.request {
                PendingRequest::ExternalCommand { tx } => {
                    effects.push(Effect::CompleteCommand { tx, result: Ok(resp) });
                },
                PendingRequest::InternalCommand { target_id } => {
                    // The response of an internal command goes back to the
                    // issuing target; a destroyed target's responses are
                    // discarded.
                    match self.find_target_index(&target_id) {
                        Some(i) => {
                            let mut t = self.targets.remove(i);
                            t.on_response(resp);
                            self.targets.insert(i, t);
                            proof {
                                let pre = old(self).targets_seq();
                                let post = self.targets_seq();
                                assert(post =~= pre.update(i as int, post[i as int]));
                                assert(forall|j: int|
                                    0 <= j < post.len() ==> (#[trigger] post[j]).target_id@
                                        == pre[j].target_id@);
                                assert(targets_unique(post));
                                assert(target_id_views(post) =~= target_id_views(pre));
                            }
                        },
                        None => {},
                    }
                },
                PendingRequest::Navigate { navigation_id } => {
                    self.on_navigation_response(navigation_id, resp, effects);
                },
                PendingRequest::CreateTarget { tx } => {
                    match to_command_response(resp) {
                        Ok(cr) => {
                            match created_target_id(&cr.result) {
                                Some(tid) => {
                                    match self.find_target_index(&tid) {
                                        Some(i) => {
                                            let mut t = self.targets.remove(i);
                                            t.set_initiator(tx);
                                            self.targets.insert(i, t);
                                            proof {
                                                let pre = old(self).targets_seq();
                                                let post = self.targets_seq();
                                                assert(post =~= pre.update(
                                                    i as int,
                                                    (Target {
                                                        initiator: Some(tx),
                                                        ..pre[i as int]
                                                    }),
                                                ));
                                                assert(forall|j: int|
                                                    0 <= j < post.len() ==> (#[trigger] post[j])
                                                        .target_id@ == pre[j].target_id@);
                                                assert(forall|a: int, b: int|
                                                    0 <= a < b < post.len() ==> (
                                                    #[trigger] post[a]).target_id@ != (
                                                    #[trigger] post[b]).target_id@);
                                                assert(target_id_views(post) =~= target_id_views(
                                                    pre,
                                                ));
                                            }
                                        },
                                        None => {
                                            effects.push(Effect::CompletePage {
                                                tx,
                                                result: Err(CdpError::UnknownTarget),
                                            });
                                        },
                                    }
                                },
                                None => {
                                    effects.push(Effect::CompletePage {
                                        tx,
                                        result: Err(CdpError::Serialization),
                                    });
                                },
                            }
                        },
                        Err(e) => {
                            effects.push(Effect::CompletePage { tx, result: Err(e) });
                        },
                    }
                },
            },
        }
    }

    /// A message forwarded by a target: a navigation command is handed to
    /// the target's navigation sub-machine under a fresh navigation id, and
    /// anything else is submitted as an external command. An exhausted id
    /// space is the terminal transport error and propagates upward; nothing
    /// is sent on the message's reply handle.
    #[verifier::rlimit(100)]
    pub fn on_target_message(
        &mut self,
        target: &mut Target,
        msg: CommandMessage,
        now: u64,
        effects: &mut Vec<Effect>,
    ) -> (r: Result<(), CdpError>)
        requires
            old(self).wf(),
        ensures
            final(self).wf(),
            Handler::registry_same(*old(self), *final(self)),
            Handler::config_same(*old(self), *final(self)),
            final(target).work() <= old(target).work() + 1,
            final(target).inbox == old(target).inbox,
            final(target).init_requests == old(target).init_requests,
            msg.method@ == crate::wire::navigate_method() ==> {
                &&& Handler::commands_same(*old(self), *final(self))
                &&& old(self).nav_id_counter() < u64::MAX ==> {
                    &&& *final(target) == (Target {
                        nav: crate::target::NavState::Requested {
                            navigation_id: old(self).nav_id_counter(),
                            request: CdpRequest {
                                method: msg.method,
                                session_id: msg.session_id,
                                params: msg.params,
                            },
                        },
                        ..*old(target)
                    })
                    &&& final(self).nav_table() == old(self).nav_table().insert(
                        old(self).nav_id_counter(),
                        NavigationRequest::Goto(NavigationInProgress {
                            navigated: false,
                            response: None,
                            tx: msg.sender,
                        }),
                    )
                    &&& final(self).nav_id_counter() == old(self).nav_id_counter() + 1
                    &&& final(effects)@ == old(effects)@
                }
                &&& r is Ok <==> old(self).nav_id_counter() < u64::MAX
                &&& old(self).nav_id_counter() == u64::MAX ==> {
                    &&& r == Err::<(), CdpError>(CdpError::Transport)
                    &&& *final(target) == *old(target)
                    &&& *final(self) == *old(self)
                    &&& final(effects)@ == old(effects)@
                }
            },
            msg.method@ != crate::wire::navigate_method() ==> {
                &&& *final(target) == *old(target)
                &&& Handler::nav_same(*old(self), *final(self))
                &&& old(self).connection().next_call_id() < u64::MAX ==> {
                    &&& final(self).pending() == old(self).pending().insert(
                        old(self).connection().next_call_id(),
                        (PendingEntry {
                            request: PendingRequest::ExternalCommand { tx: msg.sender },
                            issued_at: now,
                        }),
                    )
                    &&& final(effects)@ == old(effects)@.push(Effect::Send(OutgoingMessage {
                        id: old(self).connection().next_call_id(),
                        method: msg.method,
                        session_id: msg.session_id,
                        params: msg.params,
                    }))
                    &&& final(self).connection().next_call_id() == old(self).connection().next_call_id() + 1
                }
                &&& r is Ok <==> old(self).connection().next_call_id() < u64::MAX
                &&& old(self).connection().next_call_id() == u64::MAX ==> {
                    &&& r == Err::<(), CdpError>(CdpError::Transport)
                    &&& *final(self) == *old(self)
                    &&& final(effects)@ == old(effects)@
                }
            },
    {
        if msg.is_navigation() {
            let (req, tx) = msg.split();
            match self.next_navigation_id() {
                Some(id) => {
                    target.goto(id, req);
                    self.navigations.insert(
                        id,
                        NavigationRequest::Goto(NavigationInProgress::new(tx)),
                    );
                    proof {
                        lemma_navs_bound_extend(
                            old(self).nav_table(),
                            self.nav_table(),
                            id,
                            old(self).nav_id_counter(),
                            self.nav_id_counter(),
                        );
                        assert(self.pending() == old(self).pending());
                        assert(self.session_list() == old(self).session_list());
                    }
                    Ok(())
                },
                None => Err(CdpError::Transport),
            }
        } else {
            self.submit_external_command(msg, now, effects)
        }
    }

    /// One page handle per target that can produce one, in registry order;
    /// producing a handle marks the target's page as created.
    #[verifier::rlimit(100)]
    pub fn collect_pages(&mut self) -> (pages: Vec<String>)
        requires
            old(self).wf(),
        ensures
            final(self).wf(),
            Handler::commands_same(*old(self), *final(self)),
            Handler::nav_same(*old(self), *final(self)),
            Handler::config_same(*old(self), *final(self)),
            final(self).session_list() == old(self).session_list(),
            final(self).target_id_list() == old(self).target_id_list(),
            final(self).targets_seq().len() == old(self).targets_seq().len(),
            forall|j: int|
                0 <= j < final(self).targets_seq().len() ==> #[trigger] final(self).targets_seq()[
                    j
                ] == (Target {
                    page_created: old(self).targets_seq()[j].page_created || old(self).targets_seq()[j].session_id is Some,
                    ..old(self).targets_seq()[j]
                }),
            pages@ == ready_pages(old(self).targets_seq()),
    {
        let ghost pre = old(self).targets_seq();
        let mut pages: Vec<String> = Vec::new();
        let mut i: usize = 0;
        proof {
            assert(ready_pages(pre.subrange(0, 0)) =~= Seq::<String>::empty());
        }
        while i < self.targets.len()
            invariant
                0 <= i <= self.targets@.len(),
                self.targets@.len() == pre.len(),
                forall|j: int|
                    0 <= j < i ==> #[trigger] self.targets@[j] == (Target {
                        page_created: pre[j].page_created || pre[j].session_id is Some,
                        ..pre[j]
                    }),
                forall|j: int| i <= j < pre.len() ==> #[trigger] self.targets@[j] == pre[j],
                pages@ == ready_pages(pre.subrange(0, i as int)),
                target_id_views(self.targets_seq()) == target_id_views(pre),
                self.wf(),
                old(self).pending() == self.pending(),
                old(self).connection() == self.connection(),
                old(self).nav_table() == self.nav_table(),
                old(self).nav_id_counter() == self.nav_id_counter(),
                old(self).timeout_ms() == self.timeout_ms(),
                old(self).session_list() == self.session_list(),
                old(self).target_id_list() == self.target_id_list(),
            decreases self.targets@.len() - i,
        {
            let ghost snap = self.targets@;
            let ghost pages_snap = pages@;
            let mut t = self.targets.remove(i);
            let page = t.get_or_create_page();
            self.targets.insert(i, t);
            match page {
                Some(id) => pages.push(id),
                None => {},
            }
            proof {
                assert(self.targets@ =~= snap.update(i as int, self.targets@[i as int]));
                assert(snap[i as int] == pre[i as int]);
                assert(pre.subrange(0, i + 1).drop_last() =~= pre.subrange(0, i as int));
                assert(pre.subrange(0, i + 1).last() == pre[i as int]);
                assert(pages@ == ready_pages(pre.subrange(0, i + 1)));
                assert(forall|j: int|
                    0 <= j < self.targets@.len() ==> (#[trigger] self.targets@[j]).target_id@
                        == pre[j].target_id@);
                assert(targets_unique(self.targets_seq()));
                assert(target_id_views(self.targets_seq()) =~= target_id_views(pre));
            }
            i = i + 1;
        }
        proof {
            assert(pre.subrange(0, pre.len() as int) =~= pre);
        }
        pages
    }

    /// Evicts every pending command older than the timeout: its caller (if
    /// any is waiting) is answered with the timeout error, an evicted
    /// navigation command also fails its navigation, and fresh entries stay.
    #[verifier::rlimit(100)]
    pub fn evict_expired(&mut self, now: u64, effects: &mut Vec<Effect>)
        requires
            old(self).wf(),
        ensures
            final(self).wf(),
            Handler::registry_same(*old(self), *final(self)),
            Handler::config_same(*old(self), *final(self)),
            final(self).connection() == old(self).connection(),
            final(self).nav_id_counter() == old(self).nav_id_counter(),
            forall|k: u64|
                #[trigger] final(self).pending().contains_key(k) <==> (old(self).pending().contains_key(k) && !expired(
                    old(self).pending()[k],
                    now,
                    old(self).timeout_ms(),
                )),
            forall|k: u64|
                #[trigger] final(self).pending().contains_key(k) ==> final(self).pending()[k]
                    == old(self).pending()[k],
            forall|n: u64|
                #[trigger] final(self).nav_table().contains_key(n) ==> old(self).nav_table().contains_key(n) && final(self).nav_table()[n] == old(self).nav_table()[n],
            final(effects)@.len() >= old(effects)@.len(),
            forall|i: int|
                0 <= i < old(effects)@.len() ==> #[trigger] final(effects)@[i] == old(effects)@[i],
            forall|i: int|
                old(effects)@.len() <= i < final(effects)@.len() ==> is_timeout_completion(
                    #[trigger] final(effects)@[i],
                ),
            forall|k: u64|
                old(self).pending().contains_key(k) && expired(
                    #[trigger] old(self).pending()[k],
                    now,
                    old(self).timeout_ms(),
                ) ==> match old(self).pending()[k].request {
                    PendingRequest::ExternalCommand { tx } => exists|i: int|
                        old(effects)@.len() <= i < final(effects)@.len() && #[trigger] final(effects)@[i] == (Effect::CompleteCommand { tx, result: Err(CdpError::Timeout) }),
                    PendingRequest::CreateTarget { tx } => exists|i: int|
                        old(effects)@.len() <= i < final(effects)@.len() && #[trigger] final(effects)@[i] == (Effect::CompletePage { tx, result: Err(CdpError::Timeout) }),
                    PendingRequest::Navigate { navigation_id } => {
                        &&& !final(self).nav_table().contains_key(navigation_id)
                        &&& old(self).nav_table().contains_key(navigation_id) ==> exists|i: int|
                            old(effects)@.len() <= i < final(effects)@.len() && #[trigger] final(effects)@[i] == (Effect::CompleteCommand {
                                tx: old(self).nav_table()[navigation_id]->0.tx,
                                result: Err(CdpError::Timeout),
                            })
                    },
                    _ => true,
                },
    {
        let timeout = self.request_timeout;
        let mut entries = self.pending_commands.drain();
        let ghost pre_pending = old(self).pending();
        let ghost pre_next = old(self).connection().next_call_id();
        let ghost pre_effects = old(effects)@;
        while entries.len() > 0
            invariant
                self.wf(),
                Handler::registry_same(*old(self), *self),
                Handler::config_same(*old(self), *self),
                self.connection() == old(self).connection(),
                self.nav_id_counter() == old(self).nav_id_counter(),
                timeout == old(self).timeout_ms(),
                pre_pending == old(self).pending(),
                pre_next == old(self).connection().next_call_id(),
                pending_bounded(pre_pending, pre_next),
                self.connection().next_call_id() == pre_next,
                // the drained entries still to process
                forall|i: int, j: int|
                    0 <= i < j < entries@.len() ==> (#[trigger] entries@[i]).0 != (
                    #[trigger] entries@[j]).0,
                forall|i: int|
                    0 <= i < entries@.len() ==> pre_pending.contains_key(
                        (#[trigger] entries@[i]).0,
                    ) && pre_pending[entries@[i].0] == entries@[i].1,
                // entries processed so far
                forall|k: u64|
                    #[trigger] self.pending().contains_key(k) ==> pre_pending.contains_key(k)
                        && self.pending()[k] == pre_pending[k] && !expired(
                        pre_pending[k],
                        now,
                        timeout,
                    ),
                forall|i: int|
                    0 <= i < entries@.len() ==> !self.pending().contains_key(
                        (#[trigger] entries@[i]).0,
                    ),
                forall|k: u64|
                    pre_pending.contains_key(k) ==> (exists|i: int|
                        0 <= i < entries@.len() && (#[trigger] entries@[i]).0 == k) || (!expired(
                        pre_pending[k],
                        now,
                        timeout,
                    ) ==> self.pending().contains_key(k)),
                forall|k: u64|
                    pre_pending.contains_key(k) && expired(
                        #[trigger] pre_pending[k],
                        now,
                        timeout,
                    ) && !(exists|i: int| 0 <= i < entries@.len() && (#[trigger] entries@[i]).0
                        == k) ==> match pre_pending[k].request {
                        PendingRequest::ExternalCommand { tx } => exists|i: int|
                            pre_effects.len() <= i < effects@.len() && #[trigger] effects@[i] == (
                            Effect::CompleteCommand { tx, result: Err(CdpError::Timeout) }),
                        PendingRequest::CreateTarget { tx } => exists|i: int|
                            pre_effects.len() <= i < effects@.len() && #[trigger] effects@[i] == (
                            Effect::CompletePage { tx, result: Err(CdpError::Timeout) }),
                        PendingRequest::Navigate { navigation_id } => !self.nav_table(
                        ).contains_key(navigation_id),
                        _ => true,
                    },
                // a navigation dropped by this sweep answered its caller
                forall|n: u64|
                    old(self).nav_table().contains_key(n) && !(#[trigger] self.nav_table(
                    ).contains_key(n)) ==> exists|i: int|
                        pre_effects.len() <= i < effects@.len() && #[trigger] effects@[i] == (
                        Effect::CompleteCommand {
                            tx: old(self).nav_table()[n]->0.tx,
                            result: Err(CdpError::Timeout),
                        }),
                // the navigation table only shrinks
                forall|n: u64|
                    #[trigger] self.nav_table().contains_key(n) ==> old(self).nav_table().contains_key(n) && self.nav_table()[n] == old(self).nav_table()[
                        n
                    ],
                // effects only grow with timeout completions
                effects@.len() >= pre_effects.len(),
                forall|i: int|
                    0 <= i < pre_effects.len() ==> #[trigger] effects@[i] == pre_effects[i],
                forall|i: int|
                    pre_effects.len() <= i < effects@.len() ==> is_timeout_completion(
                        #[trigger] effects@[i],
                    ),
            decreases entries@.len(),
        {
            let ghost entries0 = entries@;
            let ghost pend0 = self.pending();
            let ghost effects0 = effects@;
            let ghost nav0 = self.nav_table();
            let (call_id, entry) = entries.pop().unwrap();
            proof {
                assert(entries0[entries0.len() - 1] == (call_id, entry));
                assert(pre_pending.contains_key(call_id) && pre_pending[call_id] == entry);
                assert(!pend0.contains_key(call_id));
            }
            let is_expired = now > entry.issued_at && now - entry.issued_at > timeout;
            if is_expired {
                match entry.request {
                    PendingRequest::ExternalCommand { tx } => {
                        effects.push(Effect::CompleteCommand {
                            tx,
                            result: Err(CdpError::Timeout),
                        });
                        proof {
                            assert(effects@[effects@.len() - 1] == (Effect::CompleteCommand {
                                tx,
                                result: Err(CdpError::Timeout),
                            }));
                        }
                    },
                    PendingRequest::CreateTarget { tx } => {
                        effects.push(Effect::CompletePage {
                            tx,
                            result: Err(CdpError::Timeout),
                        });
                        proof {
                            assert(effects@[effects@.len() - 1] == (Effect::CompletePage {
                                tx,
                                result: Err(CdpError::Timeout),
                            }));
                        }
                    },
                    PendingRequest::Navigate { navigation_id } => {
                        match self.navigations.remove(navigation_id) {
                            Some(NavigationRequest::Goto(nav)) => {
                                let tx_nav = nav.tx;
                                effects.push(Effect::CompleteCommand {
                                    tx: tx_nav,
                                    result: Err(CdpError::Timeout),
                                });
                                proof {
                                    assert(nav0.contains_key(navigation_id));
                                    assert(old(self).nav_table()[navigation_id]->0.tx == tx_nav);
                                    assert(effects@[effects@.len() - 1] == (
                                    Effect::CompleteCommand {
                                        tx: old(self).nav_table()[navigation_id]->0.tx,
                                        result: Err(CdpError::Timeout),
                                    }));
                                }
                            },
                            None => {},
                        }
                        proof {
                            assert(!self.nav_table().contains_key(navigation_id));
                            assert(navs_bounded(self.nav_table(), self.nav_id_counter()));
                        }
                    },
                    PendingRequest::InternalCommand { target_id: _ } => {},
                }
            } else {
                self.pending_commands.insert(call_id, entry);
                proof {
                    assert forall|k: u64| #[trigger] self.pending().contains_key(k)
                        implies k < self.connection().next_call_id() by {
                        if k != call_id {
                            assert(pend0.contains_key(k));
                        }
                        assert(pre_pending.contains_key(k));
                        assert(pending_bounded(pre_pending, pre_next));
                        assert(k < pre_next);
                        assert(self.connection().next_call_id() == pre_next);
                    }
                }
            }
            proof {
                assert forall|i: int|
                    0 <= i < entries@.len() implies !self.pending().contains_key(
                    (#[trigger] entries@[i]).0,
                ) by {
                    assert(entries@[i] == entries0[i]);
                    assert(entries0[i].0 != entries0[entries0.len() - 1].0);
                }
                assert forall|k: u64| pre_pending.contains_key(k) implies ((exists|i: int|
                    0 <= i < entries@.len() && (#[trigger] entries@[i]).0 == k) || (!expired(
                    pre_pending[k],
                    now,
                    timeout,
                ) ==> self.pending().contains_key(k))) by {
                    if k == call_id {
                        assert(!expired(pre_pending[k], now, timeout)
                            ==> self.pending().contains_key(k));
                    } else if exists|i: int|
                        0 <= i < entries0.len() && (#[trigger] entries0[i]).0 == k {
                        let i = choose|i: int|
                            0 <= i < entries0.len() && (#[trigger] entries0[i]).0 == k;
                        assert(entries0[i].0 != entries0[entries0.len() - 1].0);
                        assert(i < entries0.len() - 1);
                        assert(entries@[i] == entries0[i]);
                    } else {
                        if !expired(pre_pending[k], now, timeout) {
                            assert(pend0.contains_key(k));
                        }
                    }
                }
                assert forall|k: u64|
                    pre_pending.contains_key(k) && expired(
                        #[trigger] pre_pending[k],
                        now,
                        timeout,
                    ) && !(exists|i: int| 0 <= i < entries@.len() && (#[trigger] entries@[i]).0
                        == k) implies match pre_pending[k].request {
                    PendingRequest::ExternalCommand { tx } => exists|i: int|
                        pre_effects.len() <= i < effects@.len() && #[trigger] effects@[i] == (
                        Effect::CompleteCommand { tx, result: Err(CdpError::Timeout) }),
                    PendingRequest::CreateTarget { tx } => exists|i: int|
                        pre_effects.len() <= i < effects@.len() && #[trigger] effects@[i] == (
                        Effect::CompletePage { tx, result: Err(CdpError::Timeout) }),
                    PendingRequest::Navigate { navigation_id } => !self.nav_table().contains_key(
                        navigation_id,
                    ),
                    _ => true,
                } by {
                    if k == call_id {
                        assert(pre_pending[k] == entry);
                        assert(effects@.len() >= effects0.len() >= pre_effects.len());
                    } else if !(exists|i: int|
                        0 <= i < entries0.len() && (#[trigger] entries0[i]).0 == k) {
                        let ghost r = pre_pending[k].request;
                        match r {
                            PendingRequest::ExternalCommand { tx } => {
                                let wi = choose|i: int|
                                    pre_effects.len() <= i < effects0.len() && #[trigger] effects0[
                                        i
                                    ] == (Effect::CompleteCommand {
                                        tx,
                                        result: Err(CdpError::Timeout),
                                    });
                                assert(effects@[wi] == effects0[wi]);
                            },
                            PendingRequest::CreateTarget { tx } => {
                                let wi = choose|i: int|
                                    pre_effects.len() <= i < effects0.len() && #[trigger] effects0[
                                        i
                                    ] == (Effect::CompletePage {
                                        tx,
                                        result: Err(CdpError::Timeout),
                                    });
                                assert(effects@[wi] == effects0[wi]);
                            },
                            PendingRequest::Navigate { navigation_id } => {
                                if self.nav_table().contains_key(navigation_id) {
                                    assert(nav0.contains_key(navigation_id));
                                }
                            },
                            _ => {},
                        }
                    } else {
                        let i = choose|i: int|
                            0 <= i < entries0.len() && (#[trigger] entries0[i]).0 == k;
                        assert(entries0[i].0 != entries0[entries0.len() - 1].0);
                        assert(i < entries0.len() - 1);
                        assert(entries@[i] == entries0[i]);
                        assert(false);
                    }
                }
                assert forall|n: u64|
                    old(self).nav_table().contains_key(n) && !(#[trigger] self.nav_table(
                    ).contains_key(n)) implies exists|i: int|
                        pre_effects.len() <= i < effects@.len() && #[trigger] effects@[i] == (
                        Effect::CompleteCommand {
                            tx: old(self).nav_table()[n]->0.tx,
                            result: Err(CdpError::Timeout),
                        }) by {
                    if nav0.contains_key(n) {
                        if effects@.len() > effects0.len() {
                            assert(effects@[effects@.len() - 1] == effects@.last());
                        }
                    } else {
                        let wi = choose|i: int|
                            pre_effects.len() <= i < effects0.len() && #[trigger] effects0[i] == (
                            Effect::CompleteCommand {
                                tx: old(self).nav_table()[n]->0.tx,
                                result: Err(CdpError::Timeout),
                            });
                        assert(effects@[wi] == effects0[wi]);
                    }
                }
            }
        }
    }

    /// One pass of the event loop, never blocking: first the inbound client
    /// requests, then each target is detached, drained of its ready events
    /// and reinserted, then the incoming browser messages are dispatched,
    /// and finally, when the periodic job fired, expired commands are
    /// evicted. A transport failure — an error item on the connection, or a
    /// submission the connection refuses — stops the pass and is returned;
    /// it is terminal for the core.
    #[verifier::rlimit(100)]
    pub fn tick(
        &mut self,
        inbound: Vec<HandlerMessage>,
        incoming: Vec<IncomingMessage>,
        now: u64,
        timer_fired: bool,
    ) -> (r: (Vec<Effect>, Option<CdpError>))
        requires
            old(self).wf(),
        ensures
            final(self).wf(),
            Handler::config_same(*old(self), *final(self)),
            r.1 is Some ==> r.1 == Some(CdpError::Transport),
            (exists|i: int|
                0 <= i < incoming@.len() && (#[trigger] incoming@[i]) is TransportError) ==> r.1
                is Some,
            r.1 is Some ==> (exists|i: int|
                0 <= i < incoming@.len() && (#[trigger] incoming@[i]) is TransportError) || final(self).connection().next_call_id() == u64::MAX || final(self).nav_id_counter() == u64::MAX,
            final(self).connection().next_call_id() <= old(self).connection().next_call_id()
                + inbound@.len() + total_work(old(self).targets_seq()),
            final(self).nav_id_counter() <= old(self).nav_id_counter() + total_work(
                old(self).targets_seq(),
            ),
            (old(self).connection().next_call_id() + inbound@.len() + total_work(
                old(self).targets_seq(),
            ) < u64::MAX && old(self).nav_id_counter() + total_work(old(self).targets_seq())
                < u64::MAX && !(exists|i: int|
                0 <= i < incoming@.len() && (#[trigger] incoming@[i]) is TransportError)) ==> r.1
                is None,
            sends_ordered_below(r.0@, final(self).connection().next_call_id()),
            r.1 is None ==> inbound_requests_answered(
                inbound@,
                r.0@,
                ready_pages(old(self).targets_seq()),
            ),
            r.1 is None ==> forall|i: int|
                0 <= i < incoming@.len() ==> ((#[trigger] incoming@[i]) is Response
                    ==> !final(self).pending().contains_key(incoming@[i]->Response_0.id)),
            r.1 is None ==> forall|tid: Seq<char>, i: int|
                0 <= i < incoming@.len() && #[trigger] announces_target(incoming@[i], tid) && !(
                exists|j: int|
                    0 <= j < incoming@.len() && #[trigger] destroys_target(incoming@[j], tid))
                    ==> has_target(final(self).targets_seq(), tid),
            (timer_fired && r.1 is None) ==> forall|k: u64|
                #[trigger] final(self).pending().contains_key(k) ==> !expired(
                    final(self).pending()[k],
                    now,
                    final(self).timeout_ms(),
                ),
            (timer_fired && r.1 is None) ==> forall|k: u64|
                old(self).pending().contains_key(k) && expired(
                    #[trigger] old(self).pending()[k],
                    now,
                    old(self).timeout_ms(),
                ) && !(exists|i: int|
                    0 <= i < incoming@.len() && #[trigger] response_for(incoming@[i], k))
                    ==> !final(self).pending().contains_key(k) && match old(self).pending()[
                    k
                ].request {
                    PendingRequest::ExternalCommand { tx } => exists|i: int|
                        0 <= i < r.0@.len() && #[trigger] r.0@[i] == (Effect::CompleteCommand {
                            tx,
                            result: Err(CdpError::Timeout),
                        }),
                    PendingRequest::CreateTarget { tx } => exists|i: int|
                        0 <= i < r.0@.len() && #[trigger] r.0@[i] == (Effect::CompletePage {
                            tx,
                            result: Err(CdpError::Timeout),
                        }),
                    PendingRequest::Navigate { navigation_id } => !final(self).nav_table(
                    ).contains_key(navigation_id),
                    _ => true,
                },
    {
        let mut effects: Vec<Effect> = Vec::new();
        let ghost ready = ready_pages(old(self).targets_seq());
        let ghost inb0 = inbound@;

        // 1. Inbound client requests, in arrival order.
        let mut requests = inbound;
        while requests.len() > 0
            invariant
                self.wf(),
                Handler::config_same(*old(self), *self),
                inb0 == inbound@,
                ready == ready_pages(old(self).targets_seq()),
                requests@.len() <= inb0.len(),
                requests@ == inb0.subrange(inb0.len() - requests@.len(), inb0.len() as int),
                inbound_requests_answered(
                    inb0.subrange(0, inb0.len() - requests@.len()),
                    effects@,
                    ready,
                ),
                self.targets_seq().len() == old(self).targets_seq().len(),
                forall|j: int|
                    0 <= j < self.targets_seq().len() ==> (#[trigger] self.targets_seq()[
                        j
                    ]).target_id == old(self).targets_seq()[j].target_id && self.targets_seq()[
                        j
                    ].session_id == old(self).targets_seq()[j].session_id,
                preserves_pending(old(self).pending(), self.pending()),
                pending_bounded(old(self).pending(), old(self).connection().next_call_id()),
                old(self).connection().next_call_id() <= self.connection().next_call_id(),
                self.connection().next_call_id() <= old(self).connection().next_call_id() + (
                inb0.len() - requests@.len()),
                self.nav_id_counter() == old(self).nav_id_counter(),
                total_work(self.targets_seq()) == total_work(old(self).targets_seq()),
                sends_ordered_below(effects@, self.connection().next_call_id()),
            decreases requests@.len(),
        {
            let ghost prefix = inb0.subrange(0, inb0.len() - requests@.len());
            let ghost eff_it = effects@;
            let ghost pend_it = self.pending();
            let ghost next_it = self.connection().next_call_id();
            let ghost before = requests@;
            let msg = requests.remove(0);
            let ghost m0 = msg;
            proof {
                assert(before[0] == inb0[inb0.len() - before.len()]);
                assert(requests@ =~= inb0.subrange(
                    inb0.len() - requests@.len(),
                    inb0.len() as int,
                ));
            }
            match msg {
                HandlerMessage::Command(cmd) => {
                    match self.submit_external_command(cmd, now, &mut effects) {
                        Ok(()) => {
                            proof {
                                assert((effects@[effects@.len() - 1]) matches Effect::Send(out)
                                    && out.method == m0->Command_0.method && out.session_id == m0
                                    ->Command_0.session_id && out.params == m0->Command_0.params);
                            }
                        },
                        Err(e) => {
                            proof {
                                assert(self.connection().next_call_id() == u64::MAX);
                            }
                            return (effects, Some(e));
                        },
                    }
                },
                HandlerMessage::CreatePage { params, tx } => {
                    self.create_page(params, tx, now, &mut effects);
                    proof {
                        assert(exists|i: int|
                            0 <= i < effects@.len() && (((#[trigger] effects@[i])
                                matches Effect::Send(out) && out.method@ == create_target_method()
                                && out.session_id is None && out.params == m0->CreatePage_params)
                                || effects@[i] == (Effect::CompletePage {
                                tx: m0->CreatePage_tx,
                                result: Err(CdpError::Transport),
                            }))) by {
                            assert(effects@[effects@.len() - 1] == effects@.last());
                        }
                    }
                },
                HandlerMessage::GetPages { tx } => {
                    let ghost ts_call = self.targets_seq();
                    let pages = self.collect_pages();
                    proof {
                        lemma_ready_pages_congruent(ts_call, old(self).targets_seq());
                        assert(forall|j: int|
                            0 <= j < self.targets_seq().len() ==> (#[trigger] self.targets_seq()[
                                j
                            ]).work() == ts_call[j].work());
                        lemma_total_work_congruent(self.targets_seq(), ts_call);
                    }
                    effects.push(Effect::CompletePages { tx, pages });
                    proof {
                        assert((effects@[effects@.len() - 1]) matches Effect::CompletePages {
                            tx: etx,
                            pages: p,
                        } && etx == tx && p@ == ready);
                    }
                },
                HandlerMessage::Subscribe => {},
            }
            proof {
                lemma_inbound_answers_grow(prefix, eff_it, effects@, ready);
                let new_prefix = inb0.subrange(0, inb0.len() - requests@.len());
                assert(new_prefix =~= prefix.push(m0));
                assert forall|m: int|
                    0 <= m < new_prefix.len() implies inbound_answered(
                    #[trigger] new_prefix[m],
                    effects@,
                    ready,
                ) by {
                    if m < prefix.len() {
                        assert(new_prefix[m] == prefix[m]);
                        assert(inbound_answered(prefix[m], effects@, ready));
                    } else {
                        assert(new_prefix[m] == m0);
                    }
                }
                assert forall|k: u64| #[trigger]
                    old(self).pending().contains_key(k) implies self.pending().contains_key(k)
                        && self.pending()[k] == old(self).pending()[k] by {
                    assert(pend_it.contains_key(k) && pend_it[k] == old(self).pending()[k]);
                    assert(k < old(self).connection().next_call_id());
                    assert(k < next_it);
                }
                assert forall|i: int|
                    0 <= i < effects@.len() && (#[trigger] effects@[i]) is Send implies effects@[
                    i
                ]->Send_0.id < self.connection().next_call_id() by {
                    if i < eff_it.len() {
                        assert(effects@[i] == eff_it[i]);
                    }
                }
                assert forall|i: int, j: int|
                    0 <= i < j < effects@.len() && (#[trigger] effects@[i]) is Send && (
                    #[trigger] effects@[j]) is Send implies effects@[i]->Send_0.id < effects@[
                    j
                ]->Send_0.id by {
                    if j < eff_it.len() {
                        assert(effects@[i] == eff_it[i]);
                        assert(effects@[j] == eff_it[j]);
                    } else if i < eff_it.len() {
                        assert(effects@[i] == eff_it[i]);
                        assert(effects@[i]->Send_0.id < next_it);
                    }
                }
            }
        }
        proof {
            assert(inb0.subrange(0, inb0.len() as int) =~= inb0);
        }
        let ghost eff1 = effects@;

        // 2. Detach each target in turn, drain its ready events, reinsert.
        let count = self.target_ids.len();
        let mut n: usize = 0;
        let mut failure: Option<CdpError> = None;
        while n < count
            invariant
                self.wf(),
                Handler::config_same(*old(self), *self),
                self.target_id_list().len() == count as int,
                failure is None,
                inb0 == inbound@,
                self.connection().next_call_id() + total_work(self.targets_seq()) <= old(
                    self,
                ).connection().next_call_id() + inb0.len() + total_work(
                    old(self).targets_seq(),
                ),
                self.nav_id_counter() + total_work(self.targets_seq()) <= old(
                    self,
                ).nav_id_counter() + total_work(old(self).targets_seq()),
                inbound_requests_answered(inb0, eff1, ready),
                effects@.len() >= eff1.len(),
                forall|i: int| 0 <= i < eff1.len() ==> #[trigger] effects@[i] == eff1[i],
                preserves_pending(old(self).pending(), self.pending()),
                pending_bounded(old(self).pending(), old(self).connection().next_call_id()),
                old(self).connection().next_call_id() <= self.connection().next_call_id(),
                sends_ordered_below(effects@, self.connection().next_call_id()),
            decreases count - n,
        {
            let ghost pre_ids = self.target_id_list();
            let ghost pre_ts = self.targets_seq();
            let target_id = self.target_ids.remove(0);
            proof {
                broadcast use vstd::seq_lib::group_to_multiset_ensures;

                assert(id_views(self.target_id_list()) =~= id_views(pre_ids).remove(0));
                assert(id_views(pre_ids)[0] == target_id@);
            }
            match self.find_target_index(&target_id) {
                Some(idx) => {
                    let mut t = self.targets.remove(idx);
                    proof {
                        broadcast use vstd::seq_lib::group_to_multiset_ensures;

                        let post = self.targets_seq();
                        assert forall|a: int, b: int|
                            0 <= a < b < post.len() implies (#[trigger] post[a]).target_id@ != (
                        #[trigger] post[b]).target_id@ by {
                            let oa: int = if a < idx { a } else { a + 1 };
                            let ob: int = if b < idx { b } else { b + 1 };
                            assert(post[a] == pre_ts[oa]);
                            assert(post[b] == pre_ts[ob]);
                        }
                        assert(target_id_views(post) =~= target_id_views(pre_ts).remove(
                            idx as int,
                        ));
                        assert(target_id_views(pre_ts)[idx as int] == target_id@);
                        assert forall|j: int|
                            0 <= j < post.len() implies (#[trigger] post[j]).target_id@
                            != target_id@ by {
                            let oj: int = if j < idx { j } else { j + 1 };
                            assert(post[j] == pre_ts[oj]);
                            if oj != idx {
                                assert(pre_ts[oj].target_id@ != pre_ts[idx as int].target_id@);
                            }
                        }
                        assert(self.wf());
                        lemma_total_work_remove(pre_ts, idx as int);
                    }
                    let ghost det_ts = self.targets_seq();
                    let ghost det_ids = self.target_id_list();
                    loop
                        invariant
                            self.wf(),
                            Handler::config_same(*old(self), *self),
                            self.targets_seq() == det_ts,
                            self.target_id_list() == det_ids,
                            t.target_id@ == target_id@,
                            inb0 == inbound@,
                            self.connection().next_call_id() + t.work() + total_work(det_ts)
                                <= old(self).connection().next_call_id() + inb0.len()
                                + total_work(old(self).targets_seq()),
                            self.nav_id_counter() + t.work() + total_work(det_ts) <= old(
                                self,
                            ).nav_id_counter() + total_work(old(self).targets_seq()),
                            effects@.len() >= eff1.len(),
                            forall|i: int|
                                0 <= i < eff1.len() ==> #[trigger] effects@[i] == eff1[i],
                            preserves_pending(old(self).pending(), self.pending()),
                            pending_bounded(
                                old(self).pending(),
                                old(self).connection().next_call_id(),
                            ),
                            old(self).connection().next_call_id()
                                <= self.connection().next_call_id(),
                            sends_ordered_below(effects@, self.connection().next_call_id()),
                            failure matches Some(e) ==> e == CdpError::Transport && (
                            self.connection().next_call_id() == u64::MAX
                                || self.nav_id_counter() == u64::MAX),
                        decreases t.work(),
                    {
                        let ghost eff_it = effects@;
                        let ghost pend_it = self.pending();
                        let ghost next_it = self.connection().next_call_id();
                        match t.poll() {
                            None => { break ; },
                            Some(ev) => {
                                match ev {
                                    TargetEvent::Request(req) => {
                                        let tid = t.target_id.clone();
                                        match self.submit_internal_command(
                                            tid,
                                            req,
                                            now,
                                            &mut effects,
                                        ) {
                                            Ok(()) => {},
                                            Err(e) => {
                                                failure = Some(e);
                                                break ;
                                            },
                                        }
                                    },
                                    TargetEvent::RequestTimeout { call_id: _ } => {
                                        // Observed but not acted on: the
                                        // pending table owns timeouts.
                                    },
                                    TargetEvent::Message(msg) => {
                                        match self.on_target_message(
                                            &mut t,
                                            msg,
                                            now,
                                            &mut effects,
                                        ) {
                                            Ok(()) => {},
                                            Err(e) => {
                                                failure = Some(e);
                                                break ;
                                            },
                                        }
                                    },
                                    TargetEvent::NavigationRequest { navigation_id, request } => {
                                        match self.submit_navigation(
                                            navigation_id,
                                            request,
                                            now,
                                            &mut effects,
                                        ) {
                                            Ok(()) => {},
                                            Err(e) => {
                                                failure = Some(e);
                                                break ;
                                            },
                                        }
                                    },
                                    TargetEvent::NavigationResult(res) => {
                                        self.on_navigation_lifecycle_completed(res, &mut effects);
                                    },
                                    TargetEvent::PageReady { tx, target_id } => {
                                        effects.push(Effect::CompletePage {
                                            tx,
                                            result: Ok(target_id),
                                        });
                                    },
                                }
                            },
                        }
                        proof {
                            assert forall|k: u64| #[trigger]
                                old(self).pending().contains_key(k) implies self.pending(
                            ).contains_key(k) && self.pending()[k] == old(self).pending()[k] by {
                                assert(pend_it.contains_key(k) && pend_it[k] == old(self).pending()[k]);
                                assert(k < old(self).connection().next_call_id());
                                assert(k < next_it);
                            }
                            assert forall|i: int|
                                0 <= i < effects@.len() && (#[trigger] effects@[i])
                                    is Send implies effects@[i]->Send_0.id
                                < self.connection().next_call_id() by {
                                if i < eff_it.len() {
                                    assert(effects@[i] == eff_it[i]);
                                }
                            }
                            assert forall|i: int, j: int|
                                0 <= i < j < effects@.len() && (#[trigger] effects@[i]) is Send
                                    && (#[trigger] effects@[j]) is Send implies effects@[
                                i
                            ]->Send_0.id < effects@[j]->Send_0.id by {
                                if j < eff_it.len() {
                                    assert(effects@[i] == eff_it[i]);
                                    assert(effects@[j] == eff_it[j]);
                                } else if i < eff_it.len() {
                                    assert(effects@[i] == eff_it[i]);
                                    assert(effects@[i]->Send_0.id < next_it);
                                }
                            }
                            assert(forall|i: int|
                                0 <= i < eff1.len() ==> #[trigger] effects@[i] == eff1[i]);
                        }
                    }
                    let ghost t_final = t;
                    self.targets.push(t);
                    self.target_ids.push(target_id);
                    proof {
                        broadcast use vstd::seq_lib::group_to_multiset_ensures;

                        lemma_total_work_push(det_ts, t_final);
                        let post = self.targets_seq();
                        assert(post.drop_last() == det_ts);
                        assert(post.last().target_id@ == target_id@);
                        assert forall|a: int, b: int|
                            0 <= a < b < post.len() implies (#[trigger] post[a]).target_id@ != (
                        #[trigger] post[b]).target_id@ by {
                            if b == post.len() - 1 {
                                assert(det_ts[a].target_id@ != target_id@);
                            }
                        }
                        assert(target_id_views(post) =~= target_id_views(det_ts).push(
                            target_id@,
                        ));
                        assert(id_views(self.target_id_list()) =~= id_views(det_ids).push(
                            target_id@,
                        ));
                        assert(self.wf());
                    }
                    if failure.is_some() {
                        return (effects, failure);
                    }
                },
                None => {
                    proof {
                        broadcast use vstd::seq_lib::group_to_multiset_ensures;

                        let ids_now = id_views(self.target_id_list());
                        let ts_now = target_id_views(self.targets_seq());
                        assert(id_views(pre_ids).to_multiset() =~= ids_now.to_multiset().insert(
                            target_id@,
                        )) by {
                            assert(id_views(pre_ids).remove(0).to_multiset() =~= id_views(
                                pre_ids,
                            ).to_multiset().remove(target_id@));
                            assert(id_views(pre_ids).to_multiset().contains(target_id@));
                        }
                        assert(ts_now.to_multiset().contains(target_id@));
                        assert(ts_now.contains(target_id@));
                        let w = choose|i: int| 0 <= i < ts_now.len() && ts_now[i] == target_id@;
                        assert(self.targets_seq()[w].target_id@ == target_id@);
                        assert(false);
                    }
                    self.target_ids.push(target_id);
                },
            }
            n = n + 1;
        }

        // 3. Incoming browser messages: responses by call-id, events by
        // session or tag. A transport error ends the pass at once.
        let ghost inc0 = incoming@;
        let mut arriving = incoming;
        while arriving.len() > 0
            invariant
                self.wf(),
                Handler::config_same(*old(self), *self),
                inc0 == incoming@,
                inb0 == inbound@,
                self.connection().next_call_id() <= old(self).connection().next_call_id()
                    + inb0.len() + total_work(old(self).targets_seq()),
                self.nav_id_counter() <= old(self).nav_id_counter() + total_work(
                    old(self).targets_seq(),
                ),
                arriving@.len() <= inc0.len(),
                arriving@ == inc0.subrange(
                    inc0.len() - arriving@.len(),
                    inc0.len() as int,
                ),
                forall|i: int|
                    0 <= i < inc0.len() - arriving@.len() ==> !((#[trigger] inc0[i])
                        is TransportError),
                inbound_requests_answered(inb0, eff1, ready),
                effects@.len() >= eff1.len(),
                forall|i: int| 0 <= i < eff1.len() ==> #[trigger] effects@[i] == eff1[i],
                pending_bounded(old(self).pending(), old(self).connection().next_call_id()),
                old(self).connection().next_call_id() <= self.connection().next_call_id(),
                sends_ordered_below(effects@, self.connection().next_call_id()),
                forall|k: u64|
                    #[trigger] old(self).pending().contains_key(k) && !(exists|i: int|
                        0 <= i < inc0.len() - arriving@.len() && #[trigger] response_for(
                            inc0[i],
                            k,
                        )) ==> self.pending().contains_key(k) && self.pending()[k] == old(
                        self,
                    ).pending()[k],
                forall|i: int|
                    0 <= i < inc0.len() - arriving@.len() ==> ((#[trigger] inc0[i]) is Response
                        ==> !self.pending().contains_key(inc0[i]->Response_0.id)),
                forall|tid: Seq<char>, i: int|
                    0 <= i < inc0.len() - arriving@.len() && #[trigger] announces_target(
                        inc0[i],
                        tid,
                    ) && !(exists|j: int|
                        0 <= j < inc0.len() && #[trigger] destroys_target(inc0[j], tid))
                        ==> has_target(self.targets_seq(), tid),
            decreases arriving@.len(),
        {
            let ghost before = arriving@;
            let ghost eff_it = effects@;
            let ghost pend_it = self.pending();
            let ghost ts_it = self.targets_seq();
            let ghost next_it = self.connection().next_call_id();
            let ghost seen0 = inc0.len() - before.len();
            let item = arriving.remove(0);
            let ghost item0 = item;
            proof {
                assert(before[0] == inc0[seen0]);
                assert(arriving@ =~= inc0.subrange(
                    inc0.len() - arriving@.len(),
                    inc0.len() as int,
                ));
            }
            match item {
                IncomingMessage::Response(resp) => {
                    self.on_response(resp, &mut effects);
                },
                IncomingMessage::Event(ev) => {
                    self.on_event(ev);
                },
                IncomingMessage::TransportError => {
                    proof {
                        assert(inc0[seen0] is TransportError);
                        assert(exists|i: int|
                            0 <= i < incoming@.len() && (#[trigger] incoming@[i])
                                is TransportError);
                    }
                    return (effects, Some(CdpError::Transport));
                },
            }
            proof {
                assert forall|k: u64|
                    #[trigger] old(self).pending().contains_key(k) && !(exists|i: int|
                        0 <= i < inc0.len() - arriving@.len() && #[trigger] response_for(
                            inc0[i],
                            k,
                        )) implies self.pending().contains_key(k) && self.pending()[k] == old(
                    self,
                ).pending()[k] by {
                    assert(!response_for(inc0[seen0], k));
                    assert(!(exists|i: int|
                        0 <= i < seen0 && #[trigger] response_for(inc0[i], k)));
                    assert(pend_it.contains_key(k) && pend_it[k] == old(self).pending()[k]);
                }
                assert forall|i: int|
                    0 <= i < inc0.len() - arriving@.len() implies ((#[trigger] inc0[i])
                    is Response ==> !self.pending().contains_key(inc0[i]->Response_0.id)) by {
                    if inc0[i] is Response {
                        if i < seen0 {
                            assert(!pend_it.contains_key(inc0[i]->Response_0.id));
                        } else {
                            assert(inc0[i] == item0);
                        }
                    }
                }
                assert forall|tid: Seq<char>, i: int|
                    0 <= i < inc0.len() - arriving@.len() && #[trigger] announces_target(
                        inc0[i],
                        tid,
                    ) && !(exists|j: int|
                        0 <= j < inc0.len() && #[trigger] destroys_target(inc0[j], tid)) implies
                    has_target(self.targets_seq(), tid) by {
                    let post = self.targets_seq();
                    if i == seen0 {
                        assert(inc0[i] == item0);
                        assert(announces_target(item0, tid));
                        if has_target(ts_it, tid) {
                            let w = choose|w: int|
                                0 <= w < ts_it.len() && (#[trigger] ts_it[w]).target_id@ == tid;
                            assert(post.len() >= ts_it.len());
                            assert(post[w] == ts_it[w]);
                            assert(has_target(post, tid));
                        } else {
                            assert(post.len() == ts_it.len() + 1);
                            assert(post[post.len() - 1].target_id@ == tid);
                            assert(has_target(post, tid));
                        }
                    } else {
                        assert(has_target(ts_it, tid));
                        let w = choose|w: int|
                            0 <= w < ts_it.len() && (#[trigger] ts_it[w]).target_id@ == tid;
                        assert(!destroys_target(inc0[seen0], tid));
                        if post.len() >= ts_it.len() {
                            assert(post[w].target_id@ == tid);
                            assert(has_target(post, tid));
                        } else {
                            let did = item0->Event_0.event->TargetDestroyed_target_id;
                            assert(did@ != tid);
                            let ti = choose|ti: int|
                                0 <= ti < ts_it.len() && (#[trigger] ts_it[ti]).target_id@ == did@
                                    && post == ts_it.remove(ti);
                            let wi: int = if w < ti {
                                w
                            } else {
                                w - 1
                            };
                            assert(post[wi] == ts_it[w]);
                            assert(has_target(post, tid));
                        }
                    }
                }
                assert forall|i: int|
                    0 <= i < effects@.len() && (#[trigger] effects@[i]) is Send implies effects@[
                    i
                ]->Send_0.id < self.connection().next_call_id() by {
                    if i < eff_it.len() {
                        assert(effects@[i] == eff_it[i]);
                    }
                }
                assert forall|i: int, j: int|
                    0 <= i < j < effects@.len() && (#[trigger] effects@[i]) is Send && (
                    #[trigger] effects@[j]) is Send implies effects@[i]->Send_0.id < effects@[
                    j
                ]->Send_0.id by {
                    if j < eff_it.len() {
                        assert(effects@[i] == eff_it[i]);
                        assert(effects@[j] == eff_it[j]);
                    } else if i < eff_it.len() {
                        assert(effects@[i] == eff_it[i]);
                        assert(effects@[i]->Send_0.id < next_it);
                    }
                }
                assert(forall|i: int|
                    0 <= i < eff1.len() ==> #[trigger] effects@[i] == eff1[i]);
            }
        }

        proof {
            assert(forall|i: int|
                0 <= i < inc0.len() ==> !((#[trigger] inc0[i]) is TransportError));
            assert forall|k: u64|
                old(self).pending().contains_key(k) && !(exists|i: int|
                    0 <= i < incoming@.len() && #[trigger] response_for(incoming@[i], k))
                implies self.pending().contains_key(k) && self.pending()[k] == old(self).pending()[k] by {
                assert(arriving@.len() == 0);
                if exists|i: int|
                    0 <= i < inc0.len() - arriving@.len() && #[trigger] response_for(
                        inc0[i],
                        k,
                    ) {
                    let wi = choose|i: int|
                        0 <= i < inc0.len() - arriving@.len() && #[trigger] response_for(
                            inc0[i],
                            k,
                        );
                    assert(response_for(incoming@[wi], k));
                    assert(false);
                }
            }
        }
        // 4. The periodic timeout job.
        let ghost pend3 = self.pending();
        let ghost eff3 = effects@;
        if timer_fired {
            self.evict_expired(now, &mut effects);
        }
        proof {
            assert(forall|i: int| 0 <= i < eff1.len() ==> #[trigger] effects@[i] == eff1[i]);
            lemma_inbound_answers_grow(inb0, eff1, effects@, ready);
            assert forall|i: int|
                0 <= i < effects@.len() && (#[trigger] effects@[i]) is Send implies effects@[
                i
            ]->Send_0.id < self.connection().next_call_id() by {
                if i < eff3.len() {
                    assert(effects@[i] == eff3[i]);
                } else {
                    assert(is_timeout_completion(effects@[i]));
                }
            }
            assert forall|i: int, j: int|
                0 <= i < j < effects@.len() && (#[trigger] effects@[i]) is Send && (
                #[trigger] effects@[j]) is Send implies effects@[i]->Send_0.id < effects@[
                j
            ]->Send_0.id by {
                if j >= eff3.len() {
                    assert(is_timeout_completion(effects@[j]));
                }
                assert(effects@[i] == eff3[i]);
                assert(effects@[j] == eff3[j]);
            }
            assert forall|i: int|
                0 <= i < incoming@.len() implies ((#[trigger] incoming@[i]) is Response
                ==> !self.pending().contains_key(incoming@[i]->Response_0.id)) by {
                if incoming@[i] is Response {
                    assert(!pend3.contains_key(inc0[i]->Response_0.id));
                    if self.pending().contains_key(inc0[i]->Response_0.id) {
                        assert(pend3.contains_key(inc0[i]->Response_0.id));
                    }
                }
            }
            assert forall|tid: Seq<char>, i: int|
                0 <= i < incoming@.len() && #[trigger] announces_target(incoming@[i], tid) && !(
                exists|j: int|
                    0 <= j < incoming@.len() && #[trigger] destroys_target(incoming@[j], tid))
                implies has_target(self.targets_seq(), tid) by {
                assert(announces_target(inc0[i], tid));
            }
            if timer_fired {
                assert forall|k: u64|
                    old(self).pending().contains_key(k) && expired(
                        #[trigger] old(self).pending()[k],
                        now,
                        old(self).timeout_ms(),
                    ) && !(exists|i: int|
                        0 <= i < incoming@.len() && #[trigger] response_for(incoming@[i], k))
                    implies !self.pending().contains_key(k) && match old(self).pending()[
                    k
                ].request {
                    PendingRequest::ExternalCommand { tx } => exists|i: int|
                        0 <= i < effects@.len() && #[trigger] effects@[i] == (
                        Effect::CompleteCommand { tx, result: Err(CdpError::Timeout) }),
                    PendingRequest::CreateTarget { tx } => exists|i: int|
                        0 <= i < effects@.len() && #[trigger] effects@[i] == (
                        Effect::CompletePage { tx, result: Err(CdpError::Timeout) }),
                    PendingRequest::Navigate { navigation_id } => !self.nav_table().contains_key(
                        navigation_id,
                    ),
                    _ => true,
                } by {
                    assert(pend3.contains_key(k) && pend3[k] == old(self).pending()[k]);
                    assert(expired(pend3[k], now, self.timeout_ms()));
                    let ghost rq = old(self).pending()[k].request;
                    match rq {
                        PendingRequest::Navigate { navigation_id } => {
                            assert(!self.nav_table().contains_key(navigation_id));
                        },
                        PendingRequest::ExternalCommand { tx } => {
                            let wi = choose|i: int|
                                eff3.len() <= i < effects@.len() && #[trigger] effects@[i] == (
                                Effect::CompleteCommand { tx, result: Err(CdpError::Timeout) });
                            assert(0 <= wi < effects@.len());
                        },
                        PendingRequest::CreateTarget { tx } => {
                            let wi = choose|i: int|
                                eff3.len() <= i < effects@.len() && #[trigger] effects@[i] == (
                                Effect::CompletePage { tx, result: Err(CdpError::Timeout) });
                            assert(0 <= wi < effects@.len());
                        },
                        _ => {},
                    }
                }
            }
        }
        (effects, None)
    }

    /// Hands a client message to a target's inbox, standing in for the
    /// channel a page handle holds to its target; the next pass drains it.
    /// False when no such target exists.
    #[verifier::rlimit(100)]
    pub fn deliver_to_target(&mut self, target_id: &String, msg: CommandMessage) -> (ok: bool)
        requires
            old(self).wf(),
        ensures
            final(self).wf(),
            Handler::commands_same(*old(self), *final(self)),
            Handler::nav_same(*old(self), *final(self)),
            Handler::config_same(*old(self), *final(self)),
            final(self).session_list() == old(self).session_list(),
            final(self).target_id_list() == old(self).target_id_list(),
            ok <==> has_target(old(self).targets_seq(), target_id@),
            !ok ==> final(self).targets_seq() == old(self).targets_seq(),
            ok ==> exists|i: int|
                0 <= i < old(self).targets_seq().len() && (#[trigger] old(self).targets_seq()[
                    i
                ]).target_id@ == target_id@ && final(self).targets_seq().len() == old(self).targets_seq().len() && (forall|j: int|
                    0 <= j < old(self).targets_seq().len() && j != i
                        ==> #[trigger] final(self).targets_seq()[j] == old(self).targets_seq()[j])
                && final(self).targets_seq()[i] == (Target {
                    inbox: final(self).targets_seq()[i].inbox,
                    ..old(self).targets_seq()[i]
                }) && final(self).targets_seq()[i].inbox@ == old(self).targets_seq()[
                    i
                ].inbox@.push(msg),
    {
        match self.find_target_index(target_id) {
            Some(i) => {
                let mut t = self.targets.remove(i);
                t.enqueue_message(msg);
                self.targets.insert(i, t);
                proof {
                    let pre = old(self).targets_seq();
                    let post = self.targets_seq();
                    assert(post =~= pre.update(i as int, post[i as int]));
                    assert(forall|j: int|
                        0 <= j < post.len() ==> (#[trigger] post[j]).target_id@ == pre[
                            j
                        ].target_id@);
                    assert(targets_unique(post));
                    assert(target_id_views(post) =~= target_id_views(pre));
                }
                true
            },
            None => false,
        }
    }

    /// A new target was announced: create its state and track it. An
    /// announcement for an id already tracked is ignored, keeping ids
    /// unique.
    #[verifier::rlimit(100)]
    pub fn on_target_created(&mut self, target_id: String, kind: String)
        requires
            old(self).wf(),
        ensures
            final(self).wf(),
            target_created_post(*old(self), *final(self), target_id, kind),
    {
        if self.find_target_index(&target_id).is_some() {
            return ;
        }
        let t = Target::new(target_id.clone(), kind);
        self.target_ids.push(target_id);
        self.targets.push(t);
        proof {
            broadcast use vstd::seq_lib::group_to_multiset_ensures;

            let pre_ids = old(self).target_id_list();
            let pre_ts = old(self).targets_seq();
            assert(self.targets_seq().drop_last() =~= pre_ts);
            assert(self.target_id_list().drop_last() =~= pre_ids);
            assert(self.target_id_list() =~= pre_ids.push(self.target_id_list().last()));
            assert(id_views(self.target_id_list()) =~= id_views(pre_ids).push(
                self.targets_seq().last().target_id@,
            ));
            assert(target_id_views(self.targets_seq()) =~= target_id_views(pre_ts).push(
                self.targets_seq().last().target_id@,
            ));
            assert(forall|a: int, b: int|
                0 <= a < b < self.targets_seq().len() ==> (
                #[trigger] self.targets_seq()[a]).target_id@ != (
                #[trigger] self.targets_seq()[b]).target_id@);
            assert(self.session_list() == old(self).session_list());
            assert(forall|i: int, j: int|
                0 <= i < j < self.session_list().len() ==> (
                #[trigger] self.session_list()[i]).session_id@ != (
                #[trigger] self.session_list()[j]).session_id@);
            assert(self.pending() == old(self).pending());
            assert(forall|k: u64| #[trigger] self.pending().contains_key(k)
                ==> k < self.connection().next_call_id());
            assert(self.nav_table() == old(self).nav_table());
            assert(forall|n: u64| #[trigger] self.nav_table().contains_key(n)
                ==> n < self.nav_id_counter());
        }
    }

    /// A session was attached: record it (the last attachment under a
    /// session id wins) and point the target's routing slot at it.
    #[verifier::rlimit(100)]
    pub fn on_attached_to_target(&mut self, session_id: String, kind: String, target_id: String)
        requires
            old(self).wf(),
        ensures
            final(self).wf(),
            attached_post(*old(self), *final(self), session_id, kind, target_id),
    {
        let session = Session {
            session_id: session_id.clone(),
            target_id: target_id.clone(),
            kind,
        };
        match self.find_session_index(&session_id) {
            Some(si) => {
                let _replaced = self.sessions.remove(si);
                self.sessions.insert(si, session);
                proof {
                    assert(self.sessions@ =~= old(self).sessions@.update(
                        si as int,
                        (Session {
                            session_id: session_id,
                            target_id: target_id,
                            kind: self.sessions@[si as int].kind,
                        }),
                    ));
                    assert(forall|j: int|
                        0 <= j < self.sessions@.len() ==> (#[trigger] self.sessions@[j]).session_id@
                            == old(self).sessions@[j].session_id@);
                    assert(forall|i: int, j: int|
                        0 <= i < j < self.session_list().len() ==> (
                        #[trigger] self.session_list()[i]).session_id@ != (
                        #[trigger] self.session_list()[j]).session_id@);
                }
            },
            None => {
                self.sessions.push(session);
                proof {
                    assert(self.sessions@.len() == old(self).sessions@.len() + 1);
                    assert(forall|j: int|
                        0 <= j < old(self).sessions@.len() ==> #[trigger] self.sessions@[j] == old(self).sessions@[j]);
                    assert(self.sessions@.last().session_id@ == session_id@);
                    assert forall|i: int, j: int|
                        0 <= i < j < self.session_list().len() implies (
                    #[trigger] self.session_list()[i]).session_id@ != (
                    #[trigger] self.session_list()[j]).session_id@ by {
                        if j == old(self).sessions@.len() {
                            if self.sessions@[i].session_id@ == session_id@ {
                                assert(old(self).sessions@[i].session_id@ == session_id@);
                                assert(has_session(old(self).session_list(), session_id@));
                                assert(false);
                            }
                        }
                    }
                }
            },
        }
        match self.find_target_index(&target_id) {
            Some(ti) => {
                let mut t = self.targets.remove(ti);
                t.set_session_id(session_id);
                self.targets.insert(ti, t);
                proof {
                    let pre = old(self).targets_seq();
                    let post = self.targets_seq();
                    assert(post =~= pre.update(
                        ti as int,
                        (Target { session_id: post[ti as int].session_id, ..pre[ti as int] }),
                    ));
                    assert(forall|j: int|
                        0 <= j < post.len() ==> (#[trigger] post[j]).target_id@ == pre[
                            j
                        ].target_id@);
                    assert(forall|a: int, b: int|
                        0 <= a < b < post.len() ==> (#[trigger] post[a]).target_id@ != (
                        #[trigger] post[b]).target_id@);
                    assert(target_id_views(post) =~= target_id_views(pre));
                }
            },
            None => {},
        }
        proof {
            assert(self.pending() == old(self).pending());
            assert(forall|k: u64| #[trigger] self.pending().contains_key(k)
                ==> k < self.connection().next_call_id());
            assert(self.nav_table() == old(self).nav_table());
            assert(forall|n: u64| #[trigger] self.nav_table().contains_key(n)
                ==> n < self.nav_id_counter());
        }
    }

    /// A session detached: drop it and clear the routing slot of the target
    /// it pointed at.
    #[verifier::rlimit(100)]
    pub fn on_detached_from_target(&mut self, session_id: String)
        requires
            old(self).wf(),
        ensures
            final(self).wf(),
            detached_post(*old(self), *final(self), session_id),
    {
        match self.find_session_index(&session_id) {
            None => {},
            Some(si) => {
                let removed = self.sessions.remove(si);
                proof {
                    assert forall|i: int, j: int|
                        0 <= i < j < self.session_list().len() implies (
                    #[trigger] self.session_list()[i]).session_id@ != (
                    #[trigger] self.session_list()[j]).session_id@ by {
                        let oi: int = if i < si { i } else { i + 1 };
                        let oj: int = if j < si { j } else { j + 1 };
                        assert(self.sessions@[i] == old(self).sessions@[oi]);
                        assert(self.sessions@[j] == old(self).sessions@[oj]);
                    }
                }
                match self.find_target_index(&removed.target_id) {
                    Some(ti) => {
                        let mut t = self.targets.remove(ti);
                        t.clear_session();
                        self.targets.insert(ti, t);
                        proof {
                            let pre = old(self).targets_seq();
                            let post = self.targets_seq();
                            assert(post =~= pre.update(
                                ti as int,
                                (Target { session_id: None, ..pre[ti as int] }),
                            ));
                            assert(forall|j: int|
                                0 <= j < post.len() ==> (#[trigger] post[j]).target_id@ == pre[
                                    j
                                ].target_id@);
                            assert(forall|a: int, b: int|
                                0 <= a < b < post.len() ==> (#[trigger] post[a]).target_id@ != (
                                #[trigger] post[b]).target_id@);
                            assert(target_id_views(post) =~= target_id_views(pre));
                        }
                    },
                    None => {},
                }
            },
        }
        proof {
            assert(self.pending() == old(self).pending());
            assert(forall|k: u64| #[trigger] self.pending().contains_key(k)
                ==> k < self.connection().next_call_id());
            assert(self.nav_table() == old(self).nav_table());
            assert(forall|n: u64| #[trigger] self.nav_table().contains_key(n)
                ==> n < self.nav_id_counter());
        }
    }

    /// The index in the id list of this target id, when present.
    fn find_target_id_index(&self, target_id: &String) -> (r: Option<usize>)
        ensures
            match r {
                Some(i) => 0 <= i < self.target_id_list().len()
                    && self.target_id_list()[i as int]@ == target_id@,
                None => forall|i: int|
                    0 <= i < self.target_id_list().len() ==> (#[trigger] self.target_id_list()[
                        i
                    ])@ != target_id@,
            },
    {
        let mut i: usize = 0;
        while i < self.target_ids.len()
            invariant
                0 <= i <= self.target_ids@.len(),
                forall|j: int| 0 <= j < i ==> (#[trigger] self.target_ids@[j])@ != target_id@,
            decreases self.target_ids@.len() - i,
        {
            if self.target_ids[i] == *target_id {
                return Some(i);
            }
            i = i + 1;
        }
        None
    }

    /// A target was destroyed: drop it, take its id out of the iteration
    /// list, and drop its routing session if it had one.
    #[verifier::rlimit(100)]
    pub fn on_target_destroyed(&mut self, target_id: String)
        requires
            old(self).wf(),
        ensures
            final(self).wf(),
            destroyed_post(*old(self), *final(self), target_id),
    {
        match self.find_target_index(&target_id) {
            None => {},
            Some(ti) => {
                let t = self.targets.remove(ti);
                proof {
                    broadcast use vstd::seq_lib::group_to_multiset_ensures;

                    let pre = old(self).targets_seq();
                    let post = self.targets_seq();
                    assert forall|a: int, b: int|
                        0 <= a < b < post.len() implies (#[trigger] post[a]).target_id@ != (
                    #[trigger] post[b]).target_id@ by {
                        let oa: int = if a < ti { a } else { a + 1 };
                        let ob: int = if b < ti { b } else { b + 1 };
                        assert(post[a] == pre[oa]);
                        assert(post[b] == pre[ob]);
                    }
                    assert(target_id_views(post) =~= target_id_views(pre).remove(ti as int));
                }
                match self.find_target_id_index(&target_id) {
                    Some(li) => {
                        let _removed_id = self.target_ids.remove(li);
                        proof {
                            broadcast use vstd::seq_lib::group_to_multiset_ensures;

                            let pre_ids = old(self).target_id_list();
                            assert(id_views(self.target_id_list()) =~= id_views(pre_ids).remove(
                                li as int,
                            ));
                            assert(id_views(pre_ids)[li as int] == target_id@);
                            assert(target_id_views(old(self).targets_seq())[ti as int]
                                == target_id@);
                        }
                    },
                    None => {
                        proof {
                            broadcast use vstd::seq_lib::group_to_multiset_ensures;

                            assert(self.target_id_list() == old(self).target_id_list());
                            let pre_ids = id_views(old(self).target_id_list());
                            let pre_ts = target_id_views(old(self).targets_seq());
                            assert(pre_ts[ti as int] == target_id@);
                            assert(pre_ts.contains(target_id@));
                            assert(pre_ts.to_multiset().count(target_id@) > 0);
                            assert(pre_ids.to_multiset().count(target_id@) > 0);
                            assert(pre_ids.contains(target_id@));
                            let w = choose|i: int| 0 <= i < pre_ids.len() && pre_ids[i]
                                == target_id@;
                            assert(old(self).target_id_list()[w]@ == target_id@);
                            assert(false);
                        }
                    },
                }
                match &t.session_id {
                    Some(sid) => {
                        match self.find_session_index(sid) {
                            Some(si) => {
                                let _s = self.sessions.remove(si);
                                proof {
                                    assert forall|i: int, j: int|
                                        0 <= i < j < self.session_list().len() implies (
                                    #[trigger] self.session_list()[i]).session_id@ != (
                                    #[trigger] self.session_list()[j]).session_id@ by {
                                        let oi: int = if i < si { i } else { i + 1 };
                                        let oj: int = if j < si { j } else { j + 1 };
                                        assert(self.sessions@[i] == old(self).sessions@[oi]);
                                        assert(self.sessions@[j] == old(self).sessions@[oj]);
                                    }
                                }
                            },
                            None => {},
                        }
                    },
                    None => {},
                }
            },
        }
        proof {
            assert(self.pending() == old(self).pending());
            assert(forall|k: u64| #[trigger] self.pending().contains_key(k)
                ==> k < self.connection().next_call_id());
            assert(self.nav_table() == old(self).nav_table());
            assert(forall|n: u64| #[trigger] self.nav_table().contains_key(n)
                ==> n < self.nav_id_counter());
        }
    }

    /// An event arrived from the browser. A session-scoped event whose
    /// session and target are known goes to that target's state machine;
    /// otherwise the target bookkeeping events are decoded here and anything
    /// else is ignored.
    #[verifier::rlimit(100)]
    pub fn on_event(&mut self, event: CdpEventMessage)
        requires
            old(self).wf(),
        ensures
            final(self).wf(),
            Handler::commands_same(*old(self), *final(self)),
            Handler::nav_same(*old(self), *final(self)),
            Handler::config_same(*old(self), *final(self)),
            routed_index(old(self).session_list(), old(self).targets_seq(), event)
                matches Some(ti) ==> {
                &&& final(self).targets_seq() == old(self).targets_seq().update(
                    ti,
                    (Target {
                        nav: nav_after_event(old(self).targets_seq()[ti].nav, event.event),
                        ..old(self).targets_seq()[ti]
                    }),
                )
                &&& final(self).target_id_list() == old(self).target_id_list()
                &&& final(self).session_list() == old(self).session_list()
            },
            routed_index(old(self).session_list(), old(self).targets_seq(), event) is None
                ==> match event.event {
                CdpEvent::TargetCreated { target_id, kind } => target_created_post(
                    *old(self),
                    *final(self),
                    target_id,
                    kind,
                ),
                CdpEvent::AttachedToTarget { session_id, target_id, kind } => attached_post(
                    *old(self),
                    *final(self),
                    session_id,
                    kind,
                    target_id,
                ),
                CdpEvent::DetachedFromTarget { session_id } => detached_post(
                    *old(self),
                    *final(self),
                    session_id,
                ),
                CdpEvent::TargetDestroyed { target_id } => destroyed_post(
                    *old(self),
                    *final(self),
                    target_id,
                ),
                _ => Handler::registry_same(*old(self), *final(self)),
            },
    {
        let routed: Option<usize> = match &event.session_id {
            Some(sid) => match self.find_session_index(sid) {
                Some(si) => {
                    let tid = self.sessions[si].target_id.clone();
                    let found = self.find_target_index(&tid);
                    proof {
                        assert(session_index_of(self.session_list(), sid@) == Some(si as int))
                            by {
                            assert(self.session_list()[si as int].session_id@ == sid@);
                        }
                    }
                    found
                },
                None => None,
            },
            None => None,
        };
        match routed {
            Some(ti) => {
                let mut t = self.targets.remove(ti);
                t.on_event(event);
                self.targets.insert(ti, t);
                proof {
                    let pre = old(self).targets_seq();
                    let post = self.targets_seq();
                    assert(post =~= pre.update(
                        ti as int,
                        (Target { nav: post[ti as int].nav, ..pre[ti as int] }),
                    ));
                    assert(forall|j: int|
                        0 <= j < post.len() ==> (#[trigger] post[j]).target_id@ == pre[
                            j
                        ].target_id@);
                    assert(forall|a: int, b: int|
                        0 <= a < b < post.len() ==> (#[trigger] post[a]).target_id@ != (
                        #[trigger] post[b]).target_id@);
                    assert(target_id_views(post) =~= target_id_views(pre));
                    assert(self.session_list() == old(self).session_list());
                    assert(forall|i: int, j: int|
                        0 <= i < j < self.session_list().len() ==> (
                        #[trigger] self.session_list()[i]).session_id@ != (
                        #[trigger] self.session_list()[j]).session_id@);
                    assert(self.pending() == old(self).pending());
                    assert(forall|k: u64| #[trigger] self.pending().contains_key(k)
                        ==> k < self.connection().next_call_id());
                    assert(self.nav_table() == old(self).nav_table());
                    assert(forall|n: u64| #[trigger] self.nav_table().contains_key(n)
                        ==> n < self.nav_id_counter());
                }
            },
            None => {
                match event.event {
                    CdpEvent::TargetCreated { target_id, kind } => {
                        self.on_target_created(target_id, kind);
                    },
                    CdpEvent::AttachedToTarget { session_id, target_id, kind } => {
                        self.on_attached_to_target(session_id, kind, target_id);
                    },
                    CdpEvent::DetachedFromTarget { session_id } => {
                        self.on_detached_from_target(session_id);
                    },
                    CdpEvent::TargetDestroyed { target_id } => {
                        self.on_target_destroyed(target_id);
                    },
                    _ => {},
                }
            },
        }
    }
}

/// A pending entry is expired when it is strictly older than the timeout.
pub open spec fn expired(e: PendingEntry, now: u64, timeout: u64) -> bool {
    now > e.issued_at && now - e.issued_at > timeout
}

/// An effect that answers some caller with the timeout error.
pub open spec fn is_timeout_completion(e: Effect) -> bool {
    ||| e matches Effect::CompleteCommand { result: Err(CdpError::Timeout), .. }
    ||| e matches Effect::CompletePage { result: Err(CdpError::Timeout), .. }
}

/// The work all targets of a registry still owe, summed in order.
pub open spec fn total_work(ts: Seq<Target>) -> nat
    decreases ts.len(),
{
    if ts.len() == 0 {
        0
    } else {
        total_work(ts.drop_last()) + ts.last().work()
    }
}

/// Taking one target out takes exactly its work out of the sum.
proof fn lemma_total_work_remove(ts: Seq<Target>, i: int)
    requires
        0 <= i < ts.len(),
    ensures
        total_work(ts) == total_work(ts.remove(i)) + ts[i].work(),
    decreases ts.len(),
{
    if i == ts.len() - 1 {
        assert(ts.remove(i) =~= ts.drop_last());
    } else {
        assert(ts.remove(i).last() == ts.last());
        assert(ts.remove(i).drop_last() =~= ts.drop_last().remove(i));
        lemma_total_work_remove(ts.drop_last(), i);
        assert(ts.drop_last()[i] == ts[i]);
    }
}

/// Appending one target adds exactly its work to the sum.
proof fn lemma_total_work_push(ts: Seq<Target>, t: Target)
    ensures
        total_work(ts.push(t)) == total_work(ts) + t.work(),
{
    assert(ts.push(t).drop_last() =~= ts);
    assert(ts.push(t).last() == t);
}

/// Two registries whose targets owe the same work pointwise owe the same
/// sum.
proof fn lemma_total_work_congruent(a: Seq<Target>, b: Seq<Target>)
    requires
        a.len() == b.len(),
        forall|j: int| 0 <= j < a.len() ==> (#[trigger] a[j]).work() == b[j].work(),
    ensures
        total_work(a) == total_work(b),
    decreases a.len(),
{
    if a.len() > 0 {
        assert(forall|j: int|
            0 <= j < a.drop_last().len() ==> #[trigger] a.drop_last()[j] == a[j]);
        assert(forall|j: int|
            0 <= j < b.drop_last().len() ==> #[trigger] b.drop_last()[j] == b[j]);
        lemma_total_work_congruent(a.drop_last(), b.drop_last());
    }
}

/// Whether this incoming item is a response bearing this call-id.
pub open spec fn response_for(m: IncomingMessage, k: u64) -> bool {
    m matches IncomingMessage::Response(resp) && resp.id == k
}

/// Whether this item announces a target of this id outside any session
/// scope (a session-scoped copy would be routed to a target instead).
pub open spec fn announces_target(m: IncomingMessage, tid: Seq<char>) -> bool {
    &&& m matches IncomingMessage::Event(em)
    &&& em.session_id is None
    &&& em.event matches CdpEvent::TargetCreated { target_id, kind }
    &&& target_id@ == tid
}

/// Whether this item reports the target of this id destroyed.
pub open spec fn destroys_target(m: IncomingMessage, tid: Seq<char>) -> bool {
    &&& m matches IncomingMessage::Event(em)
    &&& em.event matches CdpEvent::TargetDestroyed { target_id }
    &&& target_id@ == tid
}

/// Every entry of the first table survives into the second unchanged.
pub open spec fn preserves_pending(
    pre: Map<u64, PendingEntry>,
    post: Map<u64, PendingEntry>,
) -> bool {
    forall|k: u64| #[trigger] pre.contains_key(k) ==> post.contains_key(k) && post[k] == pre[k]
}

/// The frames among these effects carry call-ids below the bound, in
/// strictly increasing order: submissions reach the wire in the order they
/// were made.
pub open spec fn sends_ordered_below(effects: Seq<Effect>, bound: u64) -> bool {
    &&& forall|i: int|
        0 <= i < effects.len() && (#[trigger] effects[i]) is Send ==> effects[i]->Send_0.id
            < bound
    &&& forall|i: int, j: int|
        0 <= i < j < effects.len() && (#[trigger] effects[i]) is Send && (#[trigger] effects[j])
            is Send ==> effects[i]->Send_0.id < effects[j]->Send_0.id
}

/// What one inbound client request must have left among these effects: a
/// run command's frame went out, a page-listing request was answered with
/// exactly the given pages, and a create-page request either put its
/// create-target command on the wire or, if the connection could no longer
/// frame it, answered its creator with the terminal transport error.
pub open spec fn inbound_answered(msg: HandlerMessage, effects: Seq<Effect>, ready: Seq<
    String,
>) -> bool {
    match msg {
        HandlerMessage::Command(cmd) => exists|i: int|
            0 <= i < effects.len() && ((#[trigger] effects[i]) matches Effect::Send(out)
                && out.method == cmd.method && out.session_id == cmd.session_id && out.params
                == cmd.params),
        HandlerMessage::GetPages { tx } => exists|i: int|
            0 <= i < effects.len() && ((#[trigger] effects[i]) matches Effect::CompletePages {
                tx: etx,
                pages,
            } && etx == tx && pages@ == ready),
        HandlerMessage::CreatePage { params, tx } => exists|i: int|
            0 <= i < effects.len() && (((#[trigger] effects[i]) matches Effect::Send(out)
                && out.method@ == create_target_method() && out.session_id is None && out.params
                == params) || effects[i] == (Effect::CompletePage {
                tx,
                result: Err(CdpError::Transport),
            })),
        HandlerMessage::Subscribe => true,
    }
}

/// Every inbound client request among these messages left its trace among
/// these effects.
pub open spec fn inbound_requests_answered(
    msgs: Seq<HandlerMessage>,
    effects: Seq<Effect>,
    ready: Seq<String>,
) -> bool {
    forall|m: int|
        0 <= m < msgs.len() ==> inbound_answered(#[trigger] msgs[m], effects, ready)
}

/// Appending effects keeps every inbound request's trace in place.
proof fn lemma_inbound_answers_grow(
    msgs: Seq<HandlerMessage>,
    pre: Seq<Effect>,
    post: Seq<Effect>,
    ready: Seq<String>,
)
    requires
        inbound_requests_answered(msgs, pre, ready),
        pre.len() <= post.len(),
        forall|i: int| 0 <= i < pre.len() ==> #[trigger] post[i] == pre[i],
    ensures
        inbound_requests_answered(msgs, post, ready),
{
    assert forall|m: int| 0 <= m < msgs.len() implies inbound_answered(
        #[trigger] msgs[m],
        post,
        ready,
    ) by {
        match msgs[m] {
            HandlerMessage::Command(cmd) => {
                let wi = choose|i: int|
                    0 <= i < pre.len() && ((#[trigger] pre[i]) matches Effect::Send(out)
                        && out.method == cmd.method && out.session_id == cmd.session_id
                        && out.params == cmd.params);
                assert(post[wi] == pre[wi]);
            },
            HandlerMessage::GetPages { tx } => {
                let wi = choose|i: int|
                    0 <= i < pre.len() && ((#[trigger] pre[i]) matches Effect::CompletePages {
                        tx: etx,
                        pages,
                    } && etx == tx && pages@ == ready);
                assert(post[wi] == pre[wi]);
            },
            HandlerMessage::CreatePage { params, tx } => {
                let wi = choose|i: int|
                    0 <= i < pre.len() && (((#[trigger] pre[i]) matches Effect::Send(out)
                        && out.method@ == create_target_method() && out.session_id is None
                        && out.params == params) || pre[i] == (Effect::CompletePage {
                        tx,
                        result: Err(CdpError::Transport),
                    }));
                assert(post[wi] == pre[wi]);
            },
            HandlerMessage::Subscribe => {},
        }
    }
}

/// Two registries with the same ids and sessions offer the same pages.
proof fn lemma_ready_pages_congruent(a: Seq<Target>, b: Seq<Target>)
    requires
        a.len() == b.len(),
        forall|j: int|
            0 <= j < a.len() ==> (#[trigger] a[j]).target_id == b[j].target_id && a[j].session_id
                == b[j].session_id,
    ensures
        ready_pages(a) == ready_pages(b),
    decreases a.len(),
{
    if a.len() > 0 {
        assert(forall|j: int|
            0 <= j < a.drop_last().len() ==> #[trigger] a.drop_last()[j] == a[j]);
        assert(forall|j: int|
            0 <= j < b.drop_last().len() ==> #[trigger] b.drop_last()[j] == b[j]);
        lemma_ready_pages_congruent(a.drop_last(), b.drop_last());
    }
}

/// The pages of the targets that can produce one, in registry order.
pub open spec fn ready_pages(ts: Seq<Target>) -> Seq<String>
    decreases ts.len(),
{
    if ts.len() == 0 {
        Seq::empty()
    } else {
        let init = ready_pages(ts.drop_last());
        if ts.last().session_id is Some {
            init.push(ts.last().target_id)
        } else {
            init
        }
    }
}

/// Which target a session-scoped event is routed to: the target of the
/// event's session, when both the session and that target are known.
pub open spec fn routed_index(ss: Seq<Session>, ts: Seq<Target>, ev: CdpEventMessage) -> Option<
    int,
> {
    match ev.session_id {
        Some(sid) => match session_index_of(ss, sid@) {
            Some(si) => target_index_of(ts, ss[si].target_id@),
            None => None,
        },
        None => None,
    }
}

/// What creating a target does: nothing for an id already tracked, else one
/// fresh target appended to the registry and its id to the iteration list.
pub open spec fn target_created_post(
    pre: Handler,
    post: Handler,
    target_id: String,
    kind: String,
) -> bool {
    &&& Handler::commands_same(pre, post)
    &&& Handler::nav_same(pre, post)
    &&& Handler::config_same(pre, post)
    &&& post.session_list() == pre.session_list()
    &&& if has_target(pre.targets_seq(), target_id@) {
        &&& post.targets_seq() == pre.targets_seq()
        &&& post.target_id_list() == pre.target_id_list()
    } else {
        &&& post.targets_seq().len() == pre.targets_seq().len() + 1
        &&& post.targets_seq().drop_last() == pre.targets_seq()
        &&& post.targets_seq().last().target_id == target_id
        &&& post.targets_seq().last().kind == kind
        &&& post.targets_seq().last().session_id is None
        &&& post.targets_seq().last().initiator is None
        &&& !post.targets_seq().last().page_created
        &&& post.targets_seq().last().nav is Idle
        &&& post.targets_seq().last().init_requests@ == Seq::<CdpRequest>::empty()
        &&& post.targets_seq().last().inbox@ == Seq::<CommandMessage>::empty()
        &&& post.target_id_list() == pre.target_id_list().push(target_id)
    }
}

/// What attaching a session does: the session table maps the session id to
/// the target (the last attachment wins), and a known target's routing slot
/// points at the new session.
pub open spec fn attached_post(
    pre: Handler,
    post: Handler,
    session_id: String,
    kind: String,
    target_id: String,
) -> bool {
    &&& Handler::commands_same(pre, post)
    &&& Handler::nav_same(pre, post)
    &&& Handler::config_same(pre, post)
    &&& post.target_id_list() == pre.target_id_list()
    &&& if has_session(pre.session_list(), session_id@) {
        exists|si: int|
            0 <= si < pre.session_list().len() && (#[trigger] pre.session_list()[si]).session_id@
                == session_id@ && post.session_list() == pre.session_list().update(
                si,
                (Session { session_id, target_id, kind }),
            )
    } else {
        post.session_list() == pre.session_list().push(
            (Session { session_id, target_id, kind }),
        )
    }
    &&& if has_target(pre.targets_seq(), target_id@) {
        exists|ti: int|
            0 <= ti < pre.targets_seq().len() && (#[trigger] pre.targets_seq()[ti]).target_id@
                == target_id@ && post.targets_seq() == pre.targets_seq().update(
                ti,
                (Target { session_id: Some(session_id), ..pre.targets_seq()[ti] }),
            )
    } else {
        post.targets_seq() == pre.targets_seq()
    }
}

/// What detaching a session does: the session leaves the table and the
/// target it routed to forgets it.
pub open spec fn detached_post(pre: Handler, post: Handler, session_id: String) -> bool {
    &&& Handler::commands_same(pre, post)
    &&& Handler::nav_same(pre, post)
    &&& Handler::config_same(pre, post)
    &&& post.target_id_list() == pre.target_id_list()
    &&& if has_session(pre.session_list(), session_id@) {
        exists|si: int|
            0 <= si < pre.session_list().len() && (#[trigger] pre.session_list()[si]).session_id@
                == session_id@ && post.session_list() == pre.session_list().remove(si) && {
                let tid = pre.session_list()[si].target_id;
                if has_target(pre.targets_seq(), tid@) {
                    exists|ti: int|
                        0 <= ti < pre.targets_seq().len() && (#[trigger] pre.targets_seq()[
                            ti
                        ]).target_id@ == tid@ && post.targets_seq() == pre.targets_seq().update(
                            ti,
                            (Target { session_id: None, ..pre.targets_seq()[ti] }),
                        )
                } else {
                    post.targets_seq() == pre.targets_seq()
                }
            }
    } else {
        &&& post.session_list() == pre.session_list()
        &&& post.targets_seq() == pre.targets_seq()
    }
}

/// What destroying a target does: the target leaves the registry, its id
/// leaves the iteration list, and its routing session (if any) leaves the
/// session table.
pub open spec fn destroyed_post(pre: Handler, post: Handler, target_id: String) -> bool {
    &&& Handler::commands_same(pre, post)
    &&& Handler::nav_same(pre, post)
    &&& Handler::config_same(pre, post)
    &&& if has_target(pre.targets_seq(), target_id@) {
        exists|ti: int|
            0 <= ti < pre.targets_seq().len() && (#[trigger] pre.targets_seq()[ti]).target_id@
                == target_id@ && post.targets_seq() == pre.targets_seq().remove(ti) && (
            exists|li: int|
                0 <= li < pre.target_id_list().len() && (#[trigger] pre.target_id_list()[li])@
                    == target_id@ && post.target_id_list() == pre.target_id_list().remove(li)) && {
                let gone = pre.targets_seq()[ti];
                match gone.session_id {
                    Some(sid) => {
                        if has_session(pre.session_list(), sid@) {
                            exists|si: int|
                                0 <= si < pre.session_list().len() && (
                                #[trigger] pre.session_list()[si]).session_id@ == sid@
                                    && post.session_list() == pre.session_list().remove(si)
                        } else {
                            post.session_list() == pre.session_list()
                        }
                    },
                    None => post.session_list() == pre.session_list(),
                }
            }
    } else {
        &&& post.targets_seq() == pre.targets_seq()
        &&& post.session_list() == pre.session_list()
        &&& post.target_id_list() == pre.target_id_list()
    }
}

/// The method that asks the browser for a new target.
pub open spec fn create_target_method() -> Seq<char> {
    "Target.createTarget"@
}

/// The reply handles a response for this call-id answers: one for an
/// external command or a waiting page creator, none for the other intents,
/// whose callers are answered through the navigation coordinator or the
/// target machinery.
pub open spec fn answered_senders(req: PendingRequest) -> Seq<u64> {
    match req {
        PendingRequest::ExternalCommand { tx } => seq![tx],
        PendingRequest::CreateTarget { tx } => seq![tx],
        _ => Seq::empty(),
    }
}

/// The pending table's move on one response, as [`Handler::on_response`]
/// ensures it: the call-id's entry leaves the table, its waiting caller (if
/// any) is answered, and a response for an absent call-id does nothing.
pub open spec fn respond_step(p: Map<u64, PendingEntry>, id: u64) -> (
    Map<u64, PendingEntry>,
    Seq<u64>,
) {
    if p.contains_key(id) {
        (p.remove(id), answered_senders(p[id].request))
    } else {
        (p, Seq::empty())
    }
}

/// The pending table's moves over a whole sequence of responses, in order.
pub open spec fn respond_all(p: Map<u64, PendingEntry>, ids: Seq<u64>) -> (
    Map<u64, PendingEntry>,
    Seq<u64>,
)
    decreases ids.len(),
{
    if ids.len() == 0 {
        (p, Seq::empty())
    } else {
        let first = respond_step(p, ids[0]);
        let rest = respond_all(first.0, ids.drop_first());
        (rest.0, first.1 + rest.1)
    }
}

/// The answers each caller is owed: one per entry, read off the original
/// table in response order.
pub open spec fn owed_answers(p: Map<u64, PendingEntry>, ids: Seq<u64>) -> Seq<u64>
    decreases ids.len(),
{
    if ids.len() == 0 {
        Seq::empty()
    } else {
        answered_senders(p[ids[0]].request) + owed_answers(p, ids.drop_first())
    }
}

proof fn lemma_owed_answers_agree(p1: Map<u64, PendingEntry>, p2: Map<u64, PendingEntry>, ids: Seq<
    u64,
>)
    requires
        forall|i: int|
            0 <= i < ids.len() ==> p1.contains_key(#[trigger] ids[i]) && p2.contains_key(ids[i])
                && p1[ids[i]] == p2[ids[i]],
    ensures
        owed_answers(p1, ids) == owed_answers(p2, ids),
    decreases ids.len(),
{
    if ids.len() > 0 {
        assert(forall|i: int|
            0 <= i < ids.drop_first().len() ==> #[trigger] ids.drop_first()[i] == ids[i + 1]);
        lemma_owed_answers_agree(p1, p2, ids.drop_first());
    }
}

/// Law: for any order in which a response arrives for every pending
/// call-id, each exactly once, every waiting caller is answered exactly
/// once — the answers are exactly those owed — and the pending table ends
/// empty.
pub proof fn lemma_every_caller_answered_once(p: Map<u64, PendingEntry>, ids: Seq<u64>)
    requires
        ids.no_duplicates(),
        forall|k: u64| #[trigger] p.contains_key(k) <==> ids.contains(k),
    ensures
        respond_all(p, ids).0 =~= Map::empty(),
        respond_all(p, ids).1 == owed_answers(p, ids),
    decreases ids.len(),
{
    if ids.len() == 0 {
        assert forall|k: u64| !(#[trigger] respond_all(p, ids).0.contains_key(k)) by {
            if p.contains_key(k) {
                assert(ids.contains(k));
            }
        }
    } else {
        let id0 = ids[0];
        assert(ids.contains(id0));
        assert(p.contains_key(id0));
        let p1 = p.remove(id0);
        let rest = ids.drop_first();
        assert(forall|i: int| 0 <= i < rest.len() ==> #[trigger] rest[i] == ids[i + 1]);
        assert forall|k: u64| #[trigger] p1.contains_key(k) <==> rest.contains(k) by {
            if p1.contains_key(k) {
                assert(p.contains_key(k));
                assert(ids.contains(k));
                let i = choose|i: int| 0 <= i < ids.len() && ids[i] == k;
                assert(i != 0);
                assert(rest[i - 1] == k);
            }
            if rest.contains(k) {
                let i = choose|i: int| 0 <= i < rest.len() && rest[i] == k;
                assert(ids[i + 1] == k);
                assert(ids.contains(k));
                assert(p.contains_key(k));
                assert(ids[0] != ids[i + 1]);
            }
        }
        assert(rest.no_duplicates());
        lemma_every_caller_answered_once(p1, rest);
        assert forall|i: int|
            0 <= i < rest.len() implies p1.contains_key(#[trigger] rest[i]) && p.contains_key(
            rest[i],
        ) && p1[rest[i]] == p[rest[i]] by {
            assert(rest.contains(rest[i]));
        }
        lemma_owed_answers_agree(p1, p, rest);
    }
}

/// Law: a second delivery of a response changes nothing and answers nobody:
/// after the first response took the call-id's entry out of the table, the
/// duplicate finds no entry.
pub proof fn lemma_duplicate_response_dropped(p: Map<u64, PendingEntry>, id: u64)
    ensures
        !respond_step(p, id).0.contains_key(id),
        respond_step(respond_step(p, id).0, id).0 == respond_step(p, id).0,
        respond_step(respond_step(p, id).0, id).1 == Seq::<u64>::empty(),
{
}

/// A navigation entry on which neither signal has arrived yet.
pub open spec fn fresh_navigation(navs: Map<u64, NavigationRequest>, id: u64, tx: u64) -> bool {
    &&& navs.contains_key(id)
    &&& navs[id] == NavigationRequest::Goto(NavigationInProgress {
        navigated: false,
        response: None,
        tx,
    })
}

/// Law: when the navigate command's reply arrives first and the lifecycle
/// completes later, the caller is answered exactly once, with the reply,
/// only on the second signal, and the entry is gone.
pub proof fn lemma_navigation_response_then_lifecycle(
    navs: Map<u64, NavigationRequest>,
    id: u64,
    tx: u64,
    resp: Response,
)
    requires
        fresh_navigation(navs, id, tx),
    ensures
        ({
            let s1 = nav_response_step(navs, id, resp);
            let s2 = nav_lifecycle_ok_step(s1.0, id);
            &&& s1.1 == Seq::<Effect>::empty()
            &&& s2.1 == seq![Effect::CompleteCommand { tx, result: Ok(resp) }]
            &&& !s2.0.contains_key(id)
        }),
{
}

/// Law: when the lifecycle completes first and the navigate command's reply
/// arrives later, the caller is answered exactly once, with the reply, only
/// on the second signal, and the entry is gone.
pub proof fn lemma_navigation_lifecycle_then_response(
    navs: Map<u64, NavigationRequest>,
    id: u64,
    tx: u64,
    resp: Response,
)
    requires
        fresh_navigation(navs, id, tx),
    ensures
        ({
            let s1 = nav_lifecycle_ok_step(navs, id);
            let s2 = nav_response_step(s1.0, id, resp);
            &&& s1.1 == Seq::<Effect>::empty()
            &&& s2.1 == seq![Effect::CompleteCommand { tx, result: Ok(resp) }]
            &&& !s2.0.contains_key(id)
        }),
{
}

/// Law: a lifecycle failure answers the caller at once with the navigation
/// error, whether or not the reply was already stored, and a reply arriving
/// afterwards answers nobody.
pub proof fn lemma_navigation_fails_once(
    navs: Map<u64, NavigationRequest>,
    id: u64,
    tx: u64,
    resp: Response,
    kind: String,
)
    requires
        fresh_navigation(navs, id, tx),
    ensures
        ({
            let s1 = nav_lifecycle_err_step(navs, id, kind);
            let s2 = nav_response_step(s1.0, id, resp);
            &&& s1.1 == seq![
                Effect::CompleteCommand { tx, result: Err(CdpError::Navigation { kind }) },
            ]
            &&& s2.1 == Seq::<Effect>::empty()
            &&& !s2.0.contains_key(id)
        }),
{
}

/// Law: a lifecycle failure after the reply was stored also answers the
/// caller exactly once, with the navigation error, and drops the entry.
pub proof fn lemma_navigation_response_then_failure(
    navs: Map<u64, NavigationRequest>,
    id: u64,
    tx: u64,
    resp: Response,
    kind: String,
)
    requires
        fresh_navigation(navs, id, tx),
    ensures
        ({
            let s1 = nav_response_step(navs, id, resp);
            let s2 = nav_lifecycle_err_step(s1.0, id, kind);
            &&& s1.1 == Seq::<Effect>::empty()
            &&& s2.1 == seq![
                Effect::CompleteCommand { tx, result: Err(CdpError::Navigation { kind }) },
            ]
            &&& !s2.0.contains_key(id)
        }),
{
}

} // verus!

