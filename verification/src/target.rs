use vstd::prelude::*;

use crate::navigation::{NavigationError, NavigationOk};
use crate::wire::{
    is_terminal_lifecycle, CdpEvent, CdpEventMessage, CdpRequest, CommandMessage, Response,
};

verus! {

/// The per-target navigation sub-machine.
///
/// A navigation is requested by a caller, turned into a wire command, and is
/// in flight until the frame lifecycle reports completion or failure; the
/// command's reply travels separately through the pending-command table.
#[derive(Debug)]
pub enum NavState {
    /// No pending navigation.
    Idle,
    /// A caller asked to navigate; the navigate command must still be
    /// emitted.
    Requested { navigation_id: u64, request: CdpRequest },
    /// The navigate command went out; waiting for the frame lifecycle.
    InFlight { navigation_id: u64 },
    /// The lifecycle completed; the result must still be emitted.
    Done { navigation_id: u64 },
    /// The lifecycle failed; the failure must still be emitted.
    Failed { navigation_id: u64, kind: String },
}

/// What a target's poll can hand to the event loop.
#[derive(Debug)]
pub enum TargetEvent {
    /// Submit this internal command on the target's behalf.
    Request(CdpRequest),
    /// An internal command of this target went unanswered too long.
    RequestTimeout { call_id: u64 },
    /// A client message forwarded through the target's page handle.
    Message(CommandMessage),
    /// Submit the navigate command for this navigation.
    NavigationRequest { navigation_id: u64, request: CdpRequest },
    /// The frame lifecycle settled this navigation.
    NavigationResult(Result<NavigationOk, NavigationError>),
    /// The target is initialized; deliver its page to the waiting creator.
    PageReady { tx: u64, target_id: String },
}

/// One browser target and the state the core keeps for it. Only the event
/// loop mutates a target, and only while it is detached from the registry.
#[derive(Debug)]
pub struct Target {
    /// The browser's identifier for this target.
    pub target_id: String,
    /// The target's type (page, worker, ...).
    pub kind: String,
    /// The session currently used to route commands to this target.
    pub session_id: Option<String>,
    /// Reply handle of the caller awaiting this target's page, if any.
    pub initiator: Option<u64>,
    /// Whether a page handle has been produced for this target.
    pub page_created: bool,
    /// Internal commands queued for submission (such as enabling events);
    /// the surrounding runtime fills this queue through
    /// [`Target::enqueue_request`] when a target needs setup commands.
    pub init_requests: Vec<CdpRequest>,
    /// Client messages forwarded by the target's page handle.
    pub inbox: Vec<CommandMessage>,
    /// Responses to this target's internal commands, delivered by call-id
    /// dispatch and kept for the target's own machinery; they produce no
    /// loop event.
    pub responses: Vec<Response>,
    /// The navigation sub-machine.
    pub nav: NavState,
}

/// The navigation sub-machine's move on a session-routed event: a terminal
/// lifecycle name completes the in-flight navigation, a reported failure
/// fails it, anything else leaves it alone.
pub open spec fn nav_after_event(nav: NavState, ev: CdpEvent) -> NavState {
    match ev {
        CdpEvent::Lifecycle { name } => {
            if nav matches NavState::InFlight { navigation_id }
                && crate::wire::spec_terminal_lifecycle(name@) {
                NavState::Done { navigation_id: nav->InFlight_navigation_id }
            } else {
                nav
            }
        },
        CdpEvent::NavigationFailed { kind } => {
            if nav matches NavState::InFlight { navigation_id } {
                NavState::Failed { navigation_id: nav->InFlight_navigation_id, kind }
            } else {
                nav
            }
        },
        _ => nav,
    }
}

/// How much emitting the navigation sub-machine still owes: one event for a
/// request not yet on the wire and one for a result not yet delivered.
pub open spec fn nav_work(n: NavState) -> nat {
    match n {
        NavState::Idle => 0,
        NavState::Requested { .. } => 1,
        NavState::InFlight { .. } => 0,
        NavState::Done { .. } => 1,
        NavState::Failed { .. } => 1,
    }
}

impl Target {
    /// How many more events this target can emit before its poll returns
    /// none, if no new work arrives. A forwarded message weighs two because
    /// handling it may enqueue one navigation.
    pub open spec fn work(self) -> nat {
        self.init_requests@.len() + 2 * self.inbox@.len() + nav_work(self.nav) + (
        if self.initiator is Some && self.session_id is Some {
            1nat
        } else {
            0nat
        })
    }

    /// Everything but the queues and the sub-machine is the same.
    pub open spec fn same_identity(pre: Target, post: Target) -> bool {
        &&& post.target_id == pre.target_id
        &&& post.kind == pre.kind
    }

    /// What one successful poll does: the first ready source emits, in the
    /// fixed priority order, and everything else stays as it was.
    pub open spec fn poll_transition(pre: Target, post: Target, ev: TargetEvent) -> bool {
        &&& Target::same_identity(pre, post)
        &&& if pre.init_requests@.len() > 0 {
            &&& ev == TargetEvent::Request(pre.init_requests@[0])
            &&& post.init_requests@ == pre.init_requests@.drop_first()
            &&& post.inbox == pre.inbox
            &&& post.responses == pre.responses
            &&& post.nav == pre.nav
            &&& post.session_id == pre.session_id
            &&& post.initiator == pre.initiator
            &&& post.page_created == pre.page_created
        } else if pre.nav is Requested {
            &&& pre.nav matches NavState::Requested { navigation_id, request } ==> {
                &&& ev == (TargetEvent::NavigationRequest { navigation_id, request })
                &&& post.nav == (NavState::InFlight { navigation_id })
            }
            &&& post.init_requests == pre.init_requests
            &&& post.inbox == pre.inbox
            &&& post.responses == pre.responses
            &&& post.session_id == pre.session_id
            &&& post.initiator == pre.initiator
            &&& post.page_created == pre.page_created
        } else if pre.nav is Done {
            &&& pre.nav matches NavState::Done { navigation_id } ==> ev
                == TargetEvent::NavigationResult(Ok(NavigationOk { navigation_id }))
            &&& post.nav is Idle
            &&& post.init_requests == pre.init_requests
            &&& post.inbox == pre.inbox
            &&& post.responses == pre.responses
            &&& post.session_id == pre.session_id
            &&& post.initiator == pre.initiator
            &&& post.page_created == pre.page_created
        } else if pre.nav is Failed {
            &&& pre.nav matches NavState::Failed { navigation_id, kind } ==> ev
                == TargetEvent::NavigationResult(Err(NavigationError { navigation_id, kind }))
            &&& post.nav is Idle
            &&& post.init_requests == pre.init_requests
            &&& post.inbox == pre.inbox
            &&& post.responses == pre.responses
            &&& post.session_id == pre.session_id
            &&& post.initiator == pre.initiator
            &&& post.page_created == pre.page_created
        } else if pre.inbox@.len() > 0 {
            &&& ev == TargetEvent::Message(pre.inbox@[0])
            &&& post.inbox@ == pre.inbox@.drop_first()
            &&& post.init_requests == pre.init_requests
            &&& post.responses == pre.responses
            &&& post.nav == pre.nav
            &&& post.session_id == pre.session_id
            &&& post.initiator == pre.initiator
            &&& post.page_created == pre.page_created
        } else if pre.initiator is Some && pre.session_id is Some {
            &&& ev == (TargetEvent::PageReady {
                tx: pre.initiator->0,
                target_id: pre.target_id,
            })
            &&& post.initiator is None
            &&& post.page_created == true
            &&& post.init_requests == pre.init_requests
            &&& post.inbox == pre.inbox
            &&& post.responses == pre.responses
            &&& post.nav == pre.nav
            &&& post.session_id == pre.session_id
        } else {
            false
        }
    }

    /// A fresh target, as created on a target-created event: nothing queued,
    /// no session, no navigation, no page yet.
    pub fn new(target_id: String, kind: String) -> (t: Target)
        ensures
            t.target_id == target_id,
            t.kind == kind,
            t.session_id is None,
            t.initiator is None,
            !t.page_created,
            t.init_requests@ == Seq::<CdpRequest>::empty(),
            t.inbox@ == Seq::<CommandMessage>::empty(),
            t.responses@ == Seq::<Response>::empty(),
            t.nav is Idle,
    {
        Target {
            target_id,
            kind,
            session_id: None,
            initiator: None,
            page_created: false,
            init_requests: Vec::new(),
            inbox: Vec::new(),
            responses: Vec::new(),
            nav: NavState::Idle,
        }
    }

    /// Routes commands through this session from now on; the last attached
    /// session wins.
    pub fn set_session_id(&mut self, session_id: String)
        ensures
            *final(self) == (Target { session_id: Some(session_id), ..*old(self) }),
    {
        self.session_id = Some(session_id);
    }

    /// Forgets the current session after a detach.
    pub fn clear_session(&mut self)
        ensures
            *final(self) == (Target { session_id: None, ..*old(self) }),
    {
        self.session_id = None;
    }

    /// Installs the reply handle that will receive this target's page once
    /// the target has initialized.
    pub fn set_initiator(&mut self, tx: u64)
        ensures
            *final(self) == (Target { initiator: Some(tx), ..*old(self) }),
    {
        self.initiator = Some(tx);
    }

    /// Accepts a navigation for this target; the navigate command is emitted
    /// on a later poll. A newer navigation replaces an unfinished one.
    pub fn goto(&mut self, navigation_id: u64, request: CdpRequest)
        ensures
            *final(self) == (Target {
                nav: NavState::Requested { navigation_id, request },
                ..*old(self)
            }),
            final(self).work() <= old(self).work() + 1,
    {
        self.nav = NavState::Requested { navigation_id, request };
    }

    /// Queues a client message forwarded by the target's page handle.
    pub fn enqueue_message(&mut self, msg: CommandMessage)
        ensures
            *final(self) == (Target {
                inbox: final(self).inbox,
                ..*old(self)
            }),
            final(self).inbox@ == old(self).inbox@.push(msg),
    {
        self.inbox.push(msg);
    }

    /// Queues an internal command for submission on a later poll.
    pub fn enqueue_request(&mut self, req: CdpRequest)
        ensures
            *final(self) == (Target {
                init_requests: final(self).init_requests,
                ..*old(self)
            }),
            final(self).init_requests@ == old(self).init_requests@.push(req),
    {
        self.init_requests.push(req);
    }

    /// Takes the response of one of this target's internal commands,
    /// delivered by the call-id dispatcher, and keeps it for the target's
    /// own machinery.
    pub fn on_response(&mut self, resp: Response)
        ensures
            *final(self) == (Target { responses: final(self).responses, ..*old(self) }),
            final(self).responses@ == old(self).responses@.push(resp),
    {
        self.responses.push(resp);
    }

    /// Takes a session-routed event. A terminal lifecycle name completes the
    /// in-flight navigation, a reported failure fails it; everything else is
    /// ignored here.
    pub fn on_event(&mut self, event: CdpEventMessage)
        ensures
            *final(self) == (Target {
                nav: nav_after_event(old(self).nav, event.event),
                ..*old(self)
            }),
    {
        match event.event {
            CdpEvent::Lifecycle { name } => {
                if let NavState::InFlight { navigation_id } = self.nav {
                    if is_terminal_lifecycle(&name) {
                        self.nav = NavState::Done { navigation_id };
                    }
                }
            },
            CdpEvent::NavigationFailed { kind } => {
                if let NavState::InFlight { navigation_id } = self.nav {
                    self.nav = NavState::Failed { navigation_id, kind };
                }
            },
            _ => {},
        }
    }

    /// The page handle for this target, created lazily; none before a
    /// session is attached.
    pub fn get_or_create_page(&mut self) -> (r: Option<String>)
        ensures
            Target::same_identity(*old(self), *final(self)),
            final(self).init_requests == old(self).init_requests,
            final(self).inbox == old(self).inbox,
            final(self).responses == old(self).responses,
            final(self).session_id == old(self).session_id,
            final(self).initiator == old(self).initiator,
            final(self).nav == old(self).nav,
            old(self).session_id is Some ==> r == Some(old(self).target_id)
                && final(self).page_created,
            old(self).session_id is None ==> r is None
                && final(self).page_created == old(self).page_created,
    {
        if self.session_id.is_some() {
            self.page_created = true;
            Some(self.target_id.clone())
        } else {
            None
        }
    }

    /// Hands out the next ready event, or none when the target has no work.
    /// Sources are served in a fixed priority order: queued internal
    /// requests, then the navigation sub-machine, then forwarded messages,
    /// then page delivery.
    pub fn poll(&mut self) -> (r: Option<TargetEvent>)
        ensures
            match r {
                None => *final(self) == *old(self) && old(self).work() == 0,
                Some(ev) => {
                    &&& Target::poll_transition(*old(self), *final(self), ev)
                    &&& final(self).work() < old(self).work()
                    &&& (ev matches TargetEvent::Message(_) ==> final(self).work() + 2
                        <= old(self).work())
                },
            },
    {
        if self.init_requests.len() > 0 {
            let req = self.init_requests.remove(0);
            return Some(TargetEvent::Request(req));
        }
        let mut nav_state = NavState::Idle;
        core::mem::swap(&mut self.nav, &mut nav_state);
        match nav_state {
            NavState::Requested { navigation_id, request } => {
                self.nav = NavState::InFlight { navigation_id };
                return Some(TargetEvent::NavigationRequest { navigation_id, request });
            },
            NavState::Done { navigation_id } => {
                return Some(TargetEvent::NavigationResult(Ok(NavigationOk { navigation_id })));
            },
            NavState::Failed { navigation_id, kind } => {
                return Some(TargetEvent::NavigationResult(Err(NavigationError {
                    navigation_id,
                    kind,
                })));
            },
            other => {
                self.nav = other;
            },
        }
        if self.inbox.len() > 0 {
            let msg = self.inbox.remove(0);
            return Some(TargetEvent::Message(msg));
        }
        if self.initiator.is_some() && self.session_id.is_some() {
            let tx = self.initiator.unwrap();
            self.initiator = None;
            self.page_created = true;
            return Some(TargetEvent::PageReady { tx, target_id: self.target_id.clone() });
        }
        None
    }
}

} // verus!
