use vstd::prelude::*;

use crate::error::CdpError;
use crate::json::{json_field, json_str, value_as_str, value_get};

verus! {

/// The error payload a response may carry in place of a result.
#[derive(Debug)]
pub struct RequestError {
    pub code: i64,
    pub message: String,
}

/// An incoming answer to a previously submitted command, correlated by `id`.
/// A well-formed response carries exactly one of `result` and `error`.
#[derive(Debug)]
pub struct Response {
    pub id: u64,
    pub result: Option<serde_json::Value>,
    pub error: Option<RequestError>,
}

/// A response whose result slot was present: the successful outcome of one
/// command, still carrying the raw payload. Decoding the payload into a
/// typed shape, like echoing the method name, is serialization and stays
/// with the runtime outside the core.
#[derive(Debug)]
pub struct CommandResponse {
    pub id: u64,
    pub result: serde_json::Value,
}

/// What [`to_command_response`] returns for each shape of response.
pub open spec fn spec_to_command_response(resp: Response) -> Result<CommandResponse, CdpError> {
    if resp.result is Some {
        Ok(CommandResponse { id: resp.id, result: resp.result->0 })
    } else if resp.error is Some {
        Err(CdpError::Protocol {
            code: resp.error->0.code,
            message: resp.error->0.message,
        })
    } else {
        Err(CdpError::NoResponse)
    }
}

/// Triage of a raw response: a present result slot wins, an error payload
/// becomes a protocol error, and a response carrying neither is itself a
/// protocol violation.
pub fn to_command_response(resp: Response) -> (r: Result<CommandResponse, CdpError>)
    ensures
        r == spec_to_command_response(resp),
{
    match resp.result {
        Some(v) => Ok(CommandResponse { id: resp.id, result: v }),
        None => match resp.error {
            Some(e) => Err(CdpError::Protocol { code: e.code, message: e.message }),
            None => Err(CdpError::NoResponse),
        },
    }
}

/// The response that encodes a successful command outcome on the wire.
pub open spec fn spec_response_of(cr: CommandResponse) -> Response {
    Response { id: cr.id, result: Some(cr.result), error: None }
}

/// Law: encoding a command response as a wire response and decoding it again
/// through [`to_command_response`] gives the command response back unchanged.
pub proof fn lemma_command_response_round_trip(cr: CommandResponse)
    ensures
        spec_to_command_response(spec_response_of(cr)) == Ok::<CommandResponse, CdpError>(cr),
{
}

/// An internal command a target asks the core to submit on its behalf,
/// already shaped for the wire but not yet carrying a call-id.
#[derive(Debug)]
pub struct CdpRequest {
    pub method: String,
    pub session_id: Option<String>,
    pub params: serde_json::Value,
}

/// A client's request to run one command, with the reply handle that will
/// receive the raw response.
#[derive(Debug)]
pub struct CommandMessage {
    pub method: String,
    pub session_id: Option<String>,
    pub params: serde_json::Value,
    pub sender: u64,
}

/// The method name whose commands are treated as navigations.
pub open spec fn navigate_method() -> Seq<char> {
    "Page.navigate"@
}

impl CommandMessage {
    /// Whether this command starts a navigation: its method is the navigate
    /// method of the page domain.
    pub fn is_navigation(&self) -> (r: bool)
        ensures
            r == (self.method@ == navigate_method()),
    {
        let nav: String = String::from_str("Page.navigate");
        self.method == nav
    }

    /// Splits the message into the request to put on the wire and the reply
    /// handle to answer later.
    pub fn split(self) -> (r: (CdpRequest, u64))
        ensures
            r.0 == (CdpRequest {
                method: self.method,
                session_id: self.session_id,
                params: self.params,
            }),
            r.1 == self.sender,
    {
        let CommandMessage { method, session_id, params, sender } = self;
        (CdpRequest { method, session_id, params }, sender)
    }
}

/// The events the core itself decodes; anything else passes through as
/// `Other` and is ignored at the routing layer or buffered by a target.
#[derive(Debug)]
pub enum CdpEvent {
    TargetCreated { target_id: String, kind: String },
    AttachedToTarget { session_id: String, target_id: String, kind: String },
    DetachedFromTarget { session_id: String },
    TargetDestroyed { target_id: String },
    /// A frame lifecycle step of the session's in-flight navigation;
    /// `load` and `networkIdle` are the terminal names.
    Lifecycle { name: String },
    /// The frame lifecycle reported that the in-flight navigation failed.
    NavigationFailed { kind: String },
    Other { method: String },
}

/// An event as delivered by the browser, with the session it belongs to when
/// it is scoped to one.
#[derive(Debug)]
pub struct CdpEventMessage {
    pub session_id: Option<String>,
    pub event: CdpEvent,
}

/// A lifecycle name that completes a navigation: the frame reached `load` or
/// went network-idle.
pub open spec fn spec_terminal_lifecycle(name: Seq<char>) -> bool {
    name == "load"@ || name == "networkIdle"@
}

/// Whether a lifecycle event name is terminal for an in-flight navigation.
pub fn is_terminal_lifecycle(name: &String) -> (r: bool)
    ensures
        r == spec_terminal_lifecycle(name@),
{
    let load: String = String::from_str("load");
    let idle: String = String::from_str("networkIdle");
    *name == load || *name == idle
}

/// The target id named by a create-target result payload, when the payload
/// is an object whose `targetId` field is a string.
pub open spec fn spec_created_target_id(v: serde_json::Value) -> Option<Seq<char>> {
    match json_field(v, "targetId"@) {
        Some(f) => json_str(f),
        None => None,
    }
}

/// Reads the id of the newly created target out of a create-target result.
pub fn created_target_id(v: &serde_json::Value) -> (r: Option<String>)
    ensures
        match r {
            Some(s) => spec_created_target_id(*v) == Some(s@),
            None => spec_created_target_id(*v) is None,
        },
{
    match value_get(v, "targetId") {
        Some(f) => value_as_str(f),
        None => None,
    }
}

} // verus!
