use vstd::prelude::*;

use crate::error::CdpError;

verus! {

/// The state of the command half as seen on one poll.
#[derive(Debug)]
pub enum CommandPoll {
    Pending,
    /// The command settled; its payload is discarded on success.
    Ready(Result<(), CdpError>),
}

/// The state of the navigation half as seen on one poll; on success it
/// carries the main-frame request metadata, when the navigation produced
/// any.
#[derive(Debug)]
pub enum NavigationPoll {
    Pending,
    Ready(Result<Option<serde_json::Value>, CdpError>),
}

/// What one poll of the composite yields.
#[derive(Debug)]
pub enum HttpPollResult {
    Pending,
    Ready(Result<Option<serde_json::Value>, CdpError>),
}

/// The composite of one command and one navigation on the same session: it
/// resolves only after the command's reply has arrived, and then with the
/// navigation's outcome. A command failure resolves the composite at once
/// and the navigation is abandoned.
#[derive(Debug)]
pub struct HttpFuture {
    /// Whether the command half has already settled successfully.
    pub command_done: bool,
}

impl HttpFuture {
    /// Whether the command half has settled.
    pub open spec fn command_settled(self) -> bool {
        self.command_done
    }

    /// A fresh composite: the command half has not settled yet.
    pub fn new() -> (f: HttpFuture)
        ensures
            !f.command_settled(),
    {
        HttpFuture { command_done: false }
    }

    /// What one poll does: while the command half is open, only it is
    /// consulted, so no navigation outcome can overtake the command's reply;
    /// once it settled, the navigation's outcome is surfaced as it stands.
    pub open spec fn spec_poll(self, command: CommandPoll, navigation: NavigationPoll) -> (
        HttpFuture,
        HttpPollResult,
    ) {
        if self.command_settled() {
            match navigation {
                NavigationPoll::Ready(r) => (self, HttpPollResult::Ready(r)),
                NavigationPoll::Pending => (self, HttpPollResult::Pending),
            }
        } else {
            match command {
                CommandPoll::Ready(Ok(unit)) => (
                    HttpFuture { command_done: true },
                    HttpPollResult::Pending,
                ),
                CommandPoll::Ready(Err(e)) => (self, HttpPollResult::Ready(Err(e))),
                CommandPoll::Pending => (self, HttpPollResult::Pending),
            }
        }
    }

    /// One poll over the current states of the two halves.
    pub fn poll(&mut self, command: CommandPoll, navigation: NavigationPoll) -> (r: HttpPollResult)
        ensures
            *final(self) == old(self).spec_poll(command, navigation).0,
            r == old(self).spec_poll(command, navigation).1,
    {
        if self.command_done {
            match navigation {
                NavigationPoll::Ready(res) => HttpPollResult::Ready(res),
                NavigationPoll::Pending => HttpPollResult::Pending,
            }
        } else {
            match command {
                CommandPoll::Ready(Ok(())) => {
                    self.command_done = true;
                    HttpPollResult::Pending
                },
                CommandPoll::Ready(Err(e)) => HttpPollResult::Ready(Err(e)),
                CommandPoll::Pending => HttpPollResult::Pending,
            }
        }
    }
}

/// Law: a navigation outcome is never surfaced before the command's reply
/// has settled; a poll of a fresh composite yields either pending or the
/// command's own error, whatever the navigation half already holds.
pub proof fn lemma_command_settles_first(
    f: HttpFuture,
    command: CommandPoll,
    navigation: NavigationPoll,
)
    requires
        !f.command_settled(),
    ensures
        command is Pending ==> f.spec_poll(command, navigation).1 is Pending,
        command matches CommandPoll::Ready(Err(e)) ==> f.spec_poll(command, navigation).1
            == HttpPollResult::Ready(Err(e)),
        command matches CommandPoll::Ready(Ok(u)) ==> f.spec_poll(command, navigation).1
            is Pending && f.spec_poll(command, navigation).0.command_settled(),
{
}

} // verus!
