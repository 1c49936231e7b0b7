use vstd::prelude::*;

use crate::error::CdpError;

verus! {

/// A framed message ready to be written to the browser connection:
/// `{id, method, params, sessionId?}` on the wire.
#[derive(Debug)]
pub struct OutgoingMessage {
    pub id: u64,
    pub method: String,
    pub session_id: Option<String>,
    pub params: serde_json::Value,
}

/// The sending half of the connection adapter: it owns the call-id counter
/// and frames outgoing commands. Writing the frame to the transport, and
/// reading incoming frames, happen outside the core.
pub struct Connection {
    next_id: u64,
    issued: Ghost<Seq<u64>>,
}

impl Connection {
    /// Every call-id this connection has handed out, in order of submission.
    pub closed spec fn issued_ids(self) -> Seq<u64> {
        self.issued@
    }

    /// The call-id the next submission will receive.
    pub closed spec fn next_call_id(self) -> u64 {
        self.next_id
    }

    /// Ids already handed out stay below the counter, so every new id is
    /// fresh and the sequence of ids grows strictly.
    pub closed spec fn wf(self) -> bool {
        &&& forall|i: int|
            0 <= i < self.issued@.len() ==> #[trigger] self.issued@[i] < self.next_id
        &&& forall|i: int, j: int|
            0 <= i < j < self.issued@.len() ==> #[trigger] self.issued@[i] < #[trigger] self.issued@[j]
    }

    /// A fresh connection adapter whose first call-id will be `first_id`.
    pub fn new(first_id: u64) -> (c: Connection)
        ensures
            c.wf(),
            c.issued_ids() == Seq::<u64>::empty(),
            c.next_call_id() == first_id,
    {
        Connection { next_id: first_id, issued: Ghost(Seq::empty()) }
    }

    /// Frames one outgoing command under a fresh call-id. Once the id space
    /// is exhausted the connection accepts no further commands and answers
    /// with the terminal transport error instead.
    pub fn submit(&mut self, method: String, session_id: Option<String>, params: serde_json::Value)
        -> (r: Result<OutgoingMessage, CdpError>)
        requires
            old(self).wf(),
        ensures
            final(self).wf(),
            old(self).next_call_id() < u64::MAX ==> (r matches Ok(msg) && {
                &&& msg.id == old(self).next_call_id()
                &&& msg.method == method
                &&& msg.session_id == session_id
                &&& msg.params == params
                &&& final(self).next_call_id() == old(self).next_call_id() + 1
                &&& final(self).issued_ids() == old(self).issued_ids().push(msg.id)
            }),
            old(self).next_call_id() == u64::MAX ==> r == Err::<OutgoingMessage, CdpError>(
                CdpError::Transport,
            ) && *final(self) == *old(self),
    {
        if self.next_id == u64::MAX {
            return Err(CdpError::Transport);
        }
        let id = self.next_id;
        self.next_id = self.next_id + 1;
        proof {
            self.issued@ = self.issued@.push(id);
        }
        Ok(OutgoingMessage { id, method, session_id, params })
    }
}

/// Every id the connection has handed out lies below the next call-id, so
/// a fresh submission's id exceeds every issued one.
pub proof fn lemma_issued_below_next(c: Connection, i: int)
    requires
        c.wf(),
        0 <= i < c.issued_ids().len(),
    ensures
        c.issued_ids()[i] < c.next_call_id(),
{
}

/// Law: call-ids are strictly increasing over a connection's lifetime; a
/// submission never repeats an earlier id.
pub proof fn lemma_call_ids_strictly_increasing(c: Connection, i: int, j: int)
    requires
        c.wf(),
        0 <= i < j < c.issued_ids().len(),
    ensures
        c.issued_ids()[i] < c.issued_ids()[j],
{
}

} // verus!
