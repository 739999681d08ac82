//! The bookkeeping of one channel (or stream) on a connection: the message
//! ids it hands out to its requests, the replies and requests it has
//! received and not yet handed to its user, and whether it is closed.
//!
//! Waiting for a reply or a request is a loop that alternates with reading
//! packets off the connection; [`Inbox::reply_step`] and
//! [`Inbox::request_step`] make one decision of that loop each, and the
//! caller reads a packet and [`files`](Inbox::file) it when told to wait.

use std::collections::HashMap;
use vstd::prelude::*;

verus! {

/// What a channel refuses once it is closed.
#[derive(Clone, Copy, Debug, PartialEq, Eq, Structural)]
pub enum InboxError {
    Closed,
}

/// One decision of waiting for the reply to a request.
pub enum ReplyStep {
    /// The reply arrived: its payload.
    Ready(Vec<u8>),
    /// The channel is closed and the reply is not there.
    Closed,
    /// Read a packet from the connection, file it, and ask again.
    Wait,
}

/// One decision of waiting for an incoming request.
pub enum RequestStep {
    /// The oldest request not yet handed out: its message id and payload.
    Ready(u32, Vec<u8>),
    /// The channel is closed and no request is waiting.
    Closed,
    /// Read a packet from the connection, file it, and ask again.
    Wait,
}

/// A channel's bookkeeping.
pub struct Inbox {
    next_message_id: u32,
    responses: HashMap<u32, Vec<u8>>,
    requests: Vec<(u32, Vec<u8>)>,
    closed: bool,
}

impl Inbox {
    /// The message id the next request gets.
    pub closed spec fn spec_next_id(&self) -> nat {
        self.next_message_id as nat
    }

    /// The replies received and not yet handed out, by message id.
    pub closed spec fn replies(&self) -> Map<u32, Seq<u8>> {
        self.responses@.map_values(|p: Vec<u8>| p@)
    }

    /// The requests received and not yet handed out, oldest first.
    pub closed spec fn pending_requests(&self) -> Seq<(u32, Seq<u8>)> {
        self.requests@.map_values(|r: (u32, Vec<u8>)| (r.0, r.1@))
    }

    /// Whether the channel is closed.
    pub closed spec fn spec_closed(&self) -> bool {
        self.closed
    }

    /// An open channel with nothing received, whose first request gets
    /// message id 1.
    pub fn new() -> (r: Self)
        ensures
            r.spec_next_id() == 1,
            r.replies() == Map::<u32, Seq<u8>>::empty(),
            r.pending_requests() == Seq::<(u32, Seq<u8>)>::empty(),
            !r.spec_closed(),
    {
        let r = Inbox { next_message_id: 1, responses: HashMap::new(), requests: Vec::new(), closed: false };
        proof {
            assert(r.replies() =~= Map::<u32, Seq<u8>>::empty());
            assert(r.pending_requests() =~= Seq::<(u32, Seq<u8>)>::empty());
        }
        r
    }

    /// Marks the channel closed (without telling the other side).
    pub fn mark_closed(&mut self)
        ensures
            final(self).spec_closed(),
            final(self).spec_next_id() == old(self).spec_next_id(),
            final(self).replies() == old(self).replies(),
            final(self).pending_requests() == old(self).pending_requests(),
    {
        self.closed = true;
    }

    /// Whether the channel is closed.
    pub fn is_closed(&self) -> (r: bool)
        ensures
            r == self.spec_closed(),
    {
        self.closed
    }

    /// The message id the next request gets.
    pub fn next_message_id(&self) -> (r: u32)
        ensures
            r == self.spec_next_id(),
    {
        self.next_message_id
    }

    /// Takes the message id for a new request: refused once the channel is
    /// closed; otherwise the next id, counting up from 1.
    pub fn start_request(&mut self) -> (r: Result<u32, InboxError>)
        requires
            !old(self).spec_closed() ==> old(self).spec_next_id() < u32::MAX,
        ensures
            old(self).spec_closed() ==> r == Err::<u32, InboxError>(InboxError::Closed)
                && final(self).spec_next_id() == old(self).spec_next_id(),
            !old(self).spec_closed() ==> r == Ok::<u32, InboxError>(old(self).spec_next_id() as u32)
                && final(self).spec_next_id() == old(self).spec_next_id() + 1,
            final(self).spec_closed() == old(self).spec_closed(),
            final(self).replies() == old(self).replies(),
            final(self).pending_requests() == old(self).pending_requests(),
    {
        if self.closed {
            return Err(InboxError::Closed);
        }
        let id = self.next_message_id;
        self.next_message_id = id + 1;
        Ok(id)
    }

    /// Files a packet read for this channel: a reply under its message id
    /// (replacing an earlier one with that id), a request at the back of
    /// the queue.
    pub fn file(&mut self, message_id: u32, is_reply: bool, payload: Vec<u8>)
        ensures
            is_reply ==> final(self).replies() == old(self).replies().insert(message_id, payload@)
                && final(self).pending_requests() == old(self).pending_requests(),
            !is_reply ==> final(self).pending_requests() == old(self).pending_requests().push(
                (message_id, payload@),
            ) && final(self).replies() == old(self).replies(),
            final(self).spec_next_id() == old(self).spec_next_id(),
            final(self).spec_closed() == old(self).spec_closed(),
    {
        let ghost p = payload@;
        if is_reply {
            let ghost before = self.responses@;
            self.responses.insert(message_id, payload);
            proof {
                assert(self.responses@ == before.insert(message_id, self.responses@[message_id]));
                assert(self.replies() =~= before.map_values(|v: Vec<u8>| v@).insert(message_id, p));
            }
        } else {
            let ghost before = self.requests@;
            self.requests.push((message_id, payload));
            proof {
                assert(self.pending_requests() =~= before.map_values(|r: (u32, Vec<u8>)| (r.0, r.1@)).push(
                    (message_id, p),
                ));
            }
        }
    }

    /// One decision of waiting for the reply to request `message_id`: hand
    /// it out if it has arrived, give up if the channel is closed, and
    /// otherwise wait for another packet.
    pub fn reply_step(&mut self, message_id: u32) -> (r: ReplyStep)
        ensures
            old(self).replies().contains_key(message_id) ==> (r matches ReplyStep::Ready(p) && p@
                == old(self).replies()[message_id]) && final(self).replies() == old(self).replies().remove(
                message_id,
            ),
            !old(self).replies().contains_key(message_id) ==> final(self).replies() == old(self).replies()
                && (if old(self).spec_closed() {
                r is Closed
            } else {
                r is Wait
            }),
            final(self).pending_requests() == old(self).pending_requests(),
            final(self).spec_next_id() == old(self).spec_next_id(),
            final(self).spec_closed() == old(self).spec_closed(),
    {
        let ghost before = self.responses@;
        match self.responses.remove(&message_id) {
            Some(payload) => {
                proof {
                    assert(before.contains_key(message_id));
                    assert(self.replies() =~= before.map_values(|v: Vec<u8>| v@).remove(message_id));
                }
                ReplyStep::Ready(payload)
            },
            None => {
                proof {
                    assert(!before.contains_key(message_id));
                    assert(self.responses@ =~= before);
                }
                if self.closed {
                    ReplyStep::Closed
                } else {
                    ReplyStep::Wait
                }
            },
        }
    }

    /// One decision of waiting for a request: hand out the oldest one if
    /// any has arrived, give up if the channel is closed, and otherwise wait
    /// for another packet.
    pub fn request_step(&mut self) -> (r: RequestStep)
        ensures
            old(self).pending_requests().len() > 0 ==> (r matches RequestStep::Ready(id, p) && (id, p@)
                == old(self).pending_requests()[0]) && final(self).pending_requests() == old(
                self,
            ).pending_requests().drop_first(),
            old(self).pending_requests().len() == 0 ==> final(self).pending_requests() == old(
                self,
            ).pending_requests() && (if old(self).spec_closed() {
                r is Closed
            } else {
                r is Wait
            }),
            final(self).replies() == old(self).replies(),
            final(self).spec_next_id() == old(self).spec_next_id(),
            final(self).spec_closed() == old(self).spec_closed(),
    {
        if self.requests.len() > 0 {
            let ghost before = self.requests@;
            let (id, payload) = self.requests.remove(0);
            proof {
                assert(self.requests@ =~= before.drop_first());
                assert(self.pending_requests() =~= before.map_values(|r: (u32, Vec<u8>)| (r.0, r.1@)).drop_first());
            }
            RequestStep::Ready(id, payload)
        } else if self.closed {
            RequestStep::Closed
        } else {
            RequestStep::Wait
        }
    }
}

} // verus!
