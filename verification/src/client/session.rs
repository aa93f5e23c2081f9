//! The decisions of a client-side WebSocket session: calls of the server's
//! functions go out and wait for their return by request id; calls of the
//! client's own functions come in and go to the route's handler.

use crate::packet::{packet_of, packet_view, Packet, PacketError, ReqId, WsMessage};
use crate::table::Table;
use vstd::prelude::*;

verus! {

/// An event of a client-side WebSocket session; `R` is the channel on which a
/// call waits for its return.
pub enum ClientEvent<R> {
    /// A message came from the server.
    Incoming(WsMessage),
    /// Reading from the server failed.
    IncomingError,
    /// The server's stream ended.
    IncomingEnd,
    /// The application calls a function of the server: the call message and
    /// the channel for its return.
    Call(ReqId, WsMessage, R),
    /// The application's channel of calls closed.
    CallsEnd,
}

/// What a client-side WebSocket session does with an event.
pub enum ClientAction {
    /// The session ends normally, with the close frame of the server if it
    /// sent one.
    Finish(Option<(u16, String)>),
    /// The connection is lost.
    Lost,
    /// Run the route's handler on the (still encoded) arguments of the
    /// server's call `id`, and send the server its return.
    Handle(ReqId, Vec<u8>),
    /// A return for call `id`, with its (still encoded) payload: once the
    /// payload decodes, [`ClientSession::take_waiting`] gives the channel of
    /// the call that waits for it.
    Returned(ReqId, Vec<u8>),
    /// A message that is not a packet: drop it.
    Undecodable(PacketError),
    /// Send the call message to the server.
    Send(WsMessage),
}

/// The calls of a client-side WebSocket session that wait for their return.
pub struct ClientSession<R> {
    pending: Table<u8, R>,
}

impl<R> ClientSession<R> {
    /// The waiting calls, by request id.
    pub closed spec fn waiting(&self) -> Map<u8, R> {
        self.pending.map()
    }

    /// The table of waiting calls is consistent.
    pub closed spec fn wf(&self) -> bool {
        self.pending.wf()
    }

    /// A session where no call waits.
    pub fn new() -> (r: Self)
        ensures
            r.wf(),
            r.waiting() == Map::<u8, R>::empty(),
    {
        ClientSession { pending: Table::new() }
    }

    /// Decides what the session does with an event. A close message or the
    /// end of either stream ends it, a read error loses it; a call of the
    /// server goes to the handler; a return is handed out with its payload for
    /// decoding; a call of the application goes out and waits under its request
    /// id (replacing one that waited there).
    pub fn step(&mut self, event: ClientEvent<R>) -> (r: ClientAction)
        requires
            old(self).wf(),
        ensures
            final(self).wf(),
            match event {
                ClientEvent::Incoming(m) => match m {
                    WsMessage::Close(c) => r == ClientAction::Finish(c) && final(self).waiting()
                        == old(self).waiting(),
                    _ => match packet_of(m) {
                        Ok(Packet::Call(id, a)) => (r matches ClientAction::Handle(i, args) && i == id
                            && args@ == a) && final(self).waiting() == old(self).waiting(),
                        Ok(Packet::Ret(id, b)) => (r matches ClientAction::Returned(i, payload) && i
                            == id && payload@ == b) && final(self).waiting() == old(self).waiting(),
                        Err(e) => r == ClientAction::Undecodable(e) && final(self).waiting()
                            == old(self).waiting(),
                    },
                },
                ClientEvent::IncomingError => r == ClientAction::Lost && final(self).waiting()
                    == old(self).waiting(),
                ClientEvent::IncomingEnd => r == ClientAction::Finish(None) && final(self).waiting() == old(self).waiting(),
                ClientEvent::Call(id, m, ret) => r == ClientAction::Send(m) && final(self).waiting() == old(self).waiting().insert(id, ret),
                ClientEvent::CallsEnd => r == ClientAction::Finish(None) && final(self).waiting()
                    == old(self).waiting(),
            },
    {
        match event {
            ClientEvent::Incoming(m) => match m {
                WsMessage::Close(c) => ClientAction::Finish(c),
                other => {
                    let decoded = Packet::from_message(&other);
                    match decoded {
                        Ok(Packet::Call(id, args)) => ClientAction::Handle(id, args),
                        Ok(Packet::Ret(id, payload)) => ClientAction::Returned(id, payload),
                        Err(e) => ClientAction::Undecodable(e),
                    }
                },
            },
            ClientEvent::IncomingError => ClientAction::Lost,
            ClientEvent::IncomingEnd => ClientAction::Finish(None),
            ClientEvent::Call(id, m, ret) => {
                let _displaced = self.pending.insert(id, ret);
                ClientAction::Send(m)
            },
            ClientEvent::CallsEnd => ClientAction::Finish(None),
        }
    }

    /// The channel of the call that waits under `id`, which then waits no more.
    pub fn take_waiting(&mut self, id: ReqId) -> (r: Option<R>)
        requires
            old(self).wf(),
        ensures
            final(self).wf(),
            final(self).waiting() == old(self).waiting().remove(id),
            r == if old(self).waiting().dom().contains(id) {
                Some(old(self).waiting()[id])
            } else {
                None
            },
    {
        self.pending.remove(&id)
    }
}

/// The return that the server sends for a call reaches the channel of that
/// call, and only once: a second return with the same request id finds
/// nothing waiting, and calls under other ids keep waiting.
pub proof fn lemma_return_reaches_call<R>(waiting: Map<u8, R>, id: u8, other: u8, ret: R)
    requires
        id != other,
    ensures
        waiting.insert(id, ret).dom().contains(id),
        waiting.insert(id, ret)[id] == ret,
        !waiting.insert(id, ret).remove(id).dom().contains(id),
        waiting.insert(id, ret).remove(id).dom().contains(other) == waiting.dom().contains(other),
        waiting.dom().contains(other) ==> waiting.insert(id, ret).remove(id)[other] == waiting[other],
{
}

} // verus!
