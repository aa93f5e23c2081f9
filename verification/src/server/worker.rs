//! The decisions of the server's command worker and of its WebSocket sessions:
//! which routes are bound, which remote calls wait for their return, and what
//! each event of an upgraded connection leads to.

use crate::net::CallKey;
use crate::net::SocketAddress;
use crate::packet::{packet_of, Packet, PacketError, ReqId, WsMessage};
use crate::registry::{RouteError, Routes};
use crate::table::Table;
use vstd::prelude::*;

verus! {

/// The state of the server's command worker: the WebSocket routes, the HTTP
/// routes, and the remote calls that wait for their return, keyed by route
/// path, peer address and request id.
pub struct ServiceWorker<W, H, R> {
    ws: Routes<W>,
    http: Routes<H>,
    pending: Table<CallKey, R>,
}

impl<W, H, R> ServiceWorker<W, H, R> {
    /// The WebSocket routes.
    pub closed spec fn ws_routes(&self) -> Map<Seq<char>, W> {
        self.ws.map()
    }

    /// The HTTP routes.
    pub closed spec fn http_routes(&self) -> Map<Seq<char>, H> {
        self.http.map()
    }

    /// The remote calls that wait for their return.
    pub closed spec fn pending(&self) -> Map<(Seq<char>, SocketAddress, u8), R> {
        self.pending.map()
    }

    /// The tables are consistent.
    pub closed spec fn wf(&self) -> bool {
        self.ws.wf() && self.http.wf() && self.pending.wf()
    }

    /// No route and no waiting call.
    pub fn new() -> (r: Self)
        ensures
            r.wf(),
            r.ws_routes() == Map::<Seq<char>, W>::empty(),
            r.http_routes() == Map::<Seq<char>, H>::empty(),
            r.pending() == Map::<(Seq<char>, SocketAddress, u8), R>::empty(),
    {
        ServiceWorker { ws: Routes::new(), http: Routes::new(), pending: Table::new() }
    }

    /// Binds a WebSocket route.
    ///
    /// # Errors
    /// [`RouteError::AlreadyBound`] when the path is bound already.
    pub fn add_ws_route(&mut self, path: &str, handler: W) -> (r: Result<(), RouteError>)
        requires
            old(self).wf(),
        ensures
            final(self).wf(),
            final(self).http_routes() == old(self).http_routes(),
            final(self).pending() == old(self).pending(),
            match r {
                Ok(()) => !old(self).ws_routes().dom().contains(path@) && final(self).ws_routes()
                    == old(self).ws_routes().insert(path@, handler),
                Err(e) => old(self).ws_routes().dom().contains(path@) && final(self).ws_routes()
                    == old(self).ws_routes() && (e matches RouteError::AlreadyBound(p) && p@
                    == path@),
            },
    {
        self.ws.add_route(path, handler)
    }

    /// Unbinds a WebSocket route, giving its handler back.
    ///
    /// # Errors
    /// [`RouteError::NotBound`] when the path is not bound.
    pub fn remove_ws_route(&mut self, path: &str) -> (r: Result<W, RouteError>)
        requires
            old(self).wf(),
        ensures
            final(self).wf(),
            final(self).http_routes() == old(self).http_routes(),
            final(self).pending() == old(self).pending(),
            final(self).ws_routes() == old(self).ws_routes().remove(path@),
            match r {
                Ok(h) => old(self).ws_routes().dom().contains(path@) && old(self).ws_routes()[path@]
                    == h,
                Err(e) => !old(self).ws_routes().dom().contains(path@) && (e matches RouteError::NotBound(
                    p,
                ) && p@ == path@),
            },
    {
        self.ws.remove_route(path)
    }

    /// Binds an HTTP route.
    ///
    /// # Errors
    /// [`RouteError::AlreadyBound`] when the path is bound already.
    pub fn add_http_route(&mut self, path: &str, handler: H) -> (r: Result<(), RouteError>)
        requires
            old(self).wf(),
        ensures
            final(self).wf(),
            final(self).ws_routes() == old(self).ws_routes(),
            final(self).pending() == old(self).pending(),
            match r {
                Ok(()) => !old(self).http_routes().dom().contains(path@) && final(self).http_routes()
                    == old(self).http_routes().insert(path@, handler),
                Err(e) => old(self).http_routes().dom().contains(path@) && final(self).http_routes()
                    == old(self).http_routes() && (e matches RouteError::AlreadyBound(p) && p@
                    == path@),
            },
    {
        self.http.add_route(path, handler)
    }

    /// Unbinds an HTTP route, giving its handler back (the caller stops the
    /// handler's task).
    ///
    /// # Errors
    /// [`RouteError::NotBound`] when the path is not bound.
    pub fn remove_http_route(&mut self, path: &str) -> (r: Result<H, RouteError>)
        requires
            old(self).wf(),
        ensures
            final(self).wf(),
            final(self).ws_routes() == old(self).ws_routes(),
            final(self).pending() == old(self).pending(),
            final(self).http_routes() == old(self).http_routes().remove(path@),
            match r {
                Ok(h) => old(self).http_routes().dom().contains(path@) && old(
                    self,
                ).http_routes()[path@] == h,
                Err(e) => !old(self).http_routes().dom().contains(path@) && (e matches RouteError::NotBound(
                    p,
                ) && p@ == path@),
            },
    {
        self.http.remove_route(path)
    }

    /// The WebSocket handler that serves `path`, if one is bound.
    pub fn ws_route(&self, path: &str) -> (r: Option<&W>)
        requires
            self.wf(),
        ensures
            match r {
                Some(h) => self.ws_routes().dom().contains(path@) && self.ws_routes()[path@] == *h,
                None => !self.ws_routes().dom().contains(path@),
            },
    {
        self.ws.route(path)
    }

    /// The HTTP handler that serves `path`, if one is bound.
    pub fn http_route(&self, path: &str) -> (r: Option<&H>)
        requires
            self.wf(),
        ensures
            match r {
                Some(h) => self.http_routes().dom().contains(path@) && self.http_routes()[path@]
                    == *h,
                None => !self.http_routes().dom().contains(path@),
            },
    {
        self.http.route(path)
    }

    /// A remote call of a connected peer: its reply channel `ret` waits under
    /// `key` (replacing one that waited there). Where the peer has no open
    /// connection on the route, `ret` comes back, for the caller to answer
    /// with an error, and nothing waits.
    pub fn call_remotely(&mut self, key: CallKey, connected: bool, ret: R) -> (r: Option<R>)
        requires
            old(self).wf(),
        ensures
            final(self).wf(),
            final(self).ws_routes() == old(self).ws_routes(),
            final(self).http_routes() == old(self).http_routes(),
            connected ==> r is None && final(self).pending() == old(self).pending().insert(
                key@,
                ret,
            ),
            !connected ==> r == Some(ret) && final(self).pending() == old(self).pending(),
            final(self).pending() == apply_op(old(self).pending(), PendingOp::Call(key@, connected, ret)),
    {
        if connected {
            let _displaced = self.pending.insert(key, ret);
            None
        } else {
            Some(ret)
        }
    }

    /// The return of a remote call came back: the reply channel of the call
    /// that waits under `key`, which then waits no more.
    pub fn commit_return(&mut self, key: &CallKey) -> (r: Option<R>)
        requires
            old(self).wf(),
        ensures
            final(self).wf(),
            final(self).ws_routes() == old(self).ws_routes(),
            final(self).http_routes() == old(self).http_routes(),
            final(self).pending() == old(self).pending().remove(key@),
            final(self).pending() == apply_op(old(self).pending(), PendingOp::<_, R>::Commit(key@)),
            r == if old(self).pending().dom().contains(key@) {
                Some(old(self).pending()[key@])
            } else {
                None
            },
    {
        self.pending.remove(key)
    }
}

/// The return of a remote call made to a connected peer reaches the reply
/// channel of that call, and only once: a second return under the same key
/// finds nothing waiting. Calls under other keys keep waiting.
pub proof fn lemma_return_reaches_caller<R>(
    pending: Map<(Seq<char>, SocketAddress, u8), R>,
    key: (Seq<char>, SocketAddress, u8),
    other: (Seq<char>, SocketAddress, u8),
    ret: R,
)
    requires
        key != other,
    ensures
        pending.insert(key, ret).dom().contains(key),
        pending.insert(key, ret)[key] == ret,
        !pending.insert(key, ret).remove(key).dom().contains(key),
        pending.insert(key, ret).remove(key).dom().contains(other) == pending.dom().contains(other),
        pending.dom().contains(other) ==> pending.insert(key, ret).remove(key)[other]
            == pending[other],
{
}

/// An operation of the worker on its table of waiting calls: a remote call
/// (with whether the peer is connected and the call's reply channel), or a
/// return that came back.
pub enum PendingOp<K, R> {
    Call(K, bool, R),
    Commit(K),
}

/// The key an operation is about.
pub open spec fn op_key<K, R>(op: PendingOp<K, R>) -> K {
    match op {
        PendingOp::Call(k, _, _) => k,
        PendingOp::Commit(k) => k,
    }
}

/// The waiting calls after an operation, as [`ServiceWorker::call_remotely`]
/// and [`ServiceWorker::commit_return`] change them.
pub open spec fn apply_op<K, R>(p: Map<K, R>, op: PendingOp<K, R>) -> Map<K, R> {
    match op {
        PendingOp::Call(k, connected, r) => if connected {
            p.insert(k, r)
        } else {
            p
        },
        PendingOp::Commit(k) => p.remove(k),
    }
}

/// The waiting calls after a run of operations.
pub open spec fn run_ops<K, R>(p: Map<K, R>, ops: Seq<PendingOp<K, R>>) -> Map<K, R>
    decreases ops.len(),
{
    if ops.len() == 0 {
        p
    } else {
        run_ops(apply_op(p, ops[0]), ops.drop_first())
    }
}

/// Returns come back to their callers whatever else the worker does: after a
/// call to a connected peer, and any run of calls and returns under other
/// keys, the call still waits with its reply channel, so the first return
/// under its key gets that channel; once a return has taken it, nothing waits
/// under the key until a new call is made there.
pub proof fn lemma_pending_hand_back<K, R>(p: Map<K, R>, key: K, ret: R, ops: Seq<PendingOp<K, R>>)
    requires
        forall|i: int| 0 <= i < ops.len() ==> op_key(#[trigger] ops[i]) != key,
    ensures
        run_ops(p.insert(key, ret), ops).dom().contains(key),
        run_ops(p.insert(key, ret), ops)[key] == ret,
        !run_ops(p.remove(key), ops).dom().contains(key),
    decreases ops.len(),
{
    if ops.len() > 0 {
        let rest = ops.drop_first();
        assert forall|i: int| 0 <= i < rest.len() implies op_key(#[trigger] rest[i]) != key by {
            assert(rest[i] == ops[i + 1]);
        }
        assert(op_key(ops[0]) != key);
        let q = apply_op(p, ops[0]);
        assert(apply_op(p.insert(key, ret), ops[0]) =~= q.insert(key, ret));
        assert(apply_op(p.remove(key), ops[0]) =~= q.remove(key));
        lemma_pending_hand_back(q, key, ret, rest);
    }
}

/// What the handler task of a WebSocket route does with a message of a peer.
pub enum ServerPacketAction {
    /// Run the route's function on the (still encoded) arguments of call `id`
    /// and send the peer its return.
    Handle(ReqId, Vec<u8>),
    /// A return for the call `id` that this side made: hand it to the worker,
    /// which gives it to the call that waits for it; the payload is still
    /// encoded.
    Commit(ReqId, Vec<u8>),
    /// The message is not a packet.
    Drop(PacketError),
}

/// Decides what the handler task of a WebSocket route does with a message: a
/// call goes to the route's function, a return to the worker, anything else is
/// dropped.
pub fn server_packet_step(msg: &WsMessage) -> (r: ServerPacketAction)
    ensures
        match packet_of(*msg) {
            Ok(Packet::Call(id, a)) => r matches ServerPacketAction::Handle(i, args) && i == id
                && args@ == a,
            Ok(Packet::Ret(id, b)) => r matches ServerPacketAction::Commit(i, payload) && i == id
                && payload@ == b,
            Err(e) => r matches ServerPacketAction::Drop(x) && x == e,
        },
{
    match Packet::from_message(msg) {
        Ok(Packet::Call(id, args)) => ServerPacketAction::Handle(id, args),
        Ok(Packet::Ret(id, payload)) => ServerPacketAction::Commit(id, payload),
        Err(e) => ServerPacketAction::Drop(e),
    }
}

/// An event of a server-side WebSocket session.
pub enum ServerEvent {
    /// A message came from the peer.
    Incoming(WsMessage),
    /// Reading from the peer failed.
    IncomingError,
    /// The peer's stream ended.
    IncomingEnd,
    /// A message for the peer came from the application.
    Outgoing(WsMessage),
    /// The application's channel closed.
    OutgoingEnd,
}

/// What a server-side WebSocket session does with an event.
#[derive(Debug, PartialEq, Eq)]
pub enum ServerAction {
    /// End the session.
    Stop,
    /// Hand the peer's message to the route's handler; its reply, if any, is
    /// sent back to the peer.
    Transfer(WsMessage),
    /// Send the message to the peer.
    Send(WsMessage),
}

/// Decides what a server-side WebSocket session does with an event: a close
/// message, an error or the end of either stream ends it; other messages of
/// the peer go to the handler; messages of the application go to the peer.
pub fn server_session_step(event: ServerEvent) -> (r: ServerAction)
    ensures
        match event {
            ServerEvent::Incoming(m) => if m is Close {
                r == ServerAction::Stop
            } else {
                r == ServerAction::Transfer(m)
            },
            ServerEvent::Outgoing(m) => r == ServerAction::Send(m),
            _ => r == ServerAction::Stop,
        },
{
    match event {
        ServerEvent::Incoming(m) => match m {
            WsMessage::Close(_) => ServerAction::Stop,
            other => ServerAction::Transfer(other),
        },
        ServerEvent::Outgoing(m) => ServerAction::Send(m),
        _ => ServerAction::Stop,
    }
}

} // verus!
