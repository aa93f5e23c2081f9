use edgy_s::settings::{ClientSettings, Interval, ServiceSettings};
use edgy_s::accessor::Accessor;
use edgy_s::body::{pick_conns, text_from_body, BodyCollector, ChunkPoll};
use edgy_s::client::session::{ClientAction, ClientEvent, ClientSession};
use edgy_s::net::{CallKey, ConnKey, IpAddress, SocketAddress};
use edgy_s::packet::{Packet, PacketError, WsMessage};
use edgy_s::params::{set_argument_in, QueryParams};
use edgy_s::registry::{RouteError, Routes};
use edgy_s::retry::{Connect, ConnectStep, Reconnect, Retry, SessionEnd, SessionStep};
use edgy_s::server::worker::{
    server_packet_step, server_session_step, ServerAction, ServerEvent, ServerPacketAction,
    ServiceWorker,
};
use edgy_s::table::Table;

fn addr(last: u8, port: u16) -> SocketAddress {
    SocketAddress { ip: IpAddress::V4(0x0a00_0000 | last as u32), port }
}

#[test]
fn routes_bind_once_and_unbind_once() {
    let mut routes: Routes<u32> = Routes::new();
    assert_eq!(routes.add_route("/a", 1), Ok(()));
    assert_eq!(routes.add_route("/a", 2), Err(RouteError::AlreadyBound("/a".to_string())));
    assert_eq!(routes.route("/a"), Some(&1));
    assert!(routes.is_bound("/a"));
    assert_eq!(routes.add_route("/b", 3), Ok(()));
    assert_eq!(routes.remove_route("/a"), Ok(1));
    assert_eq!(routes.remove_route("/a"), Err(RouteError::NotBound("/a".to_string())));
    assert!(!routes.is_bound("/a"));
    assert_eq!(routes.route("/b"), Some(&3));
    assert_eq!(routes.add_route("/a", 4), Ok(()));
    assert_eq!(routes.route("/a"), Some(&4));
}

#[test]
fn table_keeps_one_entry_per_key() {
    let mut t: Table<u8, &str> = Table::new();
    assert!(t.insert_new(1, "one"));
    assert!(!t.insert_new(1, "uno"));
    assert_eq!(t.get(&1), Some(&"one"));
    assert_eq!(t.insert(1, "eins"), Some("one"));
    assert_eq!(t.insert(2, "zwei"), None);
    assert!(t.contains_key(&2));
    assert_eq!(t.remove(&1), Some("eins"));
    assert_eq!(t.remove(&1), None);
    assert_eq!(t.get(&2), Some(&"zwei"));
}

#[test]
fn service_worker_routes() {
    let mut w: ServiceWorker<&str, &str, u32> = ServiceWorker::new();
    assert_eq!(w.add_ws_route("/chat", "ws"), Ok(()));
    assert_eq!(w.add_ws_route("/chat", "ws2"), Err(RouteError::AlreadyBound("/chat".to_string())));
    assert_eq!(w.add_http_route("/chat", "http"), Ok(()));
    assert_eq!(w.ws_route("/chat"), Some(&"ws"));
    assert_eq!(w.http_route("/chat"), Some(&"http"));
    assert_eq!(w.http_route("/none"), None);
    assert_eq!(w.remove_http_route("/chat"), Ok("http"));
    assert_eq!(w.remove_http_route("/chat"), Err(RouteError::NotBound("/chat".to_string())));
    assert_eq!(w.ws_route("/chat"), Some(&"ws"));
    assert_eq!(w.remove_ws_route("/chat"), Ok("ws"));
    assert_eq!(w.remove_ws_route("/chat"), Err(RouteError::NotBound("/chat".to_string())));
}

#[test]
fn remote_call_returns_reach_their_caller_once() {
    let mut w: ServiceWorker<(), (), u32> = ServiceWorker::new();
    let key = CallKey { path: "/chat".to_string(), addr: addr(1, 5000), id: 7 };
    let other = CallKey { path: "/chat".to_string(), addr: addr(2, 5000), id: 7 };
    assert_eq!(w.call_remotely(key.clone(), true, 100), None);
    assert_eq!(w.call_remotely(other.clone(), false, 200), Some(200));
    assert_eq!(w.commit_return(&other), None);
    assert_eq!(w.commit_return(&key), Some(100));
    assert_eq!(w.commit_return(&key), None);
    assert_eq!(w.call_remotely(key.clone(), true, 1), None);
    assert_eq!(w.call_remotely(key.clone(), true, 2), None);
    assert_eq!(w.commit_return(&key), Some(2));
}

#[test]
fn server_session_steps() {
    let m = WsMessage::Binary(vec![1, 2]);
    assert_eq!(server_session_step(ServerEvent::Incoming(m.clone())), ServerAction::Transfer(m.clone()));
    assert_eq!(server_session_step(ServerEvent::Incoming(WsMessage::Close(Some((1000, "bye".to_string()))))), ServerAction::Stop);
    assert_eq!(server_session_step(ServerEvent::Outgoing(m.clone())), ServerAction::Send(m));
    assert_eq!(server_session_step(ServerEvent::IncomingEnd), ServerAction::Stop);
    assert_eq!(server_session_step(ServerEvent::IncomingError), ServerAction::Stop);
    assert_eq!(server_session_step(ServerEvent::OutgoingEnd), ServerAction::Stop);
    let ping = WsMessage::Ping(vec![]);
    assert_eq!(server_session_step(ServerEvent::Incoming(ping.clone())), ServerAction::Transfer(ping));
}

#[test]
fn client_session_pairs_returns_with_calls() {
    let mut s: ClientSession<&str> = ClientSession::new();
    let call = Packet::<Vec<u8>, Vec<u8>>::make_call_message(5, vec![9]);
    match s.step(ClientEvent::Call(5, call.clone(), "waiter")) {
        ClientAction::Send(m) => assert_eq!(m, call),
        _ => panic!("a call goes out"),
    }
    let ret = Packet::<Vec<u8>, Vec<u8>>::make_ret_message(5, vec![1]);
    match s.step(ClientEvent::Incoming(ret.clone())) {
        ClientAction::Returned(id, payload) => {
            assert_eq!(id, 5);
            assert_eq!(payload, vec![1]);
        }
        _ => panic!("a return is handed out with its payload"),
    }
    assert_eq!(s.take_waiting(5), Some("waiter"));
    assert_eq!(s.take_waiting(5), None);
    assert!(matches!(s.step(ClientEvent::Incoming(ret)), ClientAction::Returned(5, _)));
    assert_eq!(s.take_waiting(5), None);
}

#[test]
fn client_session_serves_calls_and_ends() {
    let mut s: ClientSession<u8> = ClientSession::new();
    let call = Packet::<Vec<u8>, Vec<u8>>::make_call_message(3, vec![4, 5]);
    match s.step(ClientEvent::Incoming(call)) {
        ClientAction::Handle(id, args) => {
            assert_eq!(id, 3);
            assert_eq!(args, vec![4, 5]);
        }
        _ => panic!("a call of the server goes to the handler"),
    }
    match s.step(ClientEvent::Incoming(WsMessage::Text("hi".to_string()))) {
        ClientAction::Undecodable(e) => assert_eq!(e, PacketError::Unsupported),
        _ => panic!("text is no packet"),
    }
    match s.step(ClientEvent::Incoming(WsMessage::Close(Some((1000, "bye".to_string()))))) {
        ClientAction::Finish(Some((code, reason))) => {
            assert_eq!(code, 1000);
            assert_eq!(reason, "bye");
        }
        _ => panic!("a close ends the session"),
    }
    assert!(matches!(s.step(ClientEvent::IncomingEnd), ClientAction::Finish(None)));
    assert!(matches!(s.step(ClientEvent::CallsEnd), ClientAction::Finish(None)));
    assert!(matches!(s.step(ClientEvent::IncomingError), ClientAction::Lost));
}

#[test]
fn retries_of_requests() {
    let mut r: Retry<&str> = Retry::new(3);
    assert!(r.begin());
    assert!(r.fail("first"));
    assert!(r.begin());
    assert!(r.fail("second"));
    assert!(r.begin());
    assert!(!r.fail("third"));
    assert!(!r.begin());
    assert_eq!(r.give_up(), Some("third"));

    let mut none: Retry<&str> = Retry::new(0);
    assert!(!none.begin());
    assert_eq!(none.give_up(), None);
}

#[test]
fn reconnection_sends_open_once() {
    let mut r = Reconnect::new(3);
    assert!(r.begin());
    assert_eq!(r.on_connect(Connect::Failed), ConnectStep::RetryAfterPause);
    assert!(r.begin());
    assert_eq!(r.on_connect(Connect::Connected), ConnectStep::Serve { notify_open: true, watch_close: true });
    assert_eq!(r.on_session_end(SessionEnd::Lost), SessionStep::Reconnect { pause: true });
    assert!(r.begin());
    assert_eq!(r.on_connect(Connect::Connected), ConnectStep::Serve { notify_open: false, watch_close: false });
    assert_eq!(r.on_session_end(SessionEnd::Lost), SessionStep::Reconnect { pause: false });
    assert!(!r.begin());
    assert_eq!(r.on_session_end(SessionEnd::Closed), SessionStep::Stop);
    let mut early = Reconnect::new(2);
    assert!(early.begin());
    assert_eq!(early.on_connect(Connect::EndedEarly), ConnectStep::Stop);
}

#[test]
fn query_parameters_set_by_handlers() {
    let mut params: Vec<(String, String)> = Vec::new();
    assert!(set_argument_in(&mut params, "a", "1"));
    assert!(set_argument_in(&mut params, "b", "2"));
    assert!(!set_argument_in(&mut params, "a", "1"));
    assert!(set_argument_in(&mut params, "a", "3"));
    assert_eq!(params, vec![("a".to_string(), "3".to_string()), ("b".to_string(), "2".to_string())]);
}

#[test]
fn collecting_bodies() {
    let mut c = BodyCollector::new();
    assert_eq!(c.on_poll(ChunkPoll::Data(vec![1, 2])), None);
    assert_eq!(c.on_poll(ChunkPoll::Pending), None);
    assert_eq!(c.on_poll(ChunkPoll::Data(vec![3])), None);
    assert_eq!(c.on_poll(ChunkPoll::End), Some(vec![1, 2, 3]));
    assert_eq!(c.on_poll(ChunkPoll::Data(vec![4])), None);
    assert_eq!(c.on_poll(ChunkPoll::Error), Some(vec![4]));
    assert_eq!(c.on_poll(ChunkPoll::NotData), Some(vec![]));
}

#[test]
fn bodies_as_text() {
    assert_eq!(text_from_body("héllo".as_bytes().to_vec()), "héllo");
    assert_eq!(text_from_body(vec![0xff, 0x41]), "");
    assert_eq!(text_from_body(vec![]), "");
}

#[test]
fn picking_connections_of_a_route() {
    let keys = vec![
        ConnKey { path: "/chat".to_string(), addr: addr(1, 1) },
        ConnKey { path: "/news".to_string(), addr: addr(2, 1) },
        ConnKey { path: "/chat".to_string(), addr: addr(3, 1) },
        ConnKey { path: "/chat".to_string(), addr: addr(4, 1) },
    ];
    assert_eq!(pick_conns(&keys, "/chat", None), vec![0, 2, 3]);
    assert_eq!(pick_conns(&keys, "/chat", Some(addr(3, 1))), vec![0, 3]);
    assert_eq!(pick_conns(&keys, "/none", None), Vec::<usize>::new());
}

#[test]
fn accessors_wrap_connections() {
    let a: Accessor<u32> = Accessor::from(5);
    assert_eq!(*a, 5);
    assert_eq!(*a.get_ref(), 5);
    let mut b = Accessor::new(String::from("x"));
    b.push('y');
    assert_eq!(b.into_inner(), "xy");
}

#[test]
fn settings_defaults_and_changes() {
    let c = ClientSettings::new();
    assert_eq!(c.num_workers, 4);
    assert_eq!(c.max_retries, 3);
    assert_eq!(c.retry_interval, Interval { secs: 1, nanos: 0 });
    let c = c.workers(8).max_retries(5).retry_interval_ms(1500);
    assert_eq!((c.num_workers, c.max_retries), (8, 5));
    assert_eq!(c.retry_interval, Interval { secs: 1, nanos: 500_000_000 });
    let c = c.retry_interval(Interval { secs: 0, nanos: 7 });
    assert_eq!(c.retry_interval, Interval { secs: 0, nanos: 7 });
    assert_eq!(Interval::from_millis(u64::MAX).secs, u64::MAX / 1000);
    assert_eq!(ServiceSettings::new().num_workers, 4);
    assert_eq!(ServiceSettings::new().workers(2).num_workers, 2);
}

#[test]
fn query_params_keep_one_value_per_name() {
    let mut params = QueryParams::new();
    assert!(params.pairs().is_empty());
    assert!(params.set_argument("page", "1"));
    assert!(params.set_argument("q", "x y"));
    assert!(!params.set_argument("page", "1"));
    assert!(params.set_argument("page", "2"));
    assert_eq!(
        params.pairs(),
        &vec![("page".to_string(), "2".to_string()), ("q".to_string(), "x y".to_string())]
    );
}

#[test]
fn server_packets_go_to_handler_worker_or_nowhere() {
    let call = Packet::<Vec<u8>, Vec<u8>>::make_call_message(7, vec![1, 2]);
    match server_packet_step(&call) {
        ServerPacketAction::Handle(id, args) => {
            assert_eq!(id, 7);
            assert_eq!(args, vec![1, 2]);
        }
        _ => panic!("a call goes to the handler"),
    }
    let ret = Packet::<Vec<u8>, Vec<u8>>::make_ret_message(9, vec![3]);
    match server_packet_step(&ret) {
        ServerPacketAction::Commit(id, payload) => {
            assert_eq!(id, 9);
            assert_eq!(payload, vec![3]);
        }
        _ => panic!("a return goes to the worker"),
    }
    match server_packet_step(&WsMessage::Text("hi".to_string())) {
        ServerPacketAction::Drop(e) => assert_eq!(e, PacketError::Unsupported),
        _ => panic!("text is no packet"),
    }
}
