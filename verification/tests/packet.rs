use edgy_s::packet::{check_return, next_req_id, CallError, Packet, PacketError, ReqId, WsMessage};

fn decode_ret(msg: &WsMessage) -> Packet<(), i32> {
    match Packet::from_message(msg).unwrap() {
        Packet::Call(id, _) => Packet::Call(id, ()),
        Packet::Ret(id, payload) => Packet::Ret(id, postcard::from_bytes::<i32>(&payload).unwrap()),
    }
}

#[test]
fn test_packet() {
    let data = Packet::<Vec<u8>, Vec<u8>>::make_ret_message(100 as ReqId, postcard::to_allocvec(&3i32).unwrap());
    let ret = decode_ret(&data);
    assert_eq!(ret, Packet::Ret(100 as ReqId, 3));
}

#[test]
fn envelope_matches_postcard_layout() {
    let payload = postcard::to_allocvec(&(7u32, "hi".to_string())).unwrap();
    let msg = Packet::<Vec<u8>, Vec<u8>>::make_call_message(42, payload.clone());
    // postcard writes an enum as its variant index (a varint) and then its fields.
    let expected = postcard::to_allocvec(&(0u8, 42u8, (7u32, "hi".to_string()))).unwrap();
    assert_eq!(msg, WsMessage::Binary(expected));
    assert_eq!(Packet::from_message(&msg).unwrap(), Packet::Call(42, payload));
    let ret = Packet::<Vec<u8>, Vec<u8>>::make_ret_message(42, vec![9]);
    assert_eq!(ret, WsMessage::Binary(vec![1, 42, 9]));
}

#[test]
fn round_trip_of_call_and_return() {
    for id in [0u8, 1, 127, 128, 255] {
        let call = Packet::<Vec<u8>, Vec<u8>>::make_call_message(id, vec![1, 2, 3]);
        assert_eq!(Packet::from_message(&call).unwrap(), Packet::Call(id, vec![1, 2, 3]));
        let ret = Packet::<Vec<u8>, Vec<u8>>::make_ret_message(id, vec![]);
        assert_eq!(Packet::from_message(&ret).unwrap(), Packet::Ret(id, vec![]));
    }
}

#[test]
fn non_binary_messages_are_refused() {
    for m in [
        WsMessage::Text("x".to_string()),
        WsMessage::Ping(vec![0, 1]),
        WsMessage::Pong(vec![]),
        WsMessage::Close(None),
        WsMessage::Frame(vec![0, 1]),
    ] {
        assert_eq!(Packet::from_message(&m), Err(PacketError::Unsupported));
    }
}

#[test]
fn malformed_envelopes() {
    assert_eq!(Packet::from_message(&WsMessage::Binary(vec![])), Err(PacketError::UnexpectedEnd));
    assert_eq!(Packet::from_message(&WsMessage::Binary(vec![0])), Err(PacketError::UnexpectedEnd));
    assert_eq!(Packet::from_message(&WsMessage::Binary(vec![2, 0])), Err(PacketError::BadVariant));
    assert_eq!(Packet::from_message(&WsMessage::Binary(vec![0x80, 0x80])), Err(PacketError::UnexpectedEnd));
    assert_eq!(
        Packet::from_message(&WsMessage::Binary(vec![0x80, 0x80, 0x80, 0x80, 0x80, 0])),
        Err(PacketError::BadVarint)
    );
    // A non-canonical varint for the variant index is still read as postcard reads it.
    assert_eq!(
        Packet::from_message(&WsMessage::Binary(vec![0x81, 0x00, 9, 5])),
        Ok(Packet::Ret(9, vec![5]))
    );
}

#[test]
fn checking_returns() {
    assert_eq!(check_return(Packet::<(), i32>::Ret(3, 10), 3), Ok(10));
    assert_eq!(
        check_return(Packet::<(), i32>::Ret(4, 10), 3),
        Err(CallError::IdMismatch { received: 4, expected: 3 })
    );
    assert_eq!(check_return(Packet::<(), i32>::Call(3, ()), 3), Err(CallError::NotAReturn));
}

#[test]
fn request_ids_wrap_after_255() {
    assert_eq!(next_req_id(0), 1);
    assert_eq!(next_req_id(254), 255);
    assert_eq!(next_req_id(255), 0);
    let mut seen = std::collections::HashSet::new();
    let mut id = 200u8;
    for _ in 0..256 {
        assert!(seen.insert(id));
        id = next_req_id(id);
    }
    assert_eq!(id, 200);
}
