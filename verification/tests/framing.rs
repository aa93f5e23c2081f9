use edgy_s::frame::{frame_item, BodyPoll, FrameBuffer, FramePoll};
use edgy_s::{FrameLen, FramedBox};

#[test]
fn length_prefixes_are_big_endian() {
    assert_eq!(u64::encode_len(0x0102), vec![0, 0, 0, 0, 0, 0, 1, 2]);
    assert_eq!(u32::encode_len(0x01020304), vec![1, 2, 3, 4]);
    assert_eq!(u16::encode_len(0x0102), vec![1, 2]);
    assert_eq!(u8::encode_len(7), vec![7]);
    assert_eq!(<() as FrameLen>::encode_len(7), Vec::<u8>::new());
    assert_eq!(u16::encode_len(0x10203), vec![2, 3]);
}

#[test]
fn length_prefixes_decode() {
    assert_eq!(u64::decode_len(&[0, 0, 0, 0, 0, 0, 1, 2, 99]), Some(0x0102));
    assert_eq!(u32::decode_len(&[0, 0, 1, 0]), Some(256));
    assert_eq!(u16::decode_len(&[1, 2]), Some(0x0102));
    assert_eq!(u16::decode_len(&[1]), None);
    assert_eq!(u8::decode_len(&[]), None);
    assert_eq!(u8::decode_len(&[200]), Some(200));
    assert_eq!(<() as FrameLen>::decode_len(&[1, 2]), Some(0));
    assert_eq!(u16::prefix_len(), 2);
    assert_eq!(<() as FrameLen>::prefix_len(), 0);
}

#[test]
fn frames_split_across_chunks_come_out_whole() {
    let mut wire = frame_item::<u16>(b"hello");
    wire.extend(frame_item::<u16>(b""));
    wire.extend(frame_item::<u16>(b"world!"));
    assert_eq!(&wire[..7], &[0, 5, b'h', b'e', b'l', b'l', b'o']);

    let mut buf = FrameBuffer::<u16>::new();
    let mut items = Vec::new();
    for chunk in wire.chunks(3) {
        loop {
            match buf.take_frame() {
                Some(item) => items.push(item),
                None => break,
            }
        }
        match buf.on_body::<String>(BodyPoll::Chunk(chunk.to_vec())) {
            FramePoll::Pending { rewake } => assert!(rewake),
            _ => panic!("a chunk is buffered"),
        }
    }
    while let Some(item) = buf.take_frame() {
        items.push(item);
    }
    assert_eq!(items, vec![b"hello".to_vec(), Vec::new(), b"world!".to_vec()]);
    assert!(matches!(buf.on_body::<String>(BodyPoll::End), FramePoll::End));
}

#[test]
fn body_ending_mid_frame_is_incomplete() {
    let mut buf = FrameBuffer::<u32>::new();
    buf.push_chunk(&[0, 0, 0, 4, 1, 2]);
    assert_eq!(buf.take_frame(), None);
    assert!(matches!(buf.on_body::<String>(BodyPoll::End), FramePoll::Incomplete));
}

#[test]
fn raw_mode_passes_chunks_through() {
    let mut buf = FrameBuffer::<()>::new();
    assert_eq!(frame_item::<()>(b"abc"), b"abc".to_vec());
    match buf.on_body::<String>(BodyPoll::Chunk(vec![1, 2, 3])) {
        FramePoll::Item(v) => assert_eq!(v, vec![1, 2, 3]),
        _ => panic!("raw chunks are items"),
    }
    assert_eq!(buf.take_frame(), None);
    assert!(matches!(buf.on_body::<String>(BodyPoll::End), FramePoll::End));
}

#[test]
fn body_errors_and_pending_polls() {
    let mut buf = FrameBuffer::<u8>::new();
    match buf.on_body(BodyPoll::Failed("broken".to_string())) {
        FramePoll::Failed(e) => assert_eq!(e, "broken"),
        _ => panic!("the error is passed on"),
    }
    assert!(matches!(buf.on_body::<String>(BodyPoll::Pending), FramePoll::Pending { rewake: false }));
}

#[test]
fn framed_box_holds_its_stream() {
    let b: FramedBox<Vec<u8>, u32> = FramedBox::pin(vec![1, 2]);
    assert_eq!(*b.into_inner(), vec![1, 2]);
    let b: FramedBox<[u8]> = FramedBox::new(Box::new([3u8, 4]) as Box<[u8]>);
    assert_eq!(&*b.into_inner(), &[3, 4]);
}

#[test]
fn every_chunking_gives_the_complete_frames_in_order() {
    let items: Vec<Vec<u8>> = vec![b"ab".to_vec(), Vec::new(), vec![7; 300], b"z".to_vec()];
    let mut wire = Vec::new();
    for item in &items {
        wire.extend(frame_item::<u16>(item));
    }
    for cut in 0..=wire.len() {
        let mut buf = FrameBuffer::<u16>::new();
        buf.push_chunk(&wire[..cut]);
        let mut got = Vec::new();
        while let Some(item) = buf.take_frame() {
            got.push(item);
        }
        let mut complete = 0;
        let mut end = 0;
        for item in &items {
            if end + 2 + item.len() <= cut {
                end += 2 + item.len();
                complete += 1;
            } else {
                break;
            }
        }
        assert_eq!(got, items[..complete].to_vec());
        buf.push_chunk(&wire[cut..]);
        while let Some(item) = buf.take_frame() {
            got.push(item);
        }
        assert_eq!(got, items);
    }
}
