use ramjet_node::routing::{
    tag, tag_fd, tag_kind, ConnectionIds, KIND_ACCEPT, KIND_CLOSE, KIND_READ, KIND_WAKE, KIND_WRITE,
};
use ramjet_node::wire::{frame_len, reply_header, reply_header_into};
use ramjet_ws::{encode, MessageKind};

#[test]
fn native_reply_headers_cover_every_wire_length_width() {
    let (header, len) = reply_header(MessageKind::Text, 125);
    assert_eq!((&header[..len], len), (&[0x81, 125][..], 2));

    let (header, len) = reply_header(MessageKind::Binary, 126);
    assert_eq!((&header[..len], len), (&[0x82, 126, 0, 126][..], 4));

    let (header, len) = reply_header(MessageKind::Text, 65_535);
    assert_eq!((&header[..len], len), (&[0x81, 126, 0xff, 0xff][..], 4));

    let (header, len) = reply_header(MessageKind::Binary, 65_536);
    assert_eq!(
        (&header[..len], len),
        (&[0x82, 127, 0, 0, 0, 0, 0, 1, 0, 0][..], 10),
    );
}

#[test]
fn every_short_header_is_its_first_byte_and_the_length() {
    for len in 0..126usize {
        assert_eq!(reply_header(MessageKind::Text, len).0[..2], [0x81, len as u8]);
        assert_eq!(reply_header(MessageKind::Binary, len).0[..2], [0x82, len as u8]);
    }
}

#[test]
fn frame_len_is_what_the_encoder_produces() {
    assert_eq!(frame_len(0), 2);
    assert_eq!(frame_len(125), 127);
    assert_eq!(frame_len(126), 130);
    assert_eq!(frame_len(65_535), 65_539);
    assert_eq!(frame_len(65_536), 65_546);
    for len in [0usize, 1, 125, 126, 127, 65_535, 65_536, 70_000] {
        let mut out: Vec<u8> = Vec::new();
        encode::binary(&mut out, &vec![7; len]);
        assert_eq!(out.len(), frame_len(len));
        let (header, header_len) = reply_header(MessageKind::Binary, len);
        assert_eq!(out[..header_len], header[..header_len]);
        let mut text: Vec<u8> = Vec::new();
        encode::text(&mut text, &"x".repeat(len));
        assert_eq!(text.len(), frame_len(len));
        let (header, header_len) = reply_header(MessageKind::Text, len);
        assert_eq!(text[..header_len], header[..header_len]);
    }
}

#[test]
fn a_header_is_laid_right_in_front_of_its_payload() {
    let mut buf = vec![9u8; 14];
    let start = reply_header_into(&mut buf, MessageKind::Text, &(6..14));
    assert_eq!(start, 4);
    assert_eq!(buf, [9, 9, 9, 9, 0x81, 8, 9, 9, 9, 9, 9, 9, 9, 9]);
}

#[test]
fn tags_give_back_kind_and_descriptor() {
    for kind in [KIND_ACCEPT, KIND_READ, KIND_WRITE, KIND_CLOSE, KIND_WAKE] {
        for fd in [0, 1, 7, i32::MAX, -1, i32::MIN] {
            let user = tag(kind, fd);
            assert_eq!(tag_kind(user), kind);
            assert_eq!(tag_fd(user), fd);
        }
    }
    assert_eq!(tag(KIND_WRITE, 7), 0x2_0000_0007);
    assert_eq!(tag(KIND_READ, -1), 0x1_FFFF_FFFF);
}

#[test]
fn ids_start_at_one_and_never_repeat() {
    let mut ids = ConnectionIds::new();
    assert!(!ids.exhausted());
    assert_eq!(ids.allocate(), 1);
    assert_eq!(ids.allocate(), 2);
    assert_eq!(ids.next, 3);
    let last = ConnectionIds { next: u64::MAX };
    assert!(last.exhausted());
}
