use torrent_client::error::TorrentError;
use torrent_client::wire::{
    body_fits, build_handshake, check_handshake, decode_message, encode_message, parse_frame,
    push_be32, read_be32, Frame, Message, HANDSHAKE_LEN,
};

fn reply(info_hash: [u8; 20], peer_id: [u8; 20]) -> [u8; 68] {
    let mut out = [0u8; 68];
    out.copy_from_slice(&build_handshake(&info_hash, &peer_id));
    out
}

#[test]
fn handshake_has_the_fixed_layout() {
    let info_hash = [0xaau8; 20];
    let peer_id = *b"00112233445566778899";
    let handshake = build_handshake(&info_hash, &peer_id);
    assert_eq!(handshake.len(), 68);
    assert_eq!(HANDSHAKE_LEN, 68);
    assert_eq!(handshake[0], 19);
    assert_eq!(&handshake[1..20], b"BitTorrent protocol");
    assert_eq!(&handshake[20..28], &[0u8; 8]);
    assert_eq!(&handshake[28..48], &info_hash);
    assert_eq!(&handshake[48..68], &peer_id);
}

#[test]
fn handshake_for_the_same_torrent_gives_the_peer_id() {
    let info_hash = [7u8; 20];
    let theirs = reply(info_hash, *b"-XX0001-abcdefghijkl");
    assert_eq!(check_handshake(&theirs, &info_hash), Ok(b"-XX0001-abcdefghijkl".to_vec()));
}

#[test]
fn handshake_for_another_torrent_is_a_mismatch() {
    let theirs = reply([7u8; 20], [1u8; 20]);
    assert_eq!(check_handshake(&theirs, &[8u8; 20]), Err(TorrentError::HandshakeMismatch));
    let mut last = [7u8; 20];
    last[19] = 8;
    assert_eq!(check_handshake(&theirs, &last), Err(TorrentError::HandshakeMismatch));
}

#[test]
fn handshake_looks_at_nothing_but_the_info_hash() {
    let mut theirs = reply([7u8; 20], [1u8; 20]);
    theirs[0] = 0;
    theirs[5] = b'x';
    theirs[25] = 0xff;
    assert_eq!(check_handshake(&theirs, &[7u8; 20]), Ok(vec![1u8; 20]));
}

#[test]
fn numbers_go_high_byte_first() {
    let mut out = vec![9u8];
    push_be32(&mut out, 0x0102_0304);
    push_be32(&mut out, 0);
    push_be32(&mut out, u32::MAX);
    push_be32(&mut out, 16384);
    assert_eq!(out, vec![9, 1, 2, 3, 4, 0, 0, 0, 0, 255, 255, 255, 255, 0, 0, 0x40, 0]);
    assert_eq!(read_be32(&out, 1), 0x0102_0304);
    assert_eq!(read_be32(&out, 9), u32::MAX);
    assert_eq!(read_be32(&out, 13), 16384);
}

#[test]
fn messages_are_framed() {
    assert_eq!(encode_message(&Message::KeepAlive), vec![0, 0, 0, 0]);
    assert_eq!(encode_message(&Message::Choke), vec![0, 0, 0, 1, 0]);
    assert_eq!(encode_message(&Message::Unchoke), vec![0, 0, 0, 1, 1]);
    assert_eq!(encode_message(&Message::Interested), vec![0, 0, 0, 1, 2]);
    assert_eq!(encode_message(&Message::NotInterested), vec![0, 0, 0, 1, 3]);
    assert_eq!(encode_message(&Message::Have { index: 258 }), vec![0, 0, 0, 5, 4, 0, 0, 1, 2]);
    assert_eq!(
        encode_message(&Message::Bitfield { bits: vec![0xf0, 0x01] }),
        vec![0, 0, 0, 3, 5, 0xf0, 0x01]
    );
    assert_eq!(
        encode_message(&Message::Request { index: 1, begin: 16384, length: 16384 }),
        vec![0, 0, 0, 13, 6, 0, 0, 0, 1, 0, 0, 0x40, 0, 0, 0, 0x40, 0]
    );
    assert_eq!(
        encode_message(&Message::Piece { index: 2, begin: 3, block: vec![9, 8, 7] }),
        vec![0, 0, 0, 12, 7, 0, 0, 0, 2, 0, 0, 0, 3, 9, 8, 7]
    );
    assert_eq!(
        encode_message(&Message::Cancel { index: 1, begin: 2, length: 3 }),
        vec![0, 0, 0, 13, 8, 0, 0, 0, 1, 0, 0, 0, 2, 0, 0, 0, 3]
    );
}

#[test]
fn bodies_are_read() {
    assert_eq!(decode_message(&[]), Ok(Message::KeepAlive));
    assert_eq!(decode_message(&[0]), Ok(Message::Choke));
    assert_eq!(decode_message(&[1]), Ok(Message::Unchoke));
    assert_eq!(decode_message(&[2]), Ok(Message::Interested));
    assert_eq!(decode_message(&[3]), Ok(Message::NotInterested));
    assert_eq!(decode_message(&[4, 0, 0, 1, 2]), Ok(Message::Have { index: 258 }));
    assert_eq!(decode_message(&[5]), Ok(Message::Bitfield { bits: vec![] }));
    assert_eq!(decode_message(&[5, 0x80]), Ok(Message::Bitfield { bits: vec![0x80] }));
    assert_eq!(
        decode_message(&[6, 0, 0, 0, 1, 0, 0, 0x40, 0, 0, 0, 0x40, 0]),
        Ok(Message::Request { index: 1, begin: 16384, length: 16384 })
    );
    assert_eq!(
        decode_message(&[7, 0, 0, 0, 2, 0, 0, 0, 3, 9, 8, 7]),
        Ok(Message::Piece { index: 2, begin: 3, block: vec![9, 8, 7] })
    );
    assert_eq!(
        decode_message(&[7, 0, 0, 0, 2, 0, 0, 0, 3]),
        Ok(Message::Piece { index: 2, begin: 3, block: vec![] })
    );
    assert_eq!(
        decode_message(&[8, 0, 0, 0, 1, 0, 0, 0, 2, 0, 0, 0, 3]),
        Ok(Message::Cancel { index: 1, begin: 2, length: 3 })
    );
}

#[test]
fn unknown_messages_are_skipped() {
    assert_eq!(decode_message(&[9, 0x1a, 0xe1]), Ok(Message::Unknown { id: 9 }));
    assert_eq!(decode_message(&[20, 1, 2, 3, 4, 5]), Ok(Message::Unknown { id: 20 }));
    assert_eq!(decode_message(&[255]), Ok(Message::Unknown { id: 255 }));
}

#[test]
fn bodies_of_wrong_length_break_the_protocol() {
    for body in [
        &[0u8, 0][..],
        &[1, 1],
        &[2, 0, 0],
        &[3, 9],
        &[4],
        &[4, 0, 0, 0],
        &[4, 0, 0, 0, 0, 0],
        &[6],
        &[6, 0, 0, 0, 1, 0, 0, 0, 2, 0, 0, 0],
        &[6, 0, 0, 0, 1, 0, 0, 0, 2, 0, 0, 0, 3, 4],
        &[7],
        &[7, 0, 0, 0, 2, 0, 0, 0],
        &[8, 1, 2],
    ] {
        assert_eq!(decode_message(body), Err(TorrentError::ProtocolViolation));
    }
}

#[test]
fn frames_are_taken_from_a_buffer() {
    let mut buffer = encode_message(&Message::Have { index: 3 });
    buffer.extend(encode_message(&Message::Unchoke));
    buffer.extend([0, 0]);
    assert_eq!(
        parse_frame(&buffer),
        Ok(Frame::Complete { message: Message::Have { index: 3 }, used: 9 })
    );
    assert_eq!(
        parse_frame(&buffer[9..]),
        Ok(Frame::Complete { message: Message::Unchoke, used: 5 })
    );
    assert_eq!(parse_frame(&buffer[14..]), Ok(Frame::Incomplete));
}

#[test]
fn frames_that_are_not_yet_whole() {
    assert_eq!(parse_frame(&[]), Ok(Frame::Incomplete));
    assert_eq!(parse_frame(&[0, 0, 0]), Ok(Frame::Incomplete));
    assert_eq!(parse_frame(&[0, 0, 0, 5, 4, 0, 0, 0]), Ok(Frame::Incomplete));
    assert_eq!(parse_frame(&[255, 255, 255, 255, 7]), Ok(Frame::Incomplete));
    assert_eq!(
        parse_frame(&[0, 0, 0, 0]),
        Ok(Frame::Complete { message: Message::KeepAlive, used: 4 })
    );
    assert_eq!(
        parse_frame(&[0, 0, 0, 0, 9, 9]),
        Ok(Frame::Complete { message: Message::KeepAlive, used: 4 })
    );
}

#[test]
fn frame_with_a_bad_body_breaks_the_protocol() {
    assert_eq!(parse_frame(&[0, 0, 0, 2, 4, 1]), Err(TorrentError::ProtocolViolation));
    assert_eq!(
        parse_frame(&[0, 0, 0, 3, 77, 1, 2]),
        Ok(Frame::Complete { message: Message::Unknown { id: 77 }, used: 7 })
    );
}

#[test]
fn written_messages_are_read_back() {
    for message in [
        Message::KeepAlive,
        Message::Choke,
        Message::Unchoke,
        Message::Interested,
        Message::NotInterested,
        Message::Have { index: u32::MAX },
        Message::Bitfield { bits: vec![1, 2, 3] },
        Message::Request { index: 0, begin: u32::MAX, length: 1 },
        Message::Piece { index: 5, begin: 32768, block: vec![0xab; 16384] },
        Message::Cancel { index: 9, begin: 8, length: 7 },
        Message::Unknown { id: 42 },
    ] {
        let frame = encode_message(&message);
        assert_eq!(parse_frame(&frame), Ok(Frame::Complete { message, used: frame.len() }));
    }
}

#[test]
fn bodies_longer_than_any_message_do_not_fit() {
    assert!(body_fits(0, 0));
    assert!(body_fits(16393, 10));
    assert!(!body_fits(16394, 10));
    assert!(!body_fits(u32::MAX, 10));
    // a bitfield for many pieces is longer than a block
    assert!(body_fits(16393, 131_072));
    assert!(!body_fits(16394, 131_072));
    assert!(body_fits(1 + 20_000, 160_000));
    assert!(!body_fits(2 + 20_000, 160_000));
    assert!(body_fits(1 + 20_001, 160_001));
    assert!(!body_fits(2 + 20_001, 160_001));
}
