use vstd::prelude::*;
use crate::error::TorrentError;
use crate::metainfo::BLOCK_SIZE;

verus! {

/// The number of bytes in a handshake.
pub const HANDSHAKE_LEN: usize = 68;

/// The name of the protocol as the handshake spells it: the ASCII text
/// `BitTorrent protocol`.
pub open spec fn protocol_name() -> Seq<u8> {
    seq![
        66u8, 105u8, 116u8, 84u8, 111u8, 114u8, 114u8, 101u8, 110u8, 116u8, 32u8, 112u8, 114u8,
        111u8, 116u8, 111u8, 99u8, 111u8, 108u8,
    ]
}

/// A handshake: the length of the protocol's name, the name, eight
/// reserved bytes that are zero, the info-hash and the peer id.
pub open spec fn handshake_bytes(info_hash: Seq<u8>, peer_id: Seq<u8>) -> Seq<u8> {
    seq![19u8] + protocol_name() + Seq::new(8, |i: int| 0u8) + info_hash + peer_id
}

/// The handshake to send for the torrent `info_hash` as peer `peer_id`.
pub fn build_handshake(info_hash: &[u8; 20], peer_id: &[u8; 20]) -> (out: Vec<u8>)
    ensures
        out@ == handshake_bytes(info_hash@, peer_id@),
        out@.len() == HANDSHAKE_LEN,
{
    let name: [u8; 19] = [
        66, 105, 116, 84, 111, 114, 114, 101, 110, 116, 32, 112, 114, 111, 116, 111, 99, 111, 108,
    ];
    let reserved: [u8; 8] = [0, 0, 0, 0, 0, 0, 0, 0];
    let mut out: Vec<u8> = Vec::new();
    out.push(19);
    out.extend_from_slice(name.as_slice());
    out.extend_from_slice(reserved.as_slice());
    out.extend_from_slice(info_hash.as_slice());
    out.extend_from_slice(peer_id.as_slice());
    assert(name@ =~= protocol_name());
    assert(reserved@ =~= Seq::new(8, |i: int| 0u8));
    assert(out@ =~= handshake_bytes(info_hash@, peer_id@));
    out
}

/// Checks the handshake that a peer sent back: the info-hash in it must
/// be the one that was sent. Gives the peer's id, which is not looked at
/// any further.
pub fn check_handshake(reply: &[u8; 68], info_hash: &[u8; 20]) -> (r: Result<Vec<u8>, TorrentError>)
    ensures
        reply@.subrange(28, 48) == info_hash@ ==> (r matches Ok(id) && id@ == reply@.subrange(
            48,
            68,
        )),
        reply@.subrange(28, 48) != info_hash@ ==> (r matches Err(e) && e
            == TorrentError::HandshakeMismatch),
{
    let mut i: usize = 0;
    while i < 20
        invariant
            0 <= i <= 20,
            forall|j: int| 0 <= j < i ==> reply@[28 + j] == info_hash@[j],
        decreases 20 - i,
    {
        if reply[28 + i] != info_hash[i] {
            assert(reply@.subrange(28, 48)[i as int] != info_hash@[i as int]);
            return Err(TorrentError::HandshakeMismatch);
        }
        i = i + 1;
    }
    assert(reply@.subrange(28, 48) =~= info_hash@);
    let id = vstd::slice::slice_to_vec(vstd::slice::slice_subrange(reply.as_slice(), 48, 68));
    Ok(id)
}

/// The four bytes of `x`, the highest first.
pub open spec fn be32(x: u32) -> Seq<u8> {
    seq![
        (x / 0x100_0000) as u8,
        (x / 0x1_0000 % 0x100) as u8,
        (x / 0x100 % 0x100) as u8,
        (x % 0x100) as u8,
    ]
}

/// The number that the four bytes from `at` on spell, the highest first.
pub open spec fn be32_at(b: Seq<u8>, at: int) -> u32 {
    (b[at] as int * 0x100_0000 + b[at + 1] as int * 0x1_0000 + b[at + 2] as int * 0x100 + b[at
        + 3] as int) as u32
}

/// Reading four bytes that were written for a number gives the number,
/// and writing the number that four bytes spell gives the bytes.
pub proof fn lemma_be32(x: u32, b: Seq<u8>, at: int)
    ensures
        be32(x).len() == 4,
        be32_at(be32(x), 0) == x,
        0 <= at && at + 4 <= b.len() ==> be32(be32_at(b, at)) == b.subrange(at, at + 4),
{
    let x3: u32 = x / 0x100_0000;
    let x2: u32 = x / 0x1_0000 % 0x100;
    let x1: u32 = x / 0x100 % 0x100;
    let x0: u32 = x % 0x100;
    assert(x3 < 0x100 && x2 < 0x100 && x1 < 0x100 && x0 < 0x100 && x3 * 0x100_0000 + x2 * 0x1_0000
        + x1 * 0x100 + x0 == x) by (bit_vector)
        requires
            x3 == x / 0x100_0000,
            x2 == x / 0x1_0000 % 0x100,
            x1 == x / 0x100 % 0x100,
            x0 == x % 0x100,
    ;
    assert(be32(x)[0] == x3 && be32(x)[1] == x2 && be32(x)[2] == x1 && be32(x)[3] == x0);
    if 0 <= at && at + 4 <= b.len() {
        let b3: u32 = b[at] as u32;
        let b2: u32 = b[at + 1] as u32;
        let b1: u32 = b[at + 2] as u32;
        let b0: u32 = b[at + 3] as u32;
        let v: u32 = be32_at(b, at);
        assert(v == b3 * 0x100_0000 + b2 * 0x1_0000 + b1 * 0x100 + b0);
        assert(v / 0x100_0000 == b3 && v / 0x1_0000 % 0x100 == b2 && v / 0x100 % 0x100 == b1 && v
            % 0x100 == b0) by (bit_vector)
            requires
                b3 < 0x100 && b2 < 0x100 && b1 < 0x100 && b0 < 0x100,
                v == b3 * 0x100_0000 + b2 * 0x1_0000 + b1 * 0x100 + b0,
        ;
        assert(be32(v) =~= b.subrange(at, at + 4));
    }
}

/// Appends the four bytes of `x` to `out`, the highest first.
pub fn push_be32(out: &mut Vec<u8>, x: u32)
    ensures
        final(out)@ == old(out)@ + be32(x),
{
    let ghost before = out@;
    out.push((x / 0x100_0000) as u8);
    out.push((x / 0x1_0000 % 0x100) as u8);
    out.push((x / 0x100 % 0x100) as u8);
    out.push((x % 0x100) as u8);
    assert(out@ =~= before + be32(x));
}

/// Reads the number that the four bytes from `at` on spell.
pub fn read_be32(b: &[u8], at: usize) -> (x: u32)
    requires
        at + 4 <= b@.len(),
    ensures
        x == be32_at(b@, at as int),
{
    (b[at] as u32) * 0x100_0000 + (b[at + 1] as u32) * 0x1_0000 + (b[at + 2] as u32) * 0x100 + (
    b[at + 3] as u32)
}

/// A message of the peer wire protocol, as a model.
pub enum MessageModel {
    KeepAlive,
    Choke,
    Unchoke,
    Interested,
    NotInterested,
    Have { index: u32 },
    Bitfield { bits: Seq<u8> },
    Request { index: u32, begin: u32, length: u32 },
    Piece { index: u32, begin: u32, block: Seq<u8> },
    Cancel { index: u32, begin: u32, length: u32 },
    Unknown { id: u8 },
}

/// A message of the peer wire protocol.
#[derive(Clone, Debug, PartialEq, Eq)]
pub enum Message {
    /// Nothing to say: the connection is kept open.
    KeepAlive,
    /// The sender will not serve requests.
    Choke,
    /// The sender will serve requests.
    Unchoke,
    /// The sender wants pieces of the receiver.
    Interested,
    /// The sender wants none.
    NotInterested,
    /// The sender has the piece `index`.
    Have { index: u32 },
    /// The pieces that the sender has, one bit for each, the highest bit
    /// of the first byte for piece 0.
    Bitfield { bits: Vec<u8> },
    /// The sender asks for `length` bytes of piece `index` from `begin`.
    Request { index: u32, begin: u32, length: u32 },
    /// The bytes of piece `index` from `begin` on.
    Piece { index: u32, begin: u32, block: Vec<u8> },
    /// The sender takes a request back.
    Cancel { index: u32, begin: u32, length: u32 },
    /// A message of a kind that this library does not know; what it
    /// carried is dropped.
    Unknown { id: u8 },
}

impl View for Message {
    type V = MessageModel;

    open spec fn view(&self) -> MessageModel {
        match self {
            Message::KeepAlive => MessageModel::KeepAlive,
            Message::Choke => MessageModel::Choke,
            Message::Unchoke => MessageModel::Unchoke,
            Message::Interested => MessageModel::Interested,
            Message::NotInterested => MessageModel::NotInterested,
            Message::Have { index } => MessageModel::Have { index: *index },
            Message::Bitfield { bits } => MessageModel::Bitfield { bits: bits@ },
            Message::Request { index, begin, length } => MessageModel::Request {
                index: *index,
                begin: *begin,
                length: *length,
            },
            Message::Piece { index, begin, block } => MessageModel::Piece {
                index: *index,
                begin: *begin,
                block: block@,
            },
            Message::Cancel { index, begin, length } => MessageModel::Cancel {
                index: *index,
                begin: *begin,
                length: *length,
            },
            Message::Unknown { id } => MessageModel::Unknown { id: *id },
        }
    }
}

/// The body of a message: nothing for a keep-alive, otherwise the byte
/// that tells its kind and what it carries, numbers in four bytes each.
pub open spec fn message_body(m: MessageModel) -> Seq<u8> {
    match m {
        MessageModel::KeepAlive => Seq::empty(),
        MessageModel::Choke => seq![0u8],
        MessageModel::Unchoke => seq![1u8],
        MessageModel::Interested => seq![2u8],
        MessageModel::NotInterested => seq![3u8],
        MessageModel::Have { index } => seq![4u8] + be32(index),
        MessageModel::Bitfield { bits } => seq![5u8] + bits,
        MessageModel::Request { index, begin, length } => seq![6u8] + be32(index) + be32(begin)
            + be32(length),
        MessageModel::Piece { index, begin, block } => seq![7u8] + be32(index) + be32(begin)
            + block,
        MessageModel::Cancel { index, begin, length } => seq![8u8] + be32(index) + be32(begin)
            + be32(length),
        MessageModel::Unknown { id } => seq![id],
    }
}

/// A message as it goes over the wire: the length of its body in four
/// bytes, then the body.
pub open spec fn frame_bytes(m: MessageModel) -> Seq<u8> {
    be32(message_body(m).len() as u32) + message_body(m)
}

/// The message that a body spells, if it spells one. The first byte
/// tells the kind; a body of a known kind must have the length of that
/// kind, and one of an unknown kind is a message whose content is
/// dropped.
pub open spec fn message_of(body: Seq<u8>) -> Option<MessageModel> {
    if body.len() == 0 {
        Some(MessageModel::KeepAlive)
    } else if body[0] <= 3 {
        if body.len() != 1 {
            None
        } else if body[0] == 0 {
            Some(MessageModel::Choke)
        } else if body[0] == 1 {
            Some(MessageModel::Unchoke)
        } else if body[0] == 2 {
            Some(MessageModel::Interested)
        } else {
            Some(MessageModel::NotInterested)
        }
    } else if body[0] == 4 {
        if body.len() == 5 {
            Some(MessageModel::Have { index: be32_at(body, 1) })
        } else {
            None
        }
    } else if body[0] == 5 {
        Some(MessageModel::Bitfield { bits: body.subrange(1, body.len() as int) })
    } else if body[0] == 6 || body[0] == 8 {
        if body.len() != 13 {
            None
        } else if body[0] == 6 {
            Some(
                MessageModel::Request {
                    index: be32_at(body, 1),
                    begin: be32_at(body, 5),
                    length: be32_at(body, 9),
                },
            )
        } else {
            Some(
                MessageModel::Cancel {
                    index: be32_at(body, 1),
                    begin: be32_at(body, 5),
                    length: be32_at(body, 9),
                },
            )
        }
    } else if body[0] == 7 {
        if body.len() >= 9 {
            Some(
                MessageModel::Piece {
                    index: be32_at(body, 1),
                    begin: be32_at(body, 5),
                    block: body.subrange(9, body.len() as int),
                },
            )
        } else {
            None
        }
    } else {
        Some(MessageModel::Unknown { id: body[0] })
    }
}

/// Reads the message that a body spells. A body of a known kind with a
/// wrong length breaks the protocol.
pub fn decode_message(body: &[u8]) -> (r: Result<Message, TorrentError>)
    ensures
        match message_of(body@) {
            Some(m) => r matches Ok(message) && message@ == m,
            None => r matches Err(e) && e == TorrentError::ProtocolViolation,
        },
{
    let len: usize = body.len();
    if len == 0 {
        return Ok(Message::KeepAlive);
    }
    let id: u8 = body[0];
    if id <= 3 {
        if len != 1 {
            Err(TorrentError::ProtocolViolation)
        } else if id == 0 {
            Ok(Message::Choke)
        } else if id == 1 {
            Ok(Message::Unchoke)
        } else if id == 2 {
            Ok(Message::Interested)
        } else {
            Ok(Message::NotInterested)
        }
    } else if id == 4 {
        if len == 5 {
            Ok(Message::Have { index: read_be32(body, 1) })
        } else {
            Err(TorrentError::ProtocolViolation)
        }
    } else if id == 5 {
        let bits = vstd::slice::slice_to_vec(vstd::slice::slice_subrange(body, 1, len));
        Ok(Message::Bitfield { bits })
    } else if id == 6 || id == 8 {
        if len != 13 {
            return Err(TorrentError::ProtocolViolation);
        }
        let index: u32 = read_be32(body, 1);
        let begin: u32 = read_be32(body, 5);
        let length: u32 = read_be32(body, 9);
        if id == 6 {
            Ok(Message::Request { index, begin, length })
        } else {
            Ok(Message::Cancel { index, begin, length })
        }
    } else if id == 7 {
        if len < 9 {
            return Err(TorrentError::ProtocolViolation);
        }
        let index: u32 = read_be32(body, 1);
        let begin: u32 = read_be32(body, 5);
        let block = vstd::slice::slice_to_vec(vstd::slice::slice_subrange(body, 9, len));
        Ok(Message::Piece { index, begin, block })
    } else {
        Ok(Message::Unknown { id })
    }
}

/// Writes a message as it goes over the wire.
pub fn encode_message(message: &Message) -> (out: Vec<u8>)
    requires
        message_body(message@).len() <= u32::MAX,
    ensures
        out@ == frame_bytes(message@),
{
    let mut out: Vec<u8> = Vec::new();
    match message {
        Message::KeepAlive => {
            push_be32(&mut out, 0);
        },
        Message::Choke => {
            push_be32(&mut out, 1);
            out.push(0);
        },
        Message::Unchoke => {
            push_be32(&mut out, 1);
            out.push(1);
        },
        Message::Interested => {
            push_be32(&mut out, 1);
            out.push(2);
        },
        Message::NotInterested => {
            push_be32(&mut out, 1);
            out.push(3);
        },
        Message::Have { index } => {
            push_be32(&mut out, 5);
            out.push(4);
            push_be32(&mut out, *index);
        },
        Message::Bitfield { bits } => {
            push_be32(&mut out, (bits.len() + 1) as u32);
            out.push(5);
            out.extend_from_slice(bits.as_slice());
        },
        Message::Request { index, begin, length } => {
            push_be32(&mut out, 13);
            out.push(6);
            push_be32(&mut out, *index);
            push_be32(&mut out, *begin);
            push_be32(&mut out, *length);
        },
        Message::Piece { index, begin, block } => {
            push_be32(&mut out, (block.len() + 9) as u32);
            out.push(7);
            push_be32(&mut out, *index);
            push_be32(&mut out, *begin);
            out.extend_from_slice(block.as_slice());
        },
        Message::Cancel { index, begin, length } => {
            push_be32(&mut out, 13);
            out.push(8);
            push_be32(&mut out, *index);
            push_be32(&mut out, *begin);
            push_be32(&mut out, *length);
        },
        Message::Unknown { id } => {
            push_be32(&mut out, 1);
            out.push(*id);
        },
    }
    assert(out@ =~= frame_bytes(message@));
    out
}

/// What stands at the start of the bytes received so far.
#[derive(Clone, Debug, PartialEq, Eq)]
pub enum Frame {
    /// Not yet a whole message: more bytes are needed.
    Incomplete,
    /// A message, and the number of bytes that it took.
    Complete { message: Message, used: usize },
}

/// Takes one message from the start of the bytes received so far: four
/// bytes of length, then a body of that length.
pub fn parse_frame(buffer: &[u8]) -> (r: Result<Frame, TorrentError>)
    ensures
        buffer@.len() < 4 || buffer@.len() < 4 + be32_at(buffer@, 0) ==> r matches Ok(
            Frame::Incomplete,
        ),
        buffer@.len() >= 4 && buffer@.len() >= 4 + be32_at(buffer@, 0) ==> (match message_of(
            buffer@.subrange(4, 4 + be32_at(buffer@, 0)),
        ) {
            Some(m) => r matches Ok(Frame::Complete { message, used }) && message@ == m && used
                == 4 + be32_at(buffer@, 0),
            None => r matches Err(e) && e == TorrentError::ProtocolViolation,
        }),
{
    if buffer.len() < 4 {
        return Ok(Frame::Incomplete);
    }
    let length: u32 = read_be32(buffer, 0);
    if buffer.len() - 4 < length as usize {
        return Ok(Frame::Incomplete);
    }
    let end: usize = 4 + length as usize;
    match decode_message(vstd::slice::slice_subrange(buffer, 4, end)) {
        Ok(message) => Ok(Frame::Complete { message, used: end }),
        Err(e) => Err(e),
    }
}

/// A message that was written is read back as it was: the body of its
/// frame spells the message, whatever bytes follow the frame. An
/// unknown message needs a kind that is none of the known ones.
pub proof fn law_message_roundtrip(m: MessageModel)
    requires
        message_body(m).len() <= u32::MAX,
        m matches MessageModel::Unknown { id } ==> id > 8,
    ensures
        frame_bytes(m).len() == 4 + message_body(m).len(),
        be32_at(frame_bytes(m), 0) == message_body(m).len(),
        message_of(frame_bytes(m).subrange(4, frame_bytes(m).len() as int)) == Some(m),
{
    let body = message_body(m);
    let frame = frame_bytes(m);
    lemma_be32(body.len() as u32, frame, 0);
    assert(frame.subrange(4, frame.len() as int) =~= body);
    assert(be32_at(frame, 0) == be32_at(be32(body.len() as u32), 0));
    match m {
        MessageModel::Have { index } => {
            lemma_be32(index, body, 1);
            assert(be32_at(body, 1) == be32_at(be32(index), 0));
        },
        MessageModel::Bitfield { bits } => {
            assert(body.subrange(1, body.len() as int) =~= bits);
        },
        MessageModel::Request { index, begin, length } => {
            lemma_be32(index, body, 1);
            lemma_be32(begin, body, 5);
            lemma_be32(length, body, 9);
            assert(be32_at(body, 1) == be32_at(be32(index), 0));
            assert(be32_at(body, 5) == be32_at(be32(begin), 0));
            assert(be32_at(body, 9) == be32_at(be32(length), 0));
        },
        MessageModel::Cancel { index, begin, length } => {
            lemma_be32(index, body, 1);
            lemma_be32(begin, body, 5);
            lemma_be32(length, body, 9);
            assert(be32_at(body, 1) == be32_at(be32(index), 0));
            assert(be32_at(body, 5) == be32_at(be32(begin), 0));
            assert(be32_at(body, 9) == be32_at(be32(length), 0));
        },
        MessageModel::Piece { index, begin, block } => {
            lemma_be32(index, body, 1);
            lemma_be32(begin, body, 5);
            assert(be32_at(body, 1) == be32_at(be32(index), 0));
            assert(be32_at(body, 5) == be32_at(be32(begin), 0));
            assert(body.subrange(9, body.len() as int) =~= block);
        },
        _ => {},
    }
}

/// The longest body that a peer has reason to send for a torrent of
/// `pieces` pieces: a block with the nine bytes before it, or a bitfield
/// with the byte before it, whichever is longer.
pub open spec fn body_limit(pieces: nat) -> nat {
    if 1 + (pieces + 7) / 8 > 9 + BLOCK_SIZE {
        1 + (pieces + 7) / 8
    } else {
        (9 + BLOCK_SIZE) as nat
    }
}

/// Whether a body of `length` bytes, as a peer announces it in the four
/// bytes before a message, is one that a peer has reason to send for a
/// torrent of `pieces` pieces. A longer one is not worth the memory.
pub fn body_fits(length: u32, pieces: usize) -> (r: bool)
    ensures
        r == (length <= body_limit(pieces as nat)),
{
    let block: usize = 9 + BLOCK_SIZE;
    let bits: usize = 1 + pieces / 8 + (if pieces % 8 == 0 {
        0
    } else {
        1
    });
    let limit: usize = if bits > block {
        bits
    } else {
        block
    };
    length as usize <= limit
}

} // verus!
