use torrent_client::bitfield::{empty_bitfield, has_piece, only_piece, set_piece};
use torrent_client::error::TorrentError;
use torrent_client::manager::{Block, BlockState, PieceManager, PieceState};
use torrent_client::metainfo::InfoDict;

const TOTAL: usize = 40000;
const PIECE: usize = 32768;

fn file() -> Vec<u8> {
    (0..TOTAL).map(|i| ((i * 7 + 3) % 251) as u8).collect()
}

fn info() -> InfoDict {
    let mut pieces = hex::decode("9e0856c18fc0cc3d2d47135b706bcf3c6878b13c").unwrap();
    pieces.extend(hex::decode("48717cd0b453d6670688d799a0071c450dac66d6").unwrap());
    InfoDict { name: "file.bin".to_string(), piece_length: PIECE, total_length: TOTAL, pieces }
}

fn serve(block: &Block) -> Vec<u8> {
    let start = block.piece_index * PIECE + block.begin;
    file()[start..start + block.length].to_vec()
}

#[test]
fn bitfield_counts_from_the_highest_bit() {
    assert!(has_piece(&[0x80], 0));
    assert!(!has_piece(&[0x80], 1));
    assert!(has_piece(&[0x01], 7));
    assert!(has_piece(&[0x00, 0x40], 9));
    assert!(!has_piece(&[0xff], 8));
    assert!(!has_piece(&[], 0));
    let mut bits = empty_bitfield(10);
    assert_eq!(bits, vec![0, 0]);
    set_piece(&mut bits, 0);
    set_piece(&mut bits, 9);
    set_piece(&mut bits, 9);
    set_piece(&mut bits, 16);
    assert_eq!(bits, vec![0x80, 0x40]);
    assert_eq!(empty_bitfield(0), Vec::<u8>::new());
    assert_eq!(empty_bitfield(8), vec![0]);
    assert_eq!(empty_bitfield(9), vec![0, 0]);
}

#[test]
fn pieces_are_split_into_blocks() {
    let manager = PieceManager::new(&info());
    assert_eq!(manager.num_pieces(), 2);
    assert_eq!(manager.pieces[0].blocks, vec![BlockState::Pending; 2]);
    assert_eq!(manager.pieces[1].blocks, vec![BlockState::Pending; 1]);
    assert_eq!(manager.pieces[0].data.len(), 32768);
    assert_eq!(manager.pieces[1].data.len(), 7232);
    assert_eq!(manager.piece_state(0), PieceState::Pending);
    assert_eq!(manager.piece_state(1), PieceState::Pending);
    assert!(!manager.is_done());
}

#[test]
fn blocks_are_handed_out_in_order() {
    let mut manager = PieceManager::new(&info());
    let all = [0xc0u8];
    assert_eq!(manager.next_block(1, &all), Some(Block { piece_index: 0, begin: 0, length: 16384 }));
    assert_eq!(manager.next_block(2, &all), Some(Block { piece_index: 0, begin: 16384, length: 16384 }));
    assert_eq!(manager.next_block(1, &all), Some(Block { piece_index: 1, begin: 0, length: 7232 }));
    assert_eq!(manager.next_block(1, &all), None);
    assert_eq!(manager.pieces[0].blocks, vec![BlockState::InFlight { peer: 1 }, BlockState::InFlight { peer: 2 }]);
    assert_eq!(manager.pieces[1].blocks, vec![BlockState::InFlight { peer: 1 }]);
    assert_eq!(manager.piece_state(0), PieceState::InFlight);
}

#[test]
fn blocks_go_only_to_peers_that_claim_the_piece() {
    let mut manager = PieceManager::new(&info());
    assert_eq!(manager.next_block(1, &[0x00]), None);
    assert_eq!(manager.next_block(1, &[]), None);
    assert_eq!(manager.next_block(1, &[0x40]), Some(Block { piece_index: 1, begin: 0, length: 7232 }));
    assert_eq!(manager.next_block(1, &[0x40]), None);
    assert_eq!(manager.next_block(2, &[0x80]), Some(Block { piece_index: 0, begin: 0, length: 16384 }));
}

#[test]
fn bytes_outside_the_piece_break_the_protocol() {
    let mut manager = PieceManager::new(&info());
    let before = manager.clone();
    assert_eq!(manager.receive_block(2, 0, &[1]), Err(TorrentError::ProtocolViolation));
    assert_eq!(manager.receive_block(1, 7232, &[1]), Err(TorrentError::ProtocolViolation));
    assert_eq!(manager.receive_block(1, 7000, &[0; 233]), Err(TorrentError::ProtocolViolation));
    assert_eq!(manager.receive_block(0, usize::MAX, &[1, 2]), Err(TorrentError::ProtocolViolation));
    assert_eq!(manager.receive_block(0, 32769, &[]), Err(TorrentError::ProtocolViolation));
    assert_eq!(manager, before);
    assert_eq!(manager.receive_block(1, 7000, &[0; 232]), Ok(()));
    assert_eq!(manager.receive_block(0, 32768, &[]), Ok(()));
}

#[test]
fn bytes_are_stored_where_they_belong() {
    let mut manager = PieceManager::new(&info());
    assert_eq!(manager.receive_block(1, 10, &[1, 2, 3]), Ok(()));
    assert_eq!(&manager.pieces[1].data[9..14], &[0, 1, 2, 3, 0]);
    // no whole block: no block is received
    assert_eq!(manager.pieces[1].blocks, vec![BlockState::Pending]);
    let block = Block { piece_index: 0, begin: 16384, length: 16384 };
    assert_eq!(manager.receive_block(0, 16384, &serve(&block)), Ok(()));
    assert_eq!(manager.pieces[0].blocks, vec![BlockState::Pending, BlockState::Received]);
    assert_eq!(&manager.pieces[0].data[16384..], &file()[16384..32768]);
    assert_eq!(&manager.pieces[0].data[..16384], &vec![0u8; 16384][..]);
    assert!(!manager.is_complete(0));
    assert_eq!(manager.piece_state(0), PieceState::InFlight);
}

#[test]
fn complete_piece_with_the_right_bytes_is_verified() {
    let mut manager = PieceManager::new(&info());
    let block = manager.next_block(1, &[0x40]).unwrap();
    assert_eq!(manager.receive_block(1, 0, &serve(&block)), Ok(()));
    assert!(manager.is_complete(1));
    assert_eq!(manager.piece_state(1), PieceState::Verifying);
    assert_eq!(manager.verify_piece(1), Ok(()));
    assert_eq!(manager.piece_state(1), PieceState::Verified);
    assert!(manager.pieces[1].verified);
    assert!(!manager.is_done());
}

#[test]
fn corrupt_piece_is_pending_again() {
    let mut manager = PieceManager::new(&info());
    let block = manager.next_block(1, &[0x40]).unwrap();
    let mut bytes = serve(&block);
    bytes[100] ^= 1;
    assert_eq!(manager.receive_block(1, 0, &bytes), Ok(()));
    assert_eq!(manager.piece_state(1), PieceState::Verifying);
    assert_eq!(manager.verify_piece(1), Err(TorrentError::VerificationError));
    assert_eq!(manager.piece_state(1), PieceState::Pending);
    assert!(!manager.pieces[1].verified);
    assert_eq!(manager.pieces[1].blocks, vec![BlockState::Pending]);
    // it is handed out again, and the right bytes verify
    let again = manager.next_block(2, &[0x40]).unwrap();
    assert_eq!(again, block);
    assert_eq!(manager.receive_block(1, 0, &serve(&again)), Ok(()));
    assert_eq!(manager.verify_piece(1), Ok(()));
    assert_eq!(manager.piece_state(1), PieceState::Verified);
}

#[test]
fn piece_is_settled_by_the_digest_given() {
    let mut manager = PieceManager::new(&info());
    manager.receive_block(1, 0, &[0u8; 7232]).unwrap();
    let mut expected = [0u8; 20];
    expected.copy_from_slice(&info().pieces[20..40]);
    let mut other = expected;
    other[19] ^= 0x80;
    assert_eq!(manager.settle_piece(1, &other), Err(TorrentError::VerificationError));
    assert_eq!(manager.piece_state(1), PieceState::Pending);
    manager.receive_block(1, 0, &[0u8; 7232]).unwrap();
    assert_eq!(manager.settle_piece(1, &expected), Ok(()));
    assert_eq!(manager.piece_state(1), PieceState::Verified);
}

#[test]
fn verified_piece_is_not_written_again() {
    let mut manager = PieceManager::new(&info());
    let block = manager.next_block(1, &[0x40]).unwrap();
    manager.receive_block(1, 0, &serve(&block)).unwrap();
    manager.verify_piece(1).unwrap();
    let before = manager.clone();
    assert_eq!(manager.receive_block(1, 0, &[0xff; 7232]), Ok(()));
    assert_eq!(manager, before);
}

#[test]
fn lost_peer_gives_its_blocks_back() {
    let mut manager = PieceManager::new(&info());
    let all = [0xc0u8];
    let first = manager.next_block(1, &all).unwrap();
    let second = manager.next_block(2, &all).unwrap();
    let third = manager.next_block(1, &all).unwrap();
    manager.receive_block(third.piece_index, third.begin, &serve(&third)).unwrap();
    manager.release_peer(1);
    assert_eq!(manager.pieces[0].blocks, vec![BlockState::Pending, BlockState::InFlight { peer: 2 }]);
    assert_eq!(manager.pieces[1].blocks, vec![BlockState::Received]);
    // another peer gets the block that peer 1 held
    assert_eq!(manager.next_block(3, &all), Some(first));
    assert_eq!(manager.next_block(3, &all), None);
    manager.release_peer(7);
    assert_eq!(manager.pieces[0].blocks, vec![BlockState::InFlight { peer: 3 }, BlockState::InFlight { peer: 2 }]);
    let _ = second;
}

#[test]
fn download_completes_with_one_peer_left() {
    let mut manager = PieceManager::new(&info());
    let all = [0xc0u8];
    // peer 1 takes two blocks and is lost
    manager.next_block(1, &all).unwrap();
    manager.next_block(1, &all).unwrap();
    manager.release_peer(1);
    assert_eq!(manager.finish(1), Ok(None));
    // peer 2 serves everything
    let mut rounds = 0;
    while let Some(block) = manager.next_block(2, &all) {
        manager.receive_block(block.piece_index, block.begin, &serve(&block)).unwrap();
        if manager.is_complete(block.piece_index) {
            assert_eq!(manager.verify_piece(block.piece_index), Ok(()));
        }
        rounds += 1;
    }
    assert_eq!(rounds, 3);
    assert!(manager.is_done());
    assert_eq!(manager.assemble(), Ok(file()));
    assert_eq!(manager.finish(0), Ok(Some(file())));
}

#[test]
fn blocks_may_arrive_in_any_order() {
    let mut manager = PieceManager::new(&info());
    let all = [0xc0u8];
    let a = manager.next_block(1, &all).unwrap();
    let b = manager.next_block(2, &all).unwrap();
    let c = manager.next_block(3, &all).unwrap();
    for block in [c, b, a] {
        manager.receive_block(block.piece_index, block.begin, &serve(&block)).unwrap();
    }
    assert_eq!(manager.verify_piece(1), Ok(()));
    assert_eq!(manager.verify_piece(0), Ok(()));
    assert_eq!(manager.assemble(), Ok(file()));
}

#[test]
fn download_without_peers_is_incomplete() {
    let mut manager = PieceManager::new(&info());
    assert_eq!(manager.assemble(), Err(TorrentError::DownloadIncomplete));
    assert_eq!(manager.finish(0), Err(TorrentError::DownloadIncomplete));
    assert_eq!(manager.finish(2), Ok(None));
    let block = manager.next_block(1, &[0x40]).unwrap();
    manager.receive_block(1, 0, &serve(&block)).unwrap();
    manager.verify_piece(1).unwrap();
    assert_eq!(manager.finish(0), Err(TorrentError::DownloadIncomplete));
}

#[test]
fn empty_file_is_done_at_once() {
    let info = InfoDict { name: "empty".to_string(), piece_length: 4, total_length: 0, pieces: vec![] };
    let mut manager = PieceManager::new(&info);
    assert_eq!(manager.num_pieces(), 0);
    assert_eq!(manager.next_block(1, &[0xff]), None);
    assert!(manager.is_done());
    assert_eq!(manager.assemble(), Ok(vec![]));
}

#[test]
fn bitfield_can_be_narrowed_to_one_piece() {
    assert_eq!(only_piece(&[0xff, 0xff], 9), vec![0x00, 0x40]);
    assert_eq!(only_piece(&[0xff, 0xbf], 9), vec![0x00, 0x00]);
    assert_eq!(only_piece(&[0xff], 8), vec![0x00]);
    assert_eq!(only_piece(&[], 0), Vec::<u8>::new());
}
