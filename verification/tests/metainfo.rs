use torrent_client::digest::{sha1, to_hex};
use torrent_client::error::TorrentError;
use torrent_client::metainfo::{
    count_pieces, find_value_span, info_hash, info_is_wf, parse, size_of_piece, InfoDict, Metainfo,
    BLOCK_SIZE,
};

fn info_bytes() -> Vec<u8> {
    let pieces: Vec<u8> = (0u8..60).collect();
    let mut info = b"d6:lengthi11e4:name9:hello.txt12:piece lengthi4e6:pieces60:".to_vec();
    info.extend(pieces);
    info.push(b'e');
    info
}

fn torrent_bytes() -> Vec<u8> {
    let mut torrent = b"d8:announce31:http://tracker.example/announce4:info".to_vec();
    torrent.extend(info_bytes());
    torrent.push(b'e');
    torrent
}

fn with_info(info: &[u8]) -> Vec<u8> {
    let mut torrent = b"d8:announce31:http://tracker.example/announce4:info".to_vec();
    torrent.extend_from_slice(info);
    torrent.push(b'e');
    torrent
}

#[test]
fn metainfo_is_parsed() {
    let metainfo = parse(&torrent_bytes()).unwrap();
    assert_eq!(
        metainfo,
        Metainfo {
            announce: "http://tracker.example/announce".to_string(),
            info: InfoDict {
                name: "hello.txt".to_string(),
                piece_length: 4,
                total_length: 11,
                pieces: (0u8..60).collect(),
            },
            info_bytes: info_bytes(),
        }
    );
}

#[test]
fn info_hash_of_known_bytes() {
    let metainfo = parse(&torrent_bytes()).unwrap();
    let hash = info_hash(&metainfo);
    assert_eq!(to_hex(&hash), "5a8b222f466569a2ee0320a43965e2c83baa4fcd");
    assert_eq!(to_hex(&hash).len(), 40);
    assert_eq!(hash, sha1(&info_bytes()));
}

#[test]
fn info_hash_is_the_same_each_time() {
    let first = parse(&torrent_bytes()).unwrap();
    let second = parse(&torrent_bytes()).unwrap();
    assert_eq!(info_hash(&first), info_hash(&first));
    assert_eq!(info_hash(&first), info_hash(&second));
}

#[test]
fn info_hash_is_taken_of_the_bytes_as_they_stand() {
    // the keys of this info dictionary are not in order
    let pieces: Vec<u8> = (0u8..60).collect();
    let mut info = b"d4:name9:hello.txt6:lengthi11e6:pieces60:".to_vec();
    info.extend(pieces);
    info.extend_from_slice(b"12:piece lengthi4ee");
    let metainfo = parse(&with_info(&info)).unwrap();
    assert_eq!(metainfo.info_bytes, info);
    assert_eq!(info_hash(&metainfo), sha1(&info));
    assert_ne!(to_hex(&info_hash(&metainfo)), "5a8b222f466569a2ee0320a43965e2c83baa4fcd");
    assert_eq!(metainfo.info.total_length, 11);
}

#[test]
fn sha1_of_known_bytes() {
    assert_eq!(to_hex(&sha1(b"abc")), "a9993e364706816aba3e25717850c26c9cd0d89d");
    assert_eq!(to_hex(&sha1(b"")), "da39a3ee5e6b4b0d3255bfef95601890afd80709");
}

#[test]
fn hex_has_two_lower_case_digits_for_each_byte() {
    assert_eq!(to_hex(&[0x00, 0x0f, 0xa0, 0xff, 0x1b]), "000fa0ff1b");
    assert_eq!(to_hex(&[]), "");
}

#[test]
fn span_of_a_value_is_found() {
    let torrent = torrent_bytes();
    let span = find_value_span(&torrent, b"info").unwrap();
    assert_eq!(&torrent[span.0..span.1], &info_bytes()[..]);
    assert_eq!(find_value_span(&torrent, b"announce"), Some((11, 45)));
    assert_eq!(find_value_span(&torrent, b"nothing"), None);
    assert_eq!(find_value_span(b"le", b"info"), None);
    assert_eq!(find_value_span(b"d4:infoi1e", b"info"), None);
    assert_eq!(find_value_span(b"d4:infoi1e4:infoi22ee", b"info"), Some((16, 20)));
}

#[test]
fn text_that_is_no_bencode_is_malformed() {
    assert_eq!(parse(b"not a torrent"), Err(TorrentError::MalformedInput));
    assert_eq!(parse(b""), Err(TorrentError::MalformedInput));
    assert_eq!(parse(b"d8:announce3:abc"), Err(TorrentError::MalformedInput));
}

#[test]
fn missing_or_misshaped_keys_are_a_schema_error() {
    assert_eq!(parse(b"i1e"), Err(TorrentError::SchemaError));
    assert_eq!(parse(b"de"), Err(TorrentError::SchemaError));
    // no announce
    let mut no_announce = b"d4:info".to_vec();
    no_announce.extend(info_bytes());
    no_announce.push(b'e');
    assert_eq!(parse(&no_announce), Err(TorrentError::SchemaError));
    // no info
    assert_eq!(parse(b"d8:announce3:abce"), Err(TorrentError::SchemaError));
    // announce is no byte string
    let mut number = b"d8:announcei1e4:info".to_vec();
    number.extend(info_bytes());
    number.push(b'e');
    assert_eq!(parse(&number), Err(TorrentError::SchemaError));
    // info is no dictionary
    assert_eq!(parse(b"d8:announce3:abc4:infoi1ee"), Err(TorrentError::SchemaError));
    // each key of info
    assert_eq!(
        parse(&with_info(b"d4:name1:a12:piece lengthi4e6:pieces0:e")),
        Err(TorrentError::SchemaError)
    );
    assert_eq!(
        parse(&with_info(b"d6:lengthi0e12:piece lengthi4e6:pieces0:e")),
        Err(TorrentError::SchemaError)
    );
    assert_eq!(
        parse(&with_info(b"d6:lengthi0e4:name1:a6:pieces0:e")),
        Err(TorrentError::SchemaError)
    );
    assert_eq!(
        parse(&with_info(b"d6:lengthi0e4:name1:a12:piece lengthi4ee")),
        Err(TorrentError::SchemaError)
    );
    assert_eq!(
        parse(&with_info(b"d6:length1:04:name1:a12:piece lengthi4e6:pieces0:e")),
        Err(TorrentError::SchemaError)
    );
}

#[test]
fn empty_file_has_no_pieces() {
    let metainfo = parse(&with_info(b"d6:lengthi0e4:name1:a12:piece lengthi4e6:pieces0:e")).unwrap();
    assert_eq!(metainfo.info.total_length, 0);
    assert_eq!(count_pieces(0, 4), 0);
}

#[test]
fn numbers_out_of_range_are_a_schema_error() {
    assert_eq!(
        parse(&with_info(b"d6:lengthi-1e4:name1:a12:piece lengthi4e6:pieces0:e")),
        Err(TorrentError::SchemaError)
    );
    assert_eq!(
        parse(&with_info(b"d6:lengthi0e4:name1:a12:piece lengthi0e6:pieces0:e")),
        Err(TorrentError::SchemaError)
    );
    assert_eq!(
        parse(&with_info(b"d6:lengthi0e4:name1:a12:piece lengthi-4e6:pieces0:e")),
        Err(TorrentError::SchemaError)
    );
}

#[test]
fn pieces_must_hold_one_digest_for_each_piece() {
    // 19 bytes: no multiple of 20
    let mut info = b"d6:lengthi4e4:name1:a12:piece lengthi4e6:pieces19:".to_vec();
    info.extend(vec![0u8; 19]);
    info.push(b'e');
    assert_eq!(parse(&with_info(&info)), Err(TorrentError::SchemaError));
    // two digests for one piece
    let mut info = b"d6:lengthi4e4:name1:a12:piece lengthi4e6:pieces40:".to_vec();
    info.extend(vec![0u8; 40]);
    info.push(b'e');
    assert_eq!(parse(&with_info(&info)), Err(TorrentError::SchemaError));
    // one digest for one piece
    let mut info = b"d6:lengthi4e4:name1:a12:piece lengthi4e6:pieces20:".to_vec();
    info.extend(vec![0u8; 20]);
    info.push(b'e');
    assert!(parse(&with_info(&info)).is_ok());
}

#[test]
fn name_and_announce_must_be_utf8() {
    let mut info = b"d6:lengthi0e4:name2:".to_vec();
    info.extend([0xff, 0xfe]);
    info.extend_from_slice(b"12:piece lengthi4e6:pieces0:e");
    assert_eq!(parse(&with_info(&info)), Err(TorrentError::SchemaError));
    let mut torrent = b"d8:announce2:".to_vec();
    torrent.extend([0xc3, 0x28]);
    torrent.extend_from_slice(b"4:infod6:lengthi0e4:name1:a12:piece lengthi4e6:pieces0:ee");
    assert_eq!(parse(&torrent), Err(TorrentError::SchemaError));
    let mut torrent = b"d8:announce2:".to_vec();
    torrent.extend([0xc3, 0xa9]);
    torrent.extend_from_slice(b"4:infod6:lengthi0e4:name1:a12:piece lengthi4e6:pieces0:ee");
    assert_eq!(parse(&torrent).unwrap().announce, "\u{e9}");
}

#[test]
fn piece_size_arithmetic() {
    assert_eq!(count_pieces(1000, 400), 3);
    assert_eq!(size_of_piece(1000, 400, 0), 400);
    assert_eq!(size_of_piece(1000, 400, 1), 400);
    assert_eq!(size_of_piece(1000, 400, 2), 200);
}

#[test]
fn piece_sizes_at_the_edges() {
    assert_eq!(count_pieces(800, 400), 2);
    assert_eq!(size_of_piece(800, 400, 1), 400);
    assert_eq!(count_pieces(1, 400), 1);
    assert_eq!(size_of_piece(1, 400, 0), 1);
    assert_eq!(count_pieces(401, 400), 2);
    assert_eq!(size_of_piece(401, 400, 1), 1);
    assert_eq!(count_pieces(usize::MAX, usize::MAX), 1);
    assert_eq!(count_pieces(usize::MAX, 1), usize::MAX);
    assert_eq!(size_of_piece(usize::MAX, 2, usize::MAX / 2), 1);
}

#[test]
fn blocks_of_a_piece() {
    assert_eq!(BLOCK_SIZE, 16 * 1024);
    assert_eq!(count_pieces(40000, BLOCK_SIZE), 3);
    assert_eq!(size_of_piece(40000, BLOCK_SIZE, 0), 16384);
    assert_eq!(size_of_piece(40000, BLOCK_SIZE, 2), 40000 - 2 * 16384);
}

#[test]
fn info_is_checked_for_consistency() {
    let good = InfoDict { name: "a".to_string(), piece_length: 4, total_length: 11, pieces: vec![0; 60] };
    assert!(info_is_wf(&good));
    assert!(!info_is_wf(&InfoDict { piece_length: 0, ..good.clone() }));
    assert!(!info_is_wf(&InfoDict { pieces: vec![0; 59], ..good.clone() }));
    assert!(!info_is_wf(&InfoDict { pieces: vec![0; 40], ..good.clone() }));
    assert!(!info_is_wf(&InfoDict { total_length: 13, ..good.clone() }));
    assert!(info_is_wf(&InfoDict { total_length: 12, ..good }));
}
