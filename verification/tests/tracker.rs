use torrent_client::error::TorrentError;
use torrent_client::metainfo::{InfoDict, Metainfo};
use torrent_client::tracker::{
    announce_url, assemble_announce_url, decode_peers, parse_ips, parse_tracker_response,
    peers_from_reply, percent_encode, query_pairs, urlencode, PeerAddress, TrackerResponse,
};

fn metainfo() -> Metainfo {
    Metainfo {
        announce: "http://tracker.example/announce".to_string(),
        info: InfoDict {
            name: "hello.txt".to_string(),
            piece_length: 4,
            total_length: 11,
            pieces: (0u8..60).collect(),
        },
        info_bytes: Vec::new(),
    }
}

#[test]
fn urlencode_escapes_every_byte() {
    let hash: [u8; 20] = [
        0xd6, 0x9f, 0x91, 0xe6, 0xb2, 0xae, 0x4c, 0x54, 0x24, 0x68, 0xd1, 0x07, 0x3a, 0x71, 0xd4,
        0xea, 0x13, 0x87, 0x9a, 0x7f,
    ];
    assert_eq!(
        urlencode(&hash),
        "%d6%9f%91%e6%b2%ae%4c%54%24%68%d1%07%3a%71%d4%ea%13%87%9a%7f"
    );
    assert_eq!(urlencode(&[0u8; 20]), "%00".repeat(20));
    assert_eq!(urlencode(&[b'a'; 20]), "%61".repeat(20));
}

#[test]
fn percent_encode_of_any_length() {
    assert_eq!(percent_encode(&[]), "");
    assert_eq!(percent_encode(&[0x0a]), "%0a");
    assert_eq!(percent_encode(&[0xff, 0x10]), "%ff%10");
}

#[test]
fn compact_peer_list_decode() {
    let peers = [10, 0, 0, 1, 0x1a, 0xe1, 192, 168, 1, 255, 0x00, 0x50];
    let list = decode_peers(&peers).unwrap();
    assert_eq!(list.len(), 2);
    assert_eq!(list[0], PeerAddress { ipv4: [10, 0, 0, 1], port: 6881 });
    assert_eq!(list[1], PeerAddress { ipv4: [192, 168, 1, 255], port: 80 });
    assert_eq!(list[0].to_text(), "10.0.0.1:6881");
    assert_eq!(list[1].to_text(), "192.168.1.255:80");
}

#[test]
fn port_is_read_high_byte_first() {
    let list = decode_peers(&[1, 2, 3, 4, 0x01, 0x00]).unwrap();
    assert_eq!(list[0].port, 256);
    let list = decode_peers(&[1, 2, 3, 4, 0x00, 0x01]).unwrap();
    assert_eq!(list[0].port, 1);
    let list = decode_peers(&[255, 255, 255, 255, 0xff, 0xff]).unwrap();
    assert_eq!(list[0].to_text(), "255.255.255.255:65535");
    let list = decode_peers(&[0, 0, 0, 0, 0, 0]).unwrap();
    assert_eq!(list[0].to_text(), "0.0.0.0:0");
}

#[test]
fn peer_list_of_wrong_length_is_refused() {
    assert_eq!(decode_peers(&[1, 2, 3, 4, 5]), Err(TorrentError::TrackerError));
    assert_eq!(decode_peers(&[1, 2, 3, 4, 5, 6, 7]), Err(TorrentError::TrackerError));
    assert_eq!(decode_peers(&[]), Ok(vec![]));
}

#[test]
fn parse_ips_gives_text() {
    let peers = [165, 232, 33, 77, 0xc9, 0x0b, 178, 62, 85, 20, 0xc8, 0xf3];
    assert_eq!(
        parse_ips(&peers),
        Ok(vec!["165.232.33.77:51467".to_string(), "178.62.85.20:51443".to_string()])
    );
    assert_eq!(parse_ips(&[]), Ok(Vec::<String>::new()));
}

#[test]
fn parse_ips_refuses_a_list_of_wrong_length() {
    assert_eq!(parse_ips(&[1, 2, 3, 4, 5]), Err(TorrentError::TrackerError));
    assert_eq!(parse_ips(&[10, 0, 0, 1, 0x1a, 0xe1, 9]), Err(TorrentError::TrackerError));
    assert_eq!(parse_ips(&[0; 11]), Err(TorrentError::TrackerError));
    assert_eq!(parse_ips(&[0; 12]).map(|list| list.len()), Ok(2));
}

#[test]
fn announce_url_is_always_there() {
    let mut m = metainfo();
    for (port, left) in [(0u16, 0usize), (1, 1), (65535, usize::MAX), (80, 1_000_000)] {
        m.info.total_length = left;
        let url = announce_url(&m, &[0u8; 20], &[0xffu8; 20], port).unwrap();
        assert_eq!(
            url,
            format!(
                "http://tracker.example/announce?port={port}&uploaded=0&downloaded=0&left={left}\
                 &compact=1&info_hash={}&peer_id={}",
                "%00".repeat(20),
                "%ff".repeat(20)
            )
        );
    }
}

#[test]
fn query_has_the_fields_of_an_announce() {
    let pairs = query_pairs(6881, 92063);
    let expected: Vec<(String, String)> = [
        ("port", "6881"),
        ("uploaded", "0"),
        ("downloaded", "0"),
        ("left", "92063"),
        ("compact", "1"),
    ]
    .iter()
    .map(|(k, v)| (k.to_string(), v.to_string()))
    .collect();
    assert_eq!(pairs, expected);
}

#[test]
fn announce_url_is_put_together() {
    let mut hash = [0u8; 20];
    for (i, b) in hash.iter_mut().enumerate() {
        *b = (i * 13) as u8;
    }
    let url = announce_url(&metainfo(), &hash, b"00112233445566778899", 6881).unwrap();
    assert_eq!(
        url,
        "http://tracker.example/announce?port=6881&uploaded=0&downloaded=0&left=11&compact=1\
         &info_hash=%00%0d%1a%27%34%41%4e%5b%68%75%82%8f%9c%a9%b6%c3%d0%dd%ea%f7\
         &peer_id=%30%30%31%31%32%32%33%33%34%34%35%35%36%36%37%37%38%38%39%39"
    );
}

#[test]
fn announce_url_from_its_parts() {
    let url = assemble_announce_url("http://t/a", "x=1&y=a%20b", &[1u8; 20], &[0xabu8; 20]);
    assert_eq!(
        url,
        format!("http://t/a?x=1&y=a%20b&info_hash={}&peer_id={}", "%01".repeat(20), "%ab".repeat(20))
    );
}

#[test]
fn tracker_response_is_read() {
    let mut body = b"d8:intervali1800e5:peers12:".to_vec();
    body.extend([10, 0, 0, 1, 0x1a, 0xe1, 10, 0, 0, 2, 0x1a, 0xe2]);
    body.push(b'e');
    assert_eq!(
        parse_tracker_response(&body),
        Ok(TrackerResponse {
            interval: Some(1800),
            peers: vec![
                PeerAddress { ipv4: [10, 0, 0, 1], port: 6881 },
                PeerAddress { ipv4: [10, 0, 0, 2], port: 6882 },
            ],
        })
    );
}

#[test]
fn tracker_response_without_interval() {
    assert_eq!(
        parse_tracker_response(b"d5:peers0:e"),
        Ok(TrackerResponse { interval: None, peers: vec![] })
    );
}

#[test]
fn tracker_response_that_cannot_be_read() {
    assert_eq!(parse_tracker_response(b"<html>"), Err(TorrentError::TrackerError));
    assert_eq!(parse_tracker_response(b""), Err(TorrentError::TrackerError));
    assert_eq!(parse_tracker_response(b"le"), Err(TorrentError::TrackerError));
    assert_eq!(parse_tracker_response(b"d8:intervali1800ee"), Err(TorrentError::TrackerError));
    assert_eq!(
        parse_tracker_response(b"d14:failure reason4:nopee"),
        Err(TorrentError::TrackerError)
    );
    assert_eq!(parse_tracker_response(b"d5:peersi6ee"), Err(TorrentError::TrackerError));
    assert_eq!(parse_tracker_response(b"d5:peers5:abcdee"), Err(TorrentError::TrackerError));
    assert_eq!(parse_tracker_response(b"d5:peers7:abcdefge"), Err(TorrentError::TrackerError));
}

#[test]
fn reply_without_success_is_a_tracker_error() {
    let mut body = b"d8:intervali1800e5:peers6:".to_vec();
    body.extend([10, 0, 0, 1, 0x1a, 0xe1]);
    body.push(b'e');
    let peers = vec![PeerAddress { ipv4: [10, 0, 0, 1], port: 6881 }];
    assert_eq!(peers_from_reply(200, &body), Ok(peers.clone()));
    assert_eq!(peers_from_reply(299, &body), Ok(peers));
    for status in [0, 100, 199, 300, 301, 404, 500, 65535] {
        assert_eq!(peers_from_reply(status, &body), Err(TorrentError::TrackerError));
    }
    assert_eq!(peers_from_reply(200, b"oops"), Err(TorrentError::TrackerError));
}
