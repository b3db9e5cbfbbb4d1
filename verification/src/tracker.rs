use vstd::prelude::*;
use vstd::string::StringExecFns;
use crate::codec::{Val, Value, MAX_DEPTH, parse_value, decode, lemma_view_parts};
use crate::digest::{hex_digit, hex_digits, hex_encode};
use crate::error::TorrentError;
use crate::metainfo::{key, text_field, int_field, bytes_field, number_field, Metainfo};
use crate::text::{
    ascii_chars, is_digit, nat_digits, lemma_nat_digits, append_decimal, decimal_string,
};

verus! {

/// The outside type of the errors of `serde_urlencoded::to_string`.
#[verifier::external_type_specification]
#[verifier::external_body]
pub struct ExFormError(serde_urlencoded::ser::Error);

/// The bytes `data` with each byte written as `%` and two hexadecimal
/// digits.
pub open spec fn percent_encoded(data: Seq<u8>) -> Seq<char> {
    Seq::new(
        3 * data.len(),
        |i: int|
            if i % 3 == 0 {
                '%'
            } else if i % 3 == 1 {
                hex_digit(data[i / 3] as int / 16) as char
            } else {
                hex_digit(data[i / 3] as int % 16) as char
            },
    )
}

/// Writes each byte of `data` as `%` and two hexadecimal digits.
pub fn percent_encode(data: &[u8]) -> (text: String)
    ensures
        text@ == percent_encoded(data@),
{
    let mut text = String::new();
    let mut i: usize = 0;
    proof {
        reveal_strlit("%");
    }
    assert(text@ =~= percent_encoded(data@.take(0)));
    while i < data.len()
        invariant
            0 <= i <= data@.len(),
            text@ == percent_encoded(data@.take(i as int)),
            "%"@ == seq!['%'],
        decreases data@.len() - i,
    {
        let one: [u8; 1] = [data[i]];
        let digits = hex_encode(one.as_slice());
        text.append("%");
        text.append(digits.as_str());
        i = i + 1;
        proof {
            let before = percent_encoded(data@.take(i - 1));
            let now = percent_encoded(data@.take(i as int));
            let added = seq!['%'] + ascii_chars(hex_digits(one@));
            assert(now.len() == before.len() + 3);
            assert forall|j: int| 0 <= j < now.len() implies now[j] == (before + added)[j] by {
                if j >= before.len() {
                    assert(j / 3 == i - 1);
                    assert(data@.take(i as int)[i - 1] == one@[0]);
                } else {
                    assert(j / 3 < i - 1);
                    assert(data@.take(i as int)[j / 3] == data@.take(i - 1)[j / 3]);
                }
            }
            assert(text@ =~= now);
        }
    }
    assert(data@.take(i as int) =~= data@);
    text
}

/// Writes an info-hash for a tracker's URL: each of its 20 bytes as `%`
/// and two hexadecimal digits.
pub fn urlencode(t: &[u8; 20]) -> (text: String)
    ensures
        text@ == percent_encoded(t@),
{
    percent_encode(t.as_slice())
}

/// The address of a peer, as a model.
pub struct PeerModel {
    pub ipv4: Seq<u8>,
    pub port: nat,
}

/// The address of a peer.
#[derive(Clone, Copy, Debug, PartialEq, Eq)]
pub struct PeerAddress {
    /// The four bytes of the IPv4 address, the first first.
    pub ipv4: [u8; 4],
    /// The port.
    pub port: u16,
}

impl View for PeerAddress {
    type V = PeerModel;

    open spec fn view(&self) -> PeerModel {
        PeerModel { ipv4: self.ipv4@, port: self.port as nat }
    }
}

/// The peer that six bytes of a compact peer list describe: four bytes
/// of address, then the port, its high byte first.
pub open spec fn peer_at(peers: Seq<u8>, index: int) -> PeerModel {
    PeerModel {
        ipv4: peers.subrange(6 * index, 6 * index + 4),
        port: (peers[6 * index + 4] as nat) * 256 + peers[6 * index + 5] as nat,
    }
}

/// The peers that a compact peer list names, in order.
pub open spec fn peer_list(peers: Seq<u8>) -> Seq<PeerModel> {
    Seq::new((peers.len() / 6) as nat, |i: int| peer_at(peers, i))
}

/// The models of a list of addresses.
pub open spec fn addresses_view(list: Seq<PeerAddress>) -> Seq<PeerModel> {
    Seq::new(list.len(), |i: int| list[i]@)
}

/// Reads a compact peer list: six bytes for each peer. A list whose
/// length is no multiple of six is refused.
pub fn decode_peers(peers: &[u8]) -> (r: Result<Vec<PeerAddress>, TorrentError>)
    ensures
        peers@.len() % 6 == 0 ==> (r matches Ok(list) && addresses_view(list@) == peer_list(peers@)),
        peers@.len() % 6 != 0 ==> (r matches Err(e) && e == TorrentError::TrackerError),
{
    let len: usize = peers.len();
    if len % 6 != 0 {
        return Err(TorrentError::TrackerError);
    }
    let count: usize = len / 6;
    let mut list: Vec<PeerAddress> = Vec::new();
    let mut i: usize = 0;
    while i < count
        invariant
            0 <= i <= count,
            count == len / 6,
            len % 6 == 0,
            len == peers@.len(),
            list@.len() == i,
            forall|j: int| 0 <= j < i ==> (#[trigger] list@[j])@ == peer_at(peers@, j),
        decreases count - i,
    {
        let at: usize = 6 * i;
        let port: u16 = (peers[at + 4] as u16) * 256 + (peers[at + 5] as u16);
        let address = PeerAddress { ipv4: [peers[at], peers[at + 1], peers[at + 2], peers[at + 3]], port };
        assert(address.ipv4@ =~= peer_at(peers@, i as int).ipv4);
        list.push(address);
        i = i + 1;
    }
    assert(addresses_view(list@) =~= peer_list(peers@));
    Ok(list)
}

/// An address as text: the four bytes in decimal with dots between
/// them, a colon, and the port in decimal.
pub open spec fn address_text(a: PeerModel) -> Seq<char> {
    ascii_chars(
        nat_digits(a.ipv4[0] as nat) + seq![46u8] + nat_digits(a.ipv4[1] as nat) + seq![46u8]
            + nat_digits(a.ipv4[2] as nat) + seq![46u8] + nat_digits(a.ipv4[3] as nat) + seq![58u8]
            + nat_digits(a.port as nat),
    )
}

impl PeerAddress {
    /// The address as text, such as `10.0.0.1:6881`.
    pub fn to_text(&self) -> (text: String)
        ensures
            text@ == address_text(self@),
    {
        proof {
            reveal_strlit(".");
            reveal_strlit(":");
        }
        let mut text = String::new();
        append_decimal(&mut text, self.ipv4[0] as u64);
        text.append(".");
        append_decimal(&mut text, self.ipv4[1] as u64);
        text.append(".");
        append_decimal(&mut text, self.ipv4[2] as u64);
        text.append(".");
        append_decimal(&mut text, self.ipv4[3] as u64);
        text.append(":");
        append_decimal(&mut text, self.port as u64);
        assert(text@ =~= address_text(self@));
        text
    }
}

/// The peers of a compact peer list, each as text. A list whose length
/// is no multiple of six is refused, and nothing of it is read.
pub fn parse_ips(ips: &[u8]) -> (r: Result<Vec<String>, TorrentError>)
    ensures
        ips@.len() % 6 == 0 ==> (r matches Ok(list) && list@.len() == ips@.len() / 6 && forall|
            i: int,
        |
            0 <= i < list@.len() ==> (#[trigger] list@[i])@ == address_text(peer_at(ips@, i))),
        ips@.len() % 6 != 0 ==> (r matches Err(e) && e == TorrentError::TrackerError),
{
    let peers = match decode_peers(ips) {
        Ok(peers) => peers,
        Err(e) => {
            return Err(e);
        },
    };
    assert(addresses_view(peers@).len() == peers@.len());
    assert(peer_list(ips@).len() == ips@.len() / 6);
    let mut list: Vec<String> = Vec::new();
    let mut i: usize = 0;
    while i < peers.len()
        invariant
            0 <= i <= peers@.len(),
            addresses_view(peers@) == peer_list(ips@),
            peers@.len() == ips@.len() / 6,
            list@.len() == i,
            forall|j: int| 0 <= j < i ==> (#[trigger] list@[j])@ == address_text(peer_at(ips@, j)),
        decreases peers@.len() - i,
    {
        assert(addresses_view(peers@)[i as int] == peers@[i as int]@);
        assert(peer_list(ips@)[i as int] == peer_at(ips@, i as int));
        list.push(peers[i].to_text());
        i = i + 1;
    }
    Ok(list)
}

/// The models of a list of pairs of texts.
pub open spec fn pairs_view(pairs: Seq<(String, String)>) -> Seq<(Seq<char>, Seq<char>)> {
    Seq::new(pairs.len(), |i: int| (pairs[i].0@, pairs[i].1@))
}

/// Whether `c` is an ASCII letter or digit: a character that stands in a
/// form as it is.
pub open spec fn is_plain(c: char) -> bool {
    48 <= c as u32 <= 57 || 65 <= c as u32 <= 90 || 97 <= c as u32 <= 122
}

/// Whether `text` holds nothing but ASCII letters and digits.
pub open spec fn plain_text(text: Seq<char>) -> bool {
    forall|i: int| 0 <= i < text.len() ==> is_plain(#[trigger] text[i])
}

/// Whether the keys and values of `pairs` hold nothing but ASCII letters
/// and digits.
pub open spec fn plain_pairs(pairs: Seq<(Seq<char>, Seq<char>)>) -> bool {
    forall|i: int|
        0 <= i < pairs.len() ==> plain_text((#[trigger] pairs[i]).0) && plain_text(pairs[i].1)
}

/// The first `n` pairs as a form: each as its key, `=` and its value,
/// with `&` between the pairs.
pub open spec fn form_text(pairs: Seq<(Seq<char>, Seq<char>)>, n: nat) -> Seq<char>
    decreases n,
{
    if n == 0 || n > pairs.len() {
        Seq::empty()
    } else if n == 1 {
        pairs[0].0 + seq!['='] + pairs[0].1
    } else {
        form_text(pairs, (n - 1) as nat) + seq!['&'] + pairs[n - 1].0 + seq!['='] + pairs[n - 1].1
    }
}

/// `serde_urlencoded::to_string` of the crate serde_urlencoded, on a
/// list of pairs of texts that hold nothing but ASCII letters and
/// digits. Taken on trust: for a list of pairs of texts it does not
/// fail, and it writes each pair as key, `=` and value, with `&` between
/// the pairs, leaving letters and digits as they are.
#[verifier::external_body]
pub(crate) fn urlencoded_form(pairs: &Vec<(String, String)>) -> (r: Result<
    String,
    serde_urlencoded::ser::Error,
>)
    requires
        plain_pairs(pairs_view(pairs@)),
    ensures
        r is Ok,
        r matches Ok(text) ==> text@ == form_text(pairs_view(pairs@), pairs@.len() as nat),
{
    serde_urlencoded::to_string(pairs)
}

/// The fields of an announce that are written as a form: the port, that
/// nothing was sent or received yet, the bytes left to fetch, and that
/// the peers are wanted in the compact form.
pub open spec fn query_model(port: u16, left: usize) -> Seq<(Seq<char>, Seq<char>)> {
    seq![
        ("port"@, ascii_chars(nat_digits(port as nat))),
        ("uploaded"@, ascii_chars(nat_digits(0))),
        ("downloaded"@, ascii_chars(nat_digits(0))),
        ("left"@, ascii_chars(nat_digits(left as nat))),
        ("compact"@, ascii_chars(nat_digits(1))),
    ]
}

/// The form of an announce: `port=..&uploaded=0&downloaded=0&left=..&compact=1`,
/// with the port and the bytes left in decimal.
pub open spec fn query_text(port: u16, left: usize) -> Seq<char> {
    form_text(query_model(port, left), 5)
}

/// A number in decimal holds nothing but digits.
pub proof fn lemma_decimal_is_plain(n: nat)
    ensures
        plain_text(ascii_chars(nat_digits(n))),
{
    lemma_nat_digits(n);
    let digits = nat_digits(n);
    assert forall|i: int| 0 <= i < ascii_chars(digits).len() implies is_plain(
        #[trigger] ascii_chars(digits)[i],
    ) by {
        assert(is_digit(digits[i]));
        assert(ascii_chars(digits)[i] == digits[i] as char);
        assert((digits[i] as char) as u32 == digits[i] as u32);
    }
}

/// The keys and values of the form of an announce hold nothing but
/// letters and digits.
pub proof fn lemma_query_is_plain(port: u16, left: usize)
    ensures
        plain_pairs(query_model(port, left)),
{
    reveal_strlit("port");
    reveal_strlit("uploaded");
    reveal_strlit("downloaded");
    reveal_strlit("left");
    reveal_strlit("compact");
    lemma_decimal_is_plain(port as nat);
    lemma_decimal_is_plain(0);
    lemma_decimal_is_plain(left as nat);
    lemma_decimal_is_plain(1);
    let pairs = query_model(port, left);
    assert forall|i: int| 0 <= i < pairs.len() implies plain_text((#[trigger] pairs[i]).0)
        && plain_text(pairs[i].1) by {
        if i == 0 {
            assert(pairs[0].0 == "port"@);
        } else if i == 1 {
            assert(pairs[1].0 == "uploaded"@);
        } else if i == 2 {
            assert(pairs[2].0 == "downloaded"@);
        } else if i == 3 {
            assert(pairs[3].0 == "left"@);
        } else {
            assert(pairs[4].0 == "compact"@);
        }
    }
}

/// The fields of an announce that are written as a form.
pub fn query_pairs(port: u16, left: usize) -> (pairs: Vec<(String, String)>)
    ensures
        pairs_view(pairs@) == query_model(port, left),
        plain_pairs(pairs_view(pairs@)),
{
    let mut pairs: Vec<(String, String)> = Vec::new();
    pairs.push((String::from_str("port"), decimal_string(port as u64)));
    pairs.push((String::from_str("uploaded"), decimal_string(0)));
    pairs.push((String::from_str("downloaded"), decimal_string(0)));
    pairs.push((String::from_str("left"), decimal_string(left as u64)));
    pairs.push((String::from_str("compact"), decimal_string(1)));
    assert(pairs_view(pairs@) =~= query_model(port, left));
    proof {
        lemma_query_is_plain(port, left);
    }
    pairs
}

/// The URL of an announce: the tracker's URL, the form, and the info-hash
/// and the peer id with each byte escaped.
pub open spec fn announce_url_text(
    announce: Seq<char>,
    form: Seq<char>,
    info_hash: Seq<u8>,
    peer_id: Seq<u8>,
) -> Seq<char> {
    announce + "?"@ + form + "&info_hash="@ + percent_encoded(info_hash) + "&peer_id="@
        + percent_encoded(peer_id)
}

/// Puts the URL of an announce together.
pub fn assemble_announce_url(
    announce: &str,
    form: &str,
    info_hash: &[u8; 20],
    peer_id: &[u8; 20],
) -> (url: String)
    ensures
        url@ == announce_url_text(announce@, form@, info_hash@, peer_id@),
{
    let mut url = String::from_str(announce);
    url.append("?");
    url.append(form);
    url.append("&info_hash=");
    let hash_text = urlencode(info_hash);
    url.append(hash_text.as_str());
    url.append("&peer_id=");
    let id_text = urlencode(peer_id);
    url.append(id_text.as_str());
    url
}

/// The URL to fetch in order to announce to the tracker of `metainfo`:
/// that the peer `peer_id` listens on `port`, has nothing yet, and wants
/// the whole file. It is always there; the result is a `Result` for the
/// sake of the form's writer, which has an error of its own.
pub fn announce_url(metainfo: &Metainfo, info_hash: &[u8; 20], peer_id: &[u8; 20], port: u16) -> (r:
    Result<String, TorrentError>)
    ensures
        r matches Ok(url) && url@ == announce_url_text(
            metainfo.announce@,
            query_text(port, metainfo.info.total_length),
            info_hash@,
            peer_id@,
        ),
{
    let pairs = query_pairs(port, metainfo.info.total_length);
    match urlencoded_form(&pairs) {
        Ok(form) => Ok(
            assemble_announce_url(metainfo.announce.as_str(), form.as_str(), info_hash, peer_id),
        ),
        Err(_) => Err(TorrentError::TrackerError),
    }
}

/// What a tracker answered.
#[derive(Clone, Debug, PartialEq, Eq)]
pub struct TrackerResponse {
    /// The seconds to wait before the next announce, where the tracker
    /// says so.
    pub interval: Option<i64>,
    /// The peers.
    pub peers: Vec<PeerAddress>,
}

/// What the body of a tracker's answer says, where it can be read: a
/// dictionary with a byte string `peers` that is a compact peer list.
pub open spec fn response_model(body: Seq<u8>) -> Option<(Option<int>, Seq<PeerModel>)> {
    match parse_value(body, 0, MAX_DEPTH as nat) {
        Some((Val::Dict(d), _)) => match text_field(d, key("peers")) {
            Some(peers) if peers.len() % 6 == 0 => Some(
                (int_field(d, key("interval")), peer_list(peers)),
            ),
            _ => None,
        },
        _ => None,
    }
}

/// Reads the body of a tracker's answer.
pub fn parse_tracker_response(body: &[u8]) -> (r: Result<TrackerResponse, TorrentError>)
    ensures
        match response_model(body@) {
            Some((interval, peers)) => r matches Ok(response) && addresses_view(response.peers@)
                == peers && (match interval {
                Some(i) => response.interval == Some(i as i64) && i64::MIN <= i <= i64::MAX,
                None => response.interval is None,
            }),
            None => r matches Err(e) && e == TorrentError::TrackerError,
        },
{
    let (top, _) = match decode(body) {
        Ok(decoded) => decoded,
        Err(_) => {
            return Err(TorrentError::TrackerError);
        },
    };
    proof {
        lemma_view_parts(&top);
    }
    let entries = match &top {
        Value::Dict(entries) => entries,
        _ => {
            return Err(TorrentError::TrackerError);
        },
    };
    let peers = match bytes_field(entries, "peers".as_bytes()) {
        Some(bytes) => match decode_peers(bytes.as_slice()) {
            Ok(peers) => peers,
            Err(e) => {
                return Err(e);
            },
        },
        None => {
            return Err(TorrentError::TrackerError);
        },
    };
    let interval = number_field(entries, "interval".as_bytes());
    Ok(TrackerResponse { interval, peers })
}

/// The peers that a tracker named, from what came back over HTTP: the
/// status and the body. Any status but a success, from 200 to 299, is a
/// failure of the tracker, and so is a body that cannot be read.
pub fn peers_from_reply(status: u16, body: &[u8]) -> (r: Result<Vec<PeerAddress>, TorrentError>)
    ensures
        match (if 200 <= status <= 299 {
            response_model(body@)
        } else {
            None
        }) {
            Some((_, peers)) => r matches Ok(list) && addresses_view(list@) == peers,
            None => r matches Err(e) && e == TorrentError::TrackerError,
        },
{
    if status < 200 || status > 299 {
        return Err(TorrentError::TrackerError);
    }
    match parse_tracker_response(body) {
        Ok(response) => Ok(response.peers),
        Err(e) => Err(e),
    }
}

} // verus!
