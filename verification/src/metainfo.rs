use vstd::prelude::*;
use vstd::string::StringSliceAdditionalSpecFns;
use crate::codec::{
    Val, Value, MAX_DEPTH, parse_value, parse_string, parse_dict_from, val_wf, decode,
    decode_bencoded_value, parse_ben_string, dict_find, entries_view, lemma_view_parts,
    lemma_digit_run,
};
use crate::digest::{sha1_of, sha1_digest};
use crate::error::TorrentError;
use crate::keys::{dict_get, dict_insert, sorted_keys, key_eq, lemma_insert_sorted, lemma_insert_other};
use crate::text::utf8_text;

verus! {

/// The number of bytes in a SHA-1 digest.
pub const HASH_LEN: usize = 20;

/// The size of a block, the unit in which peers are asked for data.
pub const BLOCK_SIZE: usize = 16384;

/// The number of pieces of a file of `total` bytes cut into pieces of
/// `piece_length` bytes: the quotient, rounded up.
pub open spec fn piece_count(total: nat, piece_length: nat) -> nat {
    if piece_length == 0 {
        0
    } else {
        ((total + piece_length - 1) / (piece_length as int)) as nat
    }
}

/// The size of the piece `index`: `piece_length`, but for the last piece,
/// which holds what is left.
pub open spec fn piece_size(total: nat, piece_length: nat, index: nat) -> nat {
    if index + 1 < piece_count(total, piece_length) {
        piece_length
    } else {
        (total - piece_length * (piece_count(total, piece_length) - 1)) as nat
    }
}

/// The number of blocks of a piece of `size` bytes.
pub open spec fn block_count(size: nat) -> nat {
    piece_count(size, BLOCK_SIZE as nat)
}

/// The size of the block `index` of a piece of `size` bytes.
pub open spec fn block_size(size: nat, index: nat) -> nat {
    piece_size(size, BLOCK_SIZE as nat, index)
}

/// Rounding a quotient up: one more than the quotient where a rest is
/// left. The last of the pieces is not empty and not larger than the
/// others.
pub proof fn lemma_piece_count(total: nat, piece_length: nat)
    requires
        piece_length > 0,
    ensures
        piece_count(total, piece_length) == total / piece_length + (if total % piece_length == 0 {
            0nat
        } else {
            1nat
        }),
        total > 0 ==> piece_count(total, piece_length) > 0,
        total > 0 ==> 0 < piece_size(
            total,
            piece_length,
            (piece_count(total, piece_length) - 1) as nat,
        ) <= piece_length,
        piece_count(total, piece_length) <= total,
        total == 0 ==> piece_count(total, piece_length) == 0,
        total > 0 ==> piece_length * (piece_count(total, piece_length) - 1) < total,
{
    let q = total / piece_length;
    let r = total % piece_length;
    assert(total == q * piece_length + r && 0 <= r < piece_length) by (nonlinear_arith)
        requires
            piece_length > 0,
            q == total / piece_length,
            r == total % piece_length,
    ;
    if r == 0 {
        assert((q * piece_length + piece_length - 1) / (piece_length as int) == q)
            by (nonlinear_arith)
            requires
                piece_length > 0,
        ;
    } else {
        assert((q * piece_length + r + piece_length - 1) / (piece_length as int) == q + 1)
            by (nonlinear_arith)
            requires
                piece_length > 0,
                0 < r < piece_length,
        ;
    }
    assert(q <= total && (r != 0 ==> q + 1 <= total)) by (nonlinear_arith)
        requires
            total == q * piece_length + r,
            0 <= r < piece_length,
            piece_length > 0,
            q >= 0,
    ;
    let n = piece_count(total, piece_length);
    assert(q == 0 ==> total == r) by (nonlinear_arith)
        requires
            total == q * piece_length + r,
    ;
    if total > 0 {
        assert(0 < total - piece_length * (n - 1) <= piece_length) by (nonlinear_arith)
            requires
                total == q * piece_length + r,
                0 <= r < piece_length,
                n == q + (if r == 0 { 0int } else { 1int }),
                total > 0,
                piece_length > 0,
        ;
    }
}

/// No piece is empty, none is larger than `piece_length`, and each has
/// at least one block.
pub proof fn lemma_piece_size(total: nat, piece_length: nat, index: nat)
    requires
        piece_length > 0,
        index < piece_count(total, piece_length),
    ensures
        0 < piece_size(total, piece_length, index) <= piece_length,
        piece_size(total, piece_length, index) <= total,
        block_count(piece_size(total, piece_length, index)) > 0,
{
    lemma_piece_count(total, piece_length);
    lemma_piece_count(piece_size(total, piece_length, index), BLOCK_SIZE as nat);
    let count = piece_count(total, piece_length);
    if index + 1 < count {
        assert(piece_length * (count - 1) >= piece_length) by (nonlinear_arith)
            requires
                count >= 2,
                piece_length > 0,
        ;
    } else {
        assert(piece_length * (count - 1) >= 0) by (nonlinear_arith)
            requires
                count >= 1,
                piece_length > 0,
        ;
    }
}

/// The sizes of the pieces add up to the length of the file.
pub proof fn law_piece_sizes_add_up(total: nat, piece_length: nat)
    requires
        piece_length > 0,
        total > 0,
    ensures
        piece_length * (piece_count(total, piece_length) - 1) + piece_size(
            total,
            piece_length,
            (piece_count(total, piece_length) - 1) as nat,
        ) == total,
        forall|i: nat|
            i + 1 < piece_count(total, piece_length) ==> #[trigger] piece_size(
                total,
                piece_length,
                i,
            ) == piece_length,
{
    lemma_piece_count(total, piece_length);
}

/// The number of pieces of a file of `total` bytes in pieces of
/// `piece_length` bytes.
pub fn count_pieces(total: usize, piece_length: usize) -> (n: usize)
    requires
        piece_length > 0,
    ensures
        n == piece_count(total as nat, piece_length as nat),
{
    proof {
        lemma_piece_count(total as nat, piece_length as nat);
    }
    if total % piece_length == 0 {
        total / piece_length
    } else {
        total / piece_length + 1
    }
}

/// The size of the piece `index` of a file of `total` bytes in pieces of
/// `piece_length` bytes.
pub fn size_of_piece(total: usize, piece_length: usize, index: usize) -> (n: usize)
    requires
        piece_length > 0,
        index < piece_count(total as nat, piece_length as nat),
    ensures
        n == piece_size(total as nat, piece_length as nat, index as nat),
        0 < n <= piece_length,
        n <= total,
{
    proof {
        lemma_piece_count(total as nat, piece_length as nat);
    }
    let count: usize = count_pieces(total, piece_length);
    if index + 1 < count {
        assert(piece_length <= total) by (nonlinear_arith)
            requires
                count == total / piece_length + (if total % piece_length == 0 {
                    0int
                } else {
                    1int
                }),
                count >= 2,
                piece_length > 0,
        ;
        piece_length
    } else {
        assert(0 <= piece_length * (count - 1)) by (nonlinear_arith)
            requires
                count >= 1,
                piece_length > 0,
        ;
        total - piece_length * (count - 1)
    }
}

/// Where the value of `key` stands in the dictionary whose entries are
/// read from `pos` on: the positions of its first byte and behind its
/// last. Of two entries with the key the later counts; `found` is the
/// place seen so far.
pub open spec fn span_from(
    s: Seq<u8>,
    pos: int,
    depth: nat,
    key: Seq<u8>,
    found: Option<(int, int)>,
) -> Option<(int, int)>
    decreases s.len() - pos,
{
    if pos < 0 || pos >= s.len() {
        None
    } else if s[pos] == 101 {
        found
    } else {
        match parse_string(s, pos) {
            Some((k, at)) if pos < at => match parse_value(s, at, depth) {
                Some((_, next)) if at < next <= s.len() => span_from(
                    s,
                    next,
                    depth,
                    key,
                    if k == key {
                        Some((at, next))
                    } else {
                        found
                    },
                ),
                _ => None,
            },
            _ => None,
        }
    }
}

/// Where the value of `key` stands in the bytes of an encoded dictionary,
/// if the bytes are one and it holds the key.
pub open spec fn value_span(s: Seq<u8>, key: Seq<u8>) -> Option<(int, int)> {
    if s.len() > 0 && s[0] == 100 {
        span_from(s, 1, (MAX_DEPTH - 1) as nat, key, None)
    } else {
        None
    }
}

/// Finds where the value of `key` stands in the bytes of an encoded
/// dictionary.
pub fn find_value_span(bytes: &[u8], key: &[u8]) -> (r: Option<(usize, usize)>)
    ensures
        match value_span(bytes@, key@) {
            Some((from, to)) => r matches Some((a, b)) && a == from && b == to && 0 < from < to
                <= bytes@.len(),
            None => r is None,
        },
{
    let len: usize = bytes.len();
    if len == 0 || bytes[0] != 100 {
        return None;
    }
    let mut found: Option<(usize, usize)> = None;
    let mut i: usize = 1;
    while i < len
        invariant
            0 < i <= len,
            len == bytes@.len(),
            bytes@[0] == 100,
            match found {
                Some((from, to)) => 0 < from < to <= len,
                None => true,
            },
            value_span(bytes@, key@) == span_from(
                bytes@,
                i as int,
                (MAX_DEPTH - 1) as nat,
                key@,
                match found {
                    Some((from, to)) => Some((from as int, to as int)),
                    None => None,
                },
            ),
        decreases len - i,
    {
        if bytes[i] == 101 {
            return found;
        }
        let (k, at) = match parse_ben_string(bytes, i) {
            Ok(entry) => entry,
            Err(_) => {
                return None;
            },
        };
        proof {
            lemma_digit_run(bytes@, i as int);
        }
        match decode_bencoded_value(bytes, at, MAX_DEPTH - 1) {
            Ok((_, next)) => {
                if key_eq(k.as_slice(), key) {
                    found = Some((at, next));
                }
                i = next;
            },
            Err(_) => {
                return None;
            },
        }
    }
    None
}

/// Whether the place `span`, if any, holds the value `held`, if any: a
/// value read in `s` at the start of the place is `held` and ends where
/// the place ends.
pub open spec fn span_holds(s: Seq<u8>, depth: nat, span: Option<(int, int)>, held: Option<Val>) -> bool {
    match (span, held) {
        (Some((from, to)), Some(v)) => parse_value(s, from, depth) == Some((v, to)),
        (None, None) => true,
        _ => false,
    }
}

/// The place that `span_from` finds holds the value that the decoded
/// dictionary has for the key.
pub proof fn lemma_span_holds_value(
    s: Seq<u8>,
    pos: int,
    depth: nat,
    key: Seq<u8>,
    found: Option<(int, int)>,
    done: Seq<(Seq<u8>, Val)>,
)
    requires
        sorted_keys(done),
        parse_dict_from(s, pos, depth, done) is Some,
        span_holds(s, depth, found, dict_get(done, key)),
    ensures
        match parse_dict_from(s, pos, depth, done) {
            Some((entries, _)) => span_holds(
                s,
                depth,
                span_from(s, pos, depth, key, found),
                dict_get(entries, key),
            ),
            None => true,
        },
    decreases s.len() - pos,
{
    if 0 <= pos < s.len() && s[pos] != 101 {
        let (k, at) = parse_string(s, pos).unwrap();
        let (item, next) = parse_value(s, at, depth).unwrap();
        lemma_insert_sorted(done, k, item);
        if k != key {
            lemma_insert_other(done, k, item, key);
        }
        lemma_span_holds_value(
            s,
            next,
            depth,
            key,
            if k == key {
                Some((at, next))
            } else {
                found
            },
            dict_insert(done, k, item),
        );
    }
}

/// Where a decoded dictionary holds `key`, `value_span` gives the place
/// of its value in the bytes, and a value read from there is the one
/// that the dictionary holds; where it does not hold the key, there is
/// no such place.
pub proof fn law_span_holds_value(s: Seq<u8>, key: Seq<u8>)
    ensures
        match parse_value(s, 0, MAX_DEPTH as nat) {
            Some((Val::Dict(entries), _)) => span_holds(
                s,
                (MAX_DEPTH - 1) as nat,
                value_span(s, key),
                dict_get(entries, key),
            ),
            _ => true,
        },
{
    match parse_value(s, 0, MAX_DEPTH as nat) {
        Some((Val::Dict(entries), _)) => {
            let empty = Seq::<(Seq<u8>, Val)>::empty();
            assert(crate::keys::rank(empty, key) == 0);
            lemma_span_holds_value(s, 1, (MAX_DEPTH - 1) as nat, key, None, empty);
        },
        _ => {},
    }
}

/// The bytes of a key that is written as text.
pub open spec fn key(name: &str) -> Seq<u8> {
    name.spec_bytes()
}

/// The byte string that the dictionary `d` holds for `k`, if it holds one.
pub open spec fn text_field(d: Seq<(Seq<u8>, Val)>, k: Seq<u8>) -> Option<Seq<u8>> {
    match dict_get(d, k) {
        Some(Val::Bytes(b)) => Some(b),
        _ => None,
    }
}

/// The integer that the dictionary `d` holds for `k`, if it holds one.
pub open spec fn int_field(d: Seq<(Seq<u8>, Val)>, k: Seq<u8>) -> Option<int> {
    match dict_get(d, k) {
        Some(Val::Int(i)) => Some(i),
        _ => None,
    }
}

/// What a metainfo file says of the file it describes, as a model.
pub struct InfoModel {
    pub name: Seq<char>,
    pub piece_length: nat,
    pub total_length: nat,
    pub pieces: Seq<u8>,
}

/// What a metainfo file says of the file it describes.
#[derive(Clone, Debug, PartialEq, Eq)]
pub struct InfoDict {
    /// The suggested name of the file.
    pub name: String,
    /// The number of bytes in each piece but the last.
    pub piece_length: usize,
    /// The number of bytes in the file.
    pub total_length: usize,
    /// The SHA-1 digests of the pieces, 20 bytes each, one after another.
    pub pieces: Vec<u8>,
}

/// A metainfo file.
#[derive(Clone, Debug, PartialEq, Eq)]
pub struct Metainfo {
    /// The URL of the tracker.
    pub announce: String,
    /// What the file says of the file it describes.
    pub info: InfoDict,
    /// The bytes of the `info` dictionary, as they stand in the file.
    pub info_bytes: Vec<u8>,
}

impl View for InfoDict {
    type V = InfoModel;

    open spec fn view(&self) -> InfoModel {
        InfoModel {
            name: self.name@,
            piece_length: self.piece_length as nat,
            total_length: self.total_length as nat,
            pieces: self.pieces@,
        }
    }
}

/// Whether `m` is consistent: the pieces are not empty, and there is one
/// digest for each.
pub open spec fn info_wf(m: InfoModel) -> bool {
    m.piece_length > 0 && m.pieces.len() == HASH_LEN * piece_count(m.total_length, m.piece_length)
}

/// Whether `info` is consistent: the pieces are not empty, and there is
/// one digest for each.
pub fn info_is_wf(info: &InfoDict) -> (r: bool)
    ensures
        r == info_wf(info@),
{
    if info.piece_length == 0 {
        return false;
    }
    let count: usize = count_pieces(info.total_length, info.piece_length);
    info.pieces.len() % HASH_LEN == 0 && info.pieces.len() / HASH_LEN == count
}

/// What the dictionary `v` says of a file, where it has the shape of an
/// `info` dictionary: a `name` in UTF-8, a `length` that is not negative,
/// a positive `piece length`, both at most `limit`, and in `pieces` 20
/// bytes for each piece.
pub open spec fn info_model(v: Val, limit: int) -> Option<InfoModel> {
    match v {
        Val::Dict(d) => match (
            text_field(d, key("name")),
            int_field(d, key("length")),
            int_field(d, key("piece length")),
            text_field(d, key("pieces")),
        ) {
            (Some(name), Some(length), Some(piece_length), Some(pieces)) => {
                if vstd::utf8::valid_utf8(name) && 0 <= length <= limit && 0 < piece_length <= limit
                    && pieces.len() == HASH_LEN * piece_count(length as nat, piece_length as nat) {
                    Some(
                        InfoModel {
                            name: vstd::utf8::decode_utf8(name),
                            piece_length: piece_length as nat,
                            total_length: length as nat,
                            pieces,
                        },
                    )
                } else {
                    None
                }
            },
            _ => None,
        },
        _ => None,
    }
}

/// The tracker's URL and the description of the file that the decoded
/// metainfo file `top` holds, where it has the shape of one: a
/// dictionary with an `announce` in UTF-8 and an `info` dictionary.
pub open spec fn metainfo_model(top: Val, limit: int) -> Option<(Seq<char>, InfoModel)> {
    match top {
        Val::Dict(d) => match (text_field(d, key("announce")), dict_get(d, key("info"))) {
            (Some(announce), Some(info)) => match info_model(info, limit) {
                Some(m) if vstd::utf8::valid_utf8(announce) => Some(
                    (vstd::utf8::decode_utf8(announce), m),
                ),
                _ => None,
            },
            _ => None,
        },
        _ => None,
    }
}

/// The byte string that the entries hold for `key`.
pub fn bytes_field<'a>(entries: &'a Vec<(Vec<u8>, Value)>, key: &[u8]) -> (r: Option<&'a Vec<u8>>)
    requires
        sorted_keys(entries_view(entries@)),
    ensures
        match text_field(entries_view(entries@), key@) {
            Some(b) => r matches Some(v) && v@ == b,
            None => r is None,
        },
{
    match dict_find(entries, key) {
        Some(at) => {
            proof {
                lemma_view_parts(&entries[at as int].1);
            }
            match &entries[at].1 {
                Value::Bytes(b) => Some(b),
                _ => None,
            }
        },
        None => None,
    }
}

/// The integer that the entries hold for `key`.
pub fn number_field(entries: &Vec<(Vec<u8>, Value)>, key: &[u8]) -> (r: Option<i64>)
    requires
        sorted_keys(entries_view(entries@)),
    ensures
        match int_field(entries_view(entries@), key@) {
            Some(i) => r matches Some(v) && v == i,
            None => r is None,
        },
{
    match dict_find(entries, key) {
        Some(at) => {
            proof {
                lemma_view_parts(&entries[at as int].1);
            }
            match &entries[at].1 {
                Value::Int(i) => Some(*i),
                _ => None,
            }
        },
        None => None,
    }
}

/// A length as `usize`, where it is one: not negative, and at least
/// `least`.
fn as_length(i: i64, least: i64) -> (r: Option<usize>)
    requires
        0 <= least,
    ensures
        match r {
            Some(n) => n == i && least <= i,
            None => i < least || i > usize::MAX,
        },
{
    if i < least {
        None
    } else if (i as u64) > (usize::MAX as u64) {
        None
    } else {
        Some(i as usize)
    }
}

/// Reads what an `info` dictionary says of a file.
pub fn project_info(value: &Value) -> (r: Result<InfoDict, TorrentError>)
    requires
        val_wf(value@, (MAX_DEPTH - 1) as nat),
    ensures
        match info_model(value@, usize::MAX as int) {
            Some(m) => r matches Ok(info) && info@ == m && info_wf(m),
            None => r matches Err(e) && e == TorrentError::SchemaError,
        },
{
    proof {
        lemma_view_parts(value);
    }
    let entries = match value {
        Value::Dict(entries) => entries,
        _ => {
            return Err(TorrentError::SchemaError);
        },
    };
    let name_bytes = match bytes_field(entries, "name".as_bytes()) {
        Some(b) => b,
        None => {
            return Err(TorrentError::SchemaError);
        },
    };
    let length = match number_field(entries, "length".as_bytes()) {
        Some(i) => i,
        None => {
            return Err(TorrentError::SchemaError);
        },
    };
    let piece_length = match number_field(entries, "piece length".as_bytes()) {
        Some(i) => i,
        None => {
            return Err(TorrentError::SchemaError);
        },
    };
    let pieces = match bytes_field(entries, "pieces".as_bytes()) {
        Some(b) => b,
        None => {
            return Err(TorrentError::SchemaError);
        },
    };
    let name = match utf8_text(vstd::slice::slice_to_vec(name_bytes.as_slice())) {
        Some(text) => text,
        None => {
            return Err(TorrentError::SchemaError);
        },
    };
    let total_length = match as_length(length, 0) {
        Some(n) => n,
        None => {
            return Err(TorrentError::SchemaError);
        },
    };
    let piece_length = match as_length(piece_length, 1) {
        Some(n) => n,
        None => {
            return Err(TorrentError::SchemaError);
        },
    };
    let count: usize = count_pieces(total_length, piece_length);
    if pieces.len() % HASH_LEN != 0 || pieces.len() / HASH_LEN != count {
        return Err(TorrentError::SchemaError);
    }
    Ok(
        InfoDict {
            name,
            piece_length,
            total_length,
            pieces: vstd::slice::slice_to_vec(pieces.as_slice()),
        },
    )
}

/// Reads a metainfo file: decodes it, and takes from its top-level
/// dictionary the tracker's URL and the description of the file. The
/// bytes of the `info` dictionary are kept as they stand in the file.
pub fn parse(bytes: &[u8]) -> (r: Result<Metainfo, TorrentError>)
    ensures
        match parse_value(bytes@, 0, MAX_DEPTH as nat) {
            None => r matches Err(e) && e == TorrentError::MalformedInput,
            Some((top, _)) => match metainfo_model(top, usize::MAX as int) {
                None => r matches Err(e) && e == TorrentError::SchemaError,
                Some((announce, info)) => r matches Ok(m) && m.announce@ == announce && m.info@
                    == info && info_wf(info) && (value_span(bytes@, key("info")) matches Some(
                    (from, to),
                ) && m.info_bytes@ == bytes@.subrange(from, to)),
            },
        },
{
    let (top, _) = match decode(bytes) {
        Ok(decoded) => decoded,
        Err(e) => {
            return Err(e);
        },
    };
    proof {
        lemma_view_parts(&top);
        law_span_holds_value(bytes@, key("info"));
    }
    let entries = match &top {
        Value::Dict(entries) => entries,
        _ => {
            return Err(TorrentError::SchemaError);
        },
    };
    let announce_bytes = match bytes_field(entries, "announce".as_bytes()) {
        Some(b) => b,
        None => {
            return Err(TorrentError::SchemaError);
        },
    };
    let info_value = match dict_find(entries, "info".as_bytes()) {
        Some(at) => &entries[at].1,
        None => {
            return Err(TorrentError::SchemaError);
        },
    };
    assert(val_wf(info_value@, (MAX_DEPTH - 1) as nat)) by {
        let at = choose|at: int|
            0 <= at < entries@.len() && entries@[at].1@ == info_value@ && entries_view(
                entries@,
            )[at].1 == info_value@;
        assert(val_wf(entries_view(entries@)[at].1, (MAX_DEPTH - 1) as nat));
    }
    let info = match project_info(info_value) {
        Ok(info) => info,
        Err(e) => {
            return Err(e);
        },
    };
    let announce = match utf8_text(vstd::slice::slice_to_vec(announce_bytes.as_slice())) {
        Some(text) => text,
        None => {
            return Err(TorrentError::SchemaError);
        },
    };
    match find_value_span(bytes, "info".as_bytes()) {
        Some((from, to)) => {
            let info_bytes = vstd::slice::slice_to_vec(vstd::slice::slice_subrange(bytes, from, to));
            Ok(Metainfo { announce, info, info_bytes })
        },
        None => Err(TorrentError::SchemaError),
    }
}

/// The info-hash of a metainfo file: the SHA-1 digest of the bytes of its
/// `info` dictionary as they stand in the file.
pub fn info_hash(metainfo: &Metainfo) -> (hash: [u8; 20])
    ensures
        hash@ == sha1_of(metainfo.info_bytes@),
{
    sha1_digest(metainfo.info_bytes.as_slice())
}

/// The info-hash depends on nothing but the bytes of the `info`
/// dictionary: two metainfo files that hold the same bytes there have the
/// same info-hash.
pub proof fn law_info_hash_of_span(a: Metainfo, b: Metainfo)
    requires
        a.info_bytes@ == b.info_bytes@,
    ensures
        sha1_of(a.info_bytes@) == sha1_of(b.info_bytes@),
{
}

} // verus!
