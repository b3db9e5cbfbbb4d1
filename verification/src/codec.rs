use vstd::prelude::*;
use crate::canonical::{canonical, order_entries, lemma_key_order};
use crate::error::TorrentError;
use crate::keys::{bytes_lt, sorted_keys, rank, dict_insert, dict_get, lemma_rank_is, lemma_insert_sorted, lemma_bytes_lt_order, key_lt, key_eq};
use crate::text::{is_digit, nat_digits, digits_value, push_decimal};

verus! {

/// The mathematical model of a bencoded value.
pub enum Val {
    Bytes(Seq<u8>),
    Int(int),
    List(Seq<Val>),
    Dict(Seq<(Seq<u8>, Val)>),
}

/// A bencoded value.
#[derive(Debug, PartialEq, Eq)]
pub enum Value {
    /// A byte string.
    Bytes(Vec<u8>),
    /// An integer.
    Int(i64),
    /// A list of values, in order.
    List(Vec<Value>),
    /// A dictionary: its entries. `decode` and `dict_set` keep them in
    /// strictly ascending order of their keys.
    Dict(Vec<(Vec<u8>, Value)>),
}

/// The model of a value: the same tree, with sequences for vectors.
pub open spec fn value_model(v: Value) -> Val
    decreases v,
{
    match v {
        Value::Bytes(b) => Val::Bytes(b@),
        Value::Int(i) => Val::Int(i as int),
        Value::List(items) => Val::List(
            Seq::new(
                items@.len(),
                |i: int| if 0 <= i < items@.len() { value_model(items@[i]) } else { arbitrary() },
            ),
        ),
        Value::Dict(entries) => Val::Dict(
            Seq::new(
                entries@.len(),
                |i: int| if 0 <= i < entries@.len() {
                    (entries@[i].0@, value_model(entries@[i].1))
                } else {
                    arbitrary()
                },
            ),
        ),
    }
}

impl View for Value {
    type V = Val;

    open spec fn view(&self) -> Val {
        value_model(*self)
    }
}

/// How deeply lists and dictionaries may nest in input that `decode` accepts.
pub const MAX_DEPTH: usize = 64;

/// The number of ASCII digits in `s` from position `pos` on.
pub open spec fn digit_run(s: Seq<u8>, pos: int) -> nat
    decreases s.len() - pos,
{
    if 0 <= pos < s.len() && is_digit(s[pos]) {
        1 + digit_run(s, pos + 1)
    } else {
        0
    }
}

/// The byte string that starts at `pos`, and the position behind it: a
/// run of digits, a colon, and as many bytes as the digits say.
pub open spec fn parse_string(s: Seq<u8>, pos: int) -> Option<(Seq<u8>, int)> {
    let colon = pos + digit_run(s, pos);
    let n = digits_value(s.subrange(pos, colon));
    if 0 <= pos && pos < colon < s.len() && s[colon] == 58 && colon + 1 + n <= s.len() {
        Some((s.subrange(colon + 1, colon + 1 + n), colon + 1 + n))
    } else {
        None
    }
}

/// The integer that starts at `pos`, and the position behind it: `i`, an
/// optional minus sign, digits without a leading zero, and `e`. Minus zero
/// and numbers outside `i64` are no integers.
pub open spec fn parse_int(s: Seq<u8>, pos: int) -> Option<(int, int)> {
    if 0 <= pos && pos + 1 < s.len() && s[pos] == 105 {
        let negative = s[pos + 1] == 45;
        let first = if negative { pos + 2 } else { pos + 1 };
        let end = first + digit_run(s, first);
        let n = digits_value(s.subrange(first, end));
        if first < end < s.len() && s[end] == 101 && (s[first] == 48 ==> end == first + 1
            && !negative) && (if negative { n <= 0x8000_0000_0000_0000 } else {
            n < 0x8000_0000_0000_0000
        }) {
            Some((if negative { -n } else { n as int }, end + 1))
        } else {
            None
        }
    } else {
        None
    }
}

/// A run of digits ends where `digit_run` says: all bytes before are
/// digits, and the byte there, if any, is none.
pub proof fn lemma_digit_run(s: Seq<u8>, pos: int)
    requires
        0 <= pos <= s.len(),
    ensures
        pos + digit_run(s, pos) <= s.len(),
        forall|i: int| pos <= i < pos + digit_run(s, pos) ==> is_digit(#[trigger] s[i]),
        pos + digit_run(s, pos) < s.len() ==> !is_digit(s[pos + digit_run(s, pos)]),
    decreases s.len() - pos,
{
    if pos < s.len() && is_digit(s[pos]) {
        lemma_digit_run(s, pos + 1);
    }
}

/// A run of digits that is known to start at `pos` and to end before
/// `end` has the length `end - pos`.
pub proof fn lemma_digit_run_is(s: Seq<u8>, pos: int, end: int)
    requires
        0 <= pos <= end <= s.len(),
        forall|i: int| pos <= i < end ==> is_digit(#[trigger] s[i]),
        end < s.len() ==> !is_digit(s[end]),
    ensures
        digit_run(s, pos) == end - pos,
    decreases end - pos,
{
    if pos < end {
        lemma_digit_run_is(s, pos + 1, end);
    }
}

/// Digits that follow a run of digits do not make its number smaller.
pub proof fn lemma_digits_value_grows(s: Seq<u8>, from: int, mid: int, to: int)
    requires
        0 <= from <= mid <= to <= s.len(),
        forall|i: int| from <= i < to ==> is_digit(#[trigger] s[i]),
    ensures
        digits_value(s.subrange(from, mid)) <= digits_value(s.subrange(from, to)),
    decreases to - mid,
{
    if mid < to {
        lemma_digits_value_grows(s, from, mid, to - 1);
        assert(s.subrange(from, to).drop_last() =~= s.subrange(from, to - 1));
        assert(is_digit(s[to - 1]));
    }
}

/// Reads the byte string that starts at `pos`; gives it with the position
/// behind it.
pub fn parse_ben_string(bytes: &[u8], pos: usize) -> (r: Result<(Vec<u8>, usize), TorrentError>)
    ensures
        match parse_string(bytes@, pos as int) {
            Some((text, next)) => r matches Ok((v, n)) && v@ == text && n == next,
            None => r == Err::<(Vec<u8>, usize), TorrentError>(TorrentError::MalformedInput),
        },
{
    let len: usize = bytes.len();
    if pos >= len {
        return Err(TorrentError::MalformedInput);
    }
    let mut i: usize = pos;
    let mut n: usize = 0;
    proof {
        lemma_digit_run(bytes@, pos as int);
        assert(bytes@.subrange(pos as int, pos as int).len() == 0);
    }
    let ghost colon: int = pos + digit_run(bytes@, pos as int);
    while i < len && bytes[i] >= 48 && bytes[i] <= 57
        invariant
            pos <= i <= colon <= len,
            len == bytes@.len(),
            colon == pos + digit_run(bytes@, pos as int),
            forall|j: int| pos <= j < colon ==> is_digit(#[trigger] bytes@[j]),
            colon < len ==> !is_digit(bytes@[colon]),
            n == digits_value(bytes@.subrange(pos as int, i as int)),
            n <= len,
        decreases len - i,
    {
        let d: usize = (bytes[i] - 48) as usize;
        proof {
            assert(bytes@.subrange(pos as int, i + 1).drop_last() =~= bytes@.subrange(
                pos as int,
                i as int,
            ));
            lemma_digits_value_grows(bytes@, pos as int, i + 1, colon);
        }
        if d > len || n > (len - d) / 10 {
            // the number has outgrown what is left of the input
            assert(n * 10 + d > len) by (nonlinear_arith)
                requires
                    d > len || n > (len - d) / 10,
                    0 <= d <= 9,
                    0 <= n,
                    len >= 0,
            ;
            return Err(TorrentError::MalformedInput);
        }
        assert(n * 10 + d <= len) by (nonlinear_arith)
            requires
                n <= (len - d) / 10,
                d <= len,
        ;
        n = n * 10 + d;
        i = i + 1;
    }
    assert(i == colon);
    if i == pos || i >= len || bytes[i] != 58 {
        return Err(TorrentError::MalformedInput);
    }
    let start: usize = i + 1;
    if n > len - start {
        return Err(TorrentError::MalformedInput);
    }
    let text = vstd::slice::slice_to_vec(vstd::slice::slice_subrange(bytes, start, start + n));
    Ok((text, start + n))
}

/// Reads the integer that starts at `pos`; gives it with the position
/// behind it.
pub fn parse_ben_int(bytes: &[u8], pos: usize) -> (r: Result<(i64, usize), TorrentError>)
    ensures
        match parse_int(bytes@, pos as int) {
            Some((value, next)) => r == Ok::<(i64, usize), TorrentError>(
                (value as i64, next as usize),
            ) && i64::MIN <= value <= i64::MAX && pos < next <= bytes@.len(),
            None => r == Err::<(i64, usize), TorrentError>(TorrentError::MalformedInput),
        },
{
    let len: usize = bytes.len();
    if pos >= len || len - pos < 2 || bytes[pos] != 105 {
        return Err(TorrentError::MalformedInput);
    }
    let negative: bool = bytes[pos + 1] == 45;
    let first: usize = if negative { pos + 2 } else { pos + 1 };
    let mut i: usize = first;
    let mut n: u64 = 0;
    proof {
        lemma_digit_run(bytes@, first as int);
        assert(bytes@.subrange(first as int, first as int).len() == 0);
    }
    let ghost end: int = first + digit_run(bytes@, first as int);
    while i < len && bytes[i] >= 48 && bytes[i] <= 57
        invariant
            first <= i <= end <= len,
            len == bytes@.len(),
            end == first + digit_run(bytes@, first as int),
            forall|j: int| first <= j < end ==> is_digit(#[trigger] bytes@[j]),
            end < len ==> !is_digit(bytes@[end]),
            n == digits_value(bytes@.subrange(first as int, i as int)),
            n <= 0x8000_0000_0000_0000,
            pos + 1 < len,
            bytes@[pos as int] == 105,
            negative == (bytes@[pos + 1] == 45),
            first == if negative { pos + 2 } else { pos + 1 },
        decreases len - i,
    {
        let d: u64 = (bytes[i] - 48) as u64;
        proof {
            assert(bytes@.subrange(first as int, i + 1).drop_last() =~= bytes@.subrange(
                first as int,
                i as int,
            ));
            lemma_digits_value_grows(bytes@, first as int, i + 1, end);
        }
        assert(digits_value(bytes@.subrange(first as int, i + 1)) == n * 10 + d);
        if n > (0x8000_0000_0000_0000 - d) / 10 {
            return Err(TorrentError::MalformedInput);
        }
        n = n * 10 + d;
        i = i + 1;
    }
    assert(i == end);
    if i == first || i >= len || bytes[i] != 101 {
        return Err(TorrentError::MalformedInput);
    }
    if bytes[first] == 48 && (i != first + 1 || negative) {
        return Err(TorrentError::MalformedInput);
    }
    if negative {
        if n == 0x8000_0000_0000_0000 {
            Ok((i64::MIN, i + 1))
        } else {
            let m: i64 = n as i64;
            Ok((-m, i + 1))
        }
    } else {
        if n == 0x8000_0000_0000_0000 {
            return Err(TorrentError::MalformedInput);
        }
        Ok((n as i64, i + 1))
    }
}

/// The value that starts at `pos`, and the position behind it, where
/// lists and dictionaries may nest `depth` deep. The first byte tells the
/// kind: a digit starts a byte string, `i` an integer, `l` a list and `d`
/// a dictionary.
pub open spec fn parse_value(s: Seq<u8>, pos: int, depth: nat) -> Option<(Val, int)>
    decreases s.len() - pos, 0nat,
{
    if pos < 0 || pos >= s.len() {
        None
    } else if is_digit(s[pos]) {
        match parse_string(s, pos) {
            Some((text, next)) => Some((Val::Bytes(text), next)),
            None => None,
        }
    } else if s[pos] == 105 {
        match parse_int(s, pos) {
            Some((value, next)) => Some((Val::Int(value), next)),
            None => None,
        }
    } else if s[pos] == 108 && depth > 0 {
        match parse_list_from(s, pos + 1, (depth - 1) as nat, Seq::empty()) {
            Some((items, next)) => Some((Val::List(items), next)),
            None => None,
        }
    } else if s[pos] == 100 && depth > 0 {
        match parse_dict_from(s, pos + 1, (depth - 1) as nat, Seq::empty()) {
            Some((entries, next)) => Some((Val::Dict(entries), next)),
            None => None,
        }
    } else {
        None
    }
}

/// The rest of a list whose items so far are `done`: values up to an `e`.
/// Gives all the items and the position behind the `e`.
pub open spec fn parse_list_from(s: Seq<u8>, pos: int, depth: nat, done: Seq<Val>) -> Option<
    (Seq<Val>, int),
>
    decreases s.len() - pos, 1nat,
{
    if pos < 0 || pos >= s.len() {
        None
    } else if s[pos] == 101 {
        Some((done, pos + 1))
    } else {
        match parse_value(s, pos, depth) {
            // a value spans at least one byte of `s`: the test on `next` is
            // there for the recursion's sake
            Some((item, next)) if pos < next <= s.len() => parse_list_from(s, next, depth, done.push(item)),
            _ => None,
        }
    }
}

/// The rest of a dictionary whose entries so far are `done`: pairs of a
/// byte string and a value up to an `e`. The keys may come in any order;
/// of two entries with one key the later stays. Gives the entries in
/// ascending order of their keys, and the position behind the `e`.
pub open spec fn parse_dict_from(
    s: Seq<u8>,
    pos: int,
    depth: nat,
    done: Seq<(Seq<u8>, Val)>,
) -> Option<(Seq<(Seq<u8>, Val)>, int)>
    decreases s.len() - pos, 1nat,
{
    if pos < 0 || pos >= s.len() {
        None
    } else if s[pos] == 101 {
        Some((done, pos + 1))
    } else {
        match parse_string(s, pos) {
            Some((key, at)) if pos < at => match parse_value(s, at, depth) {
                Some((item, next)) if at < next <= s.len() => parse_dict_from(
                    s,
                    next,
                    depth,
                    dict_insert(done, key, item),
                ),
                _ => None,
            },
            _ => None,
        }
    }
}

/// Whether `v` is a value as `decode` gives it: every integer fits `i64`,
/// every dictionary has its keys in strictly ascending order, and lists
/// and dictionaries nest at most `depth` deep.
pub open spec fn val_wf(v: Val, depth: nat) -> bool
    decreases v,
{
    match v {
        Val::Bytes(_) => true,
        Val::Int(i) => i64::MIN <= i <= i64::MAX,
        Val::List(items) => depth > 0 && forall|i: int|
            0 <= i < items.len() ==> val_wf(#[trigger] items[i], (depth - 1) as nat),
        Val::Dict(entries) => depth > 0 && sorted_keys(entries) && forall|i: int|
            0 <= i < entries.len() ==> val_wf((#[trigger] entries[i]).1, (depth - 1) as nat),
    }
}

/// The models of the values of a list, in order.
pub open spec fn list_view(items: Seq<Value>) -> Seq<Val> {
    Seq::new(items.len(), |i: int| items[i]@)
}

/// The models of the entries of a dictionary, in order.
pub open spec fn entries_view(entries: Seq<(Vec<u8>, Value)>) -> Seq<(Seq<u8>, Val)> {
    Seq::new(entries.len(), |i: int| (entries[i].0@, entries[i].1@))
}

/// The model of a list or a dictionary is made of the models of its parts.
pub proof fn lemma_view_parts(v: &Value)
    ensures
        match v {
            Value::Bytes(b) => v@ == Val::Bytes(b@),
            Value::Int(i) => v@ == Val::Int(*i as int),
            Value::List(items) => v@ == Val::List(list_view(items@)),
            Value::Dict(entries) => v@ == Val::Dict(entries_view(entries@)),
        },
{
    match v {
        Value::List(items) => {
            assert(v@->List_0 =~= list_view(items@));
        },
        Value::Dict(entries) => {
            assert(v@ is Dict);
            let a = v@->Dict_0;
            let b = entries_view(entries@);
            assert(a.len() == b.len());
            assert forall|i: int| 0 <= i < a.len() implies a[i] == b[i] by {
                assert(a[i].0 == entries@[i].0@);
                assert(a[i].1 == entries@[i].1@);
            }
            assert(a =~= b);
        },
        _ => {},
    }
}

/// Sets the value of `key` in a dictionary's entries: an entry with that
/// key is replaced, otherwise the new entry goes where the order puts it.
pub fn dict_set(entries: &mut Vec<(Vec<u8>, Value)>, key: Vec<u8>, value: Value)
    requires
        sorted_keys(entries_view(old(entries)@)),
    ensures
        entries_view(final(entries)@) == dict_insert(entries_view(old(entries)@), key@, value@),
        sorted_keys(entries_view(final(entries)@)),
{
    let ghost before = entries_view(entries@);
    let mut at: usize = 0;
    while at < entries.len() && key_lt(entries[at].0.as_slice(), key.as_slice())
        invariant
            0 <= at <= entries@.len(),
            before == entries_view(entries@),
            forall|j: int| 0 <= j < at ==> bytes_lt(#[trigger] before[j].0, key@),
        decreases entries@.len() - at,
    {
        at = at + 1;
    }
    proof {
        assert forall|j: int| at <= j < before.len() implies !bytes_lt(
            #[trigger] before[j].0,
            key@,
        ) by {
            if j > at {
                assert(bytes_lt(before[at as int].0, before[j].0));
                lemma_bytes_lt_order(before[at as int].0, before[j].0);
                if bytes_lt(before[j].0, key@) {
                    crate::keys::lemma_lt_from_transitive(before[at as int].0, before[j].0, key@, 0);
                }
            }
        }
        lemma_rank_is(before, key@, at as int);
        lemma_insert_sorted(before, key@, value@);
    }
    if at < entries.len() && key_eq(entries[at].0.as_slice(), key.as_slice()) {
        let _ = entries.remove(at);
        entries.insert(at, (key, value));
        assert(entries_view(entries@) =~= dict_insert(before, key@, value@));
    } else {
        entries.insert(at, (key, value));
        assert(entries_view(entries@) =~= dict_insert(before, key@, value@));
    }
}

/// Reads the list that starts at `pos`, whose items may hold lists and
/// dictionaries nested `depth - 1` deep; gives it with the position behind
/// it. The depth is at most `MAX_DEPTH`, which bounds the stack that
/// reading takes.
pub fn parse_ben_list(bytes: &[u8], pos: usize, depth: usize) -> (r: Result<
    (Value, usize),
    TorrentError,
>)
    requires
        depth <= MAX_DEPTH,
    ensures
        match (if pos < bytes@.len() && bytes@[pos as int] == 108 {
            parse_value(bytes@, pos as int, depth as nat)
        } else {
            None
        }) {
            Some((v, next)) => r matches Ok((value, n)) && value@ == v && n == next && pos < n
                <= bytes@.len() && val_wf(v, depth as nat),
            None => r matches Err(e) && e == TorrentError::MalformedInput,
        },
    decreases depth, 0nat,
{
    let len: usize = bytes.len();
    if pos >= len || bytes[pos] != 108 || depth == 0 {
        return Err(TorrentError::MalformedInput);
    }
    let inner: usize = depth - 1;
    let mut items: Vec<Value> = Vec::new();
    let mut i: usize = pos + 1;
    assert(list_view(items@) =~= Seq::<Val>::empty());
    while i < len
        invariant
            pos < i <= len,
            len == bytes@.len(),
            inner == depth - 1,
            depth <= MAX_DEPTH,
            parse_list_from(bytes@, pos + 1, inner as nat, Seq::empty()) == parse_list_from(
                bytes@,
                i as int,
                inner as nat,
                list_view(items@),
            ),
            forall|k: int| 0 <= k < items@.len() ==> val_wf(#[trigger] items@[k]@, inner as nat),
            bytes@[pos as int] == 108,
        decreases len - i,
    {
        if bytes[i] == 101 {
            let value = Value::List(items);
            proof {
                lemma_view_parts(&value);
                assert(is_digit(108) == false);
            }
            return Ok((value, i + 1));
        }
        match decode_bencoded_value(bytes, i, inner) {
            Ok((item, next)) => {
                proof {
                    assert(list_view(items@.push(item)) =~= list_view(items@).push(item@));
                }
                items.push(item);
                i = next;
            },
            Err(e) => {
                return Err(e);
            },
        }
    }
    Err(TorrentError::MalformedInput)
}

/// Reads the dictionary that starts at `pos`, whose values may hold lists
/// and dictionaries nested `depth - 1` deep; gives it with the position
/// behind it. Its entries stand in ascending order of their keys; of two
/// entries with one key in the input, the later is kept. The depth is at
/// most `MAX_DEPTH`, which bounds the stack that reading takes.
pub fn parse_ben_dict(bytes: &[u8], pos: usize, depth: usize) -> (r: Result<
    (Value, usize),
    TorrentError,
>)
    requires
        depth <= MAX_DEPTH,
    ensures
        match (if pos < bytes@.len() && bytes@[pos as int] == 100 {
            parse_value(bytes@, pos as int, depth as nat)
        } else {
            None
        }) {
            Some((v, next)) => r matches Ok((value, n)) && value@ == v && n == next && pos < n
                <= bytes@.len() && val_wf(v, depth as nat),
            None => r matches Err(e) && e == TorrentError::MalformedInput,
        },
    decreases depth, 0nat,
{
    let len: usize = bytes.len();
    if pos >= len || bytes[pos] != 100 || depth == 0 {
        return Err(TorrentError::MalformedInput);
    }
    let inner: usize = depth - 1;
    let mut entries: Vec<(Vec<u8>, Value)> = Vec::new();
    let mut i: usize = pos + 1;
    assert(entries_view(entries@) =~= Seq::<(Seq<u8>, Val)>::empty());
    while i < len
        invariant
            pos < i <= len,
            len == bytes@.len(),
            inner == depth - 1,
            depth <= MAX_DEPTH,
            parse_dict_from(bytes@, pos + 1, inner as nat, Seq::empty()) == parse_dict_from(
                bytes@,
                i as int,
                inner as nat,
                entries_view(entries@),
            ),
            sorted_keys(entries_view(entries@)),
            forall|k: int|
                0 <= k < entries@.len() ==> val_wf((#[trigger] entries_view(entries@)[k]).1, inner as nat),
            bytes@[pos as int] == 100,
        decreases len - i,
    {
        if bytes[i] == 101 {
            let value = Value::Dict(entries);
            proof {
                lemma_view_parts(&value);
            }
            return Ok((value, i + 1));
        }
        let (key, at) = match parse_ben_string(bytes, i) {
            Ok(found) => found,
            Err(e) => {
                return Err(e);
            },
        };
        proof {
            lemma_digit_run(bytes@, i as int);
        }
        match decode_bencoded_value(bytes, at, inner) {
            Ok((item, next)) => {
                let ghost before = entries_view(entries@);
                dict_set(&mut entries, key, item);
                proof {
                    lemma_insert_keeps(before, key@, item@, inner as nat);
                }
                i = next;
            },
            Err(e) => {
                return Err(e);
            },
        }
    }
    Err(TorrentError::MalformedInput)
}

/// Setting a key to a well-formed value keeps the values of a dictionary
/// well-formed.
pub proof fn lemma_insert_keeps(d: Seq<(Seq<u8>, Val)>, k: Seq<u8>, v: Val, depth: nat)
    requires
        forall|i: int| 0 <= i < d.len() ==> val_wf((#[trigger] d[i]).1, depth),
        val_wf(v, depth),
    ensures
        forall|i: int|
            0 <= i < dict_insert(d, k, v).len() ==> val_wf(
                (#[trigger] dict_insert(d, k, v)[i]).1,
                depth,
            ),
{
    let out = dict_insert(d, k, v);
    let at = rank(d, k) as int;
    crate::keys::lemma_rank_bound(d, k);
    assert forall|i: int| 0 <= i < out.len() implies val_wf((#[trigger] out[i]).1, depth) by {
        if at < d.len() && d[at].0 == k {
            if i != at {
                assert(out[i] == d[i]);
            }
        } else {
            if i < at {
                assert(out[i] == d[i]);
            } else if i > at {
                assert(out[i] == d[i - 1]);
            }
        }
    }
}

/// Reads the value that starts at `pos`, in which lists and dictionaries
/// may nest `depth` deep; gives it with the position behind it. The
/// depth is at most `MAX_DEPTH`, which bounds the stack that reading
/// takes.
pub fn decode_bencoded_value(bytes: &[u8], pos: usize, depth: usize) -> (r: Result<
    (Value, usize),
    TorrentError,
>)
    requires
        depth <= MAX_DEPTH,
    ensures
        match parse_value(bytes@, pos as int, depth as nat) {
            Some((v, next)) => r matches Ok((value, n)) && value@ == v && n == next && pos < n
                <= bytes@.len() && val_wf(v, depth as nat),
            None => r matches Err(e) && e == TorrentError::MalformedInput,
        },
    decreases depth, 1nat,
{
    if pos >= bytes.len() {
        return Err(TorrentError::MalformedInput);
    }
    let first: u8 = bytes[pos];
    if first >= 48 && first <= 57 {
        proof {
            lemma_digit_run(bytes@, pos as int);
        }
        match parse_ben_string(bytes, pos) {
            Ok((text, next)) => Ok((Value::Bytes(text), next)),
            Err(e) => Err(e),
        }
    } else if first == 105 {
        match parse_ben_int(bytes, pos) {
            Ok((number, next)) => Ok((Value::Int(number), next)),
            Err(e) => Err(e),
        }
    } else if first == 108 {
        parse_ben_list(bytes, pos, depth)
    } else if first == 100 {
        parse_ben_dict(bytes, pos, depth)
    } else {
        Err(TorrentError::MalformedInput)
    }
}

/// Reads one value from the start of `bytes`; gives it with the number of
/// bytes it took, so that what follows can be read on.
pub fn decode(bytes: &[u8]) -> (r: Result<(Value, usize), TorrentError>)
    ensures
        match parse_value(bytes@, 0, MAX_DEPTH as nat) {
            Some((v, next)) => r matches Ok((value, n)) && value@ == v && n == next && 0 < n
                <= bytes@.len() && val_wf(v, MAX_DEPTH as nat),
            None => r matches Err(e) && e == TorrentError::MalformedInput,
        },
{
    decode_bencoded_value(bytes, 0, MAX_DEPTH)
}

/// The text of an integer: a minus sign where it is negative, then the
/// digits of its magnitude.
pub open spec fn int_text(i: int) -> Seq<u8> {
    if i < 0 {
        seq![45u8] + nat_digits((-i) as nat)
    } else {
        nat_digits(i as nat)
    }
}

/// The encoding of a byte string: its length in decimal, a colon, and its
/// bytes.
pub open spec fn encode_text(b: Seq<u8>) -> Seq<u8> {
    nat_digits(b.len()) + seq![58u8] + b
}

/// The encoding of a value: a byte string as its length, a colon and its
/// bytes; an integer between `i` and `e`; a list as its items between `l`
/// and `e`; a dictionary as its keys and values in turn between `d` and
/// `e`, in the order in which it holds them.
pub open spec fn encode_val(v: Val) -> Seq<u8>
    decreases v, 0nat,
{
    match v {
        Val::Bytes(b) => encode_text(b),
        Val::Int(i) => seq![105u8] + int_text(i) + seq![101u8],
        Val::List(items) => seq![108u8] + encode_items(items, items.len()) + seq![101u8],
        Val::Dict(entries) => seq![100u8] + encode_entries(entries, entries.len()) + seq![101u8],
    }
}

/// The encodings of the first `n` items of a list, one after another.
pub open spec fn encode_items(items: Seq<Val>, n: nat) -> Seq<u8>
    decreases items, n,
{
    if n == 0 || n > items.len() {
        Seq::empty()
    } else {
        encode_items(items, (n - 1) as nat) + encode_val(items[n - 1])
    }
}

/// The encodings of the first `n` entries of a dictionary, one after
/// another: each key as a byte string, then its value.
pub open spec fn encode_entries(entries: Seq<(Seq<u8>, Val)>, n: nat) -> Seq<u8>
    decreases entries, n,
{
    if n == 0 || n > entries.len() {
        Seq::empty()
    } else {
        encode_entries(entries, (n - 1) as nat) + encode_text(entries[n - 1].0)
            + encode_val(entries[n - 1].1)
    }
}

/// Appends the encoding of a byte string to `out`.
pub fn encode_bytes(text: &[u8], out: &mut Vec<u8>)
    ensures
        final(out)@ == old(out)@ + encode_text(text@),
{
    let ghost before = out@;
    push_decimal(out, text.len() as u64);
    out.push(58);
    out.extend_from_slice(text);
    assert(out@ =~= before + encode_text(text@));
}

/// Appends the encoding of an integer to `out`.
pub fn encode_int(number: i64, out: &mut Vec<u8>)
    ensures
        final(out)@ == old(out)@ + encode_val(Val::Int(number as int)),
{
    let ghost before = out@;
    out.push(105);
    if number < 0 {
        out.push(45);
        let magnitude: u64 = if number == i64::MIN {
            0x8000_0000_0000_0000
        } else {
            (-number) as u64
        };
        push_decimal(out, magnitude);
    } else {
        push_decimal(out, number as u64);
    }
    out.push(101);
    assert(out@ =~= before + encode_val(Val::Int(number as int)));
}

/// Appends the encoding of `value` in canonical form to `out`: the
/// entries of each dictionary go out in ascending order of their keys,
/// in whatever order the value holds them.
#[verifier::loop_isolation(false)]
pub fn encode_into(value: &Value, out: &mut Vec<u8>)
    ensures
        final(out)@ == old(out)@ + encode_val(canonical(value@)),
    decreases value,
{
    let ghost before = out@;
    let ghost form = canonical(value@);
    proof {
        lemma_view_parts(value);
    }
    match value {
        Value::Bytes(text) => {
            encode_bytes(text.as_slice(), out);
        },
        Value::Int(number) => {
            encode_int(*number, out);
        },
        Value::List(items) => {
            let ghost parts = form->List_0;
            out.push(108);
            let mut i: usize = 0;
            while i < items.len()
                invariant
                    0 <= i <= items@.len(),
                    parts.len() == items@.len(),
                    out@ == before + seq![108u8] + encode_items(parts, i as nat),
                decreases items@.len() - i,
            {
                assert(parts[i as int] == canonical(items@[i as int]@));
                encode_into(&items[i], out);
                i = i + 1;
                assert(out@ =~= before + seq![108u8] + encode_items(parts, i as nat));
            }
            out.push(101);
            assert(out@ =~= before + encode_val(form));
        },
        Value::Dict(entries) => {
            let ghost parts = form->Dict_0;
            let order = order_entries(entries);
            proof {
                lemma_key_order(entries_view(entries@), entries@.len() as nat);
            }
            out.push(100);
            let mut k: usize = 0;
            while k < order.len()
                invariant
                    0 <= k <= order@.len(),
                    parts.len() == order@.len(),
                    out@ == before + seq![100u8] + encode_entries(parts, k as nat),
                decreases order@.len() - k,
            {
                let at: usize = order[k];
                assert(parts[k as int] == (entries@[at as int].0@, canonical(entries@[at as int].1@)));
                encode_bytes(entries[at].0.as_slice(), out);
                encode_into(&entries[at].1, out);
                k = k + 1;
                assert(out@ =~= before + seq![100u8] + encode_entries(parts, k as nat));
            }
            out.push(101);
            assert(out@ =~= before + encode_val(form));
        },
    }
}

/// The encoding of `value`, in canonical form: the keys of each
/// dictionary ascend. For a value as `decode` gives it, that is the
/// value as it stands.
pub fn encode(value: &Value) -> (out: Vec<u8>)
    ensures
        out@ == encode_val(canonical(value@)),
{
    let mut out: Vec<u8> = Vec::new();
    encode_into(value, &mut out);
    assert(out@ =~= encode_val(canonical(value@)));
    out
}

/// The place of `key` among the sorted entries of a dictionary, if it
/// holds the key.
pub fn dict_find(entries: &Vec<(Vec<u8>, Value)>, key: &[u8]) -> (r: Option<usize>)
    requires
        sorted_keys(entries_view(entries@)),
    ensures
        match dict_get(entries_view(entries@), key@) {
            Some(v) => r matches Some(at) && at < entries@.len() && entries@[at as int].0@ == key@
                && entries@[at as int].1@ == v,
            None => r is None,
        },
{
    let ghost d = entries_view(entries@);
    let mut at: usize = 0;
    while at < entries.len() && key_lt(entries[at].0.as_slice(), key)
        invariant
            0 <= at <= entries@.len(),
            d == entries_view(entries@),
            forall|j: int| 0 <= j < at ==> bytes_lt(#[trigger] d[j].0, key@),
        decreases entries@.len() - at,
    {
        at = at + 1;
    }
    proof {
        assert forall|j: int| at <= j < d.len() implies !bytes_lt(#[trigger] d[j].0, key@) by {
            if j > at {
                assert(bytes_lt(d[at as int].0, d[j].0));
                lemma_bytes_lt_order(d[at as int].0, d[j].0);
                if bytes_lt(d[j].0, key@) {
                    crate::keys::lemma_lt_from_transitive(d[at as int].0, d[j].0, key@, 0);
                }
            }
        }
        lemma_rank_is(d, key@, at as int);
    }
    if at < entries.len() && key_eq(entries[at].0.as_slice(), key) {
        Some(at)
    } else {
        None
    }
}

} // verus!
