use vstd::prelude::*;
use crate::codec::{
    Val, val_wf, parse_value, parse_string, parse_int, parse_list_from, parse_dict_from,
    encode_val, encode_text, encode_items, encode_entries, int_text, digit_run,
    lemma_digit_run_is,
};
use crate::canonical::{canonical, lemma_canonical_of_wf};
use crate::keys::{sorted_keys, dict_insert, lemma_rank_is};
use crate::text::{is_digit, nat_digits, all_digits, lemma_nat_digits};

verus! {

/// Whether the bytes `e` stand in `s` from position `pos` on.
pub open spec fn holds_at(s: Seq<u8>, pos: int, e: Seq<u8>) -> bool {
    &&& 0 <= pos
    &&& pos + e.len() <= s.len()
    &&& forall|j: int| 0 <= j < e.len() ==> s[pos + j] == #[trigger] e[j]
}

/// Where the digits `d` stand at `pos` and no digit follows them, the run
/// of digits at `pos` is `d`.
proof fn lemma_digits_in_place(s: Seq<u8>, pos: int, d: Seq<u8>)
    requires
        holds_at(s, pos, d),
        all_digits(d),
        pos + d.len() < s.len() ==> !is_digit(s[pos + d.len()]),
    ensures
        digit_run(s, pos) == d.len(),
        s.subrange(pos, pos + d.len()) == d,
{
    assert forall|i: int| pos <= i < pos + d.len() implies is_digit(#[trigger] s[i]) by {
        assert(s[pos + (i - pos)] == d[i - pos]);
    }
    lemma_digit_run_is(s, pos, pos + d.len());
    assert(s.subrange(pos, pos + d.len()) =~= d);
}

/// An encoded byte string, wherever it stands, is read back as it was.
pub proof fn lemma_parse_text(s: Seq<u8>, pos: int, b: Seq<u8>)
    requires
        holds_at(s, pos, encode_text(b)),
    ensures
        parse_string(s, pos) == Some((b, pos + encode_text(b).len())),
{
    let d = nat_digits(b.len());
    let e = encode_text(b);
    lemma_nat_digits(b.len());
    assert forall|j: int| 0 <= j < d.len() implies s[pos + j] == #[trigger] d[j] by {
        assert(e[j] == d[j]);
    }
    assert(e[d.len() as int] == 58);
    assert(s[pos + d.len()] == 58);
    lemma_digits_in_place(s, pos, d);
    let colon = pos + d.len();
    assert(s.subrange(colon + 1, colon + 1 + b.len()) =~= b) by {
        assert forall|j: int| 0 <= j < b.len() implies s[colon + 1 + j] == b[j] by {
            assert(e[d.len() + 1 + j] == b[j]);
        }
    }
}

/// An encoded integer, wherever it stands, is read back as it was.
pub proof fn lemma_parse_number(s: Seq<u8>, pos: int, i: int)
    requires
        i64::MIN <= i <= i64::MAX,
        holds_at(s, pos, encode_val(Val::Int(i))),
    ensures
        parse_int(s, pos) == Some((i, pos + encode_val(Val::Int(i)).len())),
{
    let e = encode_val(Val::Int(i));
    let t = int_text(i);
    assert(e[0] == 105);
    assert(s[pos + 0] == e[0]);
    if i < 0 {
        let d = nat_digits((-i) as nat);
        let n = d.len() as int;
        lemma_nat_digits((-i) as nat);
        assert(e[1] == 45);
        assert(s[pos + 1] == e[1]);
        assert forall|j: int| 0 <= j < d.len() implies s[pos + 2 + j] == #[trigger] d[j] by {
            assert(e[2 + j] == d[j]);
        }
        assert(e[2 + n] == 101);
        assert(s[pos + (2 + n)] == e[2 + n]);
        lemma_digits_in_place(s, pos + 2, d);
        assert(s[pos + 2 + 0] == d[0]);
    } else {
        let d = nat_digits(i as nat);
        let n = d.len() as int;
        lemma_nat_digits(i as nat);
        assert forall|j: int| 0 <= j < d.len() implies s[pos + 1 + j] == #[trigger] d[j] by {
            assert(e[1 + j] == d[j]);
        }
        assert(e[1 + n] == 101);
        assert(s[pos + (1 + n)] == e[1 + n]);
        lemma_digits_in_place(s, pos + 1, d);
        assert(s[pos + 1 + 0] == d[0]);
        assert(is_digit(d[0]));
    }
}

/// An encoding is not empty, and its first byte tells the kind of the
/// value: a digit, `i`, `l` or `d`.
pub proof fn lemma_first_byte(v: Val)
    ensures
        encode_val(v).len() >= 2,
        match v {
            Val::Bytes(_) => is_digit(encode_val(v)[0]),
            Val::Int(_) => encode_val(v)[0] == 105,
            Val::List(_) => encode_val(v)[0] == 108,
            Val::Dict(_) => encode_val(v)[0] == 100,
        },
{
    match v {
        Val::Bytes(b) => {
            lemma_nat_digits(b.len());
            assert(encode_val(v)[0] == nat_digits(b.len())[0]);
        },
        Val::Int(i) => {
            lemma_nat_digits(i as nat);
            lemma_nat_digits((-i) as nat);
        },
        _ => {},
    }
}

/// The encoding of the first `k` items is the start of the encoding of
/// the first `n`, where `k <= n`.
pub proof fn lemma_items_prefix(items: Seq<Val>, k: nat, n: nat)
    requires
        k <= n <= items.len(),
    ensures
        encode_items(items, k).len() <= encode_items(items, n).len(),
        encode_items(items, n).subrange(0, encode_items(items, k).len() as int) == encode_items(
            items,
            k,
        ),
    decreases n - k,
{
    if k < n {
        lemma_items_prefix(items, k, (n - 1) as nat);
        assert(encode_items(items, n).subrange(0, encode_items(items, k).len() as int)
            =~= encode_items(items, (n - 1) as nat).subrange(
            0,
            encode_items(items, k).len() as int,
        ));
    } else {
        assert(encode_items(items, n).subrange(0, encode_items(items, k).len() as int)
            =~= encode_items(items, k));
    }
}

/// The encoding of the first `k` entries is the start of the encoding of
/// the first `n`, where `k <= n`.
pub proof fn lemma_entries_prefix(entries: Seq<(Seq<u8>, Val)>, k: nat, n: nat)
    requires
        k <= n <= entries.len(),
    ensures
        encode_entries(entries, k).len() <= encode_entries(entries, n).len(),
        encode_entries(entries, n).subrange(0, encode_entries(entries, k).len() as int)
            == encode_entries(entries, k),
    decreases n - k,
{
    if k < n {
        lemma_entries_prefix(entries, k, (n - 1) as nat);
        assert(encode_entries(entries, n).subrange(0, encode_entries(entries, k).len() as int)
            =~= encode_entries(entries, (n - 1) as nat).subrange(
            0,
            encode_entries(entries, k).len() as int,
        ));
    } else {
        assert(encode_entries(entries, n).subrange(0, encode_entries(entries, k).len() as int)
            =~= encode_entries(entries, k));
    }
}

/// An encoded value, wherever it stands, is read back as it was.
pub proof fn lemma_parse_encoded(s: Seq<u8>, pos: int, v: Val, depth: nat)
    requires
        val_wf(v, depth),
        holds_at(s, pos, encode_val(v)),
    ensures
        parse_value(s, pos, depth) == Some((v, pos + encode_val(v).len())),
    decreases v, 0nat,
{
    let e = encode_val(v);
    lemma_first_byte(v);
    assert(s[pos + 0] == e[0]);
    match v {
        Val::Bytes(b) => {
            lemma_parse_text(s, pos, b);
        },
        Val::Int(i) => {
            lemma_parse_number(s, pos, i);
        },
        Val::List(items) => {
            let body = encode_items(items, items.len());
            assert forall|j: int| 0 <= j < body.len() implies s[pos + 1 + j] == #[trigger] body[j] by {
                assert(e[1 + j] == body[j]);
            }
            let last = 1 + body.len() as int;
            assert(e[last] == 101);
            assert(s[pos + last] == e[last]);
            assert(items.take(0) =~= Seq::<Val>::empty());
            lemma_parse_items(s, pos + 1, items, 0, (depth - 1) as nat);
        },
        Val::Dict(entries) => {
            let body = encode_entries(entries, entries.len());
            assert forall|j: int| 0 <= j < body.len() implies s[pos + 1 + j] == #[trigger] body[j] by {
                assert(e[1 + j] == body[j]);
            }
            let last = 1 + body.len() as int;
            assert(e[last] == 101);
            assert(s[pos + last] == e[last]);
            assert(entries.take(0) =~= Seq::<(Seq<u8>, Val)>::empty());
            lemma_parse_entries(s, pos + 1, entries, 0, (depth - 1) as nat);
        },
    }
}

/// Where the items of a list stand encoded from `start` on, with an `e`
/// behind them, reading on behind the first `k` of them gives them all.
pub proof fn lemma_parse_items(s: Seq<u8>, start: int, items: Seq<Val>, k: nat, depth: nat)
    requires
        k <= items.len(),
        forall|i: int| 0 <= i < items.len() ==> val_wf(#[trigger] items[i], depth),
        holds_at(s, start, encode_items(items, items.len())),
        start + encode_items(items, items.len()).len() < s.len(),
        s[start + encode_items(items, items.len()).len()] == 101,
    ensures
        parse_list_from(s, start + encode_items(items, k).len(), depth, items.take(k as int))
            == Some((items, start + encode_items(items, items.len()).len() + 1)),
    decreases items, items.len() - k,
{
    let all = encode_items(items, items.len());
    let here = start + encode_items(items, k).len();
    lemma_items_prefix(items, k, items.len());
    if k == items.len() {
        assert(items.take(k as int) =~= items);
    } else {
        let item = items[k as int];
        let e = encode_val(item);
        let next = encode_items(items, k + 1);
        lemma_items_prefix(items, k + 1, items.len());
        lemma_first_byte(item);
        assert forall|j: int| 0 <= j < e.len() implies s[here + j] == #[trigger] e[j] by {
            assert(next[encode_items(items, k).len() + j] == e[j]);
            assert(all.subrange(0, next.len() as int)[encode_items(items, k).len() + j] == all[
                encode_items(items, k).len() + j
            ]);
            assert(s[start + (encode_items(items, k).len() + j)] == all[encode_items(
                items,
                k,
            ).len() + j]);
        }
        assert(s[here + 0] == e[0]);
        lemma_parse_encoded(s, here, item, depth);
        assert(items.take(k as int).push(item) =~= items.take(k + 1 as int));
        lemma_parse_items(s, start, items, k + 1, depth);
    }
}

/// Where the entries of a dictionary stand encoded from `start` on, in
/// ascending order of their keys and with an `e` behind them, reading on
/// behind the first `k` of them gives them all.
pub proof fn lemma_parse_entries(
    s: Seq<u8>,
    start: int,
    entries: Seq<(Seq<u8>, Val)>,
    k: nat,
    depth: nat,
)
    requires
        k <= entries.len(),
        sorted_keys(entries),
        forall|i: int| 0 <= i < entries.len() ==> val_wf((#[trigger] entries[i]).1, depth),
        holds_at(s, start, encode_entries(entries, entries.len())),
        start + encode_entries(entries, entries.len()).len() < s.len(),
        s[start + encode_entries(entries, entries.len()).len()] == 101,
    ensures
        parse_dict_from(
            s,
            start + encode_entries(entries, k).len(),
            depth,
            entries.take(k as int),
        ) == Some((entries, start + encode_entries(entries, entries.len()).len() + 1)),
    decreases entries, entries.len() - k,
{
    let all = encode_entries(entries, entries.len());
    let done = encode_entries(entries, k);
    let here = start + done.len();
    lemma_entries_prefix(entries, k, entries.len());
    if k == entries.len() {
        assert(entries.take(k as int) =~= entries);
    } else {
        let key = entries[k as int].0;
        let item = entries[k as int].1;
        let ek = encode_text(key);
        let ev = encode_val(item);
        let next = encode_entries(entries, k + 1);
        lemma_entries_prefix(entries, k + 1, entries.len());
        lemma_first_byte(item);
        lemma_first_byte(Val::Bytes(key));
        let tail = ek + ev;
        assert(next =~= done + tail);
        assert forall|j: int| 0 <= j < tail.len() implies s[here + j] == #[trigger] tail[j] by {
            assert(next[done.len() + j] == tail[j]);
            assert(all.subrange(0, next.len() as int)[done.len() + j] == all[done.len() + j]);
            assert(s[start + (done.len() + j)] == all[done.len() + j]);
        }
        assert forall|j: int| 0 <= j < ek.len() implies s[here + j] == #[trigger] ek[j] by {
            assert(tail[j] == ek[j]);
        }
        assert forall|j: int| 0 <= j < ev.len() implies s[here + ek.len() + j] == #[trigger] ev[j] by {
            assert(tail[ek.len() + j] == ev[j]);
            assert(s[here + (ek.len() + j)] == tail[ek.len() + j]);
        }
        assert(s[here + 0] == ek[0]);
        lemma_parse_text(s, here, key);
        lemma_parse_encoded(s, here + ek.len(), item, depth);
        let front = entries.take(k as int);
        assert forall|j: int| 0 <= j < front.len() implies crate::keys::bytes_lt(
            #[trigger] front[j].0,
            key,
        ) by {
            assert(crate::keys::bytes_lt(entries[j].0, entries[k as int].0));
        }
        lemma_rank_is(front, key, k as int);
        assert(dict_insert(front, key, item) =~= entries.take(k + 1 as int));
        lemma_parse_entries(s, start, entries, k + 1, depth);
    }
}

/// Decoding an encoding gives the value back: for every value as
/// `decode` gives it, whatever follows its encoding. Such a value is in
/// canonical form, so that its encoding holds it as it stands.
pub proof fn law_decode_encode(v: Val, rest: Seq<u8>, depth: nat)
    requires
        val_wf(v, depth),
    ensures
        canonical(v) == v,
        parse_value(encode_val(canonical(v)) + rest, 0, depth) == Some(
            (v, encode_val(canonical(v)).len() as int),
        ),
{
    lemma_canonical_of_wf(v, depth);
    lemma_parse_encoded(encode_val(v) + rest, 0, v, depth);
}

/// Encoding what was decoded gives the input back, where the input is
/// the encoding of a value as `decode` gives it: canonical input, with
/// the keys of each dictionary in ascending order.
pub proof fn law_encode_decode(input: Seq<u8>, v: Val, depth: nat)
    requires
        val_wf(v, depth),
        input == encode_val(v),
    ensures
        parse_value(input, 0, depth) matches Some((decoded, used)) && encode_val(
            canonical(decoded),
        ) == input && used == input.len(),
{
    law_decode_encode(v, Seq::empty(), depth);
    assert(encode_val(v) + Seq::<u8>::empty() =~= encode_val(v));
}

} // verus!
