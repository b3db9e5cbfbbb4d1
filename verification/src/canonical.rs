use vstd::prelude::*;
use crate::codec::{Val, Value, val_wf, entries_view};
use crate::keys::{
    bytes_lt, sorted_keys, dict_insert, key_lt, key_eq, lemma_rank_is, lemma_rank_bound,
    lemma_insert_sorted, lemma_bytes_lt_order, lemma_lt_from_transitive,
};

verus! {

/// The keys of the first `n` entries of `d` in ascending order, each with
/// the place of the entry that holds its value: of two entries with one
/// key, the later.
pub open spec fn key_order(d: Seq<(Seq<u8>, Val)>, n: nat) -> Seq<(Seq<u8>, int)>
    decreases n,
{
    if n == 0 || n > d.len() {
        Seq::empty()
    } else {
        dict_insert(key_order(d, (n - 1) as nat), d[n - 1].0, n - 1)
    }
}

/// The value in canonical form: the entries of each dictionary in
/// ascending order of their keys, and of two entries with one key only
/// the later.
pub open spec fn canonical(v: Val) -> Val
    decreases v,
{
    match v {
        Val::Bytes(_) => v,
        Val::Int(_) => v,
        Val::List(items) => Val::List(
            Seq::new(
                items.len(),
                |i: int| if 0 <= i < items.len() { canonical(items[i]) } else { arbitrary() },
            ),
        ),
        Val::Dict(d) => Val::Dict(
            Seq::new(
                key_order(d, d.len()).len(),
                |k: int|
                    {
                        let at = key_order(d, d.len())[k].1;
                        if 0 <= at < d.len() {
                            (d[at].0, canonical(d[at].1))
                        } else {
                            arbitrary()
                        }
                    },
            ),
        ),
    }
}

/// The order of keys is sorted, and each of its places is one of the
/// first `n` and holds the key that stands with it.
pub proof fn lemma_key_order(d: Seq<(Seq<u8>, Val)>, n: nat)
    requires
        n <= d.len(),
    ensures
        sorted_keys(key_order(d, n)),
        key_order(d, n).len() <= n,
        forall|k: int|
            0 <= k < key_order(d, n).len() ==> 0 <= (#[trigger] key_order(d, n)[k]).1 < n && d[key_order(
                d,
                n,
            )[k].1].0 == key_order(d, n)[k].0,
    decreases n,
{
    if n > 0 {
        let before = key_order(d, (n - 1) as nat);
        let out = key_order(d, n);
        lemma_key_order(d, (n - 1) as nat);
        lemma_insert_sorted(before, d[n - 1].0, n - 1);
        lemma_rank_bound(before, d[n - 1].0);
        let at = crate::keys::rank(before, d[n - 1].0) as int;
        assert forall|k: int| 0 <= k < out.len() implies 0 <= (#[trigger] out[k]).1 < n && d[out[k].1].0
            == out[k].0 by {
            if at < before.len() && before[at].0 == d[n - 1].0 {
                if k != at {
                    assert(out[k] == before[k]);
                }
            } else {
                if k < at {
                    assert(out[k] == before[k]);
                } else if k > at {
                    assert(out[k] == before[k - 1]);
                }
            }
        }
    }
}

/// The keys of a sorted dictionary are in order as they stand.
pub proof fn lemma_key_order_sorted(d: Seq<(Seq<u8>, Val)>, n: nat)
    requires
        sorted_keys(d),
        n <= d.len(),
    ensures
        key_order(d, n) == Seq::new(n, |i: int| (d[i].0, i)),
    decreases n,
{
    if n > 0 {
        lemma_key_order_sorted(d, (n - 1) as nat);
        let before = key_order(d, (n - 1) as nat);
        assert forall|j: int| 0 <= j < before.len() implies bytes_lt(
            #[trigger] before[j].0,
            d[n - 1].0,
        ) by {
            assert(bytes_lt(d[j].0, d[n - 1].0));
        }
        lemma_rank_is(before, d[n - 1].0, n - 1);
        assert(key_order(d, n) =~= Seq::new(n, |i: int| (d[i].0, i)));
    } else {
        assert(key_order(d, n) =~= Seq::<(Seq<u8>, int)>::new(n, |i: int| (d[i].0, i)));
    }
}

/// A value as `decode` gives it is in canonical form.
pub proof fn lemma_canonical_of_wf(v: Val, depth: nat)
    requires
        val_wf(v, depth),
    ensures
        canonical(v) == v,
    decreases v,
{
    match v {
        Val::List(items) => {
            assert forall|i: int| 0 <= i < items.len() implies canonical(items[i]) == items[i] by {
                lemma_canonical_of_wf(items[i], (depth - 1) as nat);
            }
            assert(canonical(v)->List_0 =~= items);
        },
        Val::Dict(d) => {
            lemma_key_order_sorted(d, d.len());
            assert forall|i: int| 0 <= i < d.len() implies canonical(d[i].1) == d[i].1 by {
                lemma_canonical_of_wf(d[i].1, (depth - 1) as nat);
            }
            assert(canonical(v)->Dict_0 =~= d);
        },
        _ => {},
    }
}

/// In canonical form the keys of a dictionary ascend, whatever the order
/// of its entries was, and no key occurs twice.
pub proof fn law_canonical_keys_ascend(d: Seq<(Seq<u8>, Val)>)
    ensures
        canonical(Val::Dict(d)) is Dict,
        sorted_keys(canonical(Val::Dict(d))->Dict_0),
{
    let order = key_order(d, d.len());
    let out = canonical(Val::Dict(d))->Dict_0;
    lemma_key_order(d, d.len());
    assert forall|i: int, j: int| 0 <= i < j < out.len() implies bytes_lt(
        #[trigger] out[i].0,
        #[trigger] out[j].0,
    ) by {
        assert(out[i].0 == order[i].0);
        assert(out[j].0 == order[j].0);
        assert(bytes_lt(order[i].0, order[j].0));
    }
}

/// The places of the entries in ascending order of their keys, each key
/// once: of two entries with one key, the later.
pub fn order_entries(entries: &Vec<(Vec<u8>, Value)>) -> (order: Vec<usize>)
    ensures
        order@.len() == key_order(entries_view(entries@), entries@.len()).len(),
        forall|k: int|
            0 <= k < order@.len() ==> #[trigger] order@[k] == key_order(
                entries_view(entries@),
                entries@.len(),
            )[k].1 && order@[k] < entries@.len(),
{
    let ghost d = entries_view(entries@);
    let mut order: Vec<usize> = Vec::new();
    let mut n: usize = 0;
    while n < entries.len()
        invariant
            0 <= n <= entries@.len(),
            d == entries_view(entries@),
            order@.len() == key_order(d, n as nat).len(),
            forall|k: int|
                0 <= k < order@.len() ==> #[trigger] order@[k] == key_order(d, n as nat)[k].1
                    && order@[k] < n,
        decreases entries@.len() - n,
    {
        let ghost before = key_order(d, n as nat);
        proof {
            lemma_key_order(d, n as nat);
        }
        let key = entries[n].0.as_slice();
        let mut at: usize = 0;
        let last: usize = order.len();
        if last > 0 && key_lt(entries[order[last - 1]].0.as_slice(), key) {
            at = last;
            proof {
                assert(before[last - 1].0 == d[order@[last - 1] as int].0);
                assert forall|j: int| 0 <= j < at implies bytes_lt(#[trigger] before[j].0, key@) by {
                    if j < last - 1 {
                        assert(bytes_lt(before[j].0, before[last - 1].0));
                        lemma_lt_from_transitive(before[j].0, before[last - 1].0, key@, 0);
                    }
                }
            }
        } else {
            while at < last && key_lt(entries[order[at]].0.as_slice(), key)
                invariant
                    0 <= at <= last,
                    last == order@.len(),
                    order@.len() == before.len(),
                    d == entries_view(entries@),
                    n < entries@.len(),
                    key@ == d[n as int].0,
                    forall|k: int|
                        0 <= k < order@.len() ==> #[trigger] order@[k] == before[k].1 && order@[k] < n,
                    forall|k: int|
                        0 <= k < before.len() ==> d[(#[trigger] before[k]).1].0 == before[k].0,
                    forall|j: int| 0 <= j < at ==> bytes_lt(#[trigger] before[j].0, key@),
                decreases last - at,
            {
                at = at + 1;
            }
        }
        proof {
            assert forall|j: int| at <= j < before.len() implies !bytes_lt(
                #[trigger] before[j].0,
                key@,
            ) by {
                assert(before[at as int].0 == d[order@[at as int] as int].0);
                if j > at {
                    assert(bytes_lt(before[at as int].0, before[j].0));
                    lemma_bytes_lt_order(before[at as int].0, before[j].0);
                    if bytes_lt(before[j].0, key@) {
                        lemma_lt_from_transitive(before[at as int].0, before[j].0, key@, 0);
                    }
                }
            }
            lemma_rank_is(before, key@, at as int);
        }
        if at < last && key_eq(entries[order[at]].0.as_slice(), key) {
            order[at] = n;
        } else {
            order.insert(at, n);
        }
        n = n + 1;
        proof {
            let after = key_order(d, n as nat);
            assert(after == dict_insert(before, key@, n - 1));
            assert forall|k: int| 0 <= k < order@.len() implies #[trigger] order@[k] == after[k].1
                && order@[k] < n by {}
        }
    }
    order
}

} // verus!
