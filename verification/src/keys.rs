use vstd::prelude::*;

verus! {

/// Whether `a` comes before `b` in the order of raw bytes, looking only at
/// the positions from `i` on: the first byte that differs decides, and a
/// string that ends first comes first.
pub open spec fn lt_from(a: Seq<u8>, b: Seq<u8>, i: int) -> bool
    decreases a.len() - i,
{
    if i < 0 || i >= b.len() {
        false
    } else if i >= a.len() {
        true
    } else if a[i] != b[i] {
        a[i] < b[i]
    } else {
        lt_from(a, b, i + 1)
    }
}

/// Whether `a` comes before `b` in ascending order of raw bytes.
pub open spec fn bytes_lt(a: Seq<u8>, b: Seq<u8>) -> bool {
    lt_from(a, b, 0)
}

/// Whether the keys of `d` stand in strictly ascending order; no key then
/// occurs twice.
pub open spec fn sorted_keys<V>(d: Seq<(Seq<u8>, V)>) -> bool {
    forall|i: int, j: int| 0 <= i < j < d.len() ==> bytes_lt(#[trigger] d[i].0, #[trigger] d[j].0)
}

/// The number of entries of `d` whose key comes before `k`.
pub open spec fn rank<V>(d: Seq<(Seq<u8>, V)>, k: Seq<u8>) -> nat
    decreases d.len(),
{
    if d.len() == 0 {
        0
    } else {
        rank(d.drop_last(), k) + if bytes_lt(d.last().0, k) {
            1nat
        } else {
            0nat
        }
    }
}

/// `d` with the value of key `k` set to `v`: an entry with that key is
/// replaced, otherwise the new entry goes where the order puts it.
pub open spec fn dict_insert<V>(d: Seq<(Seq<u8>, V)>, k: Seq<u8>, v: V) -> Seq<(Seq<u8>, V)> {
    let at = rank(d, k) as int;
    if at < d.len() && d[at].0 == k {
        d.update(at, (k, v))
    } else {
        d.insert(at, (k, v))
    }
}

/// The value that `d` holds for key `k`, if any.
pub open spec fn dict_get<V>(d: Seq<(Seq<u8>, V)>, k: Seq<u8>) -> Option<V> {
    let at = rank(d, k) as int;
    if at < d.len() && d[at].0 == k {
        Some(d[at].1)
    } else {
        None
    }
}

/// Two strings that agree from `i` on in what `lt_from` reads, and neither
/// comes before the other, are equal from `i` on.
pub proof fn lemma_lt_from_total(a: Seq<u8>, b: Seq<u8>, i: int)
    requires
        0 <= i,
        i <= a.len(),
        i <= b.len(),
        !lt_from(a, b, i),
        !lt_from(b, a, i),
    ensures
        a.len() == b.len(),
        forall|j: int| i <= j < a.len() ==> a[j] == b[j],
    decreases a.len() - i,
{
    if i < a.len() && i < b.len() {
        lemma_lt_from_total(a, b, i + 1);
    }
}

/// No string comes before itself.
pub proof fn lemma_lt_from_irreflexive(a: Seq<u8>, i: int)
    requires
        0 <= i,
    ensures
        !lt_from(a, a, i),
    decreases a.len() - i,
{
    if i < a.len() {
        lemma_lt_from_irreflexive(a, i + 1);
    }
}

/// The order is transitive.
pub proof fn lemma_lt_from_transitive(a: Seq<u8>, b: Seq<u8>, c: Seq<u8>, i: int)
    requires
        0 <= i,
        lt_from(a, b, i),
        lt_from(b, c, i),
    ensures
        lt_from(a, c, i),
    decreases a.len() - i,
{
    if i < a.len() && i < b.len() && i < c.len() && a[i] == b[i] && b[i] == c[i] {
        lemma_lt_from_transitive(a, b, c, i + 1);
    }
}

/// Of two strings one comes before the other, or they are equal; and never
/// two of these at once.
pub proof fn lemma_bytes_lt_order(a: Seq<u8>, b: Seq<u8>)
    ensures
        bytes_lt(a, b) || bytes_lt(b, a) || a == b,
        !(bytes_lt(a, b) && bytes_lt(b, a)),
        !(bytes_lt(a, b) && a == b),
{
    lemma_lt_from_irreflexive(a, 0);
    if bytes_lt(a, b) && bytes_lt(b, a) {
        lemma_lt_from_transitive(a, b, a, 0);
    }
    if !bytes_lt(a, b) && !bytes_lt(b, a) {
        lemma_lt_from_total(a, b, 0);
        assert(a =~= b);
    }
}

/// A rank is at most the number of entries.
pub proof fn lemma_rank_bound<V>(d: Seq<(Seq<u8>, V)>, k: Seq<u8>)
    ensures
        rank(d, k) <= d.len(),
    decreases d.len(),
{
    if d.len() > 0 {
        lemma_rank_bound(d.drop_last(), k);
    }
}

/// In a sorted dictionary, the position behind the last key that comes
/// before `k` is the rank of `k`.
pub proof fn lemma_rank_is<V>(d: Seq<(Seq<u8>, V)>, k: Seq<u8>, at: int)
    requires
        0 <= at <= d.len(),
        forall|j: int| 0 <= j < at ==> bytes_lt(#[trigger] d[j].0, k),
        forall|j: int| at <= j < d.len() ==> !bytes_lt(#[trigger] d[j].0, k),
    ensures
        rank(d, k) == at,
    decreases d.len(),
{
    if d.len() > 0 {
        let front = d.drop_last();
        if at == d.len() {
            lemma_rank_is(front, k, at - 1);
        } else {
            lemma_rank_is(front, k, at);
        }
    }
}

/// What the rank of `k` says of a sorted dictionary: the keys before it
/// come before `k`, the others do not.
pub proof fn lemma_rank_splits<V>(d: Seq<(Seq<u8>, V)>, k: Seq<u8>)
    requires
        sorted_keys(d),
    ensures
        rank(d, k) <= d.len(),
        forall|j: int| 0 <= j < rank(d, k) ==> bytes_lt(#[trigger] d[j].0, k),
        forall|j: int| rank(d, k) <= j < d.len() ==> !bytes_lt(#[trigger] d[j].0, k),
    decreases d.len(),
{
    if d.len() > 0 {
        let front = d.drop_last();
        assert forall|i: int, j: int| 0 <= i < j < front.len() implies bytes_lt(
            #[trigger] front[i].0,
            #[trigger] front[j].0,
        ) by {
            assert(bytes_lt(d[i].0, d[j].0));
        }
        lemma_rank_splits(front, k);
        let r = rank(front, k) as int;
        if bytes_lt(d.last().0, k) {
            assert forall|j: int| 0 <= j < d.len() - 1 implies bytes_lt(#[trigger] d[j].0, k) by {
                assert(bytes_lt(d[j].0, d[d.len() - 1].0));
                lemma_lt_from_transitive(d[j].0, d.last().0, k, 0);
            }
            if r < front.len() {
                assert(!bytes_lt(front[r].0, k));
                assert(front[r] == d[r]);
            }
            assert(r == front.len());
        } else {
            assert forall|j: int| 0 <= j < r implies bytes_lt(#[trigger] d[j].0, k) by {
                assert(bytes_lt(front[j].0, k));
            }
            assert forall|j: int| r <= j < d.len() implies !bytes_lt(#[trigger] d[j].0, k) by {
                if j < front.len() {
                    assert(!bytes_lt(front[j].0, k));
                }
            }
        }
    }
}

/// Setting a key keeps a sorted dictionary sorted.
pub proof fn lemma_insert_sorted<V>(d: Seq<(Seq<u8>, V)>, k: Seq<u8>, v: V)
    requires
        sorted_keys(d),
    ensures
        sorted_keys(dict_insert(d, k, v)),
        dict_get(dict_insert(d, k, v), k) == Some(v),
{
    lemma_rank_splits(d, k);
    let at = rank(d, k) as int;
    let out = dict_insert(d, k, v);
    assert forall|j: int| at <= j < d.len() && d[j].0 != k implies bytes_lt(k, #[trigger] d[j].0) by {
        lemma_bytes_lt_order(d[j].0, k);
    }
    if at < d.len() && d[at].0 == k {
        assert forall|i: int, j: int| 0 <= i < j < out.len() implies bytes_lt(
            #[trigger] out[i].0,
            #[trigger] out[j].0,
        ) by {
            assert(bytes_lt(d[i].0, d[j].0));
        }
    } else {
        assert forall|i: int, j: int| 0 <= i < j < out.len() implies bytes_lt(
            #[trigger] out[i].0,
            #[trigger] out[j].0,
        ) by {
            let di = if i < at { i } else { i - 1 };
            let dj = if j < at { j } else { j - 1 };
            if i == at {
                assert(out[j] == d[dj]);
                assert(bytes_lt(k, d[dj].0));
            } else if j == at {
                assert(out[i] == d[di]);
                assert(bytes_lt(d[di].0, k));
            } else {
                assert(out[i] == d[di]);
                assert(out[j] == d[dj]);
                assert(bytes_lt(d[di].0, d[dj].0));
            }
        }
    }
    lemma_bytes_lt_order(k, k);
    assert forall|j: int| 0 <= j < at implies bytes_lt(#[trigger] out[j].0, k) by {
        assert(out[j] == d[j]);
    }
    assert forall|j: int| at <= j < out.len() implies !bytes_lt(#[trigger] out[j].0, k) by {
        if j > at {
            assert(bytes_lt(out[at].0, out[j].0));
            lemma_bytes_lt_order(out[j].0, k);
        }
    }
    lemma_rank_is(out, k, at);
}

/// Setting one key leaves the values of the other keys as they were.
pub proof fn lemma_insert_other<V>(d: Seq<(Seq<u8>, V)>, k2: Seq<u8>, v: V, k: Seq<u8>)
    requires
        sorted_keys(d),
        k != k2,
    ensures
        dict_get(dict_insert(d, k2, v), k) == dict_get(d, k),
{
    lemma_rank_splits(d, k);
    lemma_rank_splits(d, k2);
    lemma_bytes_lt_order(k, k2);
    let r = rank(d, k) as int;
    let r2 = rank(d, k2) as int;
    let out = dict_insert(d, k2, v);
    if r2 < d.len() && d[r2].0 == k2 {
        assert forall|j: int| 0 <= j < r implies bytes_lt(#[trigger] out[j].0, k) by {
            assert(out[j].0 == d[j].0);
        }
        assert forall|j: int| r <= j < out.len() implies !bytes_lt(#[trigger] out[j].0, k) by {
            assert(out[j].0 == d[j].0);
        }
        lemma_rank_is(out, k, r);
    } else if bytes_lt(k2, k) {
        assert forall|j: int| 0 <= j < r2 implies bytes_lt(#[trigger] d[j].0, k) by {
            lemma_lt_from_transitive(d[j].0, k2, k, 0);
        }
        assert(r >= r2) by {
            if r < r2 {
                assert(bytes_lt(d[r].0, k));
            }
        }
        assert forall|j: int| 0 <= j < r + 1 implies bytes_lt(#[trigger] out[j].0, k) by {
            if j < r2 {
                assert(out[j] == d[j]);
            } else if j > r2 {
                assert(out[j] == d[j - 1]);
            }
        }
        assert forall|j: int| r + 1 <= j < out.len() implies !bytes_lt(#[trigger] out[j].0, k) by {
            assert(out[j] == d[j - 1]);
        }
        lemma_rank_is(out, k, r + 1);
        if r < d.len() {
            assert(out[r + 1] == d[r]);
        }
    } else {
        assert(bytes_lt(k, k2));
        assert(r <= r2) by {
            if r > r2 {
                assert(bytes_lt(d[r2].0, k));
                lemma_lt_from_transitive(d[r2].0, k, k2, 0);
            }
        }
        assert forall|j: int| 0 <= j < r implies bytes_lt(#[trigger] out[j].0, k) by {
            assert(out[j] == d[j]);
        }
        assert forall|j: int| r <= j < out.len() implies !bytes_lt(#[trigger] out[j].0, k) by {
            if j < r2 {
                assert(out[j] == d[j]);
            } else if j > r2 {
                assert(out[j] == d[j - 1]);
            } else {
                lemma_bytes_lt_order(k, k2);
            }
        }
        lemma_rank_is(out, k, r);
        if r < r2 {
            assert(out[r] == d[r]);
        } else if r < d.len() {
            if d[r].0 == k {
                assert(!bytes_lt(d[r2].0, k2));
                lemma_bytes_lt_order(d[r2].0, k2);
                lemma_bytes_lt_order(k, k2);
            }
        }
    }
}

/// Whether `a` comes before `b` in ascending order of raw bytes.
pub fn key_lt(a: &[u8], b: &[u8]) -> (r: bool)
    ensures
        r == bytes_lt(a@, b@),
{
    let mut i: usize = 0;
    while i < a.len() && i < b.len() && a[i] == b[i]
        invariant
            0 <= i <= a.len(),
            i <= b.len(),
            lt_from(a@, b@, 0) == lt_from(a@, b@, i as int),
        decreases a.len() - i,
    {
        i = i + 1;
    }
    if i >= b.len() {
        false
    } else if i >= a.len() {
        true
    } else {
        a[i] < b[i]
    }
}

/// Whether `a` and `b` hold the same bytes.
pub fn key_eq(a: &[u8], b: &[u8]) -> (r: bool)
    ensures
        r == (a@ == b@),
{
    if a.len() != b.len() {
        return false;
    }
    let mut i: usize = 0;
    while i < a.len()
        invariant
            0 <= i <= a.len(),
            a.len() == b.len(),
            forall|j: int| 0 <= j < i ==> a@[j] == b@[j],
        decreases a.len() - i,
    {
        if a[i] != b[i] {
            return false;
        }
        i = i + 1;
    }
    assert(a@ =~= b@);
    true
}

} // verus!
