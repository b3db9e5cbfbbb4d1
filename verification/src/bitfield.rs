use vstd::prelude::*;

verus! {

/// The bit of a byte that stands for the piece at place `k` of its eight:
/// the highest bit for place 0.
pub open spec fn bit_mask(k: int) -> u8 {
    0x80u8 >> (k as u8)
}

/// Whether the bitfield `bits` claims the piece `index`: the bits are
/// counted from the highest bit of the first byte on.
pub open spec fn bit_set(bits: Seq<u8>, index: int) -> bool {
    0 <= index < 8 * bits.len() && bits[index / 8] & bit_mask(index % 8) != 0
}

/// A bitfield for `count` pieces that claims none.
pub fn empty_bitfield(count: usize) -> (bits: Vec<u8>)
    ensures
        bits@.len() == (count + 7) / 8,
        forall|i: int| !bit_set(bits@, i),
{
    let len: usize = count / 8 + (if count % 8 == 0 {
        0
    } else {
        1
    });
    let mut bits: Vec<u8> = Vec::new();
    let mut i: usize = 0;
    while i < len
        invariant
            0 <= i <= len,
            bits@.len() == i,
            forall|j: int| 0 <= j < i ==> bits@[j] == 0,
        decreases len - i,
    {
        bits.push(0);
        i = i + 1;
    }
    assert forall|i: int| !bit_set(bits@, i) by {
        if 0 <= i < 8 * bits@.len() {
            let m = bit_mask(i % 8);
            assert(0u8 & m == 0) by (bit_vector);
        }
    }
    bits
}

/// Whether the bitfield claims the piece `index`.
pub fn has_piece(bits: &[u8], index: usize) -> (r: bool)
    ensures
        r == bit_set(bits@, index as int),
{
    if index / 8 >= bits.len() {
        return false;
    }
    let k: u8 = (index % 8) as u8;
    let mask: u8 = 0x80u8 >> k;
    bits[index / 8] & mask != 0
}

/// Records that the peer has the piece `index`. An index beyond the
/// bitfield changes nothing.
pub fn set_piece(bits: &mut Vec<u8>, index: usize)
    ensures
        final(bits)@.len() == old(bits)@.len(),
        forall|i: int|
            bit_set(final(bits)@, i) == (bit_set(old(bits)@, i) || (i == index && index < 8 * old(
                bits,
            )@.len())),
{
    if index / 8 >= bits.len() {
        return ;
    }
    let at: usize = index / 8;
    let k: u8 = (index % 8) as u8;
    let mask: u8 = 0x80u8 >> k;
    let before: u8 = bits[at];
    let after: u8 = before | mask;
    bits[at] = after;
    proof {
        assert forall|i: int|
            bit_set(bits@, i) == (bit_set(old(bits)@, i) || (i == index && index < 8 * old(
                bits,
            )@.len())) by {
            if 0 <= i < 8 * bits@.len() && i / 8 == at {
                let j: u8 = (i % 8) as u8;
                assert(((before | (0x80u8 >> k)) & (0x80u8 >> j) != 0) == (j == k || before & (0x80u8
                    >> j) != 0)) by (bit_vector)
                    requires
                        j < 8,
                        k < 8,
                ;
            }
        }
    }
}

/// The bitfield that claims the piece `index` if `bits` does, and no
/// other piece.
pub fn only_piece(bits: &[u8], index: usize) -> (out: Vec<u8>)
    ensures
        out@.len() == bits@.len(),
        forall|i: int| bit_set(out@, i) == (i == index && bit_set(bits@, i)),
{
    let mut out: Vec<u8> = Vec::new();
    let mut n: usize = 0;
    while n < bits.len()
        invariant
            0 <= n <= bits@.len(),
            out@.len() == n,
            forall|j: int| 0 <= j < n ==> out@[j] == 0,
        decreases bits@.len() - n,
    {
        out.push(0);
        n = n + 1;
    }
    proof {
        assert forall|i: int| !bit_set(out@, i) by {
            if 0 <= i < 8 * out@.len() {
                let m = bit_mask(i % 8);
                assert(0u8 & m == 0) by (bit_vector);
            }
        }
    }
    if has_piece(bits, index) {
        set_piece(&mut out, index);
    }
    out
}

} // verus!
