//! Delta encoding of component values: a delta-replicated component
//! sends the byte-wise XOR of its current value against the last value
//! the peer acknowledged.
use vstd::prelude::*;

verus! {

/// Byte-wise XOR of two equal-length byte strings.
pub open spec fn xor_bytes(a: Seq<u8>, b: Seq<u8>) -> Seq<u8> {
    Seq::new(a.len(), |i: int| a[i] ^ b[i])
}

proof fn lemma_xor_cancel(a: u8, b: u8)
    by (bit_vector)
    ensures
        (a ^ b) ^ b == a,
{
}

/// Decoding a delta against the same base it was encoded against yields
/// the new value, byte for byte.
pub proof fn lemma_delta_round_trip(value: Seq<u8>, base: Seq<u8>)
    requires
        value.len() == base.len(),
    ensures
        xor_bytes(xor_bytes(value, base), base) == value,
{
    let d = xor_bytes(value, base);
    assert forall|i: int| 0 <= i < value.len() implies xor_bytes(d, base)[i] == value[i] by {
        lemma_xor_cancel(value[i], base[i]);
    }
    assert(xor_bytes(d, base) =~= value);
}

/// Encode `value` as a delta against `base`.
pub fn delta_encode(value: &Vec<u8>, base: &Vec<u8>) -> (d: Vec<u8>)
    requires
        value@.len() == base@.len(),
    ensures
        d@ == xor_bytes(value@, base@),
{
    xor_vec(value, base)
}

/// Recover the value from a delta and the base it was encoded against.
pub fn delta_decode(delta: &Vec<u8>, base: &Vec<u8>) -> (v: Vec<u8>)
    requires
        delta@.len() == base@.len(),
    ensures
        v@ == xor_bytes(delta@, base@),
        delta@ == xor_bytes(v@, base@),
{
    let v = xor_vec(delta, base);
    proof {
        lemma_delta_round_trip(delta@, base@);
    }
    v
}

fn xor_vec(a: &Vec<u8>, b: &Vec<u8>) -> (r: Vec<u8>)
    requires
        a@.len() == b@.len(),
    ensures
        r@ == xor_bytes(a@, b@),
{
    let mut r: Vec<u8> = Vec::new();
    let mut i: usize = 0;
    while i < a.len()
        invariant
            i <= a@.len(),
            a@.len() == b@.len(),
            r@ == xor_bytes(a@, b@).take(i as int),
        decreases a@.len() - i,
    {
        let x: u8 = a[i] ^ b[i];
        r.push(x);
        proof {
            assert(xor_bytes(a@, b@).take(i + 1) =~= xor_bytes(a@, b@).take(i as int).push(x));
        }
        i = i + 1;
    }
    proof {
        assert(xor_bytes(a@, b@).take(a@.len() as int) =~= xor_bytes(a@, b@));
    }
    r
}

} // verus!
