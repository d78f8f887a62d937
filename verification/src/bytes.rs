//! Little-endian byte encoding of unsigned integers: the primitive
//! every wire structure of this crate is built from.
use vstd::prelude::*;
use vstd::arithmetic::div_mod::lemma_fundamental_div_mod;
use vstd::arithmetic::div_mod::lemma_mod_division_less_than_divisor;

verus! {

/// 256^n.
pub open spec fn pow256(n: nat) -> int
    decreases n,
{
    if n == 0 {
        1
    } else {
        256 * pow256((n - 1) as nat)
    }
}

/// The `n` little-endian bytes of the non-negative integer `x`.
pub open spec fn le_bytes(x: int, n: nat) -> Seq<u8>
    decreases n,
{
    if n == 0 {
        Seq::empty()
    } else {
        seq![(x % 256) as u8] + le_bytes(x / 256, (n - 1) as nat)
    }
}

/// The integer read from a little-endian byte string.
pub open spec fn le_val(s: Seq<u8>) -> int
    decreases s.len(),
{
    if s.len() == 0 {
        0
    } else {
        s[0] + 256 * le_val(s.drop_first())
    }
}

/// The concrete powers used by the fixed-width helpers.
pub proof fn lemma_pow256_values()
    ensures
        pow256(0) == 1,
        pow256(1) == 0x100,
        pow256(2) == 0x10000,
        pow256(3) == 0x100_0000,
        pow256(4) == 0x1_0000_0000,
        pow256(5) == 0x100_0000_0000,
        pow256(6) == 0x1_0000_0000_0000,
        pow256(7) == 0x100_0000_0000_0000,
        pow256(8) == 0x1_0000_0000_0000_0000,
{
    reveal_with_fuel(pow256, 9);
}

pub proof fn lemma_le_bytes_len(x: int, n: nat)
    ensures
        le_bytes(x, n).len() == n,
    decreases n,
{
    if n > 0 {
        lemma_le_bytes_len(x / 256, (n - 1) as nat);
    }
}

pub proof fn lemma_le_val_range(s: Seq<u8>)
    ensures
        0 <= le_val(s) < pow256(s.len()),
    decreases s.len(),
{
    if s.len() > 0 {
        lemma_le_val_range(s.drop_first());
    }
}

/// Reading back the little-endian bytes of `x` yields `x`: the
/// round-trip law of the integer codec.
pub proof fn lemma_le_round(x: int, n: nat)
    requires
        0 <= x < pow256(n),
    ensures
        le_val(le_bytes(x, n)) == x,
    decreases n,
{
    if n > 0 {
        lemma_fundamental_div_mod(x, 256);
        lemma_mod_division_less_than_divisor(x, 256);
        assert(x / 256 < pow256((n - 1) as nat)) by (nonlinear_arith)
            requires
                x < pow256(n),
                pow256(n) == 256 * pow256((n - 1) as nat),
                x == 256 * (x / 256) + x % 256,
                0 <= x % 256 < 256,
        ;
        assert(x / 256 >= 0) by (nonlinear_arith)
            requires
                x >= 0,
                x == 256 * (x / 256) + x % 256,
                0 <= x % 256 < 256,
        ;
        lemma_le_round(x / 256, (n - 1) as nat);
        lemma_le_bytes_len(x / 256, (n - 1) as nat);
        assert(le_bytes(x, n).drop_first() =~= le_bytes(x / 256, (n - 1) as nat));
    }
}

/// Append the `n` little-endian bytes of `x` to `out`.
pub fn push_le(out: &mut Vec<u8>, x: u64, n: usize)
    requires
        n <= 8,
        x < pow256(n as nat),
    ensures
        final(out)@ == old(out)@ + le_bytes(x as int, n as nat),
{
    let ghost x0 = x as int;
    let mut v: u64 = x;
    let mut i: usize = 0;
    proof {
        assert(out@ + le_bytes(x0, n as nat) =~= out@ + le_bytes(x0, n as nat));
    }
    while i < n
        invariant
            i <= n,
            0 <= v < pow256((n - i) as nat),
            out@ + le_bytes(v as int, (n - i) as nat) == old(out)@ + le_bytes(x0, n as nat),
        decreases n - i,
    {
        let b: u8 = (v % 256) as u8;
        proof {
            lemma_fundamental_div_mod(v as int, 256);
            lemma_mod_division_less_than_divisor(v as int, 256);
            assert(0 <= v / 256 < pow256((n - i - 1) as nat)) by (nonlinear_arith)
                requires
                    0 <= v < pow256((n - i) as nat),
                    pow256((n - i) as nat) == 256 * pow256((n - i - 1) as nat),
                    v as int == 256 * ((v as int) / 256) + (v as int) % 256,
                    0 <= (v as int) % 256 < 256,
                    v / 256 == (v as int) / 256,
            ;
            assert(out@.push(b) + le_bytes(v as int / 256, (n - i - 1) as nat) =~= out@
                + le_bytes(v as int, (n - i) as nat));
        }
        out.push(b);
        v = v / 256;
        i = i + 1;
    }
    proof {
        assert(out@ + le_bytes(v as int, 0) =~= out@);
    }
}

/// Read the little-endian integer held in `buf[pos .. pos + n]`.
pub fn read_le(buf: &Vec<u8>, pos: usize, n: usize) -> (r: u64)
    requires
        n <= 8,
        pos + n <= buf@.len(),
    ensures
        r == le_val(buf@.subrange(pos as int, pos + n)),
{
    let mut r: u64 = 0;
    let mut i: usize = n;
    let blen: usize = buf.len();
    proof {
        assert(buf@.subrange(pos + n, pos + n) =~= Seq::<u8>::empty());
    }
    while i > 0
        invariant
            i <= n,
            n <= 8,
            pos + n <= blen,
            blen == buf@.len(),
            0 <= r < pow256((n - i) as nat),
            r == le_val(buf@.subrange(pos + i, pos + n)),
        decreases i,
    {
        let b: u8 = buf[pos + i - 1];
        proof {
            let s = buf@.subrange(pos + i - 1, pos + n);
            assert(s.drop_first() =~= buf@.subrange(pos + i, pos + n));
            assert(s[0] == b);
            lemma_pow256_small((n - i) as nat);
            assert(b + 256 * (r as int) < pow256((n - i + 1) as nat)) by (nonlinear_arith)
                requires
                    0 <= r < pow256((n - i) as nat),
                    b < 256,
                    pow256((n - i + 1) as nat) == 256 * pow256((n - i) as nat),
            ;
        }
        r = (b as u64) + 256 * r;
        i = i - 1;
    }
    r
}

/// pow256 stays within u64 range for byte counts up to 8.
proof fn lemma_pow256_small(n: nat)
    requires
        n <= 7,
    ensures
        pow256((n + 1) as nat) <= 0x1_0000_0000_0000_0000,
{
    lemma_pow256_values();
}

/// Append `x` as a single byte.
pub fn push_u8(out: &mut Vec<u8>, x: u8)
    ensures
        final(out)@ == old(out)@ + le_bytes(x as int, 1),
{
    proof {
        lemma_pow256_values();
    }
    push_le(out, x as u64, 1);
}

/// Read one byte at `pos`, as the one-byte little-endian integer.
pub fn read_u8(buf: &Vec<u8>, pos: usize) -> (r: u8)
    requires
        pos + 1 <= buf@.len(),
    ensures
        r == le_val(buf@.subrange(pos as int, pos + 1)),
{
    let b: u8 = buf[pos];
    proof {
        assert(buf@.subrange(pos as int, pos + 1) =~= seq![b]);
        assert(buf@.subrange(pos as int, pos + 1).drop_first() =~= Seq::<u8>::empty());
        assert(le_val(Seq::<u8>::empty()) == 0);
    }
    b
}

/// Append a whole byte string.
pub fn push_bytes(out: &mut Vec<u8>, data: &Vec<u8>)
    ensures
        final(out)@ == old(out)@ + data@,
{
    let mut i: usize = 0;
    proof {
        assert(out@ + data@.take(0) =~= out@);
    }
    while i < data.len()
        invariant
            i <= data@.len(),
            out@ == old(out)@ + data@.take(i as int),
        decreases data@.len() - i,
    {
        let b: u8 = data[i];
        out.push(b);
        proof {
            assert(old(out)@ + data@.take(i + 1) =~= (old(out)@ + data@.take(i as int)).push(b));
        }
        i = i + 1;
    }
    proof {
        assert(data@.take(data@.len() as int) =~= data@);
    }
}

/// Copy `buf[from .. to]` into a fresh vector.
pub fn copy_range(buf: &Vec<u8>, from: usize, to: usize) -> (r: Vec<u8>)
    requires
        from <= to <= buf@.len(),
    ensures
        r@ == buf@.subrange(from as int, to as int),
{
    let mut r: Vec<u8> = Vec::new();
    let mut i: usize = from;
    while i < to
        invariant
            from <= i <= to <= buf@.len(),
            r@ == buf@.subrange(from as int, i as int),
        decreases to - i,
    {
        let b: u8 = buf[i];
        r.push(b);
        proof {
            assert(buf@.subrange(from as int, i + 1) =~= buf@.subrange(from as int, i as int).push(
                b,
            ));
        }
        i = i + 1;
    }
    r
}

/// Append `x` as two little-endian bytes.
pub fn push_u16(out: &mut Vec<u8>, x: u16)
    ensures
        final(out)@ == old(out)@ + le_bytes(x as int, 2),
{
    proof {
        lemma_pow256_values();
    }
    push_le(out, x as u64, 2);
}

/// Append `x` as four little-endian bytes.
pub fn push_u32(out: &mut Vec<u8>, x: u32)
    ensures
        final(out)@ == old(out)@ + le_bytes(x as int, 4),
{
    proof {
        lemma_pow256_values();
    }
    push_le(out, x as u64, 4);
}

/// Append `x` as eight little-endian bytes.
pub fn push_u64(out: &mut Vec<u8>, x: u64)
    ensures
        final(out)@ == old(out)@ + le_bytes(x as int, 8),
{
    proof {
        lemma_pow256_values();
        assert(x < pow256(8));
    }
    push_le(out, x, 8);
}

/// Read two little-endian bytes at `pos`.
pub fn read_u16(buf: &Vec<u8>, pos: usize) -> (r: u16)
    requires
        pos + 2 <= buf@.len(),
    ensures
        r == le_val(buf@.subrange(pos as int, pos + 2)),
{
    let v = read_le(buf, pos, 2);
    proof {
        lemma_le_val_range(buf@.subrange(pos as int, pos + 2));
        lemma_pow256_values();
    }
    v as u16
}

/// Read four little-endian bytes at `pos`.
pub fn read_u32(buf: &Vec<u8>, pos: usize) -> (r: u32)
    requires
        pos + 4 <= buf@.len(),
    ensures
        r == le_val(buf@.subrange(pos as int, pos + 4)),
{
    let v = read_le(buf, pos, 4);
    proof {
        lemma_le_val_range(buf@.subrange(pos as int, pos + 4));
        lemma_pow256_values();
    }
    v as u32
}

/// Read eight little-endian bytes at `pos`.
pub fn read_u64(buf: &Vec<u8>, pos: usize) -> (r: u64)
    requires
        pos + 8 <= buf@.len(),
    ensures
        r == le_val(buf@.subrange(pos as int, pos + 8)),
{
    read_le(buf, pos, 8)
}

} // verus!
