//! Bit vector utilities: bytes to bits (most significant bit first), bits
//! back to bytes with loss-aware truncation of a partial trailing byte, and
//! the big-endian value of a bit sequence.

use vstd::prelude::*;
use vstd::arithmetic::power2::{
    pow2, lemma_pow2_unfold, lemma_pow2_pos, lemma_pow2_strictly_increases, lemma2_to64,
};
use vstd::arithmetic::div_mod::lemma_div_denominator;

verus! {

/// Value of a bit sequence read as a big-endian unsigned integer.
pub open spec fn be_val(s: Seq<bool>) -> nat
    decreases s.len(),
{
    if s.len() == 0 {
        0
    } else {
        2 * be_val(s.drop_last()) + (if s.last() { 1nat } else { 0nat })
    }
}

/// The `n` low bits of `v`, most significant first.
pub open spec fn val_bits(v: nat, n: nat) -> Seq<bool> {
    Seq::new(n, |i: int| v / pow2((n - 1 - i) as nat) % 2 == 1)
}

/// The eight bits of a byte, most significant first.
pub open spec fn byte_bits(b: u8) -> Seq<bool> {
    val_bits(b as nat, 8)
}

/// A byte sequence flattened into bits, each byte most significant bit first.
pub open spec fn bytes_bits(bytes: Seq<u8>) -> Seq<bool>
    decreases bytes.len(),
{
    if bytes.len() == 0 {
        Seq::empty()
    } else {
        byte_bits(bytes[0]) + bytes_bits(bytes.drop_first())
    }
}

/// A bit sequence packed into bytes; bits past the last full byte are dropped.
pub open spec fn bits_bytes(s: Seq<bool>) -> Seq<u8>
    decreases s.len(),
{
    if s.len() < 8 {
        Seq::empty()
    } else {
        seq![be_val(s.take(8)) as u8] + bits_bytes(s.skip(8))
    }
}

/// A big-endian value is bounded by two to the number of its bits.
pub proof fn lemma_be_val_bound(s: Seq<bool>)
    ensures
        be_val(s) < pow2(s.len()),
    decreases s.len(),
{
    if s.len() == 0 {
        lemma2_to64();
    } else {
        lemma_be_val_bound(s.drop_last());
        lemma_pow2_unfold(s.len());
    }
}

/// Appending one byte to a byte sequence appends its eight bits.
pub proof fn lemma_bytes_bits_push(bytes: Seq<u8>, b: u8)
    ensures
        bytes_bits(bytes.push(b)) == bytes_bits(bytes) + byte_bits(b),
    decreases bytes.len(),
{
    if bytes.len() == 0 {
        assert(bytes.push(b)[0] == b);
        assert(bytes.push(b).drop_first() =~= Seq::<u8>::empty());
        assert(bytes_bits(bytes.push(b).drop_first()) =~= Seq::<bool>::empty());
        assert(bytes_bits(bytes.push(b)) =~= bytes_bits(bytes) + byte_bits(b));
    } else {
        assert(bytes.push(b)[0] == bytes[0]);
        assert(bytes.push(b).drop_first() =~= bytes.drop_first().push(b));
        lemma_bytes_bits_push(bytes.drop_first(), b);
        assert(bytes_bits(bytes.push(b)) =~= bytes_bits(bytes) + byte_bits(b));
    }
}

/// Appending one whole eight-bit group appends one byte to the packing.
pub proof fn lemma_bits_bytes_snoc(s: Seq<bool>, g: Seq<bool>)
    requires
        s.len() % 8 == 0,
        g.len() == 8,
    ensures
        bits_bytes(s + g) == bits_bytes(s).push(be_val(g) as u8),
    decreases s.len(),
{
    if s.len() == 0 {
        assert((s + g).take(8) =~= g);
        assert((s + g).skip(8) =~= Seq::<bool>::empty());
        assert(bits_bytes((s + g).skip(8)) =~= Seq::<u8>::empty());
        assert(bits_bytes(s + g) =~= bits_bytes(s).push(be_val(g) as u8));
    } else {
        assert((s + g).len() >= 16);
        assert((s + g).take(8) =~= s.take(8));
        assert((s + g).skip(8) =~= s.skip(8) + g);
        assert(s.skip(8).len() % 8 == 0) by {
            assert(s.skip(8).len() == s.len() - 8);
        }
        lemma_bits_bytes_snoc(s.skip(8), g);
        assert(bits_bytes(s + g) =~= bits_bytes(s).push(be_val(g) as u8));
    }
}

/// Converts a byte sequence to its bit sequence, most significant bit first.
pub fn bytes_to_bits(data: &[u8]) -> (bits: Vec<bool>)
    ensures
        bits@ == bytes_bits(data@),
{
    let mut bits: Vec<bool> = Vec::new();
    let mut i: usize = 0;
    while i < data.len()
        invariant
            i <= data.len(),
            bits@ == bytes_bits(data@.take(i as int)),
        decreases data.len() - i,
    {
        let b: u8 = data[i];
        push_byte_bits(&mut bits, b);
        proof {
            assert(data@.take(i + 1) =~= data@.take(i as int).push(b));
            lemma_bytes_bits_push(data@.take(i as int), b);
        }
        i = i + 1;
    }
    proof {
        assert(data@.take(data@.len() as int) =~= data@);
    }
    bits
}

/// Appends the eight bits of `b`, most significant first.
fn push_byte_bits(bits: &mut Vec<bool>, b: u8)
    ensures
        final(bits)@ == old(bits)@ + byte_bits(b),
{
    let ghost start = bits@;
    let mut p: u8 = 128;
    let mut j: usize = 0;
    proof {
        lemma2_to64();
    }
    while j < 8
        invariant
            j <= 8,
            bits@ == start + byte_bits(b).take(j as int),
            j < 8 ==> p as nat == pow2((7 - j) as nat),
        decreases 8 - j,
    {
        proof {
            lemma_pow2_pos((7 - j) as nat);
        }
        let bit: bool = (b / p) % 2 == 1;
        bits.push(bit);
        proof {
            assert(bit == byte_bits(b)[j as int]);
            assert(byte_bits(b).take(j + 1) =~= byte_bits(b).take(j as int).push(bit));
        }
        if j < 7 {
            proof {
                lemma_pow2_unfold((7 - j) as nat);
            }
            p = p / 2;
        }
        j = j + 1;
    }
    proof {
        assert(byte_bits(b).take(8) =~= byte_bits(b));
    }
}

/// Packs a bit sequence into bytes, most significant bit first; bits past the
/// last full byte are dropped.
pub fn pack_bits(bits: &Vec<bool>) -> (bytes: Vec<u8>)
    ensures
        bytes@ == bits_bytes(bits@),
{
    let mut bytes: Vec<u8> = Vec::new();
    let mut i: usize = 0;
    while bits.len() - i >= 8
        invariant
            i <= bits.len(),
            i % 8 == 0,
            bytes@ == bits_bytes(bits@.take(i as int)),
            bits@.take(i as int).len() % 8 == 0,
        decreases bits.len() - i,
    {
        let mut acc: u8 = 0;
        let mut j: usize = 0;
        let ghost group = bits@.subrange(i as int, i + 8);
        proof {
            lemma2_to64();
            assert(group.take(0) =~= Seq::<bool>::empty());
        }
        while j < 8
            invariant
                j <= 8,
                i + 8 <= bits.len(),
                group == bits@.subrange(i as int, i + 8),
                acc as nat == be_val(group.take(j as int)),
                (acc as nat) < pow2(j as nat),
            decreases 8 - j,
        {
            let bit: bool = bits[i + j];
            proof {
                lemma_be_val_bound(group.take(j as int));
                lemma_pow2_unfold((j + 1) as nat);
                lemma2_to64();
                assert(group.take(j + 1).drop_last() =~= group.take(j as int));
                assert(group.take(j + 1).last() == bit);
            }
            acc = acc * 2 + (if bit { 1 } else { 0 });
            j = j + 1;
        }
        proof {
            assert(group.take(8) =~= group);
            assert(bits@.take(i + 8) =~= bits@.take(i as int) + group);
            lemma_bits_bytes_snoc(bits@.take(i as int), group);
        }
        bytes.push(acc);
        i = i + 8;
    }
    proof {
        lemma_bits_bytes_stops(bits@, i as int);
    }
    bytes
}

/// Reading the bits of a value back as a big-endian integer returns the
/// value.
pub proof fn lemma_val_bits_roundtrip(v: nat, n: nat)
    requires
        v < pow2(n),
    ensures
        be_val(val_bits(v, n)) == v,
    decreases n,
{
    if n == 0 {
        lemma2_to64();
        assert(val_bits(v, n).len() == 0);
    } else {
        lemma_pow2_unfold(n);
        assert(v / 2 < pow2((n - 1) as nat));
        lemma_val_bits_roundtrip(v / 2, (n - 1) as nat);
        assert(val_bits(v, n).drop_last() =~= val_bits(v / 2, (n - 1) as nat)) by {
            assert forall|i: int| 0 <= i < n - 1 implies val_bits(v, n).drop_last()[i]
                == val_bits(v / 2, (n - 1) as nat)[i] by {
                let e = (n - 2 - i) as nat;
                lemma_pow2_unfold((e + 1) as nat);
                lemma_pow2_pos(e);
                lemma_div_denominator(v as int, 2, pow2(e) as int);
                assert(val_bits(v, n)[i] == (v / pow2((n - 1 - i) as nat) % 2 == 1));
                assert(pow2((n - 1 - i) as nat) == 2 * pow2(e));
                assert(v / (2 * pow2(e)) == (v / 2) / pow2(e));
            }
        }
        assert(val_bits(v, n).last() == (v / pow2(0) % 2 == 1));
        lemma2_to64();
        assert(v / pow2(0) == v);
        assert(be_val(val_bits(v, n)) == 2 * be_val(val_bits(v, n).drop_last()) + (if val_bits(
            v,
            n,
        ).last() {
            1nat
        } else {
            0nat
        }));
    }
}

/// Writing a big-endian value's bits back out restores the bit sequence.
pub proof fn lemma_bits_val_roundtrip(s: Seq<bool>)
    ensures
        val_bits(be_val(s), s.len()) == s,
    decreases s.len(),
{
    let n = s.len();
    if n == 0 {
        assert(val_bits(be_val(s), 0) =~= s);
    } else {
        let v = be_val(s);
        let bv = be_val(s.drop_last());
        let l: nat = if s.last() {
            1nat
        } else {
            0nat
        };
        assert(v == 2 * bv + l);
        lemma_bits_val_roundtrip(s.drop_last());
        assert(val_bits(v, n) =~= s) by {
            assert forall|i: int| 0 <= i < n implies val_bits(v, n)[i] == s[i] by {
                if i < n - 1 {
                    let e = (n - 2 - i) as nat;
                    lemma_pow2_unfold((e + 1) as nat);
                    lemma_pow2_pos(e);
                    lemma_div_denominator(v as int, 2, pow2(e) as int);
                    assert(v / 2 == bv);
                    assert(pow2((n - 1 - i) as nat) == 2 * pow2(e));
                    assert(val_bits(v, n)[i] == (v / pow2((n - 1 - i) as nat) % 2 == 1));
                    assert(v / pow2((n - 1 - i) as nat) == bv / pow2(e));
                    assert(val_bits(bv, (n - 1) as nat)[i] == (bv / pow2(e) % 2 == 1));
                    assert(val_bits(bv, (n - 1) as nat)[i] == s.drop_last()[i]);
                } else {
                    lemma2_to64();
                    assert(val_bits(v, n)[i] == (v / pow2(0) % 2 == 1));
                    vstd::arithmetic::div_mod::lemma_div_basics(v as int);
                    assert(v / pow2(0) == v);
                    assert(v % 2 == l);
                }
            }
        }
    }
}

/// Unpacking a packed whole-byte bit sequence restores the bits.
pub proof fn lemma_unpack_pack(s: Seq<bool>)
    requires
        s.len() % 8 == 0,
    ensures
        bytes_bits(bits_bytes(s)) == s,
    decreases s.len(),
{
    if s.len() == 0 {
        assert(bits_bytes(s) =~= Seq::<u8>::empty());
        assert(bytes_bits(bits_bytes(s)) =~= s);
    } else {
        if s.len() < 8 {
            vstd::arithmetic::div_mod::lemma_small_mod(s.len(), 8);
        }
        assert(s.len() >= 8);
        let g = s.take(8);
        let b = be_val(g) as u8;
        assert(bits_bytes(s) == seq![b] + bits_bytes(s.skip(8)));
        assert(bits_bytes(s)[0] == b);
        assert(bits_bytes(s).drop_first() =~= bits_bytes(s.skip(8)));
        lemma_be_val_bound(g);
        lemma2_to64();
        assert(b as nat == be_val(g));
        lemma_bits_val_roundtrip(g);
        assert(byte_bits(b) == g);
        assert(s.skip(8).len() % 8 == 0) by {
            vstd::arithmetic::div_mod::lemma_mod_sub_multiples_vanish(s.len() as int, 8);
        }
        lemma_unpack_pack(s.skip(8));
        assert(bytes_bits(bits_bytes(s)) == byte_bits(bits_bytes(s)[0]) + bytes_bits(
            bits_bytes(s).drop_first(),
        ));
        assert(bytes_bits(bits_bytes(s)) =~= s);
    }
}

/// Appends the `n` low bits of `v`, most significant first.
pub fn push_val_bits(bits: &mut Vec<bool>, v: usize, n: usize)
    requires
        1 <= n <= 32,
        (v as nat) < pow2(n as nat),
    ensures
        final(bits)@ == old(bits)@ + val_bits(v as nat, n as nat),
{
    let ghost start = bits@;
    let mut p: usize = 1;
    let mut m: usize = 0;
    proof {
        lemma2_to64();
        assert(pow2(0) == 1);
    }
    while m < n - 1
        invariant
            m <= n - 1,
            n <= 32,
            p as nat == pow2(m as nat),
            bits@ == start,
        decreases n - m,
    {
        proof {
            lemma_pow2_unfold((m + 1) as nat);
            if m + 1 < 32 {
                lemma_pow2_strictly_increases((m + 1) as nat, 32);
            }
            lemma2_to64();
            assert(pow2((m + 1) as nat) <= pow2(32));
        }
        p = p * 2;
        m = m + 1;
    }
    let mut j: usize = 0;
    while j < n
        invariant
            j <= n,
            n <= 32,
            (v as nat) < pow2(n as nat),
            bits@ == start + val_bits(v as nat, n as nat).take(j as int),
            j < n ==> p as nat == pow2((n - 1 - j) as nat),
        decreases n - j,
    {
        proof {
            lemma_pow2_pos((n - 1 - j) as nat);
        }
        let bit: bool = (v / p) % 2 == 1;
        bits.push(bit);
        proof {
            assert(bit == val_bits(v as nat, n as nat)[j as int]);
            assert(val_bits(v as nat, n as nat).take(j + 1) =~= val_bits(
                v as nat,
                n as nat,
            ).take(j as int).push(bit));
        }
        if j < n - 1 {
            proof {
                lemma_pow2_unfold((n - 1 - j) as nat);
            }
            p = p / 2;
        }
        j = j + 1;
    }
    proof {
        assert(val_bits(v as nat, n as nat).take(n as int) =~= val_bits(v as nat, n as nat));
    }
}

/// Reads `n` bits starting at `start` as a big-endian integer.
pub fn read_val_bits(bits: &Vec<bool>, start: usize, n: usize) -> (v: usize)
    requires
        n <= 32,
        start + n <= bits@.len(),
    ensures
        v as nat == be_val(bits@.subrange(start as int, start + n)),
{
    let ghost field = bits@.subrange(start as int, start + n);
    let total = bits.len();
    let mut acc: usize = 0;
    let mut j: usize = 0;
    proof {
        lemma2_to64();
        assert(field.take(0) =~= Seq::<bool>::empty());
    }
    while j < n
        invariant
            j <= n,
            n <= 32,
            total == bits@.len(),
            start + n <= bits@.len(),
            field == bits@.subrange(start as int, start + n),
            acc as nat == be_val(field.take(j as int)),
            (acc as nat) < pow2(j as nat),
        decreases n - j,
    {
        let bit: bool = bits[start + j];
        proof {
            lemma_be_val_bound(field.take(j as int));
            lemma_pow2_unfold((j + 1) as nat);
            if j + 1 < 32 {
                lemma_pow2_strictly_increases((j + 1) as nat, 32);
            }
            lemma2_to64();
            assert(pow2((j + 1) as nat) <= pow2(32));
            assert(field.take(j + 1).drop_last() =~= field.take(j as int));
            assert(field.take(j + 1).last() == bit);
        }
        acc = acc * 2 + (if bit {
            1
        } else {
            0
        });
        j = j + 1;
    }
    proof {
        assert(field.take(n as int) =~= field);
    }
    acc
}

/// Packing ignores a trailing group of fewer than eight bits.
proof fn lemma_bits_bytes_stops(s: Seq<bool>, i: int)
    requires
        0 <= i <= s.len(),
        i % 8 == 0,
        s.len() - i < 8,
    ensures
        bits_bytes(s.take(i)) == bits_bytes(s),
    decreases i,
{
    if i == 0 {
        assert(s.take(0) =~= Seq::empty());
    } else {
        assert(s.take(i).take(8) =~= s.take(8));
        assert(s.take(i).skip(8) =~= s.skip(8).take(i - 8));
        lemma_bits_bytes_stops(s.skip(8), i - 8);
        assert(bits_bytes(s.take(i)) =~= bits_bytes(s));
    }
}

} // verus!
