use vstd::prelude::*;

use vstd::arithmetic::power2::{lemma2_to64, lemma_pow2_adds, lemma_pow2_pos, lemma_pow2_unfold, pow2};

verus! {

/// The number whose binary digits, least significant first, are `bits`.
pub open spec fn bits_value(bits: Seq<bool>) -> nat
    decreases bits.len(),
{
    if bits.len() == 0 {
        0
    } else {
        (if bits[0] {
            1nat
        } else {
            0nat
        }) + 2 * bits_value(bits.drop_first())
    }
}

/// The low `n` bits of `value`, least significant first.
pub open spec fn bits_of(value: u32, n: nat) -> Seq<bool> {
    Seq::new(n, |i: int| (value as nat / pow2(i as nat)) % 2 == 1)
}

/// `bits` packed LSB-first into bytes; the last byte is zero-padded in
/// its high bits.
pub open spec fn packed_bytes(bits: Seq<bool>) -> Seq<u8> {
    Seq::new(
        ((bits.len() + 7) / 8) as nat,
        |k: int|
            bits_value(
                bits.subrange(
                    8 * k,
                    if 8 * k + 8 <= bits.len() {
                        8 * k + 8
                    } else {
                        bits.len() as int
                    },
                ),
            ) as u8,
    )
}

pub proof fn lemma_bits_value_concat(p: Seq<bool>, q: Seq<bool>)
    ensures
        bits_value(p + q) == bits_value(p) + pow2(p.len()) * bits_value(q),
    decreases p.len(),
{
    if p.len() == 0 {
        assert(p + q =~= q);
        lemma2_to64();
    } else {
        lemma_bits_value_concat(p.drop_first(), q);
        assert((p + q).drop_first() =~= p.drop_first() + q);
        lemma_pow2_unfold(p.len());
        let r = pow2((p.len() - 1) as nat);
        assert(2 * (bits_value(p.drop_first()) + r * bits_value(q)) == 2 * bits_value(
            p.drop_first(),
        ) + (2 * r) * bits_value(q)) by (nonlinear_arith);
    }
}

pub proof fn lemma_bits_value_bound(p: Seq<bool>)
    ensures
        bits_value(p) < pow2(p.len()),
    decreases p.len(),
{
    if p.len() == 0 {
        lemma2_to64();
    } else {
        lemma_bits_value_bound(p.drop_first());
        lemma_pow2_unfold(p.len());
    }
}

pub proof fn lemma_bits_of_value(value: u32, n: nat)
    ensures
        bits_value(bits_of(value, n)) == value as nat % pow2(n),
    decreases n,
{
    lemma_pow2_pos(n);
    if n == 0 {
        lemma2_to64();
        assert(bits_of(value, n) =~= Seq::<bool>::empty());
    } else {
        let m = (n - 1) as nat;
        lemma_bits_of_value(value, m);
        let s = bits_of(value, n);
        assert(s =~= bits_of(value, m).push((value as nat / pow2(m)) % 2 == 1));
        assert(s =~= bits_of(value, m) + seq![(value as nat / pow2(m)) % 2 == 1]);
        lemma_bits_value_concat(bits_of(value, m), seq![(value as nat / pow2(m)) % 2 == 1]);
        let tail = seq![(value as nat / pow2(m)) % 2 == 1];
        assert(tail.drop_first() =~= Seq::<bool>::empty());
        lemma_pow2_unfold(n);
        lemma_pow2_pos(m);
        let v = value as nat;
        let p = pow2(m);
        reveal_with_fuel(bits_value, 2);
        assert(bits_value(tail) == (v / p) % 2);
        vstd::arithmetic::div_mod::lemma_breakdown(v as int, p as int, 2);
        assert(p * 2 == 2 * p);
        assert(v % (2 * p) == v % p + p * ((v / p) % 2));
    }
}

/// Bit `i` of the number whose bits, least significant first, are `bits`
/// is `bits[i]`.
pub proof fn lemma_bits_value_bit(bits: Seq<bool>, i: nat)
    requires
        i < bits.len(),
    ensures
        ((bits_value(bits) / pow2(i)) % 2 == 1) == bits[i as int],
    decreases i,
{
    let x = bits_value(bits);
    let rest = bits_value(bits.drop_first());
    let b: nat = if bits[0] {
        1
    } else {
        0
    };
    assert(x == b + 2 * rest);
    lemma2_to64();
    if i == 0 {
        assert(x / 1 == x);
        assert((b + 2 * rest) % 2 == b) by (nonlinear_arith)
            requires
                b <= 1,
        ;
    } else {
        lemma_bits_value_bit(bits.drop_first(), (i - 1) as nat);
        lemma_pow2_unfold(i);
        lemma_pow2_pos((i - 1) as nat);
        assert((b + 2 * rest) / 2 == rest) by (nonlinear_arith)
            requires
                b <= 1,
        ;
        vstd::arithmetic::div_mod::lemma_div_denominator(x as int, 2, pow2((i - 1) as nat) as int);
        assert(2 * pow2((i - 1) as nat) == pow2(i));
        assert(bits.drop_first()[i - 1] == bits[i as int]);
    }
}

/// Reading back the low bits of a number built from `bits` gives `bits`.
pub proof fn lemma_bits_of_bits_value(bits: Seq<bool>)
    requires
        bits.len() <= 32,
    ensures
        bits_value(bits) < 0x1_0000_0000,
        bits_of(bits_value(bits) as u32, bits.len()) == bits,
{
    lemma_bits_value_bound(bits);
    lemma2_to64();
    if bits.len() < 32 {
        vstd::arithmetic::power2::lemma_pow2_strictly_increases(bits.len(), 32);
    }
    let x = bits_value(bits);
    assert forall|i: int| 0 <= i < bits.len() implies #[trigger] bits_of(x as u32, bits.len())[i] == bits[i] by {
        lemma_bits_value_bit(bits, i as nat);
    }
    assert(bits_of(x as u32, bits.len()) =~= bits);
}

/// Two values below `2^n` with the same low `n` bits are equal.
pub proof fn lemma_bits_of_injective(a: u32, b: u32, n: nat)
    requires
        a < pow2(n),
        b < pow2(n),
        bits_of(a, n) == bits_of(b, n),
    ensures
        a == b,
{
    lemma_bits_of_value(a, n);
    lemma_bits_of_value(b, n);
    vstd::arithmetic::div_mod::lemma_small_mod(a as nat, pow2(n));
    vstd::arithmetic::div_mod::lemma_small_mod(b as nat, pow2(n));
}

/// `n` zero bits.
pub open spec fn zero_bits(n: nat) -> Seq<bool> {
    Seq::new(n, |i: int| false)
}

/// The bits of `bytes`, each byte least significant bit first.
pub open spec fn unpacked_bits(bytes: Seq<u8>) -> Seq<bool> {
    Seq::new(8 * bytes.len(), |i: int| (bytes[i / 8] as nat / pow2((i % 8) as nat)) % 2 == 1)
}

/// Unpacking bytes one after another gives their bits one after another.
pub proof fn lemma_unpacked_concat(a: Seq<u8>, b: Seq<u8>)
    ensures
        unpacked_bits(a + b) == unpacked_bits(a) + unpacked_bits(b),
{
    let l = unpacked_bits(a + b);
    let r = unpacked_bits(a) + unpacked_bits(b);
    assert forall|i: int| 0 <= i < l.len() implies l[i] == r[i] by {
        if i >= 8 * a.len() {
            let k = i - 8 * a.len();
            assert(i / 8 == a.len() + k / 8) by (nonlinear_arith)
                requires
                    k == i - 8 * a.len(),
                    k >= 0,
            ;
            assert(i % 8 == k % 8) by (nonlinear_arith)
                requires
                    k == i - 8 * a.len(),
                    k >= 0,
            ;
        } else {
            assert(i / 8 < a.len()) by (nonlinear_arith)
                requires
                    0 <= i < 8 * a.len(),
            ;
        }
    }
    assert(l =~= r);
}

/// A zero byte unpacks to eight zero bits.
pub proof fn lemma_unpacked_zero_byte()
    ensures
        unpacked_bits(seq![0u8]) == zero_bits(8),
{
    let u = unpacked_bits(seq![0u8]);
    assert forall|i: int| 0 <= i < 8 implies u[i] == false by {
        lemma_pow2_pos((i % 8) as nat);
        assert(i / 8 == 0);
        vstd::arithmetic::div_mod::lemma_basic_div(0, pow2((i % 8) as nat) as int);
    }
    assert(u =~= zero_bits(8));
}

/// Packing then unpacking gives the bits back, padded with zeros to a
/// whole byte.
pub proof fn lemma_unpack_packed(bits: Seq<bool>)
    ensures
        unpacked_bits(packed_bytes(bits)).len() >= bits.len(),
        unpacked_bits(packed_bytes(bits)) == bits + zero_bits(
            (unpacked_bits(packed_bytes(bits)).len() - bits.len()) as nat,
        ),
{
    let p = packed_bytes(bits);
    let u = unpacked_bits(p);
    let n = bits.len() as int;
    assert(8 * ((n + 7) / 8) >= n) by (nonlinear_arith)
        requires
            n >= 0,
    ;
    let z = bits + zero_bits((u.len() - n) as nat);
    assert forall|i: int| 0 <= i < u.len() implies u[i] == z[i] by {
        let k = i / 8;
        let j = i % 8;
        assert(0 <= k < p.len() && i == 8 * k + j && 0 <= j < 8) by (nonlinear_arith)
            requires
                0 <= i < 8 * p.len(),
                k == i / 8,
                j == i % 8,
        ;
        let hi = if 8 * k + 8 <= n {
            8 * k + 8
        } else {
            n
        };
        assert(8 * k <= n) by (nonlinear_arith)
            requires
                p.len() == (n + 7) / 8,
                0 <= k < p.len(),
                n >= 0,
        ;
        let sub = bits.subrange(8 * k, hi);
        lemma_bits_value_bound(sub);
        lemma2_to64();
        if sub.len() < 8 {
            vstd::arithmetic::power2::lemma_pow2_strictly_increases(sub.len(), 8);
        }
        assert(p[k] as nat == bits_value(sub));
        if i < n {
            lemma_bits_value_bit(sub, j as nat);
            assert(sub[j] == bits[i]);
        } else {
            assert(j >= sub.len());
            if sub.len() < j {
                vstd::arithmetic::power2::lemma_pow2_strictly_increases(sub.len(), j as nat);
            }
            lemma_pow2_pos(j as nat);
            vstd::arithmetic::div_mod::lemma_basic_div(bits_value(sub) as int, pow2(j as nat) as int);
        }
    }
    assert(u =~= z);
}

/// Packs bits LSB-first into a byte stream, the order VP8L's bitstream
/// uses throughout (unlike PNG/DEFLATE's byte-aligned stored blocks, which
/// never needed a bit packer at all).
pub struct BitWriter {
    bytes: Vec<u8>,
    acc: u64,
    nbits: u32,
    bits: Ghost<Seq<bool>>,
}

impl BitWriter {
    /// Every bit written so far, in order.
    pub closed spec fn written(&self) -> Seq<bool> {
        self.bits@
    }

    /// Well-formedness: the full bytes are packed, the rest (fewer than
    /// eight bits) waits in the accumulator.
    pub closed spec fn wf(&self) -> bool {
        let b = self.bits@;
        &&& self.nbits < 8
        &&& self.bytes.len() * 8 + self.nbits == b.len()
        &&& self.acc == bits_value(b.subrange(8 * self.bytes.len(), b.len() as int))
        &&& forall|k: int|
            0 <= k < self.bytes.len() ==> #[trigger] self.bytes[k] == bits_value(
                b.subrange(8 * k, 8 * k + 8),
            ) as u8
    }

    pub fn new() -> (w: Self)
        ensures
            w.wf(),
            w.written() == Seq::<bool>::empty(),
    {
        let w = Self { bytes: Vec::new(), acc: 0, nbits: 0, bits: Ghost(Seq::empty()) };
        assert(w.bits@.subrange(0, 0) =~= Seq::<bool>::empty());
        w
    }

    /// Writes the low `n` bits of `value`, least-significant bit first.
    /// `n` may be 0..=32, and `value` must fit in `n` bits.
    pub fn write_bits(&mut self, value: u32, n: u32)
        requires
            old(self).wf(),
            n <= 32,
            n == 32 || value < pow2(n as nat),
        ensures
            final(self).wf(),
            final(self).written() == old(self).written() + bits_of(value, n as nat),
    {
        if n == 0 {
            assert(bits_of(value, 0) =~= Seq::<bool>::empty());
            assert(self.bits@ + bits_of(value, 0) =~= self.bits@);
            return;
        }
        let ghost old_bits = self.bits@;
        let ghost new_bits = bits_of(value, n as nat);
        proof {
            lemma_bits_of_value(value, n as nat);
            lemma2_to64();
            if n == 32 {
                assert(value < pow2(32));
            }
            vstd::arithmetic::div_mod::lemma_small_mod(value as nat, pow2(n as nat));
            assert(value as nat % pow2(n as nat) == value);
            let pending = old_bits.subrange(8 * self.bytes.len(), old_bits.len() as int);
            lemma_bits_value_bound(pending);
            assert(pending.len() == self.nbits);
            assert(pending + new_bits =~= (old_bits + new_bits).subrange(
                8 * self.bytes.len(),
                (old_bits + new_bits).len() as int,
            ));
            lemma_bits_value_concat(pending, new_bits);
        }
        let acc0 = self.acc;
        let nb = self.nbits;
        assert(acc0 < pow2(nb as nat));
        proof {
            let p = pow2(nb as nat);
            assert(nb < 8);
            assert(p == 1u64 << nb) by {
                if nb == 0 {} else if nb == 1 {} else if nb == 2 {} else if nb == 3 {} else if nb == 4 {} else if nb == 5 {} else if nb == 6 {} else {}
                assert(nb < 8 ==> (1u64 << nb) == (if nb == 0 { 1u64 } else if nb == 1 { 2u64 } else if nb == 2 { 4u64 } else if nb == 3 { 8u64 } else if nb == 4 { 16u64 } else if nb == 5 { 32u64 } else if nb == 6 { 64u64 } else { 128u64 })) by (bit_vector);
            }
            assert((acc0 | ((value as u64) << nb)) == acc0 + (value as u64) * (1u64 << nb)) by (bit_vector)
                requires
                    nb < 8,
                    acc0 < (1u64 << nb),
            ;
            assert((value as u64) * (1u64 << nb) < 0x100_0000_0000u64) by (bit_vector)
                requires
                    nb < 8,
            ;
            assert(p * value == (value as u64) * (1u64 << nb)) by (nonlinear_arith)
                requires
                    p == 1u64 << nb,
            ;
        }
        self.acc = acc0 | ((value as u64) << nb);
        self.nbits = nb + n;
        self.bits = Ghost(old_bits + new_bits);
        assert forall|k: int| 0 <= k < self.bytes.len() implies #[trigger] self.bytes[k] == bits_value(
            self.bits@.subrange(8 * k, 8 * k + 8),
        ) as u8 by {
            assert(self.bits@.subrange(8 * k, 8 * k + 8) =~= old_bits.subrange(8 * k, 8 * k + 8));
        }
        assert(self.acc == bits_value(
            self.bits@.subrange(8 * self.bytes.len(), self.bits@.len() as int),
        ));
        while self.nbits >= 8
            invariant
                self.nbits < 40,
                self.bits@ == old_bits + new_bits,
                self.bytes.len() * 8 + self.nbits == self.bits@.len(),
                self.acc == bits_value(
                    self.bits@.subrange(8 * self.bytes.len(), self.bits@.len() as int),
                ),
                forall|k: int|
                    0 <= k < self.bytes.len() ==> #[trigger] self.bytes[k] == bits_value(
                        self.bits@.subrange(8 * k, 8 * k + 8),
                    ) as u8,
            decreases self.nbits,
        {
            let ghost b = self.bits@;
            let ghost len0 = self.bytes.len();
            let ghost pending = b.subrange(8 * len0, b.len() as int);
            let ghost first = pending.take(8);
            let ghost rest = pending.skip(8);
            proof {
                assert(pending =~= first + rest);
                lemma_bits_value_concat(first, rest);
                lemma_bits_value_bound(first);
                lemma2_to64();
                assert(first =~= b.subrange(8 * len0, 8 * len0 + 8));
                assert(rest =~= b.subrange(8 * (len0 + 1), b.len() as int));
            }
            let acc = self.acc;
            proof {
                let f = bits_value(first);
                let r = bits_value(rest);
                assert(acc == f + 256 * r);
                assert(f < 256);
                assert(acc & 0xFF == acc % 256) by (bit_vector);
                assert(acc >> 8 == acc / 256) by (bit_vector);
                assert((f + 256 * r) % 256 == f) by (nonlinear_arith)
                    requires
                        f < 256,
                ;
                assert((f + 256 * r) / 256 == r) by (nonlinear_arith)
                    requires
                        f < 256,
                ;
            }
            self.bytes.push((acc & 0xFF) as u8);
            self.acc = acc >> 8;
            self.nbits = self.nbits - 8;
        }
    }

    /// Flushes any partial trailing byte (zero-padded in the high bits) and
    /// returns the packed bytes.
    pub fn finish(self) -> (bytes: Vec<u8>)
        requires
            self.wf(),
        ensures
            bytes@ == packed_bytes(self.written()),
    {
        let ghost b = self.bits@;
        let mut bytes = self.bytes;
        if self.nbits > 0 {
            let ghost k = bytes.len() as int;
            proof {
                let pending = b.subrange(8 * k, b.len() as int);
                lemma_bits_value_bound(pending);
                lemma2_to64();
                let acc = self.acc;
                assert(acc < 256);
                assert(acc & 0xFF == acc) by (bit_vector)
                    requires
                        acc < 256,
                ;
            }
            bytes.push((self.acc & 0xFF) as u8);
        }
        assert(bytes@ =~= packed_bytes(b));
        bytes
    }
}

} // verus!
