//! Big-endian bit streams: the first bit of a byte is its most significant one.
use vstd::arithmetic::div_mod::{lemma_div_denominator, lemma_fundamental_div_mod};
use vstd::arithmetic::power2::{lemma_pow2_pos, lemma_pow2_unfold, pow2};
use vstd::bits::lemma_u8_shr_is_div;
use vstd::prelude::*;

use crate::errors::VpkError;

verus! {

/// Bit `k` (0 is the most significant) of the `n`-bit form of `v`.
pub open spec fn nat_bits(v: nat, n: nat) -> Seq<bool> {
    Seq::new(n, |k: int| (v / pow2((n - 1 - k) as nat)) % 2 == 1)
}

/// Bit `i` of a byte stream, most significant bit of each byte first.
pub open spec fn stream_bit(data: Seq<u8>, i: int) -> bool {
    (data[i / 8] as nat / pow2((7 - i % 8) as nat)) % 2 == 1
}

/// All bits of a byte stream in reading order.
pub open spec fn stream_bits(data: Seq<u8>) -> Seq<bool> {
    Seq::new(8 * data.len(), |i: int| stream_bit(data, i))
}

/// Appending a low bit to a number appends it to its binary form.
pub proof fn lemma_nat_bits_push(v: nat, n: nat, b: bool)
    ensures
        nat_bits(2 * v + (if b { 1nat } else { 0nat }), n + 1) =~= nat_bits(v, n).push(b),
{
    let w: nat = 2 * v + (if b { 1nat } else { 0nat });
    assert forall|k: int| 0 <= k < n implies #[trigger] nat_bits(w, n + 1)[k] == nat_bits(
        v,
        n,
    )[k] by {
        let p = pow2((n - 1 - k) as nat);
        lemma_pow2_unfold((n - k) as nat);
        lemma_pow2_pos((n - 1 - k) as nat);
        lemma_div_denominator(w as int, 2, p as int);
        assert(w as int / 2 == v) by {
            lemma_fundamental_div_mod(w as int, 2);
        }
    }
    assert(nat_bits(w, n + 1)[n as int] == b) by {
        vstd::arithmetic::power2::lemma2_to64();
        lemma_fundamental_div_mod(w as int, 2);
    }
}

/// The binary form of a number below `2^n` fits in `n` bits.
pub proof fn lemma_bits_bound(v: nat, n: nat, b: bool)
    requires
        v < pow2(n),
    ensures
        2 * v + (if b { 1nat } else { 0nat }) < pow2(n + 1),
{
    lemma_pow2_unfold(n + 1);
}

/// Reads bits, most significant first, from a byte buffer.
pub struct BitReader {
    data: Vec<u8>,
    byte: usize,
    bit: usize,
}

impl BitReader {
    /// The bytes being read.
    pub closed spec fn data(&self) -> Seq<u8> {
        self.data@
    }

    /// The number of bits consumed so far.
    pub closed spec fn pos(&self) -> nat {
        (8 * self.byte + self.bit) as nat
    }

    pub closed spec fn wf(&self) -> bool {
        &&& self.bit < 8
        &&& self.pos() <= 8 * self.data@.len()
    }

    pub fn new(data: Vec<u8>) -> (r: Self)
        ensures
            r.wf(),
            r.data() == data@,
            r.pos() == 0,
    {
        BitReader { data, byte: 0, bit: 0 }
    }

    /// A reader that starts at byte `byte` of `data`.
    pub fn new_at(data: Vec<u8>, byte: usize) -> (r: Self)
        requires
            byte <= data@.len(),
        ensures
            r.wf(),
            r.data() == data@,
            r.pos() == 8 * byte,
    {
        BitReader { data, byte, bit: 0 }
    }

    /// Whether at least `n` bits are left.
    pub fn has_bits(&self, n: u32) -> (r: bool)
        requires
            self.wf(),
            n <= 32,
        ensures
            r == (self.pos() + n <= 8 * self.data().len()),
    {
        let avail = self.data.len() - self.byte;
        assert(self.pos() + n <= 8 * self.data().len() <==> n + self.bit <= 8 * (avail as int));
        if avail >= 5 {
            true
        } else {
            (n as u64) + (self.bit as u64) <= 8 * (avail as u64)
        }
    }

    /// Reads one bit; fails with `Io` at the end of the data.
    pub fn read_bit(&mut self) -> (r: Result<bool, VpkError>)
        requires
            old(self).wf(),
        ensures
            final(self).wf(),
            final(self).data() == old(self).data(),
            old(self).pos() < 8 * old(self).data().len() ==> r == Ok::<bool, VpkError>(
                stream_bit(old(self).data(), old(self).pos() as int),
            ) && final(self).pos() == old(self).pos() + 1,
            old(self).pos() >= 8 * old(self).data().len() ==> r == Err::<bool, VpkError>(
                VpkError::Io,
            ),
    {
        if self.byte >= self.data.len() {
            return Err(VpkError::Io);
        }
        let b = self.data[self.byte];
        let shift = (7 - self.bit) as u8;
        proof {
            lemma_u8_shr_is_div(b, shift);
            let i = self.pos() as int;
            assert(i / 8 == self.byte as int && i % 8 == self.bit as int);
        }
        let v = (b >> shift) % 2 == 1;
        if self.bit == 7 {
            self.bit = 0;
            self.byte = self.byte + 1;
        } else {
            self.bit = self.bit + 1;
        }
        Ok(v)
    }

    /// Reads `n` bits as an unsigned number, most significant bit first.
    #[verifier::rlimit(100)]
    pub fn read_bits(&mut self, n: u32) -> (r: Result<u32, VpkError>)
        requires
            old(self).wf(),
            n <= 32,
        ensures
            final(self).wf(),
            final(self).data() == old(self).data(),
            old(self).pos() + n <= 8 * old(self).data().len() ==> ({
                &&& r is Ok
                &&& (r->Ok_0 as nat) < pow2(n as nat)
                &&& nat_bits(r->Ok_0 as nat, n as nat) == stream_bits(old(self).data()).subrange(
                    old(self).pos() as int,
                    old(self).pos() + n,
                )
                &&& final(self).pos() == old(self).pos() + n
            }),
            old(self).pos() + n > 8 * old(self).data().len() ==> r == Err::<u32, VpkError>(
                VpkError::Io,
            ),
    {
        let ghost start = self.pos();
        let ghost all = stream_bits(self.data());
        if !self.has_bits(n) {
            return Err(VpkError::Io);
        }
        let mut v: u32 = 0;
        let mut i: u32 = 0;
        proof {
            vstd::arithmetic::power2::lemma2_to64();
            assert(nat_bits(0, 0) =~= all.subrange(start as int, start as int));
        }
        while i < n
            invariant
                self.wf(),
                self.data() == old(self).data(),
                all == stream_bits(self.data()),
                i <= n <= 32,
                start + n <= 8 * self.data().len(),
                self.pos() == start + i,
                v < pow2(i as nat),
                nat_bits(v as nat, i as nat) == all.subrange(start as int, start + i),
            decreases n - i,
        {
            let ghost p = self.pos();
            let b = match self.read_bit() {
                Ok(b) => b,
                Err(e) => {
                    return Err(e);
                },
            };
            proof {
                lemma_nat_bits_push(v as nat, i as nat, b);
                lemma_bits_bound(v as nat, i as nat, b);
                vstd::arithmetic::power2::lemma2_to64();
                if i < 31 {
                    vstd::arithmetic::power2::lemma_pow2_strictly_increases(i as nat, 31);
                }
                if i + 1 < 32 {
                    vstd::arithmetic::power2::lemma_pow2_strictly_increases((i + 1) as nat, 32);
                }
                assert(all.subrange(start as int, start + i + 1) =~= all.subrange(
                    start as int,
                    start + i,
                ).push(all[p as int]));
            }
            v = 2 * v + if b { 1u32 } else { 0u32 };
            i = i + 1;
        }
        Ok(v)
    }
}

/// Writes bits, most significant first, into a growing byte buffer.
pub struct BitWriter {
    out: Vec<u8>,
    cur: u8,
    filled: u8,
}

impl BitWriter {
    pub closed spec fn wf(&self) -> bool {
        &&& self.filled < 8
        &&& (self.cur as nat) < pow2(self.filled as nat)
    }

    /// Every bit written so far, in order.
    pub closed spec fn written(&self) -> Seq<bool> {
        stream_bits(self.out@) + nat_bits(self.cur as nat, self.filled as nat)
    }

    pub fn new() -> (r: Self)
        ensures
            r.wf(),
            r.written() == Seq::<bool>::empty(),
    {
        proof {
            vstd::arithmetic::power2::lemma2_to64();
        }
        let r = BitWriter { out: Vec::new(), cur: 0, filled: 0 };
        assert(r.written() =~= Seq::<bool>::empty());
        r
    }

    /// The number of bits written since the last byte boundary.
    pub closed spec fn pending(&self) -> nat {
        self.filled as nat
    }

    #[verifier::rlimit(100)]
    pub fn write_bit(&mut self, b: bool)
        requires
            old(self).wf(),
        ensures
            final(self).wf(),
            final(self).pending() == (old(self).pending() + 1) % 8,
            final(self).written() == old(self).written().push(b),
    {
        proof {
            lemma_nat_bits_push(self.cur as nat, self.filled as nat, b);
            lemma_bits_bound(self.cur as nat, self.filled as nat, b);
            vstd::arithmetic::power2::lemma2_to64();
            if self.filled + 1 < 8 {
                vstd::arithmetic::power2::lemma_pow2_strictly_increases(
                    (self.filled + 1) as nat,
                    8,
                );
            }
        }
        let ghost before = self.written();
        self.cur = 2 * self.cur + if b { 1u8 } else { 0u8 };
        self.filled = self.filled + 1;
        assert(self.written() =~= before.push(b)) by {
            assert(stream_bits(self.out@) + nat_bits(self.cur as nat, self.filled as nat)
                =~= (stream_bits(self.out@) + nat_bits(old(self).cur as nat, old(self).filled as nat)).push(b));
        }
        if self.filled == 8 {
            let ghost o = self.out@;
            self.out.push(self.cur);
            assert(stream_bits(self.out@) =~= stream_bits(o) + nat_bits(self.cur as nat, 8)) by {
                assert forall|i: int| 8 * o.len() <= i < 8 * o.len() + 8 implies #[trigger] (i / 8) == o.len() && i % 8 == i - 8 * o.len() by {}
                assert forall|i: int| 0 <= i < 8 * o.len() implies #[trigger] (i / 8) < o.len() by {}
            }
            self.cur = 0;
            self.filled = 0;
            assert(nat_bits(0, 0) =~= Seq::<bool>::empty());
            assert(self.written() =~= before.push(b));
        }
    }

    /// Writes the low `n` bits of `v`, most significant first.
    pub fn write_bits(&mut self, n: u32, v: u32)
        requires
            old(self).wf(),
            n <= 32,
            (v as nat) < pow2(n as nat),
        ensures
            final(self).wf(),
            final(self).written() == old(self).written() + nat_bits(v as nat, n as nat),
    {
        let mut i: u32 = 0;
        proof {
            vstd::arithmetic::power2::lemma2_to64();
        }
        assert(old(self).written() =~= old(self).written() + nat_bits(v as nat, 0));
        while i < n
            invariant
                self.wf(),
                i <= n <= 32,
                (v as nat) < pow2(n as nat),
                self.written() == old(self).written() + nat_bits(v as nat, n as nat).subrange(
                    0,
                    i as int,
                ),
            decreases n - i,
        {
            let shift = n - 1 - i;
            proof {
                vstd::bits::lemma_u32_shr_is_div(v, shift);
            }
            let b = (v >> shift) % 2 == 1;
            let ghost before = self.written();
            self.write_bit(b);
            i = i + 1;
            assert(nat_bits(v as nat, n as nat).subrange(0, i as int) =~= nat_bits(
                v as nat,
                n as nat,
            ).subrange(0, i - 1).push(b));
        }
        assert(nat_bits(v as nat, n as nat).subrange(0, n as int) =~= nat_bits(v as nat, n as nat));
    }

    /// Pads with zero bits up to a byte boundary and hands back the bytes.
    #[verifier::rlimit(100)]
    pub fn finish(self) -> (r: Vec<u8>)
        requires
            self.wf(),
        ensures
            self.written().len() <= stream_bits(r@).len() < self.written().len() + 8,
            stream_bits(r@).subrange(0, self.written().len() as int) == self.written(),
            forall|i: int|
                self.written().len() <= i < stream_bits(r@).len() ==> !stream_bits(r@)[i],
    {
        let mut w = self;
        let ghost start = w.written();
        let ghost f0 = w.filled as int;
        let ghost pad: Seq<bool> = Seq::empty();
        while w.filled != 0
            invariant
                w.wf(),
                w.written() == start + pad,
                forall|i: int| 0 <= i < pad.len() ==> !pad[i],
                0 <= f0 < 8,
                f0 + pad.len() <= 8,
                f0 == 0 ==> pad.len() == 0,
                w.filled as int == (f0 + pad.len()) % 8,
            decreases 8 - f0 - pad.len(),
        {
            w.write_bit(false);
            proof {
                pad = pad.push(false);
            }
            assert(w.written() =~= start + pad);
        }
        assert(w.written() =~= stream_bits(w.out@)) by {
            assert(nat_bits(w.cur as nat, 0) =~= Seq::<bool>::empty());
        }
        assert(stream_bits(w.out@).subrange(0, start.len() as int) =~= start);
        w.out
    }
}

} // verus!
