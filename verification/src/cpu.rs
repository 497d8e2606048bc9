//! The hash state and its per-character forward step.
//!
//! One step feeds an 8-bit character code through a CRC-like per-bit
//! feedback rule on the pair `(f4, f5)`, then updates five accumulator
//! bytes: a carry-chained pair of sums `(f7, f8)`, a running XOR `f9`, a
//! rotate-and-add accumulator `fa`, and a popcount accumulator `fb`.

use vstd::prelude::*;

verus! {

/// One bit of a byte.
pub open spec fn u8_bit(v: u8, i: u8) -> bool {
    (v >> i) & 1 == 1
}

/// Number of set bits in a byte.
pub open spec fn spec_pop_count(v: u8) -> u8 {
    ((v & 1) + ((v >> 1) & 1) + ((v >> 2) & 1) + ((v >> 3) & 1) + ((v >> 4) & 1) + ((v >> 5)
        & 1) + ((v >> 6) & 1) + ((v >> 7) & 1)) as u8
}

/// The `f4` output of one round of the feedback rule: `f4` rotates right,
/// taking the input bit into its top; when the bit shifted out of `f5` is
/// set, the polynomial byte 0x84 is XORed in.
pub open spec fn crc_round_f4(f4: u8, f5: u8, abit: bool) -> u8 {
    ((f4 >> 1) | (if abit {
        0x80u8
    } else {
        0u8
    })) ^ (if f5 & 1 == 1 {
        0x84u8
    } else {
        0u8
    })
}

/// The `f5` output of one round: `f5` rotates right, taking the bit shifted
/// out of `f4` into its top; when the bit shifted out of `f5` is set, the
/// polynomial byte 0x08 is XORed in.
pub open spec fn crc_round_f5(f4: u8, f5: u8) -> u8 {
    ((f5 >> 1) | ((f4 & 1) << 7)) ^ (if f5 & 1 == 1 {
        0x08u8
    } else {
        0u8
    })
}

/// `n` rounds of the feedback rule on input byte `a`, most significant bit
/// first.  Returns `(f4, f5, carry)`; the carry is the bit shifted out of
/// `f5` by the last round, 0 when no round has run.
pub open spec fn crc_rounds(f4: u8, f5: u8, a: u8, n: nat) -> (u8, u8, u8)
    decreases n,
{
    if n == 0 {
        (f4, f5, 0u8)
    } else {
        let prev = crc_rounds(f4, f5, a, (n - 1) as nat);
        let abit = u8_bit(a, (8 - n) as u8);
        (crc_round_f4(prev.0, prev.1, abit), crc_round_f5(prev.0, prev.1), prev.1 & 1)
    }
}

/// The full 8-round feedback update of `(f4, f5)` by input byte `a`.
pub open spec fn spec_crc(f4: u8, f5: u8, a: u8) -> (u8, u8, u8) {
    crc_rounds(f4, f5, a, 8)
}

/// The inverse of one feedback round, given the round's input bit.  The
/// feedback flag is recovered from the top bit of `g4`, which the forward
/// round set to the input bit XOR the feedback.
pub open spec fn crc_round_inv(g4: u8, g5: u8, abit: bool) -> (u8, u8) {
    let fb = u8_bit(g4, 7) != abit;
    let u4 = g4 ^ (if fb {
        0x84u8
    } else {
        0u8
    });
    let u5 = g5 ^ (if fb {
        0x08u8
    } else {
        0u8
    });
    ((u4 << 1) | ((u5 >> 7) & 1), (u5 << 1) | (if fb {
        1u8
    } else {
        0u8
    }))
}

/// Undoes the last `n` of the 8 rounds of an update by input byte `a`:
/// round 8 consumed bit 0, so the bits are replayed from the low end up.
pub open spec fn crc_inv_rounds(g4: u8, g5: u8, a: u8, n: nat) -> (u8, u8)
    decreases n,
{
    if n == 0 {
        (g4, g5)
    } else {
        let s = crc_round_inv(g4, g5, u8_bit(a, (8 - n) as u8));
        crc_inv_rounds(s.0, s.1, a, (n - 1) as nat)
    }
}

/// The full 8-round inverse update.
pub open spec fn spec_crc_inv(g4: u8, g5: u8, a: u8) -> (u8, u8) {
    crc_inv_rounds(g4, g5, a, 8)
}

/// The `f4` entry of the 256-entry table: the `f4` output of the 8 rounds
/// started from `(0, f5)` on input 0.
pub open spec fn spec_tab4(f5: u8) -> u8 {
    spec_crc(0, f5, 0).0
}

/// The `f5` entry of the table.
pub open spec fn spec_tab5(f5: u8) -> u8 {
    spec_crc(0, f5, 0).1
}

/// The carry entry of the table.
pub open spec fn spec_tab_carry(f5: u8) -> u8 {
    spec_crc(0, f5, 0).2
}

/// Right shift that gives 0 at or beyond the width.
pub open spec fn shr8(x: u8, n: u8) -> u8 {
    if n == 0 {
        x
    } else if n < 8 {
        x >> n
    } else {
        0
    }
}

/// Left shift that gives 0 at or beyond the width.
pub open spec fn shl8(x: u8, n: u8) -> u8 {
    if n == 0 {
        x
    } else if n < 8 {
        x << n
    } else {
        0
    }
}

/// XOR identities the proofs below lean on.
pub proof fn lemma_xor_cancel()
    by (bit_vector)
    ensures
        forall|x: u8, y: u8| #[trigger] (x ^ y ^ y) == x,
        forall|x: u8| #[trigger] (x ^ 0) == x,
        forall|x: u8| #[trigger] (0 ^ x) == x,
        forall|x: u8| #[trigger] (x ^ x) == 0,
        forall|x: u8, y: u8| #[trigger] (x ^ y) == (y ^ x),
{
}

/// Undoing a feedback round with the round's input bit restores the state.
proof fn lemma_round_inv(f4: u8, f5: u8, abit: bool)
    ensures
        crc_round_inv(crc_round_f4(f4, f5, abit), crc_round_f5(f4, f5), abit) == (f4, f5),
{
    assert(crc_round_inv(crc_round_f4(f4, f5, abit), crc_round_f5(f4, f5), abit).0 == f4
        && crc_round_inv(crc_round_f4(f4, f5, abit), crc_round_f5(f4, f5), abit).1 == f5)
        by (bit_vector);
}

/// Redoing a feedback round after undoing it restores the state.
proof fn lemma_round_fwd(g4: u8, g5: u8, abit: bool)
    ensures
        crc_round_f4(crc_round_inv(g4, g5, abit).0, crc_round_inv(g4, g5, abit).1, abit) == g4,
        crc_round_f5(crc_round_inv(g4, g5, abit).0, crc_round_inv(g4, g5, abit).1) == g5,
{
    assert(crc_round_f4(crc_round_inv(g4, g5, abit).0, crc_round_inv(g4, g5, abit).1, abit) == g4
        && crc_round_f5(crc_round_inv(g4, g5, abit).0, crc_round_inv(g4, g5, abit).1) == g5)
        by (bit_vector);
}

/// The inverse rounds undo the forward rounds.
pub proof fn lemma_crc_inv_cancel(f4: u8, f5: u8, a: u8, n: nat)
    requires
        n <= 8,
    ensures
        crc_inv_rounds(crc_rounds(f4, f5, a, n).0, crc_rounds(f4, f5, a, n).1, a, n) == (f4, f5),
    decreases n,
{
    if n > 0 {
        let prev = crc_rounds(f4, f5, a, (n - 1) as nat);
        lemma_round_inv(prev.0, prev.1, u8_bit(a, (8 - n) as u8));
        lemma_crc_inv_cancel(f4, f5, a, (n - 1) as nat);
    }
}

/// The forward rounds undo the inverse rounds.
pub proof fn lemma_crc_fwd_cancel(g4: u8, g5: u8, a: u8, n: nat)
    requires
        n <= 8,
    ensures
        crc_rounds(crc_inv_rounds(g4, g5, a, n).0, crc_inv_rounds(g4, g5, a, n).1, a, n).0 == g4,
        crc_rounds(crc_inv_rounds(g4, g5, a, n).0, crc_inv_rounds(g4, g5, a, n).1, a, n).1 == g5,
    decreases n,
{
    if n > 0 {
        let s = crc_round_inv(g4, g5, u8_bit(a, (8 - n) as u8));
        lemma_crc_fwd_cancel(s.0, s.1, a, (n - 1) as nat);
        lemma_round_fwd(g4, g5, u8_bit(a, (8 - n) as u8));
    }
}

/// After `n` rounds, the starting `f4` has shifted `n` places down and the
/// first `n` input bits sit reversed at the top; the feedback trail
/// depends on `f5` alone, so it equals the trail of the table run
/// `(0, f5, 0)`.
proof fn lemma_crc_decomposition_rounds(f4: u8, f5: u8, a: u8, n: nat)
    requires
        n <= 8,
    ensures
        crc_rounds(f4, f5, a, n).0 == crc_rounds(0, f5, 0, n).0 ^ shr8(f4, n as u8) ^ shl8(
            spec_bit_reverse(a),
            (8 - n) as u8,
        ),
        crc_rounds(f4, f5, a, n).1 == crc_rounds(0, f5, 0, n).1 ^ shl8(f4, (8 - n) as u8),
        crc_rounds(f4, f5, a, n).2 == crc_rounds(0, f5, 0, n).2,
    decreases n,
{
    lemma_xor_cancel();
    if n == 0 {
        assert(shr8(f4, 0) == f4 && shl8(spec_bit_reverse(a), 8) == 0 && shl8(f4, 8) == 0);
    } else {
        lemma_crc_decomposition_rounds(f4, f5, a, (n - 1) as nat);
        let p = crc_rounds(f4, f5, a, (n - 1) as nat);
        let g = crc_rounds(0, f5, 0, (n - 1) as nat);
        let nn: u8 = n as u8;
        let ra = spec_bit_reverse(a);
        let abit = u8_bit(a, (8 - n) as u8);
        let p0 = p.0;
        let p1 = p.1;
        let g0 = g.0;
        let g1 = g.1;
        assert(!u8_bit(0u8, (8 - nn) as u8)) by (bit_vector);
        assert(crc_round_f4(p0, p1, abit) == crc_round_f4(g0, g1, false) ^ shr8(f4, nn) ^ shl8(
            ra,
            (8 - nn) as u8,
        ) && crc_round_f5(p0, p1) == crc_round_f5(g0, g1) ^ shl8(f4, (8 - nn) as u8) && (p1 & 1)
            == (g1 & 1)) by (bit_vector)
            requires
                1 <= nn <= 8,
                p0 == g0 ^ shr8(f4, (nn - 1) as u8) ^ shl8(ra, (9 - nn) as u8),
                p1 == g1 ^ shl8(f4, (9 - nn) as u8),
                ra == spec_bit_reverse(a),
                abit == u8_bit(a, (8 - nn) as u8),
        ;
    }
}


/// The branch-free carry mask of a three-way byte sum, as a lane of a
/// fan-out computes it: the majority-style expression
/// `(a & b) | ((a | b) & !sum)` has its top bit set exactly when the
/// sum of the top bits carried out.
pub open spec fn spec_lane_carry(a: u8, b: u8, cin: u8) -> u8 {
    ((a & b) | ((a | b) & !(((a + b + cin) % 256) as u8))) & 0x80
}

/// The lane formula computes the true carry: its masked top bit is set
/// exactly when `a + b + cin` overflows a byte.  This justifies carrying
/// the fan-out's add-with-carry without branches, one byte lane at a
/// time.
pub proof fn lemma_lane_carry(a: u8, b: u8, cin: u8)
    requires
        cin <= 1,
    ensures
        spec_lane_carry(a, b, cin) == (if a + b + cin >= 256 {
            0x80u8
        } else {
            0u8
        }),
{
    assert(((a & b) | ((a | b) & !(((a + b + cin) % 256) as u8))) & 0x80 == (if a + b + cin >= 256 {
        0x80u8
    } else {
        0u8
    })) by (bit_vector)
        requires
            cin <= 1,
    ;
}

/// The table form of the 8-round update: the `f4` output is the reversed
/// input XOR a function of `f5` alone; the `f5` output is the old `f4`
/// XOR a second function of `f5`; the carry out depends on `f5` alone.
/// This is why one 256-entry table indexed by `f5` can replace the
/// per-bit loop, for the scalar step and for every lane of a fan-out.
pub proof fn lemma_crc_decomposition(f4: u8, f5: u8, a: u8)
    ensures
        spec_crc(f4, f5, a).0 == spec_bit_reverse(a) ^ spec_tab4(f5),
        spec_crc(f4, f5, a).1 == f4 ^ spec_tab5(f5),
        spec_crc(f4, f5, a).2 == spec_tab_carry(f5),
{
    lemma_xor_cancel();
    lemma_crc_decomposition_rounds(f4, f5, a, 8);
    assert(shr8(f4, 8) == 0 && shl8(spec_bit_reverse(a), 0) == spec_bit_reverse(a) && shl8(f4, 0)
        == f4);
}

/// The table's `f4` entries are pairwise distinct.
pub proof fn lemma_tab4_injective(x: u8, y: u8)
    requires
        spec_tab4(x) == spec_tab4(y),
    ensures
        x == y,
{
    lemma_xor_cancel();
    let f = spec_tab5(x) ^ spec_tab5(y);
    lemma_crc_decomposition(f, y, 0);
    lemma_crc_decomposition(0, x, 0);
    // Both runs end at the same pair, and the inverse rounds recover the
    // distinct starting pairs, so the starting pairs agree.
    assert(spec_crc(f, y, 0).0 == spec_crc(0, x, 0).0);
    assert((spec_tab5(x) ^ spec_tab5(y)) ^ spec_tab5(y) == spec_tab5(x));
    assert(spec_crc(f, y, 0).1 == spec_crc(0, x, 0).1);
    lemma_crc_inv_cancel(f, y, 0, 8);
    lemma_crc_inv_cancel(0, x, 0, 8);
}

/// The 7-byte hash state.
#[derive(Clone, Copy, PartialEq, Eq, Structural, Hash, Debug)]
pub struct Memory {
    pub f4: u8,
    pub f5: u8,
    /// sum of the input bytes, plus one per step whose new `f4` is at least 0xE5
    pub f7: u8,
    /// sum of the `f5` values, plus the carries out of `f7`
    pub f8: u8,
    /// XOR of the input bytes
    pub f9: u8,
    /// rotate right through carry, then add the input byte
    pub fa: u8,
    /// sum of the popcounts of the input bytes, plus the carries out of `fa`
    pub fb: u8,
}

/// The state every hash computation starts from.  `fa = 1` is load-bearing:
/// the first rotation feeds that bit into the low end of `fa`.
pub open spec fn spec_initial() -> Memory {
    Memory { f4: 0, f5: 0, f7: 0, f8: 0, f9: 0, fa: 1, fb: 0 }
}

/// One forward step of the hash on input byte `a`.
pub open spec fn spec_forward(m: Memory, a: u8) -> Memory {
    let crc = spec_crc(m.f4, m.f5, a);
    let c1: int = if crc.0 >= 0xE5 {
        1
    } else {
        0
    };
    let s7: int = a + m.f7 + c1;
    let c2: int = if s7 >= 256 {
        1
    } else {
        0
    };
    let s8: int = m.f8 + crc.1 + c2;
    let c3: int = if s8 >= 256 {
        1
    } else {
        0
    };
    let rotfa: u8 = (m.fa >> 1) | (if c3 == 1 {
        0x80u8
    } else {
        0u8
    });
    let sa: int = rotfa + a + (m.fa & 1);
    let c4: int = if sa >= 256 {
        1
    } else {
        0
    };
    let sb: int = m.fb + spec_pop_count(a) + c4;
    Memory {
        f4: crc.0,
        f5: crc.1,
        f7: (s7 % 256) as u8,
        f8: (s8 % 256) as u8,
        f9: m.f9 ^ a,
        fa: (sa % 256) as u8,
        fb: (sb % 256) as u8,
    }
}

/// The hash state after feeding the bytes of `s`, in order, from `m`.
pub open spec fn spec_forward_seq(m: Memory, s: Seq<u8>) -> Memory
    decreases s.len(),
{
    if s.len() == 0 {
        m
    } else {
        spec_forward_seq(spec_forward(m, s[0]), s.drop_first())
    }
}

impl Memory {
    /// The initial hash state.
    pub fn new() -> (m: Self)
        ensures
            m == spec_initial(),
    {
        Self { f4: 0, f5: 0, f7: 0, f8: 0, f9: 0, fa: 1, fb: 0 }
    }

    /// The popcount accumulator.
    pub fn bit(&self) -> (r: u8)
        ensures
            r == self.fb,
    {
        self.fb
    }
}

impl Default for Memory {
    fn default() -> (m: Self)
        ensures
            m == spec_initial(),
    {
        Self::new()
    }
}

/// The two 6502 registers the checksum routine touches.
#[derive(Clone, Copy, PartialEq, Eq, Structural, Debug)]
pub struct Register {
    pub a: u8,
    pub c: u8,
}

/// A 6502 accumulator-and-carry pair.
#[derive(Clone, Copy, PartialEq, Eq, Structural, Debug)]
pub struct Cpu {
    pub reg: Register,
}

impl Cpu {
    pub fn set_carry(&mut self, c: u8)
        ensures
            final(self).reg.c == c,
            final(self).reg.a == old(self).reg.a,
    {
        self.reg.c = c;
    }

    /// A 9-bit rotation right through the carry flag.
    pub fn ror(&mut self, v: u8) -> (r: u8)
        requires
            old(self).reg.c <= 1,
        ensures
            r == (v >> 1) | (old(self).reg.c << 7),
            final(self).reg.c == v & 1,
            final(self).reg.a == old(self).reg.a,
    {
        let c = self.reg.c;
        self.reg.c = v & 0x01;
        v >> 1 | c << 7
    }

    /// Add with carry; the carry flag takes the carry out of the sum.
    pub fn adc(&mut self, lhs: u8, rhs: u8) -> (r: u8)
        requires
            old(self).reg.c <= 1,
        ensures
            r as int == (lhs + rhs + old(self).reg.c) % 256,
            final(self).reg.c == if lhs + rhs + old(self).reg.c >= 256 {
                1u8
            } else {
                0u8
            },
            final(self).reg.a == old(self).reg.a,
    {
        let lhs16 = lhs as u16;
        let rhs16 = rhs as u16;
        let c16 = self.reg.c as u16;
        let v: u16 = lhs16 + rhs16 + c16;
        self.reg.c = if v > 0xFF {
            1
        } else {
            0
        };
        proof {
            assert(v < 512 ==> (v & 0xFF) == v % 256) by (bit_vector);
        }
        (v & 0xFF) as u8
    }

    pub fn get_carry(&self) -> (r: u8)
        ensures
            r == self.reg.c,
    {
        self.reg.c
    }
}

/// The byte with the bits of `v` in the opposite order.
pub open spec fn spec_bit_reverse(v: u8) -> u8 {
    let v1 = ((v & 0x55) << 1) | ((v >> 1) & 0x55);
    let v2 = ((v1 & 0x33) << 2) | ((v1 >> 2) & 0x33);
    ((v2 & 0x0f) << 4) | ((v2 >> 4) & 0x0f)
}

/// Reverses the bit order of a byte.
pub fn bit_reverse(v: u8) -> (r: u8)
    ensures
        r == spec_bit_reverse(v),
{
    let v = (v & 0x55) << 1 | (v >> 1 & 0x55);
    let v = (v & 0x33) << 2 | (v >> 2 & 0x33);
    (v & 0x0f) << 4 | (v >> 4 & 0x0f)
}

/// Bit `i` of the reversed byte is bit `7 - i` of the input.
pub proof fn lemma_bit_reverse_bits()
    by (bit_vector)
    ensures
        forall|v: u8, i: u8|
            i < 8 ==> (#[trigger] u8_bit(spec_bit_reverse(v), i)) == u8_bit(v, (7 - i) as u8),
{
}

/// Reversing the bits of a byte twice gives the byte back.
pub proof fn lemma_bit_reverse_involution()
    by (bit_vector)
    ensures
        forall|v: u8| #[trigger] spec_bit_reverse(spec_bit_reverse(v)) == v,
{
}

/// Bit reversal distributes over XOR.
pub proof fn lemma_bit_reverse_xor()
    by (bit_vector)
    ensures
        forall|x: u8, y: u8|
            #[trigger] spec_bit_reverse(x ^ y) == spec_bit_reverse(x) ^ spec_bit_reverse(y),
{
}

/// The 8-round feedback update of `(f4, f5)` and the carry flag by the
/// input byte in `cpu.reg.a`, one rotation per input bit, high bit first.
pub fn calc_f4_f5(cpu: &mut Cpu, memory: &mut Memory)
    ensures
        final(memory).f4 == spec_crc(old(memory).f4, old(memory).f5, old(cpu).reg.a).0,
        final(memory).f5 == spec_crc(old(memory).f4, old(memory).f5, old(cpu).reg.a).1,
        final(cpu).reg.c == spec_crc(old(memory).f4, old(memory).f5, old(cpu).reg.a).2,
        final(cpu).reg.a == old(cpu).reg.a,
        final(memory).f7 == old(memory).f7,
        final(memory).f8 == old(memory).f8,
        final(memory).f9 == old(memory).f9,
        final(memory).fa == old(memory).fa,
        final(memory).fb == old(memory).fb,
{
    let a = cpu.reg.a;
    let ghost m0 = *memory;
    for j in 0..8u8
        invariant
            cpu.reg.a == a,
            memory.f4 == crc_rounds(m0.f4, m0.f5, a, j as nat).0,
            memory.f5 == crc_rounds(m0.f4, m0.f5, a, j as nat).1,
            j > 0 ==> cpu.reg.c == crc_rounds(m0.f4, m0.f5, a, j as nat).2,
            memory.f7 == m0.f7,
            memory.f8 == m0.f8,
            memory.f9 == m0.f9,
            memory.fa == m0.fa,
            memory.fb == m0.fb,
    {
        let sh: u8 = 7 - j;
        let abit = (a >> sh) & 1;
        let carry_out = memory.f5 & 1;
        let new_f4 = ((memory.f4 >> 1) | (abit << 7)) ^ (if carry_out == 1 {
            0x84u8
        } else {
            0u8
        });
        let new_f5 = ((memory.f5 >> 1) | ((memory.f4 & 1) << 7)) ^ (if carry_out == 1 {
            0x08u8
        } else {
            0u8
        });
        proof {
            assert((abit << 7) == if u8_bit(a, sh) {
                0x80u8
            } else {
                0u8
            }) by (bit_vector)
                requires
                    abit == (a >> sh) & 1,
                    sh < 8,
            ;
            assert(u8_bit(a, (8 - (j + 1) as nat) as u8) == u8_bit(a, sh));
        }
        memory.f4 = new_f4;
        memory.f5 = new_f5;
        cpu.set_carry(carry_out);
    }
}

/// Updates the carry-chained sums: `f7` takes the input byte plus 1 when
/// the new `f4` is at least 0xE5; `f8` takes the new `f5` plus the carry
/// out of `f7`.  The carry flag is left holding the carry out of `f8`.
pub fn calc_f7_f8(cpu: &mut Cpu, memory: &mut Memory)
    ensures
        ({
            let c1: int = if old(memory).f4 >= 0xE5 {
                1
            } else {
                0
            };
            let s7: int = old(cpu).reg.a + old(memory).f7 + c1;
            let c2: int = if s7 >= 256 {
                1
            } else {
                0
            };
            let s8: int = old(memory).f8 + old(memory).f5 + c2;
            &&& final(memory).f7 as int == s7 % 256
            &&& final(memory).f8 as int == s8 % 256
            &&& final(cpu).reg.c == if s8 >= 256 {
                1u8
            } else {
                0u8
            }
        }),
        final(cpu).reg.a == old(cpu).reg.a,
        final(memory).f4 == old(memory).f4,
        final(memory).f5 == old(memory).f5,
        final(memory).f9 == old(memory).f9,
        final(memory).fa == old(memory).fa,
        final(memory).fb == old(memory).fb,
{
    cpu.set_carry(if memory.f4 >= 0xE5 {
        1
    } else {
        0
    });
    memory.f7 = {
        let a = cpu.reg.a;
        let f7 = memory.f7;
        cpu.adc(a, f7)
    };
    memory.f8 = {
        let f8 = memory.f8;
        let f5 = memory.f5;
        cpu.adc(f8, f5)
    };
}

/// XORs the input byte into `f9`.
pub fn calc_f9(cpu: &mut Cpu, memory: &mut Memory)
    ensures
        final(memory).f9 == old(memory).f9 ^ old(cpu).reg.a,
        *final(cpu) == *old(cpu),
        final(memory).f4 == old(memory).f4,
        final(memory).f5 == old(memory).f5,
        final(memory).f7 == old(memory).f7,
        final(memory).f8 == old(memory).f8,
        final(memory).fa == old(memory).fa,
        final(memory).fb == old(memory).fb,
{
    memory.f9 = memory.f9 ^ cpu.reg.a;
}

/// Rotates `fa` right through the carry flag, then adds the input byte and
/// the bit rotated out.  The carry flag takes the carry out of the sum.
pub fn calc_fa(cpu: &mut Cpu, memory: &mut Memory)
    requires
        old(cpu).reg.c <= 1,
    ensures
        ({
            let rotfa: u8 = (old(memory).fa >> 1) | (old(cpu).reg.c << 7);
            let sa: int = rotfa + old(cpu).reg.a + (old(memory).fa & 1);
            &&& final(memory).fa as int == sa % 256
            &&& final(cpu).reg.c == if sa >= 256 {
                1u8
            } else {
                0u8
            }
        }),
        final(cpu).reg.a == old(cpu).reg.a,
        final(memory).f4 == old(memory).f4,
        final(memory).f5 == old(memory).f5,
        final(memory).f7 == old(memory).f7,
        final(memory).f8 == old(memory).f8,
        final(memory).f9 == old(memory).f9,
        final(memory).fb == old(memory).fb,
{
    let fa = memory.fa;
    proof {
        assert(fa & 1 <= 1) by (bit_vector);
    }
    let v = cpu.ror(fa);
    let a = cpu.reg.a;
    memory.fa = cpu.adc(v, a);
}

/// Adds the popcount of the input byte and the carry flag into `fb`,
/// wrapping on overflow.
pub fn calc_fb(cpu: &mut Cpu, memory: &mut Memory)
    requires
        old(cpu).reg.c <= 1,
    ensures
        final(memory).fb as int == (old(memory).fb + old(cpu).reg.c + spec_pop_count(
            old(cpu).reg.a,
        )) % 256,
        *final(cpu) == *old(cpu),
        final(memory).f4 == old(memory).f4,
        final(memory).f5 == old(memory).f5,
        final(memory).f7 == old(memory).f7,
        final(memory).f8 == old(memory).f8,
        final(memory).f9 == old(memory).f9,
        final(memory).fa == old(memory).fa,
{
    let p = pop_count(cpu.reg.a);
    let c = cpu.get_carry();
    memory.fb = memory.fb.wrapping_add(c + p);
}

/// Number of set bits in a byte.
pub fn pop_count(v: u8) -> (r: u8)
    ensures
        r == spec_pop_count(v),
        r <= 8,
{
    proof {
        assert((v & 1) + ((v >> 1) & 1) + ((v >> 2) & 1) + ((v >> 3) & 1) + ((v >> 4) & 1) + ((v
            >> 5) & 1) + ((v >> 6) & 1) + ((v >> 7) & 1) <= 8) by (bit_vector);
    }
    (v & 1) + ((v >> 1) & 1) + ((v >> 2) & 1) + ((v >> 3) & 1) + ((v >> 4) & 1) + ((v >> 5) & 1) + (
    (v >> 6) & 1) + ((v >> 7) & 1)
}

/// One forward step of the hash on input byte `a`.
pub fn forward_step(memory: &mut Memory, a: u8)
    ensures
        *final(memory) == spec_forward(*old(memory), a),
{
    let mut cpu = Cpu { reg: Register { a, c: 0 } };

    calc_f4_f5(&mut cpu, memory);
    calc_f7_f8(&mut cpu, memory);
    calc_f9(&mut cpu, memory);
    calc_fa(&mut cpu, memory);
    calc_fb(&mut cpu, memory);
    proof {
        assert((1u8 << 7) == 0x80u8 && (0u8 << 7) == 0u8) by (bit_vector);
    }
}

/// One forward step of the hash on the code of character `c`; a character
/// outside the alphabet feeds the sentinel code 0xFF.
pub fn forward_char(memory: &mut Memory, c: char)
    ensures
        *final(memory) == spec_forward(*old(memory), crate::domain::spec_char_code(c)),
{
    let code = crate::domain::char_to_code(c);
    forward_step(memory, code)
}

} // verus!
