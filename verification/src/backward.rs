//! The backward enumerator: from a target hash state, every suffix of a
//! given depth that reaches it.
//!
//! Each field of the forward step has a closed-form inverse; only the
//! rotate-and-add accumulator `fa` is 2-to-1, so a step has one or two
//! preimages.  Breadth-first expansion from the target collects every
//! preimage chain, and the result is sorted by a 56-bit fingerprint for
//! binary search.

use vstd::prelude::*;

verus! {

use crate::cpu::{
    Memory,
    spec_forward,
    spec_forward_seq,
    spec_crc_inv,
    spec_crc,
    spec_tab4,
    spec_tab5,
    spec_bit_reverse,
    spec_pop_count,
    crc_inv_rounds,
    crc_round_inv,
    u8_bit,
    lemma_crc_fwd_cancel,
    lemma_crc_decomposition,
    lemma_tab4_injective,
    lemma_xor_cancel,
    pop_count,
};
use crate::domain::{spec_char_code, spec_codes, is_code, all_codes, char_to_code};

/// The unique `f5` of any state whose forward step on input `c` yields
/// `f4` in its `f4` slot: the `f4` output is `bit_reverse(c)` XOR a value
/// determined by the old `f5` alone, and that value determines `f5`.
pub fn calc_prev_f5(f4: u8, c: u8) -> (r: u8)
    ensures
        spec_tab4(r) == f4 ^ spec_bit_reverse(c),
        forall|p: u8| spec_tab4(p) == f4 ^ spec_bit_reverse(c) ==> p == r,
{
    let mut g4 = f4;
    let mut g5: u8 = 0;
    for k in 0..8u8
        invariant
            spec_crc_inv(f4, 0, c) == crc_inv_rounds(g4, g5, c, (8 - k) as nat),
    {
        let abit = (c >> k) & 1 == 1;
        let fb = (((g4 >> 7) & 1) == 1) != abit;
        let u4 = g4 ^ (if fb {
            0x84u8
        } else {
            0u8
        });
        let u5 = g5 ^ (if fb {
            0x08u8
        } else {
            0u8
        });
        let new_g4 = (u4 << 1) | ((u5 >> 7) & 1);
        let new_g5 = (u5 << 1) | (if fb {
            1u8
        } else {
            0u8
        });
        proof {
            assert(u8_bit(c, k) == abit);
            assert(crc_round_inv(g4, g5, u8_bit(c, (8 - (8 - k) as nat) as u8)) == (
            new_g4,
            new_g5,
            ));
        }
        g4 = new_g4;
        g5 = new_g5;
    }
    proof {
        lemma_xor_cancel();
        lemma_crc_fwd_cancel(f4, 0, c, 8);
        let s = spec_crc_inv(f4, 0, c);
        lemma_crc_decomposition(s.0, s.1, c);
        // f4 == bit_reverse(c) ^ tab4(g5), so tab4(g5) == f4 ^ bit_reverse(c).
        assert(spec_bit_reverse(c) ^ (spec_bit_reverse(c) ^ spec_tab4(g5)) == spec_tab4(g5))
            by (bit_vector);
        assert(spec_tab4(g5) == f4 ^ spec_bit_reverse(c)) by {
            assert(spec_bit_reverse(c) ^ spec_tab4(g5) == f4);
            assert(f4 ^ spec_bit_reverse(c) == spec_bit_reverse(c) ^ f4);
            assert(spec_bit_reverse(c) ^ (spec_bit_reverse(c) ^ spec_tab4(g5)) == spec_tab4(g5));
        }
        assert forall|p: u8| spec_tab4(p) == f4 ^ spec_bit_reverse(c) implies p == g5 by {
            lemma_tab4_injective(p, g5);
        }
    }
    g5
}

/// The unique `f4` of any state with the given old `f5` whose forward step
/// yields `f5` in its `f5` slot: that output is the old `f4` XOR a value
/// determined by the old `f5` alone.
pub fn calc_prev_f4(f5: u8, prev_f5: u8) -> (r: u8)
    ensures
        r == f5 ^ spec_tab5(prev_f5),
{
    let mut mem = Memory { f4: 0, f5: prev_f5, f7: 0, f8: 0, f9: 0, fa: 0, fb: 0 };
    let mut cpu = crate::cpu::Cpu { reg: crate::cpu::Register { a: 0, c: 0 } };
    crate::cpu::calc_f4_f5(&mut cpu, &mut mem);
    proof {
        lemma_xor_cancel();
    }
    mem.f5 ^ f5
}

/// The old `f7` and the carry that the forward step produced from it.
pub fn calc_prev_f7(f7: u8, f4: u8, c: u8) -> (r: (u8, u8))
    ensures
        ({
            let c1: int = if f4 >= 0xE5 {
                1
            } else {
                0
            };
            &&& (c + r.0 + c1) % 256 == f7
            &&& r.1 == (if c + r.0 + c1 >= 256 {
                1u8
            } else {
                0u8
            })
        }),
{
    let prev_f7 = f7.wrapping_sub(c);
    if f4 >= 0xE5 {
        let prev_f7 = prev_f7.wrapping_sub(1);
        (prev_f7, if prev_f7 >= f7 {
            1
        } else {
            0
        })
    } else {
        (prev_f7, if prev_f7 > f7 {
            1
        } else {
            0
        })
    }
}

/// The old `f8` and the carry that the forward step produced from it.
pub fn calc_prev_f8(f8: u8, f5: u8, carry_f7: u8) -> (r: (u8, u8))
    requires
        carry_f7 <= 1,
    ensures
        (r.0 + f5 + carry_f7) % 256 == f8,
        r.1 == (if r.0 + f5 + carry_f7 >= 256 {
            1u8
        } else {
            0u8
        }),
{
    let prev_f8 = f8.wrapping_sub(f5);
    if carry_f7 == 1 {
        let prev_f8 = prev_f8.wrapping_sub(1);
        (prev_f8, if prev_f8 >= f8 {
            1
        } else {
            0
        })
    } else {
        (prev_f8, if prev_f8 > f8 {
            1
        } else {
            0
        })
    }
}

/// The old `f9`: XOR is its own inverse.
pub fn calc_prev_f9(f9: u8, c: u8) -> (r: u8)
    ensures
        r == (f9 ^ c),
{
    f9 ^ c
}

/// The new `fa` that follows from an old `fa` of `p` on input `a` with an
/// incoming carry of `c3`.
pub open spec fn spec_fa_value(p: u8, a: u8, c3: u8) -> u8 {
    ((((p >> 1) | (if c3 == 1 {
        0x80u8
    } else {
        0u8
    })) + a + (p & 1)) % 256) as u8
}

/// The carry out of that update.
pub open spec fn spec_fa_carry(p: u8, a: u8, c3: u8) -> u8 {
    if ((p >> 1) | (if c3 == 1 {
        0x80u8
    } else {
        0u8
    })) + a + (p & 1) >= 256 {
        1u8
    } else {
        0u8
    }
}

/// Every old `fa` whose update on input `c` with incoming carry
/// `carry_f8` yields `fa`, each with the carry its update produced.
/// The inverse of rotate-then-add is ambiguous in the bit rotated out,
/// so there are one or two candidates, and two candidates differ in
/// their low bit.
pub fn calc_prev_fa(fa: u8, c: u8, carry_f8: u8) -> (r: Vec<(u8, u8)>)
    requires
        carry_f8 <= 1,
    ensures
        r@.len() <= 2,
        r@.len() == 2 ==> r@[0].0 != r@[1].0,
        forall|i: int|
            0 <= i < r@.len() ==> spec_fa_value(#[trigger] r@[i].0, c, carry_f8) == fa && r@[i].1
                == spec_fa_carry(r@[i].0, c, carry_f8),
        forall|p: u8|
            spec_fa_value(p, c, carry_f8) == fa ==> exists|i: int|
                0 <= i < r@.len() && #[trigger] r@[i].0 == p,
{
    let mut candidates: Vec<(u8, u8)> = Vec::new();

    let ror_prev_fa = fa.wrapping_sub(c);
    if (ror_prev_fa >> 7) == carry_f8 {
        candidates.push((ror_prev_fa << 1, if ror_prev_fa > fa {
            1
        } else {
            0
        }));
        proof {
            lemma_fa_candidate_even(fa, c, carry_f8);
        }
    }

    let ror_prev_fa = fa.wrapping_sub(c).wrapping_sub(1);
    if (ror_prev_fa >> 7) == carry_f8 {
        candidates.push((ror_prev_fa << 1 | 1, if ror_prev_fa >= fa {
            1
        } else {
            0
        }));
        proof {
            lemma_fa_candidate_odd(fa, c, carry_f8);
        }
    }

    proof {
        assert(forall|a: u8, b: u8| (a << 1) != ((b << 1) | 1)) by (bit_vector);
        assert forall|p: u8| spec_fa_value(p, c, carry_f8) == fa implies exists|i: int|
            0 <= i < candidates@.len() && #[trigger] candidates@[i].0 == p by {
            lemma_fa_completeness(p, fa, c, carry_f8);
            if p & 1 == 0 {
                let w = vstd::wrapping::u8_specs::wrapping_sub(fa, c);
                assert(w >> 7 == carry_f8 && (w << 1) == p);
                assert(candidates@.len() >= 1);
                assert(candidates@[0].0 == w << 1);
            } else {
                let w = vstd::wrapping::u8_specs::wrapping_sub(
                    vstd::wrapping::u8_specs::wrapping_sub(fa, c),
                    1,
                );
                assert(w >> 7 == carry_f8 && (w << 1 | 1) == p);
                assert(candidates@.len() >= 1);
                assert(candidates@[(candidates@.len() - 1) as int].0 == w << 1 | 1);
            }
        }
    }
    candidates
}

/// The even candidate, when its reconstructed top bit matches the carry,
/// is a genuine preimage and its reported carry is the true carry out.
proof fn lemma_fa_candidate_even(fa: u8, c: u8, carry_f8: u8)
    requires
        carry_f8 <= 1,
        vstd::wrapping::u8_specs::wrapping_sub(fa, c) >> 7 == carry_f8,
    ensures
        ({
            let w = vstd::wrapping::u8_specs::wrapping_sub(fa, c);
            &&& spec_fa_value(w << 1, c, carry_f8) == fa
            &&& spec_fa_carry(w << 1, c, carry_f8) == (if w > fa {
                1u8
            } else {
                0u8
            })
        }),
{
    let w = vstd::wrapping::u8_specs::wrapping_sub(fa, c);
    assert(((w << 1) >> 1) | (if carry_f8 == 1 {
        0x80u8
    } else {
        0u8
    }) == w && (w << 1) & 1 == 0) by (bit_vector)
        requires
            w >> 7 == carry_f8 && carry_f8 <= 1,
    ;
    if fa >= c {
        assert(w == fa - c);
    } else {
        assert(w == fa - c + 256);
    }
    assert((w + c) % 256 == fa);
}

/// The odd candidate, when its reconstructed top bit matches the carry,
/// is a genuine preimage and its reported carry is the true carry out.
proof fn lemma_fa_candidate_odd(fa: u8, c: u8, carry_f8: u8)
    requires
        carry_f8 <= 1,
        vstd::wrapping::u8_specs::wrapping_sub(vstd::wrapping::u8_specs::wrapping_sub(fa, c), 1)
            >> 7 == carry_f8,
    ensures
        ({
            let w = vstd::wrapping::u8_specs::wrapping_sub(
                vstd::wrapping::u8_specs::wrapping_sub(fa, c),
                1,
            );
            &&& spec_fa_value(w << 1 | 1, c, carry_f8) == fa
            &&& spec_fa_carry(w << 1 | 1, c, carry_f8) == (if w >= fa {
                1u8
            } else {
                0u8
            })
        }),
{
    let w = vstd::wrapping::u8_specs::wrapping_sub(
        vstd::wrapping::u8_specs::wrapping_sub(fa, c),
        1,
    );
    assert(((w << 1 | 1) >> 1) | (if carry_f8 == 1 {
        0x80u8
    } else {
        0u8
    }) == w && (w << 1 | 1) & 1 == 1) by (bit_vector)
        requires
            w >> 7 == carry_f8 && carry_f8 <= 1,
    ;
    let u = vstd::wrapping::u8_specs::wrapping_sub(fa, c);
    if fa >= c {
        assert(u == fa - c);
    } else {
        assert(u == fa - c + 256);
    }
    if u >= 1 {
        assert(w == u - 1);
    } else {
        assert(w == u + 255);
    }
    assert((w + c + 1) % 256 == fa);
}

/// Any preimage of `fa` under the update is one of the two candidates.
proof fn lemma_fa_completeness(p: u8, fa: u8, c: u8, carry_f8: u8)
    requires
        carry_f8 <= 1,
        spec_fa_value(p, c, carry_f8) == fa,
    ensures
        p & 1 <= 1,
        p & 1 == 0 ==> {
            let w = vstd::wrapping::u8_specs::wrapping_sub(fa, c);
            w >> 7 == carry_f8 && (w << 1) == p
        },
        p & 1 == 1 ==> {
            let w = vstd::wrapping::u8_specs::wrapping_sub(
                vstd::wrapping::u8_specs::wrapping_sub(fa, c),
                1,
            );
            w >> 7 == carry_f8 && (w << 1 | 1) == p
        },
{
    let rot = (p >> 1) | (if carry_f8 == 1 {
        0x80u8
    } else {
        0u8
    });
    assert(p & 1 <= 1 && rot >> 7 == carry_f8 && (p & 1 == 0 ==> (rot << 1) == p) && (p & 1 == 1
        ==> (rot << 1 | 1) == p)) by (bit_vector)
        requires
            carry_f8 <= 1,
            rot == (p >> 1) | (if carry_f8 == 1 {
                0x80u8
            } else {
                0u8
            }),
    ;
    // fa == (rot + c + (p & 1)) % 256, so rot is fa - c (- 1) mod 256.
    if p & 1 == 0 {
        let w = vstd::wrapping::u8_specs::wrapping_sub(fa, c);
        assert(fa as int == (rot + c) % 256);
        if rot + c < 256 {
            assert(fa == rot + c);
            assert(w == rot);
        } else {
            assert(fa == rot + c - 256);
            assert(fa < c);
            assert(w == rot);
        }
    } else {
        let u = vstd::wrapping::u8_specs::wrapping_sub(fa, c);
        let w = vstd::wrapping::u8_specs::wrapping_sub(u, 1);
        assert(fa as int == (rot + c + 1) % 256);
        if rot + c + 1 < 256 {
            assert(fa == rot + c + 1);
            assert(u == rot + 1);
            assert(w == rot);
        } else if rot + c + 1 == 256 {
            assert(fa == 0);
            if c == 0 {
                assert(rot == 255 && u == 0 && w == 255);
            } else {
                assert(u == 256 - c && w == 255 - c && rot == 255 - c);
            }
        } else {
            assert(fa == rot + c + 1 - 256);
            assert(w == rot);
        }
    }
}

/// The old `fb`: subtract the carry out of `fa` and the popcount of the
/// input.
pub fn calc_prev_fb(fb: u8, c: u8, carry_fa: u8) -> (r: u8)
    requires
        carry_fa <= 1,
    ensures
        (r + spec_pop_count(c) + carry_fa) % 256 == fb,
{
    let p = pop_count(c);
    fb.wrapping_sub(carry_fa).wrapping_sub(p)
}


/// Two numbers below 256 that leave the same remainder mod 256 after the
/// same shift are equal.
proof fn lemma_mod256_inj(x: int, y: int, base: int)
    requires
        0 <= x < 256,
        0 <= y < 256,
        0 <= base,
        (base + x) % 256 == (base + y) % 256,
    ensures
        x == y,
{
    let a = base + x;
    let b = base + y;
    assert(a % 256 == a - 256 * (a / 256));
    assert(b % 256 == b - 256 * (b / 256));
    assert(a - b < 256 && b - a < 256);
    assert(256 * (a / 256) - 256 * (b / 256) == a - b);
    assert(a / 256 == b / 256) by (nonlinear_arith)
        requires
            256 * (a / 256) - 256 * (b / 256) == a - b,
            a - b < 256 && b - a < 256,
    ;
}

/// A state built from the outputs of the per-field inverses steps forward
/// to `m` on input `code`.
proof fn lemma_prev_sound(m: Memory, code: u8, p: Memory)
    requires
        spec_tab4(p.f5) == m.f4 ^ spec_bit_reverse(code),
        p.f4 == m.f5 ^ spec_tab5(p.f5),
        ({
            let c1: int = if m.f4 >= 0xE5 {
                1
            } else {
                0
            };
            let c2: int = if code + p.f7 + c1 >= 256 {
                1
            } else {
                0
            };
            let c3: u8 = if p.f8 + m.f5 + c2 >= 256 {
                1u8
            } else {
                0u8
            };
            &&& (code + p.f7 + c1) % 256 == m.f7
            &&& (p.f8 + m.f5 + c2) % 256 == m.f8
            &&& p.f9 == m.f9 ^ code
            &&& spec_fa_value(p.fa, code, c3) == m.fa
            &&& (p.fb + spec_pop_count(code) + spec_fa_carry(p.fa, code, c3)) % 256 == m.fb
        }),
    ensures
        spec_forward(p, code) == m,
{
    lemma_xor_cancel();
    lemma_crc_decomposition(p.f4, p.f5, code);
    let crc = spec_crc(p.f4, p.f5, code);
    let mf4 = m.f4;
    let rc = spec_bit_reverse(code);
    assert(crc.0 == rc ^ (mf4 ^ rc));
    assert(rc ^ (mf4 ^ rc) == mf4) by (bit_vector);
    assert(crc.1 == (m.f5 ^ spec_tab5(p.f5)) ^ spec_tab5(p.f5));
    assert(crc.1 == m.f5);
    assert((m.f9 ^ code) ^ code == m.f9);
    assert(spec_forward(p, code).f4 == m.f4);
    assert(spec_forward(p, code).f5 == m.f5);
    assert(spec_forward(p, code).f7 == m.f7);
    assert(spec_forward(p, code).f8 == m.f8);
    assert(spec_forward(p, code).f9 == m.f9);
    assert(spec_forward(p, code).fa == m.fa);
    assert(spec_forward(p, code).fb == m.fb);
}

/// Every hash state whose forward step on input `code` yields `*memory`:
/// one entry per surviving `fa` candidate, and two entries are distinct.
#[verifier::rlimit(60)]
pub fn calc_prev_memories_code(memory: &Memory, code: u8) -> (r: Vec<Memory>)
    ensures
        r@.len() <= 2,
        r@.len() == 2 ==> r@[0] != r@[1],
        forall|i: int| 0 <= i < r@.len() ==> spec_forward(#[trigger] r@[i], code) == *memory,
        forall|m: Memory| spec_forward(m, code) == *memory ==> r@.contains(m),
{
    let cur_f4 = memory.f4;
    let cur_f5 = memory.f5;
    let cur_f7 = memory.f7;
    let cur_f8 = memory.f8;
    let cur_f9 = memory.f9;
    let cur_fa = memory.fa;
    let cur_fb = memory.fb;

    let prev_f5 = calc_prev_f5(cur_f4, code);
    let prev_f4 = calc_prev_f4(cur_f5, prev_f5);

    let f7pair = calc_prev_f7(cur_f7, cur_f4, code);
    let prev_f7 = f7pair.0;
    let carry_f7 = f7pair.1;
    let f8pair = calc_prev_f8(cur_f8, cur_f5, carry_f7);
    let prev_f8 = f8pair.0;
    let carry_f8 = f8pair.1;
    let prev_f9 = calc_prev_f9(cur_f9, code);

    let prev_fa = calc_prev_fa(cur_fa, code, carry_f8);

    let mut r: Vec<Memory> = Vec::new();
    let n = prev_fa.len();
    for t in 0..n
        invariant
            n == prev_fa@.len(),
            r@.len() == t,
            carry_f8 <= 1,
            forall|j: int|
                0 <= j < prev_fa@.len() ==> spec_fa_value(#[trigger] prev_fa@[j].0, code, carry_f8)
                    == cur_fa && prev_fa@[j].1 == spec_fa_carry(prev_fa@[j].0, code, carry_f8),
            forall|j: int|
                0 <= j < t ==> {
                    let x = #[trigger] r@[j];
                    &&& x.f4 == prev_f4
                    &&& x.f5 == prev_f5
                    &&& x.f7 == prev_f7
                    &&& x.f8 == prev_f8
                    &&& x.f9 == prev_f9
                    &&& x.fa == prev_fa@[j].0
                    &&& (x.fb + spec_pop_count(code) + spec_fa_carry(prev_fa@[j].0, code, carry_f8))
                        % 256 == cur_fb
                },
    {
        let pfa = prev_fa[t].0;
        let cfa = prev_fa[t].1;
        let prev_fb = calc_prev_fb(cur_fb, code, cfa);
        r.push(
            Memory {
                f4: prev_f4,
                f5: prev_f5,
                f7: prev_f7,
                f8: prev_f8,
                f9: prev_f9,
                fa: pfa,
                fb: prev_fb,
            },
        );
    }
    proof {
        if r@.len() == 2 {
            assert(r@[0].fa == prev_fa@[0].0 && r@[1].fa == prev_fa@[1].0);
            assert(r@[0].fa != r@[1].fa);
        }
        let mem = *memory;
        let c1: int = if cur_f4 >= 0xE5 {
            1
        } else {
            0
        };
        let c2: int = if code + prev_f7 + c1 >= 256 {
            1
        } else {
            0
        };
        let c3: u8 = if prev_f8 + cur_f5 + c2 >= 256 {
            1u8
        } else {
            0u8
        };
        assert(c2 == carry_f7 as int);
        assert(c3 == carry_f8);
        assert forall|i: int| 0 <= i < r@.len() implies spec_forward(#[trigger] r@[i], code)
            == mem by {
            let p = r@[i];
            assert(p.fa == prev_fa@[i].0);
            assert((p.fb + spec_pop_count(code) + spec_fa_carry(p.fa, code, carry_f8)) % 256
                == cur_fb);
            lemma_prev_sound(mem, code, p);
        }
        assert forall|m: Memory| spec_forward(m, code) == mem implies r@.contains(m) by {
            lemma_xor_cancel();
            lemma_crc_decomposition(m.f4, m.f5, code);
            let crc = spec_crc(m.f4, m.f5, code);
            // the crc pair pins f5 and f4
            assert(crc.0 == mem.f4 && crc.1 == mem.f5);
            assert(spec_tab4(m.f5) == mem.f4 ^ spec_bit_reverse(code)) by {
                let t = spec_tab4(m.f5);
                let rc = spec_bit_reverse(code);
                assert(rc ^ t == mem.f4);
                assert(rc ^ (rc ^ t) == t) by (bit_vector);
            }
            assert(m.f5 == prev_f5);
            assert(m.f4 ^ spec_tab5(m.f5) ^ spec_tab5(m.f5) == m.f4);
            assert(m.f4 == prev_f4);
            // the sum chain pins f7, f8 and the carries
            let mc1: int = if crc.0 >= 0xE5 {
                1
            } else {
                0
            };
            assert(mc1 == c1);
            assert((code + m.f7 + c1) % 256 == mem.f7);
            lemma_mod256_inj(m.f7 as int, prev_f7 as int, code + c1);
            assert(m.f7 == prev_f7);
            assert((m.f8 + cur_f5 + c2) % 256 == mem.f8);
            lemma_mod256_inj(m.f8 as int, prev_f8 as int, cur_f5 + c2);
            assert(m.f8 == prev_f8);
            assert(m.f9 ^ code ^ code == m.f9);
            assert(m.f9 == prev_f9);
            // fa is one of the candidates
            assert(spec_fa_value(m.fa, code, carry_f8) == cur_fa) by {
                assert(spec_forward(m, code).fa == spec_fa_value(m.fa, code, c3));
            }
            let i = choose|i: int|
                0 <= i < prev_fa@.len() && #[trigger] prev_fa@[i].0 == m.fa;
            assert(spec_forward(m, code).fb == mem.fb);
            assert((m.fb + spec_pop_count(code) + spec_fa_carry(m.fa, code, carry_f8)) % 256
                == mem.fb);
            assert(r@[i].fa == prev_fa@[i].0 && prev_fa@[i].0 == m.fa);
            assert((r@[i].fb + spec_pop_count(code) + spec_fa_carry(m.fa, code, carry_f8)) % 256
                == mem.fb);
            lemma_mod256_inj(
                m.fb as int,
                r@[i].fb as int,
                (spec_pop_count(code) + spec_fa_carry(m.fa, code, carry_f8)) as int,
            );
            assert(r@[i] == m);
        }
    }
    r
}

/// Every hash state whose forward step on the code of `c` yields
/// `*memory`, without repetition.  A character outside the alphabet
/// stands for the sentinel code 0xFF.
pub fn calc_prev_memories(memory: &Memory, c: char) -> (r: Vec<Memory>)
    ensures
        r@.len() <= 2,
        r@.len() == 2 ==> r@[0] != r@[1],
        forall|i: int|
            0 <= i < r@.len() ==> spec_forward(#[trigger] r@[i], spec_char_code(c)) == *memory,
        forall|m: Memory| spec_forward(m, spec_char_code(c)) == *memory ==> r@.contains(m),
{
    let code = char_to_code(c);
    calc_prev_memories_code(memory, code)
}

/// The 56-bit fingerprint of a hash state: its seven bytes packed
/// little-endian.
pub open spec fn spec_key(m: Memory) -> u64 {
    (m.f4 + m.f5 * 0x100 + m.f7 * 0x10000 + m.f8 * 0x1000000 + m.f9 * 0x100000000 + m.fa
        * 0x10000000000 + m.fb * 0x1000000000000) as u64
}

/// The fingerprint of a hash state.
pub fn memory_key(m: &Memory) -> (r: u64)
    ensures
        r == spec_key(*m),
{
    let b4 = m.f4;
    let b5 = m.f5;
    let b7 = m.f7;
    let b8 = m.f8;
    let b9 = m.f9;
    let ba = m.fa;
    let bb = m.fb;
    let r = b4 as u64 | (b5 as u64) << 8 | (b7 as u64) << 16 | (b8 as u64) << 24 | (b9 as u64)
        << 32 | (ba as u64) << 40 | (bb as u64) << 48;
    proof {
        assert(b4 as u64 | (b5 as u64) << 8 | (b7 as u64) << 16 | (b8 as u64) << 24 | (b9 as u64)
            << 32 | (ba as u64) << 40 | (bb as u64) << 48 == (b4 + b5 * 0x100 + b7 * 0x10000 + b8
            * 0x1000000 + b9 * 0x100000000 + ba * 0x10000000000 + bb * 0x1000000000000) as u64)
            by (bit_vector);
    }
    r
}

/// Distinct hash states have distinct fingerprints.
pub proof fn lemma_key_injective(m1: Memory, m2: Memory)
    requires
        spec_key(m1) == spec_key(m2),
    ensures
        m1 == m2,
{
    let a4 = m1.f4;
    let a5 = m1.f5;
    let a7 = m1.f7;
    let a8 = m1.f8;
    let a9 = m1.f9;
    let aa = m1.fa;
    let ab = m1.fb;
    let b4 = m2.f4;
    let b5 = m2.f5;
    let b7 = m2.f7;
    let b8 = m2.f8;
    let b9 = m2.f9;
    let ba = m2.fa;
    let bb = m2.fb;
    assert((a4 + a5 * 0x100 + a7 * 0x10000 + a8 * 0x1000000 + a9 * 0x100000000 + aa
        * 0x10000000000 + ab * 0x1000000000000) as u64 == (b4 + b5 * 0x100 + b7 * 0x10000 + b8
        * 0x1000000 + b9 * 0x100000000 + ba * 0x10000000000 + bb * 0x1000000000000) as u64 ==> (a4
        == b4 && a5 == b5 && a7 == b7 && a8 == b8 && a9 == b9 && aa == ba && ab == bb))
        by (bit_vector);
}

/// One backward node: a hash state and the suffix that leads from it to
/// the target.
pub struct Node {
    pub memory: Memory,
    pub password: Vec<u8>,
}

/// A copy of a vector of bytes.
pub(crate) fn clone_vec_u8(v: &Vec<u8>) -> (r: Vec<u8>)
    ensures
        r@ == v@,
{
    let mut r: Vec<u8> = Vec::new();
    let n = v.len();
    for t in 0..n
        invariant
            n == v@.len(),
            r@.len() == t,
            forall|j: int| 0 <= j < t ==> r@[j] == v@[j],
    {
        r.push(v[t]);
    }
    proof {
        assert(r@ =~= v@);
    }
    r
}

/// A copy of a node.
fn clone_node(n: &Node) -> (r: Node)
    ensures
        r.memory == n.memory,
        r.password@ == n.password@,
{
    Node { memory: n.memory, password: clone_vec_u8(&n.password) }
}

impl Node {
    /// The fingerprint of the node's hash state.
    pub fn key(&self) -> (r: u64)
        ensures
            r == spec_key(self.memory),
    {
        memory_key(&self.memory)
    }

    /// The nodes one step back: every predecessor state, with `code`
    /// written into position `index` of the suffix.
    pub fn calc_prev_nodes(&self, index: usize, code: u8) -> (r: Vec<Node>)
        requires
            index < self.password@.len(),
        ensures
            r@.len() <= 2,
            forall|t: int|
                0 <= t < r@.len() ==> spec_forward((#[trigger] r@[t]).memory, code) == self.memory
                    && r@[t].password@ == self.password@.update(index as int, code),
            forall|m: Memory|
                spec_forward(m, code) == self.memory ==> exists|t: int|
                    0 <= t < r@.len() && (#[trigger] r@[t]).memory == m,
    {
        let prevs = calc_prev_memories_code(&self.memory, code);
        let mut r: Vec<Node> = Vec::new();
        let n = prevs.len();
        for t in 0..n
            invariant
                n == prevs@.len(),
                index < self.password@.len(),
                r@.len() == t,
                forall|j: int|
                    0 <= j < prevs@.len() ==> spec_forward(#[trigger] prevs@[j], code)
                        == self.memory,
                forall|j: int|
                    0 <= j < t ==> (#[trigger] r@[j]).memory == prevs@[j] && r@[j].password@
                        == self.password@.update(index as int, code),
        {
            let mut pw = clone_vec_u8(&self.password);
            pw[index] = code;
            r.push(Node { memory: prevs[t], password: pw });
        }
        proof {
            assert forall|m: Memory| spec_forward(m, code) == self.memory implies exists|t: int|
                0 <= t < r@.len() && (#[trigger] r@[t]).memory == m by {
                assert(prevs@.contains(m));
                let j = choose|j: int| 0 <= j < prevs@.len() && prevs@[j] == m;
                assert(r@[j].memory == m);
            }
        }
        r
    }
}

/// Relies on slice::sort_unstable: sorts the pairs in place by the
/// derived lexicographic order, so the result is a permutation of the
/// input that is nondecreasing in the first component.
#[verifier::external_body]
fn sort_pairs(v: &mut Vec<(u64, usize)>)
    ensures
        final(v)@.len() == old(v)@.len(),
        final(v)@.to_multiset() == old(v)@.to_multiset(),
        forall|i: int, j: int|
            0 <= i <= j < final(v)@.len() ==> (#[trigger] final(v)@[i]).0
                <= (#[trigger] final(v)@[j]).0,
{
    v.sort_unstable();
}


/// Splitting off the first character of a sequence splits the fold.
proof fn lemma_forward_seq_cons(m: Memory, code: u8, rest: Seq<u8>)
    ensures
        spec_forward_seq(m, seq![code] + rest) == spec_forward_seq(spec_forward(m, code), rest),
{
    let s = seq![code] + rest;
    assert(s.len() == 1 + rest.len());
    assert(s[0] == code);
    assert(s.drop_first() =~= rest);
}

/// Writing `code` at position `i` makes the tail from `i` start with it.
proof fn lemma_skip_update(pw: Seq<u8>, i: int, code: u8)
    requires
        0 <= i < pw.len(),
    ensures
        pw.update(i, code).skip(i) == seq![code] + pw.skip(i + 1),
{
    assert(pw.update(i, code).skip(i) =~= seq![code] + pw.skip(i + 1));
}

/// Every node of `q` carries a full-length suffix, filled with alphabet
/// codes from position `pos` on, that leads from its state to `target`.
pub open spec fn queue_inv(q: Seq<Node>, target: Memory, bl: int, pos: int) -> bool {
    forall|k: int|
        0 <= k < q.len() ==> {
            let n = #[trigger] q[k];
            &&& n.password@.len() == bl
            &&& (forall|j: int| pos <= j < bl ==> is_code(#[trigger] n.password@[j]))
            &&& spec_forward_seq(n.memory, n.password@.skip(pos)) == target
        }
}

/// `q` holds a node for every way to reach `target` in `bl - pos` steps.
pub open spec fn queue_complete(q: Seq<Node>, target: Memory, bl: int, pos: int) -> bool {
    forall|m: Memory, s: Seq<u8>|
        s.len() == bl - pos && all_codes(s) && #[trigger] spec_forward_seq(m, s) == target
            ==> exists|k: int|
            0 <= k < q.len() && (#[trigger] q[k]).memory == m && q[k].password@.skip(pos) == s
}

/// How many nodes of `nodes` carry the state `m`.
pub open spec fn count_matching(nodes: Seq<Node>, m: Memory) -> nat
    decreases nodes.len(),
{
    if nodes.len() == 0 {
        0
    } else {
        count_matching(nodes.drop_last(), m) + (if nodes.last().memory == m {
            1nat
        } else {
            0nat
        })
    }
}

/// When the nodes carrying `m` are exactly those of one index interval,
/// the count is the interval's width.
proof fn lemma_count_interval(nodes: Seq<Node>, m: Memory, lo: int, hi: int)
    requires
        0 <= lo <= hi <= nodes.len(),
        forall|k: int|
            0 <= k < nodes.len() ==> ((#[trigger] nodes[k]).memory == m <==> lo <= k < hi),
    ensures
        count_matching(nodes, m) == hi - lo,
    decreases nodes.len(),
{
    if nodes.len() == 0 {
    } else {
        let n1 = nodes.drop_last();
        let last = nodes.len() - 1;
        assert(forall|k: int| 0 <= k < n1.len() ==> #[trigger] n1[k] == nodes[k]);
        if nodes.last().memory == m {
            assert(lo <= last < hi);
            assert(hi == nodes.len());
            assert forall|k: int|
                0 <= k < n1.len() implies ((#[trigger] n1[k]).memory == m <==> lo <= k < hi
                - 1) by {
                assert(n1[k] == nodes[k]);
            }
            lemma_count_interval(n1, m, lo, hi - 1);
        } else {
            assert(!(lo <= last < hi));
            if lo == hi {
                assert forall|k: int|
                    0 <= k < n1.len() implies ((#[trigger] n1[k]).memory == m <==> 0 <= k
                    < 0) by {
                    assert(n1[k] == nodes[k]);
                }
                lemma_count_interval(n1, m, 0, 0);
            } else {
                assert(hi <= last);
                assert forall|k: int|
                    0 <= k < n1.len() implies ((#[trigger] n1[k]).memory == m <==> lo <= k
                    < hi) by {
                    assert(n1[k] == nodes[k]);
                }
                lemma_count_interval(n1, m, lo, hi);
            }
        }
    }
}

/// The sorted table of every suffix of a fixed depth that reaches a
/// target state.
pub struct Backward {
    pub nodes: Vec<Node>,
    pub depth: usize,
}

impl Backward {
    /// The nodes are sorted by fingerprint and their suffixes all have
    /// the table's depth and consist of alphabet codes.
    pub open spec fn wf(&self) -> bool {
        &&& forall|i: int, j: int|
            0 <= i <= j < self.nodes@.len() ==> spec_key((#[trigger] self.nodes@[i]).memory)
                <= spec_key((#[trigger] self.nodes@[j]).memory)
        &&& forall|i: int|
            0 <= i < self.nodes@.len() ==> (#[trigger] self.nodes@[i]).password@.len()
                == self.depth && all_codes(self.nodes@[i].password@)
    }

    /// The table's depth.
    pub open spec fn spec_depth(&self) -> usize {
        self.depth
    }

    /// Every node's suffix leads from its state to `target`.
    pub open spec fn is_sound_for(&self, target: Memory) -> bool {
        forall|i: int|
            0 <= i < self.nodes@.len() ==> spec_forward_seq(
                (#[trigger] self.nodes@[i]).memory,
                self.nodes@[i].password@,
            ) == target
    }

    /// Every way to reach `target` in `depth` steps appears as a node.
    pub open spec fn is_complete_for(&self, target: Memory) -> bool {
        forall|m: Memory, s: Seq<u8>|
            s.len() == self.depth && all_codes(s) && #[trigger] spec_forward_seq(m, s) == target
                ==> exists|i: int|
                0 <= i < self.nodes@.len() && (#[trigger] self.nodes@[i]).memory == m
                    && self.nodes@[i].password@ == s
    }

    /// Builds the table for `*memory` at depth `backward_len`: breadth-first
    /// expansion of the preimages, then a sort by fingerprint.
    pub fn new(memory: &Memory, backward_len: usize) -> (r: Backward)
        ensures
            r.wf(),
            r.spec_depth() == backward_len,
            r.is_sound_for(*memory),
            r.is_complete_for(*memory),
    {
        let ghost target = *memory;
        let bl = backward_len;
        let codes = crate::domain::password_char_codes();
        let mut pw: Vec<u8> = Vec::new();
        for _t in 0..bl
            invariant
                pw@.len() == _t,
        {
            pw.push(0);
        }
        let mut queue: Vec<Node> = Vec::new();
        queue.push(Node { memory: *memory, password: pw });
        proof {
            assert(queue@[0].password@.skip(bl as int) =~= Seq::<u8>::empty());
            assert(queue_inv(queue@, target, bl as int, bl as int));
            assert forall|m: Memory, s: Seq<u8>|
                s.len() == bl - bl && all_codes(s) && #[trigger] spec_forward_seq(m, s)
                    == target implies exists|k: int|
                0 <= k < queue@.len() && (#[trigger] queue@[k]).memory == m
                    && queue@[k].password@.skip(bl as int) == s by {
                assert(s =~= Seq::<u8>::empty());
                assert(spec_forward_seq(m, s) == m);
                assert(queue@[0].memory == m && queue@[0].password@.skip(bl as int) == s);
            }
        }
        let mut i = bl;
        while i > 0
            invariant
                i <= bl,
                codes@ == spec_codes(),
                queue_inv(queue@, target, bl as int, i as int),
                queue_complete(queue@, target, bl as int, i as int),
            decreases i,
        {
            i = i - 1;
            let ghost pos = i as int;
            let mut next_queue: Vec<Node> = Vec::new();
            let nc = codes.len();
            for ci in 0..nc
                invariant
                    nc == 42,
                    i + 1 <= bl,
                    codes@ == spec_codes(),
                    queue_inv(queue@, target, bl as int, pos + 1),
                    queue_complete(queue@, target, bl as int, pos + 1),
                    pos == i as int,
                    queue_inv(next_queue@, target, bl as int, pos),
                    forall|m: Memory, s: Seq<u8>|
                        s.len() == bl - pos && all_codes(s) && #[trigger] spec_forward_seq(m, s)
                            == target && (exists|cj: int|
                            0 <= cj < ci && spec_codes()[cj] == s[0]) ==> exists|u: int|
                            0 <= u < next_queue@.len() && (#[trigger] next_queue@[u]).memory == m
                                && next_queue@[u].password@.skip(pos) == s,
            {
                let code = codes[ci];
                proof {
                    assert(is_code(code));
                }
                let nq = queue.len();
                for k in 0..nq
                    invariant
                        nq == queue@.len(),
                        i + 1 <= bl,
                        codes@ == spec_codes(),
                        code == spec_codes()[ci as int],
                        is_code(code),
                        ci < 42,
                        queue_inv(queue@, target, bl as int, pos + 1),
                        pos == i as int,
                        queue_inv(next_queue@, target, bl as int, pos),
                        forall|m: Memory, s: Seq<u8>|
                            s.len() == bl - pos && all_codes(s) && #[trigger] spec_forward_seq(
                                m,
                                s,
                            ) == target && (exists|cj: int|
                                0 <= cj < ci && spec_codes()[cj] == s[0]) ==> exists|u: int|
                                0 <= u < next_queue@.len() && (#[trigger] next_queue@[u]).memory
                                    == m && next_queue@[u].password@.skip(pos) == s,
                        forall|m: Memory, s: Seq<u8>|
                            s.len() == bl - pos && all_codes(s) && #[trigger] spec_forward_seq(
                                m,
                                s,
                            ) == target && s[0] == code && (exists|kk: int|
                                0 <= kk < k && (#[trigger] queue@[kk]).memory == spec_forward(
                                    m,
                                    code,
                                ) && queue@[kk].password@.skip(pos + 1) == s.drop_first())
                            ==> exists|u: int|
                                0 <= u < next_queue@.len() && (#[trigger] next_queue@[u]).memory
                                    == m && next_queue@[u].password@.skip(pos) == s,
                {
                    let prevs = queue[k].calc_prev_nodes(i, code);
                    let np = prevs.len();
                    let ghost nq0 = next_queue@;
                    for t in 0..np
                        invariant
                            np == prevs@.len(),
                            i + 1 <= bl,
                            pos == i as int,
                            is_code(code),
                            k < queue@.len(),
                            queue_inv(queue@, target, bl as int, pos + 1),
                            forall|tt: int|
                                0 <= tt < prevs@.len() ==> spec_forward(
                                    (#[trigger] prevs@[tt]).memory,
                                    code,
                                ) == queue@[k as int].memory && prevs@[tt].password@
                                    == queue@[k as int].password@.update(pos, code),
                            queue_inv(next_queue@, target, bl as int, pos),
                            next_queue@.len() == nq0.len() + t,
                            forall|u: int|
                                0 <= u < nq0.len() ==> next_queue@[u] == nq0[u],
                            forall|tt: int|
                                0 <= tt < t ==> (#[trigger] next_queue@[nq0.len() + tt]).memory
                                    == prevs@[tt].memory && next_queue@[nq0.len()
                                    + tt].password@ == prevs@[tt].password@,
                    {
                        let node = clone_node(&prevs[t]);
                        proof {
                            // the new node is sound at position pos
                            let qk = queue@[k as int];
                            lemma_skip_update(qk.password@, pos, code);
                            lemma_forward_seq_cons(
                                node.memory,
                                code,
                                qk.password@.skip(pos + 1),
                            );
                            assert(node.password@.skip(pos) == seq![code] + qk.password@.skip(
                                pos + 1,
                            ));
                            assert(spec_forward_seq(node.memory, node.password@.skip(pos))
                                == spec_forward_seq(qk.memory, qk.password@.skip(pos + 1)));
                            assert forall|j: int|
                                pos <= j < bl implies is_code(
                                #[trigger] node.password@[j],
                            ) by {
                                if j != pos {
                                    assert(node.password@[j] == qk.password@[j]);
                                }
                            }
                        }
                        next_queue.push(node);
                    }
                    proof {
                        // extend the per-code completeness to sources up to k
                        assert forall|m: Memory, s: Seq<u8>|
                            s.len() == bl - pos && all_codes(s) && #[trigger] spec_forward_seq(
                                m,
                                s,
                            ) == target && s[0] == code && (exists|kk: int|
                                0 <= kk < k + 1 && (#[trigger] queue@[kk]).memory == spec_forward(
                                    m,
                                    code,
                                ) && queue@[kk].password@.skip(pos + 1) == s.drop_first())
                            implies exists|u: int|
                                0 <= u < next_queue@.len() && (#[trigger] next_queue@[u]).memory
                                    == m && next_queue@[u].password@.skip(pos) == s by {
                            let kk = choose|kk: int|
                                0 <= kk < k + 1 && (#[trigger] queue@[kk]).memory == spec_forward(
                                    m,
                                    code,
                                ) && queue@[kk].password@.skip(pos + 1) == s.drop_first();
                            if kk == k {
                                let tt = choose|tt: int|
                                    0 <= tt < prevs@.len() && (#[trigger] prevs@[tt]).memory == m;
                                let u = nq0.len() + tt;
                                assert(next_queue@[u as int].memory == m);
                                assert(next_queue@[u as int].password@ == prevs@[tt].password@);
                                let qk = queue@[k as int];
                                lemma_skip_update(qk.password@, pos, code);
                                assert(next_queue@[u as int].password@.skip(pos) == seq![code]
                                    + qk.password@.skip(pos + 1));
                                assert(seq![code] + s.drop_first() =~= s);
                            }
                        }
                    }
                }
                proof {
                    // a suffix starting with this code is now covered
                    assert forall|m: Memory, s: Seq<u8>|
                        s.len() == bl - pos && all_codes(s) && #[trigger] spec_forward_seq(m, s)
                            == target && (exists|cj: int|
                            0 <= cj < ci + 1 && spec_codes()[cj] == s[0]) implies exists|u: int|
                        0 <= u < next_queue@.len() && (#[trigger] next_queue@[u]).memory == m
                            && next_queue@[u].password@.skip(pos) == s by {
                        let cj = choose|cj: int|
                            0 <= cj < ci + 1 && spec_codes()[cj] == s[0];
                        if cj == ci {
                            assert(s[0] == code);
                            assert(s =~= seq![s[0]] + s.drop_first());
                            lemma_forward_seq_cons(m, s[0], s.drop_first());
                            assert forall|j: int|
                                0 <= j < s.drop_first().len() implies is_code(
                                #[trigger] s.drop_first()[j],
                            ) by {
                                assert(s.drop_first()[j] == s[j + 1]);
                            }
                            assert(spec_forward_seq(spec_forward(m, code), s.drop_first())
                                == target);
                            assert(s.drop_first().len() == bl - (pos + 1));
                            let kk = choose|kk: int|
                                0 <= kk < queue@.len() && (#[trigger] queue@[kk]).memory
                                    == spec_forward(m, code) && queue@[kk].password@.skip(
                                    pos + 1,
                                ) == s.drop_first();
                            assert(0 <= kk < nq);
                        } else {
                            assert(0 <= cj < ci && spec_codes()[cj] == s[0]);
                        }
                    }
                }
            }
            proof {
                // all 42 first characters are covered
                assert forall|m: Memory, s: Seq<u8>|
                    s.len() == bl - pos && all_codes(s) && #[trigger] spec_forward_seq(m, s)
                        == target implies exists|u: int|
                    0 <= u < next_queue@.len() && (#[trigger] next_queue@[u]).memory == m
                        && next_queue@[u].password@.skip(pos) == s by {
                    assert(is_code(s[0]));
                    let cj = choose|cj: int| 0 <= cj < 42 && spec_codes()[cj] == s[0];
                    assert(0 <= cj < 42 && spec_codes()[cj] == s[0]);
                }
            }
            queue = next_queue;
        }
        // sort by fingerprint
        let mut pairs: Vec<(u64, usize)> = Vec::new();
        let nq = queue.len();
        for k in 0..nq
            invariant
                nq == queue@.len(),
                pairs@.len() == k,
                forall|t: int|
                    0 <= t < k ==> #[trigger] pairs@[t] == (spec_key(queue@[t].memory), t as usize),
        {
            pairs.push((memory_key(&queue[k].memory), k));
        }
        let ghost pairs0 = pairs@;
        sort_pairs(&mut pairs);
        proof {
            broadcast use vstd::seq_lib::group_to_multiset_ensures;

            assert forall|j: int| 0 <= j < pairs@.len() implies ((#[trigger] pairs@[j]).1
                < queue@.len() && pairs@[j].0 == spec_key(
                queue@[pairs@[j].1 as int].memory,
            )) by {
                assert(pairs@.contains(pairs@[j]));
                assert(pairs@.to_multiset().count(pairs@[j]) > 0);
                assert(pairs0.to_multiset().count(pairs@[j]) > 0);
                assert(pairs0.contains(pairs@[j]));
                let t = choose|t: int| 0 <= t < pairs0.len() && pairs0[t] == pairs@[j];
                assert(pairs0[t] == (spec_key(queue@[t].memory), t as usize));
            }
        }
        let mut nodes: Vec<Node> = Vec::new();
        let npairs = pairs.len();
        for j in 0..npairs
            invariant
                npairs == pairs@.len(),
                nodes@.len() == j,
                forall|t: int|
                    0 <= t < pairs@.len() ==> ((#[trigger] pairs@[t]).1 < queue@.len()
                        && pairs@[t].0 == spec_key(queue@[pairs@[t].1 as int].memory)),
                forall|t: int, u: int|
                    0 <= t <= u < pairs@.len() ==> (#[trigger] pairs@[t]).0
                        <= (#[trigger] pairs@[u]).0,
                forall|t: int|
                    0 <= t < j ==> (#[trigger] nodes@[t]).memory
                        == queue@[pairs@[t].1 as int].memory && nodes@[t].password@
                        == queue@[pairs@[t].1 as int].password@,
        {
            let idx = pairs[j].1;
            nodes.push(clone_node(&queue[idx]));
        }
        let r = Backward { nodes, depth: backward_len };
        proof {
            assert(queue_inv(queue@, target, bl as int, 0));
            assert forall|t: int| 0 <= t < r.nodes@.len() implies spec_forward_seq(
                (#[trigger] r.nodes@[t]).memory,
                r.nodes@[t].password@,
            ) == target && r.nodes@[t].password@.len() == bl && all_codes(
                r.nodes@[t].password@,
            ) by {
                let q = queue@[pairs@[t].1 as int];
                assert(q.password@.skip(0) =~= q.password@);
                assert(spec_forward_seq(q.memory, q.password@) == target);
            }
            assert forall|m: Memory, s: Seq<u8>|
                s.len() == bl && all_codes(s) && #[trigger] spec_forward_seq(m, s)
                    == target implies exists|t: int|
                0 <= t < r.nodes@.len() && (#[trigger] r.nodes@[t]).memory == m
                    && r.nodes@[t].password@ == s by {
                broadcast use vstd::seq_lib::group_to_multiset_ensures;

                let k = choose|k: int|
                    0 <= k < queue@.len() && (#[trigger] queue@[k]).memory == m
                        && queue@[k].password@.skip(0) == s;
                assert(queue@[k].password@.skip(0) =~= queue@[k].password@);
                assert(pairs0[k] == (spec_key(queue@[k].memory), k as usize));
                assert(pairs0.contains(pairs0[k]));
                assert(pairs0.to_multiset().count(pairs0[k]) > 0);
                assert(pairs@.to_multiset().count(pairs0[k]) > 0);
                assert(pairs@.contains(pairs0[k]));
                let j = choose|j: int| 0 <= j < pairs@.len() && pairs@[j] == pairs0[k];
                assert(r.nodes@[j].memory == m && r.nodes@[j].password@ == s);
            }
            assert forall|a: int, b: int| 0 <= a <= b < r.nodes@.len() implies spec_key(
                (#[trigger] r.nodes@[a]).memory,
            ) <= spec_key((#[trigger] r.nodes@[b]).memory) by {
                assert(pairs@[a].0 <= pairs@[b].0);
            }
        }
        r
    }

    /// The depth of the table: the length of every stored suffix.
    pub fn len(&self) -> (r: usize)
        ensures
            r == self.spec_depth(),
    {
        self.depth
    }

    /// Whether some node pairs the state `m` with the suffix `p`.
    pub open spec fn has_node(&self, m: Memory, p: Seq<u8>) -> bool {
        exists|k: int|
            0 <= k < self.nodes@.len() && (#[trigger] self.nodes@[k]).memory == m
                && self.nodes@[k].password@ == p
    }

    /// The suffixes of every node whose state is `*memory`: a binary
    /// search by fingerprint, then a scan over the equal-key run.
    #[verifier::rlimit(100)]
    pub fn for_each_password(&self, memory: &Memory) -> (r: Vec<Vec<u8>>)
        requires
            self.wf(),
        ensures
            r@.len() == count_matching(self.nodes@, *memory),
            forall|t: int| 0 <= t < r@.len() ==> self.has_node(*memory, (#[trigger] r@[t])@),
            forall|k: int|
                0 <= k < self.nodes@.len() && (#[trigger] self.nodes@[k]).memory == *memory
                    ==> exists|t: int| 0 <= t < r@.len() && (#[trigger] r@[t])@
                    == self.nodes@[k].password@,
    {
        let key = memory_key(memory);
        let n = self.nodes.len();
        // lower bound: first index whose key is not below `key`
        let mut lo: usize = 0;
        let mut hi: usize = n;
        while lo < hi
            invariant
                lo <= hi <= n,
                n == self.nodes@.len(),
                key == spec_key(*memory),
                self.wf(),
                forall|t: int| 0 <= t < lo ==> spec_key((#[trigger] self.nodes@[t]).memory) < key,
                forall|t: int|
                    hi <= t < n ==> spec_key((#[trigger] self.nodes@[t]).memory) >= key,
            decreases hi - lo,
        {
            let mid = lo + (hi - lo) / 2;
            if self.nodes[mid].key() < key {
                lo = mid + 1;
            } else {
                hi = mid;
            }
        }
        let mut r: Vec<Vec<u8>> = Vec::new();
        let ghost start = lo as int;
        let mut t = lo;
        let mut done = false;
        while t < n && !done
            invariant
                start <= t as int <= n,
                n == self.nodes@.len(),
                key == spec_key(*memory),
                self.wf(),
                start == lo as int,
                forall|u: int| 0 <= u < start ==> spec_key((#[trigger] self.nodes@[u]).memory) < key,
                forall|u: int|
                    start <= u < t as int ==> spec_key((#[trigger] self.nodes@[u]).memory) == key,
                done ==> t < n && spec_key(self.nodes@[t as int].memory) != key,
                r@.len() == t - start,
                forall|u: int|
                    start <= u < t as int ==> (#[trigger] r@[u - start])@
                        == self.nodes@[u].password@,
            decreases n - t, (if done { 0int } else { 1int }),
        {
            if self.nodes[t].key() == key {
                r.push(clone_vec_u8(&self.nodes[t].password));
                t = t + 1;
            } else {
                done = true;
            }
        }
        proof {
            // every node outside [start, t) has a different key
            assert forall|k: int|
                0 <= k < self.nodes@.len() && (#[trigger] self.nodes@[k]).memory
                    == *memory implies exists|u: int|
                0 <= u < r@.len() && (#[trigger] r@[u])@ == self.nodes@[k].password@ by {
                assert(spec_key(self.nodes@[k].memory) == key);
                if k < start {
                    assert(spec_key(self.nodes@[k].memory) < key);
                } else if k >= t as int {
                    if done {
                        assert(spec_key(self.nodes@[t as int].memory) != key);
                        assert(spec_key(self.nodes@[t as int].memory) <= spec_key(
                            self.nodes@[k].memory,
                        ));
                        assert(spec_key(self.nodes@[t as int].memory) >= key);
                        assert(false);
                    } else {
                        assert(t == n);
                        assert(false);
                    }
                } else {
                    assert((r@[k - start])@ == self.nodes@[k].password@);
                }
            }
            assert forall|u: int| 0 <= u < r@.len() implies self.has_node(
                *memory,
                (#[trigger] r@[u])@,
            ) by {
                let k = u + start;
                assert(spec_key(self.nodes@[k].memory) == key);
                lemma_key_injective(self.nodes@[k].memory, *memory);
                assert((r@[k - start])@ == self.nodes@[k].password@);
                assert(k - start == u);
                assert(self.nodes@[k].memory == *memory && self.nodes@[k].password@ == (r@[u])@);
            }
            // the matching nodes are exactly the copied run, one entry each
            assert forall|k: int|
                0 <= k < self.nodes@.len() implies ((#[trigger] self.nodes@[k]).memory == *memory
                <==> (start <= k < t as int)) by {
                if start <= k < t as int {
                    assert(spec_key(self.nodes@[k].memory) == key);
                    lemma_key_injective(self.nodes@[k].memory, *memory);
                } else if self.nodes@[k].memory == *memory {
                    assert(spec_key(self.nodes@[k].memory) == key);
                    if k < start {
                        assert(spec_key(self.nodes@[k].memory) < key);
                        assert(false);
                    } else if done {
                        assert(spec_key(self.nodes@[t as int].memory) != key);
                        assert(spec_key(self.nodes@[t as int].memory) <= spec_key(
                            self.nodes@[k].memory,
                        ));
                        assert(spec_key(self.nodes@[t as int].memory) >= key);
                        assert(false);
                    } else {
                        assert(t == n);
                        assert(false);
                    }
                }
            }
            lemma_count_interval(self.nodes@, *memory, start, t as int);
        }
        r
    }
}

} // verus!