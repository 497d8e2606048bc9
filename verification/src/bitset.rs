//! A 256-bit set with cyclic rotation, union and intersection.
//!
//! The set is four 64-bit words; its view is the sequence of its 256 bits,
//! lowest first.  Rotation is the primitive the reachability tables lean
//! on: the image of a cell under one forward step is a rotation of the
//! cell by the step's additive offset.

use vstd::prelude::*;

verus! {

/// One bit of a 64-bit word.
pub open spec fn word_bit(w: u64, t: u64) -> bool {
    (w >> t) & 1 == 1
}

/// The bits of `s` moved up by `k` positions, cyclically.
pub open spec fn spec_rot_left(s: Seq<bool>, k: int) -> Seq<bool> {
    Seq::new(256, |j: int| s[(j - k + 256) % 256])
}

/// The bits of `s` moved down by `k` positions, cyclically.
pub open spec fn spec_rot_right(s: Seq<bool>, k: int) -> Seq<bool> {
    Seq::new(256, |j: int| s[(j + k) % 256])
}

/// Rotating left by `k` and then right by `k` gives the sequence back.
pub proof fn lemma_rot_left_right(s: Seq<bool>, k: int)
    requires
        s.len() == 256,
        0 <= k < 256,
    ensures
        spec_rot_right(spec_rot_left(s, k), k) == s,
{
    assert(spec_rot_right(spec_rot_left(s, k), k) =~= s);
}

/// Rotating right by `k` and then left by `k` gives the sequence back.
pub proof fn lemma_rot_right_left(s: Seq<bool>, k: int)
    requires
        s.len() == 256,
        0 <= k < 256,
    ensures
        spec_rot_left(spec_rot_right(s, k), k) == s,
{
    assert(spec_rot_left(spec_rot_right(s, k), k) =~= s);
}

/// A set of the numbers 0 to 255, as four 64-bit words.
#[derive(Clone, Copy)]
pub struct BitSet256 {
    pub bit: [u64; 4],
}

impl View for BitSet256 {
    type V = Seq<bool>;

    open spec fn view(&self) -> Seq<bool> {
        Seq::new(256, |i: int| word_bit(self.bit@[i / 64], (i % 64) as u64))
    }
}

impl Default for BitSet256 {
    /// The empty set.
    fn default() -> (r: Self)
        ensures
            r@.len() == 256,
            forall|i: int| 0 <= i < 256 ==> !r@[i],
    {
        let r = BitSet256 { bit: [0, 0, 0, 0] };
        proof {
            assert(forall|t: u64| !word_bit(0u64, t)) by (bit_vector);
        }
        r
    }
}

impl BitSet256 {
    /// The empty set.
    pub fn new() -> (r: Self)
        ensures
            r@.len() == 256,
            forall|i: int| 0 <= i < 256 ==> !r@[i],
    {
        Self::default()
    }

    /// Inverts one bit.
    pub fn flip(&mut self, i: usize)
        requires
            i < 256,
        ensures
            final(self)@.len() == 256,
            final(self)@[i as int] == !old(self)@[i as int],
            forall|j: int| 0 <= j < 256 && j != i ==> final(self)@[j] == old(self)@[j],
    {
        let w: usize = i / 64;
        let s: u64 = (i % 64) as u64;
        proof {
            assert(forall|x: u64, t: u64, s: u64|
                t < 64 && s < 64 ==> word_bit(x ^ (1u64 << s), t) == (if t == s {
                    !word_bit(x, t)
                } else {
                    word_bit(x, t)
                })) by (bit_vector);
        }
        self.bit[w] = self.bit[w] ^ (1u64 << s);
    }

    /// Sets one bit.
    pub fn set(&mut self, i: usize)
        requires
            i < 256,
        ensures
            final(self)@.len() == 256,
            final(self)@[i as int],
            forall|j: int| 0 <= j < 256 && j != i ==> final(self)@[j] == old(self)@[j],
    {
        let w: usize = i / 64;
        let s: u64 = (i % 64) as u64;
        proof {
            assert(forall|x: u64, t: u64, s: u64|
                t < 64 && s < 64 ==> word_bit(x | (1u64 << s), t) == (t == s || word_bit(x, t)))
                by (bit_vector);
        }
        self.bit[w] = self.bit[w] | (1u64 << s);
    }

    /// Reads one bit.
    pub fn get(&self, i: usize) -> (r: bool)
        requires
            i < 256,
        ensures
            r == self@[i as int],
    {
        let w = self.bit[i / 64];
        let s: u64 = (i % 64) as u64;
        (w >> s) & 1 == 1
    }

    /// Whether no bit is set.
    pub fn is_zero(&self) -> (r: bool)
        ensures
            r == (forall|j: int| 0 <= j < 256 ==> !self@[j]),
    {
        let r = self.bit[0] == 0 && self.bit[1] == 0 && self.bit[2] == 0 && self.bit[3] == 0;
        proof {
            if r {
                assert(forall|t: u64| !word_bit(0u64, t)) by (bit_vector);
            } else if self.bit@[0] != 0 {
                let t = lemma_nonzero_bit(self.bit@[0]);
                assert(self@[t as int] == word_bit(self.bit@[0], t));
            } else if self.bit@[1] != 0 {
                let t = lemma_nonzero_bit(self.bit@[1]);
                assert(self@[64 + t as int] == word_bit(self.bit@[1], t));
            } else if self.bit@[2] != 0 {
                let t = lemma_nonzero_bit(self.bit@[2]);
                assert(self@[128 + t as int] == word_bit(self.bit@[2], t));
            } else {
                let t = lemma_nonzero_bit(self.bit@[3]);
                assert(self@[192 + t as int] == word_bit(self.bit@[3], t));
            }
        }
        r
    }

    /// Adds every bit of `rhs` to the set.
    pub fn union_assign(&mut self, rhs: &BitSet256)
        ensures
            final(self)@.len() == 256,
            forall|j: int|
                0 <= j < 256 ==> (#[trigger] final(self)@[j]) == (old(self)@[j] || rhs@[j]),
    {
        proof {
            assert(forall|x: u64, y: u64, t: u64|
                word_bit(x | y, t) == (word_bit(x, t) || word_bit(y, t))) by (bit_vector);
        }
        self.bit[0] = self.bit[0] | rhs.bit[0];
        self.bit[1] = self.bit[1] | rhs.bit[1];
        self.bit[2] = self.bit[2] | rhs.bit[2];
        self.bit[3] = self.bit[3] | rhs.bit[3];
    }

    /// The intersection with `rhs`.
    pub fn and(&self, rhs: &BitSet256) -> (r: BitSet256)
        ensures
            r@.len() == 256,
            forall|j: int| 0 <= j < 256 ==> (#[trigger] r@[j]) == (self@[j] && rhs@[j]),
    {
        proof {
            assert(forall|x: u64, y: u64, t: u64|
                word_bit(x & y, t) == (word_bit(x, t) && word_bit(y, t))) by (bit_vector);
        }
        BitSet256 {
            bit: [
                self.bit[0] & rhs.bit[0],
                self.bit[1] & rhs.bit[1],
                self.bit[2] & rhs.bit[2],
                self.bit[3] & rhs.bit[3],
            ],
        }
    }

    /// The set rotated up by `i` positions.
    pub fn rot_left(&self, i: usize) -> (r: Self)
        requires
            i < 256,
        ensures
            r@ == spec_rot_left(self@, i as int),
    {
        let mut b = self.clone();
        b.mut_rot_left(i);
        b
    }

    /// The set rotated down by `i` positions.
    pub fn rot_right(&self, i: usize) -> (r: Self)
        requires
            i < 256,
        ensures
            r@ == spec_rot_right(self@, i as int),
    {
        let mut b = self.clone();
        b.mut_rot_right(i);
        b
    }

    /// Rotates the set up by `i` positions, in place.  Each destination
    /// word takes the tail of the source word `i / 64` places below it,
    /// joined with the head of the word before that one.
    pub fn mut_rot_left(&mut self, i: usize)
        requires
            i < 256,
        ensures
            final(self)@ == spec_rot_left(old(self)@, i as int),
    {
        let x = self.bit;
        let offset = i / 64;
        let rem = i % 64;
        for d in 0..4usize
            invariant
                x@ == old(self).bit@,
                self.bit@.len() == 4,
                offset == i / 64,
                rem == i % 64,
                i < 256,
                forall|v: int, t: u64|
                    0 <= v < d && t < 64 ==> #[trigger] word_bit(self.bit@[v], t) == old(self)@[(64
                        * v + t - i + 256) % 256],
        {
            let src = (d + 4 - offset) % 4;
            if rem == 0 {
                self.bit[d] = x[src];
                proof {
                    lemma_rot_left_word_copy(old(self)@, x@, d as int, offset as int, i as int);
                }
            } else {
                let lo: u64 = x[src] << (rem as u64);
                let hi: u64 = x[(src + 3) % 4] >> ((64 - rem) as u64);
                self.bit[d] = lo | hi;
                proof {
                    lemma_rot_left_word(
                        old(self)@,
                        x@,
                        d as int,
                        offset as int,
                        rem as u64,
                        i as int,
                    );
                }
            }
        }
        proof {
            assert forall|j: int| 0 <= j < 256 implies self@[j] == spec_rot_left(
                old(self)@,
                i as int,
            )[j] by {
                assert(self@[j] == word_bit(self.bit@[j / 64], (j % 64) as u64));
                assert(word_bit(self.bit@[j / 64], (j % 64) as u64) == old(self)@[(64 * (j / 64) + (
                j % 64) - i + 256) % 256]);
                assert(64 * (j / 64) + (j % 64) == j);
            }
            assert(final(self)@ =~= spec_rot_left(old(self)@, i as int));
        }
    }

    /// Rotates the set down by `i` positions, in place.  Each destination
    /// word takes the head of the source word `i / 64` places above it,
    /// joined with the tail of the word after that one.
    pub fn mut_rot_right(&mut self, i: usize)
        requires
            i < 256,
        ensures
            final(self)@ == spec_rot_right(old(self)@, i as int),
    {
        let x = self.bit;
        let offset = i / 64;
        let rem = i % 64;
        for d in 0..4usize
            invariant
                x@ == old(self).bit@,
                self.bit@.len() == 4,
                offset == i / 64,
                rem == i % 64,
                i < 256,
                forall|v: int, t: u64|
                    0 <= v < d && t < 64 ==> #[trigger] word_bit(self.bit@[v], t) == old(self)@[(64
                        * v + t + i) % 256],
        {
            let src = (d + offset) % 4;
            if rem == 0 {
                self.bit[d] = x[src];
                proof {
                    lemma_rot_right_word_copy(old(self)@, x@, d as int, offset as int, i as int);
                }
            } else {
                let lo: u64 = x[src] >> (rem as u64);
                let hi: u64 = x[(src + 1) % 4] << ((64 - rem) as u64);
                self.bit[d] = lo | hi;
                proof {
                    lemma_rot_right_word(
                        old(self)@,
                        x@,
                        d as int,
                        offset as int,
                        rem as u64,
                        i as int,
                    );
                }
            }
        }
        proof {
            assert forall|j: int| 0 <= j < 256 implies self@[j] == spec_rot_right(
                old(self)@,
                i as int,
            )[j] by {
                assert(self@[j] == word_bit(self.bit@[j / 64], (j % 64) as u64));
                assert(word_bit(self.bit@[j / 64], (j % 64) as u64) == old(self)@[(64 * (j / 64) + (
                j % 64) + i) % 256]);
                assert(64 * (j / 64) + (j % 64) == j);
            }
            assert(final(self)@ =~= spec_rot_right(old(self)@, i as int));
        }
    }

    /// The bits of the set, as a vector of 256 booleans.
    pub fn to_vec(&self) -> (r: Vec<bool>)
        ensures
            r@.len() == 256,
            forall|i: int| 0 <= i < 256 ==> r@[i] == self@[i],
    {
        let mut val: Vec<bool> = Vec::new();
        for i in 0..256usize
            invariant
                val@.len() == i,
                forall|j: int| 0 <= j < i ==> val@[j] == self@[j],
        {
            val.push(self.get(i));
        }
        val
    }
}

/// A nonzero word has a set bit; returns the position of one.
proof fn lemma_nonzero_bit(x: u64) -> (t: u64)
    requires
        x != 0,
    ensures
        t < 64,
        word_bit(x, t),
    decreases x,
{
    if x & 1 == 1 {
        assert(word_bit(x, 0)) by (bit_vector)
            requires
                x & 1 == 1,
        ;
        0
    } else {
        assert(x >> 1 != 0 && x >> 1 < x) by (bit_vector)
            requires
                x != 0 && x & 1 != 1,
        ;
        let t1 = lemma_nonzero_bit(x >> 1);
        assert(word_bit(x >> 1, t1) && t1 < 64 ==> t1 < 63 && word_bit(x, (t1 + 1) as u64))
            by (bit_vector);
        (t1 + 1) as u64
    }
}

/// `(64 * q + r) % 256` lands in word `q % 4` at offset `r`.
proof fn lemma_mod_word(q: int, r: int)
    requires
        0 <= q < 8,
        0 <= r < 64,
    ensures
        (64 * q + r) % 256 == 64 * (q % 4) + r,
{
    if q < 4 {
        assert(q % 4 == q);
        assert((64 * q + r) % 256 == 64 * q + r);
    } else {
        assert(q % 4 == q - 4);
        assert(64 * q + r == 256 + (64 * (q - 4) + r));
        assert((64 * q + r) % 256 == 64 * (q - 4) + r);
    }
}

/// Destination word `d` of an upward rotation by a multiple of 64 holds
/// source word `(d + 4 - offset) % 4`.
proof fn lemma_rot_left_word_copy(s: Seq<bool>, x: Seq<u64>, d: int, offset: int, i: int)
    requires
        s.len() == 256,
        x.len() == 4,
        0 <= d < 4,
        0 <= offset < 4,
        i == 64 * offset,
        forall|j: int| 0 <= j < 256 ==> s[j] == word_bit(x[j / 64], (j % 64) as u64),
    ensures
        forall|t: u64|
            t < 64 ==> #[trigger] word_bit(x[(d + 4 - offset) % 4], t) == s[(64 * d + t - i + 256)
                % 256],
{
    assert forall|t: u64| t < 64 implies #[trigger] word_bit(x[(d + 4 - offset) % 4], t) == s[(64
        * d + t - i + 256) % 256] by {
        let j = (64 * d + t - i + 256) % 256;
        lemma_mod_word(d + 4 - offset, t as int);
        assert(64 * d + t - i + 256 == 64 * (d + 4 - offset) + t);
        assert(j == 64 * ((d + 4 - offset) % 4) + t);
        assert(s[j] == word_bit(x[j / 64], (j % 64) as u64));
        assert(j / 64 == (d + 4 - offset) % 4 && j % 64 == t);
    }
}

/// Destination word `d` of a downward rotation by a multiple of 64 holds
/// source word `(d + offset) % 4`.
proof fn lemma_rot_right_word_copy(s: Seq<bool>, x: Seq<u64>, d: int, offset: int, i: int)
    requires
        s.len() == 256,
        x.len() == 4,
        0 <= d < 4,
        0 <= offset < 4,
        i == 64 * offset,
        forall|j: int| 0 <= j < 256 ==> s[j] == word_bit(x[j / 64], (j % 64) as u64),
    ensures
        forall|t: u64|
            t < 64 ==> #[trigger] word_bit(x[(d + offset) % 4], t) == s[(64 * d + t + i) % 256],
{
    assert forall|t: u64| t < 64 implies #[trigger] word_bit(x[(d + offset) % 4], t) == s[(64 * d
        + t + i) % 256] by {
        let j = (64 * d + t + i) % 256;
        lemma_mod_word(d + offset, t as int);
        assert(64 * d + t + i == 64 * (d + offset) + t);
        assert(j == 64 * ((d + offset) % 4) + t);
        assert(s[j] == word_bit(x[j / 64], (j % 64) as u64));
        assert(j / 64 == (d + offset) % 4 && j % 64 == t);
    }
}

/// Bit `t` of `a << rem | b >> (64 - rem)` comes from `a` when `t >= rem`
/// and from the top of `b` otherwise.
proof fn lemma_shift_pair_left(a: u64, b: u64, rem: u64)
    requires
        0 < rem < 64,
    ensures
        forall|t: u64|
            t < 64 ==> #[trigger] word_bit(a << rem | b >> ((64 - rem) as u64), t) == (if t >= rem {
                word_bit(a, (t - rem) as u64)
            } else {
                word_bit(b, (64 - rem + t) as u64)
            }),
{
    assert(forall|t: u64|
        t < 64 && 0 < rem < 64 ==> #[trigger] word_bit(a << rem | b >> ((64 - rem) as u64), t) == (
        if t >= rem {
            word_bit(a, (t - rem) as u64)
        } else {
            word_bit(b, (64 - rem + t) as u64)
        })) by (bit_vector);
}

/// Bit `t` of `a >> rem | b << (64 - rem)` comes from `a` when
/// `t < 64 - rem` and from the bottom of `b` otherwise.
proof fn lemma_shift_pair_right(a: u64, b: u64, rem: u64)
    requires
        0 < rem < 64,
    ensures
        forall|t: u64|
            t < 64 ==> #[trigger] word_bit(a >> rem | b << ((64 - rem) as u64), t) == (if t < 64
                - rem {
                word_bit(a, (t + rem) as u64)
            } else {
                word_bit(b, (t - (64 - rem)) as u64)
            }),
{
    assert(forall|t: u64|
        t < 64 && 0 < rem < 64 ==> #[trigger] word_bit(a >> rem | b << ((64 - rem) as u64), t) == (
        if t < 64 - rem {
            word_bit(a, (t + rem) as u64)
        } else {
            word_bit(b, (t - (64 - rem)) as u64)
        })) by (bit_vector);
}

/// Destination word `d` of an upward rotation by `i = 64 * offset + rem`.
proof fn lemma_rot_left_word(s: Seq<bool>, x: Seq<u64>, d: int, offset: int, rem: u64, i: int)
    requires
        s.len() == 256,
        x.len() == 4,
        0 <= d < 4,
        0 <= offset < 4,
        0 < rem < 64,
        i == 64 * offset + rem,
        forall|j: int| 0 <= j < 256 ==> s[j] == word_bit(x[j / 64], (j % 64) as u64),
    ensures
        forall|t: u64|
            t < 64 ==> #[trigger] word_bit(
                x[(d + 4 - offset) % 4] << rem | x[((d + 4 - offset) % 4 + 3) % 4] >> ((64
                    - rem) as u64),
                t,
            ) == s[(64 * d + t - i + 256) % 256],
{
    let src = (d + 4 - offset) % 4;
    lemma_shift_pair_left(x[src], x[(src + 3) % 4], rem);
    assert forall|t: u64| t < 64 implies #[trigger] word_bit(
        x[src] << rem | x[(src + 3) % 4] >> ((64 - rem) as u64),
        t,
    ) == s[(64 * d + t - i + 256) % 256] by {
        let j = (64 * d + t - i + 256) % 256;
        if t >= rem {
            lemma_mod_word(d + 4 - offset, t - rem);
            assert(64 * d + t - i + 256 == 64 * (d + 4 - offset) + (t - rem));
            assert(j == 64 * src + (t - rem));
            assert(s[j] == word_bit(x[j / 64], (j % 64) as u64));
            assert(j / 64 == src && j % 64 == t - rem);
        } else {
            lemma_mod_word(d + 3 - offset, 64 - rem + t);
            assert(64 * d + t - i + 256 == 64 * (d + 3 - offset) + (64 - rem + t));
            assert(j == 64 * ((d + 3 - offset) % 4) + (64 - rem + t));
            assert((src + 3) % 4 == (d + 3 - offset) % 4) by {
                if d + 4 - offset < 4 {
                    assert(src == d + 4 - offset);
                } else {
                    assert(src == d - offset);
                }
                if src + 3 < 4 {
                    assert((src + 3) % 4 == src + 3);
                } else {
                    assert((src + 3) % 4 == src - 1);
                }
                if d + 3 - offset < 4 {
                    assert((d + 3 - offset) % 4 == d + 3 - offset);
                } else {
                    assert((d + 3 - offset) % 4 == d - 1 - offset);
                }
            }
            assert(s[j] == word_bit(x[j / 64], (j % 64) as u64));
            assert(j / 64 == (src + 3) % 4 && j % 64 == 64 - rem + t);
        }
    }
}

/// Destination word `d` of a downward rotation by `i = 64 * offset + rem`.
proof fn lemma_rot_right_word(s: Seq<bool>, x: Seq<u64>, d: int, offset: int, rem: u64, i: int)
    requires
        s.len() == 256,
        x.len() == 4,
        0 <= d < 4,
        0 <= offset < 4,
        0 < rem < 64,
        i == 64 * offset + rem,
        forall|j: int| 0 <= j < 256 ==> s[j] == word_bit(x[j / 64], (j % 64) as u64),
    ensures
        forall|t: u64|
            t < 64 ==> #[trigger] word_bit(
                x[(d + offset) % 4] >> rem | x[((d + offset) % 4 + 1) % 4] << ((64 - rem) as u64),
                t,
            ) == s[(64 * d + t + i) % 256],
{
    let src = (d + offset) % 4;
    lemma_shift_pair_right(x[src], x[(src + 1) % 4], rem);
    assert forall|t: u64| t < 64 implies #[trigger] word_bit(
        x[src] >> rem | x[(src + 1) % 4] << ((64 - rem) as u64),
        t,
    ) == s[(64 * d + t + i) % 256] by {
        let j = (64 * d + t + i) % 256;
        if t < 64 - rem {
            lemma_mod_word(d + offset, t + rem);
            assert(64 * d + t + i == 64 * (d + offset) + (t + rem));
            assert(j == 64 * src + (t + rem));
            assert(s[j] == word_bit(x[j / 64], (j % 64) as u64));
            assert(j / 64 == src && j % 64 == t + rem);
        } else {
            lemma_mod_word(d + offset + 1, t - (64 - rem));
            assert(64 * d + t + i == 64 * (d + offset + 1) + (t - (64 - rem)));
            assert(j == 64 * ((d + offset + 1) % 4) + (t - (64 - rem)));
            assert((src + 1) % 4 == (d + offset + 1) % 4) by {
                if d + offset < 4 {
                    assert(src == d + offset);
                } else {
                    assert(src == d + offset - 4);
                }
                if src + 1 < 4 {
                    assert((src + 1) % 4 == src + 1);
                } else {
                    assert((src + 1) % 4 == src - 3);
                }
                if d + offset + 1 < 4 {
                    assert((d + offset + 1) % 4 == d + offset + 1);
                } else if d + offset + 1 < 8 {
                    assert((d + offset + 1) % 4 == d + offset - 3);
                }
            }
            assert(s[j] == word_bit(x[j / 64], (j % 64) as u64));
            assert(j / 64 == (src + 1) % 4 && j % 64 == t - (64 - rem));
        }
    }
}

} // verus!
