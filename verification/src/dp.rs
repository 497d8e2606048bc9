//! The shared machinery of the two reachability tables.
//!
//! A table is a tensor of 256-bit sets over `(length, f4, f5, z)`, where
//! `z` is a third state byte and the tracked bit position is a fourth.
//! The key fact is that one forward step moves the tracked byte by an
//! additive offset that depends only on the axis bytes and the input
//! character, so a whole cell steps by one cyclic rotation.  A forward
//! pass marks everything reachable from the initial state; a backward
//! pass, seeded from the backward table and confined to the forward
//! marks, keeps exactly what can still reach a backward node.  Three
//! facts describe the result: no state on a path from the initial state
//! to a backward node's projection ever loses its bit, so pruning never
//! loses a password; every set bit leads over the projection graph to a
//! backward node's projection; and for forward-visited states the two
//! together are an exact characterization of the bit.

use vstd::prelude::*;

verus! {

use crate::bitset::BitSet256;
use crate::cpu::{Memory, spec_forward, spec_forward_seq, spec_initial, forward_step};
use crate::domain::{is_code, all_codes, spec_codes, password_char_codes};
use crate::backward::Backward;

/// Which state byte a table tracks: `f7` over the axes `(f4, f5, f9)`,
/// or `f8` over the axes `(f4, f5, f7)`.
#[derive(Clone, Copy, PartialEq, Eq, Structural)]
pub enum DpAxis {
    TrackF7,
    TrackF8,
}

/// The size of the third axis: the running XOR `f9` of alphabet codes
/// never leaves the low 6 bits, so 64 values suffice for it.
pub open spec fn axis_size(ax: DpAxis) -> int {
    match ax {
        DpAxis::TrackF7 => 64,
        DpAxis::TrackF8 => 256,
    }
}

/// The third axis byte of a state.
pub open spec fn proj3(ax: DpAxis, m: Memory) -> u8 {
    match ax {
        DpAxis::TrackF7 => m.f9,
        DpAxis::TrackF8 => m.f7,
    }
}

/// The tracked byte of a state.
pub open spec fn value_of(ax: DpAxis, m: Memory) -> u8 {
    match ax {
        DpAxis::TrackF7 => m.f7,
        DpAxis::TrackF8 => m.f8,
    }
}

/// The state with everything beyond the axis bytes cleared.
pub open spec fn lift(ax: DpAxis, m: Memory) -> Memory {
    match ax {
        DpAxis::TrackF7 => Memory { f4: m.f4, f5: m.f5, f7: 0, f8: 0, f9: m.f9, fa: 0, fb: 0 },
        DpAxis::TrackF8 => Memory { f4: m.f4, f5: m.f5, f7: m.f7, f8: 0, f9: 0, fa: 0, fb: 0 },
    }
}

/// Cells per level.
pub open spec fn cells_per_level(ax: DpAxis) -> int {
    65536 * axis_size(ax)
}

/// The position of a state's cell within its level.
pub open spec fn grid_pos(ax: DpAxis, m: Memory) -> int {
    (m.f4 * 256 + m.f5) * axis_size(ax) + proj3(ax, m)
}

/// The cell of a state at a given prefix length.
pub open spec fn cell_of(ax: DpAxis, l: int, m: Memory) -> int {
    l * cells_per_level(ax) + grid_pos(ax, m)
}

/// Whether the bit of state `m` at prefix length `l` is set, with the
/// cell in range.
pub open spec fn table_bit(tab: Seq<BitSet256>, ax: DpAxis, l: int, m: Memory) -> bool {
    &&& 0 <= cell_of(ax, l, m) < tab.len()
    &&& tab[cell_of(ax, l, m)]@[value_of(ax, m) as int]
}

/// Shape of a table with `levels` levels.
pub open spec fn table_wf(tab: Seq<BitSet256>, ax: DpAxis, levels: int) -> bool {
    &&& tab.len() == levels * cells_per_level(ax)
    &&& forall|i: int| 0 <= i < tab.len() ==> (#[trigger] tab[i])@.len() == 256
}

/// Every bit set in `a` is set in `b`.
pub open spec fn bits_le(a: Seq<BitSet256>, b: Seq<BitSet256>) -> bool {
    &&& a.len() == b.len()
    &&& forall|i: int, t: int|
        0 <= i < a.len() && 0 <= t < 256 && (#[trigger] a[i]@[t]) ==> (#[trigger] b[i]@[t])
}

/// The state reached from the initial state by the codes of `s`.
pub open spec fn reach_state(s: Seq<u8>) -> Memory {
    spec_forward_seq(spec_initial(), s)
}

/// Every state reachable in at most `upto` steps has its bit set.
pub open spec fn visit_ok(tab: Seq<BitSet256>, ax: DpAxis, upto: int) -> bool {
    forall|s: Seq<u8>|
        all_codes(s) && s.len() <= upto ==> table_bit(tab, ax, s.len() as int, #[trigger] reach_state(s))
}

/// Whether some backward node's projection is the projection of `m`.
pub open spec fn is_back_proj(ax: DpAxis, b: Backward, m: Memory) -> bool {
    exists|i: int|
        0 <= i < b.nodes@.len() && proj_config(ax, (#[trigger] b.nodes@[i]).memory)
            == proj_config(ax, m)
}

/// Every state on a code path from the initial state to a state whose
/// projection matches a backward node, at prefix length at least `from`,
/// has its bit set.
pub open spec fn valid_ok(tab: Seq<BitSet256>, ax: DpAxis, b: Backward, from: int, ml: int) -> bool {
    forall|s: Seq<u8>, t: Seq<u8>|
        all_codes(s) && all_codes(t) && from <= s.len() && s.len() + t.len() == ml
            && is_back_proj(ax, b, #[trigger] reach_state(s + t)) ==> table_bit(
            tab,
            ax,
            s.len() as int,
            #[trigger] reach_state(s),
        )
}

/// A state reduced to what its table cell records: the axis bytes and
/// the tracked byte, everything else cleared.
pub open spec fn proj_config(ax: DpAxis, m: Memory) -> Memory {
    match ax {
        DpAxis::TrackF7 => Memory { f4: m.f4, f5: m.f5, f7: m.f7, f8: 0, f9: m.f9, fa: 0, fb: 0 },
        DpAxis::TrackF8 => Memory { f4: m.f4, f5: m.f5, f7: m.f7, f8: m.f8, f9: 0, fa: 0, fb: 0 },
    }
}

/// Equal projections agree on every byte a table cell reads.
proof fn lemma_same_proj_fields(ax: DpAxis, m1: Memory, m2: Memory)
    requires
        proj_config(ax, m1) == proj_config(ax, m2),
    ensures
        m1.f4 == m2.f4,
        m1.f5 == m2.f5,
        proj3(ax, m1) == proj3(ax, m2),
        value_of(ax, m1) == value_of(ax, m2),
{
}

/// A table bit depends only on the state's projection.
proof fn lemma_bit_same_proj(tab: Seq<BitSet256>, ax: DpAxis, l: int, m1: Memory, m2: Memory)
    requires
        proj_config(ax, m1) == proj_config(ax, m2),
        table_bit(tab, ax, l, m1),
    ensures
        table_bit(tab, ax, l, m2),
{
    lemma_same_proj_fields(ax, m1, m2);
}

/// Whether `k` steps over the projection graph can lead from `q` to the
/// projection of some backward node.
pub open spec fn can_finish(ax: DpAxis, b: Backward, q: Memory, k: nat) -> bool
    decreases k,
{
    if k == 0 {
        exists|i: int|
            0 <= i < b.nodes@.len() && proj_config(ax, (#[trigger] b.nodes@[i]).memory) == q
    } else {
        exists|c: u8|
            is_code(c) && can_finish(ax, b, proj_config(ax, spec_forward(q, c)), (k - 1) as nat)
    }
}

/// Every set bit records a projection from which some backward node's
/// projection is still reachable: the tables never over-approximate
/// beyond the projection graph.
pub open spec fn valid_sound(tab: Seq<BitSet256>, ax: DpAxis, b: Backward, ml: int) -> bool {
    forall|l: int, m: Memory|
        0 <= l <= ml && proj3(ax, m) < axis_size(ax) && #[trigger] table_bit(tab, ax, l, m)
            ==> can_finish(ax, b, proj_config(ax, m), (ml - l) as nat)
}

/// Partial progress of one level of the forward pass: successors are
/// marked for every source cell before `p`, and for cell `p` itself for
/// the first `ci` characters.
pub open spec fn fwd_partial(tab: Seq<BitSet256>, ax: DpAxis, len: int, p: int, ci: int) -> bool {
    forall|s: Seq<u8>, c: u8|
        all_codes(s) && s.len() == len && is_code(c) && (grid_pos(ax, reach_state(s)) < p || (
        grid_pos(ax, reach_state(s)) == p && exists|cj: int|
            0 <= cj < ci && spec_codes()[cj] == c)) ==> table_bit(
            tab,
            ax,
            len + 1,
            #[trigger] spec_forward(#[trigger] reach_state(s), c),
        )
}

/// Partial progress of one level of the backward pass.
pub open spec fn bwd_partial(
    tab: Seq<BitSet256>,
    ax: DpAxis,
    b: Backward,
    len: int,
    ml: int,
    p: int,
    ci: int,
) -> bool {
    forall|s: Seq<u8>, t: Seq<u8>|
        all_codes(s) && all_codes(t) && s.len() == len && s.len() + t.len() == ml
            && is_back_proj(ax, b, #[trigger] reach_state(s + t)) && (grid_pos(ax, reach_state(s))
            < p || (grid_pos(ax, reach_state(s)) == p && exists|cj: int|
            0 <= cj < ci && spec_codes()[cj] == t[0])) ==> table_bit(
            tab,
            ax,
            len,
            #[trigger] reach_state(s),
        )
}

/// Splitting the last character off a nonempty sequence splits the fold.
pub proof fn lemma_forward_seq_snoc(m: Memory, s: Seq<u8>)
    requires
        s.len() >= 1,
    ensures
        spec_forward_seq(m, s) == spec_forward(spec_forward_seq(m, s.drop_last()), s.last()),
    decreases s.len(),
{
    if s.len() == 1 {
        assert(s.drop_last() =~= Seq::<u8>::empty());
        assert(s.drop_first() =~= Seq::<u8>::empty());
        assert(spec_forward_seq(m, Seq::<u8>::empty()) == m);
        assert(spec_forward_seq(spec_forward(m, s[0]), Seq::<u8>::empty()) == spec_forward(
            m,
            s[0],
        ));
        assert(s.last() == s[0]);
    } else {
        lemma_forward_seq_snoc(spec_forward(m, s[0]), s.drop_first());
        assert(s.drop_first().drop_last() =~= s.drop_last().drop_first());
        assert(s.drop_first().last() == s.last());
        assert(s.drop_last()[0] == s[0]);
    }
}

/// Concatenation splits the fold.
pub proof fn lemma_forward_seq_app(m: Memory, s: Seq<u8>, t: Seq<u8>)
    ensures
        spec_forward_seq(m, s + t) == spec_forward_seq(spec_forward_seq(m, s), t),
    decreases s.len(),
{
    if s.len() == 0 {
        assert(s + t =~= t);
    } else {
        lemma_forward_seq_app(spec_forward(m, s[0]), s.drop_first(), t);
        assert((s + t).drop_first() =~= s.drop_first() + t);
        assert((s + t)[0] == s[0]);
    }
}

/// Every alphabet code fits in 6 bits.
pub proof fn lemma_code_bound(c: u8)
    requires
        is_code(c),
    ensures
        c < 0x40,
{
    let i = choose|i: int| 0 <= i < spec_codes().len() && spec_codes()[i] == c;
    assert(spec_codes().len() == 42);
    assert(spec_codes()[i] < 0x40) by {
        if i == 0 { assert(spec_codes()[0] == 0x00); } else if i == 1 { assert(spec_codes()[1] == 0x01); }
        else if i == 2 { assert(spec_codes()[2] == 0x02); } else if i == 3 { assert(spec_codes()[3] == 0x03); }
        else if i == 4 { assert(spec_codes()[4] == 0x04); } else if i == 5 { assert(spec_codes()[5] == 0x05); }
        else if i == 6 { assert(spec_codes()[6] == 0x08); } else if i == 7 { assert(spec_codes()[7] == 0x09); }
        else if i == 8 { assert(spec_codes()[8] == 0x0A); } else if i == 9 { assert(spec_codes()[9] == 0x0B); }
        else if i == 10 { assert(spec_codes()[10] == 0x0C); } else if i == 11 { assert(spec_codes()[11] == 0x0D); }
        else if i == 12 { assert(spec_codes()[12] == 0x10); } else if i == 13 { assert(spec_codes()[13] == 0x11); }
        else if i == 14 { assert(spec_codes()[14] == 0x12); } else if i == 15 { assert(spec_codes()[15] == 0x13); }
        else if i == 16 { assert(spec_codes()[16] == 0x14); } else if i == 17 { assert(spec_codes()[17] == 0x15); }
        else if i == 18 { assert(spec_codes()[18] == 0x18); } else if i == 19 { assert(spec_codes()[19] == 0x19); }
        else if i == 20 { assert(spec_codes()[20] == 0x1A); } else if i == 21 { assert(spec_codes()[21] == 0x1B); }
        else if i == 22 { assert(spec_codes()[22] == 0x1C); } else if i == 23 { assert(spec_codes()[23] == 0x1D); }
        else if i == 24 { assert(spec_codes()[24] == 0x20); } else if i == 25 { assert(spec_codes()[25] == 0x21); }
        else if i == 26 { assert(spec_codes()[26] == 0x22); } else if i == 27 { assert(spec_codes()[27] == 0x23); }
        else if i == 28 { assert(spec_codes()[28] == 0x24); } else if i == 29 { assert(spec_codes()[29] == 0x25); }
        else if i == 30 { assert(spec_codes()[30] == 0x28); } else if i == 31 { assert(spec_codes()[31] == 0x29); }
        else if i == 32 { assert(spec_codes()[32] == 0x2A); } else if i == 33 { assert(spec_codes()[33] == 0x2B); }
        else if i == 34 { assert(spec_codes()[34] == 0x2C); } else if i == 35 { assert(spec_codes()[35] == 0x2D); }
        else if i == 36 { assert(spec_codes()[36] == 0x30); } else if i == 37 { assert(spec_codes()[37] == 0x31); }
        else if i == 38 { assert(spec_codes()[38] == 0x32); } else if i == 39 { assert(spec_codes()[39] == 0x33); }
        else if i == 40 { assert(spec_codes()[40] == 0x34); } else { assert(spec_codes()[41] == 0x35); }
    }
}

/// A state reached by alphabet codes keeps its third axis byte inside
/// the axis: the XOR accumulator `f9` never leaves the low 6 bits.
pub proof fn lemma_reach_proj_ok(ax: DpAxis, s: Seq<u8>)
    requires
        all_codes(s),
    ensures
        proj3(ax, reach_state(s)) < axis_size(ax),
    decreases s.len(),
{
    match ax {
        DpAxis::TrackF8 => {},
        DpAxis::TrackF7 => {
            if s.len() == 0 {
                assert(reach_state(s) == spec_initial());
            } else {
                let s0 = s.drop_last();
                assert(all_codes(s0)) by {
                    assert(forall|j: int| 0 <= j < s0.len() ==> s0[j] == s[j]);
                }
                lemma_reach_proj_ok(ax, s0);
                lemma_forward_seq_snoc(spec_initial(), s);
                let c = s.last();
                assert(is_code(c));
                lemma_code_bound(c);
                let f9 = reach_state(s0).f9;
                assert(spec_forward(reach_state(s0), c).f9 == f9 ^ c);
                assert(f9 < 0x40 && c < 0x40 ==> (f9 ^ c) < 0x40) by (bit_vector);
            }
        },
    }
}

/// One forward step acts on a cell as an additive offset of the tracked
/// byte: the next axis bytes and the offset are those of the lifted
/// state, and the next tracked byte is the old one moved by the offset.
pub proof fn lemma_dp_step(ax: DpAxis, m: Memory, a: u8)
    ensures
        ({
            let l = spec_forward(lift(ax, m), a);
            let f = spec_forward(m, a);
            &&& lift(ax, f) == lift(ax, l)
            &&& value_of(ax, f) as int == (value_of(ax, m) + value_of(ax, l)) % 256
        }),
{
    let l = spec_forward(lift(ax, m), a);
    let f = spec_forward(m, a);
    match ax {
        DpAxis::TrackF7 => {
            let c1: int = if crate::cpu::spec_crc(m.f4, m.f5, a).0 >= 0xE5 {
                1
            } else {
                0
            };
            assert(l.f7 as int == (a + c1) % 256);
            assert(f.f7 as int == (a + m.f7 + c1) % 256);
            vstd::arithmetic::div_mod::lemma_add_mod_noop_right(m.f7 as int, a + c1, 256);
            assert((m.f7 + (a + c1) % 256) % 256 == (m.f7 + (a + c1)) % 256);
        },
        DpAxis::TrackF8 => {
            let crc = crate::cpu::spec_crc(m.f4, m.f5, a);
            let c1: int = if crc.0 >= 0xE5 {
                1
            } else {
                0
            };
            let c2: int = if a + m.f7 + c1 >= 256 {
                1
            } else {
                0
            };
            assert(l.f8 as int == (crc.1 + c2) % 256);
            assert(f.f8 as int == (m.f8 + crc.1 + c2) % 256);
            vstd::arithmetic::div_mod::lemma_add_mod_noop_right(m.f8 as int, crc.1 + c2, 256);
            assert((m.f8 + (crc.1 + c2) % 256) % 256 == (m.f8 + (crc.1 + c2)) % 256);
        },
    }
}

/// A set bit stays set when bits only get added.
pub proof fn lemma_bit_mono(a: Seq<BitSet256>, b: Seq<BitSet256>, ax: DpAxis, l: int, m: Memory)
    requires
        bits_le(a, b),
        table_bit(a, ax, l, m),
        forall|i: int| 0 <= i < b.len() ==> (#[trigger] b[i])@.len() == 256,
        forall|i: int| 0 <= i < a.len() ==> (#[trigger] a[i])@.len() == 256,
    ensures
        table_bit(b, ax, l, m),
{
    assert(0 <= value_of(ax, m) < 256);
}

/// The exec form of the axis size.
pub fn axis_size_x(ax: DpAxis) -> (r: usize)
    ensures
        r as int == axis_size(ax),
{
    match ax {
        DpAxis::TrackF7 => 64,
        DpAxis::TrackF8 => 256,
    }
}

/// The exec form of the lifted state.
pub fn lift_x(ax: DpAxis, f4: u8, f5: u8, z: u8) -> (r: Memory)
    ensures
        r.f4 == f4 && r.f5 == f5 && proj3(ax, r) == z && value_of(ax, r) == 0,
        r == lift(ax, r),
{
    match ax {
        DpAxis::TrackF7 => Memory { f4, f5, f7: 0, f8: 0, f9: z, fa: 0, fb: 0 },
        DpAxis::TrackF8 => Memory { f4, f5, f7: z, f8: 0, f9: 0, fa: 0, fb: 0 },
    }
}

/// The exec form of the third axis byte.
pub fn proj_x(ax: DpAxis, m: &Memory) -> (r: u8)
    ensures
        r == proj3(ax, *m),
{
    match ax {
        DpAxis::TrackF7 => m.f9,
        DpAxis::TrackF8 => m.f7,
    }
}

/// The exec form of the tracked byte.
pub fn value_x(ax: DpAxis, m: &Memory) -> (r: u8)
    ensures
        r == value_of(ax, *m),
{
    match ax {
        DpAxis::TrackF7 => m.f7,
        DpAxis::TrackF8 => m.f8,
    }
}


/// How `p` splits into grid components by division.
proof fn lemma_grid_split(p: int, axis: int)
    requires
        axis == 64 || axis == 256,
        0 <= p < 65536 * axis,
    ensures
        ({
            let f4 = p / (256 * axis);
            let rem = p % (256 * axis);
            let f5 = rem / axis;
            let z = rem % axis;
            0 <= f4 < 256 && 0 <= f5 < 256 && 0 <= z < axis && p == (f4 * 256 + f5) * axis + z
        }),
{
    vstd::arithmetic::div_mod::lemma_fundamental_div_mod(p, 256 * axis);
    vstd::arithmetic::div_mod::lemma_fundamental_div_mod(p % (256 * axis), axis);
    vstd::arithmetic::div_mod::lemma_multiply_divide_lt(p, 256 * axis, 256);
    vstd::arithmetic::div_mod::lemma_multiply_divide_lt(p % (256 * axis), axis, 256);
    let f4 = p / (256 * axis);
    let rem = p % (256 * axis);
    let f5 = rem / axis;
    let z = rem % axis;
    assert(p == (f4 * 256 + f5) * axis + z) by (nonlinear_arith)
        requires
            p == (256 * axis) * f4 + rem,
            rem == axis * f5 + z,
            f4 == p / (256 * axis),
            rem == p % (256 * axis),
            f5 == rem / axis,
            z == rem % axis,
    ;
}

/// The grid components of a position are unique.
proof fn lemma_grid_components(x: int, f4: int, f5: int, z: int, axis: int)
    requires
        axis == 64 || axis == 256,
        0 <= f4 < 256,
        0 <= f5 < 256,
        0 <= z < axis,
        x == (f4 * 256 + f5) * axis + z,
    ensures
        z == x % axis,
        f5 == (x / axis) % 256,
        f4 == (x / axis) / 256,
        0 <= x < 65536 * axis,
{
    assert(x == (f4 * 256 + f5) * axis + z && 0 <= x < 65536 * axis) by (nonlinear_arith)
        requires
            x == (f4 * 256 + f5) * axis + z,
            0 <= f4 < 256 && 0 <= f5 < 256 && 0 <= z < axis,
            axis == 64 || axis == 256,
    ;
    assert((f4 * 256 + f5) * axis + z == (f4 * 256 + f5) * axis + z);
    vstd::arithmetic::div_mod::lemma_fundamental_div_mod_converse(x, axis, f4 * 256 + f5, z);
    vstd::arithmetic::div_mod::lemma_fundamental_div_mod_converse(x / axis, 256, f4, f5);
}

/// A state's grid position stays inside one level.
proof fn lemma_grid_pos_range(ax: DpAxis, m: Memory)
    requires
        proj3(ax, m) < axis_size(ax),
    ensures
        0 <= grid_pos(ax, m) < cells_per_level(ax),
{
    let axis = axis_size(ax);
    assert(0 <= (m.f4 * 256 + m.f5) * axis + proj3(ax, m) < 65536 * axis) by (nonlinear_arith)
        requires
            m.f4 < 256 && m.f5 < 256 && proj3(ax, m) < axis,
            axis == 64 || axis == 256,
    ;
}

/// Bits only grew: one cell gained bits, the others are unchanged.
proof fn lemma_bits_le_update(a: Seq<BitSet256>, b: Seq<BitSet256>, j: int)
    requires
        a.len() == b.len(),
        0 <= j < a.len(),
        forall|i: int| 0 <= i < a.len() && i != j ==> (#[trigger] b[i])@ == a[i]@,
        forall|t: int| 0 <= t < 256 && (#[trigger] a[j]@[t]) ==> b[j]@[t],
    ensures
        bits_le(a, b),
{
}

/// Everything marked reachable stays marked when bits only grow.
proof fn lemma_visit_ok_mono(a: Seq<BitSet256>, b: Seq<BitSet256>, ax: DpAxis, upto: int)
    requires
        bits_le(a, b),
        visit_ok(a, ax, upto),
        forall|i: int| 0 <= i < a.len() ==> (#[trigger] a[i])@.len() == 256,
        forall|i: int| 0 <= i < b.len() ==> (#[trigger] b[i])@.len() == 256,
    ensures
        visit_ok(b, ax, upto),
{
    assert forall|s: Seq<u8>| all_codes(s) && s.len() <= upto implies table_bit(
        b,
        ax,
        s.len() as int,
        #[trigger] reach_state(s),
    ) by {
        lemma_bit_mono(a, b, ax, s.len() as int, reach_state(s));
    }
}

/// Forward-pass progress survives when bits only grow.
proof fn lemma_fwd_partial_mono(
    a: Seq<BitSet256>,
    b: Seq<BitSet256>,
    ax: DpAxis,
    len: int,
    p: int,
    ci: int,
)
    requires
        bits_le(a, b),
        fwd_partial(a, ax, len, p, ci),
        forall|i: int| 0 <= i < a.len() ==> (#[trigger] a[i])@.len() == 256,
        forall|i: int| 0 <= i < b.len() ==> (#[trigger] b[i])@.len() == 256,
    ensures
        fwd_partial(b, ax, len, p, ci),
{
    assert forall|s: Seq<u8>, c: u8|
        all_codes(s) && s.len() == len && is_code(c) && (grid_pos(ax, reach_state(s)) < p || (
        grid_pos(ax, reach_state(s)) == p && exists|cj: int|
            0 <= cj < ci && spec_codes()[cj] == c)) implies table_bit(
        b,
        ax,
        len + 1,
        #[trigger] spec_forward(#[trigger] reach_state(s), c),
    ) by {
        lemma_bit_mono(a, b, ax, len + 1, spec_forward(reach_state(s), c));
    }
}

/// Backward-pass progress survives when bits only grow.
proof fn lemma_bwd_partial_mono(
    a: Seq<BitSet256>,
    b: Seq<BitSet256>,
    ax: DpAxis,
    back: Backward,
    len: int,
    ml: int,
    p: int,
    ci: int,
)
    requires
        bits_le(a, b),
        bwd_partial(a, ax, back, len, ml, p, ci),
        forall|i: int| 0 <= i < a.len() ==> (#[trigger] a[i])@.len() == 256,
        forall|i: int| 0 <= i < b.len() ==> (#[trigger] b[i])@.len() == 256,
    ensures
        bwd_partial(b, ax, back, len, ml, p, ci),
{
    assert forall|s: Seq<u8>, t: Seq<u8>|
        all_codes(s) && all_codes(t) && s.len() == len && s.len() + t.len() == ml && is_back_proj(
            ax,
            back,
            #[trigger] reach_state(s + t),
        ) && (grid_pos(ax, reach_state(s)) < p || (grid_pos(ax, reach_state(s)) == p && exists|
            cj: int,
        |
            0 <= cj < ci && spec_codes()[cj] == t[0])) implies table_bit(
        b,
        ax,
        len,
        #[trigger] reach_state(s),
    ) by {
        lemma_bit_mono(a, b, ax, len, reach_state(s));
    }
}

/// Backward-reachability marks survive when bits only grow.
proof fn lemma_valid_ok_mono(
    a: Seq<BitSet256>,
    b: Seq<BitSet256>,
    ax: DpAxis,
    back: Backward,
    from: int,
    ml: int,
)
    requires
        bits_le(a, b),
        valid_ok(a, ax, back, from, ml),
        forall|i: int| 0 <= i < a.len() ==> (#[trigger] a[i])@.len() == 256,
        forall|i: int| 0 <= i < b.len() ==> (#[trigger] b[i])@.len() == 256,
    ensures
        valid_ok(b, ax, back, from, ml),
{
    assert forall|s: Seq<u8>, t: Seq<u8>|
        all_codes(s) && all_codes(t) && from <= s.len() && s.len() + t.len() == ml
            && is_back_proj(ax, back, #[trigger] reach_state(s + t)) implies table_bit(
        b,
        ax,
        s.len() as int,
        #[trigger] reach_state(s),
    ) by {
        lemma_bit_mono(a, b, ax, s.len() as int, reach_state(s));
    }
}

/// Appending one code steps the reached state once.
pub proof fn lemma_reach_snoc(s: Seq<u8>, c: u8)
    ensures
        reach_state(s + seq![c]) == spec_forward(reach_state(s), c),
        all_codes(s) && is_code(c) ==> all_codes(s + seq![c]),
{
    lemma_forward_seq_app(spec_initial(), s, seq![c]);
    let one = seq![c];
    assert(one.drop_first() =~= Seq::<u8>::empty());
    assert(spec_forward_seq(spec_forward(reach_state(s), c), Seq::<u8>::empty()) == spec_forward(
        reach_state(s),
        c,
    ));
    if all_codes(s) && is_code(c) {
        assert forall|j: int| 0 <= j < (s + one).len() implies is_code(#[trigger] (s + one)[j]) by {
            if j < s.len() {
                assert((s + one)[j] == s[j]);
            } else {
                assert((s + one)[j] == c);
            }
        }
    }
}



/// An empty table of `levels` levels.
fn alloc_table(ax: DpAxis, levels: usize) -> (tab: Vec<BitSet256>)
    requires
        levels <= 15,
    ensures
        table_wf(tab@, ax, levels as int),
        forall|i: int, t: int| 0 <= i < tab@.len() && 0 <= t < 256 ==> !(#[trigger] tab@[i]@[t]),
{
    let axis = axis_size_x(ax);
    proof {
        assert(axis == 64 || axis == 256);
    }
    let cpl: usize = 65536 * axis;
    proof {
        assert(levels * cpl <= 15 * 0x1000000) by (nonlinear_arith)
            requires
                levels <= 15,
                cpl <= 0x1000000,
        ;
    }
    let total: usize = levels * cpl;
    let mut tab: Vec<BitSet256> = Vec::with_capacity(total);
    for _i in 0..total
        invariant
            tab@.len() == _i,
            forall|i: int| 0 <= i < tab@.len() ==> (#[trigger] tab@[i])@.len() == 256,
            forall|i: int, t: int| 0 <= i < tab@.len() && 0 <= t < 256 ==> !(#[trigger] tab@[i]@[t]),
    {
        tab.push(BitSet256::new());
    }
    tab
}


/// After uniting cell `j` with the rotation of cell `p`'s sets by the
/// step offset of `code`, the successors through `code` of every state
/// sitting in cell `p` are marked.
#[verifier::rlimit(100)]
#[verifier::spinoff_prover]
proof fn lemma_fwd_establish(
    before: Seq<BitSet256>,
    after: Seq<BitSet256>,
    ax: DpAxis,
    len: int,
    p: int,
    ci: int,
    code: u8,
    lm0: Memory,
    lm: Memory,
    off: u8,
    i: int,
    j: int,
    rotated: BitSet256,
)
    requires
        0 <= ci < 42,
        code == spec_codes()[ci],
        is_code(code),
        0 <= p < cells_per_level(ax),
        lm0 == lift(ax, lm0),
        value_of(ax, lm0) == 0,
        grid_pos(ax, lm0) == p,
        proj3(ax, lm0) < axis_size(ax),
        lm == spec_forward(lm0, code),
        off == value_of(ax, lm),
        len >= 0,
        i == len * cells_per_level(ax) + p,
        j == (len + 1) * cells_per_level(ax) + grid_pos(ax, lm),
        0 <= i < before.len(),
        0 <= j < before.len(),
        i != j,
        after.len() == before.len(),
        forall|k: int| 0 <= k < before.len() ==> (#[trigger] before[k])@.len() == 256,
        forall|k: int| 0 <= k < after.len() ==> (#[trigger] after[k])@.len() == 256,
        bits_le(before, after),
        visit_ok(before, ax, len),
        fwd_partial(before, ax, len, p, ci),
        rotated@ == crate::bitset::spec_rot_left(before[i]@, off as int),
        forall|t: int| 0 <= t < 256 ==> (#[trigger] after[j]@[t]) == (before[j]@[t] || rotated@[t]),
    ensures
        fwd_partial(after, ax, len, p, ci + 1),
{
    let axis = axis_size(ax);
    assert forall|s: Seq<u8>, c: u8|
        all_codes(s) && s.len() == len && is_code(c) && (grid_pos(ax, reach_state(s)) < p || (
        grid_pos(ax, reach_state(s)) == p && exists|cj: int|
            0 <= cj < ci + 1 && spec_codes()[cj] == c)) implies table_bit(
        after,
        ax,
        len + 1,
        #[trigger] spec_forward(#[trigger] reach_state(s), c),
    ) by {
        let m = reach_state(s);
        if grid_pos(ax, m) == p && c == code {
            let mm = spec_forward(m, c);
            lemma_dp_step(ax, m, c);
            lemma_reach_proj_ok(ax, s);
            lemma_grid_components(
                p,
                lm0.f4 as int,
                lm0.f5 as int,
                proj3(ax, lm0) as int,
                axis,
            );
            lemma_grid_components(p, m.f4 as int, m.f5 as int, proj3(ax, m) as int, axis);
            assert(m.f4 == lm0.f4 && m.f5 == lm0.f5 && proj3(ax, m) == proj3(ax, lm0));
            assert(lift(ax, m) == lm0);
            // the step lemma speaks of the lifted run, which is exactly lm
            assert(lift(ax, mm) == lift(ax, lm));
            assert(mm.f4 == lm.f4 && mm.f5 == lm.f5 && proj3(ax, mm) == proj3(ax, lm));
            assert(grid_pos(ax, mm) == grid_pos(ax, lm));
            assert(value_of(ax, mm) as int == (value_of(ax, m) + off) % 256);
            assert(cell_of(ax, len + 1, mm) == j);
            assert(table_bit(before, ax, len, m));
            assert(cell_of(ax, len, m) == i);
            assert(before[i]@[value_of(ax, m) as int]);
            assert(rotated@[value_of(ax, mm) as int] == before[i]@[(value_of(ax, mm) - off + 256)
                % 256]);
            assert((value_of(ax, mm) - off + 256) % 256 == value_of(ax, m) as int) by {
                let vm = value_of(ax, m) as int;
                let vmm = value_of(ax, mm) as int;
                assert(vmm == (vm + off) % 256);
                if vm + off < 256 {
                    assert(vmm == vm + off);
                } else {
                    assert(vmm == vm + off - 256);
                }
            }
            assert(after[j]@[value_of(ax, mm) as int]);
            assert(table_bit(after, ax, len + 1, mm));
        } else {
            if grid_pos(ax, m) == p {
                let cj = choose|cj: int| 0 <= cj < ci + 1 && spec_codes()[cj] == c;
                assert(cj < ci);
            }
            assert(table_bit(before, ax, len + 1, spec_forward(m, c)));
            lemma_bit_mono(before, after, ax, len + 1, spec_forward(m, c));
        }
    }
}

/// The forward reachability marks: one pass per prefix length, rotating
/// each visited cell forward over every character.
#[verifier::rlimit(100)]
fn build_visit(ax: DpAxis, ml: usize) -> (visit: Vec<BitSet256>)
    requires
        ml <= 14,
    ensures
        table_wf(visit@, ax, ml as int + 1),
        visit_ok(visit@, ax, ml as int),
{
    let axis = axis_size_x(ax);
    let cpl: usize = 65536 * axis;
    let codes = password_char_codes();
    proof {
        assert(axis == 64 || axis == 256);
    }
    let mut visit = alloc_table(ax, ml + 1);
    proof {
        assert(visit@.len() == (ml + 1) * cells_per_level(ax));
        assert(visit@.len() > 0) by (nonlinear_arith)
            requires
                visit@.len() == (ml + 1) * cells_per_level(ax),
                cells_per_level(ax) > 0,
        ;
    }
    visit[0].set(0);
    proof {
        assert forall|s: Seq<u8>| all_codes(s) && s.len() <= 0 implies table_bit(
            visit@,
            ax,
            s.len() as int,
            #[trigger] reach_state(s),
        ) by {
            assert(s =~= Seq::<u8>::empty());
            assert(reach_state(s) == spec_initial());
            assert(grid_pos(ax, spec_initial()) == 0);
            assert(cell_of(ax, 0, spec_initial()) == 0);
            assert(value_of(ax, spec_initial()) == 0);
            assert(visit@[0]@[0]);
        }
    }
    for len in 0..ml
        invariant
            axis == axis_size(ax),
            cpl == 65536 * axis,
            ml <= 14,
            codes@ == spec_codes(),
            table_wf(visit@, ax, ml as int + 1),
            visit_ok(visit@, ax, len as int),
    {
        for p in 0..cpl
            invariant
                axis == axis_size(ax),
                cpl == 65536 * axis,
                ml <= 14,
                len < ml,
                codes@ == spec_codes(),
                table_wf(visit@, ax, ml as int + 1),
                visit_ok(visit@, ax, len as int),
                fwd_partial(visit@, ax, len as int, p as int, 0),
        {
            let f4u: usize = p / (256 * axis);
            let rem: usize = p % (256 * axis);
            let f5u: usize = rem / axis;
            let zu: usize = rem % axis;
            proof {
                lemma_grid_split(p as int, axis as int);
                assert(cpl <= 0x1000000);
                assert(len * cpl + p < 0x10000000 && len * cpl + p < visit@.len())
                    by (nonlinear_arith)
                    requires
                        p < cpl,
                        len < ml,
                        ml <= 14,
                        cpl <= 0x1000000,
                        visit@.len() == (ml + 1) * cpl,
                        0 < cpl,
                ;
            }
            let i: usize = len * cpl + p;
            if !visit[i].is_zero() {
                let nc = codes.len();
                for ci in 0..nc
                    invariant
                        nc == 42,
                        axis == axis_size(ax),
                        cpl == 65536 * axis,
                        ml <= 14,
                        len < ml,
                        p < cpl,
                        codes@ == spec_codes(),
                        f4u < 256 && f5u < 256 && zu < axis,
                        p == (f4u * 256 + f5u) * axis + zu,
                        i == len * cpl + p,
                        i < visit@.len(),
                        table_wf(visit@, ax, ml as int + 1),
                        visit_ok(visit@, ax, len as int),
                        fwd_partial(visit@, ax, len as int, p as int, ci as int),
                {
                    let code = codes[ci];
                    proof {
                        assert(is_code(code));
                    }
                    let mut lm = lift_x(ax, f4u as u8, f5u as u8, zu as u8);
                    let ghost lm0 = lm;
                    forward_step(&mut lm, code);
                    let nz = proj_x(ax, &lm);
                    let off = value_x(ax, &lm);
                    proof {
                        match ax {
                            DpAxis::TrackF7 => {
                                lemma_code_bound(code);
                                let z8 = lm0.f9;
                                assert(z8 < 0x40 && code < 0x40 ==> (z8 ^ code) < 0x40)
                                    by (bit_vector);
                            },
                            DpAxis::TrackF8 => {},
                        }
                        assert(nz < axis);
                    }
                    proof {
                        lemma_grid_pos_range(ax, lm);
                        assert((lm.f4 as int * 256 + lm.f5 as int) * axis + nz < cpl)
                            by (nonlinear_arith)
                            requires
                                lm.f4 < 256,
                                lm.f5 < 256,
                                nz < axis,
                                cpl == 65536 * axis,
                                axis == 64 || axis == 256,
                        ;
                        assert(cpl <= 0x1000000);
                        assert((len + 1) * cpl + cpl <= visit@.len() && (len + 1) * cpl + cpl
                            < 0x10000000) by (nonlinear_arith)
                            requires
                                len + 1 <= ml,
                                ml <= 14,
                                cpl <= 0x1000000,
                                visit@.len() == (ml + 1) * cpl,
                                0 < cpl,
                        ;
                    }
                    let gp: usize = (lm.f4 as usize * 256 + lm.f5 as usize) * axis + nz as usize;
                    let j: usize = (len + 1) * cpl + gp;
                    proof {
                        assert(gp == grid_pos(ax, lm));
                        assert(i != j) by (nonlinear_arith)
                            requires
                                i == len * cpl + p,
                                j == (len + 1) * cpl + gp,
                                p < cpl,
                                0 <= gp,
                        ;
                    }
                    let rotated = visit[i].rot_left(off as usize);
                    let ghost before = visit@;
                    visit[j].union_assign(&rotated);
                    proof {
                        assert(visit@[j as int]@.len() == 256);
                        assert(visit@ =~= before.update(j as int, visit@[j as int]));
                        assert(forall|t: int|
                            0 <= t < 256 ==> (#[trigger] visit@[j as int]@[t]) == (before[j as int]@[t]
                                || rotated@[t]));
                        lemma_bits_le_update(before, visit@, j as int);
                        lemma_visit_ok_mono(before, visit@, ax, len as int);
                        lemma_fwd_establish(
                            before,
                            visit@,
                            ax,
                            len as int,
                            p as int,
                            ci as int,
                            code,
                            lm0,
                            lm,
                            off,
                            i as int,
                            j as int,
                            rotated,
                        );
                    }
                }
                proof {
                    lemma_fwd_bump(visit@, ax, len as int, p as int);
                }
            } else {
                proof {
                    // no reachable state sits in this cell
                    assert forall|s: Seq<u8>, c: u8|
                        all_codes(s) && s.len() == len as int && is_code(c) && (grid_pos(
                            ax,
                            reach_state(s),
                        ) < p + 1) implies table_bit(
                        visit@,
                        ax,
                        len as int + 1,
                        #[trigger] spec_forward(#[trigger] reach_state(s), c),
                    ) by {
                        let m = reach_state(s);
                        if grid_pos(ax, m) == p {
                            assert(table_bit(visit@, ax, len as int, m));
                            assert(cell_of(ax, len as int, m) == i);
                            assert(visit@[i as int]@[value_of(ax, m) as int]);
                            assert(false);
                        }
                    }
                }
            }
        }
        proof {
            // a full level of successors makes the next level complete
            assert forall|s: Seq<u8>| all_codes(s) && s.len() <= len as int + 1 implies table_bit(
                visit@,
                ax,
                s.len() as int,
                #[trigger] reach_state(s),
            ) by {
                if s.len() == len as int + 1 {
                    let s0 = s.drop_last();
                    let c = s.last();
                    assert(all_codes(s0)) by {
                        assert(forall|jj: int| 0 <= jj < s0.len() ==> s0[jj] == s[jj]);
                    }
                    assert(is_code(c));
                    lemma_forward_seq_snoc(spec_initial(), s);
                    lemma_reach_proj_ok(ax, s0);
                    lemma_grid_pos_range(ax, reach_state(s0));
                    assert(grid_pos(ax, reach_state(s0)) < cpl as int);
                    assert(table_bit(visit@, ax, len as int + 1, spec_forward(reach_state(s0), c)));
                }
            }
        }
    }
    visit
}

/// With every character of a cell processed, the cell itself is done.
proof fn lemma_fwd_bump(tab: Seq<BitSet256>, ax: DpAxis, len: int, p: int)
    requires
        fwd_partial(tab, ax, len, p, 42),
    ensures
        fwd_partial(tab, ax, len, p + 1, 0),
{
    assert forall|s: Seq<u8>, c: u8|
        all_codes(s) && s.len() == len && is_code(c) && (grid_pos(ax, reach_state(s)) < p
            + 1) implies table_bit(
        tab,
        ax,
        len + 1,
        #[trigger] spec_forward(#[trigger] reach_state(s), c),
    ) by {
        if grid_pos(ax, reach_state(s)) == p {
            let cj = choose|cj: int| 0 <= cj < spec_codes().len() && spec_codes()[cj] == c;
            assert(0 <= cj < 42 && spec_codes()[cj] == c);
        }
    }
}



/// After uniting cell `p` with the rotation of the next level's target
/// cell by the step offset of `code`, confined to the forward marks, the
/// states of cell `p` that continue with `code` toward a backward node
/// are marked.
#[verifier::rlimit(100)]
#[verifier::spinoff_prover]
proof fn lemma_bwd_establish(
    before: Seq<BitSet256>,
    after: Seq<BitSet256>,
    visitv: Seq<BitSet256>,
    ax: DpAxis,
    b: Backward,
    len: int,
    ml: int,
    p: int,
    ci: int,
    code: u8,
    lm0: Memory,
    lm: Memory,
    off: u8,
    i: int,
    j: int,
    rotated: BitSet256,
    anded: BitSet256,
)
    requires
        0 <= ci < 42,
        code == spec_codes()[ci],
        is_code(code),
        0 <= p < cells_per_level(ax),
        lm0 == lift(ax, lm0),
        value_of(ax, lm0) == 0,
        grid_pos(ax, lm0) == p,
        proj3(ax, lm0) < axis_size(ax),
        lm == spec_forward(lm0, code),
        off == value_of(ax, lm),
        0 <= len < ml,
        i == len * cells_per_level(ax) + p,
        j == (len + 1) * cells_per_level(ax) + grid_pos(ax, lm),
        0 <= i < before.len(),
        0 <= j < before.len(),
        0 <= i < visitv.len(),
        after.len() == before.len(),
        forall|k: int| 0 <= k < before.len() ==> (#[trigger] before[k])@.len() == 256,
        forall|k: int| 0 <= k < after.len() ==> (#[trigger] after[k])@.len() == 256,
        forall|k: int| 0 <= k < visitv.len() ==> (#[trigger] visitv[k])@.len() == 256,
        bits_le(before, after),
        visit_ok(visitv, ax, ml),
        valid_ok(before, ax, b, len + 1, ml),
        bwd_partial(before, ax, b, len, ml, p, ci),
        rotated@ == crate::bitset::spec_rot_right(before[j]@, off as int),
        forall|t: int| 0 <= t < 256 ==> (#[trigger] anded@[t]) == (rotated@[t] && visitv[i]@[t]),
        forall|t: int|
            0 <= t < 256 ==> (#[trigger] after[i]@[t]) == (before[i]@[t] || anded@[t]),
    ensures
        bwd_partial(after, ax, b, len, ml, p, ci + 1),
{
    let axis = axis_size(ax);
    assert forall|s: Seq<u8>, t: Seq<u8>|
        all_codes(s) && all_codes(t) && s.len() == len && s.len() + t.len() == ml
            && is_back_proj(ax, b, #[trigger] reach_state(s + t)) && (grid_pos(ax, reach_state(s))
            < p || (grid_pos(ax, reach_state(s)) == p && exists|cj: int|
            0 <= cj < ci + 1 && spec_codes()[cj] == t[0])) implies table_bit(
        after,
        ax,
        len,
        #[trigger] reach_state(s),
    ) by {
        let m = reach_state(s);
        if grid_pos(ax, m) == p && t[0] == code {
            lemma_grid_components(
                p,
                lm0.f4 as int,
                lm0.f5 as int,
                proj3(ax, lm0) as int,
                axis,
            );
            lemma_reach_proj_ok(ax, s);
            lemma_grid_components(p, m.f4 as int, m.f5 as int, proj3(ax, m) as int, axis);
            assert(m.f4 == lm0.f4 && m.f5 == lm0.f5 && proj3(ax, m) == proj3(ax, lm0));
            assert(lift(ax, m) == lm0);
            lemma_dp_step(ax, m, code);
            let mm = spec_forward(m, code);
            assert(lift(ax, mm) == lift(ax, lm));
            assert(mm.f4 == lm.f4 && mm.f5 == lm.f5 && proj3(ax, mm) == proj3(ax, lm));
            assert(grid_pos(ax, mm) == grid_pos(ax, lm));
            assert(value_of(ax, mm) as int == (value_of(ax, m) + off) % 256);
            // the extended prefix is on the same full path
            let s2 = s + seq![code];
            lemma_reach_snoc(s, code);
            assert(reach_state(s2) == mm);
            let t2 = t.drop_first();
            assert(all_codes(t2)) by {
                assert(forall|jj: int| 0 <= jj < t2.len() ==> t2[jj] == t[jj + 1]);
            }
            assert(s2 + t2 =~= s + t);
            assert(is_back_proj(ax, b, reach_state(s2 + t2)));
            assert(s2.len() == len + 1 && s2.len() + t2.len() == ml);
            assert(table_bit(before, ax, len + 1, mm));
            assert(cell_of(ax, len + 1, mm) == j);
            assert(before[j]@[value_of(ax, mm) as int]);
            // rotation carries the mark down to the tracked byte of m
            assert(rotated@[value_of(ax, m) as int] == before[j]@[(value_of(ax, m) + off) % 256]);
            assert(rotated@[value_of(ax, m) as int]);
            // the state is forward-reachable, so the intersection keeps it
            assert(table_bit(visitv, ax, len, m));
            assert(cell_of(ax, len, m) == i);
            assert(visitv[i]@[value_of(ax, m) as int]);
            assert(anded@[value_of(ax, m) as int]);
            assert(after[i]@[value_of(ax, m) as int]);
            assert(table_bit(after, ax, len, m));
        } else {
            if grid_pos(ax, m) == p {
                let cj = choose|cj: int| 0 <= cj < ci + 1 && spec_codes()[cj] == t[0];
                assert(cj < ci);
            }
            assert(table_bit(before, ax, len, m));
            lemma_bit_mono(before, after, ax, len, m);
        }
    }
}

/// With every character of a cell processed, the cell itself is done.
proof fn lemma_bwd_bump(tab: Seq<BitSet256>, ax: DpAxis, b: Backward, len: int, ml: int, p: int)
    requires
        bwd_partial(tab, ax, b, len, ml, p, 42),
        len < ml,
    ensures
        bwd_partial(tab, ax, b, len, ml, p + 1, 0),
{
    assert forall|s: Seq<u8>, t: Seq<u8>|
        all_codes(s) && all_codes(t) && s.len() == len && s.len() + t.len() == ml
            && is_back_proj(ax, b, #[trigger] reach_state(s + t)) && (grid_pos(ax, reach_state(s))
            < p + 1) implies table_bit(tab, ax, len, #[trigger] reach_state(s)) by {
        if grid_pos(ax, reach_state(s)) == p {
            assert(t.len() >= 1);
            assert(is_code(t[0]));
            let cj = choose|cj: int| 0 <= cj < spec_codes().len() && spec_codes()[cj] == t[0];
            assert(0 <= cj < 42 && spec_codes()[cj] == t[0]);
        }
    }
}

/// A cell index pins its level and grid position.
proof fn lemma_cell_locates(ax: DpAxis, l: int, m: Memory, l2: int, g2: int)
    requires
        proj3(ax, m) < axis_size(ax),
        0 <= l,
        0 <= l2,
        0 <= g2 < cells_per_level(ax),
        cell_of(ax, l, m) == l2 * cells_per_level(ax) + g2,
    ensures
        l == l2,
        grid_pos(ax, m) == g2,
{
    lemma_grid_pos_range(ax, m);
    assert(l == l2 && grid_pos(ax, m) == g2) by (nonlinear_arith)
        requires
            0 <= l,
            0 <= l2,
            0 <= g2 < cells_per_level(ax),
            0 <= grid_pos(ax, m) < cells_per_level(ax),
            l * cells_per_level(ax) + grid_pos(ax, m) == l2 * cells_per_level(ax) + g2,
            cells_per_level(ax) > 0,
    ;
}

/// Seeding one backward node's bit keeps the table sound: the new bit is
/// that node's own projection.
#[verifier::rlimit(100)]
#[verifier::spinoff_prover]
proof fn lemma_valid_sound_seed(
    before: Seq<BitSet256>,
    after: Seq<BitSet256>,
    ax: DpAxis,
    b: Backward,
    ml: int,
    node_idx: int,
    nm: Memory,
    idx: int,
    v: u8,
)
    requires
        valid_sound(before, ax, b, ml),
        ml >= 0,
        before.len() == after.len(),
        before.len() == (ml + 1) * cells_per_level(ax),
        forall|k: int| 0 <= k < before.len() ==> (#[trigger] before[k])@.len() == 256,
        forall|k: int| 0 <= k < after.len() ==> (#[trigger] after[k])@.len() == 256,
        0 <= node_idx < b.nodes@.len(),
        nm == b.nodes@[node_idx].memory,
        proj3(ax, nm) < axis_size(ax),
        idx == ml * cells_per_level(ax) + grid_pos(ax, nm),
        v == value_of(ax, nm),
        0 <= idx < after.len(),
        forall|k: int| 0 <= k < after.len() && k != idx ==> (#[trigger] after[k])@ == before[k]@,
        forall|t: int|
            0 <= t < 256 && t != v ==> (#[trigger] after[idx]@[t]) == before[idx]@[t],
    ensures
        valid_sound(after, ax, b, ml),
{
    assert forall|l: int, m: Memory|
        0 <= l <= ml && proj3(ax, m) < axis_size(ax) && #[trigger] table_bit(after, ax, l, m)
            implies can_finish(ax, b, proj_config(ax, m), (ml - l) as nat) by {
        if table_bit(before, ax, l, m) {
        } else {
            // only the node's own bit is new
            lemma_grid_pos_range(ax, m);
            assert(cell_of(ax, l, m) == idx && value_of(ax, m) as int == v);
            lemma_grid_pos_range(ax, nm);
            lemma_cell_locates(ax, l, m, ml, grid_pos(ax, nm));
            let axis = axis_size(ax);
            lemma_grid_components(
                grid_pos(ax, nm),
                m.f4 as int,
                m.f5 as int,
                proj3(ax, m) as int,
                axis,
            );
            lemma_grid_components(
                grid_pos(ax, nm),
                nm.f4 as int,
                nm.f5 as int,
                proj3(ax, nm) as int,
                axis,
            );
            assert(m.f4 == nm.f4 && m.f5 == nm.f5 && proj3(ax, m) == proj3(ax, nm));
            assert(proj_config(ax, m) == proj_config(ax, nm));
            assert(can_finish(ax, b, proj_config(ax, m), 0));
        }
    }
}

/// One union step keeps the table sound: every new bit is the rotation
/// of a bit one level up, so one projection step away from it.
#[verifier::rlimit(100)]
#[verifier::spinoff_prover]
proof fn lemma_valid_sound_union(
    before: Seq<BitSet256>,
    after: Seq<BitSet256>,
    ax: DpAxis,
    b: Backward,
    ml: int,
    len: int,
    p: int,
    code: u8,
    lm0: Memory,
    lm: Memory,
    off: u8,
    i: int,
    j: int,
    rotated: BitSet256,
    anded: BitSet256,
)
    requires
        valid_sound(before, ax, b, ml),
        0 <= len < ml,
        0 <= p < cells_per_level(ax),
        is_code(code),
        lm0 == lift(ax, lm0),
        value_of(ax, lm0) == 0,
        grid_pos(ax, lm0) == p,
        proj3(ax, lm0) < axis_size(ax),
        lm == spec_forward(lm0, code),
        off == value_of(ax, lm),
        proj3(ax, lm) < axis_size(ax),
        i == len * cells_per_level(ax) + p,
        j == (len + 1) * cells_per_level(ax) + grid_pos(ax, lm),
        0 <= i < before.len(),
        0 <= j < before.len(),
        i != j,
        before.len() == after.len(),
        before.len() == (ml + 1) * cells_per_level(ax),
        forall|k: int| 0 <= k < before.len() ==> (#[trigger] before[k])@.len() == 256,
        forall|k: int| 0 <= k < after.len() ==> (#[trigger] after[k])@.len() == 256,
        forall|k: int| 0 <= k < after.len() && k != i ==> (#[trigger] after[k])@ == before[k]@,
        forall|t: int|
            0 <= t < 256 ==> (#[trigger] after[i]@[t]) == (before[i]@[t] || anded@[t]),
        forall|t: int| 0 <= t < 256 && (#[trigger] anded@[t]) ==> rotated@[t],
        rotated@ == crate::bitset::spec_rot_right(before[j]@, off as int),
    ensures
        valid_sound(after, ax, b, ml),
{
    assert forall|l: int, m: Memory|
        0 <= l <= ml && proj3(ax, m) < axis_size(ax) && #[trigger] table_bit(after, ax, l, m)
            implies can_finish(ax, b, proj_config(ax, m), (ml - l) as nat) by {
        if table_bit(before, ax, l, m) {
        } else {
            lemma_grid_pos_range(ax, m);
            assert(cell_of(ax, l, m) == i);
            lemma_cell_locates(ax, l, m, len, p);
            let axis = axis_size(ax);
            lemma_grid_components(p, m.f4 as int, m.f5 as int, proj3(ax, m) as int, axis);
            lemma_grid_components(
                p,
                lm0.f4 as int,
                lm0.f5 as int,
                proj3(ax, lm0) as int,
                axis,
            );
            assert(m.f4 == lm0.f4 && m.f5 == lm0.f5 && proj3(ax, m) == proj3(ax, lm0));
            let t = value_of(ax, m);
            assert(after[i]@[t as int] && !before[i]@[t as int]);
            assert(anded@[t as int]);
            assert(rotated@[t as int]);
            assert(rotated@[t as int] == before[j]@[(t + off) % 256]);
            let q = proj_config(ax, m);
            assert(value_of(ax, q) == t && q.f4 == m.f4 && q.f5 == m.f5 && proj3(ax, q)
                == proj3(ax, m));
            let f = spec_forward(q, code);
            lemma_dp_step(ax, q, code);
            assert(lift(ax, q) == lm0);
            assert(f.f4 == lm.f4 && f.f5 == lm.f5 && proj3(ax, f) == proj3(ax, lm));
            assert(value_of(ax, f) as int == (t + off) % 256);
            assert(grid_pos(ax, f) == grid_pos(ax, lm));
            assert(cell_of(ax, len + 1, f) == j);
            assert(table_bit(before, ax, len + 1, f));
            assert(can_finish(ax, b, proj_config(ax, f), (ml - len - 1) as nat));
            assert(can_finish(ax, b, q, (ml - len) as nat));
        }
    }
}

/// The backward-reachability marks: seeded from the backward nodes at the
/// deepest level, then rotated down one level at a time, keeping only
/// what the forward pass visited.
#[verifier::rlimit(100)]
fn build_valid(ax: DpAxis, ml: usize, backward: &Backward, visit: &Vec<BitSet256>) -> (valid: Vec<
    BitSet256,
>)
    requires
        ml <= 14,
        table_wf(visit@, ax, ml as int + 1),
        visit_ok(visit@, ax, ml as int),
    ensures
        table_wf(valid@, ax, ml as int + 1),
        valid_ok(valid@, ax, *backward, 0, ml as int),
        valid_sound(valid@, ax, *backward, ml as int),
{
    let axis = axis_size_x(ax);
    let cpl: usize = 65536 * axis;
    let codes = password_char_codes();
    proof {
        assert(axis == 64 || axis == 256);
    }
    let mut valid = alloc_table(ax, ml + 1);
    proof {
        assert forall|l: int, m: Memory|
            0 <= l <= ml as int && proj3(ax, m) < axis_size(ax) && #[trigger] table_bit(
                valid@,
                ax,
                l,
                m,
            ) implies can_finish(ax, *backward, proj_config(ax, m), (ml - l) as nat) by {
            assert(!valid@[cell_of(ax, l, m)]@[value_of(ax, m) as int]);
        }
    }
    // seed the deepest level from the backward nodes
    let nb = backward.nodes.len();
    for k in 0..nb
        invariant
            axis == axis_size(ax),
            cpl == 65536 * axis,
            ml <= 14,
            nb == backward.nodes@.len(),
            table_wf(valid@, ax, ml as int + 1),
            valid_sound(valid@, ax, *backward, ml as int),
            forall|kk: int|
                0 <= kk < k && proj3(ax, (#[trigger] backward.nodes@[kk]).memory) < axis_size(ax)
                    ==> table_bit(valid@, ax, ml as int, backward.nodes@[kk].memory),
    {
        let nm = backward.nodes[k].memory;
        let z = proj_x(ax, &nm);
        if (z as usize) < axis {
            proof {
                lemma_grid_pos_range(ax, nm);
                assert(cpl <= 0x1000000);
                assert(ml * cpl + cpl <= valid@.len() && ml * cpl + cpl < 0x10000000)
                    by (nonlinear_arith)
                    requires
                        ml <= 14,
                        cpl <= 0x1000000,
                        valid@.len() == (ml + 1) * cpl,
                        0 < cpl,
                ;
                assert((nm.f4 as int * 256 + nm.f5 as int) * axis + z < cpl) by (nonlinear_arith)
                    requires
                        nm.f4 < 256,
                        nm.f5 < 256,
                        z < axis,
                        cpl == 65536 * axis,
                        axis == 64 || axis == 256,
                ;
            }
            let gp: usize = (nm.f4 as usize * 256 + nm.f5 as usize) * axis + z as usize;
            let idx: usize = ml * cpl + gp;
            let v = value_x(ax, &nm);
            let ghost before = valid@;
            proof {
                assert(gp == grid_pos(ax, nm));
                assert(idx == cell_of(ax, ml as int, nm));
            }
            valid[idx].set(v as usize);
            proof {
                assert(valid@ =~= before.update(idx as int, valid@[idx as int]));
                assert(valid@[idx as int]@[v as int]);
                lemma_valid_sound_seed(
                    before,
                    valid@,
                    ax,
                    *backward,
                    ml as int,
                    k as int,
                    nm,
                    idx as int,
                    v,
                );
                assert forall|kk: int|
                    0 <= kk < k + 1 && proj3(ax, (#[trigger] backward.nodes@[kk]).memory)
                        < axis_size(ax) implies table_bit(
                    valid@,
                    ax,
                    ml as int,
                    backward.nodes@[kk].memory,
                ) by {
                    if kk < k {
                        let om = backward.nodes@[kk].memory;
                        assert(table_bit(before, ax, ml as int, om));
                        if cell_of(ax, ml as int, om) == idx as int {
                            assert(valid@[idx as int]@[value_of(ax, om) as int]
                                == (before[idx as int]@[value_of(ax, om) as int] || value_of(
                                ax,
                                om,
                            ) == v));
                        }
                    }
                }
            }
        }
    }
    proof {
        // every full path's deepest state is seeded
        assert forall|s: Seq<u8>, t: Seq<u8>|
            all_codes(s) && all_codes(t) && ml as int <= s.len() && s.len() + t.len() == ml as int
                && is_back_proj(ax, *backward, #[trigger] reach_state(s + t)) implies table_bit(
            valid@,
            ax,
            s.len() as int,
            #[trigger] reach_state(s),
        ) by {
            assert(t.len() == 0);
            assert(s + t =~= s);
            let m = reach_state(s);
            lemma_reach_proj_ok(ax, s);
            let kk = choose|kk: int|
                0 <= kk < backward.nodes@.len() && proj_config(
                    ax,
                    (#[trigger] backward.nodes@[kk]).memory,
                ) == proj_config(ax, m);
            lemma_same_proj_fields(ax, backward.nodes@[kk].memory, m);
            assert(proj3(ax, backward.nodes@[kk].memory) < axis_size(ax));
            assert(table_bit(valid@, ax, ml as int, backward.nodes@[kk].memory));
            lemma_bit_same_proj(valid@, ax, ml as int, backward.nodes@[kk].memory, m);
        }
    }
    let mut level = ml;
    while level > 0
        invariant
            axis == axis_size(ax),
            cpl == 65536 * axis,
            ml <= 14,
            level <= ml,
            codes@ == spec_codes(),
            table_wf(visit@, ax, ml as int + 1),
            visit_ok(visit@, ax, ml as int),
            table_wf(valid@, ax, ml as int + 1),
            valid_ok(valid@, ax, *backward, level as int, ml as int),
            valid_sound(valid@, ax, *backward, ml as int),
        decreases level,
    {
        level = level - 1;
        let len = level;
        for p in 0..cpl
            invariant
                axis == axis_size(ax),
                cpl == 65536 * axis,
                ml <= 14,
                len < ml,
                len == level,
                codes@ == spec_codes(),
                table_wf(visit@, ax, ml as int + 1),
                visit_ok(visit@, ax, ml as int),
                table_wf(valid@, ax, ml as int + 1),
                valid_ok(valid@, ax, *backward, len as int + 1, ml as int),
                valid_sound(valid@, ax, *backward, ml as int),
                bwd_partial(valid@, ax, *backward, len as int, ml as int, p as int, 0),
        {
            let f4u: usize = p / (256 * axis);
            let rem: usize = p % (256 * axis);
            let f5u: usize = rem / axis;
            let zu: usize = rem % axis;
            proof {
                lemma_grid_split(p as int, axis as int);
                assert(cpl <= 0x1000000);
                assert(len * cpl + p < 0x10000000 && len * cpl + p < valid@.len() && len * cpl + p
                    < visit@.len()) by (nonlinear_arith)
                    requires
                        p < cpl,
                        len < ml,
                        ml <= 14,
                        cpl <= 0x1000000,
                        valid@.len() == (ml + 1) * cpl,
                        visit@.len() == (ml + 1) * cpl,
                        0 < cpl,
                ;
            }
            let i: usize = len * cpl + p;
            if !visit[i].is_zero() {
                let nc = codes.len();
                for ci in 0..nc
                    invariant
                        nc == 42,
                        axis == axis_size(ax),
                        cpl == 65536 * axis,
                        ml <= 14,
                        len < ml,
                        len == level,
                        p < cpl,
                        codes@ == spec_codes(),
                        f4u < 256 && f5u < 256 && zu < axis,
                        p == (f4u * 256 + f5u) * axis + zu,
                        i == len * cpl + p,
                        i < valid@.len(),
                        i < visit@.len(),
                        table_wf(visit@, ax, ml as int + 1),
                        visit_ok(visit@, ax, ml as int),
                        table_wf(valid@, ax, ml as int + 1),
                        valid_ok(valid@, ax, *backward, len as int + 1, ml as int),
                        valid_sound(valid@, ax, *backward, ml as int),
                        bwd_partial(valid@, ax, *backward, len as int, ml as int, p as int, ci as int),
                {
                    let code = codes[ci];
                    proof {
                        assert(is_code(code));
                    }
                    let mut lm = lift_x(ax, f4u as u8, f5u as u8, zu as u8);
                    let ghost lm0 = lm;
                    forward_step(&mut lm, code);
                    let nz = proj_x(ax, &lm);
                    let off = value_x(ax, &lm);
                    proof {
                        match ax {
                            DpAxis::TrackF7 => {
                                lemma_code_bound(code);
                                let z8 = lm0.f9;
                                assert(z8 < 0x40 && code < 0x40 ==> (z8 ^ code) < 0x40)
                                    by (bit_vector);
                            },
                            DpAxis::TrackF8 => {},
                        }
                        assert(nz < axis);
                    }
                    proof {
                        lemma_grid_pos_range(ax, lm);
                        assert((lm.f4 as int * 256 + lm.f5 as int) * axis + nz < cpl)
                            by (nonlinear_arith)
                            requires
                                lm.f4 < 256,
                                lm.f5 < 256,
                                nz < axis,
                                cpl == 65536 * axis,
                                axis == 64 || axis == 256,
                        ;
                        assert(cpl <= 0x1000000);
                        assert((len + 1) * cpl + cpl <= valid@.len() && (len + 1) * cpl + cpl
                            < 0x10000000) by (nonlinear_arith)
                            requires
                                len + 1 <= ml,
                                ml <= 14,
                                cpl <= 0x1000000,
                                valid@.len() == (ml + 1) * cpl,
                                0 < cpl,
                        ;
                    }
                    let gp: usize = (lm.f4 as usize * 256 + lm.f5 as usize) * axis + nz as usize;
                    let j: usize = (len + 1) * cpl + gp;
                    proof {
                        assert(gp == grid_pos(ax, lm));
                        assert(i != j) by (nonlinear_arith)
                            requires
                                i == len * cpl + p,
                                j == (len + 1) * cpl + gp,
                                p < cpl,
                                0 <= gp,
                        ;
                    }
                    let rotated = valid[j].rot_right(off as usize);
                    let anded = rotated.and(&visit[i]);
                    let ghost before = valid@;
                    valid[i].union_assign(&anded);
                    proof {
                        assert(valid@[i as int]@.len() == 256);
                        assert(valid@ =~= before.update(i as int, valid@[i as int]));
                        assert(forall|t: int|
                            0 <= t < 256 ==> (#[trigger] valid@[i as int]@[t]) == (before[i as int]@[t]
                                || anded@[t]));
                        lemma_bits_le_update(before, valid@, i as int);
                        lemma_valid_ok_mono(
                            before,
                            valid@,
                            ax,
                            *backward,
                            len as int + 1,
                            ml as int,
                        );
                        lemma_bwd_establish(
                            before,
                            valid@,
                            visit@,
                            ax,
                            *backward,
                            len as int,
                            ml as int,
                            p as int,
                            ci as int,
                            code,
                            lm0,
                            lm,
                            off,
                            i as int,
                            j as int,
                            rotated,
                            anded,
                        );
                        lemma_valid_sound_union(
                            before,
                            valid@,
                            ax,
                            *backward,
                            ml as int,
                            len as int,
                            p as int,
                            code,
                            lm0,
                            lm,
                            off,
                            i as int,
                            j as int,
                            rotated,
                            anded,
                        );
                    }
                }
                proof {
                    lemma_bwd_bump(valid@, ax, *backward, len as int, ml as int, p as int);
                }
            } else {
                proof {
                    // no reachable state sits in this cell
                    assert forall|s: Seq<u8>, t: Seq<u8>|
                        all_codes(s) && all_codes(t) && s.len() == len as int && s.len() + t.len()
                            == ml as int && is_back_proj(
                            ax,
                            *backward,
                            #[trigger] reach_state(s + t),
                        ) && (grid_pos(ax, reach_state(s)) < p + 1) implies table_bit(
                        valid@,
                        ax,
                        len as int,
                        #[trigger] reach_state(s),
                    ) by {
                        let m = reach_state(s);
                        if grid_pos(ax, m) == p {
                            assert(table_bit(visit@, ax, len as int, m));
                            assert(cell_of(ax, len as int, m) == i);
                            assert(visit@[i as int]@[value_of(ax, m) as int]);
                            assert(false);
                        }
                    }
                }
            }
        }
        proof {
            // a full sweep of this level completes it
            assert forall|s: Seq<u8>, t: Seq<u8>|
                all_codes(s) && all_codes(t) && len as int <= s.len() && s.len() + t.len()
                    == ml as int && is_back_proj(
                    ax,
                    *backward,
                    #[trigger] reach_state(s + t),
                ) implies table_bit(valid@, ax, s.len() as int, #[trigger] reach_state(s)) by {
                if s.len() == len as int {
                    lemma_reach_proj_ok(ax, s);
                    lemma_grid_pos_range(ax, reach_state(s));
                    assert(grid_pos(ax, reach_state(s)) < cpl as int);
                }
            }
        }
    }
    valid
}

/// Builds one reachability table: the forward pass, then the backward
/// pass seeded from the backward nodes.  A query bit is set for every
/// state on a full path from the initial state to a backward node, so
/// pruning on clear bits never loses a password.
pub fn build_table(ax: DpAxis, ml: usize, backward: &Backward) -> (dp: Vec<BitSet256>)
    requires
        ml <= 14,
    ensures
        table_wf(dp@, ax, ml as int + 1),
        valid_ok(dp@, ax, *backward, 0, ml as int),
        valid_sound(dp@, ax, *backward, ml as int),
{
    let visit = build_visit(ax, ml);
    build_valid(ax, ml, backward, &visit)
}


/// Equal projections step to equal projections: the projected transition
/// is well defined.
proof fn lemma_proj_step(ax: DpAxis, m1: Memory, m2: Memory, c: u8)
    requires
        proj_config(ax, m1) == proj_config(ax, m2),
    ensures
        proj_config(ax, spec_forward(m1, c)) == proj_config(ax, spec_forward(m2, c)),
{
    lemma_dp_step(ax, m1, c);
    lemma_dp_step(ax, m2, c);
    lemma_same_proj_fields(ax, m1, m2);
    assert(lift(ax, m1) == lift(ax, m2));
    let f1 = spec_forward(m1, c);
    let f2 = spec_forward(m2, c);
    assert(lift(ax, f1) == lift(ax, f2));
    assert(f1.f4 == f2.f4 && f1.f5 == f2.f5 && proj3(ax, f1) == proj3(ax, f2));
    assert(value_of(ax, f1) == value_of(ax, f2));
}

/// A walk over the projection graph is the shadow of a real one: when
/// the projection of a reached state can finish in `k` steps, some `k`
/// alphabet codes continue the real prefix to a state whose projection
/// matches a backward node.
proof fn lemma_finish_lift(ax: DpAxis, b: Backward, s: Seq<u8>, k: nat)
    requires
        all_codes(s),
        can_finish(ax, b, proj_config(ax, reach_state(s)), k),
    ensures
        exists|t: Seq<u8>|
            all_codes(t) && t.len() == k && is_back_proj(ax, b, #[trigger] reach_state(s + t)),
    decreases k,
{
    if k == 0 {
        let t0 = Seq::<u8>::empty();
        assert(s + t0 =~= s);
        assert(is_back_proj(ax, b, reach_state(s)));
        assert(all_codes(t0) && t0.len() == k && is_back_proj(ax, b, reach_state(s + t0)));
    } else {
        let q = proj_config(ax, reach_state(s));
        let c = choose|c: u8|
            is_code(c) && can_finish(ax, b, proj_config(ax, spec_forward(q, c)), (k - 1) as nat);
        assert(proj_config(ax, q) == proj_config(ax, reach_state(s)));
        lemma_proj_step(ax, q, reach_state(s), c);
        lemma_reach_snoc(s, c);
        let s2 = s + seq![c];
        assert(proj_config(ax, spec_forward(q, c)) == proj_config(ax, reach_state(s2)));
        lemma_finish_lift(ax, b, s2, (k - 1) as nat);
        let t1 = choose|t1: Seq<u8>|
            all_codes(t1) && t1.len() == (k - 1) as nat && is_back_proj(
                ax,
                b,
                #[trigger] reach_state(s2 + t1),
            );
        let t = seq![c] + t1;
        assert(s + t =~= s2 + t1);
        assert(all_codes(t)) by {
            assert(forall|j: int| 1 <= j < t.len() ==> t[j] == t1[j - 1]);
            assert(t[0] == c);
        }
        assert(all_codes(t) && t.len() == k && is_back_proj(ax, b, reach_state(s + t)));
    }
}

/// For a state the forward pass visits (one reached by a prefix of
/// alphabet codes), the finished table decides exactly: its bit is set
/// if and only if the projection graph still leads from the state's
/// projection to the projection of a backward node.
pub proof fn lemma_table_exact(
    tab: Seq<BitSet256>,
    ax: DpAxis,
    b: Backward,
    ml: int,
    s: Seq<u8>,
    m: Memory,
)
    requires
        valid_ok(tab, ax, b, 0, ml),
        valid_sound(tab, ax, b, ml),
        all_codes(s),
        s.len() <= ml,
        proj_config(ax, reach_state(s)) == proj_config(ax, m),
    ensures
        table_bit(tab, ax, s.len() as int, m) <==> can_finish(
            ax,
            b,
            proj_config(ax, m),
            (ml - s.len()) as nat,
        ),
{
    let l = s.len() as int;
    lemma_reach_proj_ok(ax, s);
    lemma_same_proj_fields(ax, reach_state(s), m);
    assert(proj3(ax, m) < axis_size(ax));
    if table_bit(tab, ax, l, m) {
        assert(can_finish(ax, b, proj_config(ax, m), (ml - l) as nat));
    }
    if can_finish(ax, b, proj_config(ax, m), (ml - l) as nat) {
        lemma_finish_lift(ax, b, s, (ml - l) as nat);
        let t = choose|t: Seq<u8>|
            all_codes(t) && t.len() == (ml - l) as nat && is_back_proj(
                ax,
                b,
                #[trigger] reach_state(s + t),
            );
        assert(table_bit(tab, ax, l, reach_state(s)));
        lemma_bit_same_proj(tab, ax, l, reach_state(s), m);
    }
}

} // verus!
