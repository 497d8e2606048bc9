//! The first reachability table: for each prefix length and each
//! projection `(f4, f5, f9)`, the set of values `f7` can take on some
//! full path from the initial state to a backward node.

use vstd::prelude::*;

verus! {

use crate::backward::Backward;
use crate::bitset::BitSet256;
use crate::cpu::Memory;
use crate::dp::{DpAxis, build_table, table_wf, table_bit, valid_ok, valid_sound, cell_of,
    grid_pos, proj_config, can_finish, reach_state, lemma_table_exact};
use crate::domain::all_codes;
use crate::target::Target;

/// The table, one 256-bit set per `(length, f4, f5, f9)` cell.
pub struct Forward1 {
    pub dp: Vec<BitSet256>,
    pub max_len: usize,
}

impl Forward1 {
    /// The table has one level per prefix length up to `max_len`.
    pub open spec fn wf(&self) -> bool {
        &&& table_wf(self.dp@, DpAxis::TrackF7, self.max_len as int + 1)
        &&& self.max_len <= 14
    }

    /// The bit the table holds for state `m` at prefix length `l`.
    pub open spec fn spec_bit(&self, l: int, m: Memory) -> bool {
        table_bit(self.dp@, DpAxis::TrackF7, l, m)
    }

    /// Every state on a code path from the initial state to a state
    /// whose projection matches a node of `b` has its bit set: pruning
    /// on a clear bit loses nothing.
    pub open spec fn complete_for(&self, b: Backward) -> bool {
        valid_ok(self.dp@, DpAxis::TrackF7, b, 0, self.max_len as int)
    }

    /// Every set bit points, over the projection graph, to the
    /// projection of some backward node; `lemma_is_valid_exact` combines
    /// this with `complete_for` into an exact characterization.
    pub open spec fn sound_for(&self, b: Backward) -> bool {
        valid_sound(self.dp@, DpAxis::TrackF7, b, self.max_len as int)
    }

    /// For a state the forward pass visits -- one whose projection some
    /// prefix of alphabet codes reaches -- the table decides exactly:
    /// its bit at the prefix's length is set if and only if the
    /// projection graph still leads from the state's projection to the
    /// projection of some backward node.
    pub proof fn lemma_is_valid_exact(&self, b: Backward, s: Seq<u8>, m: Memory)
        requires
            self.complete_for(b),
            self.sound_for(b),
            all_codes(s),
            s.len() <= self.max_len,
            proj_config(DpAxis::TrackF7, reach_state(s)) == proj_config(DpAxis::TrackF7, m),
        ensures
            self.spec_bit(s.len() as int, m) <==> can_finish(
                DpAxis::TrackF7,
                b,
                proj_config(DpAxis::TrackF7, m),
                (self.max_len - s.len()) as nat,
            ),
    {
        lemma_table_exact(self.dp@, DpAxis::TrackF7, b, self.max_len as int, s, m);
    }

    /// Builds the table for the given target and backward table.
    pub fn build(target: &Target, backward: &Backward) -> (r: Self)
        requires
            target.spec_len() <= 14,
            backward.spec_depth() <= target.spec_len() as usize,
        ensures
            r.wf(),
            r.max_len == target.spec_len() - backward.spec_depth(),
            r.complete_for(*backward),
            r.sound_for(*backward),
    {
        let ml = target.len() - backward.len();
        let dp = build_table(DpAxis::TrackF7, ml, backward);
        Forward1 { dp, max_len: ml }
    }

    /// Reads the bit for `memory` at prefix length `len`.
    pub fn is_valid(&self, len: usize, memory: &Memory) -> (r: bool)
        requires
            self.wf(),
            len <= self.max_len,
            memory.f9 < 64,
        ensures
            r == self.spec_bit(len as int, *memory),
    {
        let f4 = memory.f4 as usize;
        let f5 = memory.f5 as usize;
        let f7 = memory.f7 as usize;
        let f9 = memory.f9 as usize;
        let i = calc_index(len, f4, f5, f9);
        proof {
            assert(((len * 0x100 + f4) * 0x100 + f5) * 0x40 + f9 == len * 0x400000 + ((f4 * 256
                + f5) * 64 + f9)) by (nonlinear_arith);
            assert(grid_pos(DpAxis::TrackF7, *memory) == (f4 * 256 + f5) * 64 + f9);
            assert(cell_of(DpAxis::TrackF7, len as int, *memory) == i);
            assert(i < self.dp@.len()) by (nonlinear_arith)
                requires
                    i == len * 0x400000 + ((f4 * 256 + f5) * 64 + f9),
                    f4 < 256 && f5 < 256 && f9 < 64,
                    len <= self.max_len,
                    self.dp@.len() == (self.max_len + 1) * 0x400000,
            ;
        }
        self.dp[i].get(f7)
    }
}

/// The flat index of a cell.
fn calc_index(len: usize, f4: usize, f5: usize, f9: usize) -> (r: usize)
    requires
        len <= 14,
        f4 < 256,
        f5 < 256,
        f9 < 64,
    ensures
        r == ((len * 0x100 + f4) * 0x100 + f5) * 0x40 + f9,
{
    proof {
        assert(((len * 0x100 + f4) * 0x100 + f5) * 0x40 + f9 < 0x10000000) by (nonlinear_arith)
            requires
                len <= 14,
                f4 < 256,
                f5 < 256,
                f9 < 64,
        ;
    }
    ((len * 0x100 + f4) * 0x100 + f5) * 0x40 + f9
}

} // verus!
