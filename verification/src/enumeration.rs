//! The password search: a depth-first enumeration of prefixes, pruned by
//! the popcount bound and the two reachability tables, joined at the
//! leaves against the backward table.
//!
//! Two theorems describe the result.  Soundness: every emitted code
//! sequence has the target's length and hashes, from the initial state,
//! to the target state.  Completeness: every code sequence with those
//! properties is emitted.

use vstd::prelude::*;

verus! {

use crate::backward::Backward;
use crate::cpu::{Memory, spec_forward, spec_forward_seq, spec_initial, spec_pop_count, forward_step};
use crate::domain::{is_code, all_codes, spec_codes, password_char_codes};
use crate::dp::{reach_state, is_back_proj, lemma_forward_seq_app, lemma_forward_seq_snoc,
    lemma_reach_snoc, lemma_reach_proj_ok, DpAxis};
use crate::forward1::Forward1;
use crate::forward2::Forward2;
use crate::target::Target;

/// The read-only search state: the pruning tables, the backward table,
/// and the target.
pub struct EnumerationContext {
    pub forward1: Forward1,
    pub forward2: Forward2,
    pub backward: Backward,
    pub target: Target,
}

impl EnumerationContext {
    /// The forward search depth: the target length minus the backward
    /// depth.
    pub open spec fn spec_ml(&self) -> int {
        self.target.spec_len() - self.backward.spec_depth()
    }

    /// The shape side of well-formedness: the tables are sized for the
    /// target, with nothing said yet of what their bits mean.
    pub open spec fn tables_wf(&self) -> bool {
        &&& self.target.spec_len() <= 14
        &&& self.backward.spec_depth() <= self.target.spec_len() as usize
        &&& self.backward.wf()
        &&& self.forward1.wf()
        &&& self.forward1.max_len as int == self.spec_ml()
        &&& self.forward2.wf()
        &&& self.forward2.max_len as int == self.spec_ml()
    }

    /// The tables fit the target and the backward table, the backward
    /// table is exactly the suffixes that reach the target, and the
    /// reachability tables never clear a bit of a state on a full path.
    pub open spec fn wf(&self) -> bool {
        &&& self.tables_wf()
        &&& self.backward.is_sound_for(self.target.memory)
        &&& self.backward.is_complete_for(self.target.memory)
        &&& self.forward1.complete_for(self.backward)
        &&& self.forward2.complete_for(self.backward)
    }

    /// Whether the search is at its maximum prefix depth.
    pub fn finish(&self, password_len: usize) -> (r: bool)
        requires
            self.tables_wf(),
        ensures
            r == (password_len as int == self.spec_ml()),
    {
        password_len == self.target.len() - self.backward.len()
    }

    /// The pruning test a state must pass at prefix length `len`.
    #[verifier::opaque]
    pub open spec fn spec_passes(&self, len: int, m: Memory) -> bool {
        &&& m.fb <= self.target.memory.fb
        &&& self.forward1.spec_bit(len, m)
        &&& self.forward2.spec_bit(len, m)
    }

    /// The pruning test: the popcount bound and the two tables.
    pub fn is_valid(&self, len: usize, memory: &Memory) -> (r: bool)
        requires
            self.tables_wf(),
            len as int <= self.spec_ml(),
            memory.f9 < 64,
        ensures
            r == self.spec_passes(len as int, *memory),
    {
        proof {
            reveal(EnumerationContext::spec_passes);
        }
        memory.bit() <= self.target.memory.bit() && self.forward1.is_valid(len, memory)
            && self.forward2.is_valid(len, memory)
    }
}


/// Every collected child is well formed, one step deeper, and extends
/// the parent's prefix.
pub open spec fn children_ok(r: Seq<SearchContext>, pw: Seq<u8>, ctx: EnumerationContext) -> bool {
    forall|k: int|
        0 <= k < r.len() ==> {
            let ch = #[trigger] r[k];
            &&& ch.wf()
            &&& ch.password@.len() == pw.len() + 1
            &&& ch.password@.take(pw.len() as int) == pw
        }
}

/// The children collected so far cover the first `ci` characters: each
/// accepted successor among them appears.
pub open spec fn children_cover(
    r: Seq<SearchContext>,
    pw: Seq<u8>,
    m: Memory,
    ctx: EnumerationContext,
    ci: int,
) -> bool {
    forall|cj: int|
        0 <= cj < ci && ctx.spec_passes(
            pw.len() as int + 1,
            spec_forward(m, #[trigger] spec_codes()[cj]),
        ) ==> exists|k: int|
            0 <= k < r.len() && (#[trigger] r[k]).password@ == pw.push(spec_codes()[cj])
}

/// One collection step preserves coverage.
proof fn lemma_children_step(
    r_prev: Seq<SearchContext>,
    r_now: Seq<SearchContext>,
    pw: Seq<u8>,
    m: Memory,
    ctx: EnumerationContext,
    ci: int,
    code: u8,
)
    requires
        0 <= ci < 42,
        code == spec_codes()[ci],
        children_cover(r_prev, pw, m, ctx, ci),
        r_now.len() >= r_prev.len(),
        forall|k: int| 0 <= k < r_prev.len() ==> r_now[k] == r_prev[k],
        ctx.spec_passes(pw.len() as int + 1, spec_forward(m, code)) ==> exists|k: int|
            0 <= k < r_now.len() && (#[trigger] r_now[k]).password@ == pw.push(code),
    ensures
        children_cover(r_now, pw, m, ctx, ci + 1),
{
    assert forall|cj: int|
        0 <= cj < ci + 1 && ctx.spec_passes(
            pw.len() as int + 1,
            spec_forward(m, #[trigger] spec_codes()[cj]),
        ) implies exists|k: int|
        0 <= k < r_now.len() && (#[trigger] r_now[k]).password@ == pw.push(spec_codes()[cj]) by {
        if cj < ci {
            let k = choose|k: int|
                0 <= k < r_prev.len() && (#[trigger] r_prev[k]).password@ == pw.push(
                    spec_codes()[cj],
                );
            assert(r_now[k].password@ == pw.push(spec_codes()[cj]));
        }
    }
}

/// The mutable search state: the hash state and the prefix reaching it.
pub struct SearchContext {
    pub memory: Memory,
    pub password: Vec<u8>,
    pub len: usize,
}

impl SearchContext {
    /// The prefix consists of alphabet codes and drives the initial
    /// state to the stored hash state.
    pub open spec fn wf(&self) -> bool {
        &&& self.len == self.password@.len()
        &&& all_codes(self.password@)
        &&& self.memory == reach_state(self.password@)
    }


    /// One candidate child: the state after `code`, kept when the
    /// pruning test accepts it.
    fn try_child(&self, ctx: &EnumerationContext, code: u8) -> (r: Option<SearchContext>)
        requires
            ctx.tables_wf(),
            self.wf(),
            (self.len as int) < ctx.spec_ml(),
            is_code(code),
        ensures
            match r {
                Some(ch) => {
                    &&& ch.wf()
                    &&& ch.password@ == self.password@.push(code)
                    &&& ch.len == self.len + 1
                    &&& ctx.spec_passes(self.password@.len() as int + 1, ch.memory)
                },
                None => !ctx.spec_passes(
                    self.password@.len() as int + 1,
                    spec_forward(self.memory, code),
                ),
            },
    {
        let mut m = self.memory;
        forward_step(&mut m, code);
        proof {
            lemma_reach_snoc(self.password@, code);
            assert(self.password@ + seq![code] =~= self.password@.push(code));
            assert(m == reach_state(self.password@.push(code)));
            lemma_reach_proj_ok(DpAxis::TrackF7, self.password@.push(code));
            assert(m.f9 < 64);
        }
        if ctx.is_valid(self.len + 1, &m) {
            let mut pw = crate::backward::clone_vec_u8(&self.password);
            pw.push(code);
            Some(SearchContext { memory: m, password: pw, len: self.len + 1 })
        } else {
            None
        }
    }

    /// The children of this state: one per alphabet character, keeping
    /// only those the pruning test accepts.
    #[verifier::rlimit(100)]
    pub fn extract(&self, ctx: &EnumerationContext) -> (r: Vec<SearchContext>)
        requires
            ctx.tables_wf(),
            self.wf(),
            (self.len as int) < ctx.spec_ml(),
        ensures
            children_ok(r@, self.password@, *ctx),
            children_cover(r@, self.password@, self.memory, *ctx, 42),
    {
        let codes = password_char_codes();
        let mut r: Vec<SearchContext> = Vec::new();
        let nc = codes.len();
        for ci in 0..nc
            invariant
                nc == 42,
                codes@ == spec_codes(),
                ctx.tables_wf(),
                self.wf(),
                (self.len as int) < ctx.spec_ml(),
                children_ok(r@, self.password@, *ctx),
                children_cover(r@, self.password@, self.memory, *ctx, ci as int),
        {
            let code = codes[ci];
            proof {
                assert(is_code(code));
            }
            let ghost r_prev = r@;
            match self.try_child(ctx, code) {
                Some(ch) => {
                    r.push(ch);
                    proof {
                        assert(r@[r@.len() - 1].password@ == self.password@.push(code));
                        assert(r@[r@.len() - 1].password@.take(self.password@.len() as int)
                            =~= self.password@);
                    }
                },
                None => {},
            }
            proof {
                lemma_children_step(
                    r_prev,
                    r@,
                    self.password@,
                    self.memory,
                    *ctx,
                    ci as int,
                    code,
                );
            }
        }
        r
    }
}

/// Every listed result has the target's length, consists of alphabet
/// codes, and hashes from the initial state to the target state.
pub open spec fn sound_results(ctx: EnumerationContext, rs: Seq<Vec<u8>>) -> bool {
    forall|i: int|
        0 <= i < rs.len() ==> {
            let w = (#[trigger] rs[i])@;
            &&& w.len() == ctx.target.spec_len()
            &&& all_codes(w)
            &&& reach_state(w) == ctx.target.memory
        }
}

/// Whether `w` begins with `pre`.
pub open spec fn extends(w: Seq<u8>, pre: Seq<u8>) -> bool {
    w.len() >= pre.len() && w.take(pre.len() as int) == pre
}

/// Whether some result's view is exactly `w`.
pub open spec fn result_contains(rs: Seq<Vec<u8>>, w: Seq<u8>) -> bool {
    exists|i: int| 0 <= i < rs.len() && (#[trigger] rs[i])@ == w
}

/// Beginning with a sequence that itself begins with `b` is beginning
/// with `b`.
proof fn lemma_extends_trans(w: Seq<u8>, a: Seq<u8>, b: Seq<u8>)
    requires
        extends(w, a),
        extends(a, b),
    ensures
        extends(w, b),
{
    assert(w.take(a.len() as int).take(b.len() as int) =~= w.take(b.len() as int));
    assert(w.take(b.len() as int) == a.take(b.len() as int));
}

impl EnumerationContext {
    /// At a leaf, joins the prefix against the backward table and emits
    /// one full password per matching suffix.
    #[verifier::rlimit(100)]
    pub fn extend_passwords(&self, search: &SearchContext, found: &mut Vec<Vec<u8>>)
        requires
            self.wf(),
            search.wf(),
            search.password@.len() == self.spec_ml(),
            sound_results(*self, old(found)@),
        ensures
            final(found)@.len() >= old(found)@.len(),
            forall|i: int|
                0 <= i < old(found)@.len() ==> (#[trigger] final(found)@[i])@ == old(found)@[i]@,
            forall|j: int|
                old(found)@.len() <= j < final(found)@.len() ==> extends(
                    (#[trigger] final(found)@[j])@,
                    search.password@,
                ),
            sound_results(*self, final(found)@),
            forall|w: Seq<u8>|
                extends(w, search.password@) && w.len() == self.target.spec_len() && all_codes(w)
                    && #[trigger] reach_state(w) == self.target.memory ==> result_contains(
                    final(found)@,
                    w,
                ),
    {
        let suffixes = self.backward.for_each_password(&search.memory);
        let ns = suffixes.len();
        proof {
            // each suffix is a node's: full length, alphabet codes, and
            // it drives the leaf state to the target
            assert forall|u: int| 0 <= u < suffixes@.len() implies (all_codes(
                (#[trigger] suffixes@[u])@,
            ) && suffixes@[u]@.len() == self.backward.spec_depth() && spec_forward_seq(
                search.memory,
                suffixes@[u]@,
            ) == self.target.memory) by {
                assert(self.backward.has_node(search.memory, suffixes@[u]@));
                let k = choose|k: int|
                    0 <= k < self.backward.nodes@.len()
                        && (#[trigger] self.backward.nodes@[k]).memory == search.memory
                        && self.backward.nodes@[k].password@ == suffixes@[u]@;
            }
        }
        for t in 0..ns
            invariant
                ns == suffixes@.len(),
                search.password@.len() + self.backward.spec_depth() == self.target.spec_len(),
                all_codes(search.password@),
                search.memory == reach_state(search.password@),
                forall|u: int|
                    0 <= u < suffixes@.len() ==> (all_codes((#[trigger] suffixes@[u])@)
                        && suffixes@[u]@.len() == self.backward.spec_depth()
                        && spec_forward_seq(search.memory, suffixes@[u]@)
                        == self.target.memory),
                found@.len() >= old(found)@.len(),
                forall|i: int|
                    0 <= i < old(found)@.len() ==> (#[trigger] found@[i])@ == old(found)@[i]@,
                forall|j: int|
                    old(found)@.len() <= j < found@.len() ==> extends(
                        (#[trigger] found@[j])@,
                        search.password@,
                    ),
                sound_results(*self, found@),
                forall|u: int|
                    0 <= u < suffixes@.len() ==> self.backward.has_node(
                        search.memory,
                        (#[trigger] suffixes@[u])@,
                    ),
                forall|u: int|
                    0 <= u < t ==> result_contains(found@, search.password@ + (
                    #[trigger] suffixes@[u])@),
        {
            let mut full = crate::backward::clone_vec_u8(&search.password);
            let suffix = &suffixes[t];
            let sn = suffix.len();
            for q in 0..sn
                invariant
                    sn == suffix@.len(),
                    full@ == search.password@ + suffix@.take(q as int),
            {
                full.push(suffix[q]);
                proof {
                    assert(full@ =~= search.password@ + suffix@.take(q + 1));
                }
            }
            proof {
                assert(suffix@.take(sn as int) =~= suffix@);
                assert(full@ == search.password@ + suffix@);
                lemma_forward_seq_app(spec_initial(), search.password@, suffix@);
                assert(spec_forward_seq(search.memory, suffix@) == self.target.memory);
                assert(reach_state(full@) == self.target.memory);
                assert(all_codes(full@)) by {
                    assert(forall|j: int|
                        0 <= j < search.password@.len() ==> full@[j] == search.password@[j]);
                    assert(forall|j: int|
                        search.password@.len() <= j < full@.len() ==> full@[j] == suffix@[j
                            - search.password@.len()]);
                }
                assert(full@.len() == self.target.spec_len());
                assert(full@.take(search.password@.len() as int) =~= search.password@);
                assert(extends(full@, search.password@));
            }
            let ghost prev = found@;
            found.push(full);
            proof {
                assert forall|j: int|
                    old(found)@.len() <= j < found@.len() implies extends(
                    (#[trigger] found@[j])@,
                    search.password@,
                ) by {
                    if j == found@.len() - 1 {
                        assert(found@[j]@ == prev.push(full)[j]@);
                    } else {
                        assert(found@[j] == prev[j]);
                    }
                }
                assert forall|u: int|
                    0 <= u < t + 1 implies result_contains(
                    found@,
                    search.password@ + (#[trigger] suffixes@[u])@,
                ) by {
                    if u == t {
                        assert(found@[found@.len() - 1]@ == search.password@ + suffixes@[u]@);
                    } else {
                        let i0 = choose|i0: int|
                            0 <= i0 < prev.len() && (#[trigger] prev[i0])@ == search.password@
                                + suffixes@[u]@;
                        assert(found@[i0]@ == search.password@ + suffixes@[u]@);
                    }
                }
            }
        }
        proof {
            assert forall|w: Seq<u8>|
                extends(w, search.password@) && w.len() == self.target.spec_len() && all_codes(w)
                    && #[trigger] reach_state(w) == self.target.memory implies result_contains(
                found@,
                w,
            ) by {
                let ml = search.password@.len() as int;
                let rest = w.skip(ml);
                assert(w =~= search.password@ + rest);
                lemma_forward_seq_app(spec_initial(), search.password@, rest);
                assert(spec_forward_seq(search.memory, rest) == self.target.memory);
                assert(all_codes(rest)) by {
                    assert(forall|j: int| 0 <= j < rest.len() ==> rest[j] == w[j + ml]);
                }
                assert(rest.len() == self.backward.spec_depth());
                // the backward table holds this suffix, so the join emits it
                let k = choose|k: int|
                    0 <= k < self.backward.nodes@.len() && (#[trigger] self.backward.nodes@[k]).memory
                        == search.memory && self.backward.nodes@[k].password@ == rest;
                let u = choose|u: int|
                    0 <= u < suffixes@.len() && (#[trigger] suffixes@[u])@
                        == self.backward.nodes@[k].password@;
                assert(result_contains(found@, search.password@ + suffixes@[u]@));
                assert(search.password@ + suffixes@[u]@ == w);
            }
        }
    }
}


/// The popcount accumulator of a reachable state is at most nine per
/// step: the popcount of the input plus a carry, never wrapping within
/// fourteen steps.
proof fn lemma_fb_le(s: Seq<u8>)
    requires
        all_codes(s),
        s.len() <= 14,
    ensures
        reach_state(s).fb as int <= 9 * s.len(),
    decreases s.len(),
{
    if s.len() == 0 {
        assert(reach_state(s) == spec_initial());
    } else {
        let s0 = s.drop_last();
        assert(all_codes(s0)) by {
            assert(forall|j: int| 0 <= j < s0.len() ==> s0[j] == s[j]);
        }
        lemma_fb_le(s0);
        lemma_forward_seq_snoc(spec_initial(), s);
        let c = s.last();
        assert(spec_pop_count(c) <= 8) by (bit_vector);
        let m0 = reach_state(s0);
        let f = spec_forward(m0, c);
        assert(f.fb as int <= m0.fb + 9);
    }
}

/// Along a full path, the popcount accumulator never decreases.
proof fn lemma_fb_mono(w: Seq<u8>, l: int)
    requires
        all_codes(w),
        w.len() <= 14,
        0 <= l <= w.len(),
    ensures
        reach_state(w.take(l)).fb <= reach_state(w).fb,
    decreases w.len() - l,
{
    if l == w.len() {
        assert(w.take(l) =~= w);
    } else {
        let s0 = w.take(l);
        let s1 = w.take(l + 1);
        assert(all_codes(s0)) by {
            assert(forall|j: int| 0 <= j < s0.len() ==> s0[j] == w[j]);
        }
        assert(all_codes(s1)) by {
            assert(forall|j: int| 0 <= j < s1.len() ==> s1[j] == w[j]);
        }
        assert(s1.drop_last() =~= s0);
        assert(s1.last() == w[l]);
        lemma_forward_seq_snoc(spec_initial(), s1);
        lemma_fb_le(s0);
        let c = w[l];
        assert(spec_pop_count(c) <= 8) by (bit_vector);
        let m0 = reach_state(s0);
        let f = spec_forward(m0, c);
        assert(m0.fb <= f.fb);
        lemma_fb_mono(w, l + 1);
    }
}

/// A state on a full path passes the pruning test: its popcount stays
/// under the target's, and both tables keep its bit, because the rest of
/// the path reaches a backward node.
proof fn lemma_passes_on_path(ctx: EnumerationContext, w: Seq<u8>, l: int)
    requires
        ctx.wf(),
        all_codes(w),
        w.len() == ctx.target.spec_len(),
        reach_state(w) == ctx.target.memory,
        1 <= l <= ctx.spec_ml(),
    ensures
        ctx.spec_passes(l, reach_state(w.take(l))),
{
    reveal(EnumerationContext::spec_passes);
    let ml = ctx.spec_ml();
    let m = reach_state(w.take(l));
    let s = w.take(l);
    let t = w.subrange(l, ml);
    let rest = w.skip(ml);
    assert(all_codes(s)) by {
        assert(forall|j: int| 0 <= j < s.len() ==> s[j] == w[j]);
    }
    assert(all_codes(t)) by {
        assert(forall|j: int| 0 <= j < t.len() ==> t[j] == w[j + l]);
    }
    assert(all_codes(rest)) by {
        assert(forall|j: int| 0 <= j < rest.len() ==> rest[j] == w[j + ml]);
    }
    // the tail from depth ml reaches the target, so its start is a node
    assert(w.take(ml) + rest =~= w);
    lemma_forward_seq_app(spec_initial(), w.take(ml), rest);
    assert(spec_forward_seq(reach_state(w.take(ml)), rest) == ctx.target.memory);
    assert(rest.len() == ctx.backward.spec_depth());
    let k = choose|k: int|
        0 <= k < ctx.backward.nodes@.len() && (#[trigger] ctx.backward.nodes@[k]).memory
            == reach_state(w.take(ml)) && ctx.backward.nodes@[k].password@ == rest;
    assert(is_back_proj(DpAxis::TrackF7, ctx.backward, reach_state(w.take(ml))));
    assert(is_back_proj(DpAxis::TrackF8, ctx.backward, reach_state(w.take(ml))));
    // both tables keep the bit of every state on the path
    assert(s + t =~= w.take(ml));
    assert(s.len() + t.len() == ml);
    assert(ctx.forward1.spec_bit(l, m));
    assert(ctx.forward2.spec_bit(l, m));
    // the popcount accumulator never decreases along the path
    lemma_fb_mono(w, l);
    assert(m.fb <= ctx.target.memory.fb);
}

/// The results emitted under the first `upto` children cover every full
/// password passing through one of them.
pub open spec fn subtrees_done(
    found: Seq<Vec<u8>>,
    children: Seq<SearchContext>,
    upto: int,
    pw: Seq<u8>,
    ctx: EnumerationContext,
) -> bool {
    forall|w: Seq<u8>|
        extends(w, pw) && w.len() == ctx.target.spec_len() && all_codes(w)
            && #[trigger] reach_state(w) == ctx.target.memory && (exists|kk: int|
            0 <= kk < upto && (#[trigger] children[kk]).password@ == w.take(pw.len() as int + 1))
            ==> result_contains(found, w)
}

/// One child's recursion extends coverage by one.
#[verifier::rlimit(100)]
#[verifier::spinoff_prover]
proof fn lemma_subtrees_step(
    found_prev: Seq<Vec<u8>>,
    found_now: Seq<Vec<u8>>,
    children: Seq<SearchContext>,
    k: int,
    pw: Seq<u8>,
    ctx: EnumerationContext,
)
    requires
        0 <= k < children.len(),
        subtrees_done(found_prev, children, k, pw, ctx),
        found_now.len() >= found_prev.len(),
        forall|i: int| 0 <= i < found_prev.len() ==> (#[trigger] found_now[i])@ == found_prev[i]@,
        children[k].password@.len() == pw.len() + 1,
        pw.len() + 1 <= ctx.target.spec_len(),
        forall|w: Seq<u8>|
            extends(w, children[k].password@) && w.len() == ctx.target.spec_len() && all_codes(w)
                && #[trigger] reach_state(w) == ctx.target.memory ==> result_contains(
                found_now,
                w,
            ),
    ensures
        subtrees_done(found_now, children, k + 1, pw, ctx),
{
    assert forall|w: Seq<u8>|
        extends(w, pw) && w.len() == ctx.target.spec_len() && all_codes(w)
            && #[trigger] reach_state(w) == ctx.target.memory && (exists|kk: int|
            0 <= kk < k + 1 && (#[trigger] children[kk]).password@ == w.take(pw.len() as int + 1))
            implies result_contains(found_now, w) by {
        let kk = choose|kk: int|
            0 <= kk < k + 1 && (#[trigger] children[kk]).password@ == w.take(pw.len() as int + 1);
        if kk == k {
            assert(w.len() >= pw.len() + 1);
            assert(w.take(children[k].password@.len() as int) == children[k].password@);
            assert(extends(w, children[k].password@));
        } else {
            assert(result_contains(found_prev, w));
            let i0 = choose|i0: int|
                0 <= i0 < found_prev.len() && (#[trigger] found_prev[i0])@ == w;
            assert(found_now[i0]@ == w);
        }
    }
}

/// With every child processed, every full password extending the prefix
/// has been emitted.
proof fn lemma_dfs_complete(
    found: Seq<Vec<u8>>,
    children: Seq<SearchContext>,
    pw: Seq<u8>,
    m: Memory,
    ctx: EnumerationContext,
)
    requires
        ctx.wf(),
        all_codes(pw),
        m == reach_state(pw),
        (pw.len() as int) < ctx.spec_ml(),
        children_ok(children, pw, ctx),
        children_cover(children, pw, m, ctx, 42),
        subtrees_done(found, children, children.len() as int, pw, ctx),
    ensures
        forall|w: Seq<u8>|
            extends(w, pw) && w.len() == ctx.target.spec_len() && all_codes(w)
                && #[trigger] reach_state(w) == ctx.target.memory ==> result_contains(found, w),
{
    assert forall|w: Seq<u8>|
        extends(w, pw) && w.len() == ctx.target.spec_len() && all_codes(w)
            && #[trigger] reach_state(w) == ctx.target.memory implies result_contains(
        found,
        w,
    ) by {
        let l = pw.len() as int;
        let c = w[l];
        assert(is_code(c));
        assert(w.take(l + 1).drop_last() =~= w.take(l));
        assert(w.take(l) == pw);
        assert(w.take(l + 1) =~= pw.push(c));
        lemma_forward_seq_snoc(spec_initial(), w.take(l + 1));
        assert(w.take(l + 1).last() == c);
        assert(reach_state(w.take(l + 1)) == spec_forward(m, c));
        lemma_passes_on_path(ctx, w, l + 1);
        assert(ctx.spec_passes(l + 1, spec_forward(m, c)));
        let cj = choose|cj: int| 0 <= cj < spec_codes().len() && spec_codes()[cj] == c;
        assert(0 <= cj < 42 && spec_codes()[cj] == c);
        assert(ctx.spec_passes(pw.len() as int + 1, spec_forward(m, spec_codes()[cj])));
        let k = choose|k: int|
            0 <= k < children.len() && (#[trigger] children[k]).password@ == pw.push(
                spec_codes()[cj],
            );
        assert(children[k].password@ == w.take(l + 1));
    }
}

/// The depth-first search: at the maximum depth, join against the
/// backward table; otherwise recurse into every accepted child.
#[verifier::rlimit(100)]
pub fn dfs(search: &SearchContext, ctx: &EnumerationContext, found: &mut Vec<Vec<u8>>)
    requires
        ctx.wf(),
        search.wf(),
        search.password@.len() <= ctx.spec_ml(),
        sound_results(*ctx, old(found)@),
    ensures
        final(found)@.len() >= old(found)@.len(),
        forall|i: int|
            0 <= i < old(found)@.len() ==> (#[trigger] final(found)@[i])@ == old(found)@[i]@,
        forall|j: int|
            old(found)@.len() <= j < final(found)@.len() ==> extends(
                (#[trigger] final(found)@[j])@,
                search.password@,
            ),
        sound_results(*ctx, final(found)@),
        forall|w: Seq<u8>|
            extends(w, search.password@) && w.len() == ctx.target.spec_len() && all_codes(w)
                && #[trigger] reach_state(w) == ctx.target.memory ==> result_contains(
                final(found)@,
                w,
            ),
    decreases ctx.spec_ml() - search.password@.len(),
{
    if ctx.finish(search.len) {
        ctx.extend_passwords(search, found);
    } else {
        let children = search.extract(ctx);
        let n = children.len();
        let ghost found0 = found@;
        for k in 0..n
            invariant
                n == children@.len(),
                ctx.wf(),
                search.wf(),
                (search.password@.len() as int) < ctx.spec_ml(),
                children_ok(children@, search.password@, *ctx),
                children_cover(children@, search.password@, search.memory, *ctx, 42),
                found@.len() >= found0.len(),
                forall|i: int| 0 <= i < found0.len() ==> (#[trigger] found@[i])@ == found0[i]@,
                forall|j: int|
                    found0.len() <= j < found@.len() ==> extends(
                        (#[trigger] found@[j])@,
                        search.password@,
                    ),
                sound_results(*ctx, found@),
                subtrees_done(found@, children@, k as int, search.password@, *ctx),
        {
            let ghost found_prev = found@;
            proof {
                assert(children@[k as int].wf());
                assert(children@[k as int].password@.len() == search.password@.len() + 1);
            }
            dfs(&children[k], ctx, found);
            proof {
                lemma_subtrees_step(
                    found_prev,
                    found@,
                    children@,
                    k as int,
                    search.password@,
                    *ctx,
                );
                // entries the child appended extend its prefix, which
                // extends ours
                assert(extends(children@[k as int].password@, search.password@)) by {
                    assert(children@[k as int].password@.take(search.password@.len() as int)
                        == search.password@);
                }
                assert forall|j: int|
                    found0.len() <= j < found@.len() implies extends(
                    (#[trigger] found@[j])@,
                    search.password@,
                ) by {
                    if j < found_prev.len() {
                        assert(found@[j]@ == found_prev[j]@);
                    } else {
                        assert(extends(found@[j]@, children@[k as int].password@));
                        lemma_extends_trans(
                            found@[j]@,
                            children@[k as int].password@,
                            search.password@,
                        );
                    }
                }
            }
        }
        proof {
            lemma_dfs_complete(
                found@,
                children@,
                search.password@,
                search.memory,
                *ctx,
            );
        }
    }
}

/// Enumerates every password of the target's length that hashes to the
/// target state: builds the backward table at the given depth, the two
/// reachability tables, and runs the pruned search.
///
/// Soundness: every result has the target's length, consists of alphabet
/// codes, and drives the initial state to the target state.
/// Completeness: every code sequence with those properties is a result.
pub fn enumeration(target: &Target, backward_len: usize) -> (r: Vec<Vec<u8>>)
    requires
        target.spec_len() <= 14,
        backward_len <= target.spec_len() as usize,
    ensures
        forall|i: int|
            0 <= i < r@.len() ==> {
                let w = (#[trigger] r@[i])@;
                &&& w.len() == target.spec_len()
                &&& all_codes(w)
                &&& reach_state(w) == target.memory
            },
        forall|w: Seq<u8>|
            w.len() == target.spec_len() && all_codes(w) && #[trigger] reach_state(w)
                == target.memory ==> exists|i: int|
                0 <= i < r@.len() && (#[trigger] r@[i])@ == w,
{
    let backward = Backward::new(&target.memory, backward_len);
    let forward1 = Forward1::build(target, &backward);
    let forward2 = Forward2::build(target, &backward);
    let ctx = EnumerationContext { forward1, forward2, backward, target: *target };
    let mut found: Vec<Vec<u8>> = Vec::new();
    let password: Vec<u8> = Vec::new();
    let search = SearchContext { memory: Memory::new(), password, len: 0 };
    proof {
        assert(search.password@ =~= Seq::<u8>::empty());
        assert(reach_state(search.password@) == spec_initial());
        assert(search.wf());
    }
    dfs(&search, &ctx, &mut found);
    proof {
        assert forall|w: Seq<u8>|
            w.len() == target.spec_len() && all_codes(w) && #[trigger] reach_state(w)
                == target.memory implies exists|i: int|
            0 <= i < found@.len() && (#[trigger] found@[i])@ == w by {
            assert(w.take(0) =~= Seq::<u8>::empty());
            assert(extends(w, search.password@));
            assert(result_contains(found@, w));
            let i = choose|i: int| 0 <= i < found@.len() && (#[trigger] found@[i])@ == w;
        }
    }
    found
}

} // verus!
