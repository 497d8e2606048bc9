//! Filters on partial passwords.  The prefix and suffix options restrict
//! which characters may stand at which positions; the configurable
//! validator list, meant for plausibility heuristics, is deliberately
//! empty, so the configured filter accepts everything.

use vstd::prelude::*;

verus! {

use crate::cpu::Memory;
use crate::opt::OptInternal;

/// Whether a word placed at `index` agrees with the prefix constraint:
/// every position that falls inside the prefix must carry the prefix's
/// character there.
pub open spec fn prefix_allows(prefix: Seq<usize>, index: int, word: Seq<usize>) -> bool {
    forall|k: int|
        0 <= k < word.len() && index + k < prefix.len() ==> #[trigger] word[k] == prefix[index + k]
}

/// Whether a word placed at `index` in a password of `total_len`
/// characters agrees with the suffix constraint: every position that
/// falls inside the suffix's span at the end must carry the suffix's
/// character there.
pub open spec fn suffix_allows(
    suffix: Seq<usize>,
    total_len: int,
    index: int,
    word: Seq<usize>,
) -> bool {
    forall|k: int|
        0 <= k < word.len() && index + k >= total_len - suffix.len() ==> #[trigger] word[k]
            == suffix[index + k - (total_len - suffix.len())]
}

/// Whether the options allow `word` at position `index` of a password of
/// `total_len` characters.
pub open spec fn spec_satisfies_options(
    opt: OptInternal,
    total_len: int,
    index: int,
    word: Seq<usize>,
) -> bool {
    &&& (opt.prefix is Some ==> prefix_allows(opt.prefix->Some_0@, index, word))
    &&& (opt.suffix is Some ==> suffix_allows(opt.suffix->Some_0@, total_len, index, word))
}

/// Tests the prefix and suffix options against a word placed at `index`
/// of a password of `total_len` characters.
pub fn satisfy_option_constraint(
    opt: &OptInternal,
    total_len: usize,
    index: usize,
    word: &[usize],
) -> (r: bool)
    requires
        opt.suffix is Some ==> opt.suffix->Some_0@.len() <= total_len,
        index + word@.len() <= total_len,
    ensures
        r == spec_satisfies_options(*opt, total_len as int, index as int, word@),
{
    let wn = word.len();
    if let Some(prefix) = &opt.prefix {
        proof {
            assert(opt.prefix is Some && opt.prefix->Some_0 == *prefix);
        }
        let pn = prefix.len();
        if index < pn {
            let n = if pn - index < wn {
                pn - index
            } else {
                wn
            };
            for k in 0..n
                invariant
                    opt.prefix is Some,
                    opt.prefix->Some_0@ == prefix@,
                    index + word@.len() <= total_len,
                    n <= wn,
                    index + n <= pn,
                    wn == word@.len(),
                    pn == prefix@.len(),
                    pn - index < wn ==> n == pn - index,
                    pn - index >= wn ==> n == wn,
                    forall|t: int| 0 <= t < k ==> #[trigger] word@[t] == prefix@[index + t],
            {
                if prefix[index + k] != word[k] {
                    proof {
                        assert(!prefix_allows(prefix@, index as int, word@));
                    }
                    return false;
                }
            }
        }
        proof {
            assert forall|k: int|
                0 <= k < word@.len() && index + k < prefix@.len() implies #[trigger] word@[k]
                == prefix@[index + k] by {}
        }
    }
    if let Some(suffix) = &opt.suffix {
        let sn = suffix.len();
        let o = total_len - sn;
        let i = if index > o {
            index
        } else {
            o
        };
        let j = index + wn;
        if i < j {
            for k in i..j
                invariant
                    opt.suffix is Some,
                    opt.suffix->Some_0@ == suffix@,
                    index + word@.len() <= total_len,
                    o == total_len - sn,
                    sn == suffix@.len(),
                    wn == word@.len(),
                    index <= i,
                    o <= i,
                    j == index + wn,
                    j <= total_len,
                    forall|t: int|
                        i - index <= t < k - index ==> #[trigger] word@[t] == suffix@[index + t
                            - o],
            {
                if suffix[k - o] != word[k - index] {
                    proof {
                        assert(!suffix_allows(suffix@, total_len as int, index as int, word@));
                    }
                    return false;
                }
            }
        }
        proof {
            assert forall|k: int|
                0 <= k < word@.len() && index + k >= total_len - suffix@.len() implies #[trigger] word@[k]
                == suffix@[index + k - (total_len - suffix@.len())] by {
                assert(i - index <= k < j - index);
            }
        }
    }
    true
}

/// Runs the configured validator list on a candidate extension.  The list
/// of plausibility heuristics is deliberately empty: none of them may
/// decide correctness, so the filter accepts every extension.
pub fn is_valid_password(
    expected_memory: &Memory,
    password: &[usize],
    append_word: &[usize],
) -> (r: bool)
    ensures
        r,
{
    let _ = expected_memory;
    let _ = password;
    let _ = append_word;
    true
}

} // verus!
