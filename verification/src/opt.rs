//! Search options: an optional prefix and suffix constraint on the
//! passwords, and two flags the surrounding program interprets.

use vstd::prelude::*;

verus! {

use crate::domain::spec_char_index;

/// Options as they arrive from the outside: constraint strings.
pub struct Opt {
    pub prefix: Option<String>,
    pub suffix: Option<String>,
    pub verbose: bool,
    pub ignore_cache: bool,
}

/// Options with the constraint strings resolved to character-table
/// positions.
pub struct OptInternal {
    pub prefix: Option<Vec<usize>>,
    pub suffix: Option<Vec<usize>>,
    pub verbose: bool,
    pub ignore_cache: bool,
}

impl OptInternal {
    /// Options that constrain nothing.
    pub fn none() -> (r: OptInternal)
        ensures
            r.prefix is None,
            r.suffix is None,
            !r.verbose,
            !r.ignore_cache,
    {
        OptInternal { prefix: None, suffix: None, verbose: false, ignore_cache: false }
    }

    /// Resolves option strings to character-table positions; `None`
    /// exactly when a constraint holds a character outside the alphabet.
    pub fn from_opt(opt: &Opt) -> (r: Option<OptInternal>)
        ensures
            match r {
                Some(v) => {
                    &&& v.verbose == opt.verbose
                    &&& v.ignore_cache == opt.ignore_cache
                    &&& (v.prefix is Some <==> opt.prefix is Some)
                    &&& (v.suffix is Some <==> opt.suffix is Some)
                    &&& (v.prefix is Some ==> indices_match(
                        v.prefix->Some_0@,
                        opt.prefix->Some_0@,
                    ))
                    &&& (v.suffix is Some ==> indices_match(
                        v.suffix->Some_0@,
                        opt.suffix->Some_0@,
                    ))
                },
                None => {
                    ||| (opt.prefix is Some && has_unknown_char(opt.prefix->Some_0@))
                    ||| (opt.suffix is Some && has_unknown_char(opt.suffix->Some_0@))
                },
            },
    {
        let prefix = match &opt.prefix {
            Some(s) => {
                match crate::domain::to_charcode_indices(s.as_str()) {
                    Some(v) => Some(v),
                    None => {
                        return None;
                    },
                }
            },
            None => None,
        };
        let suffix = match &opt.suffix {
            Some(s) => {
                match crate::domain::to_charcode_indices(s.as_str()) {
                    Some(v) => Some(v),
                    None => {
                        return None;
                    },
                }
            },
            None => None,
        };
        Some(
            OptInternal { prefix, suffix, verbose: opt.verbose, ignore_cache: opt.ignore_cache },
        )
    }
}

/// Whether `v` holds, position by position, the table indices of the
/// characters of `s`.
pub open spec fn indices_match(v: Seq<usize>, s: Seq<char>) -> bool {
    v.len() == s.len() && forall|i: int|
        0 <= i < v.len() ==> #[trigger] v[i] == spec_char_index(s[i]) && v[i] < 42
}

/// Whether some character of `s` is outside the alphabet.
pub open spec fn has_unknown_char(s: Seq<char>) -> bool {
    exists|i: int| 0 <= i < s.len() && #[trigger] spec_char_index(s[i]) == 42
}

} // verus!
