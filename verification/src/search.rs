//! Trusted interface to the `aho_corasick` multi-pattern searcher.
//!
//! The builder's containment phase uses an Aho-Corasick automaton to
//! find which input strings occur verbatim inside other input strings.
//! The automaton itself is opaque; the wrappers below state what the
//! crate's documentation and source promise of it: every reported match
//! is a real occurrence, every occurrence is reported, and matches come
//! out by ascending end position.

use vstd::prelude::*;

use crate::bytes::occurs_in;

verus! {

#[verifier::external_type_specification]
#[verifier::external_body]
pub struct ExAhoCorasick(aho_corasick::AhoCorasick);

/// The pattern list the automaton was built over, in insertion order.
pub uninterp spec fn ac_patterns(ac: aho_corasick::AhoCorasick) -> Seq<Seq<u8>>;

/// True of an automaton built with the default (standard) match
/// semantics, for which overlapping searches are supported.
pub uninterp spec fn ac_overlapping_ok(ac: aho_corasick::AhoCorasick) -> bool;

/// Whether automaton construction succeeds for a pattern list. The
/// construction is deterministic, so success depends on the patterns
/// alone; it fails only for astronomically large pattern sets.
pub uninterp spec fn ac_builds(ps: Seq<Seq<u8>>) -> bool;

/// Relies on `aho_corasick::AhoCorasick::new`: construction is a
/// deterministic function of the patterns; on success the automaton
/// holds exactly the given patterns, numbered in insertion order, and is
/// built with the default `MatchKind::Standard` semantics, which support
/// overlapping searches.
#[verifier::external_body]
pub(crate) fn ac_build(patterns: &Vec<Vec<u8>>) -> (r: Option<aho_corasick::AhoCorasick>)
    ensures
        r is Some <==> ac_builds(patterns@.map_values(|p: Vec<u8>| p@)),
        r matches Some(ac) ==> {
            &&& ac_patterns(ac) == patterns@.map_values(|p: Vec<u8>| p@)
            &&& ac_overlapping_ok(ac)
        },
{
    aho_corasick::AhoCorasick::new(patterns).ok()
}

/// Relies on `aho_corasick::AhoCorasick::find_overlapping_iter`: with
/// standard match semantics it reports, for every position of the
/// haystack, every pattern occurrence ending there. So every reported
/// match is a real occurrence (the haystack bytes starting at the match
/// position equal the matched pattern), every occurrence of every
/// pattern is reported, and matches come out by ascending end position.
/// Each match is handed back as the pair (pattern index, start position).
#[verifier::external_body]
pub(crate) fn ac_find_overlapping(ac: &aho_corasick::AhoCorasick, text: &Vec<u8>) -> (r: Vec<
    (usize, usize),
>)
    requires
        ac_overlapping_ok(*ac),
    ensures
        forall|k: int| #![trigger r@[k]] 0 <= k < r@.len() ==> {
            let (p, s) = r@[k];
            &&& 0 <= (p as int) < ac_patterns(*ac).len()
            &&& occurs_in(ac_patterns(*ac)[p as int], text@, s as int)
        },
        forall|p: int, s: int|
            0 <= p < ac_patterns(*ac).len() && #[trigger] occurs_in(
                ac_patterns(*ac)[p],
                text@,
                s,
            ) ==> exists|k: int|
                0 <= k < r@.len() && (#[trigger] r@[k]) == (p as usize, s as usize),
        forall|k1: int, k2: int|
            0 <= k1 < k2 < r@.len() ==> (#[trigger] r@[k1]).1 + ac_patterns(*ac)[r@[k1].0 as int].len()
                <= (#[trigger] r@[k2]).1 + ac_patterns(*ac)[r@[k2].0 as int].len(),
{
    ac.find_overlapping_iter(text.as_slice()).map(|m| (m.pattern().as_usize(), m.start())).collect()
}

} // verus!
