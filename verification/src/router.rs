//! The path matcher, an outside collaborator: registered patterns are held in
//! a `route_recognizer::Router`, and an incoming path resolves to a handler
//! index plus extracted named parameters, or to a "no match" signal.
//!
//! The matcher is opaque here. Its behaviour enters the proofs through two
//! names — `route_of`, the index it resolves a path to, and `params_of`, the
//! parameters it extracts — and through the contracts of the three calls
//! below, each stated over those names no more strongly than the crate's own
//! source shows.

use vstd::prelude::*;

use crate::strmap::{map_of, unique_keys};

verus! {

#[verifier::external_type_specification]
#[verifier::external_body]
#[verifier::reject_recursive_types(T)]
pub struct ExRouter<T>(route_recognizer::Router<T>);

/// The handler index the matcher resolves a path to, if any. Matching is
/// deterministic: a pure function of the registered patterns and the path.
pub uninterp spec fn route_of(r: route_recognizer::Router<usize>, path: Seq<char>) -> Option<
    usize,
>;

/// The named parameters the matcher extracts for a path it matches.
pub uninterp spec fn params_of(r: route_recognizer::Router<usize>, path: Seq<char>) -> Map<
    Seq<char>,
    Seq<char>,
>;

/// Relies on route_recognizer's Router::new: a fresh matcher has no patterns
/// and matches no path.
#[verifier::external_body]
pub fn router_new() -> (r: route_recognizer::Router<usize>)
    ensures
        forall|p: Seq<char>| route_of(r, p) is None,
{
    route_recognizer::Router::new()
}

/// No NUL character anywhere in the sequence. The matcher's character
/// classes are ranges built by subtracting one from a code point, which the
/// code point zero cannot bear: patterns and paths handed to the matcher must
/// leave NUL out.
pub open spec fn nul_free(s: Seq<char>) -> bool {
    forall|k: int| 0 <= k < s.len() ==> s[k] != '\0'
}

/// Relies on route_recognizer's Router::add: registering one more pattern
/// either leaves a path's match as it was or resolves it to the new index —
/// existing patterns are never dropped, and no other index can appear. The
/// pattern's own text always matches afterwards: each segment the pattern
/// induces accepts the characters it was built from, the pattern itself being
/// one candidate. The matcher walks patterns bytewise and subtracts one from
/// each code point it ranges over, so the pattern must be ASCII and carry no
/// NUL.
#[verifier::external_body]
pub fn router_add(r: &mut route_recognizer::Router<usize>, pattern: &str, index: usize)
    requires
        pattern.is_ascii(),
        nul_free(pattern@),
    ensures
        forall|p: Seq<char>|
            #[trigger] route_of(*final(r), p) == route_of(*old(r), p) || route_of(*final(r), p)
                == Some(index),
        route_of(*final(r), pattern@) is Some,
{
    r.add(pattern, index);
}

/// Relies on route_recognizer's Router::recognize: it reports a match exactly
/// when the matcher resolves the path, handing back the matched handler index
/// and the extracted named parameters (one binding per parameter name). The
/// path must carry no NUL: matching subtracts one from each code point it
/// compares, which the code point zero cannot bear.
#[verifier::external_body]
pub fn router_recognize(r: &route_recognizer::Router<usize>, path: &str) -> (res: Option<
    (usize, Vec<(String, String)>),
>)
    requires
        nul_free(path@),
    ensures
        match res {
            Some(found) => route_of(*r, path@) == Some(found.0) && unique_keys(found.1@) && map_of(
                found.1@,
            ) == params_of(*r, path@),
            None => route_of(*r, path@) is None,
        },
{
    match r.recognize(path) {
        Ok(m) => {
            let index: usize = **m.handler();
            let mut pairs: Vec<(String, String)> = Vec::new();
            for (k, v) in m.params().iter() {
                pairs.push((k.to_string(), v.to_string()));
            }
            Some((index, pairs))
        },
        Err(_) => None,
    }
}

} // verus!
