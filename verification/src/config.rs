//! Validating the profiling request count before any socket is opened.

use vstd::prelude::*;
use vstd::string::StringSliceAdditionalSpecFns;

use crate::numbers::{parse_usize, token_val, usize_token_ok};

verus! {

/// The text is a positive decimal request count that fits in `usize`.
pub open spec fn profile_count_ok(t: Seq<u8>) -> bool {
    usize_token_ok(t) && token_val(t) > 0
}

/// Parses the profiling request count: a decimal number, positive, fitting
/// in `usize`. Zero, negative or non-numeric text is rejected here, before
/// any network work starts.
pub fn parse_profile_count(s: &str) -> (r: Option<usize>)
    ensures
        r is Some <==> profile_count_ok(s.spec_bytes()),
        r is Some ==> r->0 == token_val(s.spec_bytes()) && r->0 > 0,
{
    let bytes = s.as_bytes();
    match parse_usize(bytes) {
        Some(n) => {
            if n > 0 {
                Some(n)
            } else {
                None
            }
        },
        None => None,
    }
}

} // verus!
