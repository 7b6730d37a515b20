//! ICE candidate parser following RFC 5245.
//!
//! The entry point is [`parse`], which turns one `candidate-attribute` line
//! into an [`IceCandidate`], or yields `None` when the line does not match the
//! grammar from its first to its last byte.

pub mod bytes;
pub mod numbers;
pub mod address;
pub mod address_laws;
pub mod types;
pub mod extensions;
pub mod parsers;
pub mod laws;

use crate::parsers::{ice_candidate, spec_ice_candidate};
use vstd::prelude::*;

pub use crate::address::IpAddress;
pub use crate::bytes::ErrorKind;
pub use crate::extensions::Extensions;
pub use crate::types::{CandidateType, IceCandidate, IceCandidateView, Transport};

verus! {

/// The candidate that the line `s` denotes: the one that the grammar
/// reads from it, if the grammar matches `s` to its last byte.
pub open spec fn spec_parse(s: Seq<u8>) -> Option<IceCandidateView> {
    match spec_ice_candidate(s) {
        Ok((rest, candidate)) => if rest.len() == 0 {
            Some(candidate)
        } else {
            None
        },
        Err(_) => None,
    }
}

/// The view of a candidate, if there is one.
pub open spec fn parsed_view(r: Option<IceCandidate>) -> Option<IceCandidateView> {
    match r {
        Some(candidate) => Some(candidate@),
        None => None,
    }
}

/// Parse an SDP bytestring, return an [`IceCandidate`] struct.
///
/// ## Example
///
/// The output for the following ICE candidate:
///
/// ```sdp,ignore
/// candidate:373990095 1 udp 41885439 5.148.189.205 63293 typ relay
/// ```
///
/// ...is the following struct:
///
/// ```rust,ignore
/// IceCandidate {
///     foundation: "373990095",
///     component_id: 1,
///     transport: Udp,
///     priority: 41885439,
///     connection_address: V4(5, 148, 189, 205),
///     port: 63293,
///     candidate_type: Relay,
///     rel_addr: None,
///     rel_port: None,
///     extensions: None
/// }
/// ```
///
/// If parsing fails, `None` is returned.
pub fn parse(sdp: &[u8]) -> (r: Option<IceCandidate>)
    ensures
        parsed_view(r) == spec_parse(sdp@),
{
    match ice_candidate(sdp) {
        Ok((rest, candidate)) => {
            if rest.len() == 0 {
                Some(candidate)
            } else {
                None
            }
        },
        Err(_) => None,
    }
}

} // verus!
