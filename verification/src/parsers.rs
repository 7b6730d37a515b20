//! The rules of the candidate grammar.
//!
//! Each rule reads from the start of its input and yields what is left
//! behind the text it matched together with the value it read, or says why
//! it did not match. Nothing is consumed by a rule that fails.

use crate::address::{ip_address, spec_ip_addr, IpAddress};
use crate::bytes::{
    all_ascii, ascii_text, lemma_run_len_bounds, nom_alpha, nom_digit, run_len, run_result,
    same_bytes, slices_view, take_run, utf8_text, ByteClass, ErrorKind, SPACE,
};
use crate::extensions::{entered_all, map_of_pairs, Extensions};
use crate::numbers::{
    all_digits, decimal_u64, decimal_value, lemma_decimal_value_bound, lemma_pow10_monotonic,
    lemma_pow10_values, pow10,
};
use crate::types::{
    candidate_type_of, lit_host, lit_prflx, lit_relay, lit_srflx, transport_of, CandidateType,
    CandidateTypeView, IceCandidate, IceCandidateView, Transport, TransportView,
};
use vstd::prelude::*;
use vstd::slice::slice_to_vec;

verus! {

/// What the rule for one space yields.
pub open spec fn spec_sp(s: Seq<u8>) -> Result<Seq<u8>, ErrorKind> {
    if s.len() == 0 {
        Err(ErrorKind::Incomplete)
    } else if s[0] != SPACE {
        Err(ErrorKind::Space)
    } else {
        Ok(s.skip(1))
    }
}

/// The rest of a slice, or the error in its place.
pub open spec fn rest_view(r: Result<&[u8], ErrorKind>) -> Result<Seq<u8>, ErrorKind> {
    match r {
        Ok(rest) => Ok(rest@),
        Err(e) => Err(e),
    }
}

/// Match exactly one space.
pub fn sp(input: &[u8]) -> (r: Result<&[u8], ErrorKind>)
    ensures
        rest_view(r) == spec_sp(input@),
{
    if input.len() == 0 {
        Err(ErrorKind::Incomplete)
    } else if input[0] != SPACE {
        Err(ErrorKind::Space)
    } else {
        let rest = &input[1..input.len()];
        assert(rest@ == input@.skip(1));
        Ok(rest)
    }
}

/// What the rule for the literal `lit` yields: a mismatch within the bytes
/// that are there is an error, and input that ends within the literal is
/// incomplete.
pub open spec fn spec_tag(s: Seq<u8>, lit: Seq<u8>) -> Result<Seq<u8>, ErrorKind> {
    let m = if s.len() < lit.len() {
        s.len() as int
    } else {
        lit.len() as int
    };
    if s.take(m) != lit.take(m) {
        Err(ErrorKind::Tag)
    } else if s.len() < lit.len() {
        Err(ErrorKind::Incomplete)
    } else {
        Ok(s.skip(lit.len() as int))
    }
}

/// Match the literal `lit`.
pub fn tag<'a>(input: &'a [u8], lit: &[u8]) -> (r: Result<&'a [u8], ErrorKind>)
    ensures
        rest_view(r) == spec_tag(input@, lit@),
{
    let m = if input.len() < lit.len() {
        input.len()
    } else {
        lit.len()
    };
    let mut i: usize = 0;
    while i < m
        invariant
            i <= m,
            m <= input.len(),
            m <= lit.len(),
            forall|k: int| 0 <= k < i ==> input@[k] == lit@[k],
        decreases m - i,
    {
        if input[i] != lit[i] {
            assert(input@.take(m as int)[i as int] != lit@.take(m as int)[i as int]);
            return Err(ErrorKind::Tag);
        }
        i += 1;
    }
    assert(input@.take(m as int) =~= lit@.take(m as int));
    if input.len() < lit.len() {
        return Err(ErrorKind::Incomplete);
    }
    let rest = &input[m..input.len()];
    assert(rest@ == input@.skip(lit@.len() as int));
    Ok(rest)
}

/// What `ice_chars` yields: the longest run of ice-chars, which must not be
/// empty.
pub open spec fn spec_ice_chars(s: Seq<u8>) -> Result<(Seq<u8>, Seq<u8>), ErrorKind> {
    run_result(s, ByteClass::IceChar, ErrorKind::TakeWhile1)
}

/// Parse one or more ice-chars.
pub fn ice_chars(input: &[u8]) -> (r: Result<(&[u8], &[u8]), ErrorKind>)
    ensures
        slices_view(r) == spec_ice_chars(input@),
{
    take_run(input, ByteClass::IceChar, ErrorKind::TakeWhile1)
}

/// The rest and the text of a rule that yields text, or the error.
pub open spec fn text_view(r: Result<(&[u8], &str), ErrorKind>) -> Result<
    (Seq<u8>, Seq<char>),
    ErrorKind,
> {
    match r {
        Ok((rest, text)) => Ok((rest@, text@)),
        Err(e) => Err(e),
    }
}

/// What `foundation` yields: the run of ice-chars at the start of the
/// input as text, if it has at most 32 of them.
pub open spec fn spec_foundation(s: Seq<u8>) -> Result<(Seq<u8>, Seq<char>), ErrorKind> {
    match spec_ice_chars(s) {
        Ok((rest, run)) => if run.len() <= 32 {
            Ok((rest, ascii_text(run)))
        } else {
            Err(ErrorKind::Verify)
        },
        Err(e) => Err(e),
    }
}

/// Bytes of the classes that the grammar's text fields are made of are
/// ASCII.
pub proof fn lemma_run_is_ascii(s: Seq<u8>, class: ByteClass)
    requires
        class != ByteClass::Token,
    ensures
        all_ascii(s.take(run_len(s, class) as int)),
{
    lemma_run_len_bounds(s, class);
}

/// Parse the foundation.
///
/// ```ebnf,ignore
/// foundation = 1*32ice-char
/// ice-char   = ALPHA / DIGIT / "+" / "/"
/// ```
pub fn foundation(input: &[u8]) -> (r: Result<(&[u8], &str), ErrorKind>)
    ensures
        text_view(r) == spec_foundation(input@),
{
    match ice_chars(input) {
        Ok((rest, run)) => {
            if run.len() > 32 {
                return Err(ErrorKind::Verify);
            }
            proof {
                lemma_run_is_ascii(input@, ByteClass::IceChar);
            }
            match utf8_text(run) {
                Some(text) => Ok((rest, text)),
                None => Err(ErrorKind::MapRes),
            }
        },
        Err(e) => Err(e),
    }
}

/// The rest and the value of a rule, or the error.
pub open spec fn value_view<T>(r: Result<(&[u8], T), ErrorKind>) -> Result<
    (Seq<u8>, T),
    ErrorKind,
> {
    match r {
        Ok((rest, value)) => Ok((rest@, value)),
        Err(e) => Err(e),
    }
}

/// What the rule for a run of decimal digits yields.
pub open spec fn spec_digits(s: Seq<u8>) -> Result<(Seq<u8>, Seq<u8>), ErrorKind> {
    run_result(s, ByteClass::Digit, ErrorKind::Digit)
}

/// A run of decimal digits holds only decimal digits, and at most `n` of
/// them denote a number below ten to the power of `n`.
pub proof fn lemma_digit_run(s: Seq<u8>, n: nat)
    requires
        run_len(s, ByteClass::Digit) <= n,
    ensures
        all_digits(s.take(run_len(s, ByteClass::Digit) as int)),
        decimal_value(s.take(run_len(s, ByteClass::Digit) as int)) < pow10(n),
{
    lemma_run_len_bounds(s, ByteClass::Digit);
    let run = s.take(run_len(s, ByteClass::Digit) as int);
    assert(all_digits(run));
    lemma_decimal_value_bound(run);
    lemma_pow10_monotonic(run.len(), n);
}

/// What `component_id` yields: the number that the run of digits at the
/// start of the input denotes, if it has at most five of them.
pub open spec fn spec_component_id(s: Seq<u8>) -> Result<(Seq<u8>, u32), ErrorKind> {
    match spec_digits(s) {
        Ok((rest, run)) => if run.len() <= 5 {
            Ok((rest, decimal_value(run) as u32))
        } else {
            Err(ErrorKind::Verify)
        },
        Err(e) => Err(e),
    }
}

/// Parse the component-id.
///
/// ```ebnf,ignore
/// component-id = 1*5DIGIT
/// ```
pub fn component_id(input: &[u8]) -> (r: Result<(&[u8], u32), ErrorKind>)
    ensures
        value_view(r) == spec_component_id(input@),
{
    match nom_digit(input) {
        Ok((rest, run)) => {
            if run.len() > 5 {
                return Err(ErrorKind::Verify);
            }
            proof {
                lemma_run_len_bounds(input@, ByteClass::Digit);
                lemma_digit_run(input@, 5);
                lemma_pow10_values();
            }
            match decimal_u64(run) {
                Some(v) => Ok((rest, v as u32)),
                None => Err(ErrorKind::MapRes),
            }
        },
        Err(e) => Err(e),
    }
}

/// What `priority` yields: the number that the run of digits at the start
/// of the input denotes, if it has at most ten of them.
pub open spec fn spec_priority(s: Seq<u8>) -> Result<(Seq<u8>, u64), ErrorKind> {
    match spec_digits(s) {
        Ok((rest, run)) => if run.len() <= 10 {
            Ok((rest, decimal_value(run) as u64))
        } else {
            Err(ErrorKind::Verify)
        },
        Err(e) => Err(e),
    }
}

/// Parse the priority.
///
/// ```ebnf,ignore
/// priority = 1*10DIGIT
/// ```
pub fn priority(input: &[u8]) -> (r: Result<(&[u8], u64), ErrorKind>)
    ensures
        value_view(r) == spec_priority(input@),
{
    match nom_digit(input) {
        Ok((rest, run)) => {
            if run.len() > 10 {
                return Err(ErrorKind::Verify);
            }
            proof {
                lemma_run_len_bounds(input@, ByteClass::Digit);
                lemma_digit_run(input@, 10);
                lemma_pow10_values();
            }
            match decimal_u64(run) {
                Some(v) => Ok((rest, v)),
                None => Err(ErrorKind::MapRes),
            }
        },
        Err(e) => Err(e),
    }
}

/// What `port` yields: the number that the run of digits at the start of
/// the input denotes, if it has at most five of them and the number is at
/// most 65535.
pub open spec fn spec_port(s: Seq<u8>) -> Result<(Seq<u8>, u16), ErrorKind> {
    match spec_digits(s) {
        Ok((rest, run)) => if run.len() <= 5 && decimal_value(run) <= 65535 {
            Ok((rest, decimal_value(run) as u16))
        } else {
            Err(ErrorKind::MapRes)
        },
        Err(e) => Err(e),
    }
}

/// Parse a port number.
pub fn port(input: &[u8]) -> (r: Result<(&[u8], u16), ErrorKind>)
    ensures
        value_view(r) == spec_port(input@),
{
    match nom_digit(input) {
        Ok((rest, run)) => {
            if run.len() > 5 {
                return Err(ErrorKind::MapRes);
            }
            proof {
                lemma_run_len_bounds(input@, ByteClass::Digit);
                lemma_digit_run(input@, 5);
                lemma_pow10_values();
            }
            match decimal_u64(run) {
                Some(v) => if v <= 65535 {
                    Ok((rest, v as u16))
                } else {
                    Err(ErrorKind::MapRes)
                },
                None => Err(ErrorKind::MapRes),
            }
        },
        Err(e) => Err(e),
    }
}

/// What `ip_addr` yields: the address that the run of address bytes at the
/// start of the input is the text of.
pub open spec fn spec_ip_addr_rule(s: Seq<u8>) -> Result<(Seq<u8>, IpAddress), ErrorKind> {
    match run_result(s, ByteClass::IpChar, ErrorKind::TakeWhile1) {
        Ok((rest, run)) => match spec_ip_addr(run) {
            Some(a) => Ok((rest, a)),
            None => Err(ErrorKind::MapRes),
        },
        Err(e) => Err(e),
    }
}

/// Parse an IP address.
pub fn ip_addr(input: &[u8]) -> (r: Result<(&[u8], IpAddress), ErrorKind>)
    ensures
        value_view(r) == spec_ip_addr_rule(input@),
{
    match take_run(input, ByteClass::IpChar, ErrorKind::TakeWhile1) {
        Ok((rest, run)) => match ip_address(run) {
            Some(a) => Ok((rest, a)),
            None => Err(ErrorKind::MapRes),
        },
        Err(e) => Err(e),
    }
}

/// The rest and the view of the value of a rule, or the error.
pub open spec fn viewed<T: View>(r: Result<(&[u8], T), ErrorKind>) -> Result<
    (Seq<u8>, T::V),
    ErrorKind,
> {
    match r {
        Ok((rest, value)) => Ok((rest@, value@)),
        Err(e) => Err(e),
    }
}

/// What the rule for a run of letters yields.
pub open spec fn spec_alpha(s: Seq<u8>) -> Result<(Seq<u8>, Seq<u8>), ErrorKind> {
    run_result(s, ByteClass::Alpha, ErrorKind::Alpha)
}

/// What `transport` yields: the transport that the run of letters at the
/// start of the input names.
pub open spec fn spec_transport(s: Seq<u8>) -> Result<(Seq<u8>, TransportView), ErrorKind> {
    match spec_alpha(s) {
        Ok((rest, tok)) => Ok((rest, transport_of(tok))),
        Err(e) => Err(e),
    }
}

/// Parse the transport.
///
/// ```ebnf,ignore
/// transport           = "UDP" / transport-extension
/// transport-extension = token ; from RFC 3261
/// ```
pub fn transport(input: &[u8]) -> (r: Result<(&[u8], Transport), ErrorKind>)
    ensures
        viewed(r) == spec_transport(input@),
{
    match nom_alpha(input) {
        Ok((rest, tok)) => {
            // `u` or `U`, `d` or `D`, `p` or `P`
            if tok.len() == 3 && (tok[0] == 0x75 || tok[0] == 0x55) && (tok[1] == 0x64 || tok[1]
                == 0x44) && (tok[2] == 0x70 || tok[2] == 0x50) {
                return Ok((rest, Transport::Udp));
            }
            proof {
                lemma_run_is_ascii(input@, ByteClass::Alpha);
            }
            match utf8_text(tok) {
                Some(text) => Ok((rest, Transport::Extension(text.to_owned()))),
                None => Err(ErrorKind::MapRes),
            }
        },
        Err(e) => Err(e),
    }
}

/// The literal `typ`.
pub open spec fn lit_typ() -> Seq<u8> {
    seq![0x74u8, 0x79, 0x70]
}

/// The literal `raddr`.
pub open spec fn lit_raddr() -> Seq<u8> {
    seq![0x72u8, 0x61, 0x64, 0x64, 0x72]
}

/// The literal `rport`.
pub open spec fn lit_rport() -> Seq<u8> {
    seq![0x72u8, 0x70, 0x6F, 0x72, 0x74]
}

/// The literal `candidate:`.
pub open spec fn lit_candidate() -> Seq<u8> {
    seq![0x63u8, 0x61, 0x6E, 0x64, 0x69, 0x64, 0x61, 0x74, 0x65, 0x3A]
}

/// What the rule for one or more spaces yields.
pub open spec fn spec_spaces(s: Seq<u8>) -> Result<Seq<u8>, ErrorKind> {
    match run_result(s, ByteClass::Space, ErrorKind::Space) {
        Ok((rest, _)) => Ok(rest),
        Err(e) => Err(e),
    }
}

/// Match one or more spaces.
pub fn spaces(input: &[u8]) -> (r: Result<&[u8], ErrorKind>)
    ensures
        rest_view(r) == spec_spaces(input@),
{
    match take_run(input, ByteClass::Space, ErrorKind::Space) {
        Ok((rest, _)) => Ok(rest),
        Err(e) => Err(e),
    }
}

/// What `cand_type` yields: the candidate type that is named by the
/// letters behind `typ` and one or more spaces.
pub open spec fn spec_cand_type(s: Seq<u8>) -> Result<(Seq<u8>, CandidateTypeView), ErrorKind> {
    match spec_tag(s, lit_typ()) {
        Ok(s1) => match spec_spaces(s1) {
            Ok(s2) => match spec_alpha(s2) {
                Ok((rest, tok)) => Ok((rest, candidate_type_of(tok))),
                Err(e) => Err(e),
            },
            Err(e) => Err(e),
        },
        Err(e) => Err(e),
    }
}

/// Parse the cand-type.
///
/// ```ebnf,ignore
/// cand-type       = "typ" SP candidate-types
/// candidate-types = "host" / "srflx" / "prflx" / "relay" / token
/// ```
pub fn cand_type(input: &[u8]) -> (r: Result<(&[u8], CandidateType), ErrorKind>)
    ensures
        viewed(r) == spec_cand_type(input@),
{
    let typ: [u8; 3] = [0x74, 0x79, 0x70];
    assert(typ@ =~= lit_typ());
    let s1 = match tag(input, typ.as_slice()) {
        Ok(rest) => rest,
        Err(e) => {
            return Err(e);
        },
    };
    let s2 = match spaces(s1) {
        Ok(rest) => rest,
        Err(e) => {
            return Err(e);
        },
    };
    match nom_alpha(s2) {
        Ok((rest, tok)) => {
            let host: [u8; 4] = [0x68, 0x6F, 0x73, 0x74];
            let srflx: [u8; 5] = [0x73, 0x72, 0x66, 0x6C, 0x78];
            let prflx: [u8; 5] = [0x70, 0x72, 0x66, 0x6C, 0x78];
            let relay: [u8; 5] = [0x72, 0x65, 0x6C, 0x61, 0x79];
            assert(host@ =~= lit_host());
            assert(srflx@ =~= lit_srflx());
            assert(prflx@ =~= lit_prflx());
            assert(relay@ =~= lit_relay());
            if same_bytes(tok, host.as_slice()) {
                Ok((rest, CandidateType::Host))
            } else if same_bytes(tok, srflx.as_slice()) {
                Ok((rest, CandidateType::Srflx))
            } else if same_bytes(tok, prflx.as_slice()) {
                Ok((rest, CandidateType::Prflx))
            } else if same_bytes(tok, relay.as_slice()) {
                Ok((rest, CandidateType::Relay))
            } else {
                proof {
                    lemma_run_is_ascii(s2@, ByteClass::Alpha);
                }
                match utf8_text(tok) {
                    Some(text) => Ok((rest, CandidateType::Token(text.to_owned()))),
                    None => Err(ErrorKind::MapRes),
                }
            }
        },
        Err(e) => Err(e),
    }
}

/// What `rel_addr` yields: the address behind `raddr` and one space.
pub open spec fn spec_rel_addr(s: Seq<u8>) -> Result<(Seq<u8>, IpAddress), ErrorKind> {
    match spec_tag(s, lit_raddr()) {
        Ok(s1) => match spec_sp(s1) {
            Ok(s2) => spec_ip_addr_rule(s2),
            Err(e) => Err(e),
        },
        Err(e) => Err(e),
    }
}

/// Parse the rel-addr.
///
/// ```ebnf,ignore
/// rel-addr = "raddr" SP connection-address
/// ```
pub fn rel_addr(input: &[u8]) -> (r: Result<(&[u8], IpAddress), ErrorKind>)
    ensures
        value_view(r) == spec_rel_addr(input@),
{
    let raddr: [u8; 5] = [0x72, 0x61, 0x64, 0x64, 0x72];
    assert(raddr@ =~= lit_raddr());
    let s1 = match tag(input, raddr.as_slice()) {
        Ok(rest) => rest,
        Err(e) => {
            return Err(e);
        },
    };
    match sp(s1) {
        Ok(s2) => ip_addr(s2),
        Err(e) => Err(e),
    }
}

/// What `rel_port` yields: the port behind `rport` and one space.
pub open spec fn spec_rel_port(s: Seq<u8>) -> Result<(Seq<u8>, u16), ErrorKind> {
    match spec_tag(s, lit_rport()) {
        Ok(s1) => match spec_sp(s1) {
            Ok(s2) => spec_port(s2),
            Err(e) => Err(e),
        },
        Err(e) => Err(e),
    }
}

/// Parse the rel-port.
///
/// ```ebnf,ignore
/// rel-port = "rport" SP port
/// ```
pub fn rel_port(input: &[u8]) -> (r: Result<(&[u8], u16), ErrorKind>)
    ensures
        value_view(r) == spec_rel_port(input@),
{
    let rport: [u8; 5] = [0x72, 0x70, 0x6F, 0x72, 0x74];
    assert(rport@ =~= lit_rport());
    let s1 = match tag(input, rport.as_slice()) {
        Ok(rest) => rest,
        Err(e) => {
            return Err(e);
        },
    };
    match sp(s1) {
        Ok(s2) => port(s2),
        Err(e) => Err(e),
    }
}

/// What the rule for an extension name or value yields: the longest run
/// of bytes that are none of NUL, LF, CR and space, which must not be
/// empty.
pub open spec fn spec_token(s: Seq<u8>) -> Result<(Seq<u8>, Seq<u8>), ErrorKind> {
    run_result(s, ByteClass::Token, ErrorKind::TakeTill1)
}

/// What `extension` yields: the name and the value of the pair that
/// stands behind one space, with one space between them.
pub open spec fn spec_extension(s: Seq<u8>) -> Result<(Seq<u8>, (Seq<u8>, Seq<u8>)), ErrorKind> {
    match spec_sp(s) {
        Ok(s1) => match spec_token(s1) {
            Ok((s2, key)) => match spec_sp(s2) {
                Ok(s3) => match spec_token(s3) {
                    Ok((rest, val)) => Ok((rest, (key, val))),
                    Err(e) => Err(e),
                },
                Err(e) => Err(e),
            },
            Err(e) => Err(e),
        },
        Err(e) => Err(e),
    }
}

/// The rest and the contents of the pair that `extension` read, or the
/// error.
pub open spec fn pair_view(r: Result<(&[u8], (&[u8], &[u8])), ErrorKind>) -> Result<
    (Seq<u8>, (Seq<u8>, Seq<u8>)),
    ErrorKind,
> {
    match r {
        Ok((rest, (key, val))) => Ok((rest@, (key@, val@))),
        Err(e) => Err(e),
    }
}

/// Parse an extension pair into a tuple.
///
/// ```ebnf,ignore
/// extension           = SP extension-att-name SP extension-att-value
/// extension-att-name  = byte-string  ;from RFC 4566
/// extension-att-value = byte-string
/// ```
///
/// The grammar is ambiguous, since the values are delimited by space but a
/// byte-string may hold a space. Here a space is no byte of a byte-string.
pub fn extension(input: &[u8]) -> (r: Result<(&[u8], (&[u8], &[u8])), ErrorKind>)
    ensures
        pair_view(r) == spec_extension(input@),
{
    let s1 = match sp(input) {
        Ok(rest) => rest,
        Err(e) => {
            return Err(e);
        },
    };
    let (s2, key) = match take_run(s1, ByteClass::Token, ErrorKind::TakeTill1) {
        Ok(found) => found,
        Err(e) => {
            return Err(e);
        },
    };
    let s3 = match sp(s2) {
        Ok(rest) => rest,
        Err(e) => {
            return Err(e);
        },
    };
    match take_run(s3, ByteClass::Token, ErrorKind::TakeTill1) {
        Ok((rest, val)) => Ok((rest, (key, val))),
        Err(e) => Err(e),
    }
}

/// What the optional `raddr` clause yields: the address behind one space
/// and `rel_addr`, or the input as it is and no address where the two do
/// not match.
pub open spec fn spec_opt_rel_addr(s: Seq<u8>) -> (Seq<u8>, Option<IpAddress>) {
    match spec_sp(s) {
        Ok(s1) => match spec_rel_addr(s1) {
            Ok((rest, a)) => (rest, Some(a)),
            Err(_) => (s, None),
        },
        Err(_) => (s, None),
    }
}

/// Parse the `raddr` clause, if it is there. Where it is not, or does not
/// match to its end, nothing is consumed.
pub fn opt_rel_addr(input: &[u8]) -> (r: (&[u8], Option<IpAddress>))
    ensures
        (r.0@, r.1) == spec_opt_rel_addr(input@),
{
    match sp(input) {
        Ok(s1) => match rel_addr(s1) {
            Ok((rest, a)) => (rest, Some(a)),
            Err(_) => (input, None),
        },
        Err(_) => (input, None),
    }
}

/// What the optional `rport` clause yields: the port behind one space and
/// `rel_port`, or the input as it is and no port where the two do not
/// match.
pub open spec fn spec_opt_rel_port(s: Seq<u8>) -> (Seq<u8>, Option<u16>) {
    match spec_sp(s) {
        Ok(s1) => match spec_rel_port(s1) {
            Ok((rest, p)) => (rest, Some(p)),
            Err(_) => (s, None),
        },
        Err(_) => (s, None),
    }
}

/// Parse the `rport` clause, if it is there. Where it is not, or does not
/// match to its end, nothing is consumed.
pub fn opt_rel_port(input: &[u8]) -> (r: (&[u8], Option<u16>))
    ensures
        (r.0@, r.1) == spec_opt_rel_port(input@),
{
    match sp(input) {
        Ok(s1) => match rel_port(s1) {
            Ok((rest, p)) => (rest, Some(p)),
            Err(_) => (input, None),
        },
        Err(_) => (input, None),
    }
}

/// What the rule for the extension pairs yields: the pairs that
/// `extension` matches one after the other, in order, and what is left
/// where it matches no more.
pub open spec fn spec_extensions(s: Seq<u8>) -> (Seq<u8>, Seq<(Seq<u8>, Seq<u8>)>)
    decreases s.len(),
{
    match spec_extension(s) {
        Ok((rest, pair)) => if rest.len() < s.len() {
            let (end, pairs) = spec_extensions(rest);
            (end, seq![pair] + pairs)
        } else {
            (s, Seq::empty())
        },
        Err(_) => (s, Seq::empty()),
    }
}

/// A pair that `extension` matches takes at least four bytes.
pub proof fn lemma_extension_consumes(s: Seq<u8>)
    ensures
        spec_extension(s) matches Ok((rest, _)) ==> rest.len() + 4 <= s.len(),
{
    if let Ok(s1) = spec_sp(s) {
        lemma_run_len_bounds(s1, ByteClass::Token);
        if let Ok((s2, _)) = spec_token(s1) {
            if let Ok(s3) = spec_sp(s2) {
                lemma_run_len_bounds(s3, ByteClass::Token);
            }
        }
    }
}

/// The extension attributes that the pairs make: none where there is no
/// pair, and else the map in which each name has the value of the last
/// pair with that name.
pub open spec fn extensions_of(pairs: Seq<(Seq<u8>, Seq<u8>)>) -> Option<Map<Seq<u8>, Seq<u8>>> {
    if pairs.len() == 0 {
        None
    } else {
        Some(map_of_pairs(pairs))
    }
}

/// The view of the extension attributes of a candidate.
pub open spec fn extensions_view(e: Option<Extensions>) -> Option<Map<Seq<u8>, Seq<u8>>> {
    match e {
        Some(e) => Some(e@),
        None => None,
    }
}

/// Parse the extension pairs, as many as there are, into a map.
pub fn extensions(input: &[u8]) -> (r: (&[u8], Option<Extensions>))
    ensures
        r.0@ == spec_extensions(input@).0,
        extensions_view(r.1) == extensions_of(spec_extensions(input@).1),
        r.1 matches Some(found) ==> found.pairs() == entered_all(spec_extensions(input@).1),
{
    let mut cur = input;
    let mut found = Extensions::new();
    let mut count: usize = 0;
    let ghost mut seen: Seq<(Seq<u8>, Seq<u8>)> = Seq::empty();
    proof {
        assert(seen + spec_extensions(input@).1 =~= spec_extensions(input@).1);
    }
    loop
        invariant
            spec_extensions(input@).0 == spec_extensions(cur@).0,
            spec_extensions(input@).1 == seen + spec_extensions(cur@).1,
            found@ == map_of_pairs(seen),
            found.pairs() == entered_all(seen),
            count == 0 <==> seen.len() == 0,
        decreases cur@.len(),
    {
        proof {
            lemma_extension_consumes(cur@);
        }
        match extension(cur) {
            Ok((rest, (key, val))) => {
                proof {
                    let next = seen.push((key@, val@));
                    assert(next.drop_last() =~= seen);
                    assert(next + spec_extensions(rest@).1 =~= seen + (seq![(key@, val@)]
                        + spec_extensions(rest@).1));
                    seen = next;
                }
                found.insert(slice_to_vec(key), slice_to_vec(val));
                if count == 0 {
                    count = 1;
                }
                cur = rest;
            },
            Err(_) => {
                proof {
                    assert(seen + Seq::empty() =~= seen);
                }
                if count == 0 {
                    return (cur, None);
                } else {
                    return (cur, Some(found));
                }
            },
        }
    }
}

/// What a rule yields when one space must follow it.
pub open spec fn then_sp<T>(r: Result<(Seq<u8>, T), ErrorKind>) -> Result<(Seq<u8>, T), ErrorKind> {
    match r {
        Ok((rest, value)) => match spec_sp(rest) {
            Ok(after) => Ok((after, value)),
            Err(e) => Err(e),
        },
        Err(e) => Err(e),
    }
}

/// What `ice_candidate` yields: the candidate whose fields stand in the
/// grammar's order behind `candidate:`, with one space between two of
/// them, then the two optional clauses and the extension pairs; and what
/// is left behind the last of them that matched.
pub open spec fn spec_ice_candidate(s: Seq<u8>) -> Result<(Seq<u8>, IceCandidateView), ErrorKind> {
    match spec_tag(s, lit_candidate()) {
        Ok(s0) => match then_sp(spec_foundation(s0)) {
            Ok((s1, foundation)) => match then_sp(spec_component_id(s1)) {
                Ok((s2, component_id)) => match then_sp(spec_transport(s2)) {
                    Ok((s3, transport)) => match then_sp(spec_priority(s3)) {
                        Ok((s4, priority)) => match then_sp(spec_ip_addr_rule(s4)) {
                            Ok((s5, connection_address)) => match then_sp(spec_port(s5)) {
                                Ok((s6, port)) => match spec_cand_type(s6) {
                                    Ok((s7, candidate_type)) => {
                                        let (s8, rel_addr) = spec_opt_rel_addr(s7);
                                        let (s9, rel_port) = spec_opt_rel_port(s8);
                                        let (rest, pairs) = spec_extensions(s9);
                                        Ok(
                                            (
                                                rest,
                                                IceCandidateView {
                                                    foundation,
                                                    component_id,
                                                    transport,
                                                    priority,
                                                    connection_address,
                                                    port,
                                                    candidate_type,
                                                    rel_addr,
                                                    rel_port,
                                                    extensions: extensions_of(pairs),
                                                },
                                            ),
                                        )
                                    },
                                    Err(e) => Err(e),
                                },
                                Err(e) => Err(e),
                            },
                            Err(e) => Err(e),
                        },
                        Err(e) => Err(e),
                    },
                    Err(e) => Err(e),
                },
                Err(e) => Err(e),
            },
            Err(e) => Err(e),
        },
        Err(e) => Err(e),
    }
}

/// Parse the entire ICE candidate.
///
/// ```ebnf,ignore
/// candidate-attribute = "candidate" ":" foundation SP component-id SP
///                       transport SP
///                       priority SP
///                       connection-address SP  ;from RFC 4566
///                       port                   ;port from RFC 4566
///                       SP cand-type
///                       [SP rel-addr]
///                       [SP rel-port]
///                       *(SP extension-att-name SP
///                            extension-att-value)
/// ```
pub fn ice_candidate(input: &[u8]) -> (r: Result<(&[u8], IceCandidate), ErrorKind>)
    ensures
        viewed(r) == spec_ice_candidate(input@),
{
    let candidate: [u8; 10] = [0x63, 0x61, 0x6E, 0x64, 0x69, 0x64, 0x61, 0x74, 0x65, 0x3A];
    assert(candidate@ =~= lit_candidate());
    let s0 = match tag(input, candidate.as_slice()) {
        Ok(rest) => rest,
        Err(e) => {
            return Err(e);
        },
    };
    let (s1, foundation) = match foundation(s0) {
        Ok((rest, text)) => match sp(rest) {
            Ok(after) => (after, text.to_owned()),
            Err(e) => {
                return Err(e);
            },
        },
        Err(e) => {
            return Err(e);
        },
    };
    let (s2, component_id) = match component_id(s1) {
        Ok((rest, value)) => match sp(rest) {
            Ok(after) => (after, value),
            Err(e) => {
                return Err(e);
            },
        },
        Err(e) => {
            return Err(e);
        },
    };
    let (s3, transport) = match transport(s2) {
        Ok((rest, value)) => match sp(rest) {
            Ok(after) => (after, value),
            Err(e) => {
                return Err(e);
            },
        },
        Err(e) => {
            return Err(e);
        },
    };
    let (s4, priority) = match priority(s3) {
        Ok((rest, value)) => match sp(rest) {
            Ok(after) => (after, value),
            Err(e) => {
                return Err(e);
            },
        },
        Err(e) => {
            return Err(e);
        },
    };
    let (s5, connection_address) = match ip_addr(s4) {
        Ok((rest, value)) => match sp(rest) {
            Ok(after) => (after, value),
            Err(e) => {
                return Err(e);
            },
        },
        Err(e) => {
            return Err(e);
        },
    };
    let (s6, port) = match port(s5) {
        Ok((rest, value)) => match sp(rest) {
            Ok(after) => (after, value),
            Err(e) => {
                return Err(e);
            },
        },
        Err(e) => {
            return Err(e);
        },
    };
    let (s7, candidate_type) = match cand_type(s6) {
        Ok(found) => found,
        Err(e) => {
            return Err(e);
        },
    };
    let (s8, rel_addr) = opt_rel_addr(s7);
    let (s9, rel_port) = opt_rel_port(s8);
    let (rest, extensions) = extensions(s9);
    Ok(
        (
            rest,
            IceCandidate {
                foundation,
                component_id,
                transport,
                priority,
                connection_address,
                port,
                candidate_type,
                rel_addr,
                rel_port,
                extensions,
            },
        ),
    )
}

} // verus!
