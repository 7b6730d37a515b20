//! The values that a parsed candidate is made of.

use crate::address::IpAddress;
use crate::bytes::ascii_text;
use crate::extensions::Extensions;
use vstd::prelude::*;

verus! {

/// The ICE candidate struct. Contains all data from the SDP.
#[derive(Debug, PartialEq, Eq, Clone)]
pub struct IceCandidate {
    pub foundation: String,
    pub component_id: u32,
    pub transport: Transport,
    pub priority: u64,
    pub connection_address: IpAddress,
    pub port: u16,
    pub candidate_type: CandidateType,
    pub rel_addr: Option<IpAddress>,
    pub rel_port: Option<u16>,
    pub extensions: Option<Extensions>,
}

/// A candidate with its texts as sequences of characters and its
/// extension attributes as a map.
pub ghost struct IceCandidateView {
    pub foundation: Seq<char>,
    pub component_id: u32,
    pub transport: TransportView,
    pub priority: u64,
    pub connection_address: IpAddress,
    pub port: u16,
    pub candidate_type: CandidateTypeView,
    pub rel_addr: Option<IpAddress>,
    pub rel_port: Option<u16>,
    pub extensions: Option<Map<Seq<u8>, Seq<u8>>>,
}

impl View for IceCandidate {
    type V = IceCandidateView;

    open spec fn view(&self) -> IceCandidateView {
        IceCandidateView {
            foundation: self.foundation@,
            component_id: self.component_id,
            transport: self.transport@,
            priority: self.priority,
            connection_address: self.connection_address,
            port: self.port,
            candidate_type: self.candidate_type@,
            rel_addr: self.rel_addr,
            rel_port: self.rel_port,
            extensions: match self.extensions {
                Some(e) => Some(e@),
                None => None,
            },
        }
    }
}

/// The transport type. In almost all cases this will be `Transport::Udp`.
#[derive(Debug, PartialEq, Eq, Clone, Hash)]
pub enum Transport {
    Udp,
    Extension(String),
}

/// A transport with its token as a sequence of characters.
pub ghost enum TransportView {
    Udp,
    Extension(Seq<char>),
}

impl View for Transport {
    type V = TransportView;

    open spec fn view(&self) -> TransportView {
        match self {
            Transport::Udp => TransportView::Udp,
            Transport::Extension(token) => TransportView::Extension(token@),
        }
    }
}

/// All possible candidate types.
#[derive(Debug, PartialEq, Eq, Clone, Hash)]
pub enum CandidateType {
    Host,
    Srflx,
    Prflx,
    Relay,
    Token(String),
}

/// A candidate type with its token as a sequence of characters.
pub ghost enum CandidateTypeView {
    Host,
    Srflx,
    Prflx,
    Relay,
    Token(Seq<char>),
}

impl View for CandidateType {
    type V = CandidateTypeView;

    open spec fn view(&self) -> CandidateTypeView {
        match self {
            CandidateType::Host => CandidateTypeView::Host,
            CandidateType::Srflx => CandidateTypeView::Srflx,
            CandidateType::Prflx => CandidateTypeView::Prflx,
            CandidateType::Relay => CandidateTypeView::Relay,
            CandidateType::Token(token) => CandidateTypeView::Token(token@),
        }
    }
}

impl TransportView {
    /// The transport written out: `udp`, or the token of another transport
    /// as it was read.
    pub open spec fn text(self) -> Seq<char> {
        match self {
            TransportView::Udp => "udp"@,
            TransportView::Extension(token) => token,
        }
    }
}

impl CandidateTypeView {
    /// The candidate type written out: one of the four reserved words, or
    /// the token of another type as it was read.
    pub open spec fn text(self) -> Seq<char> {
        match self {
            CandidateTypeView::Host => "host"@,
            CandidateTypeView::Srflx => "srflx"@,
            CandidateTypeView::Prflx => "prflx"@,
            CandidateTypeView::Relay => "relay"@,
            CandidateTypeView::Token(token) => token,
        }
    }
}

impl Transport {
    /// The transport written out in lower case.
    pub fn to_string(&self) -> (r: String)
        ensures
            r@ == self@.text(),
    {
        match self {
            Transport::Udp => "udp".to_owned(),
            Transport::Extension(token) => token.clone(),
        }
    }
}

impl CandidateType {
    /// The candidate type written out in lower case.
    pub fn to_string(&self) -> (r: String)
        ensures
            r@ == self@.text(),
    {
        match self {
            CandidateType::Host => "host".to_owned(),
            CandidateType::Srflx => "srflx".to_owned(),
            CandidateType::Prflx => "prflx".to_owned(),
            CandidateType::Relay => "relay".to_owned(),
            CandidateType::Token(token) => token.clone(),
        }
    }
}

/// The transport that the token `tok` names: any capitalisation of `udp`
/// is UDP, and every other token is kept as it is.
pub open spec fn transport_of(tok: Seq<u8>) -> TransportView {
    if is_udp(tok) {
        TransportView::Udp
    } else {
        TransportView::Extension(ascii_text(tok))
    }
}

/// `tok` is `udp` in one of its eight capitalisations: `u` or `U`, then
/// `d` or `D`, then `p` or `P`.
pub open spec fn is_udp(tok: Seq<u8>) -> bool {
    &&& tok.len() == 3
    &&& (tok[0] == 0x75 || tok[0] == 0x55)
    &&& (tok[1] == 0x64 || tok[1] == 0x44)
    &&& (tok[2] == 0x70 || tok[2] == 0x50)
}

/// The bytes of `udp`.
pub open spec fn lit_udp() -> Seq<u8> {
    seq![0x75u8, 0x64, 0x70]
}

/// The bytes of `host`.
pub open spec fn lit_host() -> Seq<u8> {
    seq![0x68u8, 0x6F, 0x73, 0x74]
}

/// The bytes of `srflx`.
pub open spec fn lit_srflx() -> Seq<u8> {
    seq![0x73u8, 0x72, 0x66, 0x6C, 0x78]
}

/// The bytes of `prflx`.
pub open spec fn lit_prflx() -> Seq<u8> {
    seq![0x70u8, 0x72, 0x66, 0x6C, 0x78]
}

/// The bytes of `relay`.
pub open spec fn lit_relay() -> Seq<u8> {
    seq![0x72u8, 0x65, 0x6C, 0x61, 0x79]
}

/// The lower-case form of an ASCII letter; every other byte as it is.
pub open spec fn lower(c: u8) -> u8 {
    if 0x41 <= c <= 0x5A {
        (c + 0x20) as u8
    } else {
        c
    }
}

/// A token names UDP exactly if it reads `udp` when its letters are put
/// in lower case; every other token is kept, letter for letter.
pub proof fn lemma_udp_in_any_case(tok: Seq<u8>)
    ensures
        is_udp(tok) <==> tok.map_values(|c: u8| lower(c)) == lit_udp(),
        transport_of(tok) == TransportView::Udp <==> is_udp(tok),
        !is_udp(tok) ==> transport_of(tok) == TransportView::Extension(ascii_text(tok)),
{
    let low = tok.map_values(|c: u8| lower(c));
    let udp = lit_udp();
    if is_udp(tok) {
        assert(low =~= udp);
    }
    if low == udp {
        assert(low.len() == 3);
        assert(low[0] == udp[0] && low[1] == udp[1] && low[2] == udp[2]);
    }
}

/// The candidate type that the token `tok` names: the four reserved words
/// in lower case, and every other token kept as it is.
pub open spec fn candidate_type_of(tok: Seq<u8>) -> CandidateTypeView {
    if tok == lit_host() {
        CandidateTypeView::Host
    } else if tok == lit_srflx() {
        CandidateTypeView::Srflx
    } else if tok == lit_prflx() {
        CandidateTypeView::Prflx
    } else if tok == lit_relay() {
        CandidateTypeView::Relay
    } else {
        CandidateTypeView::Token(ascii_text(tok))
    }
}

} // verus!
