//! What holds of every line that is written out from valid fields.

use crate::address::{spec_ip_addr, IpAddress};
use crate::bytes::{
    ascii_text, lemma_run_len_bounds, lemma_run_len_is, run_len, run_result, ByteClass,
    ErrorKind, SPACE,
};
use crate::numbers::decimal_value;
use crate::parsers::{
    extensions_of, lit_candidate, lit_raddr, lit_rport, lit_typ, spec_alpha, spec_cand_type,
    spec_component_id, spec_extension, spec_extensions, spec_foundation,
    spec_ice_candidate, spec_ip_addr_rule, spec_opt_rel_addr, spec_opt_rel_port,
    spec_port, spec_priority, spec_rel_addr, spec_rel_port, spec_sp, spec_spaces, spec_tag,
    spec_token, spec_transport, then_sp,
};
use crate::spec_parse;
use crate::types::{candidate_type_of, transport_of, IceCandidateView};
use vstd::prelude::*;

verus! {

/// Every byte of `s` belongs to `class`.
pub open spec fn all_of(s: Seq<u8>, class: ByteClass) -> bool {
    forall|i: int| 0 <= i < s.len() ==> class.has(#[trigger] s[i])
}

/// `rest` is empty or starts with a byte outside `class`, so that a run of
/// bytes of `class` ends where `rest` starts.
pub open spec fn ends_run(rest: Seq<u8>, class: ByteClass) -> bool {
    rest.len() == 0 || !class.has(rest[0])
}

/// One space.
pub open spec fn space() -> Seq<u8> {
    seq![SPACE]
}

/// A run of bytes of one class before something that ends it is taken
/// whole, and nothing more.
pub proof fn lemma_run_of_token(tok: Seq<u8>, rest: Seq<u8>, class: ByteClass, kind: ErrorKind)
    requires
        tok.len() >= 1,
        all_of(tok, class),
        ends_run(rest, class),
    ensures
        run_result(tok + rest, class, kind) == Ok::<(Seq<u8>, Seq<u8>), ErrorKind>((rest, tok)),
{
    let s = tok + rest;
    assert forall|i: int| 0 <= i < tok.len() implies class.has(#[trigger] s[i]) by {
        assert(s[i] == tok[i]);
    }
    if tok.len() < s.len() {
        assert(s[tok.len() as int] == rest[0]);
    }
    lemma_run_len_is(s, class, tok.len() as int);
    assert(s.take(tok.len() as int) =~= tok);
    assert(s.skip(tok.len() as int) =~= rest);
}

/// A literal at the start of the input is matched.
pub proof fn lemma_tag_of_literal(lit: Seq<u8>, rest: Seq<u8>)
    ensures
        spec_tag(lit + rest, lit) == Ok::<Seq<u8>, ErrorKind>(rest),
{
    let s = lit + rest;
    assert(s.take(lit.len() as int) =~= lit.take(lit.len() as int));
    assert(s.skip(lit.len() as int) =~= rest);
}

/// A space at the start of the input is matched.
pub proof fn lemma_sp_of_space(rest: Seq<u8>)
    ensures
        spec_sp(space() + rest) == Ok::<Seq<u8>, ErrorKind>(rest),
{
    let s = space() + rest;
    assert(s[0] == SPACE);
    assert(s.skip(1) =~= rest);
}

/// The texts of the seven fields that every candidate line has.
pub ghost struct Fields {
    pub foundation: Seq<u8>,
    pub component_id: Seq<u8>,
    pub transport: Seq<u8>,
    pub priority: Seq<u8>,
    pub address: Seq<u8>,
    pub port: Seq<u8>,
    pub candidate_type: Seq<u8>,
}

/// `a` is the text of an address.
pub open spec fn valid_address_text(a: Seq<u8>) -> bool {
    a.len() >= 1 && all_of(a, ByteClass::IpChar) && spec_ip_addr(a) is Some
}

/// `p` is the text of a port: one to five digits that denote at most
/// 65535.
pub open spec fn valid_port_text(p: Seq<u8>) -> bool {
    1 <= p.len() <= 5 && all_of(p, ByteClass::Digit) && decimal_value(p) <= 65535
}

/// Each name and each value of `pairs` is a token of an extension: not
/// empty, and without NUL, LF, CR and space.
pub open spec fn valid_pairs(pairs: Seq<(Seq<u8>, Seq<u8>)>) -> bool {
    forall|i: int|
        0 <= i < pairs.len() ==> {
            &&& (#[trigger] pairs[i]).0.len() >= 1
            &&& all_of(pairs[i].0, ByteClass::Token)
            &&& pairs[i].1.len() >= 1
            &&& all_of(pairs[i].1, ByteClass::Token)
        }
}

impl Fields {
    /// Each field is made of the bytes that the grammar asks for and is not
    /// empty, and the address is the text of one.
    pub open spec fn well_formed(self) -> bool {
        &&& 1 <= self.foundation.len()
        &&& all_of(self.foundation, ByteClass::IceChar)
        &&& 1 <= self.component_id.len()
        &&& all_of(self.component_id, ByteClass::Digit)
        &&& 1 <= self.transport.len()
        &&& all_of(self.transport, ByteClass::Alpha)
        &&& 1 <= self.priority.len()
        &&& all_of(self.priority, ByteClass::Digit)
        &&& valid_address_text(self.address)
        &&& 1 <= self.port.len()
        &&& all_of(self.port, ByteClass::Digit)
        &&& 1 <= self.candidate_type.len()
        &&& all_of(self.candidate_type, ByteClass::Alpha)
    }

    /// No field is longer than the grammar allows: 32 bytes of foundation,
    /// 5 digits of component id, 10 digits of priority, and 5 digits of a
    /// port that is at most 65535.
    pub open spec fn within_bounds(self) -> bool {
        &&& self.foundation.len() <= 32
        &&& self.component_id.len() <= 5
        &&& self.priority.len() <= 10
        &&& self.port.len() <= 5
        &&& decimal_value(self.port) <= 65535
    }

    /// Each field is written as the grammar asks.
    pub open spec fn valid(self) -> bool {
        self.well_formed() && self.within_bounds()
    }

    /// The line `candidate:<foundation> <id> <transport> <priority>
    /// <address> <port> typ <type>` with `tail` behind it.
    pub open spec fn line_with(self, tail: Seq<u8>) -> Seq<u8> {
        lit_candidate() + (self.foundation + (space() + (self.component_id + (space() + (
        self.transport + (space() + (self.priority + (space() + (self.address + (space() + (
        self.port + (space() + (lit_typ() + (space() + (self.candidate_type + tail)))))))))))))))
    }
}

/// `rest` with the clause ` raddr <address>` before it, if there is an
/// address.
pub open spec fn with_raddr(address: Option<Seq<u8>>, rest: Seq<u8>) -> Seq<u8> {
    match address {
        Some(a) => space() + (lit_raddr() + (space() + (a + rest))),
        None => rest,
    }
}

/// `rest` with the clause ` rport <port>` before it, if there is a port.
pub open spec fn with_rport(port: Option<Seq<u8>>, rest: Seq<u8>) -> Seq<u8> {
    match port {
        Some(p) => space() + (lit_rport() + (space() + (p + rest))),
        None => rest,
    }
}

/// The pairs written one after the other, each as ` <name> <value>`.
pub open spec fn pairs_text(pairs: Seq<(Seq<u8>, Seq<u8>)>) -> Seq<u8>
    decreases pairs.len(),
{
    if pairs.len() == 0 {
        Seq::empty()
    } else {
        space() + (pairs[0].0 + (space() + (pairs[0].1 + pairs_text(pairs.skip(1)))))
    }
}

/// The candidate that a line written from these texts denotes.
pub open spec fn candidate_of(
    f: Fields,
    rel_addr: Option<Seq<u8>>,
    rel_port: Option<Seq<u8>>,
    pairs: Seq<(Seq<u8>, Seq<u8>)>,
) -> IceCandidateView {
    IceCandidateView {
        foundation: ascii_text(f.foundation),
        component_id: decimal_value(f.component_id) as u32,
        transport: transport_of(f.transport),
        priority: decimal_value(f.priority) as u64,
        connection_address: spec_ip_addr(f.address).unwrap(),
        port: decimal_value(f.port) as u16,
        candidate_type: candidate_type_of(f.candidate_type),
        rel_addr: match rel_addr {
            Some(a) => spec_ip_addr(a),
            None => None,
        },
        rel_port: match rel_port {
            Some(p) => Some(decimal_value(p) as u16),
            None => None,
        },
        extensions: extensions_of(pairs),
    }
}

/// The text of pairs is empty or starts with a space.
pub proof fn lemma_pairs_text_start(pairs: Seq<(Seq<u8>, Seq<u8>)>)
    ensures
        pairs_text(pairs).len() == 0 || pairs_text(pairs)[0] == SPACE,
        pairs.len() == 0 ==> pairs_text(pairs).len() == 0,
{
}

/// From the text of valid pairs the rule for the extension pairs reads
/// these pairs, in order, and leaves nothing.
pub proof fn lemma_extensions_of_pairs_text(pairs: Seq<(Seq<u8>, Seq<u8>)>)
    requires
        valid_pairs(pairs),
    ensures
        spec_extensions(pairs_text(pairs)) == (Seq::<u8>::empty(), pairs),
    decreases pairs.len(),
{
    if pairs.len() == 0 {
        assert(pairs =~= Seq::empty());
    } else {
        let key = pairs[0].0;
        let val = pairs[0].1;
        let later = pairs.skip(1);
        let t3 = pairs_text(later);
        let t2 = space() + (val + t3);
        let t1 = key + t2;
        assert(pairs_text(pairs) == space() + t1);
        assert(valid_pairs(later)) by {
            assert forall|i: int| 0 <= i < later.len() implies {
                &&& (#[trigger] later[i]).0.len() >= 1
                &&& all_of(later[i].0, ByteClass::Token)
                &&& later[i].1.len() >= 1
                &&& all_of(later[i].1, ByteClass::Token)
            } by {
                assert(later[i] == pairs[i + 1]);
            }
        }
        lemma_extensions_of_pairs_text(later);
        lemma_pairs_text_start(later);
        lemma_sp_of_space(t1);
        assert(t2[0] == SPACE);
        lemma_run_of_token(key, t2, ByteClass::Token, ErrorKind::TakeTill1);
        lemma_sp_of_space(val + t3);
        lemma_run_of_token(val, t3, ByteClass::Token, ErrorKind::TakeTill1);
        assert(spec_extension(pairs_text(pairs)) == Ok::<
            (Seq<u8>, (Seq<u8>, Seq<u8>)),
            ErrorKind,
        >((t3, (key, val))));
        assert(t3.len() < pairs_text(pairs).len());
        assert(seq![(key, val)] + later =~= pairs);
    }
}

/// `rest` is empty or starts with a space.
pub open spec fn space_or_end(rest: Seq<u8>) -> bool {
    rest.len() == 0 || rest[0] == SPACE
}

/// The text behind the candidate type is empty or starts with a space.
pub proof fn lemma_tail_start(
    rel_addr: Option<Seq<u8>>,
    rel_port: Option<Seq<u8>>,
    pairs: Seq<(Seq<u8>, Seq<u8>)>,
)
    ensures
        space_or_end(pairs_text(pairs)),
        space_or_end(with_rport(rel_port, pairs_text(pairs))),
        space_or_end(with_raddr(rel_addr, with_rport(rel_port, pairs_text(pairs)))),
{
    lemma_pairs_text_start(pairs);
}

/// What the rules for the fields before the candidate type yield on a
/// line that is written from well-formed texts: each field's value where
/// the field is within its bounds, and else the error of its rule.
proof fn lemma_leading_fields(f: Fields, s6: Seq<u8>)
    requires
        f.well_formed(),
    ensures
        ({
            let s5 = f.port + (space() + s6);
            let s4 = f.address + (space() + s5);
            let s3 = f.priority + (space() + s4);
            let s2 = f.transport + (space() + s3);
            let s1 = f.component_id + (space() + s2);
            let s0 = f.foundation + (space() + s1);
            &&& spec_tag(lit_candidate() + s0, lit_candidate()) == Ok::<Seq<u8>, ErrorKind>(s0)
            &&& then_sp(spec_foundation(s0)) == if f.foundation.len() <= 32 {
                Ok::<(Seq<u8>, Seq<char>), ErrorKind>((s1, ascii_text(f.foundation)))
            } else {
                Err(ErrorKind::Verify)
            }
            &&& then_sp(spec_component_id(s1)) == if f.component_id.len() <= 5 {
                Ok::<(Seq<u8>, u32), ErrorKind>((s2, decimal_value(f.component_id) as u32))
            } else {
                Err(ErrorKind::Verify)
            }
            &&& then_sp(spec_transport(s2)) == Ok::<
                (Seq<u8>, crate::types::TransportView),
                ErrorKind,
            >((s3, transport_of(f.transport)))
            &&& then_sp(spec_priority(s3)) == if f.priority.len() <= 10 {
                Ok::<(Seq<u8>, u64), ErrorKind>((s4, decimal_value(f.priority) as u64))
            } else {
                Err(ErrorKind::Verify)
            }
            &&& then_sp(spec_ip_addr_rule(s4)) == Ok::<(Seq<u8>, IpAddress), ErrorKind>(
                (s5, spec_ip_addr(f.address).unwrap()),
            )
            &&& then_sp(spec_port(s5)) == if f.port.len() <= 5 && decimal_value(f.port)
                <= 65535 {
                Ok::<(Seq<u8>, u16), ErrorKind>((s6, decimal_value(f.port) as u16))
            } else {
                Err(ErrorKind::MapRes)
            }
        }),
{
    let s5 = f.port + (space() + s6);
    let s4 = f.address + (space() + s5);
    let s3 = f.priority + (space() + s4);
    let s2 = f.transport + (space() + s3);
    let s1 = f.component_id + (space() + s2);
    let s0 = f.foundation + (space() + s1);
    lemma_tag_of_literal(lit_candidate(), s0);
    assert((space() + s1)[0] == SPACE);
    lemma_run_of_token(f.foundation, space() + s1, ByteClass::IceChar, ErrorKind::TakeWhile1);
    lemma_sp_of_space(s1);
    assert((space() + s2)[0] == SPACE);
    lemma_run_of_token(f.component_id, space() + s2, ByteClass::Digit, ErrorKind::Digit);
    lemma_sp_of_space(s2);
    assert((space() + s3)[0] == SPACE);
    lemma_run_of_token(f.transport, space() + s3, ByteClass::Alpha, ErrorKind::Alpha);
    lemma_sp_of_space(s3);
    assert((space() + s4)[0] == SPACE);
    lemma_run_of_token(f.priority, space() + s4, ByteClass::Digit, ErrorKind::Digit);
    lemma_sp_of_space(s4);
    assert((space() + s5)[0] == SPACE);
    lemma_run_of_token(f.address, space() + s5, ByteClass::IpChar, ErrorKind::TakeWhile1);
    lemma_sp_of_space(s5);
    assert((space() + s6)[0] == SPACE);
    lemma_run_of_token(f.port, space() + s6, ByteClass::Digit, ErrorKind::Digit);
    lemma_sp_of_space(s6);
}

/// The candidate type is read from `typ <type>` before a space or the end.
proof fn lemma_cand_type_of_text(ty: Seq<u8>, tail: Seq<u8>)
    requires
        ty.len() >= 1,
        all_of(ty, ByteClass::Alpha),
        space_or_end(tail),
    ensures
        spec_cand_type(lit_typ() + (space() + (ty + tail))) == Ok::<
            (Seq<u8>, crate::types::CandidateTypeView),
            ErrorKind,
        >((tail, candidate_type_of(ty))),
{
    lemma_tag_of_literal(lit_typ(), space() + (ty + tail));
    assert(ByteClass::Alpha.has(ty[0]));
    assert((ty + tail)[0] == ty[0]);
    lemma_run_of_token(space(), ty + tail, ByteClass::Space, ErrorKind::Space);
    lemma_run_of_token(ty, tail, ByteClass::Alpha, ErrorKind::Alpha);
}

/// The `raddr` clause is read where it is written, and nothing is read
/// where the `rport` clause stands in its place.
proof fn lemma_opt_rel_addr_of_text(rel_addr: Option<Seq<u8>>, rel_port: Seq<u8>, rest: Seq<u8>)
    requires
        rel_addr matches Some(a) ==> valid_address_text(a),
        space_or_end(rest),
    ensures
        rel_addr matches Some(a) ==> spec_opt_rel_addr(with_raddr(rel_addr, rest)) == (
            rest,
            spec_ip_addr(a),
        ),
        spec_opt_rel_addr(with_rport(Some(rel_port), rest)) == (
            with_rport(Some(rel_port), rest),
            None::<IpAddress>,
        ),
{
    if let Some(a) = rel_addr {
        let s3 = a + rest;
        let s2 = space() + s3;
        let s1 = lit_raddr() + s2;
        lemma_sp_of_space(s1);
        lemma_tag_of_literal(lit_raddr(), s2);
        lemma_sp_of_space(s3);
        lemma_run_of_token(a, rest, ByteClass::IpChar, ErrorKind::TakeWhile1);
    }
    let clause = lit_rport() + (space() + (rel_port + rest));
    lemma_sp_of_space(clause);
    assert(clause.take(5)[1] == 0x70);
    assert(lit_raddr().take(5)[1] == 0x61);
}

/// The `rport` clause is read where it is written.
proof fn lemma_opt_rel_port_of_text(rel_port: Seq<u8>, rest: Seq<u8>)
    requires
        valid_port_text(rel_port),
        space_or_end(rest),
    ensures
        spec_opt_rel_port(with_rport(Some(rel_port), rest)) == (
            rest,
            Some(decimal_value(rel_port) as u16),
        ),
{
    let s3 = rel_port + rest;
    let s2 = space() + s3;
    let s1 = lit_rport() + s2;
    lemma_sp_of_space(s1);
    lemma_tag_of_literal(lit_rport(), s2);
    lemma_sp_of_space(s3);
    lemma_run_of_token(rel_port, rest, ByteClass::Digit, ErrorKind::Digit);
}

/// A line that is written from valid texts denotes the candidate with the
/// values that the texts denote: the seven fields, the relay address and
/// the relay port if their clauses are written, and the extension
/// attributes that the pairs make.
///
/// Where a clause is left out, the pairs must not be read as that clause:
/// ` rport 1` behind the candidate type is the `rport` clause, whatever it
/// was written as.
pub proof fn lemma_parse_of_line(
    f: Fields,
    rel_addr: Option<Seq<u8>>,
    rel_port: Option<Seq<u8>>,
    pairs: Seq<(Seq<u8>, Seq<u8>)>,
)
    requires
        f.valid(),
        rel_addr matches Some(a) ==> valid_address_text(a),
        rel_port matches Some(p) ==> valid_port_text(p),
        valid_pairs(pairs),
        rel_addr is None && rel_port is None ==> spec_opt_rel_addr(pairs_text(pairs)).1 is None,
        rel_port is None ==> spec_opt_rel_port(pairs_text(pairs)).1 is None,
    ensures
        spec_parse(f.line_with(with_raddr(rel_addr, with_rport(rel_port, pairs_text(pairs)))))
            == Some(candidate_of(f, rel_addr, rel_port, pairs)),
{
    let pt = pairs_text(pairs);
    let t8 = with_rport(rel_port, pt);
    let t7 = with_raddr(rel_addr, t8);
    let s6 = lit_typ() + (space() + (f.candidate_type + t7));
    lemma_tail_start(rel_addr, rel_port, pairs);
    lemma_leading_fields(f, s6);
    lemma_cand_type_of_text(f.candidate_type, t7);
    lemma_extensions_of_pairs_text(pairs);
    match rel_addr {
        Some(a) => {
            lemma_opt_rel_addr_of_text(rel_addr, Seq::empty(), t8);
            assert(spec_opt_rel_addr(t7) == (t8, spec_ip_addr(a)));
        },
        None => {
            match rel_port {
                Some(p) => {
                    lemma_opt_rel_addr_of_text(None, p, pt);
                },
                None => {
                    assert(spec_opt_rel_addr(t7).0 == t7);
                },
            }
            assert(spec_opt_rel_addr(t7) == (t8, None::<IpAddress>));
        },
    }
    match rel_port {
        Some(p) => {
            lemma_opt_rel_port_of_text(p, pt);
        },
        None => {
            assert(spec_opt_rel_port(t8).0 == t8);
        },
    }
    assert(spec_opt_rel_port(t8) == (
        pt,
        match rel_port {
            Some(p) => Some(decimal_value(p) as u16),
            None => None,
        },
    ));
    assert(spec_ice_candidate(f.line_with(t7)) == Ok::<(Seq<u8>, IceCandidateView), ErrorKind>(
        (Seq::empty(), candidate_of(f, rel_addr, rel_port, pairs)),
    ));
}

/// A line with the seven fields and nothing behind them denotes a
/// candidate without relay address, relay port and extension attributes.
pub proof fn lemma_minimal_line(f: Fields)
    requires
        f.valid(),
    ensures
        spec_parse(f.line_with(Seq::empty())) == Some(
            candidate_of(f, None, None, Seq::empty()),
        ),
        candidate_of(f, None, None, Seq::empty()).rel_addr is None,
        candidate_of(f, None, None, Seq::empty()).rel_port is None,
        candidate_of(f, None, None, Seq::empty()).extensions is None,
{
    let none = Seq::<(Seq<u8>, Seq<u8>)>::empty();
    assert(pairs_text(none) =~= Seq::empty());
    lemma_parse_of_line(f, None, None, none);
}

/// Behind the seven fields the clauses ` raddr <address>` and
/// ` rport <port>` may each be written or left out. The candidate has a
/// relay address exactly if the first is written, and a relay port
/// exactly if the second is; each has the value that its text denotes.
pub proof fn lemma_relay_clauses(f: Fields, rel_addr: Option<Seq<u8>>, rel_port: Option<Seq<u8>>)
    requires
        f.valid(),
        rel_addr matches Some(a) ==> valid_address_text(a),
        rel_port matches Some(p) ==> valid_port_text(p),
    ensures
        spec_parse(f.line_with(with_raddr(rel_addr, with_rport(rel_port, Seq::empty()))))
            == Some(candidate_of(f, rel_addr, rel_port, Seq::empty())),
        candidate_of(f, rel_addr, rel_port, Seq::empty()).rel_addr is Some <==> rel_addr is Some,
        candidate_of(f, rel_addr, rel_port, Seq::empty()).rel_port is Some <==> rel_port is Some,
        candidate_of(f, rel_addr, rel_port, Seq::empty()).extensions is None,
{
    let none = Seq::<(Seq<u8>, Seq<u8>)>::empty();
    assert(pairs_text(none) =~= Seq::empty());
    lemma_parse_of_line(f, rel_addr, rel_port, none);
}

/// `rest` is what is left of `s` behind some of its bytes.
pub open spec fn left_of(s: Seq<u8>, rest: Seq<u8>) -> bool {
    rest.len() <= s.len() && rest == s.skip(s.len() - rest.len())
}

/// `rest` is what is left of `s` behind at least one byte, the last of
/// which is no space.
pub open spec fn left_behind_token(s: Seq<u8>, rest: Seq<u8>) -> bool {
    left_of(s, rest) && rest.len() < s.len() && s[s.len() - rest.len() - 1] != SPACE
}

/// What is left of what is left of `s` is left of `s`.
pub proof fn lemma_left_of_left(s: Seq<u8>, mid: Seq<u8>, rest: Seq<u8>)
    requires
        left_of(s, mid),
        left_of(mid, rest),
    ensures
        left_of(s, rest),
        left_behind_token(mid, rest) ==> left_behind_token(s, rest),
{
    assert(s.skip(s.len() - mid.len()).skip(mid.len() - rest.len()) =~= s.skip(
        s.len() - rest.len(),
    ));
    if left_behind_token(mid, rest) {
        assert(mid[mid.len() - rest.len() - 1] == s[s.len() - rest.len() - 1]);
    }
}

/// A run of bytes of a class that the space does not belong to ends
/// behind a byte that is no space.
pub proof fn lemma_run_left_behind_token(s: Seq<u8>, class: ByteClass, kind: ErrorKind)
    requires
        class != ByteClass::Space,
    ensures
        run_result(s, class, kind) matches Ok((rest, _)) ==> left_behind_token(s, rest),
{
    lemma_run_len_bounds(s, class);
    let n = run_len(s, class) as int;
    if s.len() > 0 && n > 0 {
        assert(class.has(s[n - 1]));
    }
}

/// What a literal and what a space leave is left of the input.
pub proof fn lemma_tag_sp_left_of(s: Seq<u8>, lit: Seq<u8>)
    ensures
        spec_tag(s, lit) matches Ok(rest) ==> left_of(s, rest),
        spec_sp(s) matches Ok(rest) ==> left_of(s, rest),
{
}

/// Each rule that reads a token leaves what stands behind the token, and
/// the token does not end with a space.
pub proof fn lemma_rules_left_behind_token(s: Seq<u8>)
    ensures
        spec_foundation(s) matches Ok((rest, _)) ==> left_behind_token(s, rest),
        spec_component_id(s) matches Ok((rest, _)) ==> left_behind_token(s, rest),
        spec_transport(s) matches Ok((rest, _)) ==> left_behind_token(s, rest),
        spec_priority(s) matches Ok((rest, _)) ==> left_behind_token(s, rest),
        spec_ip_addr_rule(s) matches Ok((rest, _)) ==> left_behind_token(s, rest),
        spec_port(s) matches Ok((rest, _)) ==> left_behind_token(s, rest),
        spec_token(s) matches Ok((rest, _)) ==> left_behind_token(s, rest),
        spec_alpha(s) matches Ok((rest, _)) ==> left_behind_token(s, rest),
        spec_spaces(s) matches Ok(rest) ==> left_of(s, rest),
{
    lemma_run_left_behind_token(s, ByteClass::IceChar, ErrorKind::TakeWhile1);
    lemma_run_left_behind_token(s, ByteClass::Digit, ErrorKind::Digit);
    lemma_run_left_behind_token(s, ByteClass::Alpha, ErrorKind::Alpha);
    lemma_run_left_behind_token(s, ByteClass::IpChar, ErrorKind::TakeWhile1);
    lemma_run_left_behind_token(s, ByteClass::Token, ErrorKind::TakeTill1);
    lemma_run_len_bounds(s, ByteClass::Space);
}

/// A rule and the space behind it leave what stands behind the space.
pub proof fn lemma_then_sp_left_of<T>(s: Seq<u8>, r: Result<(Seq<u8>, T), ErrorKind>)
    requires
        r matches Ok((rest, _)) ==> left_of(s, rest),
    ensures
        then_sp(r) matches Ok((rest, _)) ==> left_of(s, rest),
{
    if let Ok((mid, _)) = r {
        if let Ok(rest) = spec_sp(mid) {
            lemma_left_of_left(s, mid, rest);
        }
    }
}

/// The candidate type, each of the two clauses and an extension pair end
/// with a token.
pub proof fn lemma_clauses_left_behind_token(s: Seq<u8>)
    ensures
        spec_cand_type(s) matches Ok((rest, _)) ==> left_behind_token(s, rest),
        spec_rel_addr(s) matches Ok((rest, _)) ==> left_behind_token(s, rest),
        spec_rel_port(s) matches Ok((rest, _)) ==> left_behind_token(s, rest),
        spec_extension(s) matches Ok((rest, _)) ==> left_behind_token(s, rest),
{
    lemma_tag_sp_left_of(s, lit_typ());
    if let Ok(s1) = spec_tag(s, lit_typ()) {
        lemma_rules_left_behind_token(s1);
        if let Ok(s2) = spec_spaces(s1) {
            lemma_rules_left_behind_token(s2);
            lemma_left_of_left(s, s1, s2);
            if let Ok((rest, _)) = spec_alpha(s2) {
                lemma_left_of_left(s, s2, rest);
            }
        }
    }
    lemma_tag_sp_left_of(s, lit_raddr());
    if let Ok(s1) = spec_tag(s, lit_raddr()) {
        lemma_tag_sp_left_of(s1, lit_raddr());
        if let Ok(s2) = spec_sp(s1) {
            lemma_rules_left_behind_token(s2);
            lemma_left_of_left(s, s1, s2);
            if let Ok((rest, _)) = spec_ip_addr_rule(s2) {
                lemma_left_of_left(s, s2, rest);
            }
        }
    }
    lemma_tag_sp_left_of(s, lit_rport());
    if let Ok(s1) = spec_tag(s, lit_rport()) {
        lemma_tag_sp_left_of(s1, lit_rport());
        if let Ok(s2) = spec_sp(s1) {
            lemma_rules_left_behind_token(s2);
            lemma_left_of_left(s, s1, s2);
            if let Ok((rest, _)) = spec_port(s2) {
                lemma_left_of_left(s, s2, rest);
            }
        }
    }
    if let Ok(s1) = spec_sp(s) {
        lemma_rules_left_behind_token(s1);
        if let Ok((s2, _)) = spec_token(s1) {
            lemma_left_of_left(s, s1, s2);
            if let Ok(s3) = spec_sp(s2) {
                lemma_left_of_left(s, s2, s3);
                lemma_rules_left_behind_token(s3);
                if let Ok((rest, _)) = spec_token(s3) {
                    lemma_left_of_left(s, s3, rest);
                }
            }
        }
    }
}

/// The optional clauses and the extension pairs leave the input as it is,
/// or what stands behind a token.
pub proof fn lemma_optional_left_behind_token(s: Seq<u8>)
    ensures
        spec_opt_rel_addr(s).0 == s || left_behind_token(s, spec_opt_rel_addr(s).0),
        spec_opt_rel_port(s).0 == s || left_behind_token(s, spec_opt_rel_port(s).0),
        spec_extensions(s).0 == s || left_behind_token(s, spec_extensions(s).0),
    decreases s.len(),
{
    if let Ok(s1) = spec_sp(s) {
        lemma_clauses_left_behind_token(s1);
        if let Ok((rest, _)) = spec_rel_addr(s1) {
            lemma_left_of_left(s, s1, rest);
        }
        if let Ok((rest, _)) = spec_rel_port(s1) {
            lemma_left_of_left(s, s1, rest);
        }
    }
    lemma_clauses_left_behind_token(s);
    if let Ok((rest, _)) = spec_extension(s) {
        if rest.len() < s.len() {
            lemma_optional_left_behind_token(rest);
            let end = spec_extensions(rest).0;
            if end != rest {
                lemma_left_of_left(s, rest, end);
            }
        }
    }
}

/// What `ice_candidate` leaves stands behind a token: the text that it
/// matched does not end with a space.
pub proof fn lemma_candidate_left_behind_token(s: Seq<u8>)
    ensures
        spec_ice_candidate(s) matches Ok((rest, _)) ==> left_behind_token(s, rest),
{
    lemma_tag_sp_left_of(s, lit_candidate());
    if let Ok(s0) = spec_tag(s, lit_candidate()) {
        lemma_rules_left_behind_token(s0);
        lemma_then_sp_left_of(s0, spec_foundation(s0));
        if let Ok((s1, _)) = then_sp(spec_foundation(s0)) {
            lemma_left_of_left(s, s0, s1);
            lemma_rules_left_behind_token(s1);
            lemma_then_sp_left_of(s1, spec_component_id(s1));
            if let Ok((s2, _)) = then_sp(spec_component_id(s1)) {
                lemma_left_of_left(s, s1, s2);
                lemma_rules_left_behind_token(s2);
                lemma_then_sp_left_of(s2, spec_transport(s2));
                if let Ok((s3, _)) = then_sp(spec_transport(s2)) {
                    lemma_left_of_left(s, s2, s3);
                    lemma_rules_left_behind_token(s3);
                    lemma_then_sp_left_of(s3, spec_priority(s3));
                    if let Ok((s4, _)) = then_sp(spec_priority(s3)) {
                        lemma_left_of_left(s, s3, s4);
                        lemma_rules_left_behind_token(s4);
                        lemma_then_sp_left_of(s4, spec_ip_addr_rule(s4));
                        if let Ok((s5, _)) = then_sp(spec_ip_addr_rule(s4)) {
                            lemma_left_of_left(s, s4, s5);
                            lemma_rules_left_behind_token(s5);
                            lemma_then_sp_left_of(s5, spec_port(s5));
                            if let Ok((s6, _)) = then_sp(spec_port(s5)) {
                                lemma_left_of_left(s, s5, s6);
                                lemma_clauses_left_behind_token(s6);
                                if let Ok((s7, _)) = spec_cand_type(s6) {
                                    lemma_left_of_left(s, s6, s7);
                                    lemma_tail_left_behind_token(s, s7);
                                }
                            }
                        }
                    }
                }
            }
        }
    }
}

/// The optional clauses and the extension pairs behind a token leave what
/// stands behind a token.
proof fn lemma_tail_left_behind_token(s: Seq<u8>, s7: Seq<u8>)
    requires
        left_behind_token(s, s7),
    ensures
        left_behind_token(s, spec_extensions(spec_opt_rel_port(spec_opt_rel_addr(s7).0).0).0),
{
    let s8 = spec_opt_rel_addr(s7).0;
    lemma_optional_left_behind_token(s7);
    if s8 != s7 {
        lemma_left_of_left(s, s7, s8);
    }
    let s9 = spec_opt_rel_port(s8).0;
    lemma_optional_left_behind_token(s8);
    if s9 != s8 {
        lemma_left_of_left(s, s8, s9);
    }
    let rest = spec_extensions(s9).0;
    lemma_optional_left_behind_token(s9);
    if rest != s9 {
        lemma_left_of_left(s, s9, rest);
    }
}

/// A line that ends with a space denotes no candidate: a space that no
/// token follows is never passed over.
pub proof fn lemma_trailing_space_fails(s: Seq<u8>)
    requires
        s.len() > 0,
        s.last() == SPACE,
    ensures
        spec_parse(s) is None,
{
    lemma_candidate_left_behind_token(s);
}

/// Input that does not start with `candidate:` denotes no candidate; the
/// empty input is of that kind.
pub proof fn lemma_foreign_input_fails(s: Seq<u8>)
    requires
        s.len() < 10 || s.take(10) != lit_candidate(),
    ensures
        spec_parse(s) is None,
{
    assert(lit_candidate().len() == 10);
    if s.len() >= 10 {
        assert(lit_candidate().take(10) =~= lit_candidate());
    }
}

/// A line in which a field is longer than the grammar allows denotes no
/// candidate, whatever stands behind the candidate type: a foundation of
/// more than 32 bytes, a component id of more than 5 digits, a priority of
/// more than 10 digits, or a port of more than 5 digits or above 65535.
pub proof fn lemma_overlong_field_fails(f: Fields, tail: Seq<u8>)
    requires
        f.well_formed(),
        !f.within_bounds(),
    ensures
        spec_parse(f.line_with(tail)) is None,
{
    let s6 = lit_typ() + (space() + (f.candidate_type + tail));
    lemma_leading_fields(f, s6);
}

} // verus!
