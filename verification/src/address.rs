//! Textual IPv4 and IPv6 addresses.
//!
//! An IPv4 address is written as four decimal numbers from 0 to 255,
//! separated by dots, none with a leading zero. An IPv6 address is written
//! as eight groups of one to four hexadecimal digits separated by colons,
//! in which one `::` may stand for one or more groups of zero and the last
//! two groups may be written as an IPv4 address.

use crate::bytes::{dec_digit, hex_digit, COLON, DOT};
use crate::numbers::{all_digits, decimal_u64, decimal_value};
use vstd::prelude::*;

verus! {

/// An IPv4 or IPv6 address: the four octets of the one, or the eight
/// 16-bit groups of the other, first to last.
#[derive(Clone, Copy, Debug, PartialEq, Eq, Structural, Hash)]
pub enum IpAddress {
    V4(u8, u8, u8, u8),
    V6(u16, u16, u16, u16, u16, u16, u16, u16),
}

/// The fields of `s` that the separator `sep` parts: one more than `sep`
/// occurs in `s`, in order, each without the separators around it.
pub open spec fn split(s: Seq<u8>, sep: u8) -> Seq<Seq<u8>>
    decreases s.len(),
{
    if s.len() == 0 {
        seq![Seq::<u8>::empty()]
    } else if s.last() == sep {
        split(s.drop_last(), sep).push(Seq::<u8>::empty())
    } else {
        let p = split(s.drop_last(), sep);
        p.update(p.len() - 1, p.last().push(s.last()))
    }
}

/// The contents of each slice of `v`.
pub open spec fn fields_view(v: Seq<&[u8]>) -> Seq<Seq<u8>> {
    Seq::new(v.len(), |k: int| v[k]@)
}

/// The fields put together again, with `sep` between two of them.
pub open spec fn join(parts: Seq<Seq<u8>>, sep: u8) -> Seq<u8>
    decreases parts.len(),
{
    if parts.len() == 0 {
        Seq::empty()
    } else if parts.len() == 1 {
        parts[0]
    } else {
        join(parts.drop_last(), sep).push(sep) + parts.last()
    }
}

/// No field of `parts` holds `sep`.
pub open spec fn free_of(parts: Seq<Seq<u8>>, sep: u8) -> bool {
    forall|i: int, j: int|
        0 <= i < parts.len() && 0 <= j < parts[i].len() ==> #[trigger] parts[i][j] != sep
}

/// There is always at least one field, no field holds the separator, and
/// the fields with the separator between them make up the text again.
pub proof fn lemma_split_fields(s: Seq<u8>, sep: u8)
    ensures
        split(s, sep).len() >= 1,
        free_of(split(s, sep), sep),
        join(split(s, sep), sep) == s,
    decreases s.len(),
{
    if s.len() > 0 {
        let q = s.drop_last();
        let p = split(q, sep);
        lemma_split_fields(q, sep);
        if s.last() == sep {
            let r = p.push(Seq::<u8>::empty());
            assert(r.drop_last() =~= p);
            assert(join(r, sep) =~= s);
        } else {
            let r = p.update(p.len() - 1, p.last().push(s.last()));
            if p.len() == 1 {
                assert(join(r, sep) =~= s);
            } else {
                assert(r.drop_last() =~= p.drop_last());
                assert(join(r, sep) =~= join(p, sep).push(s.last()));
                assert(join(r, sep) =~= s);
            }
        }
    } else {
        assert(join(split(s, sep), sep) =~= s);
    }
}

/// Fields that do not hold the separator are the fields of the text that
/// they make with the separator between them.
pub proof fn lemma_split_of_join(parts: Seq<Seq<u8>>, sep: u8)
    requires
        parts.len() >= 1,
        free_of(parts, sep),
    ensures
        split(join(parts, sep), sep) == parts,
    decreases parts.len(), parts.last().len(),
{
    let s = join(parts, sep);
    let last = parts.last();
    if last.len() > 0 {
        let shorter = parts.update(parts.len() - 1, last.drop_last());
        assert(free_of(shorter, sep)) by {
            assert forall|i: int, j: int|
                0 <= i < shorter.len() && 0 <= j < shorter[i].len() implies #[trigger] shorter[i][j]
                != sep by {
                assert(shorter[i][j] == parts[i][j]);
            }
        }
        lemma_split_of_join(shorter, sep);
        assert(parts[parts.len() - 1][last.len() - 1] != sep);
        if parts.len() > 1 {
            assert(shorter.drop_last() =~= parts.drop_last());
        }
        assert(s.drop_last() =~= join(shorter, sep));
        assert(s.last() == last.last());
        assert(shorter.update(shorter.len() - 1, shorter.last().push(last.last())) =~~= parts);
    } else if parts.len() > 1 {
        let fewer = parts.drop_last();
        assert(free_of(fewer, sep)) by {
            assert forall|i: int, j: int|
                0 <= i < fewer.len() && 0 <= j < fewer[i].len() implies #[trigger] fewer[i][j]
                != sep by {
                assert(fewer[i][j] == parts[i][j]);
            }
        }
        lemma_split_of_join(fewer, sep);
        assert(s =~= join(fewer, sep).push(sep));
        assert(s.drop_last() =~= join(fewer, sep));
        assert(fewer.push(Seq::<u8>::empty()) =~~= parts);
    } else {
        assert(s =~= Seq::<u8>::empty());
        assert(parts =~~= seq![Seq::<u8>::empty()]);
    }
}

/// Part `input` at each occurrence of `sep`.
pub fn split_fields(input: &[u8], sep: u8) -> (fields: Vec<&[u8]>)
    ensures
        fields_view(fields@) == split(input@, sep),
{
    let mut fields: Vec<&[u8]> = Vec::new();
    let mut start: usize = 0;
    let mut i: usize = 0;
    assert(fields_view(fields@).push(input@.subrange(0, 0)) =~~= seq![Seq::<u8>::empty()]);
    while i < input.len()
        invariant
            start <= i <= input.len(),
            fields_view(fields@).push(input@.subrange(start as int, i as int)) == split(
                input@.take(i as int),
                sep,
            ),
        decreases input.len() - i,
    {
        proof {
            let t = input@.take(i + 1);
            assert(t.drop_last() == input@.take(i as int));
            assert(t.last() == input@[i as int]);
        }
        let ghost before = fields_view(fields@);
        let ghost cur = input@.subrange(start as int, i as int);
        if input[i] == sep {
            let field = &input[start..i];
            fields.push(field);
            start = i + 1;
            assert(fields_view(fields@) =~~= before.push(cur));
            assert(input@.subrange(start as int, i + 1) =~= Seq::<u8>::empty());
        } else {
            assert(cur.push(input@[i as int]) =~= input@.subrange(start as int, i + 1));
            assert(before.push(cur).update(before.len() as int, cur.push(input@[i as int]))
                =~~= before.push(input@.subrange(start as int, i + 1)));
        }
        i += 1;
    }
    let ghost before = fields_view(fields@);
    let field = &input[start..i];
    fields.push(field);
    assert(fields_view(fields@) =~~= before.push(field@));
    assert(input@.take(i as int) == input@);
    fields
}

/// The text of one number of an IPv4 address: one to three decimal digits
/// without a leading zero, denoting at most 255.
pub open spec fn valid_octet(f: Seq<u8>) -> bool {
    &&& 1 <= f.len() <= 3
    &&& all_digits(f)
    &&& (f.len() > 1 ==> f[0] != 0x30)
    &&& decimal_value(f) <= 255
}

/// Whether every byte of `input` is a decimal digit.
pub fn only_digits(input: &[u8]) -> (r: bool)
    ensures
        r == all_digits(input@),
{
    let mut i: usize = 0;
    while i < input.len()
        invariant
            i <= input.len(),
            forall|k: int| 0 <= k < i ==> dec_digit(#[trigger] input@[k]),
        decreases input.len() - i,
    {
        if !(0x30 <= input[i] && input[i] <= 0x39) {
            return false;
        }
        i += 1;
    }
    true
}

/// The number that `field` denotes in an IPv4 address, if it is the text
/// of one.
pub fn octet(field: &[u8]) -> (r: Option<u8>)
    ensures
        r matches Some(v) ==> valid_octet(field@) && v == decimal_value(field@),
        r is None ==> !valid_octet(field@),
{
    if field.len() < 1 || field.len() > 3 || !only_digits(field) {
        return None;
    }
    if field.len() > 1 && field[0] == 0x30 {
        return None;
    }
    match decimal_u64(field) {
        Some(v) => {
            if v <= 255 {
                Some(v as u8)
            } else {
                None
            }
        },
        None => None,
    }
}

/// The four numbers of the IPv4 address that `s` is the text of.
pub open spec fn spec_ipv4(s: Seq<u8>) -> Option<IpAddress> {
    let p = split(s, DOT);
    if p.len() == 4 && valid_octet(p[0]) && valid_octet(p[1]) && valid_octet(p[2])
        && valid_octet(p[3]) {
        Some(
            IpAddress::V4(
                decimal_value(p[0]) as u8,
                decimal_value(p[1]) as u8,
                decimal_value(p[2]) as u8,
                decimal_value(p[3]) as u8,
            ),
        )
    } else {
        None
    }
}

/// Read `input` as the text of an IPv4 address.
pub fn ipv4(input: &[u8]) -> (r: Option<IpAddress>)
    ensures
        r == spec_ipv4(input@),
{
    let fields = split_fields(input, DOT);
    if fields.len() != 4 {
        return None;
    }
    assert(fields_view(fields@)[0] == fields@[0]@);
    assert(fields_view(fields@)[1] == fields@[1]@);
    assert(fields_view(fields@)[2] == fields@[2]@);
    assert(fields_view(fields@)[3] == fields@[3]@);
    let a = octet(fields[0]);
    let b = octet(fields[1]);
    let c = octet(fields[2]);
    let d = octet(fields[3]);
    match (a, b, c, d) {
        (Some(a), Some(b), Some(c), Some(d)) => Some(IpAddress::V4(a, b, c, d)),
        _ => None,
    }
}

/// The number that one hexadecimal digit denotes.
pub open spec fn hex_digit_value(c: u8) -> nat {
    if 0x30 <= c <= 0x39 {
        (c - 0x30) as nat
    } else if 0x41 <= c <= 0x46 {
        (c - 0x41 + 10) as nat
    } else {
        (c - 0x61 + 10) as nat
    }
}

/// The number that the hexadecimal digits `s` denote; 0 for no digits.
pub open spec fn hex_value(s: Seq<u8>) -> nat
    decreases s.len(),
{
    if s.len() == 0 {
        0
    } else {
        hex_value(s.drop_last()) * 16 + hex_digit_value(s.last())
    }
}

/// The text of one group of an IPv6 address: one to four hexadecimal
/// digits.
pub open spec fn valid_hex_group(f: Seq<u8>) -> bool {
    &&& 1 <= f.len() <= 4
    &&& forall|i: int| 0 <= i < f.len() ==> hex_digit(#[trigger] f[i])
}

/// The number that `field` denotes in an IPv6 address, if it is the text
/// of a group.
pub fn hex_group(field: &[u8]) -> (r: Option<u16>)
    ensures
        r matches Some(v) ==> valid_hex_group(field@) && v == hex_value(field@),
        r is None ==> !valid_hex_group(field@),
{
    if field.len() < 1 || field.len() > 4 {
        return None;
    }
    let mut acc: u32 = 0;
    let mut i: usize = 0;
    while i < field.len()
        invariant
            i <= field.len() <= 4,
            forall|k: int| 0 <= k < i ==> hex_digit(#[trigger] field@[k]),
            acc == hex_value(field@.take(i as int)),
            i == 0 ==> acc < 1,
            i == 1 ==> acc < 16,
            i == 2 ==> acc < 256,
            i == 3 ==> acc < 4096,
            i == 4 ==> acc < 65536,
        decreases field.len() - i,
    {
        let c = field[i];
        let d: u32 = if 0x30 <= c && c <= 0x39 {
            (c - 0x30) as u32
        } else if 0x41 <= c && c <= 0x46 {
            (c - 0x41 + 10) as u32
        } else if 0x61 <= c && c <= 0x66 {
            (c - 0x61 + 10) as u32
        } else {
            return None;
        };
        proof {
            let u = field@.take(i + 1);
            assert(u.drop_last() == field@.take(i as int));
            assert(u.last() == c);
        }
        acc = acc * 16 + d;
        i += 1;
    }
    assert(field@.take(i as int) == field@);
    Some(acc as u16)
}

/// Two colons stand at `k` and `k + 1`.
pub open spec fn double_colon_at(s: Seq<u8>, k: int) -> bool {
    0 <= k && k + 1 < s.len() && s[k] == COLON && s[k + 1] == COLON
}

/// The first `::` of `s` stands at `k`.
pub open spec fn first_double_colon(s: Seq<u8>, k: int) -> bool {
    double_colon_at(s, k) && forall|j: int| 0 <= j < k ==> !double_colon_at(s, j)
}

/// Where the first `::` of `input` stands, if there is one.
pub fn find_double_colon(input: &[u8]) -> (r: Option<usize>)
    ensures
        r matches Some(k) ==> first_double_colon(input@, k as int),
        r is None ==> forall|j: int| !double_colon_at(input@, j),
{
    if input.len() < 2 {
        return None;
    }
    let mut k: usize = 0;
    while k + 1 < input.len()
        invariant
            k + 1 <= input.len(),
            forall|j: int| 0 <= j < k ==> !double_colon_at(input@, j),
        decreases input.len() - k,
    {
        if input[k] == COLON && input[k + 1] == COLON {
            return Some(k);
        }
        k += 1;
    }
    None
}

/// The numbers of the groups `parts`, if each is the text of a group.
pub open spec fn hex_groups(parts: Seq<Seq<u8>>) -> Option<Seq<u16>> {
    if forall|i: int| 0 <= i < parts.len() ==> valid_hex_group(#[trigger] parts[i]) {
        Some(Seq::new(parts.len(), |i: int| hex_value(parts[i]) as u16))
    } else {
        None
    }
}

/// The numbers of the groups `parts`, the last of which may be the text of
/// an IPv4 address and then stands for two groups.
pub open spec fn last_groups(parts: Seq<Seq<u8>>) -> Option<Seq<u16>> {
    match spec_ipv4(parts.last()) {
        Some(IpAddress::V4(a, b, c, d)) => match hex_groups(parts.drop_last()) {
            Some(g) => Some(g.push((a * 256 + b) as u16).push((c * 256 + d) as u16)),
            None => None,
        },
        _ => hex_groups(parts),
    }
}

/// The numbers of the groups that `s` lists with colons between them; no
/// groups where `s` is empty. Only with `v4_last` may the last two be
/// written as an IPv4 address.
pub open spec fn groups_of_text(s: Seq<u8>, v4_last: bool) -> Option<Seq<u16>> {
    if s.len() == 0 {
        Some(Seq::<u16>::empty())
    } else if v4_last {
        last_groups(split(s, COLON))
    } else {
        hex_groups(split(s, COLON))
    }
}

/// The eight groups of the IPv6 address that `s` is the text of.
pub open spec fn spec_ipv6_groups(s: Seq<u8>) -> Option<Seq<u16>> {
    if exists|k: int| first_double_colon(s, k) {
        let k = choose|k: int| first_double_colon(s, k);
        match (groups_of_text(s.take(k), false), groups_of_text(s.skip(k + 2), true)) {
            (Some(head), Some(tail)) => if head.len() + tail.len() <= 7 {
                Some(head + Seq::new((8 - head.len() - tail.len()) as nat, |i: int| 0u16) + tail)
            } else {
                None
            },
            _ => None,
        }
    } else {
        match groups_of_text(s, true) {
            Some(g) => if g.len() == 8 {
                Some(g)
            } else {
                None
            },
            None => None,
        }
    }
}

/// The IPv6 address with the eight groups `g`.
pub open spec fn v6_of(g: Seq<u16>) -> IpAddress {
    IpAddress::V6(g[0], g[1], g[2], g[3], g[4], g[5], g[6], g[7])
}

/// The IPv6 address that `s` is the text of.
pub open spec fn spec_ipv6(s: Seq<u8>) -> Option<IpAddress> {
    match spec_ipv6_groups(s) {
        Some(g) => Some(v6_of(g)),
        None => None,
    }
}

/// The address that `s` is the text of.
pub open spec fn spec_ip_addr(s: Seq<u8>) -> Option<IpAddress> {
    match spec_ipv4(s) {
        Some(a) => Some(a),
        None => spec_ipv6(s),
    }
}

/// Read `input` as a list of groups with colons between them.
pub fn text_groups(input: &[u8], v4_last: bool) -> (r: Option<Vec<u16>>)
    ensures
        r matches Some(v) ==> groups_of_text(input@, v4_last) == Some(v@),
        r is None ==> groups_of_text(input@, v4_last) is None,
{
    let mut out: Vec<u16> = Vec::new();
    if input.len() == 0 {
        assert(out@ =~= Seq::<u16>::empty());
        return Some(out);
    }
    let fields = split_fields(input, COLON);
    let ghost parts = split(input@, COLON);
    proof {
        lemma_split_fields(input@, COLON);
    }
    let n = fields.len();
    assert(parts[n - 1] == fields@[n - 1]@);
    let tail = if v4_last {
        ipv4(fields[n - 1])
    } else {
        None
    };
    let m = match tail {
        Some(IpAddress::V4(_, _, _, _)) => n - 1,
        _ => n,
    };
    let ghost hex_parts = parts.take(m as int);
    assert(m == n - 1 ==> hex_parts =~= parts.drop_last());
    assert(m == n ==> hex_parts =~= parts);
    let mut k: usize = 0;
    while k < m
        invariant
            k <= m <= n,
            n == fields@.len(),
            n >= 1,
            input@.len() > 0,
            parts == split(input@, COLON),
            parts == fields_view(fields@),
            hex_parts == parts.take(m as int),
            v4_last ==> tail == spec_ipv4(parts.last()),
            !v4_last ==> tail is None,
            tail is Some ==> m == n - 1,
            tail is None ==> m == n,
            out@.len() == k,
            forall|i: int| 0 <= i < k ==> valid_hex_group(#[trigger] hex_parts[i]),
            forall|i: int| 0 <= i < k ==> out@[i] == hex_value(hex_parts[i]) as u16,
        decreases m - k,
    {
        assert(hex_parts[k as int] == fields@[k as int]@);
        match hex_group(fields[k]) {
            Some(v) => {
                out.push(v);
            },
            None => {
                assert(!valid_hex_group(hex_parts[k as int]));
                assert(m == n - 1 ==> hex_parts =~= parts.drop_last());
                assert(m == n ==> hex_parts =~= parts);
                return None;
            },
        }
        k += 1;
    }
    assert(out@ =~= hex_groups(hex_parts).unwrap());
    assert(m == n - 1 ==> hex_parts =~= parts.drop_last());
    assert(m == n ==> hex_parts =~= parts);
    match tail {
        Some(IpAddress::V4(a, b, c, d)) => {
            let hi: u16 = (a as u16) * 256 + (b as u16);
            let lo: u16 = (c as u16) * 256 + (d as u16);
            out.push(hi);
            out.push(lo);
        },
        _ => {},
    }
    Some(out)
}

/// Read `input` as the text of an IPv6 address.
pub fn ipv6(input: &[u8]) -> (r: Option<IpAddress>)
    ensures
        r == spec_ipv6(input@),
{
    let groups = match find_double_colon(input) {
        Some(k) => {
            let n = input.len();
            assert(first_double_colon(input@, k as int));
            assert(k + 1 < n);
            assert(forall|j: int| first_double_colon(input@, j) ==> j == k);
            let head = text_groups(&input[0..k], false);
            let tail = text_groups(&input[k + 2..n], true);
            assert(input@.subrange(0, k as int) == input@.take(k as int));
            assert(input@.subrange(k + 2, input@.len() as int) == input@.skip(k + 2));
            match (head, tail) {
                (Some(head), Some(tail)) => {
                    if head.len() > 7 || tail.len() > 7 - head.len() {
                        return None;
                    }
                    let ghost h = head@;
                    let fill: usize = 8 - head.len() - tail.len();
                    let mut g = head;
                    let mut i: usize = 0;
                    while i < fill
                        invariant
                            i <= fill,
                            g@ == h + Seq::new(i as nat, |j: int| 0u16),
                        decreases fill - i,
                    {
                        g.push(0);
                        i += 1;
                        assert(g@ =~= h + Seq::new(i as nat, |j: int| 0u16));
                    }
                    let ghost filled = g@;
                    let mut i: usize = 0;
                    while i < tail.len()
                        invariant
                            i <= tail.len(),
                            g@ == filled + tail@.take(i as int),
                        decreases tail.len() - i,
                    {
                        g.push(tail[i]);
                        i += 1;
                        assert(g@ =~= filled + tail@.take(i as int));
                    }
                    assert(tail@.take(i as int) == tail@);
                    g
                },
                _ => {
                    return None;
                },
            }
        },
        None => {
            assert(forall|j: int| !first_double_colon(input@, j));
            match text_groups(input, true) {
                Some(g) => {
                    if g.len() != 8 {
                        return None;
                    }
                    g
                },
                None => {
                    return None;
                },
            }
        },
    };
    Some(
        IpAddress::V6(
            groups[0],
            groups[1],
            groups[2],
            groups[3],
            groups[4],
            groups[5],
            groups[6],
            groups[7],
        ),
    )
}

/// Read `input` as the text of an IPv4 or IPv6 address.
pub fn ip_address(input: &[u8]) -> (r: Option<IpAddress>)
    ensures
        r == spec_ip_addr(input@),
{
    match ipv4(input) {
        Some(a) => Some(a),
        None => ipv6(input),
    }
}

} // verus!
