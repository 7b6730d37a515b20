//! What holds of the texts of IPv4 and IPv6 addresses: each way of writing
//! an address denotes the address that was written.

use crate::address::{
    double_colon_at, first_double_colon, free_of, groups_of_text, hex_groups, join,
    lemma_split_fields, lemma_split_of_join, spec_ipv4, spec_ipv6_groups, split, valid_hex_group,
    valid_octet, IpAddress,
};
use crate::bytes::{dec_digit, hex_digit, COLON, DOT};
use crate::numbers::decimal_value;
use vstd::prelude::*;

verus! {

/// Four texts of numbers with dots between them are the text of the IPv4
/// address with these numbers.
pub proof fn lemma_ipv4_of_octets(a: Seq<u8>, b: Seq<u8>, c: Seq<u8>, d: Seq<u8>)
    requires
        valid_octet(a),
        valid_octet(b),
        valid_octet(c),
        valid_octet(d),
    ensures
        spec_ipv4(join(seq![a, b, c, d], DOT)) == Some(
            IpAddress::V4(
                decimal_value(a) as u8,
                decimal_value(b) as u8,
                decimal_value(c) as u8,
                decimal_value(d) as u8,
            ),
        ),
{
    let parts = seq![a, b, c, d];
    assert(free_of(parts, DOT)) by {
        assert forall|i: int, j: int|
            0 <= i < parts.len() && 0 <= j < parts[i].len() implies #[trigger] parts[i][j]
            != DOT by {
            assert(dec_digit(parts[i][j]));
        }
    }
    lemma_split_of_join(parts, DOT);
}

/// The text of an IPv4 address is made of four texts of numbers with dots
/// between them.
pub proof fn lemma_ipv4_is_of_octets(s: Seq<u8>)
    requires
        spec_ipv4(s) is Some,
    ensures
        split(s, DOT).len() == 4,
        valid_octet(split(s, DOT)[0]),
        valid_octet(split(s, DOT)[1]),
        valid_octet(split(s, DOT)[2]),
        valid_octet(split(s, DOT)[3]),
        s == join(split(s, DOT), DOT),
{
    lemma_split_fields(s, DOT);
}

/// Each of `parts` is the text of a group of an IPv6 address.
pub open spec fn all_hex_groups(parts: Seq<Seq<u8>>) -> bool {
    forall|i: int| 0 <= i < parts.len() ==> valid_hex_group(#[trigger] parts[i])
}

/// The groups written with colons between them; the empty text for no
/// groups.
pub open spec fn groups_text(parts: Seq<Seq<u8>>) -> Seq<u8> {
    if parts.len() == 0 {
        Seq::empty()
    } else {
        join(parts, COLON)
    }
}

/// No field of `parts` is empty.
pub open spec fn none_empty(parts: Seq<Seq<u8>>) -> bool {
    forall|i: int| 0 <= i < parts.len() ==> (#[trigger] parts[i]).len() >= 1
}

/// A byte that is neither the separator nor in a field is not in the text
/// that the fields make.
pub proof fn lemma_join_is_free_of(parts: Seq<Seq<u8>>, sep: u8, x: u8)
    requires
        free_of(parts, x),
        sep != x,
    ensures
        forall|k: int| 0 <= k < join(parts, sep).len() ==> join(parts, sep)[k] != x,
    decreases parts.len(),
{
    if parts.len() == 1 {
        assert forall|k: int| 0 <= k < parts[0].len() implies parts[0][k] != x by {
            assert(parts[0][k] != x);
        }
    } else if parts.len() > 1 {
        let fewer = parts.drop_last();
        let last = parts.last();
        assert(free_of(fewer, x)) by {
            assert forall|i: int, j: int|
                0 <= i < fewer.len() && 0 <= j < fewer[i].len() implies #[trigger] fewer[i][j]
                != x by {
                assert(fewer[i][j] == parts[i][j]);
            }
        }
        lemma_join_is_free_of(fewer, sep, x);
        let a = join(fewer, sep);
        let s = join(parts, sep);
        assert forall|k: int| 0 <= k < s.len() implies s[k] != x by {
            if k < a.len() {
                assert(s[k] == a[k]);
            } else if k > a.len() {
                assert(s[k] == parts[parts.len() - 1][k - a.len() - 1]);
            }
        }
    }
}

/// The text of fields that are not empty and hold no colon starts and ends
/// with a byte of a field and holds no two colons side by side.
pub proof fn lemma_fields_text_has_no_double_colon(parts: Seq<Seq<u8>>)
    requires
        parts.len() >= 1,
        none_empty(parts),
        free_of(parts, COLON),
    ensures
        join(parts, COLON).len() >= 1,
        join(parts, COLON)[0] != COLON,
        join(parts, COLON).last() != COLON,
        forall|k: int| !double_colon_at(join(parts, COLON), k),
    decreases parts.len(),
{
    let s = join(parts, COLON);
    let last = parts.last();
    assert(parts[parts.len() - 1].len() >= 1);
    assert(parts[parts.len() - 1][0] != COLON);
    assert(parts[parts.len() - 1][last.len() - 1] != COLON);
    if parts.len() == 1 {
        assert forall|k: int| !double_colon_at(s, k) by {
            if 0 <= k < s.len() {
                assert(parts[0][k] != COLON);
            }
        }
    } else {
        let fewer = parts.drop_last();
        assert(none_empty(fewer) && free_of(fewer, COLON)) by {
            assert forall|i: int| 0 <= i < fewer.len() implies (#[trigger] fewer[i]).len()
                >= 1 by {
                assert(fewer[i] == parts[i]);
            }
            assert forall|i: int, j: int|
                0 <= i < fewer.len() && 0 <= j < fewer[i].len() implies #[trigger] fewer[i][j]
                != COLON by {
                assert(fewer[i][j] == parts[i][j]);
            }
        }
        lemma_fields_text_has_no_double_colon(fewer);
        let a = join(fewer, COLON);
        assert(s == a.push(COLON) + last);
        assert(s[0] == a[0]);
        assert(s.last() == last[last.len() - 1]);
        assert forall|k: int| !double_colon_at(s, k) by {
            if 0 <= k && k + 1 < s.len() {
                if k + 1 < a.len() {
                    assert(s[k] == a[k] && s[k + 1] == a[k + 1]);
                    assert(!double_colon_at(a, k));
                } else if k + 1 == a.len() {
                    assert(s[k] == a[a.len() - 1]);
                } else if k == a.len() {
                    assert(s[k + 1] == last[0]);
                } else {
                    assert(s[k] == parts[parts.len() - 1][k - a.len() - 1]);
                }
            }
        }
    }
}

/// The texts of groups are not empty and hold neither colon nor dot.
pub proof fn lemma_hex_groups_are_fields(parts: Seq<Seq<u8>>)
    requires
        all_hex_groups(parts),
    ensures
        none_empty(parts),
        free_of(parts, COLON),
        free_of(parts, DOT),
{
    assert forall|i: int| 0 <= i < parts.len() implies (#[trigger] parts[i]).len() >= 1 by {
        assert(valid_hex_group(parts[i]));
    }
    assert forall|i: int, j: int|
        0 <= i < parts.len() && 0 <= j < parts[i].len() implies #[trigger] parts[i][j] != COLON
        && parts[i][j] != DOT by {
        assert(valid_hex_group(parts[i]));
        assert(hex_digit(parts[i][j]));
    }
}

/// The text of an IPv4 address is not empty and holds no colon.
pub proof fn lemma_ipv4_text_is_field(v4: Seq<u8>)
    requires
        spec_ipv4(v4) is Some,
    ensures
        v4.len() >= 1,
        forall|k: int| 0 <= k < v4.len() ==> v4[k] != COLON,
{
    lemma_split_fields(v4, DOT);
    let parts = split(v4, DOT);
    assert(free_of(parts, COLON)) by {
        assert forall|i: int, j: int|
            0 <= i < parts.len() && 0 <= j < parts[i].len() implies #[trigger] parts[i][j]
            != COLON by {
            assert(valid_octet(parts[i]));
            assert(dec_digit(parts[i][j]));
        }
    }
    lemma_join_is_free_of(parts, DOT, COLON);
    assert(parts.drop_last().len() == 3);
    assert(join(parts, DOT) == join(parts.drop_last(), DOT).push(DOT) + parts.last());
}

/// The text of a group is not the text of an IPv4 address.
pub proof fn lemma_hex_group_is_no_ipv4(f: Seq<u8>)
    requires
        valid_hex_group(f),
    ensures
        spec_ipv4(f) is None,
{
    let one = seq![f];
    assert(free_of(one, DOT)) by {
        assert forall|i: int, j: int|
            0 <= i < one.len() && 0 <= j < one[i].len() implies #[trigger] one[i][j] != DOT by {
            assert(hex_digit(f[j]));
        }
    }
    lemma_split_of_join(one, DOT);
}

/// From the text of groups the groups are read again.
pub proof fn lemma_groups_of_groups_text(parts: Seq<Seq<u8>>, v4_last: bool)
    requires
        all_hex_groups(parts),
    ensures
        groups_of_text(groups_text(parts), v4_last) == hex_groups(parts),
{
    if parts.len() == 0 {
        assert(hex_groups(parts).unwrap() =~= Seq::<u16>::empty());
    } else {
        lemma_hex_groups_are_fields(parts);
        lemma_split_of_join(parts, COLON);
        assert(valid_hex_group(parts[parts.len() - 1]));
        lemma_hex_group_is_no_ipv4(parts.last());
    }
}

/// Eight texts of groups with colons between them are the text of the
/// IPv6 address with these groups.
pub proof fn lemma_ipv6_of_groups(parts: Seq<Seq<u8>>)
    requires
        parts.len() == 8,
        all_hex_groups(parts),
    ensures
        spec_ipv6_groups(join(parts, COLON)) == hex_groups(parts),
{
    lemma_hex_groups_are_fields(parts);
    lemma_fields_text_has_no_double_colon(parts);
    lemma_groups_of_groups_text(parts, true);
    let s = join(parts, COLON);
    assert(forall|k: int| !first_double_colon(s, k));
}

/// At most seven texts of groups, with `::` between two of them, before
/// the first or behind the last, are the text of the IPv6 address that has
/// these groups at its start and at its end and groups of zero in the
/// place of the `::`.
pub proof fn lemma_ipv6_of_compressed(head: Seq<Seq<u8>>, tail: Seq<Seq<u8>>)
    requires
        all_hex_groups(head),
        all_hex_groups(tail),
        head.len() + tail.len() <= 7,
    ensures
        spec_ipv6_groups(groups_text(head) + seq![COLON, COLON] + groups_text(tail)) == Some(
            hex_groups(head).unwrap() + Seq::new(
                (8 - head.len() - tail.len()) as nat,
                |i: int| 0u16,
            ) + hex_groups(tail).unwrap(),
        ),
{
    let h = groups_text(head);
    let t = groups_text(tail);
    let s = h + seq![COLON, COLON] + t;
    let k = h.len() as int;
    lemma_hex_groups_are_fields(head);
    if head.len() > 0 {
        lemma_fields_text_has_no_double_colon(head);
    }
    assert(s[k] == COLON && s[k + 1] == COLON);
    assert forall|j: int| 0 <= j < k implies !double_colon_at(s, j) by {
        if j + 1 < k {
            assert(s[j] == h[j] && s[j + 1] == h[j + 1]);
            assert(!double_colon_at(h, j));
        } else {
            assert(s[j] == h[k - 1]);
        }
    }
    assert(first_double_colon(s, k));
    assert(forall|j: int| first_double_colon(s, j) ==> j == k);
    assert(s.take(k) =~= h);
    assert(s.skip(k + 2) =~= t);
    lemma_groups_of_groups_text(head, false);
    lemma_groups_of_groups_text(tail, true);
}

/// The two groups of an IPv6 address that the text `v4` of an IPv4 address
/// stands for: its first two numbers and its last two.
pub open spec fn ipv4_groups(v4: Seq<u8>) -> Seq<u16> {
    match spec_ipv4(v4) {
        Some(IpAddress::V4(a, b, c, d)) => seq![(a * 256 + b) as u16, (c * 256 + d) as u16],
        _ => Seq::empty(),
    }
}

/// From the text of groups with the text of an IPv4 address behind them
/// the groups are read again, and the two groups that the IPv4 address
/// stands for.
pub proof fn lemma_groups_of_text_with_ipv4(parts: Seq<Seq<u8>>, v4: Seq<u8>)
    requires
        all_hex_groups(parts),
        spec_ipv4(v4) is Some,
    ensures
        join(parts.push(v4), COLON).len() >= 1,
        join(parts.push(v4), COLON)[0] != COLON,
        forall|k: int| !double_colon_at(join(parts.push(v4), COLON), k),
        groups_of_text(join(parts.push(v4), COLON), true) == Some(
            hex_groups(parts).unwrap() + ipv4_groups(v4),
        ),
{
    let fields = parts.push(v4);
    lemma_hex_groups_are_fields(parts);
    lemma_ipv4_text_is_field(v4);
    assert(none_empty(fields)) by {
        assert forall|i: int| 0 <= i < fields.len() implies (#[trigger] fields[i]).len()
            >= 1 by {
            if i < parts.len() {
                assert(fields[i] == parts[i]);
            }
        }
    }
    assert(free_of(fields, COLON)) by {
        assert forall|i: int, j: int|
            0 <= i < fields.len() && 0 <= j < fields[i].len() implies #[trigger] fields[i][j]
            != COLON by {
            if i < parts.len() {
                assert(fields[i][j] == parts[i][j]);
            }
        }
    }
    lemma_fields_text_has_no_double_colon(fields);
    lemma_split_of_join(fields, COLON);
    assert(fields.drop_last() =~= parts);
    assert(fields.last() == v4);
    let g = hex_groups(parts).unwrap();
    match spec_ipv4(v4) {
        Some(IpAddress::V4(a, b, c, d)) => {
            assert(g.push((a * 256 + b) as u16).push((c * 256 + d) as u16) =~= g + ipv4_groups(
                v4,
            ));
        },
        _ => {},
    }
}

/// Six texts of groups and the text of an IPv4 address, with colons
/// between them, are the text of the IPv6 address with these groups and
/// the two that the IPv4 address stands for.
pub proof fn lemma_ipv6_of_groups_and_ipv4(parts: Seq<Seq<u8>>, v4: Seq<u8>)
    requires
        parts.len() == 6,
        all_hex_groups(parts),
        spec_ipv4(v4) is Some,
    ensures
        spec_ipv6_groups(join(parts.push(v4), COLON)) == Some(
            hex_groups(parts).unwrap() + ipv4_groups(v4),
        ),
{
    lemma_groups_of_text_with_ipv4(parts, v4);
    let s = join(parts.push(v4), COLON);
    assert(forall|k: int| !first_double_colon(s, k));
}

/// At most five texts of groups and, behind them, the text of an IPv4
/// address, with `::` between two of them or before the first, are the
/// text of the IPv6 address that has the groups before the `::` at its
/// start, those behind it and the two that the IPv4 address stands for at
/// its end, and groups of zero in the place of the `::`.
pub proof fn lemma_ipv6_of_compressed_and_ipv4(head: Seq<Seq<u8>>, tail: Seq<Seq<u8>>, v4: Seq<u8>)
    requires
        all_hex_groups(head),
        all_hex_groups(tail),
        spec_ipv4(v4) is Some,
        head.len() + tail.len() <= 5,
    ensures
        spec_ipv6_groups(groups_text(head) + seq![COLON, COLON] + join(tail.push(v4), COLON))
            == Some(
            hex_groups(head).unwrap() + Seq::new(
                (6 - head.len() - tail.len()) as nat,
                |i: int| 0u16,
            ) + (hex_groups(tail).unwrap() + ipv4_groups(v4)),
        ),
{
    let h = groups_text(head);
    let t = join(tail.push(v4), COLON);
    let s = h + seq![COLON, COLON] + t;
    let k = h.len() as int;
    lemma_hex_groups_are_fields(head);
    if head.len() > 0 {
        lemma_fields_text_has_no_double_colon(head);
    }
    lemma_groups_of_text_with_ipv4(tail, v4);
    assert(s[k] == COLON && s[k + 1] == COLON);
    assert forall|j: int| 0 <= j < k implies !double_colon_at(s, j) by {
        if j + 1 < k {
            assert(s[j] == h[j] && s[j + 1] == h[j + 1]);
            assert(!double_colon_at(h, j));
        } else {
            assert(s[j] == h[k - 1]);
        }
    }
    assert(first_double_colon(s, k));
    assert(forall|j: int| first_double_colon(s, j) ==> j == k);
    assert(s.take(k) =~= h);
    assert(s.skip(k + 2) =~= t);
    lemma_groups_of_groups_text(head, false);
    assert(ipv4_groups(v4).len() == 2);
}

} // verus!
