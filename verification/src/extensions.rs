//! The extension attributes of a candidate: a map from names to values,
//! both of them byte strings.

use crate::bytes::same_bytes;
use vstd::prelude::*;
use vstd::set_lib::lemma_subset_equality;
use vstd::slice::slice_to_vec;

verus! {

/// The map that the pairs `p` make when they are entered one after the
/// other: of two pairs with the same name, the later one stays.
pub open spec fn map_of_pairs(p: Seq<(Seq<u8>, Seq<u8>)>) -> Map<Seq<u8>, Seq<u8>>
    decreases p.len(),
{
    if p.len() == 0 {
        Map::empty()
    } else {
        map_of_pairs(p.drop_last()).insert(p.last().0, p.last().1)
    }
}

/// No two pairs of `p` have the same name.
pub open spec fn distinct_names(p: Seq<(Seq<u8>, Seq<u8>)>) -> bool {
    forall|i: int, j: int| 0 <= i < j < p.len() ==> (#[trigger] p[i]).0 != (#[trigger] p[j]).0
}

/// The names of the map are the names of the pairs. Where the names are
/// distinct, each pair's name is mapped to its value, and the map has as
/// many entries as there are pairs.
pub proof fn lemma_map_of_pairs(p: Seq<(Seq<u8>, Seq<u8>)>)
    ensures
        map_of_pairs(p).dom().finite(),
        forall|k: Seq<u8>| #[trigger]
            map_of_pairs(p).contains_key(k) <==> exists|i: int|
                0 <= i < p.len() && (#[trigger] p[i]).0 == k,
        distinct_names(p) ==> map_of_pairs(p).len() == p.len(),
        distinct_names(p) ==> forall|i: int|
            0 <= i < p.len() ==> map_of_pairs(p)[(#[trigger] p[i]).0] == p[i].1,
    decreases p.len(),
{
    if p.len() > 0 {
        let q = p.drop_last();
        let last = p.last();
        lemma_map_of_pairs(q);
        let m = map_of_pairs(p);
        assert(m == map_of_pairs(q).insert(last.0, last.1));
        assert forall|k: Seq<u8>| #[trigger] m.contains_key(k) <==> exists|i: int|
            0 <= i < p.len() && (#[trigger] p[i]).0 == k by {
            if m.contains_key(k) {
                if k == last.0 {
                    assert(p[p.len() - 1].0 == k);
                } else {
                    let i = choose|i: int| 0 <= i < q.len() && (#[trigger] q[i]).0 == k;
                    assert(p[i].0 == k);
                }
            }
            if exists|i: int| 0 <= i < p.len() && (#[trigger] p[i]).0 == k {
                let i = choose|i: int| 0 <= i < p.len() && (#[trigger] p[i]).0 == k;
                if i < q.len() {
                    assert(q[i].0 == k);
                }
            }
        }
        if distinct_names(p) {
            assert(distinct_names(q)) by {
                assert forall|i: int, j: int| 0 <= i < j < q.len() implies (#[trigger] q[i]).0 != (
                #[trigger] q[j]).0 by {
                    assert(q[i] == p[i] && q[j] == p[j]);
                }
            }
            assert(!map_of_pairs(q).contains_key(last.0)) by {
                if map_of_pairs(q).contains_key(last.0) {
                    let i = choose|i: int| 0 <= i < q.len() && (#[trigger] q[i]).0 == last.0;
                    assert(p[i].0 == p[p.len() - 1].0);
                }
            }
            assert forall|i: int| 0 <= i < p.len() implies m[(#[trigger] p[i]).0] == p[i].1 by {
                if i < q.len() {
                    assert(q[i] == p[i]);
                    assert(p[i].0 != p[p.len() - 1].0);
                }
            }
        }
    }
}

/// Some pair of `p` has the name `key`.
pub open spec fn has_name(p: Seq<(Seq<u8>, Seq<u8>)>, key: Seq<u8>) -> bool {
    exists|i: int| 0 <= i < p.len() && (#[trigger] p[i]).0 == key
}

/// Where a pair with the name `key` stands in `p`.
pub open spec fn index_of_name(p: Seq<(Seq<u8>, Seq<u8>)>, key: Seq<u8>) -> int {
    choose|i: int| 0 <= i < p.len() && (#[trigger] p[i]).0 == key
}

/// The entries after `value` was entered under `key`: the new value stands
/// in the place of the old one where the name was there, and a new entry
/// stands behind the others where it was not.
pub open spec fn entered(p: Seq<(Seq<u8>, Seq<u8>)>, key: Seq<u8>, value: Seq<u8>) -> Seq<
    (Seq<u8>, Seq<u8>),
> {
    if has_name(p, key) {
        p.update(index_of_name(p, key), (key, value))
    } else {
        p.push((key, value))
    }
}

/// The entries after the pairs `p` were entered one after the other.
pub open spec fn entered_all(p: Seq<(Seq<u8>, Seq<u8>)>) -> Seq<(Seq<u8>, Seq<u8>)>
    decreases p.len(),
{
    if p.len() == 0 {
        Seq::empty()
    } else {
        entered(entered_all(p.drop_last()), p.last().0, p.last().1)
    }
}

/// The contents of the names and values of `entries`.
pub open spec fn pairs_of(entries: Seq<(Vec<u8>, Vec<u8>)>) -> Seq<(Seq<u8>, Seq<u8>)> {
    Seq::new(entries.len(), |i: int| (entries[i].0@, entries[i].1@))
}

/// A name has the value of the last pair in which it occurs.
pub proof fn lemma_last_pair_wins(p: Seq<(Seq<u8>, Seq<u8>)>, j: int)
    requires
        0 <= j < p.len(),
        forall|i: int| j < i < p.len() ==> (#[trigger] p[i]).0 != p[j].0,
    ensures
        map_of_pairs(p).contains_key(p[j].0),
        map_of_pairs(p)[p[j].0] == p[j].1,
    decreases p.len(),
{
    if j < p.len() - 1 {
        let q = p.drop_last();
        assert(q[j] == p[j]);
        assert forall|i: int| j < i < q.len() implies (#[trigger] q[i]).0 != q[j].0 by {
            assert(q[i] == p[i]);
        }
        lemma_last_pair_wins(q, j);
        assert(p[p.len() - 1].0 != p[j].0);
    }
}

/// The extension attributes of a candidate. No name occurs twice: a value
/// that is entered under a name that is there already takes the place of
/// the earlier one. The entries are kept in the order in which their names
/// were first entered.
#[derive(Debug)]
pub struct Extensions {
    entries: Vec<(Vec<u8>, Vec<u8>)>,
}

impl View for Extensions {
    type V = Map<Seq<u8>, Seq<u8>>;

    closed spec fn view(&self) -> Map<Seq<u8>, Seq<u8>> {
        map_of_pairs(self.pairs())
    }
}

impl Extensions {
    /// The entries in the order in which their names were first entered.
    pub closed spec fn pairs(&self) -> Seq<(Seq<u8>, Seq<u8>)> {
        pairs_of(self.entries@)
    }

    #[verifier::type_invariant]
    spec fn well_formed(&self) -> bool {
        distinct_names(self.pairs())
    }

    /// A map without entries.
    pub fn new() -> (r: Self)
        ensures
            r@ == Map::<Seq<u8>, Seq<u8>>::empty(),
            r.pairs() == Seq::<(Seq<u8>, Seq<u8>)>::empty(),
    {
        let r = Extensions { entries: Vec::new() };
        assert(r.pairs() =~= Seq::empty());
        r
    }

    /// The number of entries.
    pub fn len(&self) -> (r: usize)
        ensures
            r == self@.len(),
    {
        proof {
            use_type_invariant(self);
            lemma_map_of_pairs(self.pairs());
        }
        self.entries.len()
    }

    /// Whether the map has no entries.
    pub fn is_empty(&self) -> (r: bool)
        ensures
            r == (self@.len() == 0),
    {
        proof {
            use_type_invariant(self);
            lemma_map_of_pairs(self.pairs());
        }
        self.entries.len() == 0
    }

    /// The name and the value of the entry at `index`, counted in the order
    /// in which the names were first entered.
    pub fn entry(&self, index: usize) -> (r: Option<(&Vec<u8>, &Vec<u8>)>)
        ensures
            self@ == map_of_pairs(self.pairs()),
            distinct_names(self.pairs()),
            self.pairs().len() == self@.len(),
            r is Some <==> index < self.pairs().len(),
            r matches Some((name, value)) ==> (name@, value@) == self.pairs()[index as int],
    {
        proof {
            use_type_invariant(self);
            lemma_map_of_pairs(self.pairs());
        }
        if index < self.entries.len() {
            Some((&self.entries[index].0, &self.entries[index].1))
        } else {
            None
        }
    }

    /// Where `key` stands among the entries.
    fn position(&self, key: &[u8]) -> (r: Option<usize>)
        ensures
            r matches Some(i) ==> i < self.pairs().len() && self.pairs()[i as int].0 == key@,
            r is None ==> forall|i: int| 0 <= i < self.pairs().len() ==> (#[trigger] self.pairs()[i]).0 != key@,
    {
        let mut i: usize = 0;
        while i < self.entries.len()
            invariant
                i <= self.entries.len(),
                self.pairs().len() == self.entries@.len(),
                forall|k: int| 0 <= k < i ==> (#[trigger] self.pairs()[k]).0 != key@,
            decreases self.entries.len() - i,
        {
            if same_bytes(self.entries[i].0.as_slice(), key) {
                return Some(i);
            }
            i += 1;
        }
        None
    }

    /// The value that is entered under `key`.
    pub fn get(&self, key: &Vec<u8>) -> (r: Option<&Vec<u8>>)
        ensures
            r is Some <==> self@.contains_key(key@),
            r matches Some(value) ==> value@ == self@[key@],
    {
        proof {
            use_type_invariant(self);
            lemma_map_of_pairs(self.pairs());
        }
        match self.position(key.as_slice()) {
            Some(i) => {
                assert(self.pairs()[i as int].0 == key@);
                Some(&self.entries[i].1)
            },
            None => None,
        }
    }

    /// Enter `value` under `key`, in place of the value that was there, if
    /// there was one.
    pub fn insert(&mut self, key: Vec<u8>, value: Vec<u8>)
        ensures
            final(self)@ == old(self)@.insert(key@, value@),
            final(self).pairs() == entered(old(self).pairs(), key@, value@),
    {
        proof {
            use_type_invariant(&*self);
            lemma_map_of_pairs(self.pairs());
        }
        let ghost before = self.pairs();
        let found = self.position(key.as_slice());
        let mut entries: Vec<(Vec<u8>, Vec<u8>)> = Vec::new();
        assert(distinct_names(pairs_of(entries@)));
        std::mem::swap(&mut self.entries, &mut entries);
        assert(pairs_of(entries@) == before);
        match found {
            Some(i) => {
                entries.set(i, (key, value));
                proof {
                    lemma_replaced(before, i as int, key@, value@);
                    assert(pairs_of(entries@) =~= before.update(i as int, (key@, value@)));
                    assert(before[i as int].0 == key@);
                    assert(has_name(before, key@));
                    let j = index_of_name(before, key@);
                    assert(before[j].0 == before[i as int].0);
                    assert(j == i);
                }
            },
            None => {
                entries.push((key, value));
                proof {
                    let after = pairs_of(entries@);
                    assert(after =~= before.push((key@, value@)));
                    assert(after.drop_last() =~= before);
                    assert(!has_name(before, key@));
                    assert forall|a: int, b: int| 0 <= a < b < after.len() implies (
                    #[trigger] after[a]).0 != (#[trigger] after[b]).0 by {
                        assert(after[a] == before[a]);
                        if b < before.len() {
                            assert(after[b] == before[b]);
                        }
                    }
                }
            },
        }
        std::mem::swap(&mut self.entries, &mut entries);
    }
}

/// To put a new value in the place of the value of one pair is to enter
/// the new value under that pair's name.
pub proof fn lemma_replaced(before: Seq<(Seq<u8>, Seq<u8>)>, i: int, key: Seq<u8>, value: Seq<u8>)
    requires
        distinct_names(before),
        0 <= i < before.len(),
        before[i].0 == key,
    ensures
        distinct_names(before.update(i, (key, value))),
        map_of_pairs(before.update(i, (key, value))) == map_of_pairs(before).insert(key, value),
{
    let after = before.update(i, (key, value));
    assert forall|a: int, b: int| 0 <= a < b < after.len() implies (#[trigger] after[a]).0 != (
    #[trigger] after[b]).0 by {
        assert(after[a].0 == before[a].0);
        assert(after[b].0 == before[b].0);
    }
    lemma_map_of_pairs(before);
    lemma_map_of_pairs(after);
    let m = map_of_pairs(before).insert(key, value);
    assert forall|k: Seq<u8>| map_of_pairs(after).contains_key(k) implies (#[trigger] m.contains_key(
        k,
    )) by {
        let j = choose|j: int| 0 <= j < after.len() && (#[trigger] after[j]).0 == k;
        assert(before[j].0 == k);
    }
    assert forall|k: Seq<u8>| #[trigger] m.contains_key(k) implies map_of_pairs(after).contains_key(
        k,
    ) && map_of_pairs(after)[k] == m[k] by {
        if k == key {
            assert(after[i].0 == k);
        } else {
            let j = choose|j: int| 0 <= j < before.len() && (#[trigger] before[j]).0 == k;
            assert(after[j] == before[j]);
        }
    }
    assert(map_of_pairs(after) =~= m);
}

impl Clone for Extensions {
    fn clone(&self) -> (r: Self)
        ensures
            r@ == self@,
            r.pairs() == self.pairs(),
    {
        proof {
            use_type_invariant(self);
        }
        let mut entries: Vec<(Vec<u8>, Vec<u8>)> = Vec::new();
        let mut i: usize = 0;
        while i < self.entries.len()
            invariant
                i <= self.entries.len(),
                pairs_of(entries@) == pairs_of(self.entries@).take(i as int),
            decreases self.entries.len() - i,
        {
            let name = slice_to_vec(self.entries[i].0.as_slice());
            let value = slice_to_vec(self.entries[i].1.as_slice());
            let ghost copied = pairs_of(entries@);
            entries.push((name, value));
            assert(pairs_of(entries@) =~= copied.push((name@, value@)));
            assert(pairs_of(self.entries@)[i as int] == (name@, value@));
            i += 1;
            assert(pairs_of(entries@) =~= pairs_of(self.entries@).take(i as int));
        }
        assert(pairs_of(self.entries@).take(i as int) == pairs_of(self.entries@));
        Extensions { entries }
    }
}

impl PartialEq for Extensions {
    fn eq(&self, other: &Self) -> (r: bool) {
        proof {
            use_type_invariant(self);
            use_type_invariant(other);
            lemma_map_of_pairs(self.pairs());
            lemma_map_of_pairs(other.pairs());
        }
        if self.entries.len() != other.entries.len() {
            return false;
        }
        let mut i: usize = 0;
        while i < self.entries.len()
            invariant
                i <= self.entries.len(),
                self.pairs().len() == self.entries@.len(),
                forall|k: int|
                    0 <= k < i ==> other@.contains_key((#[trigger] self.pairs()[k]).0)
                        && other@[self.pairs()[k].0] == self.pairs()[k].1,
            decreases self.entries.len() - i,
        {
            proof {
                use_type_invariant(self);
                lemma_map_of_pairs(self.pairs());
                assert(self@.contains_key(self.pairs()[i as int].0));
                assert(self@[self.pairs()[i as int].0] == self.pairs()[i as int].1);
            }
            match other.get(&self.entries[i].0) {
                Some(value) => {
                    if !same_bytes(value.as_slice(), self.entries[i].1.as_slice()) {
                        return false;
                    }
                },
                None => {
                    return false;
                },
            }
            i += 1;
        }
        proof {
            use_type_invariant(self);
            use_type_invariant(other);
            lemma_map_of_pairs(self.pairs());
            lemma_map_of_pairs(other.pairs());
            assert forall|k: Seq<u8>| self@.contains_key(k) implies other@.contains_key(k)
                && other@[k] == self@[k] by {
                let j = choose|j: int|
                    0 <= j < self.pairs().len() && (#[trigger] self.pairs()[j]).0 == k;
                assert(other@.contains_key(self.pairs()[j].0));
            }
            assert(self@.dom().subset_of(other@.dom()));
            lemma_subset_equality(self@.dom(), other@.dom());
            assert(self@ =~= other@);
        }
        true
    }
}

impl vstd::std_specs::cmp::PartialEqSpecImpl for Extensions {
    open spec fn obeys_eq_spec() -> bool {
        true
    }

    open spec fn eq_spec(&self, other: &Self) -> bool {
        self@ == other@
    }
}

impl Eq for Extensions {

}

} // verus!
