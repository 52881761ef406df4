//! Equality of graphs up to the integers each side uses for its phrases:
//! phrases are matched by cloud, texts and responses compared as multisets.

use vstd::prelude::*;
use crate::cloud::string_views;
use crate::database::{
    Database, GraphView, cloud_of_index, index_of_cloud, find_index,
    lemma_index_slot,
};
use crate::persona::GeneralPerson;

verus! {

broadcast use vstd::seq_lib::group_to_multiset_ensures, vstd::multiset::group_multiset_axioms;

/// The phrase of `b` that matches phrase `k` of `a`: the one `b` indexes
/// under the cloud that `a` gives for `k`.
pub open spec fn partner(a: GraphView, b: GraphView, k: usize) -> Option<usize> {
    match cloud_of_index(a.indices, k) {
        Some(c) => index_of_cloud(b.indices, c),
        None => None,
    }
}

/// The responses `rs` of `a` with their targets moved to their partners in `b`.
pub open spec fn mapped_responses(a: GraphView, b: GraphView, rs: Seq<(usize, GeneralPerson)>) -> Seq<
    (usize, GeneralPerson),
> {
    rs.map_values(|e: (usize, GeneralPerson)| (partner(a, b, e.0)->0, e.1))
}

/// Phrase `k` of `a` has a partner in `b` with the same texts, and the same
/// responses once their targets are moved to their partners, as multisets.
pub open spec fn phrase_matches(a: GraphView, b: GraphView, k: usize) -> bool {
    let rs = a.phrases[k as int].responses;
    &&& partner(a, b, k) is Some
    &&& partner(a, b, k)->0 < b.phrases.len()
    &&& a.phrases[k as int].texts.to_multiset() == b.phrases[partner(a, b, k)->0 as int].texts.to_multiset()
    &&& forall|e: int| 0 <= e < rs.len() ==> partner(a, b, (#[trigger] rs[e]).0) is Some
    &&& mapped_responses(a, b, rs).to_multiset() == b.phrases[partner(a, b, k)->0 as int].responses.to_multiset()
}

/// Two graphs are equal when their cloud indices have the same length and
/// every cloud of the first is known to the second, they have as many
/// phrases, and every phrase of the first matches its partner in the second.
pub open spec fn graphs_equal(a: GraphView, b: GraphView) -> bool {
    &&& a.indices.len() == b.indices.len()
    &&& forall|k: int| 0 <= k < a.indices.len() ==> index_of_cloud(b.indices, (#[trigger] a.indices[k]).0) is Some
    &&& a.phrases.len() == b.phrases.len()
    &&& forall|k: usize| k < a.phrases.len() ==> #[trigger] phrase_matches(a, b, k)
}

/// How many of the texts `v` are `x`.
fn count_texts(v: &Vec<String>, x: &String) -> (n: usize)
    ensures
        n == string_views(v@).to_multiset().count(x@),
{
    let ghost s = string_views(v@);
    let mut n: usize = 0;
    let mut i: usize = 0;
    assert(s.take(0) =~= Seq::<Seq<char>>::empty());
    while i < v.len()
        invariant
            i <= v.len(),
            s == string_views(v@),
            n <= i,
            n == s.take(i as int).to_multiset().count(x@),
        decreases v.len() - i,
    {
        assert(s.take(i + 1) =~= s.take(i as int).push(s[i as int]));
        if v[i] == *x {
            n = n + 1;
        }
        i = i + 1;
    }
    assert(s.take(i as int) =~= s);
    n
}

/// How many of the responses `v` are `x`.
fn count_responses(v: &Vec<(usize, GeneralPerson)>, x: (usize, GeneralPerson)) -> (n: usize)
    ensures
        n == v@.to_multiset().count(x),
{
    let mut n: usize = 0;
    let mut i: usize = 0;
    assert(v@.take(0) =~= Seq::<(usize, GeneralPerson)>::empty());
    while i < v.len()
        invariant
            i <= v.len(),
            n <= i,
            n == v@.take(i as int).to_multiset().count(x),
        decreases v.len() - i,
    {
        assert(v@.take(i + 1) =~= v@.take(i as int).push(v@[i as int]));
        if v[i].0 == x.0 && v[i].1 == x.1 {
            n = n + 1;
        }
        i = i + 1;
    }
    assert(v@.take(i as int) =~= v@);
    n
}

/// Whether `x` has an entry in the count list `r`.
pub open spec fn counted(r: Seq<(String, usize)>, x: Seq<char>) -> bool {
    exists|k: int| 0 <= k < r.len() && r[k].0@ == x
}

/// The distinct texts of `vec`, in the order they first appear, each with
/// the number of times it occurs.
pub fn vec_to_multiset(vec: &Vec<String>) -> (r: Vec<(String, usize)>)
    ensures
        forall|a: int, b: int| 0 <= a < b < r.len() ==> (#[trigger] r@[a]).0@ != (#[trigger] r@[b]).0@,
        forall|k: int|
            0 <= k < r.len() ==> (#[trigger] r@[k]).1 == string_views(vec@).to_multiset().count(r@[k].0@),
        forall|k: int| 0 <= k < r.len() ==> string_views(vec@).contains((#[trigger] r@[k]).0@),
        forall|i: int| 0 <= i < vec.len() ==> counted(r@, (#[trigger] vec@[i])@),
{
    let ghost s = string_views(vec@);
    let mut r: Vec<(String, usize)> = Vec::new();
    let mut i: usize = 0;
    while i < vec.len()
        invariant
            s == string_views(vec@),
            i <= vec.len(),
            forall|a: int, b: int| 0 <= a < b < r.len() ==> (#[trigger] r@[a]).0@ != (#[trigger] r@[b]).0@,
            forall|k: int| 0 <= k < r.len() ==> (#[trigger] r@[k]).1 == s.to_multiset().count(r@[k].0@),
            forall|k: int| 0 <= k < r.len() ==> s.contains((#[trigger] r@[k]).0@),
            forall|q: int| 0 <= q < i ==> counted(r@, (#[trigger] vec@[q])@),
        decreases vec.len() - i,
    {
        let mut k: usize = 0;
        while k < r.len() && r[k].0 != vec[i]
            invariant
                i < vec.len(),
                s == string_views(vec@),
                forall|a: int, b: int| 0 <= a < b < r.len() ==> (#[trigger] r@[a]).0@ != (#[trigger] r@[b]).0@,
                forall|k2: int| 0 <= k2 < r.len() ==> (#[trigger] r@[k2]).1 == s.to_multiset().count(r@[k2].0@),
                forall|k2: int| 0 <= k2 < r.len() ==> s.contains((#[trigger] r@[k2]).0@),
                forall|q: int| 0 <= q < i ==> counted(r@, (#[trigger] vec@[q])@),
                k <= r.len(),
                forall|q: int| 0 <= q < k ==> (#[trigger] r@[q]).0@ != vec@[i as int]@,
            decreases r.len() - k,
        {
            k = k + 1;
        }
        if k == r.len() {
            let n = count_texts(vec, &vec[i]);
            let ghost old_r = r@;
            r.push((vec[i].clone(), n));
            proof {
                assert(s[i as int] == vec@[i as int]@);
                assert forall|a: int, b: int| 0 <= a < b < r.len() implies (#[trigger] r@[a]).0@ != (#[trigger] r@[b]).0@ by {
                    if b == r.len() - 1 {
                        assert(r@[a] == old_r[a]);
                    } else {
                        assert(r@[a] == old_r[a]);
                        assert(r@[b] == old_r[b]);
                    }
                }
                assert forall|k2: int| 0 <= k2 < r.len() implies (#[trigger] r@[k2]).1 == s.to_multiset().count(r@[k2].0@) && s.contains(r@[k2].0@) by {
                    if k2 < old_r.len() {
                        assert(r@[k2] == old_r[k2]);
                    }
                }
                assert forall|q: int| 0 <= q < i + 1 implies counted(r@, (#[trigger] vec@[q])@) by {
                    if q < i {
                        let k2 = choose|k2: int| 0 <= k2 < old_r.len() && old_r[k2].0@ == vec@[q]@;
                        assert(r@[k2] == old_r[k2]);
                    } else {
                        assert(r@[old_r.len() as int].0@ == vec@[q]@);
                    }
                }
            }
        } else {
            assert(r@[k as int].0@ == vec@[i as int]@);
            assert(counted(r@, vec@[i as int]@));
        }
        i = i + 1;
    }
    r
}

/// Whether the two lists hold the same texts as multisets.
fn same_texts(a: &Vec<String>, b: &Vec<String>) -> (r: bool)
    ensures
        r == (string_views(a@).to_multiset() == string_views(b@).to_multiset()),
{
    let ghost sa = string_views(a@);
    let ghost sb = string_views(b@);
    let ma = vec_to_multiset(a);
    let mb = vec_to_multiset(b);
    let mut i: usize = 0;
    while i < ma.len()
        invariant
            i <= ma.len(),
            sa == string_views(a@),
            sb == string_views(b@),
            forall|k: int| 0 <= k < ma.len() ==> (#[trigger] ma@[k]).1 == sa.to_multiset().count(ma@[k].0@),
            forall|k: int| 0 <= k < i ==> sa.to_multiset().count((#[trigger] ma@[k]).0@) == sb.to_multiset().count(ma@[k].0@),
        decreases ma.len() - i,
    {
        if count_texts(b, &ma[i].0) != ma[i].1 {
            return false;
        }
        i = i + 1;
    }
    let mut i: usize = 0;
    while i < mb.len()
        invariant
            i <= mb.len(),
            sa == string_views(a@),
            sb == string_views(b@),
            forall|k: int| 0 <= k < mb.len() ==> (#[trigger] mb@[k]).1 == sb.to_multiset().count(mb@[k].0@),
            forall|k: int| 0 <= k < i ==> sa.to_multiset().count((#[trigger] mb@[k]).0@) == sb.to_multiset().count(mb@[k].0@),
        decreases mb.len() - i,
    {
        if count_texts(a, &mb[i].0) != mb[i].1 {
            return false;
        }
        i = i + 1;
    }
    proof {
        assert forall|x: Seq<char>| sa.to_multiset().count(x) == sb.to_multiset().count(x) by {
            if sa.contains(x) {
                let q = choose|q: int| 0 <= q < sa.len() && sa[q] == x;
                assert(sa[q] == a@[q]@);
                assert(counted(ma@, a@[q]@));
                let k = choose|k: int| 0 <= k < ma.len() && ma@[k].0@ == a@[q]@;
                assert(sa.to_multiset().count(ma@[k].0@) == sb.to_multiset().count(ma@[k].0@));
            } else if sb.contains(x) {
                let q = choose|q: int| 0 <= q < sb.len() && sb[q] == x;
                assert(sb[q] == b@[q]@);
                assert(counted(mb@, b@[q]@));
                let k = choose|k: int| 0 <= k < mb.len() && mb@[k].0@ == b@[q]@;
                assert(sa.to_multiset().count(mb@[k].0@) == sb.to_multiset().count(mb@[k].0@));
            }
        }
        assert(sa.to_multiset() =~= sb.to_multiset());
    }
    true
}

/// Whether the two lists hold the same responses as multisets.
fn same_responses(a: &Vec<(usize, GeneralPerson)>, b: &Vec<(usize, GeneralPerson)>) -> (r: bool)
    ensures
        r == (a@.to_multiset() == b@.to_multiset()),
{
    let mut i: usize = 0;
    while i < a.len()
        invariant
            i <= a.len(),
            forall|k: int| 0 <= k < i ==> a@.to_multiset().count(#[trigger] a@[k]) == b@.to_multiset().count(a@[k]),
        decreases a.len() - i,
    {
        if count_responses(a, a[i]) != count_responses(b, a[i]) {
            return false;
        }
        i = i + 1;
    }
    let mut i: usize = 0;
    while i < b.len()
        invariant
            i <= b.len(),
            forall|k: int| 0 <= k < a.len() ==> a@.to_multiset().count(#[trigger] a@[k]) == b@.to_multiset().count(a@[k]),
            forall|k: int| 0 <= k < i ==> a@.to_multiset().count(#[trigger] b@[k]) == b@.to_multiset().count(b@[k]),
        decreases b.len() - i,
    {
        if count_responses(a, b[i]) != count_responses(b, b[i]) {
            return false;
        }
        i = i + 1;
    }
    proof {
        assert forall|x: (usize, GeneralPerson)| a@.to_multiset().count(x) == b@.to_multiset().count(x) by {
            if a@.contains(x) {
                let k = choose|k: int| 0 <= k < a@.len() && a@[k] == x;
                assert(a@.to_multiset().count(a@[k]) == b@.to_multiset().count(a@[k]));
            } else if b@.contains(x) {
                let k = choose|k: int| 0 <= k < b@.len() && b@[k] == x;
                assert(a@.to_multiset().count(b@[k]) == b@.to_multiset().count(b@[k]));
            }
        }
        assert(a@.to_multiset() =~= b@.to_multiset());
    }
    true
}

impl Database {
    /// The phrase of `other` that matches phrase `k` of this graph.
    fn partner(&self, other: &Database, k: usize) -> (r: Option<usize>)
        ensures
            r == partner(self@, other@, k),
    {
        proof {
            lemma_index_slot(self@.indices, k);
        }
        match find_index(&self.phrase_indices, k) {
            Some(s) => {
                proof {
                    assert(self.phrase_indices@.len() == self.phrase_indices.len());
                    assert(self@.indices[s as int] == (self.phrase_indices@[s as int].0@, self.phrase_indices@[s as int].1));
                }
                other.find_cloud(&self.phrase_indices[s].0)
            },
            None => None,
        }
    }

    /// Whether phrase `k` of this graph matches its partner in `other`.
    fn phrase_matches(&self, other: &Database, k: usize) -> (r: bool)
        requires
            k < self@.phrases.len(),
        ensures
            r == phrase_matches(self@, other@, k),
    {
        let ghost a = self@;
        let ghost b = other@;
        let p = match self.partner(other, k) {
            Some(p) => p,
            None => {
                return false;
            },
        };
        if p >= other.phrases.len() {
            return false;
        }
        if !same_texts(&self.phrases[k].texts, &other.phrases[p].texts) {
            return false;
        }
        let rs = &self.phrases[k].responses;
        let mut mapped: Vec<(usize, GeneralPerson)> = Vec::new();
        let mut e: usize = 0;
        while e < rs.len()
            invariant
                a == self@,
                b == other@,
                k < a.phrases.len(),
                rs@ == a.phrases[k as int].responses,
                e <= rs.len(),
                mapped@ == mapped_responses(a, b, rs@.take(e as int)),
                forall|q: int| 0 <= q < e ==> partner(a, b, (#[trigger] rs@[q]).0) is Some,
            decreases rs.len() - e,
        {
            let (t, who) = rs[e];
            match self.partner(other, t) {
                Some(x) => {
                    mapped.push((x, who));
                    assert(mapped@ =~= mapped_responses(a, b, rs@.take(e + 1)));
                },
                None => {
                    assert(partner(a, b, rs@[e as int].0) is None);
                    return false;
                },
            }
            e = e + 1;
        }
        assert(rs@.take(e as int) =~= rs@);
        same_responses(&mapped, &other.phrases[p].responses)
    }

    /// Whether the two graphs are equal up to the integers that name their
    /// phrases.
    pub fn same_graph(&self, other: &Database) -> (r: bool)
        ensures
            r == graphs_equal(self@, other@),
    {
        let ghost a = self@;
        let ghost b = other@;
        if self.phrase_indices.len() != other.phrase_indices.len() {
            return false;
        }
        let mut k: usize = 0;
        while k < self.phrase_indices.len()
            invariant
                a == self@,
                b == other@,
                k <= self.phrase_indices.len(),
                forall|q: int| 0 <= q < k ==> index_of_cloud(b.indices, (#[trigger] a.indices[q]).0) is Some,
            decreases self.phrase_indices.len() - k,
        {
            assert(a.indices[k as int].0 == self.phrase_indices@[k as int].0@);
            if other.find_cloud(&self.phrase_indices[k].0).is_none() {
                return false;
            }
            k = k + 1;
        }
        if self.phrases.len() != other.phrases.len() {
            return false;
        }
        let mut k: usize = 0;
        while k < self.phrases.len()
            invariant
                a == self@,
                b == other@,
                k <= self.phrases.len(),
                forall|q: usize| q < k ==> #[trigger] phrase_matches(a, b, q),
            decreases self.phrases.len() - k,
        {
            if !self.phrase_matches(other, k) {
                return false;
            }
            k = k + 1;
        }
        true
    }
}

impl PartialEq for Database {
    fn eq(&self, other: &Database) -> (r: bool) {
        self.same_graph(other)
    }
}

impl vstd::std_specs::cmp::PartialEqSpecImpl for Database {
    open spec fn obeys_eq_spec() -> bool {
        true
    }

    open spec fn eq_spec(&self, other: &Database) -> bool {
        graphs_equal(self@, other@)
    }
}

} // verus!
