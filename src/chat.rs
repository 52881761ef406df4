//! The chat walker: a cursor into the graph that offers a few replies, drawn
//! by weight without replacement, and records each turn back into the graph.

use vstd::prelude::*;
use rand::Rng;
use crate::cloud::{cloud_of_text, string_views};
use crate::database::{
    Database, GraphView, insert_texts_spec, insert_responses_spec, grows, lemma_grows_trans,
};
use crate::persona::{GeneralPerson, Person};

verus! {

/// How many replies the walker offers at most.
pub const CHAT_VARIANTS: usize = 4;

/// The sum of the weights.
pub open spec fn total(s: Seq<u128>) -> int
    decreases s.len(),
{
    if s.len() == 0 {
        0
    } else {
        total(s.drop_last()) + s.last()
    }
}

/// The sum of the edge weights.
pub open spec fn edge_total(ws: Seq<u32>) -> int
    decreases ws.len(),
{
    if ws.len() == 0 {
        0
    } else {
        edge_total(ws.drop_last()) + ws.last()
    }
}

/// The summed weight, `ws` giving one per edge, of the edges that lead to `t`.
pub open spec fn weight_to(edges: Seq<(usize, GeneralPerson)>, ws: Seq<u32>, t: usize) -> int
    decreases edges.len(),
{
    if edges.len() == 0 {
        0
    } else {
        weight_to(edges.drop_last(), ws, t) + if edges.last().0 == t {
            ws[edges.len() - 1] as int
        } else {
            0
        }
    }
}

pub proof fn lemma_total_zero(s: Seq<u128>)
    ensures
        total(s) >= 0,
        total(s) == 0 <==> forall|k: int| 0 <= k < s.len() ==> s[k] == 0,
    decreases s.len(),
{
    if s.len() > 0 {
        lemma_total_zero(s.drop_last());
        if total(s) == 0 {
            assert forall|k: int| 0 <= k < s.len() implies s[k] == 0 by {
                if k < s.len() - 1 {
                    assert(s[k] == s.drop_last()[k]);
                }
            }
        }
        if forall|k: int| 0 <= k < s.len() ==> s[k] == 0 {
            assert forall|k: int| 0 <= k < s.drop_last().len() implies s.drop_last()[k] == 0 by {
                assert(s[k] == 0);
            }
        }
    }
}

pub proof fn lemma_total_update(s: Seq<u128>, k: int, v: u128)
    requires
        0 <= k < s.len(),
    ensures
        total(s.update(k, v)) == total(s) - s[k] + v,
    decreases s.len(),
{
    let u = s.update(k, v);
    if k == s.len() - 1 {
        assert(u.drop_last() =~= s.drop_last());
    } else {
        assert(u.drop_last() =~= s.drop_last().update(k, v));
        lemma_total_update(s.drop_last(), k, v);
    }
}

pub proof fn lemma_total_swap_remove(s: Seq<u128>, i: int)
    requires
        0 <= i < s.len(),
    ensures
        total(s.update(i, s.last()).drop_last()) == total(s) - s[i],
{
    lemma_total_update(s, i, s.last());
    let u = s.update(i, s.last());
    assert(u.last() == s.last());
}

pub proof fn lemma_total_take(s: Seq<u128>, k: int)
    requires
        0 <= k < s.len(),
    ensures
        total(s.take(k + 1)) == total(s.take(k)) + s[k],
        total(s.take(k)) <= total(s) - s[k],
    decreases s.len(),
{
    assert(s.take(k + 1).drop_last() =~= s.take(k));
    if k < s.len() - 1 {
        lemma_total_take(s.drop_last(), k);
        assert(s.drop_last().take(k) =~= s.take(k));
        lemma_total_zero(s.drop_last());
    } else {
        assert(s.drop_last() =~= s.take(k));
    }
}

pub proof fn lemma_edge_total_bound(ws: Seq<u32>)
    ensures
        0 <= edge_total(ws) <= ws.len() * (u32::MAX as int),
    decreases ws.len(),
{
    if ws.len() > 0 {
        lemma_edge_total_bound(ws.drop_last());
    }
}

/// The position of the bucket that `u` falls in, buckets laid end to end with
/// the widths `weights`: the first whose running total exceeds `u`.
pub fn pick_weighted(weights: &Vec<u128>, u: u128) -> (r: usize)
    requires
        u < total(weights@),
        total(weights@) <= u128::MAX,
    ensures
        r < weights.len(),
        total(weights@.take(r as int)) <= u < total(weights@.take(r + 1)),
        weights@[r as int] > 0,
{
    let ghost s = weights@;
    let mut acc: u128 = 0;
    let mut i: usize = 0;
    assert(s.take(0) =~= Seq::<u128>::empty());
    while i < weights.len()
        invariant
            s == weights@,
            i <= weights.len(),
            acc == total(s.take(i as int)),
            acc <= u,
            u < total(s),
            total(s) <= u128::MAX,
        decreases weights.len() - i,
    {
        proof {
            lemma_total_take(s, i as int);
        }
        if u < acc + weights[i] {
            return i;
        }
        acc = acc + weights[i];
        i = i + 1;
    }
    assert(s.take(i as int) =~= s);
    i
}

/// `draw` gives, for every `n > 0`, a number below `n`.
pub open spec fn draws_below<R: Fn(u128) -> u128>(draw: R) -> bool {
    &&& forall|n: u128| n > 0 ==> #[trigger] draw.requires((n,))
    &&& forall|n: u128, x: u128| n > 0 && #[trigger] draw.ensures((n,), x) ==> x < n
}

/// Relies on `rand::thread_rng` and `Rng::gen_range`: a number drawn
/// uniformly from `0..n`; the call panics only on an empty range.
#[verifier::external_body]
fn draw_below(n: u128) -> (r: u128)
    requires
        n > 0,
    ensures
        r < n,
{
    rand::thread_rng().gen_range(0..n)
}

/// The targets of `edges`, each once in the order they first appear, with
/// the summed weight of the edges to each.
pub fn group_by_target(edges: &Vec<(usize, GeneralPerson)>, weights: &Vec<u32>) -> (r: (
    Vec<usize>,
    Vec<u128>,
))
    requires
        weights.len() == edges.len(),
    ensures
        r.0.len() == r.1.len(),
        r.0@.no_duplicates(),
        forall|k: int| 0 <= k < r.0.len() ==> r.1@[k] == weight_to(edges@, weights@, #[trigger] r.0@[k]),
        forall|t: usize| r.0@.contains(t) <==> exists|e: int| 0 <= e < edges.len() && edges@[e].0 == t,
        total(r.1@) == edge_total(weights@),
{
    let mut targets: Vec<usize> = Vec::new();
    let mut sums: Vec<u128> = Vec::new();
    let mut i: usize = 0;
    assert(weights@.take(0) =~= Seq::<u32>::empty());
    while i < edges.len()
        invariant
            weights.len() == edges.len(),
            i <= edges.len(),
            targets.len() == sums.len(),
            targets@.no_duplicates(),
            forall|k: int|
                0 <= k < targets.len() ==> sums@[k] == weight_to(edges@.take(i as int), weights@, #[trigger] targets@[k]),
            forall|t: usize|
                targets@.contains(t) <==> exists|e: int| 0 <= e < i && edges@[e].0 == t,
            total(sums@) == edge_total(weights@.take(i as int)),
            forall|k: int| 0 <= k < sums.len() ==> sums@[k] <= total(sums@),
            edge_total(weights@.take(i as int)) <= i * (u32::MAX as int),
        decreases edges.len() - i,
    {
        let (t, _) = edges[i];
        let w = weights[i];
        let ghost pre = edges@.take(i as int);
        let ghost pre1 = edges@.take(i + 1);
        proof {
            assert(pre1.drop_last() =~= pre);
            assert(weights@.take(i + 1).drop_last() =~= weights@.take(i as int));
            lemma_edge_total_bound(weights@.take(i + 1));
            assert forall|x: usize| weight_to(pre1, weights@, x) == weight_to(pre, weights@, x) + if x == t {
                w as int
            } else {
                0
            } by {}
            lemma_total_zero(sums@);
        }
        let mut k: usize = 0;
        while k < targets.len() && targets[k] != t
            invariant
                k <= targets.len(),
                forall|q: int| 0 <= q < k ==> targets@[q] != t,
            decreases targets.len() - k,
        {
            k = k + 1;
        }
        if k < targets.len() {
            let ghost old_sums = sums@;
            let v = sums[k] + w as u128;
            sums.set(k, v);
            proof {
                lemma_total_update(old_sums, k as int, v);
                assert(targets@[k as int] == t);
                lemma_total_zero(sums@);
                assert forall|q: int| 0 <= q < sums.len() implies sums@[q] <= total(sums@) by {
                    if q != k {
                        assert(sums@[q] == old_sums[q]);
                    }
                    lemma_sum_dominates(sums@, q);
                }
                assert forall|q: int| 0 <= q < targets.len() implies sums@[q] == weight_to(pre1, weights@, #[trigger] targets@[q]) by {
                    if q != k {
                        assert(targets@[q] != t) by {
                            assert(targets@.no_duplicates());
                        }
                    }
                }
                assert forall|x: usize| targets@.contains(x) implies exists|e: int| 0 <= e < i + 1 && edges@[e].0 == x by {
                    let e = choose|e: int| 0 <= e < i && edges@[e].0 == x;
                    assert(0 <= e < i + 1);
                }
            }
        } else {
            let ghost old_t = targets@;
            let ghost old_sums = sums@;
            targets.push(t);
            sums.push(w as u128);
            proof {
                assert(sums@.drop_last() =~= old_sums);
                lemma_total_zero(sums@);
                assert forall|q: int| 0 <= q < sums.len() implies sums@[q] <= total(sums@) by {
                    lemma_sum_dominates(sums@, q);
                }
                assert(!old_t.contains(t));
                assert forall|e: int| 0 <= e < i implies (#[trigger] edges@[e]).0 != t by {
                    if edges@[e].0 == t {
                        assert(old_t.contains(t));
                    }
                }
                assert forall|q: int| 0 <= q < targets.len() implies sums@[q] == weight_to(pre1, weights@, #[trigger] targets@[q]) by {
                    if q < old_t.len() {
                        assert(targets@[q] == old_t[q]);
                        assert(old_t[q] != t);
                    } else {
                        assert(weight_to(pre, weights@, t) == 0) by {
                            lemma_weight_absent(pre, weights@, t);
                        }
                    }
                }
                assert forall|x: usize| targets@.contains(x) implies exists|e: int| 0 <= e < i + 1 && edges@[e].0 == x by {
                    if x != t {
                        assert(old_t.contains(x));
                        let e = choose|e: int| 0 <= e < i && edges@[e].0 == x;
                        assert(0 <= e < i + 1);
                    } else {
                        assert(edges@[i as int].0 == x);
                    }
                }
                assert forall|x: usize| (exists|e: int| 0 <= e < i + 1 && edges@[e].0 == x) implies targets@.contains(x) by {
                    let e = choose|e: int| 0 <= e < i + 1 && edges@[e].0 == x;
                    if e < i {
                        assert(old_t.contains(x));
                        let q = choose|q: int| 0 <= q < old_t.len() && old_t[q] == x;
                        assert(targets@[q] == x);
                    } else {
                        assert(targets@[old_t.len() as int] == x);
                    }
                }
            }
        }
        proof {
            assert forall|x: usize| (exists|e: int| 0 <= e < i + 1 && edges@[e].0 == x) implies targets@.contains(x) by {
                let e = choose|e: int| 0 <= e < i + 1 && edges@[e].0 == x;
                if e < i {
                } else {
                    assert(edges@[i as int].0 == x);
                }
            }
        }
        i = i + 1;
    }
    assert(edges@.take(i as int) =~= edges@);
    assert(weights@.take(i as int) =~= weights@);
    (targets, sums)
}

/// The targets `qs` are what a draw without replacement may offer from edges
/// weighted `ws`: at most `CHAT_VARIANTS` of them, distinct, each of positive
/// summed weight; and fewer only when every target of positive weight is
/// among them.
pub open spec fn valid_offer(edges: Seq<(usize, GeneralPerson)>, ws: Seq<u32>, qs: Seq<usize>) -> bool {
    &&& qs.len() <= CHAT_VARIANTS
    &&& qs.no_duplicates()
    &&& forall|k: int| 0 <= k < qs.len() ==> weight_to(edges, ws, #[trigger] qs[k]) > 0
    &&& qs.len() < CHAT_VARIANTS ==> forall|t: usize| weight_to(edges, ws, t) > 0 ==> qs.contains(t)
}

/// `t` is one of `texts`, or, where there is none, the empty text.
pub open spec fn offers_text(texts: Seq<Seq<char>>, t: Seq<char>) -> bool {
    if texts.len() > 0 {
        texts.contains(t)
    } else {
        t == Seq::<char>::empty()
    }
}

/// The phrase the walker stands at: its cursor, or the root.
pub open spec fn cursor_of(c: Chat) -> usize {
    match c.query {
        Some(q) => q,
        None => 0,
    }
}

/// The walker's cursor and offered replies name phrases of `g`.
pub open spec fn chat_fits(c: Chat, g: GraphView) -> bool {
    &&& cursor_of(c) < g.phrases.len()
    &&& forall|k: int| 0 <= k < c.query_options.len() ==> (#[trigger] c.query_options@[k]) < g.phrases.len()
}

/// A walker over a graph: the phrase it stands at (none: the root), the
/// replies it offered last, and the speaker it talks as. The graph is handed
/// to each call.
#[derive(Clone, Debug)]
pub struct Chat {
    pub query_options: Vec<usize>,
    pub query: Option<usize>,
    pub person: GeneralPerson,
}

impl Chat {
    /// A walker at the root of `database`, which every graph has, speaking
    /// as `person` (none: a description that could not be read) on side
    /// `you_talk`.
    pub fn new(database: &Database, you_talk: bool, person: Option<Person>) -> (r: Chat)
        requires
            database.wf(),
        ensures
            r.query is None,
            r.query_options@.len() == 0,
            r.person == (GeneralPerson { person, youtalk: you_talk }),
            chat_fits(r, database@),
    {
        Chat { query_options: Vec::new(), query: None, person: GeneralPerson::new(person, you_talk) }
    }

    /// Draws a position by weight, removes it from both lists as
    /// `swap_remove` does, and returns the option there; `None`, with nothing
    /// removed, when the weights sum to zero.
    fn sample<R: Fn(u128) -> u128>(options: &mut Vec<usize>, proba: &mut Vec<u128>, draw: &R) -> (r: Option<usize>)
        requires
            draws_below(*draw),
            old(options).len() == old(proba).len(),
            total(old(proba)@) <= u128::MAX,
        ensures
            total(old(proba)@) == 0 ==> r is None && final(options)@ == old(options)@ && final(proba)@
                == old(proba)@,
            total(old(proba)@) > 0 ==> exists|i: int|
                0 <= i < old(proba)@.len() && old(proba)@[i] > 0 && r == Some(old(options)@[i])
                    && final(options)@ == old(options)@.update(i, old(options)@.last()).drop_last()
                    && final(proba)@ == old(proba)@.update(i, old(proba)@.last()).drop_last(),
    {
        let ghost s = proba@;
        let mut sum: u128 = 0;
        let mut k: usize = 0;
        assert(s.take(0) =~= Seq::<u128>::empty());
        proof {
            lemma_total_zero(s);
        }
        while k < proba.len()
            invariant
                s == proba@,
                k <= proba.len(),
                sum == total(s.take(k as int)),
                total(s) <= u128::MAX,
                total(s) >= 0,
            decreases proba.len() - k,
        {
            proof {
                lemma_total_take(s, k as int);
            }
            sum = sum + proba[k];
            k = k + 1;
        }
        assert(s.take(k as int) =~= s);
        if sum == 0 {
            return None;
        }
        let u = draw(sum);
        let i = pick_weighted(proba, u);
        let option = options.swap_remove(i);
        proba.swap_remove(i);
        Some(option)
    }

    /// Groups `options` by target, summing the weights of each, and draws
    /// targets by weight without replacement until `CHAT_VARIANTS` are drawn
    /// or none of positive weight is left.
    fn sample_queries<R: Fn(u128) -> u128>(options: Vec<(usize, GeneralPerson)>, probability: Vec<u32>, draw: &R) -> (r: Vec<usize>)
        requires
            draws_below(*draw),
            probability.len() == options.len(),
        ensures
            valid_offer(options@, probability@, r@),
    {
        let (mut unique_option, mut unique_proba) = group_by_target(&options, &probability);
        let ghost edges = options@;
        let ghost ws = probability@;
        let ghost bound = total(unique_proba@);
        proof {
            lemma_edge_total_bound(ws);
            assert(options.len() <= usize::MAX);
            assert(ws.len() * (u32::MAX as int) <= (usize::MAX as int) * (u32::MAX as int)) by (nonlinear_arith)
                requires ws.len() <= usize::MAX;
            assert forall|t: usize| weight_to(edges, ws, t) > 0 implies unique_option@.contains(t) by {
                if !unique_option@.contains(t) {
                    assert forall|e: int| 0 <= e < edges.len() implies edges[e].0 != t by {
                        if edges[e].0 == t {
                            assert(exists|e: int| 0 <= e < options.len() && options@[e].0 == t);
                        }
                    }
                    lemma_weight_absent(edges, ws, t);
                }
            }
        }
        let mut queries: Vec<usize> = Vec::new();
        while queries.len() < CHAT_VARIANTS
            invariant
                draws_below(*draw),
                edges == options@,
                ws == probability@,
                unique_option.len() == unique_proba.len(),
                unique_option@.no_duplicates(),
                forall|k: int|
                    0 <= k < unique_option.len() ==> unique_proba@[k] == weight_to(edges, ws, #[trigger] unique_option@[k]),
                queries.len() <= CHAT_VARIANTS,
                queries@.no_duplicates(),
                forall|k: int|
                    0 <= k < queries.len() ==> weight_to(edges, ws, #[trigger] queries@[k]) > 0 && !unique_option@.contains(queries@[k]),
                forall|t: usize| weight_to(edges, ws, t) > 0 ==> queries@.contains(t) || unique_option@.contains(t),
                0 <= total(unique_proba@) <= bound,
                bound <= u128::MAX,
            decreases CHAT_VARIANTS - queries.len(),
        {
            let ghost o0 = unique_option@;
            let ghost w0 = unique_proba@;
            let ghost q0 = queries@;
            match Chat::sample(&mut unique_option, &mut unique_proba, draw) {
                Some(option) => {
                    proof {
                        let i = choose|i: int|
                            0 <= i < w0.len() && w0[i] > 0 && Some(option) == Some(o0[i])
                                && unique_option@ == o0.update(i, o0.last()).drop_last()
                                && unique_proba@ == w0.update(i, w0.last()).drop_last();
                        lemma_total_swap_remove(w0, i);
                        lemma_total_zero(unique_proba@);
                        lemma_swap_remove_members(o0, i);
                        assert forall|k: int| 0 <= k < unique_option.len() implies unique_proba@[k]
                            == weight_to(edges, ws, #[trigger] unique_option@[k]) by {
                            if k == i {
                                assert(unique_option@[k] == o0[o0.len() - 1]);
                                assert(unique_proba@[k] == w0[w0.len() - 1]);
                            } else {
                                assert(unique_option@[k] == o0[k]);
                                assert(unique_proba@[k] == w0[k]);
                            }
                        }
                    }
                    queries.push(option);
                    proof {
                        let i = choose|i: int|
                            0 <= i < w0.len() && w0[i] > 0 && Some(option) == Some(o0[i])
                                && unique_option@ == o0.update(i, o0.last()).drop_last()
                                && unique_proba@ == w0.update(i, w0.last()).drop_last();
                        assert(queries@ == q0.push(option));
                        assert(!q0.contains(option)) by {
                            if q0.contains(option) {
                                let k = choose|k: int| 0 <= k < q0.len() && q0[k] == option;
                                assert(!o0.contains(q0[k]));
                                assert(o0[i] == option);
                            }
                        }
                        assert forall|a: int, b: int| 0 <= a < b < queries.len() implies queries@[a] != queries@[b] by {
                            if b == queries.len() - 1 {
                                assert(queries@[a] == q0[a]);
                            }
                        }
                        assert forall|k: int| 0 <= k < queries.len() implies weight_to(edges, ws, #[trigger] queries@[k]) > 0
                            && !unique_option@.contains(queries@[k]) by {
                            if k < q0.len() {
                                assert(queries@[k] == q0[k]);
                            } else {
                                assert(queries@[k] == o0[i]);
                            }
                        }
                        assert forall|t: usize| weight_to(edges, ws, t) > 0 implies queries@.contains(t)
                            || unique_option@.contains(t) by {
                            if q0.contains(t) {
                                let k = choose|k: int| 0 <= k < q0.len() && q0[k] == t;
                                assert(queries@[k] == t);
                            } else if t == option {
                                assert(queries@[q0.len() as int] == t);
                            } else {
                                assert(o0.contains(t));
                            }
                        }
                    }
                },
                None => {
                    proof {
                        lemma_total_zero(w0);
                        assert forall|t: usize| weight_to(edges, ws, t) > 0 implies queries@.contains(t) by {
                            if !queries@.contains(t) {
                                let k = choose|k: int| 0 <= k < o0.len() && o0[k] == t;
                                assert(w0[k] == 0);
                            }
                        }
                    }
                    return queries;
                },
            }
        }
        queries
    }

    /// One of the texts of phrase `query_index`, drawn uniformly; the empty
    /// text for a phrase that has none.
    fn choose_random_phrase<R: Fn(u128) -> u128>(&self, database: &Database, query_index: usize, draw: &R) -> (r: String)
        requires
            draws_below(*draw),
            database.wf(),
            query_index < database@.phrases.len(),
        ensures
            offers_text(database@.phrases[query_index as int].texts, r@),
    {
        let texts = &database.phrases[query_index].texts;
        assert(texts@.len() == database@.phrases[query_index as int].texts.len());
        let n = texts.len();
        if n == 0 {
            return String::new();
        }
        let index = draw(n as u128) as usize;
        let r = texts[index].clone();
        assert(database@.phrases[query_index as int].texts[index as int] == r@);
        r
    }

    /// Offers replies from where the walker stands: each response there is
    /// weighed by `weight(speaker, walker)`, the targets are drawn by summed
    /// weight without replacement, and for each a text of it is drawn, every
    /// draw being `draw(n)` for a number below `n`. The targets are kept as
    /// the options that `choose_phrase` picks from.
    pub fn get_phrases_with<F: Fn(GeneralPerson, GeneralPerson) -> u32, R: Fn(u128) -> u128>(
        &mut self,
        database: &Database,
        weight: F,
        draw: R,
    ) -> (r: Vec<String>)
        requires
            draws_below(draw),
            database.wf(),
            chat_fits(*old(self), database@),
            forall|a: GeneralPerson, b: GeneralPerson| weight.requires((a, b)),
        ensures
            final(self).query == old(self).query,
            final(self).person == old(self).person,
            chat_fits(*final(self), database@),
            r.len() == final(self).query_options.len(),
            exists|ws: Seq<u32>|
                ws.len() == database@.phrases[cursor_of(*old(self)) as int].responses.len() && (forall|k: int|
                    0 <= k < ws.len() ==> weight.ensures(
                        (database@.phrases[cursor_of(*old(self)) as int].responses[k].1, old(self).person),
                        #[trigger] ws[k],
                    )) && valid_offer(
                    database@.phrases[cursor_of(*old(self)) as int].responses,
                    ws,
                    final(self).query_options@,
                ),
            forall|k: int|
                0 <= k < r.len() ==> offers_text(
                    database@.phrases[final(self).query_options@[k] as int].texts,
                    (#[trigger] r@[k])@,
                ),
    {
        let index = match self.query {
            Some(q) => q,
            None => database.get_start_index(),
        };
        let options = &database.phrases[index].responses;
        let ghost edges = options@;
        let mut copied: Vec<(usize, GeneralPerson)> = Vec::new();
        let mut probability: Vec<u32> = Vec::new();
        let mut k: usize = 0;
        while k < options.len()
            invariant
                forall|a: GeneralPerson, b: GeneralPerson| weight.requires((a, b)),
                edges == options@,
                k <= options.len(),
                copied@ == edges.take(k as int),
                probability.len() == k,
                forall|q: int| 0 <= q < k ==> weight.ensures((edges[q].1, self.person), #[trigger] probability@[q]),
            decreases options.len() - k,
        {
            let e = options[k];
            let w = weight(e.1, self.person);
            copied.push(e);
            probability.push(w);
            assert(copied@ =~= edges.take(k + 1));
            k = k + 1;
        }
        assert(edges.take(k as int) =~= edges);
        let ghost ws = probability@;
        let queries = Chat::sample_queries(copied, probability, &draw);
        proof {
            assert forall|q: int| 0 <= q < queries.len() implies (#[trigger] queries@[q]) < database@.phrases.len() by {
                let t = queries@[q];
                assert(weight_to(edges, ws, t) > 0);
                if t >= database@.phrases.len() {
                    assert forall|e: int| 0 <= e < edges.len() implies edges[e].0 != t by {
                        assert(database@.phrases[index as int].responses[e].0 < database@.phrases.len());
                    }
                    lemma_weight_absent(edges, ws, t);
                }
            }
        }
        let mut texts: Vec<String> = Vec::new();
        let mut q: usize = 0;
        while q < queries.len()
            invariant
                database.wf(),
                draws_below(draw),
                q <= queries.len(),
                texts.len() == q,
                forall|x: int| 0 <= x < queries.len() ==> (#[trigger] queries@[x]) < database@.phrases.len(),
                forall|x: int|
                    0 <= x < q ==> offers_text(database@.phrases[queries@[x] as int].texts, (#[trigger] texts@[x])@),
            decreases queries.len() - q,
        {
            let t = self.choose_random_phrase(database, queries[q], &draw);
            texts.push(t);
            q = q + 1;
        }
        let ghost before = *self;
        self.query_options = queries;
        proof {
            let g = database@;
            assert(index == cursor_of(before));
            assert(edges == g.phrases[cursor_of(before) as int].responses);
            assert(ws.len() == edges.len());
            assert(valid_offer(edges, ws, self.query_options@));
            assert(ws.len() == g.phrases[cursor_of(before) as int].responses.len() && (forall|k: int|
                0 <= k < ws.len() ==> weight.ensures((g.phrases[cursor_of(before) as int].responses[k].1, before.person), #[trigger] ws[k]))
                && valid_offer(g.phrases[cursor_of(before) as int].responses, ws, self.query_options@));
        }
        texts
    }

    /// Offers replies as `get_phrases_with` does, drawing from the thread's
    /// random generator.
    pub fn get_phrases<F: Fn(GeneralPerson, GeneralPerson) -> u32>(&mut self, database: &Database, weight: F) -> (r: Vec<String>)
        requires
            database.wf(),
            chat_fits(*old(self), database@),
            forall|a: GeneralPerson, b: GeneralPerson| weight.requires((a, b)),
        ensures
            final(self).query == old(self).query,
            final(self).person == old(self).person,
            chat_fits(*final(self), database@),
            r.len() == final(self).query_options.len(),
            exists|ws: Seq<u32>|
                ws.len() == database@.phrases[cursor_of(*old(self)) as int].responses.len() && (forall|k: int|
                    0 <= k < ws.len() ==> weight.ensures(
                        (database@.phrases[cursor_of(*old(self)) as int].responses[k].1, old(self).person),
                        #[trigger] ws[k],
                    )) && valid_offer(
                    database@.phrases[cursor_of(*old(self)) as int].responses,
                    ws,
                    final(self).query_options@,
                ),
            forall|k: int|
                0 <= k < r.len() ==> offers_text(
                    database@.phrases[final(self).query_options@[k] as int].texts,
                    (#[trigger] r@[k])@,
                ),
    {
        self.get_phrases_with(database, weight, draw_below)
    }

    /// Records that the walker's speaker answered, where the walker stands,
    /// with phrase `response_index`.
    fn add_response(&mut self, database: &mut Database, response_index: usize)
        requires
            old(database).wf(),
            chat_fits(*old(self), old(database)@),
            response_index < old(database)@.phrases.len(),
        ensures
            final(database).wf(),
            *final(self) == *old(self),
            final(database)@ == insert_responses_spec(
                old(database)@,
                cursor_of(*old(self)),
                seq![(response_index, old(self).person)],
            ),
            grows(old(database)@.phrases, final(database)@.phrases),
    {
        let previous_index = match self.query {
            Some(q) => q,
            None => database.get_start_index(),
        };
        let person = self.person;
        let mut rs: Vec<(usize, GeneralPerson)> = Vec::new();
        rs.push((response_index, person));
        assert(rs@ =~= seq![(response_index, person)]);
        database.insert_responses_to(previous_index, rs);
    }

    /// Moves the walker to phrase `response_index` and over to the other side
    /// of the conversation.
    fn finish_turn(&mut self, response_index: usize)
        ensures
            final(self).query == Some(response_index),
            final(self).person == old(self).person.other_side_spec(),
            final(self).query_options == old(self).query_options,
    {
        self.query = Some(response_index);
        self.person = self.person.other_side();
    }

    /// The user's own reply `text`: added to the graph as a text of its
    /// cloud's phrase, recorded as a response from where the walker stands,
    /// and walked to.
    pub fn add_phrase(&mut self, database: &mut Database, text: &str)
        requires
            old(database).wf(),
            chat_fits(*old(self), old(database)@),
        ensures
            final(database).wf(),
            chat_fits(*final(self), final(database)@),
            ({
                let (g1, idx) = insert_texts_spec(old(database)@, cloud_of_text(text@), seq![text@]);
                &&& idx is Some
                &&& final(database)@ == insert_responses_spec(
                    g1,
                    cursor_of(*old(self)),
                    seq![(idx->0, old(self).person)],
                )
                &&& final(self).query == idx
            }),
            final(self).person == old(self).person.other_side_spec(),
            final(self).query_options == old(self).query_options,
            grows(old(database)@.phrases, final(database)@.phrases),
    {
        let mut texts: Vec<String> = Vec::new();
        texts.push(String::from_str(text));
        assert(string_views(texts@) =~= seq![text@]);
        let ghost g0 = database@;
        let inserted = database.insert_texts_at(text, texts);
        proof {
            assert(grows(g0.phrases, database@.phrases));
        }
        match inserted {
            Some(phrase_index) => {
                let ghost g1 = database@;
                self.add_response(database, phrase_index);
                proof {
                    lemma_grows_trans(g0.phrases, g1.phrases, database@.phrases);
                }
                self.finish_turn(phrase_index);
            },
            None => {},
        }
    }

    /// The user picks the offered reply `option_number`: it is recorded as a
    /// response from where the walker stands, and walked to.
    pub fn choose_phrase(&mut self, database: &mut Database, option_number: usize)
        requires
            old(database).wf(),
            chat_fits(*old(self), old(database)@),
            option_number < old(self).query_options.len(),
        ensures
            final(database).wf(),
            chat_fits(*final(self), final(database)@),
            final(database)@ == insert_responses_spec(
                old(database)@,
                cursor_of(*old(self)),
                seq![(old(self).query_options@[option_number as int], old(self).person)],
            ),
            final(self).query == Some(old(self).query_options@[option_number as int]),
            final(self).person == old(self).person.other_side_spec(),
            final(self).query_options == old(self).query_options,
            grows(old(database)@.phrases, final(database)@.phrases),
    {
        let response_index = self.query_options[option_number];
        self.add_response(database, response_index);
        self.finish_turn(response_index);
    }
}

/// Removing position `i` as `swap_remove` does keeps every other element.
pub proof fn lemma_swap_remove_members(s: Seq<usize>, i: int)
    requires
        0 <= i < s.len(),
        s.no_duplicates(),
    ensures
        ({
            let r = s.update(i, s.last()).drop_last();
            &&& r.no_duplicates()
            &&& !r.contains(s[i])
            &&& forall|t: usize| s.contains(t) && t != s[i] ==> r.contains(t)
            &&& forall|t: usize| r.contains(t) ==> s.contains(t)
        }),
{
    let r = s.update(i, s.last()).drop_last();
    let n = s.len() - 1;
    assert forall|a: int, b: int| 0 <= a < b < r.len() implies r[a] != r[b] by {
        if a == i {
            assert(r[a] == s[n]);
            assert(r[b] == s[b]);
        } else if b == i {
            assert(r[b] == s[n]);
            assert(r[a] == s[a]);
        } else {
            assert(r[a] == s[a]);
            assert(r[b] == s[b]);
        }
    }
    assert forall|t: usize| s.contains(t) && t != s[i] implies r.contains(t) by {
        let k = choose|k: int| 0 <= k < s.len() && s[k] == t;
        if k == n {
            assert(r[i] == t);
        } else {
            assert(r[k] == t);
        }
    }
    assert forall|t: usize| r.contains(t) implies s.contains(t) by {
        let k = choose|k: int| 0 <= k < r.len() && r[k] == t;
        if k == i {
            assert(s[n] == t);
        } else {
            assert(s[k] == t);
        }
    }
    if r.contains(s[i]) {
        let k = choose|k: int| 0 <= k < r.len() && r[k] == s[i];
        if k == i {
            assert(s[n] == s[i]);
        } else {
            assert(s[k] == s[i]);
        }
    }
}

pub proof fn lemma_sum_dominates(s: Seq<u128>, q: int)
    requires
        0 <= q < s.len(),
    ensures
        s[q] <= total(s),
    decreases s.len(),
{
    lemma_total_zero(s.drop_last());
    if q < s.len() - 1 {
        lemma_sum_dominates(s.drop_last(), q);
    }
}

pub proof fn lemma_weight_absent(edges: Seq<(usize, GeneralPerson)>, ws: Seq<u32>, t: usize)
    requires
        forall|e: int| 0 <= e < edges.len() ==> edges[e].0 != t,
    ensures
        weight_to(edges, ws, t) == 0,
    decreases edges.len(),
{
    if edges.len() > 0 {
        lemma_weight_absent(edges.drop_last(), ws, t);
    }
}

} // verus!
