//! Properties of the graph store that relate several operations.

use vstd::prelude::*;
use crate::cloud::{cloud_of_text, lemma_empty_text_cloud};
use crate::database::{
    GraphView, Piece, graph_wf, insert_texts_spec, insert_responses_spec, index_of_cloud, is_delta_of,
    delta_plan, delta_phrases, delta_log, sentinel, grows, resolvable, remapped, cloud_of_index,
    lemma_index_of_cloud_wf, lemma_grows_refl, SERVER, full_plan, name_text, slice_phrase,
    merge_spec, merge_texts, merge_responses, root_start, delta_shaped, sent_log, text_entry_ok,
    response_entry_ok, dict_names, ships_target, index_slot, lemma_index_slot, lemma_cloud_slot,
    cloud_slot,
};
use crate::equality::{graphs_equal, partner, phrase_matches, mapped_responses};
use crate::phrase::PhraseView;
use crate::persona::GeneralPerson;
use crate::tracker::{log_of, reset_peer, empty_log, lemma_peer_slot, peer_slot, PeerLog, OffsetLog};

verus! {

/// Inserting texts twice under one cloud makes at most one new phrase, and
/// the second insertion returns the index of the first.
pub proof fn law_insert_deduplicates(
    g: GraphView,
    c: Set<Seq<char>>,
    first: Seq<Seq<char>>,
    second: Seq<Seq<char>>,
)
    requires
        graph_wf(g),
        first.len() > 0,
    ensures
        ({
            let (g1, r1) = insert_texts_spec(g, c, first);
            let (g2, r2) = insert_texts_spec(g1, c, second);
            &&& r1 is Some
            &&& r2 == r1
            &&& g2.phrases.len() == g1.phrases.len()
            &&& g1.phrases.len() == if index_of_cloud(g.indices, c) is Some {
                g.phrases.len()
            } else {
                g.phrases.len() + 1
            }
        }),
{
    lemma_index_of_cloud_wf(g, c);
    let (g1, r1) = insert_texts_spec(g, c, first);
    match index_of_cloud(g.indices, c) {
        Some(i) => {
            assert(g1.indices == g.indices);
        },
        None => {
            let n = g.phrases.len();
            assert(g1.indices == g.indices.push((c, n as usize)));
            assert(g1.indices[n as int].0 == c);
            assert forall|a: int, b: int|
                0 <= a < g1.indices.len() && 0 <= b < g1.indices.len() && a != b implies (
                #[trigger] g1.indices[a]).0 != (#[trigger] g1.indices[b]).0 by {
                if a < n && b < n {
                    assert(g1.indices[a] == g.indices[a]);
                    assert(g1.indices[b] == g.indices[b]);
                } else if a < n {
                    assert(g1.indices[a] == g.indices[a]);
                } else {
                    assert(g1.indices[b] == g.indices[b]);
                }
            }
            crate::database::lemma_cloud_slot(g1.indices, c);
        },
    }
}

/// Neither kind of insertion loses a phrase, a text or a response: each
/// phrase keeps what it had as a prefix.
pub proof fn law_insertions_grow(
    g: GraphView,
    c: Set<Seq<char>>,
    ts: Seq<Seq<char>>,
    i: usize,
    rs: Seq<(usize, GeneralPerson)>,
)
    requires
        graph_wf(g),
        i < g.phrases.len(),
    ensures
        grows(g.phrases, insert_texts_spec(g, c, ts).0.phrases),
        grows(g.phrases, insert_responses_spec(g, i, rs).phrases),
{
    lemma_index_of_cloud_wf(g, c);
    lemma_grows_refl(g.phrases);
    let h = insert_texts_spec(g, c, ts).0;
    assert forall|k: int| 0 <= k < g.phrases.len() implies (#[trigger] g.phrases[k]).texts == h.phrases[k].texts.take(
        g.phrases[k].texts.len() as int,
    ) && g.phrases[k].responses == h.phrases[k].responses.take(g.phrases[k].responses.len() as int)
        && g.phrases[k].texts.len() <= h.phrases[k].texts.len() && g.phrases[k].responses.len()
        <= h.phrases[k].responses.len() by {
        assert(g.phrases[k].texts =~= h.phrases[k].texts.take(g.phrases[k].texts.len() as int));
        assert(g.phrases[k].responses =~= h.phrases[k].responses.take(g.phrases[k].responses.len() as int));
    }
    let h2 = insert_responses_spec(g, i, rs);
    assert forall|k: int| 0 <= k < g.phrases.len() implies (#[trigger] g.phrases[k]).texts == h2.phrases[k].texts.take(
        g.phrases[k].texts.len() as int,
    ) && g.phrases[k].responses == h2.phrases[k].responses.take(g.phrases[k].responses.len() as int)
        && g.phrases[k].texts.len() <= h2.phrases[k].texts.len() && g.phrases[k].responses.len()
        <= h2.phrases[k].responses.len() by {
        assert(g.phrases[k].texts =~= h2.phrases[k].texts.take(g.phrases[k].texts.len() as int));
        assert(g.phrases[k].responses =~= h2.phrases[k].responses.take(g.phrases[k].responses.len() as int));
    }
}

/// Right after `updated(p)`, the delta for `p` holds the sentinel alone and
/// ships nothing.
pub proof fn law_delta_empty_after_update(g: GraphView, p: Seq<char>, d: GraphView)
    requires
        is_delta_of(d, g, delta_plan(log_of(reset_peer(g.tracker, p), p))),
    ensures
        d.phrases == seq![sentinel()],
        d.tracker == seq![(SERVER@, empty_log())],
{
    let t = reset_peer(g.tracker, p);
    lemma_peer_slot(g.tracker, p);
    lemma_peer_slot(t, p);
    let s = peer_slot(g.tracker, p);
    if s >= 0 {
        assert(t[s].0 == p);
        lemma_slot_of_reset(g.tracker, p);
    } else {
        lemma_slot_of_reset(g.tracker, p);
    }
    let log = log_of(t, p);
    assert(log == empty_log());
    let plan = delta_plan(log);
    assert(plan =~= Seq::<Piece>::empty());
    assert(delta_phrases(g, plan) =~= seq![sentinel()]);
}

/// The entry that `reset_peer` writes is the one `log_of` reads.
pub proof fn lemma_slot_of_reset(t: Seq<(Seq<char>, crate::tracker::PeerLog)>, p: Seq<char>)
    ensures
        log_of(reset_peer(t, p), p) == empty_log(),
    decreases t.len(),
{
    lemma_peer_slot(t, p);
    let s = peer_slot(t, p);
    let r = reset_peer(t, p);
    if s < 0 {
        assert(r.drop_last() =~= t);
    } else {
        lemma_slot_after_update(t, p, s);
    }
}

/// Updating the entry at the peer's own slot leaves that slot where it is.
pub proof fn lemma_slot_after_update(t: Seq<(Seq<char>, crate::tracker::PeerLog)>, p: Seq<char>, s: int)
    requires
        s == peer_slot(t, p),
        s >= 0,
    ensures
        peer_slot(t.update(s, (p, empty_log())), p) == s,
    decreases t.len(),
{
    lemma_peer_slot(t, p);
    let u = t.update(s, (p, empty_log()));
    if s < t.len() - 1 {
        assert(t.last().0 != p);
        assert(u.last() == t.last());
        assert(u.drop_last() =~= t.drop_last().update(s, (p, empty_log())));
        lemma_slot_after_update(t.drop_last(), p, s);
    }
}

/// A merged response leads to the phrase of this graph whose cloud is the
/// one the delta gave for its target, and keeps its speaker.
pub proof fn law_merge_remaps_by_cloud(g: GraphView, d: GraphView, rs: Seq<(usize, GeneralPerson)>)
    requires
        graph_wf(g),
        resolvable(g, d, rs),
    ensures
        forall|q: int|
            0 <= q < rs.len() ==> {
                let e = #[trigger] remapped(g, d, rs)[q];
                &&& e.0 < g.phrases.len()
                &&& g.indices[e.0 as int].0 == cloud_of_index(d.indices, rs[q].0)->0
                &&& e.1 == rs[q].1
            },
{
    assert forall|q: int| 0 <= q < rs.len() implies {
        let e = #[trigger] remapped(g, d, rs)[q];
        &&& e.0 < g.phrases.len()
        &&& g.indices[e.0 as int].0 == cloud_of_index(d.indices, rs[q].0)->0
        &&& e.1 == rs[q].1
    } by {
        lemma_index_of_cloud_wf(g, cloud_of_index(d.indices, rs[q].0)->0);
        assert(index_of_cloud(g.indices, cloud_of_index(d.indices, rs[q].0)->0) is Some);
    }
}

/// Every phrase of `g` is named, in a full delta, by a text of its own
/// cloud: the first text the delta ships of it, or the empty text if it
/// ships none.
pub open spec fn named(g: GraphView) -> bool {
    forall|k: int|
        0 <= k < g.phrases.len() ==> cloud_of_text(
            name_text(g.phrases[k].texts.skip(root_start(k as usize) as int)),
        ) == (#[trigger] g.indices[k]).0
}

/// The log of a full delta of `n` phrases: every piece from offset 0.
pub open spec fn full_log(n: int) -> OffsetLog {
    Seq::new(n as nat, |k: int| ((k + 1) as usize, 0usize))
}

/// The first `m` phrases of `g` with their texts and no response.
pub open spec fn texts_part(g: GraphView, m: int) -> Seq<PhraseView> {
    Seq::new(m as nat, |k: int| PhraseView { texts: g.phrases[k].texts, responses: Seq::empty() })
}

/// The phrases of `g` with their texts, and the responses of the first `m`.
pub open spec fn responses_part(g: GraphView, m: int) -> Seq<PhraseView> {
    Seq::new(
        g.phrases.len(),
        |k: int|
            PhraseView {
                texts: g.phrases[k].texts,
                responses: if k < m {
                    g.phrases[k].responses
                } else {
                    Seq::empty()
                },
            },
    )
}

pub proof fn lemma_full_delta_log(g: GraphView, m: int)
    requires
        0 <= m <= g.phrases.len(),
        g.phrases.len() < usize::MAX,
    ensures
        delta_log(full_plan(g).take(m)) == (PeerLog { texts: full_log(m), responses: full_log(m) }),
    decreases m,
{
    if m == 0 {
        assert(full_log(0) =~= Seq::<(usize, usize)>::empty());
    } else {
        let p = full_plan(g).take(m);
        assert(p.drop_last() =~= full_plan(g).take(m - 1));
        lemma_full_delta_log(g, m - 1);
        assert(full_log(m - 1).push((m as usize, 0usize)) =~= full_log(m));
    }
}

/// The index of a wf graph gives each index its own entry.
pub proof fn lemma_index_slot_wf(g: GraphView, j: usize)
    requires
        graph_wf(g),
        j < g.phrases.len(),
    ensures
        cloud_of_index(g.indices, j) == Some(g.indices[j as int].0),
{
    lemma_index_slot(g.indices, j);
    assert(g.indices[j as int].1 == j);
    let s = index_slot(g.indices, j);
    assert(g.indices[s].1 == s);
}

/// A graph with the phrases and index of a wf graph equals it.
pub proof fn lemma_equal_when_alike(h: GraphView, g: GraphView)
    requires
        graph_wf(g),
        h.phrases == g.phrases,
        h.indices == g.indices,
    ensures
        graphs_equal(h, g),
{
    assert forall|k: int| 0 <= k < h.indices.len() implies index_of_cloud(g.indices, (#[trigger] h.indices[k]).0) is Some by {
        lemma_index_of_cloud_wf(g, h.indices[k].0);
    }
    assert forall|k: usize| k < h.phrases.len() implies #[trigger] phrase_matches(h, g, k) by {
        lemma_index_slot_wf(g, k);
        lemma_index_of_cloud_wf(g, g.indices[k as int].0);
        assert(partner(h, g, k) == Some(k));
        let rs = h.phrases[k as int].responses;
        assert forall|e: int| 0 <= e < rs.len() implies partner(h, g, (#[trigger] rs[e]).0) == Some(rs[e].0) by {
            let t = rs[e].0;
            assert(t < g.phrases.len());
            lemma_index_slot_wf(g, t);
            lemma_index_of_cloud_wf(g, g.indices[t as int].0);
        }
        assert(mapped_responses(h, g, rs) =~= rs);
    }
}

/// In a full delta of `g`, the cloud index gives every response target of
/// `g` its cloud in `g`.
pub proof fn lemma_full_delta_targets(g: GraphView, d: GraphView, k: int, e: int)
    requires
        graph_wf(g),
        is_delta_of(d, g, full_plan(g)),
        0 <= k < g.phrases.len(),
        0 <= e < g.phrases[k].responses.len(),
    ensures
        cloud_of_index(d.indices, g.phrases[k].responses[e].0) == Some(g.indices[g.phrases[k].responses[e].0 as int].0),
{
    let plan = full_plan(g);
    let j = g.phrases[k].responses[e].0;
    assert(g.indices[k].1 == k);
    assert(plan[k] == (k as usize, Some(root_start(k as usize)), Some(0usize)));
    assert(slice_phrase(g, plan[k]).responses =~= g.phrases[k].responses);
    assert(slice_phrase(g, plan[k]).responses[e].0 == j);
    assert(ships_target(g, plan, j));
    assert(dict_names(g, d.indices, j));
    lemma_cloud_slot(d.indices, g.indices[j as int].0);
    let s = cloud_slot(d.indices, g.indices[j as int].0);
    assert(d.indices[s].1 == j);
    lemma_index_slot(d.indices, j);
    let x = index_slot(d.indices, j);
    assert(x >= 0);
    assert(d.indices[x].1 == j);
}

/// What a fresh graph holds after the text entries of a full delta of `g`
/// up to piece `m`: the texts of the first `m` phrases, under their clouds.
pub proof fn lemma_cold_texts(g: GraphView, d: GraphView, c: GraphView, m: int)
    requires
        graph_wf(g),
        named(g),
        is_delta_of(d, g, full_plan(g)),
        c.phrases == seq![sentinel()],
        c.indices == seq![(cloud_of_text(Seq::<char>::empty()), 0usize)],
        d.phrases.len() <= usize::MAX,
        1 <= m <= g.phrases.len(),
    ensures
        ({
            let (h, mm) = merge_texts(c, d, full_log(m));
            &&& h.phrases == texts_part(g, m)
            &&& h.indices == g.indices.take(m)
            &&& mm.len() == d.phrases.len()
            &&& forall|x: int|
                0 <= x < mm.len() ==> #[trigger] mm[x] == (if 1 <= x <= m {
                    Some((x - 1) as usize)
                } else {
                    None
                })
        }),
    decreases m,
{
    let plan = full_plan(g);
    let log = full_log(m);
    let k = m - 1;
    assert(log.drop_last() =~= full_log(m - 1));
    assert(log.last() == (m as usize, 0usize));
    assert(g.indices[k].1 == k);
    assert(g.indices[m - 1].1 == m - 1);
    assert(d.phrases.len() == plan.len() + 1);
    assert(d.phrases[m] == slice_phrase(g, plan[k]));
    assert(plan[k] == (k as usize, Some(root_start(k as usize)), Some(0usize)));
    let p = d.phrases[m];
    let shipped = g.phrases[k].texts.skip(root_start(k as usize) as int);
    assert(p.texts == shipped);
    assert(p.texts.skip(0) =~= shipped);
    let cl = cloud_of_text(name_text(p.texts));
    assert(cl == g.indices[k].0);
    if m == 1 {
        assert(full_log(0) =~= Seq::<(usize, usize)>::empty());
        lemma_empty_text_cloud();
        assert(cl == Set::<Seq<char>>::empty());
        lemma_cloud_slot(c.indices, cl);
        assert(c.indices[0].0 == cl);
        assert(index_of_cloud(c.indices, cl) == Some(0usize));
        let (h, mm) = merge_texts(c, d, log);
        assert(c.phrases[0].texts == seq![Seq::<char>::empty()]);
        assert(h.phrases =~= texts_part(g, 1)) by {
            assert(seq![Seq::<char>::empty()] + shipped =~= g.phrases[0].texts);
            if shipped.len() == 0 {
                assert(g.phrases[0].texts =~= seq![Seq::<char>::empty()]);
            }
            assert(h.phrases[0].texts =~= g.phrases[0].texts);
        }
        assert(h.indices =~= g.indices.take(1));
    } else {
        lemma_cold_texts(g, d, c, m - 1);
        let (h1, m1) = merge_texts(c, d, full_log(m - 1));
        assert forall|x: int| 0 <= x < h1.indices.len() implies h1.indices[x].0 != cl by {
            assert(h1.indices[x] == g.indices[x]);
        }
        lemma_cloud_slot(h1.indices, cl);
        assert(index_of_cloud(h1.indices, cl) is None);
        assert(shipped =~= g.phrases[k].texts);
        let (h, mm) = merge_texts(c, d, log);
        assert(h.phrases =~= texts_part(g, m));
        assert(h.indices =~= g.indices.take(m));
    }
}

/// What that graph holds after the response entries of the full delta up
/// to piece `m`: all the texts, and the responses of the first `m` phrases.
pub proof fn lemma_cold_responses(g: GraphView, d: GraphView, h0: GraphView, mm: Seq<Option<usize>>, m: int)
    requires
        graph_wf(g),
        is_delta_of(d, g, full_plan(g)),
        h0.phrases == texts_part(g, g.phrases.len() as int),
        h0.indices == g.indices,
        mm.len() == d.phrases.len(),
        forall|x: int|
            0 <= x < mm.len() ==> #[trigger] mm[x] == (if 1 <= x <= g.phrases.len() {
                Some((x - 1) as usize)
            } else {
                None
            }),
        d.phrases.len() <= usize::MAX,
        0 <= m <= g.phrases.len(),
    ensures
        ({
            let (h, ok) = merge_responses(h0, d, mm, full_log(m));
            &&& ok
            &&& h.phrases == responses_part(g, m)
            &&& h.indices == g.indices
        }),
    decreases m,
{
    if m == 0 {
        assert(full_log(0) =~= Seq::<(usize, usize)>::empty());
        assert(texts_part(g, g.phrases.len() as int) =~= responses_part(g, 0));
    } else {
        let plan = full_plan(g);
        let k = m - 1;
        lemma_cold_responses(g, d, h0, mm, m - 1);
        let (h1, ok1) = merge_responses(h0, d, mm, full_log(m - 1));
        let log = full_log(m);
        assert(log.drop_last() =~= full_log(m - 1));
        assert(log.last() == (m as usize, 0usize));
        assert(g.indices[k].1 == k);
        assert(mm[m] == Some(k as usize));
        assert(d.phrases[m] == slice_phrase(g, plan[k]));
        assert(plan[k] == (k as usize, Some(root_start(k as usize)), Some(0usize)));
        let shipped = d.phrases[m].responses.skip(0);
        assert(shipped =~= g.phrases[k].responses);
        assert forall|q: int| 0 <= q < shipped.len() implies index_of_cloud(
            h1.indices,
            cloud_of_index(d.indices, (#[trigger] shipped[q]).0)->0,
        ) == Some(shipped[q].0) by {
            lemma_full_delta_targets(g, d, k, q);
            let j = shipped[q].0;
            assert(j < g.phrases.len());
            lemma_index_of_cloud_wf(g, g.indices[j as int].0);
            assert(g.indices[j as int].1 == j);
        }
        assert(resolvable(h1, d, shipped));
        assert(remapped(h1, d, shipped) =~= shipped);
        let (h, ok) = merge_responses(h0, d, mm, log);
        assert(h == insert_responses_spec(h1, k as usize, shipped));
        assert(h.phrases =~= responses_part(g, m)) by {
            assert(h1.phrases[k].responses =~= Seq::<(usize, GeneralPerson)>::empty());
            assert(h.phrases[k].responses =~= g.phrases[k].responses);
        }
    }
}

/// A fresh graph that merges the full delta of `g` (`total_clone`) ends
/// equal to `g`, where every phrase of `g` is named by a text of its own
/// cloud. The delta has the shape `merge` asks for, and merges whole.
pub proof fn law_cold_join(g: GraphView, d: GraphView, c: GraphView)
    requires
        graph_wf(g),
        named(g),
        is_delta_of(d, g, full_plan(g)),
        c.phrases == seq![sentinel()],
        c.indices == seq![(cloud_of_text(Seq::<char>::empty()), 0usize)],
        d.phrases.len() <= usize::MAX,
    ensures
        delta_shaped(d),
        merge_spec(c, d).1,
        graphs_equal(merge_spec(c, d).0, g),
{
    let n = g.phrases.len() as int;
    let plan = full_plan(g);
    assert(d.tracker.last().0 == SERVER@);
    assert(peer_slot(d.tracker, SERVER@) == 0);
    lemma_full_delta_log(g, n);
    assert(plan.take(n) =~= plan);
    assert(sent_log(d) == (PeerLog { texts: full_log(n), responses: full_log(n) }));
    assert(d.phrases.len() == n + 1);
    assert forall|k: int| 0 <= k < full_log(n).len() implies text_entry_ok(d, #[trigger] full_log(n)[k]) by {}
    assert forall|k: int| 0 <= k < full_log(n).len() implies response_entry_ok(d, #[trigger] full_log(n)[k]) by {
        assert(g.indices[k].1 == k);
        assert(d.phrases[k + 1] == slice_phrase(g, plan[k]));
        assert(plan[k] == (k as usize, Some(root_start(k as usize)), Some(0usize)));
        assert(d.phrases[k + 1].responses =~= g.phrases[k].responses);
        assert forall|q: int| 0 <= q < d.phrases[k + 1].responses.len() implies cloud_of_index(
            d.indices,
            (#[trigger] d.phrases[k + 1].responses[q]).0,
        ) is Some by {
            lemma_full_delta_targets(g, d, k, q);
        }
    }
    lemma_cold_texts(g, d, c, n);
    let (h0, mm) = merge_texts(c, d, full_log(n));
    assert(g.indices.take(n) =~= g.indices);
    lemma_cold_responses(g, d, h0, mm, n);
    let (h, ok) = merge_responses(h0, d, mm, full_log(n));
    assert(h.phrases =~= g.phrases) by {
        assert forall|k: int| 0 <= k < n implies h.phrases[k] == g.phrases[k] by {}
    }
    lemma_equal_when_alike(h, g);
}

} // verus!
