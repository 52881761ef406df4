//! One sync brings a peer that was behind by exactly what a graph's log
//! records up to that graph.

use vstd::prelude::*;
use crate::cloud::{cloud_of_text, lemma_empty_text_cloud};
use crate::database::{
    GraphView, Piece, graph_wf, delta_plan, response_only, index_of_cloud, lemma_cloud_slot,
    is_delta_of, delta_log, merge_texts, insert_texts_spec, slice_phrase, name_text,
    merge_responses, insert_responses_spec, resolvable, remapped, cloud_of_index, dict_names,
    ships_target, cloud_slot, index_slot, lemma_index_slot, lemma_index_of_cloud_wf, merge_spec,
    delta_shaped, sent_log, text_entry_ok, response_entry_ok, SERVER,
};
use crate::equality::graphs_equal;
use crate::laws::lemma_equal_when_alike;
use crate::tracker::{
    log_of, peer_slot, stamp, stamp_texts, stamp_responses, reset_peer, empty_log, lemma_peer_slot,
};
use crate::laws::{lemma_slot_of_reset, law_insertions_grow};
use crate::database::lemma_stamp_fits;
use crate::persona::GeneralPerson;
use crate::tracker::{OffsetLog, PeerLog, has_key, value_of, lemma_value_of, unique_keys, lemma_stamp_facts};

verus! {

pub proof fn lemma_value_of_unique(m: OffsetLog, j: int)
    requires
        unique_keys(m),
        0 <= j < m.len(),
    ensures
        value_of(m, m[j].0) == Some(m[j].1),
    decreases m.len(),
{
    if j < m.len() - 1 {
        assert(m.last().0 != m[j].0);
        assert(unique_keys(m.drop_last())) by {
            assert forall|a: int, b: int|
                0 <= a < m.drop_last().len() && 0 <= b < m.drop_last().len() && a != b implies (
                #[trigger] m.drop_last()[a]).0 != (#[trigger] m.drop_last()[b]).0 by {
                assert(m.drop_last()[a] == m[a]);
                assert(m.drop_last()[b] == m[b]);
            }
        }
        lemma_value_of_unique(m.drop_last(), j);
        assert(m.drop_last()[j] == m[j]);
    }
}

pub proof fn lemma_response_only(rs: OffsetLog, ts: OffsetLog)
    ensures
        forall|x: int|
            0 <= x < response_only(rs, ts).len() ==> exists|y: int|
                0 <= y < rs.len() && #[trigger] response_only(rs, ts)[x] == rs[y],
        forall|x: int|
            0 <= x < response_only(rs, ts).len() ==> !has_key(ts, (#[trigger] response_only(rs, ts)[x]).0),
        forall|y: int|
            0 <= y < rs.len() && !has_key(ts, (#[trigger] rs[y]).0) ==> exists|x: int|
                0 <= x < response_only(rs, ts).len() && response_only(rs, ts)[x] == rs[y],
        unique_keys(rs) ==> unique_keys(response_only(rs, ts)),
    decreases rs.len(),
{
    if rs.len() > 0 {
        let d = rs.drop_last();
        lemma_response_only(d, ts);
        let r0 = response_only(d, ts);
        let r = response_only(rs, ts);
        let e = rs.last();
        assert forall|x: int| 0 <= x < r.len() implies exists|y: int| 0 <= y < rs.len() && #[trigger] r[x] == rs[y] by {
            if x < r0.len() {
                assert(r[x] == r0[x]);
                let y = choose|y: int| 0 <= y < d.len() && r0[x] == d[y];
                assert(rs[y] == d[y]);
            } else {
                assert(r[x] == rs[rs.len() - 1]);
            }
        }
        assert forall|x: int| 0 <= x < r.len() implies !has_key(ts, (#[trigger] r[x]).0) by {
            if x < r0.len() {
                assert(r[x] == r0[x]);
            }
        }
        assert forall|y: int| 0 <= y < rs.len() && !has_key(ts, (#[trigger] rs[y]).0) implies exists|x: int|
            0 <= x < r.len() && r[x] == rs[y] by {
            if y < d.len() {
                assert(d[y] == rs[y]);
                let x = choose|x: int| 0 <= x < r0.len() && r0[x] == d[y];
                assert(r[x] == r0[x]);
            } else {
                assert(r[r0.len() as int] == rs[y]);
            }
        }
        if unique_keys(rs) {
            assert(unique_keys(d)) by {
                assert forall|a: int, b: int|
                    0 <= a < d.len() && 0 <= b < d.len() && a != b implies (#[trigger] d[a]).0 != (#[trigger] d[b]).0 by {
                    assert(d[a] == rs[a]);
                    assert(d[b] == rs[b]);
                }
            }
            assert forall|a: int, b: int| 0 <= a < r.len() && 0 <= b < r.len() && a != b implies (#[trigger] r[a]).0
                != (#[trigger] r[b]).0 by {
                if a < r0.len() && b < r0.len() {
                    assert(r[a] == r0[a]);
                    assert(r[b] == r0[b]);
                } else if a < r0.len() {
                    assert(r[a] == r0[a]);
                    let y = choose|y: int| 0 <= y < d.len() && r0[a] == d[y];
                    assert(rs[y] == d[y]);
                    assert(r[b] == e);
                    assert(rs[rs.len() - 1] == e);
                } else {
                    assert(r[b] == r0[b]);
                    let y = choose|y: int| 0 <= y < d.len() && r0[b] == d[y];
                    assert(rs[y] == d[y]);
                    assert(r[a] == e);
                    assert(rs[rs.len() - 1] == e);
                }
            }
        }
    }
}

/// The shape of the plan of a delta: its first pieces follow the text
/// entries, the rest the response entries of phrases with no text entry;
/// no two pieces name the same phrase; and every phrase with a response
/// entry has a piece that ships its responses from that entry's offset.
pub proof fn lemma_plan_shape(l: PeerLog)
    requires
        unique_keys(l.texts),
        unique_keys(l.responses),
    ensures
        ({
            let plan = delta_plan(l);
            let na = l.texts.len() as int;
            &&& plan.len() >= na
            &&& forall|k: int| 0 <= k < na ==> #[trigger] plan[k] == (l.texts[k].0, Some(l.texts[k].1), value_of(l.responses, l.texts[k].0))
            &&& forall|k: int| na <= k < plan.len() ==> (#[trigger] plan[k]).1 is None && plan[k].2 is Some
                && !has_key(l.texts, plan[k].0) && value_of(l.responses, plan[k].0) == plan[k].2
            &&& forall|a: int, b: int| 0 <= a < plan.len() && 0 <= b < plan.len() && a != b ==> (#[trigger] plan[a]).0 != (#[trigger] plan[b]).0
            &&& forall|i: usize| has_key(l.responses, i) ==> exists|k: int| 0 <= k < plan.len() && (#[trigger] plan[k]).0 == i && plan[k].2 == value_of(l.responses, i)
            &&& forall|i: usize| has_key(l.texts, i) ==> exists|k: int| 0 <= k < na && (#[trigger] plan[k]).0 == i
        }),
{
    let plan = delta_plan(l);
    let na = l.texts.len() as int;
    let ro = response_only(l.responses, l.texts);
    lemma_response_only(l.responses, l.texts);
    assert forall|k: int| na <= k < plan.len() implies (#[trigger] plan[k]).1 is None && plan[k].2 is Some
        && !has_key(l.texts, plan[k].0) && value_of(l.responses, plan[k].0) == plan[k].2 by {
        let x = k - na;
        assert(plan[k] == (ro[x].0, None::<usize>, Some(ro[x].1)));
        let y = choose|y: int| 0 <= y < l.responses.len() && ro[x] == l.responses[y];
        lemma_value_of_unique(l.responses, y);
    }
    assert forall|a: int, b: int| 0 <= a < plan.len() && 0 <= b < plan.len() && a != b implies (#[trigger] plan[a]).0
        != (#[trigger] plan[b]).0 by {
        if a < na && b < na {
        } else if a >= na && b >= na {
            assert(plan[a].0 == ro[a - na].0);
            assert(plan[b].0 == ro[b - na].0);
        } else if a < na {
            assert(!has_key(l.texts, plan[b].0));
            assert(plan[a].0 == l.texts[a].0);
        } else {
            assert(!has_key(l.texts, plan[a].0));
            assert(plan[b].0 == l.texts[b].0);
        }
    }
    assert forall|i: usize| has_key(l.responses, i) implies exists|k: int| 0 <= k < plan.len() && (#[trigger] plan[k]).0 == i
        && plan[k].2 == value_of(l.responses, i) by {
        let y = choose|y: int| 0 <= y < l.responses.len() && l.responses[y].0 == i;
        lemma_value_of_unique(l.responses, y);
        if has_key(l.texts, i) {
            let j = choose|j: int| 0 <= j < l.texts.len() && l.texts[j].0 == i;
            assert(plan[j].0 == i);
        } else {
            let x = choose|x: int| 0 <= x < ro.len() && ro[x] == l.responses[y];
            assert(plan[na + x] == (ro[x].0, None::<usize>, Some(ro[x].1)));
        }
    }
    assert forall|i: usize| has_key(l.texts, i) implies exists|k: int| 0 <= k < na && (#[trigger] plan[k]).0 == i by {
        let j = choose|j: int| 0 <= j < l.texts.len() && l.texts[j].0 == i;
        assert(plan[j].0 == i);
    }
}

/// How many texts of phrase `i` of `c` a peer with log `l` has seen.
pub open spec fn seen_texts(c: GraphView, l: PeerLog, i: int) -> int {
    match value_of(l.texts, i as usize) {
        Some(o) => o as int,
        None => c.phrases[i].texts.len() as int,
    }
}

/// How many responses of phrase `i` of `c` a peer with log `l` has seen.
pub open spec fn seen_responses(c: GraphView, l: PeerLog, i: int) -> int {
    match value_of(l.responses, i as usize) {
        Some(o) => o as int,
        None => c.phrases[i].responses.len() as int,
    }
}

/// Every phrase of `c` has a text, and every text of a phrase has the
/// phrase's cloud.
pub open spec fn uniform(c: GraphView) -> bool {
    &&& forall|i: int| 0 <= i < c.phrases.len() ==> (#[trigger] c.phrases[i]).texts.len() >= 1
    &&& forall|i: int, t: int|
        0 <= i < c.phrases.len() && 0 <= t < c.phrases[i].texts.len() ==> cloud_of_text(
            #[trigger] c.phrases[i].texts[t],
        ) == c.indices[i].0
}

/// `s` is `c` as it stood before what the log `l` records: the phrases
/// past its end are new, each with a text entry from 0, in the order they
/// were made; every other phrase holds the texts and responses of `c` up to
/// the offsets of `l`.
pub open spec fn behind(s: GraphView, c: GraphView, l: PeerLog) -> bool {
    &&& s.phrases.len() <= c.phrases.len()
    &&& s.indices == c.indices.take(s.phrases.len() as int)
    &&& unique_keys(l.texts)
    &&& unique_keys(l.responses)
    &&& forall|j: int|
        0 <= j < l.texts.len() ==> (#[trigger] l.texts[j]).0 < c.phrases.len() && l.texts[j].1
            < c.phrases[l.texts[j].0 as int].texts.len()
    &&& forall|j: int|
        0 <= j < l.responses.len() ==> (#[trigger] l.responses[j]).0 < c.phrases.len() && l.responses[j].1
            <= c.phrases[l.responses[j].0 as int].responses.len()
    &&& forall|i: int|
        0 <= i < s.phrases.len() ==> (#[trigger] s.phrases[i]).texts == c.phrases[i].texts.take(
            seen_texts(c, l, i),
        ) && s.phrases[i].responses == c.phrases[i].responses.take(seen_responses(c, l, i))
    &&& forall|i: usize|
        s.phrases.len() <= i < c.phrases.len() ==> #[trigger] value_of(l.texts, i) == Some(0usize)
            && seen_responses(c, l, i as int) == 0
    &&& forall|a: int, b: int|
        0 <= a < b < l.texts.len() && (#[trigger] l.texts[a]).0 >= s.phrases.len() && (#[trigger] l.texts[b]).0
            >= s.phrases.len() ==> l.texts[a].0 < l.texts[b].0
}

/// Some piece before `m` ships texts of phrase `i`.
pub open spec fn done_text(plan: Seq<Piece>, m: int, i: int) -> bool {
    exists|k: int| 0 <= k < m && (#[trigger] plan[k]).0 == i && plan[k].1 is Some
}

pub proof fn lemma_delta_log_take(plan: Seq<Piece>, m: int)
    requires
        0 <= m < plan.len(),
    ensures
        delta_log(plan.take(m + 1)).texts == delta_log(plan.take(m)).texts.push(
            ((m + 1) as usize, if plan[m].1 is Some { 0usize } else { 1usize }),
        ),
        delta_log(plan.take(m + 1)).responses == if plan[m].2 is Some {
            delta_log(plan.take(m)).responses.push(((m + 1) as usize, 0usize))
        } else {
            delta_log(plan.take(m)).responses
        },
{
    assert(plan.take(m + 1).drop_last() =~= plan.take(m));
    assert(plan.take(m + 1).last() == plan[m]);
}

/// The text entries of one sync, up to piece `m`.
pub proof fn lemma_sync_texts(s: GraphView, c: GraphView, l: PeerLog, d: GraphView, m: int)
    requires
        graph_wf(c),
        uniform(c),
        behind(s, c, l),
        is_delta_of(d, c, delta_plan(l)),
        d.phrases.len() <= usize::MAX,
        0 <= m <= delta_plan(l).len(),
    ensures
        ({
            let plan = delta_plan(l);
            let (h, mm) = merge_texts(s, d, delta_log(plan.take(m)).texts);
            &&& s.phrases.len() <= h.phrases.len() <= c.phrases.len()
            &&& h.indices == c.indices.take(h.phrases.len() as int)
            &&& forall|i: int|
                0 <= i < h.phrases.len() ==> (#[trigger] h.phrases[i]).texts == (if done_text(plan, m, i) {
                    c.phrases[i].texts
                } else {
                    c.phrases[i].texts.take(seen_texts(c, l, i))
                }) && h.phrases[i].responses == c.phrases[i].responses.take(seen_responses(c, l, i))
            &&& forall|i: int|
                s.phrases.len() <= i < c.phrases.len() ==> (i < h.phrases.len() <==> #[trigger] done_text(
                    plan,
                    m,
                    i,
                ))
            &&& mm.len() == d.phrases.len()
            &&& forall|x: int|
                0 <= x < mm.len() ==> #[trigger] mm[x] == (if 1 <= x <= m {
                    Some(plan[x - 1].0)
                } else {
                    None
                })
        }),
    decreases m,
{
    let plan = delta_plan(l);
    let na = l.texts.len() as int;
    lemma_plan_shape(l);
    if m == 0 {
        assert(plan.take(0) =~= Seq::<Piece>::empty());
        assert(s.indices == c.indices.take(s.phrases.len() as int));
        assert forall|i: int| 0 <= i < s.phrases.len() implies !done_text(plan, 0, i) by {}
        assert forall|i: int| s.phrases.len() <= i < c.phrases.len() implies !done_text(plan, 0, i) by {}
    } else {
        let k = m - 1;
        lemma_sync_texts(s, c, l, d, k);
        lemma_delta_log_take(plan, k);
        let (h1, m1) = merge_texts(s, d, delta_log(plan.take(k)).texts);
        let tl = delta_log(plan.take(m)).texts;
        assert(tl.drop_last() =~= delta_log(plan.take(k)).texts);
        assert(tl.last() == ((k + 1) as usize, if plan[k].1 is Some { 0usize } else { 1usize }));
        assert(d.phrases.len() == plan.len() + 1);
        assert(((k + 1) as usize) as int == m);
        let piece = plan[k];
        let i = piece.0;
        assert(d.phrases[k + 1] == slice_phrase(c, piece));
        assert(i < c.phrases.len()) by {
            if k < na {
                assert(piece.0 == l.texts[k].0);
            } else {
                assert(has_key(l.responses, i)) by {
                    lemma_value_of(l.responses, i);
                }
                let y = choose|y: int| 0 <= y < l.responses.len() && l.responses[y].0 == i;
            }
        }
        assert(c.indices[i as int].1 == i);
        let n1 = h1.phrases.len() as int;
        assert forall|kk: int| 0 <= kk < k implies (#[trigger] plan[kk]).0 != i by {}
        assert(!done_text(plan, k, i as int));
        let (h, mm) = merge_texts(s, d, delta_log(plan.take(m)).texts);
        assert forall|x: int| 0 <= x < h1.indices.len() && h1.indices[x].0 == c.indices[i as int].0 implies x == i by {
            assert(h1.indices[x] == c.indices[x]);
        }
        if k < na {
            let off = l.texts[k].1;
            assert(piece == (i, Some(off), value_of(l.responses, i)));
            lemma_value_of_unique(l.texts, k);
            let ts = c.phrases[i as int].texts.skip(off as int);
            assert(slice_phrase(c, piece).texts == ts);
            assert(ts.len() > 0);
            assert(name_text(ts) == c.phrases[i as int].texts[off as int]);
            assert(cloud_of_text(name_text(ts)) == c.indices[i as int].0);
            if (i as int) < n1 {
                assert(i < s.phrases.len());
                lemma_cloud_slot(h1.indices, c.indices[i as int].0);
                assert(h1.indices[i as int] == c.indices[i as int]);
                assert(index_of_cloud(h1.indices, c.indices[i as int].0) == Some(i));
                assert(d.phrases[m].texts.skip(0) =~= ts);
                let (h2, r2) = insert_texts_spec(h1, c.indices[i as int].0, ts);
                assert(h == h2);
                assert(seen_texts(c, l, i as int) == off);
                assert(h1.phrases[i as int].texts == c.phrases[i as int].texts.take(off as int));
                assert(h.phrases[i as int].texts == h1.phrases[i as int].texts + ts);
                assert(h.phrases[i as int].texts =~= c.phrases[i as int].texts);
                assert forall|ii: int| 0 <= ii < h.phrases.len() implies (#[trigger] h.phrases[ii]).texts == (if done_text(plan, m, ii) {
                    c.phrases[ii].texts
                } else {
                    c.phrases[ii].texts.take(seen_texts(c, l, ii))
                }) && h.phrases[ii].responses == c.phrases[ii].responses.take(seen_responses(c, l, ii)) by {
                    if ii == i {
                        assert(plan[k].0 == ii && plan[k].1 is Some);
                        assert(done_text(plan, m, ii));
                    } else {
                        assert(h.phrases[ii] == h1.phrases[ii]);
                        if done_text(plan, m, ii) {
                            let kk = choose|kk: int| 0 <= kk < m && (#[trigger] plan[kk]).0 == ii && plan[kk].1 is Some;
                            assert(kk != k);
                            assert(done_text(plan, k, ii));
                        }
                    }
                }
                assert forall|ii: int| s.phrases.len() <= ii < c.phrases.len() implies (ii < h.phrases.len() <==> #[trigger] done_text(plan, m, ii)) by {
                    if done_text(plan, m, ii) {
                        let kk = choose|kk: int| 0 <= kk < m && (#[trigger] plan[kk]).0 == ii && plan[kk].1 is Some;
                        if kk != k {
                            assert(done_text(plan, k, ii));
                        }
                    }
                    if done_text(plan, k, ii) {
                        let kk = choose|kk: int| 0 <= kk < k && (#[trigger] plan[kk]).0 == ii && plan[kk].1 is Some;
                        assert(done_text(plan, m, ii));
                    }
                }
            } else {
                assert(i >= s.phrases.len());
                if (i as int) > n1 {
                    assert(n1 < c.phrases.len());
                    assert(value_of(l.texts, n1 as usize) == Some(0usize));
                    lemma_value_of(l.texts, n1 as usize);
                    let j2 = choose|j2: int| 0 <= j2 < l.texts.len() && l.texts[j2] == (n1 as usize, 0usize);
                    assert(plan[j2].0 == n1);
                    if j2 < k {
                        assert(done_text(plan, k, n1));
                    }
                    assert(j2 != k);
                    assert(l.texts[k].0 < l.texts[j2].0);
                    assert(false);
                }
                assert(i as int == n1);
                assert(d.phrases[m].texts.skip(0) =~= ts);
                lemma_cloud_slot(h1.indices, c.indices[i as int].0);
                assert(index_of_cloud(h1.indices, c.indices[i as int].0) is None);
                assert(value_of(l.texts, i) == Some(0usize));
                assert(off == 0);
                assert(h.indices =~= c.indices.take(m as int + 0 + (n1 + 1 - m))) by {
                    assert(h.indices =~= c.indices.take(n1 + 1));
                }
                assert(h.indices =~= c.indices.take(h.phrases.len() as int));
                assert forall|ii: int| 0 <= ii < h.phrases.len() implies (#[trigger] h.phrases[ii]).texts == (if done_text(plan, m, ii) {
                    c.phrases[ii].texts
                } else {
                    c.phrases[ii].texts.take(seen_texts(c, l, ii))
                }) && h.phrases[ii].responses == c.phrases[ii].responses.take(seen_responses(c, l, ii)) by {
                    if ii == i {
                        assert(plan[k].0 == ii && plan[k].1 is Some);
                        assert(done_text(plan, m, ii));
                        assert(ts =~= c.phrases[ii].texts);
                        assert(seen_responses(c, l, ii) == 0);
                        assert(c.phrases[ii].responses.take(0) =~= Seq::<(usize, crate::persona::GeneralPerson)>::empty());
                    } else {
                        assert(h.phrases[ii] == h1.phrases[ii]);
                        if done_text(plan, m, ii) {
                            let kk = choose|kk: int| 0 <= kk < m && (#[trigger] plan[kk]).0 == ii && plan[kk].1 is Some;
                            assert(kk != k);
                            assert(done_text(plan, k, ii));
                        }
                    }
                }
                assert forall|ii: int| s.phrases.len() <= ii < c.phrases.len() implies (ii < h.phrases.len() <==> #[trigger] done_text(plan, m, ii)) by {
                    if done_text(plan, m, ii) {
                        let kk = choose|kk: int| 0 <= kk < m && (#[trigger] plan[kk]).0 == ii && plan[kk].1 is Some;
                        if kk != k {
                            assert(done_text(plan, k, ii));
                        }
                    }
                    if done_text(plan, k, ii) {
                        let kk = choose|kk: int| 0 <= kk < k && (#[trigger] plan[kk]).0 == ii && plan[kk].1 is Some;
                        assert(done_text(plan, m, ii));
                    }
                    if ii == i {
                        assert(plan[k].0 == ii && plan[k].1 is Some);
                        assert(done_text(plan, m, ii));
                    }
                }
            }
        } else {
            assert(piece.1 is None);
            assert(!has_key(l.texts, i));
            assert(i < s.phrases.len()) by {
                if i >= s.phrases.len() {
                    assert(value_of(l.texts, i) == Some(0usize));
                    lemma_value_of(l.texts, i);
                }
            }
            let ts = slice_phrase(c, piece).texts;
            assert(ts == seq![name_text(c.phrases[i as int].texts)]);
            assert(cloud_of_text(name_text(ts)) == c.indices[i as int].0) by {
                assert(c.phrases[i as int].texts.len() >= 1);
                assert(name_text(ts) == c.phrases[i as int].texts[0]);
            }
            assert(ts.skip(1) =~= Seq::<Seq<char>>::empty());
            lemma_cloud_slot(h1.indices, c.indices[i as int].0);
            assert(h1.indices[i as int] == c.indices[i as int]);
            assert(index_of_cloud(h1.indices, c.indices[i as int].0) == Some(i));
            assert(h == h1);
            assert forall|ii: int| 0 <= ii < h.phrases.len() implies (#[trigger] h.phrases[ii]).texts == (if done_text(plan, m, ii) {
                c.phrases[ii].texts
            } else {
                c.phrases[ii].texts.take(seen_texts(c, l, ii))
            }) && h.phrases[ii].responses == c.phrases[ii].responses.take(seen_responses(c, l, ii)) by {
                if done_text(plan, m, ii) {
                    let kk = choose|kk: int| 0 <= kk < m && (#[trigger] plan[kk]).0 == ii && plan[kk].1 is Some;
                    assert(kk != k);
                    assert(done_text(plan, k, ii));
                }
            }
            assert forall|ii: int| s.phrases.len() <= ii < c.phrases.len() implies (ii < h.phrases.len() <==> #[trigger] done_text(plan, m, ii)) by {
                if done_text(plan, m, ii) {
                    let kk = choose|kk: int| 0 <= kk < m && (#[trigger] plan[kk]).0 == ii && plan[kk].1 is Some;
                    assert(kk != k);
                    assert(done_text(plan, k, ii));
                }
                if done_text(plan, k, ii) {
                    let kk = choose|kk: int| 0 <= kk < k && (#[trigger] plan[kk]).0 == ii && plan[kk].1 is Some;
                    assert(done_text(plan, m, ii));
                }
            }
        }
        assert forall|x: int| 0 <= x < mm.len() implies #[trigger] mm[x] == (if 1 <= x <= m {
            Some(plan[x - 1].0)
        } else {
            None
        }) by {
            if x != m {
                assert(mm[x] == m1[x]);
            }
        }
    }
}

/// Some piece before `m` ships responses of phrase `i`.
pub open spec fn done_resp(plan: Seq<Piece>, m: int, i: int) -> bool {
    exists|k: int| 0 <= k < m && (#[trigger] plan[k]).0 == i && plan[k].2 is Some
}

/// In a delta, the cloud index gives every target of a shipped response
/// its cloud in the graph the delta was made from.
pub proof fn lemma_delta_target(c: GraphView, d: GraphView, plan: Seq<Piece>, k: int, q: int)
    requires
        graph_wf(c),
        is_delta_of(d, c, plan),
        0 <= k < plan.len(),
        0 <= q < slice_phrase(c, plan[k]).responses.len(),
    ensures
        slice_phrase(c, plan[k]).responses[q].0 < c.phrases.len(),
        cloud_of_index(d.indices, slice_phrase(c, plan[k]).responses[q].0) == Some(
            c.indices[slice_phrase(c, plan[k]).responses[q].0 as int].0,
        ),
{
    let j = slice_phrase(c, plan[k]).responses[q].0;
    assert(ships_target(c, plan, j));
    assert(dict_names(c, d.indices, j));
    lemma_cloud_slot(d.indices, c.indices[j as int].0);
    let sl = cloud_slot(d.indices, c.indices[j as int].0);
    assert(d.indices[sl].1 == j);
    lemma_index_slot(d.indices, j);
    let x = index_slot(d.indices, j);
    assert(d.indices[x].1 == j);
}

/// `e` is the response entry of some piece of `plan` that ships responses.
pub open spec fn response_of_piece(plan: Seq<Piece>, e: (usize, usize)) -> bool {
    exists|k: int| 0 <= k < plan.len() && e == ((k + 1) as usize, 0usize) && plan[k].2 is Some
}

/// The entries of the log of a delta.
pub proof fn lemma_delta_log_entries(plan: Seq<Piece>)
    requires
        plan.len() < usize::MAX,
    ensures
        delta_log(plan).texts.len() == plan.len(),
        forall|x: int|
            0 <= x < plan.len() ==> #[trigger] delta_log(plan).texts[x] == ((x + 1) as usize, if plan[x].1 is Some {
                0usize
            } else {
                1usize
            }),
        forall|x: int|
            0 <= x < delta_log(plan).responses.len() ==> response_of_piece(plan, #[trigger] delta_log(plan).responses[x]),
    decreases plan.len(),
{
    if plan.len() > 0 {
        let p = plan.drop_last();
        lemma_delta_log_entries(p);
        assert forall|x: int| 0 <= x < plan.len() implies #[trigger] delta_log(plan).texts[x] == ((x + 1) as usize, if plan[x].1 is Some {
            0usize
        } else {
            1usize
        }) by {
            if x < p.len() {
                assert(plan[x] == p[x]);
                assert(delta_log(plan).texts[x] == delta_log(p).texts[x]);
            }
        }
        assert forall|x: int| 0 <= x < delta_log(plan).responses.len() implies response_of_piece(plan, #[trigger] delta_log(plan).responses[x]) by {
            assert(plan.drop_last() == p);
            if x < delta_log(p).responses.len() {
                assert(delta_log(plan).responses[x] == delta_log(p).responses[x]);
                assert(response_of_piece(p, delta_log(p).responses[x]));
                let k = choose|k: int| 0 <= k < p.len() && delta_log(p).responses[x] == ((k + 1) as usize, 0usize)
                    && p[k].2 is Some;
                assert(plan[k] == p[k]);
                assert(0 <= k < plan.len() && delta_log(plan).responses[x] == ((k + 1) as usize, 0usize) && plan[k].2 is Some);
            } else {
                let k = plan.len() - 1;
                assert(plan.last().2 is Some);
                assert(delta_log(plan).responses[x] == ((plan.len()) as usize, 0usize));
                assert(plan[k] == plan.last());
                assert(0 <= k < plan.len() && delta_log(plan).responses[x] == ((k + 1) as usize, 0usize) && plan[k].2 is Some);
            }
        }
    }
}

/// The response entries of one sync, up to piece `m`, on the graph the text
/// entries left.
pub proof fn lemma_sync_responses(
    s: GraphView,
    c: GraphView,
    l: PeerLog,
    d: GraphView,
    h0: GraphView,
    mm: Seq<Option<usize>>,
    m: int,
)
    requires
        graph_wf(c),
        behind(s, c, l),
        is_delta_of(d, c, delta_plan(l)),
        d.phrases.len() <= usize::MAX,
        h0.phrases.len() == c.phrases.len(),
        h0.indices == c.indices,
        forall|i: int|
            0 <= i < c.phrases.len() ==> (#[trigger] h0.phrases[i]).texts == c.phrases[i].texts
                && h0.phrases[i].responses == c.phrases[i].responses.take(seen_responses(c, l, i)),
        mm.len() == d.phrases.len(),
        forall|x: int|
            0 <= x < mm.len() ==> #[trigger] mm[x] == (if 1 <= x <= delta_plan(l).len() {
                Some(delta_plan(l)[x - 1].0)
            } else {
                None
            }),
        0 <= m <= delta_plan(l).len(),
    ensures
        ({
            let plan = delta_plan(l);
            let (h, ok) = merge_responses(h0, d, mm, delta_log(plan.take(m)).responses);
            &&& ok
            &&& h.indices == c.indices
            &&& h.phrases.len() == c.phrases.len()
            &&& forall|i: int|
                0 <= i < c.phrases.len() ==> (#[trigger] h.phrases[i]).texts == c.phrases[i].texts
                    && h.phrases[i].responses == (if done_resp(plan, m, i) {
                    c.phrases[i].responses
                } else {
                    c.phrases[i].responses.take(seen_responses(c, l, i))
                })
        }),
    decreases m,
{
    let plan = delta_plan(l);
    let na = l.texts.len() as int;
    lemma_plan_shape(l);
    if m == 0 {
        assert(plan.take(0) =~= Seq::<Piece>::empty());
        assert forall|i: int| 0 <= i < c.phrases.len() implies !done_resp(plan, 0, i) by {}
    } else {
        let k = m - 1;
        lemma_sync_responses(s, c, l, d, h0, mm, k);
        lemma_delta_log_take(plan, k);
        let (h1, ok1) = merge_responses(h0, d, mm, delta_log(plan.take(k)).responses);
        let piece = plan[k];
        let i = piece.0;
        assert forall|kk: int| 0 <= kk < k implies (#[trigger] plan[kk]).0 != i by {}
        assert(!done_resp(plan, k, i as int));
        let (h, ok) = merge_responses(h0, d, mm, delta_log(plan.take(m)).responses);
        if piece.2 is None {
            assert(h == h1 && ok == ok1);
            assert forall|ii: int| 0 <= ii < c.phrases.len() implies done_resp(plan, m, ii) == done_resp(plan, k, ii) by {
                if done_resp(plan, m, ii) {
                    let kk = choose|kk: int| 0 <= kk < m && (#[trigger] plan[kk]).0 == ii && plan[kk].2 is Some;
                    assert(kk != k);
                }
            }
        } else {
            let off = piece.2->0;
            let rl = delta_log(plan.take(m)).responses;
            assert(rl.drop_last() =~= delta_log(plan.take(k)).responses);
            assert(rl.last() == ((k + 1) as usize, 0usize));
            assert(d.phrases.len() == plan.len() + 1);
            assert(((k + 1) as usize) as int == m);
            assert(mm[m] == Some(i));
            assert(value_of(l.responses, i) == Some(off)) by {
                if k < na {
                    assert(piece == (l.texts[k].0, Some(l.texts[k].1), value_of(l.responses, l.texts[k].0)));
                }
            }
            lemma_value_of(l.responses, i);
            let y = choose|y: int| 0 <= y < l.responses.len() && l.responses[y] == (i, off);
            assert(l.responses[y] == (i, off));
            assert(i < c.phrases.len() && off <= c.phrases[i as int].responses.len());
            assert(d.phrases[m] == slice_phrase(c, piece));
            let shipped = d.phrases[m].responses.skip(0);
            assert(shipped =~= c.phrases[i as int].responses.skip(off as int));
            assert(shipped =~= slice_phrase(c, piece).responses);
            assert forall|q: int| 0 <= q < shipped.len() implies index_of_cloud(
                h1.indices,
                cloud_of_index(d.indices, (#[trigger] shipped[q]).0)->0,
            ) == Some(shipped[q].0) by {
                lemma_delta_target(c, d, plan, k, q);
                let j = shipped[q].0;
                lemma_index_of_cloud_wf(c, c.indices[j as int].0);
                assert(c.indices[j as int].1 == j);
            }
            assert(resolvable(h1, d, shipped));
            assert(remapped(h1, d, shipped) =~= shipped);
            assert(h == insert_responses_spec(h1, i, shipped));
            assert(seen_responses(c, l, i as int) == off);
            assert(h.phrases[i as int].responses =~= c.phrases[i as int].responses);
            assert forall|ii: int| 0 <= ii < c.phrases.len() implies (#[trigger] h.phrases[ii]).texts == c.phrases[ii].texts
                && h.phrases[ii].responses == (if done_resp(plan, m, ii) {
                c.phrases[ii].responses
            } else {
                c.phrases[ii].responses.take(seen_responses(c, l, ii))
            }) by {
                if ii == i {
                    assert(plan[k].0 == ii && plan[k].2 is Some);
                    assert(done_resp(plan, m, ii));
                } else {
                    assert(h.phrases[ii] == h1.phrases[ii]);
                    if done_resp(plan, m, ii) {
                        let kk = choose|kk: int| 0 <= kk < m && (#[trigger] plan[kk]).0 == ii && plan[kk].2 is Some;
                        assert(kk != k);
                        assert(done_resp(plan, k, ii));
                    }
                }
            }
        }
    }
}

/// One sync: a peer `s` that is behind the graph `c` by exactly the log `c`
/// keeps for it merges the delta `c` makes from that log whole, and ends
/// with the phrases and the cloud index of `c`, so equal to `c`. The texts
/// of each phrase of `c` are to share its cloud.
pub proof fn law_sync_catches_up(s: GraphView, c: GraphView, d: GraphView)
    requires
        graph_wf(c),
        uniform(c),
        behind(s, c, log_of(c.tracker, SERVER@)),
        is_delta_of(d, c, delta_plan(log_of(c.tracker, SERVER@))),
        d.phrases.len() <= usize::MAX,
    ensures
        delta_shaped(d),
        merge_spec(s, d).1,
        merge_spec(s, d).0.phrases == c.phrases,
        merge_spec(s, d).0.indices == c.indices,
        graphs_equal(merge_spec(s, d).0, c),
{
    let l = log_of(c.tracker, SERVER@);
    let plan = delta_plan(l);
    let n = plan.len() as int;
    lemma_plan_shape(l);
    assert(d.tracker.last().0 == SERVER@);
    assert(peer_slot(d.tracker, SERVER@) == 0);
    assert(sent_log(d) == delta_log(plan));
    assert(d.phrases.len() == n + 1);
    lemma_delta_log_entries(plan);
    assert forall|x: int| 0 <= x < sent_log(d).texts.len() implies text_entry_ok(d, #[trigger] sent_log(d).texts[x]) by {
        assert(d.phrases[x + 1] == slice_phrase(c, plan[x]));
    }
    assert forall|x: int| 0 <= x < sent_log(d).responses.len() implies response_entry_ok(d, #[trigger] sent_log(d).responses[x]) by {
        assert(response_of_piece(plan, delta_log(plan).responses[x]));
        let k = choose|k: int| 0 <= k < plan.len() && delta_log(plan).responses[x] == ((k + 1) as usize, 0usize)
            && plan[k].2 is Some;
        assert(d.phrases[k + 1] == slice_phrase(c, plan[k]));
        assert forall|q: int| 0 <= q < d.phrases[k + 1].responses.len() implies cloud_of_index(
            d.indices,
            (#[trigger] d.phrases[k + 1].responses[q]).0,
        ) is Some by {
            lemma_delta_target(c, d, plan, k, q);
        }
    }
    assert(plan.take(n) =~= plan);
    lemma_sync_texts(s, c, l, d, n);
    let (h0, mm) = merge_texts(s, d, sent_log(d).texts);
    assert forall|i: int| s.phrases.len() <= i < c.phrases.len() implies done_text(plan, n, i) by {
        assert(c.indices[i].1 == i);
        assert(value_of(l.texts, i as usize) == Some(0usize));
        lemma_value_of(l.texts, i as usize);
    }
    assert(h0.phrases.len() == c.phrases.len()) by {
        if h0.phrases.len() < c.phrases.len() {
            assert(done_text(plan, n, h0.phrases.len() as int));
        }
    }
    assert(c.indices.take(c.phrases.len() as int) =~= c.indices);
    assert forall|i: int| 0 <= i < c.phrases.len() implies (#[trigger] h0.phrases[i]).texts == c.phrases[i].texts
        && h0.phrases[i].responses == c.phrases[i].responses.take(seen_responses(c, l, i)) by {
        assert(c.indices[i].1 == i);
        if !done_text(plan, n, i) {
            if has_key(l.texts, i as usize) {
                let k = choose|k: int| 0 <= k < l.texts.len() && (#[trigger] plan[k]).0 == i as usize;
                assert(done_text(plan, n, i));
            }
            lemma_value_of(l.texts, i as usize);
            assert(c.phrases[i].texts.take(seen_texts(c, l, i)) =~= c.phrases[i].texts);
        }
    }
    lemma_sync_responses(s, c, l, d, h0, mm, n);
    let (h, ok) = merge_responses(h0, d, mm, sent_log(d).responses);
    assert forall|i: int| 0 <= i < c.phrases.len() implies h.phrases[i] == c.phrases[i] by {
        assert(c.indices[i].1 == i);
        if !done_resp(plan, n, i) {
            if has_key(l.responses, i as usize) {
                let k = choose|k: int| 0 <= k < plan.len() && (#[trigger] plan[k]).0 == i as usize && plan[k].2 == value_of(l.responses, i as usize);
                lemma_value_of(l.responses, i as usize);
                assert(done_resp(plan, n, i));
            }
            lemma_value_of(l.responses, i as usize);
            assert(c.phrases[i].responses.take(seen_responses(c, l, i)) =~= c.phrases[i].responses);
        }
    }
    assert(h.phrases =~= c.phrases);
    lemma_equal_when_alike(h, c);
}

/// The lengths of `c` fit in `usize`, as those of a graph in memory do.
pub open spec fn sizes_fit(c: GraphView) -> bool {
    &&& c.phrases.len() <= usize::MAX
    &&& forall|i: int|
        0 <= i < c.phrases.len() ==> (#[trigger] c.phrases[i]).texts.len() <= usize::MAX
            && c.phrases[i].responses.len() <= usize::MAX
}

/// Stamping every peer's log keeps each peer where it is and stamps its log.
pub proof fn lemma_log_of_stamp(t: Seq<(Seq<char>, PeerLog)>, id: Seq<char>, k: usize, v: usize)
    ensures
        peer_slot(stamp_texts(t, k, v), id) == peer_slot(t, id),
        peer_slot(stamp_responses(t, k, v), id) == peer_slot(t, id),
        peer_slot(t, id) >= 0 ==> log_of(stamp_texts(t, k, v), id) == (PeerLog {
            texts: stamp(log_of(t, id).texts, k, v),
            responses: log_of(t, id).responses,
        }),
        peer_slot(t, id) >= 0 ==> log_of(stamp_responses(t, k, v), id) == (PeerLog {
            texts: log_of(t, id).texts,
            responses: stamp(log_of(t, id).responses, k, v),
        }),
    decreases t.len(),
{
    lemma_peer_slot(t, id);
    if t.len() > 0 {
        lemma_log_of_stamp(t.drop_last(), id, k, v);
        assert(stamp_texts(t, k, v).drop_last() =~= stamp_texts(t.drop_last(), k, v));
        assert(stamp_responses(t, k, v).drop_last() =~= stamp_responses(t.drop_last(), k, v));
        if peer_slot(t, id) >= 0 && peer_slot(t, id) < t.len() - 1 {
            assert(t[peer_slot(t, id)] == t.drop_last()[peer_slot(t, id)]);
        }
    }
}

/// Right after `updated` for it, a peer that holds the same phrases and
/// cloud index as a graph is behind it by exactly the (empty) log.
pub proof fn law_behind_after_update(s: GraphView, c: GraphView, id: Seq<char>)
    requires
        graph_wf(c),
        s.phrases == c.phrases,
        s.indices == c.indices,
    ensures
        behind(s, GraphView { tracker: reset_peer(c.tracker, id), ..c }, log_of(reset_peer(c.tracker, id), id)),
{
    lemma_slot_of_reset(c.tracker, id);
    let c2 = GraphView { tracker: reset_peer(c.tracker, id), ..c };
    let l = log_of(reset_peer(c.tracker, id), id);
    assert(l == empty_log());
    assert(c.indices.take(s.phrases.len() as int) =~= c.indices);
    assert forall|i: int| 0 <= i < s.phrases.len() implies (#[trigger] s.phrases[i]).texts == c2.phrases[i].texts.take(
        seen_texts(c2, l, i),
    ) && s.phrases[i].responses == c2.phrases[i].responses.take(seen_responses(c2, l, i)) by {
        assert(c.phrases[i].texts.take(c.phrases[i].texts.len() as int) =~= c.phrases[i].texts);
        assert(c.phrases[i].responses.take(c.phrases[i].responses.len() as int) =~= c.phrases[i].responses);
    }
}

/// Adding texts of one cloud to a registered graph keeps a peer behind it
/// by exactly the log the graph keeps for the peer, and keeps every text of
/// a phrase in the phrase's cloud.
pub proof fn law_texts_keep_behind(s: GraphView, c: GraphView, id: Seq<char>, cl: Set<Seq<char>>, ts: Seq<Seq<char>>)
    requires
        graph_wf(c),
        sizes_fit(c),
        uniform(c),
        peer_slot(c.tracker, id) >= 0,
        behind(s, c, log_of(c.tracker, id)),
        ts.len() > 0,
        forall|t: int| 0 <= t < ts.len() ==> cloud_of_text(#[trigger] ts[t]) == cl,
    ensures
        ({
            let c2 = insert_texts_spec(c, cl, ts).0;
            &&& uniform(c2)
            &&& behind(s, c2, log_of(c2.tracker, id))
        }),
{
    let l = log_of(c.tracker, id);
    let (c2, r) = insert_texts_spec(c, cl, ts);
    lemma_index_of_cloud_wf(c, cl);
    {
        match index_of_cloud(c.indices, cl) {
            Some(i) => {
                let v = c.phrases[i as int].texts.len() as usize;
                lemma_log_of_stamp(c.tracker, id, i, v);
                let l2 = log_of(c2.tracker, id);
                assert(l2 == PeerLog { texts: stamp(l.texts, i, v), responses: l.responses });
                lemma_stamp_facts(l.texts, i, v);
                assert(c2.indices == c.indices);
                assert forall|ii: int, t: int| 0 <= ii < c2.phrases.len() && 0 <= t < c2.phrases[ii].texts.len() implies cloud_of_text(
                    #[trigger] c2.phrases[ii].texts[t],
                ) == c2.indices[ii].0 by {
                    if ii == i && t >= c.phrases[ii].texts.len() {
                        assert(c2.phrases[ii].texts[t] == ts[t - c.phrases[ii].texts.len()]);
                    } else {
                        assert(c2.phrases[ii].texts[t] == c.phrases[ii].texts[t]);
                    }
                }
                assert forall|j: int| 0 <= j < l2.texts.len() implies (#[trigger] l2.texts[j]).0 < c2.phrases.len()
                    && l2.texts[j].1 < c2.phrases[l2.texts[j].0 as int].texts.len() by {
                    if j < l.texts.len() {
                        assert(l2.texts[j] == l.texts[j]);
                    }
                }
                assert forall|j: int| 0 <= j < l2.responses.len() implies (#[trigger] l2.responses[j]).0 < c2.phrases.len()
                    && l2.responses[j].1 <= c2.phrases[l2.responses[j].0 as int].responses.len() by {
                    assert(l2.responses[j] == l.responses[j]);
                }
                assert forall|ii: int| 0 <= ii < s.phrases.len() implies (#[trigger] s.phrases[ii]).texts == c2.phrases[ii].texts.take(
                    seen_texts(c2, l2, ii),
                ) && s.phrases[ii].responses == c2.phrases[ii].responses.take(seen_responses(c2, l2, ii)) by {
                    assert(c.indices[ii].1 == ii);
                    if ii == i {
                        if has_key(l.texts, i) {
                            lemma_value_of(l.texts, i);
                            let j = choose|j: int| 0 <= j < l.texts.len() && l.texts[j] == (i, value_of(l.texts, i)->0);
                            assert(l.texts[j] == (i, value_of(l.texts, i)->0));
                            assert(c2.phrases[ii].texts.take(seen_texts(c2, l2, ii)) =~= c.phrases[ii].texts.take(seen_texts(c, l, ii)));
                        } else {
                            lemma_value_of(l.texts, i);
                            assert(c2.phrases[ii].texts.take(seen_texts(c2, l2, ii)) =~= c.phrases[ii].texts.take(seen_texts(c, l, ii)));
                        }
                    } else {
                        assert(c2.phrases[ii] == c.phrases[ii]);
                        assert(seen_texts(c2, l2, ii) == seen_texts(c, l, ii));
                    }
                }
                assert forall|ii: usize| s.phrases.len() <= ii < c2.phrases.len() implies #[trigger] value_of(l2.texts, ii) == Some(0usize)
                    && seen_responses(c2, l2, ii as int) == 0 by {
                    assert(value_of(l.texts, ii) == Some(0usize));
                    if ii == i {
                        lemma_value_of(l.texts, ii);
                    }
                }
                assert forall|a: int, b: int|
                    0 <= a < b < l2.texts.len() && (#[trigger] l2.texts[a]).0 >= s.phrases.len() && (#[trigger] l2.texts[b]).0
                        >= s.phrases.len() implies l2.texts[a].0 < l2.texts[b].0 by {
                    if b < l.texts.len() {
                        assert(l2.texts[a] == l.texts[a]);
                        assert(l2.texts[b] == l.texts[b]);
                    } else {
                        assert(!has_key(l.texts, i));
                        assert(l2.texts[b] == (i, v));
                        if i >= s.phrases.len() {
                            assert(value_of(l.texts, i) == Some(0usize));
                            lemma_value_of(l.texts, i);
                        }
                    }
                }
            },
            None => {
                let n = c.phrases.len() as usize;
                assert(r == Some(n));
                lemma_log_of_stamp(c.tracker, id, n, 0);
                let l2 = log_of(c2.tracker, id);
                assert(l2 == PeerLog { texts: stamp(l.texts, n, 0), responses: l.responses });
                assert(!has_key(l.texts, n)) by {
                    if has_key(l.texts, n) {
                        let j = choose|j: int| 0 <= j < l.texts.len() && l.texts[j].0 == n;
                    }
                }
                lemma_stamp_facts(l.texts, n, 0);
                assert(!has_key(l.responses, n)) by {
                    if has_key(l.responses, n) {
                        let j = choose|j: int| 0 <= j < l.responses.len() && l.responses[j].0 == n;
                    }
                }
                lemma_value_of(l.responses, n);
                assert(c2.indices.take(s.phrases.len() as int) =~= c.indices.take(s.phrases.len() as int));
                assert forall|ii: int, t: int| 0 <= ii < c2.phrases.len() && 0 <= t < c2.phrases[ii].texts.len() implies cloud_of_text(
                    #[trigger] c2.phrases[ii].texts[t],
                ) == c2.indices[ii].0 by {
                    if ii == n {
                        assert(c2.phrases[ii].texts[t] == ts[t]);
                    } else {
                        assert(c2.phrases[ii] == c.phrases[ii]);
                        assert(c2.indices[ii] == c.indices[ii]);
                    }
                }
                assert forall|j: int| 0 <= j < l2.texts.len() implies (#[trigger] l2.texts[j]).0 < c2.phrases.len()
                    && l2.texts[j].1 < c2.phrases[l2.texts[j].0 as int].texts.len() by {
                    if j < l.texts.len() {
                        assert(l2.texts[j] == l.texts[j]);
                        assert(c2.phrases[l.texts[j].0 as int] == c.phrases[l.texts[j].0 as int]);
                    }
                }
                assert forall|j: int| 0 <= j < l2.responses.len() implies (#[trigger] l2.responses[j]).0 < c2.phrases.len()
                    && l2.responses[j].1 <= c2.phrases[l2.responses[j].0 as int].responses.len() by {
                    assert(l2.responses[j] == l.responses[j]);
                    assert(c2.phrases[l.responses[j].0 as int] == c.phrases[l.responses[j].0 as int]);
                }
                assert forall|ii: int| 0 <= ii < s.phrases.len() implies (#[trigger] s.phrases[ii]).texts == c2.phrases[ii].texts.take(
                    seen_texts(c2, l2, ii),
                ) && s.phrases[ii].responses == c2.phrases[ii].responses.take(seen_responses(c2, l2, ii)) by {
                    assert(c.indices[ii].1 == ii);
                    assert(c2.phrases[ii] == c.phrases[ii]);
                    assert(seen_texts(c2, l2, ii) == seen_texts(c, l, ii));
                }
                assert forall|ii: usize| s.phrases.len() <= ii < c2.phrases.len() implies #[trigger] value_of(l2.texts, ii) == Some(0usize)
                    && seen_responses(c2, l2, ii as int) == 0 by {
                    if ii != n {
                        assert(value_of(l.texts, ii) == Some(0usize));
                        assert(c2.phrases[ii as int] == c.phrases[ii as int]);
                    }
                }
                assert forall|a: int, b: int|
                    0 <= a < b < l2.texts.len() && (#[trigger] l2.texts[a]).0 >= s.phrases.len() && (#[trigger] l2.texts[b]).0
                        >= s.phrases.len() implies l2.texts[a].0 < l2.texts[b].0 by {
                    if b < l.texts.len() {
                        assert(l2.texts[a] == l.texts[a]);
                        assert(l2.texts[b] == l.texts[b]);
                    } else {
                        assert(l2.texts[a] == l.texts[a]);
                        assert(l2.texts[b] == (n, 0usize));
                    }
                }
            },
        }
    }
}

/// Adding responses at a phrase of a registered graph keeps a peer behind
/// it by exactly the log the graph keeps for the peer.
pub proof fn law_responses_keep_behind(
    s: GraphView,
    c: GraphView,
    id: Seq<char>,
    i: usize,
    rs: Seq<(usize, crate::persona::GeneralPerson)>,
)
    requires
        graph_wf(c),
        sizes_fit(c),
        uniform(c),
        peer_slot(c.tracker, id) >= 0,
        behind(s, c, log_of(c.tracker, id)),
        i < c.phrases.len(),
    ensures
        ({
            let c2 = insert_responses_spec(c, i, rs);
            &&& uniform(c2)
            &&& behind(s, c2, log_of(c2.tracker, id))
        }),
{
    let l = log_of(c.tracker, id);
    let c2 = insert_responses_spec(c, i, rs);
    let v = c.phrases[i as int].responses.len() as usize;
    lemma_log_of_stamp(c.tracker, id, i, v);
    let l2 = log_of(c2.tracker, id);
    assert(l2 == PeerLog { texts: l.texts, responses: stamp(l.responses, i, v) });
    lemma_stamp_facts(l.responses, i, v);
    assert forall|ii: int, t: int| 0 <= ii < c2.phrases.len() && 0 <= t < c2.phrases[ii].texts.len() implies cloud_of_text(
        #[trigger] c2.phrases[ii].texts[t],
    ) == c2.indices[ii].0 by {
        assert(c2.phrases[ii].texts == c.phrases[ii].texts);
    }
    assert forall|j: int| 0 <= j < l2.texts.len() implies (#[trigger] l2.texts[j]).0 < c2.phrases.len()
        && l2.texts[j].1 < c2.phrases[l2.texts[j].0 as int].texts.len() by {
        assert(c2.phrases[l.texts[j].0 as int].texts == c.phrases[l.texts[j].0 as int].texts);
    }
    assert forall|j: int| 0 <= j < l2.responses.len() implies (#[trigger] l2.responses[j]).0 < c2.phrases.len()
        && l2.responses[j].1 <= c2.phrases[l2.responses[j].0 as int].responses.len() by {
        if j < l.responses.len() {
            assert(l2.responses[j] == l.responses[j]);
        }
    }
    assert forall|ii: int| 0 <= ii < s.phrases.len() implies (#[trigger] s.phrases[ii]).texts == c2.phrases[ii].texts.take(
        seen_texts(c2, l2, ii),
    ) && s.phrases[ii].responses == c2.phrases[ii].responses.take(seen_responses(c2, l2, ii)) by {
        assert(c.indices[ii].1 == ii);
        assert(seen_texts(c2, l2, ii) == seen_texts(c, l, ii));
        if ii == i {
            lemma_value_of(l.responses, i);
            if has_key(l.responses, i) {
                let j = choose|j: int| 0 <= j < l.responses.len() && l.responses[j] == (i, value_of(l.responses, i)->0);
                assert(l.responses[j] == (i, value_of(l.responses, i)->0));
            }
            assert(c2.phrases[ii].responses.take(seen_responses(c2, l2, ii)) =~= c.phrases[ii].responses.take(seen_responses(c, l, ii)));
        } else {
            assert(c2.phrases[ii] == c.phrases[ii]);
        }
    }
    assert forall|ii: usize| s.phrases.len() <= ii < c2.phrases.len() implies #[trigger] value_of(l2.texts, ii) == Some(0usize)
        && seen_responses(c2, l2, ii as int) == 0 by {
        assert(value_of(l.texts, ii) == Some(0usize));
        assert(seen_responses(c, l, ii as int) == 0);
        if ii == i {
            lemma_value_of(l.responses, i);
        } else {
            assert(c2.phrases[ii as int] == c.phrases[ii as int]);
        }
    }
}

/// An insertion of texts keeps a graph well formed.
pub proof fn lemma_insert_texts_wf(g: GraphView, cl: Set<Seq<char>>, ts: Seq<Seq<char>>)
    requires
        graph_wf(g),
        sizes_fit(g),
    ensures
        graph_wf(insert_texts_spec(g, cl, ts).0),
{
    lemma_index_of_cloud_wf(g, cl);
    law_insertions_grow(g, cl, ts, 0, Seq::empty());
    let (h, r) = insert_texts_spec(g, cl, ts);
    if ts.len() > 0 {
        match index_of_cloud(g.indices, cl) {
            Some(i) => {
                lemma_stamp_fits(g.tracker, g.phrases, h.phrases, i, g.phrases[i as int].texts.len() as usize, true);
                assert(h.phrases[0].texts[0] == g.phrases[0].texts[0]);
                assert forall|k: int, e: int|
                    0 <= k < h.phrases.len() && 0 <= e < h.phrases[k].responses.len() implies (
                    #[trigger] h.phrases[k].responses[e]).0 < h.phrases.len() by {
                    assert(h.phrases[k].responses == g.phrases[k].responses);
                }
            },
            None => {
                let n = g.phrases.len();
                lemma_stamp_fits(g.tracker, g.phrases, h.phrases, n as usize, 0, true);
                assert forall|a: int, b: int|
                    0 <= a < h.indices.len() && 0 <= b < h.indices.len() && a != b implies (
                    #[trigger] h.indices[a]).0 != (#[trigger] h.indices[b]).0 by {
                    if a < n && b < n {
                        assert(h.indices[a] == g.indices[a]);
                        assert(h.indices[b] == g.indices[b]);
                    } else if a < n {
                        assert(h.indices[a] == g.indices[a]);
                    } else {
                        assert(h.indices[b] == g.indices[b]);
                    }
                }
                assert forall|k: int| 0 <= k < h.indices.len() implies (#[trigger] h.indices[k]).1 == k by {
                    if k < n {
                        assert(h.indices[k] == g.indices[k]);
                    }
                }
                assert(h.phrases[0] == g.phrases[0]);
                assert forall|k: int, e: int|
                    0 <= k < h.phrases.len() && 0 <= e < h.phrases[k].responses.len() implies (
                    #[trigger] h.phrases[k].responses[e]).0 < h.phrases.len() by {
                    assert(h.phrases[k] == g.phrases[k]);
                }
            },
        }
    }
}

/// An insertion of responses that lead into the graph keeps it well formed.
pub proof fn lemma_insert_responses_wf(g: GraphView, i: usize, rs: Seq<(usize, GeneralPerson)>)
    requires
        graph_wf(g),
        sizes_fit(g),
        i < g.phrases.len(),
        forall|q: int| 0 <= q < rs.len() ==> (#[trigger] rs[q]).0 < g.phrases.len(),
    ensures
        graph_wf(insert_responses_spec(g, i, rs)),
{
    law_insertions_grow(g, Set::empty(), Seq::empty(), i, rs);
    let h = insert_responses_spec(g, i, rs);
    lemma_stamp_fits(g.tracker, g.phrases, h.phrases, i, g.phrases[i as int].responses.len() as usize, false);
    assert(h.phrases[0].texts == g.phrases[0].texts);
    assert forall|k: int, e: int|
        0 <= k < h.phrases.len() && 0 <= e < h.phrases[k].responses.len() implies (
        #[trigger] h.phrases[k].responses[e]).0 < h.phrases.len() by {
        if k == i && e >= g.phrases[k].responses.len() {
            assert(h.phrases[k].responses[e] == rs[e - g.phrases[k].responses.len()]);
        } else {
            assert(h.phrases[k].responses[e] == g.phrases[k].responses[e]);
        }
    }
}

/// An edit a graph takes between two syncs: texts added under a cloud, or
/// responses added at a phrase, as `insert_texts_at` and
/// `insert_responses_to` make them (and the walker through them).
pub enum Edit {
    Texts(Set<Seq<char>>, Seq<Seq<char>>),
    Responses(usize, Seq<(usize, GeneralPerson)>),
}

/// The graph once edit `e` is made.
pub open spec fn apply_edit(g: GraphView, e: Edit) -> GraphView {
    match e {
        Edit::Texts(cl, ts) => insert_texts_spec(g, cl, ts).0,
        Edit::Responses(i, rs) => insert_responses_spec(g, i, rs),
    }
}

/// The graph once the edits `es` are made in order.
pub open spec fn apply_edits(g: GraphView, es: Seq<Edit>) -> GraphView
    decreases es.len(),
{
    if es.len() == 0 {
        g
    } else {
        apply_edit(apply_edits(g, es.drop_last()), es.last())
    }
}

/// Edit `e` can be made on `g`: texts all of the cloud they are filed under,
/// responses at a phrase of `g` leading into `g`; and `g` fits in memory.
pub open spec fn edit_ok(g: GraphView, e: Edit) -> bool {
    &&& sizes_fit(g)
    &&& match e {
        Edit::Texts(cl, ts) => ts.len() > 0 && forall|t: int| 0 <= t < ts.len() ==> cloud_of_text(#[trigger] ts[t]) == cl,
        Edit::Responses(i, rs) => i < g.phrases.len() && forall|q: int|
            0 <= q < rs.len() ==> (#[trigger] rs[q]).0 < g.phrases.len(),
    }
}

/// Every edit of `es` can be made where it comes.
pub open spec fn edits_ok(g: GraphView, es: Seq<Edit>) -> bool {
    forall|k: int| 0 <= k < es.len() ==> edit_ok(apply_edits(g, es.take(k)), #[trigger] es[k])
}

/// A peer alike a graph is behind it by the empty log.
pub proof fn lemma_behind_alike(s: GraphView, c: GraphView, l: PeerLog)
    requires
        graph_wf(c),
        s.phrases == c.phrases,
        s.indices == c.indices,
        l == empty_log(),
    ensures
        behind(s, c, l),
{
    assert(c.indices.take(s.phrases.len() as int) =~= c.indices);
    assert forall|i: int| 0 <= i < s.phrases.len() implies (#[trigger] s.phrases[i]).texts == c.phrases[i].texts.take(
        seen_texts(c, l, i),
    ) && s.phrases[i].responses == c.phrases[i].responses.take(seen_responses(c, l, i)) by {
        assert(c.phrases[i].texts.take(c.phrases[i].texts.len() as int) =~= c.phrases[i].texts);
        assert(c.phrases[i].responses.take(c.phrases[i].responses.len() as int) =~= c.phrases[i].responses);
    }
}

/// Edits keep a registered graph well formed and uniform, and a peer behind
/// it by exactly its log.
pub proof fn lemma_edits_keep_behind(s: GraphView, c: GraphView, id: Seq<char>, es: Seq<Edit>, k: int)
    requires
        graph_wf(c),
        uniform(c),
        peer_slot(c.tracker, id) >= 0,
        behind(s, c, log_of(c.tracker, id)),
        edits_ok(c, es),
        0 <= k <= es.len(),
    ensures
        ({
            let g = apply_edits(c, es.take(k));
            &&& graph_wf(g)
            &&& uniform(g)
            &&& peer_slot(g.tracker, id) >= 0
            &&& behind(s, g, log_of(g.tracker, id))
        }),
    decreases k,
{
    if k == 0 {
        assert(es.take(0) =~= Seq::<Edit>::empty());
    } else {
        lemma_edits_keep_behind(s, c, id, es, k - 1);
        let g0 = apply_edits(c, es.take(k - 1));
        assert(es.take(k).drop_last() =~= es.take(k - 1));
        assert(es.take(k).last() == es[k - 1]);
        assert(edit_ok(g0, es[k - 1]));
        match es[k - 1] {
            Edit::Texts(cl, ts) => {
                law_texts_keep_behind(s, g0, id, cl, ts);
                lemma_insert_texts_wf(g0, cl, ts);
                lemma_log_of_stamp(g0.tracker, id, 0, 0);
                let h = insert_texts_spec(g0, cl, ts).0;
                lemma_index_of_cloud_wf(g0, cl);
                match index_of_cloud(g0.indices, cl) {
                    Some(i) => {
                        lemma_log_of_stamp(g0.tracker, id, i, g0.phrases[i as int].texts.len() as usize);
                    },
                    None => {
                        lemma_log_of_stamp(g0.tracker, id, g0.phrases.len() as usize, 0);
                    },
                }
            },
            Edit::Responses(i, rs) => {
                law_responses_keep_behind(s, g0, id, i, rs);
                lemma_insert_responses_wf(g0, i, rs);
                lemma_log_of_stamp(g0.tracker, id, i, g0.phrases[i as int].responses.len() as usize);
            },
        }
    }
}

/// Convergence with one peer: a peer alike a graph when the graph last
/// registered it (`updated`), after any edits of the graph, merges the delta
/// the graph then makes for it whole and ends equal to the graph. The graph
/// keeps the texts of each phrase in the phrase's cloud.
pub proof fn law_single_peer_converges(s: GraphView, c: GraphView, es: Seq<Edit>, d: GraphView)
    requires
        graph_wf(c),
        uniform(c),
        s.phrases == c.phrases,
        s.indices == c.indices,
        peer_slot(c.tracker, SERVER@) >= 0,
        log_of(c.tracker, SERVER@) == empty_log(),
        edits_ok(c, es),
        is_delta_of(d, apply_edits(c, es), delta_plan(log_of(apply_edits(c, es).tracker, SERVER@))),
        d.phrases.len() <= usize::MAX,
    ensures
        merge_spec(s, d).1,
        merge_spec(s, d).0.phrases == apply_edits(c, es).phrases,
        merge_spec(s, d).0.indices == apply_edits(c, es).indices,
        graphs_equal(merge_spec(s, d).0, apply_edits(c, es)),
{
    lemma_behind_alike(s, c, log_of(c.tracker, SERVER@));
    lemma_edits_keep_behind(s, c, SERVER@, es, es.len() as int);
    assert(es.take(es.len() as int) =~= es);
    law_sync_catches_up(s, apply_edits(c, es), d);
}

} // verus!
