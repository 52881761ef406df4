//! The graph store: phrases, the cloud of each, and the tracker that says
//! what every registered peer has not seen yet.

use vstd::prelude::*;
use crate::cloud::{WordCloud, cloud_of_text, string_views, lemma_empty_text_cloud};
use crate::persona::GeneralPerson;
use crate::phrase::{Phrase, PhraseView};
use crate::tracker::{
    DifferenceManager, PeerLog, OffsetLog, stamp_texts, stamp_responses,
    reset_peer, log_of, peer_slot, has_key, value_of, lemma_peer_slot, lemma_value_of, log_get,
    unique_keys, lemma_stamp_facts,
    log_has,
};

verus! {

/// The peer id under which a delta records what it carries.
pub const SERVER: &'static str = "server";

/// A graph as a value.
pub struct GraphView {
    pub phrases: Seq<PhraseView>,
    /// Cloud to phrase index, as entries in the order they were made.
    pub indices: Seq<(Set<Seq<char>>, usize)>,
    pub tracker: Seq<(Seq<char>, PeerLog)>,
}

/// The position of the entry for cloud `c`; of two, the later; `-1` if none.
pub open spec fn cloud_slot(ix: Seq<(Set<Seq<char>>, usize)>, c: Set<Seq<char>>) -> int
    decreases ix.len(),
{
    if ix.len() == 0 {
        -1
    } else if ix.last().0 == c {
        ix.len() - 1
    } else {
        cloud_slot(ix.drop_last(), c)
    }
}

/// The phrase index recorded for cloud `c`.
pub open spec fn index_of_cloud(ix: Seq<(Set<Seq<char>>, usize)>, c: Set<Seq<char>>) -> Option<usize> {
    let s = cloud_slot(ix, c);
    if s >= 0 {
        Some(ix[s].1)
    } else {
        None
    }
}

pub proof fn lemma_cloud_slot(ix: Seq<(Set<Seq<char>>, usize)>, c: Set<Seq<char>>)
    ensures
        -1 <= cloud_slot(ix, c) < ix.len(),
        cloud_slot(ix, c) >= 0 ==> ix[cloud_slot(ix, c)].0 == c,
        cloud_slot(ix, c) < 0 ==> forall|k: int| 0 <= k < ix.len() ==> ix[k].0 != c,
    decreases ix.len(),
{
    if ix.len() > 0 {
        lemma_cloud_slot(ix.drop_last(), c);
        if cloud_slot(ix, c) < 0 {
            assert forall|k: int| 0 <= k < ix.len() implies ix[k].0 != c by {
                if k < ix.len() - 1 {
                    assert(ix[k] == ix.drop_last()[k]);
                }
            }
        }
    }
}

/// The sentinel root as a graph is made: the empty text, no response.
pub open spec fn sentinel() -> PhraseView {
    PhraseView { texts: seq![Seq::<char>::empty()], responses: Seq::empty() }
}

/// The text that names a phrase in a delta: its first text, or the empty
/// text for a phrase with none.
pub open spec fn name_text(texts: Seq<Seq<char>>) -> Seq<char> {
    if texts.len() > 0 {
        texts[0]
    } else {
        Seq::empty()
    }
}

/// No phrase has two entries in a log, and every offset a log holds is
/// within the phrase it names.
pub open spec fn log_fits(log: PeerLog, phrases: Seq<PhraseView>) -> bool {
    &&& unique_keys(log.texts)
    &&& unique_keys(log.responses)
    &&& forall|j: int|
        0 <= j < log.texts.len() ==> {
            let (i, off) = #[trigger] log.texts[j];
            i < phrases.len() && off <= phrases[i as int].texts.len()
        }
    &&& forall|j: int|
        0 <= j < log.responses.len() ==> {
            let (i, off) = #[trigger] log.responses[j];
            i < phrases.len() && off <= phrases[i as int].responses.len()
        }
}

/// The invariant of a graph (a delta is not one):
/// - phrase `k` is indexed under its own cloud by entry `k`, the clouds are
///   pairwise distinct, and the sentinel has the empty cloud at index 0;
/// - the root's first text is the empty text;
/// - every response leads to a phrase of the graph;
/// - no phrase has two entries in a peer's log, and every offset of the
///   tracker is within its phrase.
pub open spec fn graph_wf(g: GraphView) -> bool {
    &&& g.phrases.len() >= 1
    &&& g.indices.len() == g.phrases.len()
    &&& forall|k: int| 0 <= k < g.indices.len() ==> (#[trigger] g.indices[k]).1 == k
    &&& g.indices[0].0 == Set::<Seq<char>>::empty()
    &&& forall|a: int, b: int|
        0 <= a < g.indices.len() && 0 <= b < g.indices.len() && a != b ==> (#[trigger] g.indices[a]).0
            != (#[trigger] g.indices[b]).0
    &&& g.phrases[0].texts.len() >= 1
    &&& g.phrases[0].texts[0] == Seq::<char>::empty()
    &&& forall|k: int, e: int|
        0 <= k < g.phrases.len() && 0 <= e < g.phrases[k].responses.len() ==> (
        #[trigger] g.phrases[k].responses[e]).0 < g.phrases.len()
    &&& forall|p: int| 0 <= p < g.tracker.len() ==> log_fits((#[trigger] g.tracker[p]).1, g.phrases)
}

/// The graph once the texts `ts` are added at the phrase of cloud `c`, with
/// the index returned: an existing phrase takes them at its end (and nothing
/// changes if there is none); a new cloud gets a new phrase, with those
/// texts, at the end of the graph. Every registered peer that has no text
/// entry for the phrase gets one at its former number of texts.
pub open spec fn insert_texts_spec(g: GraphView, c: Set<Seq<char>>, ts: Seq<Seq<char>>) -> (
    GraphView,
    Option<usize>,
) {
    match index_of_cloud(g.indices, c) {
        Some(i) => if ts.len() == 0 {
            (g, Some(i))
        } else {
            (
                GraphView {
                    phrases: g.phrases.update(
                        i as int,
                        PhraseView {
                            texts: g.phrases[i as int].texts + ts,
                            responses: g.phrases[i as int].responses,
                        },
                    ),
                    indices: g.indices,
                    tracker: stamp_texts(g.tracker, i, g.phrases[i as int].texts.len() as usize),
                },
                Some(i),
            )
        },
        None => {
            let i = g.phrases.len() as usize;
            (
                GraphView {
                    phrases: g.phrases.push(PhraseView { texts: ts, responses: Seq::empty() }),
                    indices: g.indices.push((c, i)),
                    tracker: stamp_texts(g.tracker, i, 0),
                },
                Some(i),
            )
        },
    }
}

/// The graph once the responses `rs` are added at phrase `i`. Every
/// registered peer that has no response entry for the phrase gets one at its
/// former number of responses.
pub open spec fn insert_responses_spec(g: GraphView, i: usize, rs: Seq<(usize, GeneralPerson)>) -> GraphView {
    GraphView {
        phrases: g.phrases.update(
            i as int,
            PhraseView {
                texts: g.phrases[i as int].texts,
                responses: g.phrases[i as int].responses + rs,
            },
        ),
        indices: g.indices,
        tracker: stamp_responses(g.tracker, i, g.phrases[i as int].responses.len() as usize),
    }
}


/// `b` is `a` grown: no phrase is lost, and each keeps its texts and its
/// responses as a prefix.
pub open spec fn grows(a: Seq<PhraseView>, b: Seq<PhraseView>) -> bool {
    &&& a.len() <= b.len()
    &&& forall|k: int|
        0 <= k < a.len() ==> (#[trigger] a[k]).texts == b[k].texts.take(a[k].texts.len() as int)
            && a[k].responses == b[k].responses.take(a[k].responses.len() as int)
            && a[k].texts.len() <= b[k].texts.len() && a[k].responses.len() <= b[k].responses.len()
}

pub proof fn lemma_fits_grow(log: PeerLog, a: Seq<PhraseView>, b: Seq<PhraseView>)
    requires
        log_fits(log, a),
        grows(a, b),
    ensures
        log_fits(log, b),
{
    assert forall|j: int| 0 <= j < log.texts.len() implies ({
        let (i, off) = #[trigger] log.texts[j];
        i < b.len() && off <= b[i as int].texts.len()
    }) by {
        let (i, off) = log.texts[j];
        assert(a[i as int].texts.len() <= b[i as int].texts.len());
    }
    assert forall|j: int| 0 <= j < log.responses.len() implies ({
        let (i, off) = #[trigger] log.responses[j];
        i < b.len() && off <= b[i as int].responses.len()
    }) by {
        let (i, off) = log.responses[j];
        assert(a[i as int].responses.len() <= b[i as int].responses.len());
    }
}

/// Stamping keeps a tracker within a grown graph, where the new entry fits.
pub proof fn lemma_stamp_fits(
    t: Seq<(Seq<char>, PeerLog)>,
    a: Seq<PhraseView>,
    b: Seq<PhraseView>,
    k: usize,
    v: usize,
    texts: bool,
)
    requires
        forall|p: int| 0 <= p < t.len() ==> log_fits((#[trigger] t[p]).1, a),
        grows(a, b),
        k < b.len(),
        texts ==> v <= b[k as int].texts.len(),
        !texts ==> v <= b[k as int].responses.len(),
    ensures
        texts ==> forall|p: int|
            0 <= p < t.len() ==> log_fits((#[trigger] stamp_texts(t, k, v)[p]).1, b),
        !texts ==> forall|p: int|
            0 <= p < t.len() ==> log_fits((#[trigger] stamp_responses(t, k, v)[p]).1, b),
{
    assert forall|p: int| 0 <= p < t.len() implies log_fits(t[p].1, b) by {
        lemma_fits_grow(t[p].1, a, b);
    }
    if texts {
        assert forall|p: int| 0 <= p < t.len() implies log_fits(
            (#[trigger] stamp_texts(t, k, v)[p]).1,
            b,
        ) by {
            let l = stamp_texts(t, k, v)[p].1;
            lemma_stamp_facts(t[p].1.texts, k, v);
            assert(l.responses == t[p].1.responses);
            assert forall|j: int| 0 <= j < l.texts.len() implies ({
                let (i, off) = #[trigger] l.texts[j];
                i < b.len() && off <= b[i as int].texts.len()
            }) by {
                if j < t[p].1.texts.len() {
                    assert(l.texts[j] == t[p].1.texts[j]);
                }
            }
        }
    } else {
        assert forall|p: int| 0 <= p < t.len() implies log_fits(
            (#[trigger] stamp_responses(t, k, v)[p]).1,
            b,
        ) by {
            let l = stamp_responses(t, k, v)[p].1;
            lemma_stamp_facts(t[p].1.responses, k, v);
            assert(l.texts == t[p].1.texts);
            assert forall|j: int| 0 <= j < l.responses.len() implies ({
                let (i, off) = #[trigger] l.responses[j];
                i < b.len() && off <= b[i as int].responses.len()
            }) by {
                if j < t[p].1.responses.len() {
                    assert(l.responses[j] == t[p].1.responses[j]);
                }
            }
        }
    }
}

pub proof fn lemma_index_of_cloud_wf(g: GraphView, c: Set<Seq<char>>)
    requires
        graph_wf(g),
    ensures
        index_of_cloud(g.indices, c) is Some ==> {
            let i = index_of_cloud(g.indices, c)->0;
            i < g.phrases.len() && g.indices[i as int].0 == c
        },
        index_of_cloud(g.indices, c) is None ==> forall|k: int|
            0 <= k < g.indices.len() ==> g.indices[k].0 != c,
        forall|k: int|
            0 <= k < g.indices.len() && g.indices[k].0 == c ==> index_of_cloud(g.indices, c) == Some(
                k as usize,
            ),
{
    lemma_cloud_slot(g.indices, c);
}

/// One piece of a delta: a phrase of the sender, the first of its texts to
/// ship (none: ship only its canonical text), and the first of its responses
/// to ship (none: ship no response).
pub type Piece = (usize, Option<usize>, Option<usize>);

/// The entries of `rs` whose phrase has no entry in `ts`.
pub open spec fn response_only(rs: OffsetLog, ts: OffsetLog) -> OffsetLog
    decreases rs.len(),
{
    if rs.len() == 0 {
        rs
    } else {
        let rest = response_only(rs.drop_last(), ts);
        if has_key(ts, rs.last().0) {
            rest
        } else {
            rest.push(rs.last())
        }
    }
}

/// The pieces of the delta for a peer with log `log`: one per text entry,
/// with the response entry of the same phrase if any, then one per response
/// entry whose phrase has no text entry.
pub open spec fn delta_plan(log: PeerLog) -> Seq<Piece> {
    log.texts.map_values(|e: (usize, usize)| (e.0, Some(e.1), value_of(log.responses, e.0)))
        + response_only(log.responses, log.texts).map_values(
        |e: (usize, usize)| (e.0, None::<usize>, Some(e.1)),
    )
}

/// The pieces of a delta for a peer that knows nothing but what `new`
/// gives every graph: every phrase whole, but for the empty text that opens
/// the root.
pub open spec fn full_plan(g: GraphView) -> Seq<Piece> {
    Seq::new(g.phrases.len(), |k: int| (k as usize, Some(root_start(k as usize)), Some(0usize)))
}

/// The first text of phrase `k` that a full delta ships.
pub open spec fn root_start(k: usize) -> usize {
    if k == 0 {
        1
    } else {
        0
    }
}

/// The phrase that a piece ships.
pub open spec fn slice_phrase(g: GraphView, s: Piece) -> PhraseView {
    let p = g.phrases[s.0 as int];
    PhraseView {
        texts: match s.1 {
            Some(t) => p.texts.skip(t as int),
            None => seq![name_text(p.texts)],
        },
        responses: match s.2 {
            Some(r) => p.responses.skip(r as int),
            None => Seq::empty(),
        },
    }
}

/// Whether `s` can be shipped from `g`: its phrase exists and its offsets
/// are within it.
pub open spec fn piece_fits(g: GraphView, s: Piece) -> bool {
    &&& s.0 < g.phrases.len()
    &&& s.1 is Some ==> s.1->0 <= g.phrases[s.0 as int].texts.len()
    &&& s.2 is Some ==> s.2->0 <= g.phrases[s.0 as int].responses.len()
}

/// The phrases of a delta: the sentinel, then one per piece.
pub open spec fn delta_phrases(g: GraphView, plan: Seq<Piece>) -> Seq<PhraseView> {
    seq![sentinel()] + plan.map_values(|s: Piece| slice_phrase(g, s))
}

/// The log a delta carries under `SERVER`: piece `k` stands at index `k + 1`;
/// its text offset is 0 when it ships texts and 1 when it ships the canonical
/// text only; its response offset is 0 when it ships responses.
pub open spec fn delta_log(plan: Seq<Piece>) -> PeerLog
    decreases plan.len(),
{
    if plan.len() == 0 {
        crate::tracker::empty_log()
    } else {
        let l = delta_log(plan.drop_last());
        let k = plan.len() as usize;
        let s = plan.last();
        PeerLog {
            texts: l.texts.push((k, if s.1 is Some { 0usize } else { 1usize })),
            responses: if s.2 is Some {
                l.responses.push((k, 0usize))
            } else {
                l.responses
            },
        }
    }
}

/// Whether one of the responses `rs` leads to phrase `j`.
pub open spec fn some_leads_to(rs: Seq<(usize, GeneralPerson)>, j: usize) -> bool {
    exists|e: int| 0 <= e < rs.len() && rs[e].0 == j
}

/// Whether a response of `p` leads to phrase `j`.
pub open spec fn leads_to(p: PhraseView, j: usize) -> bool {
    some_leads_to(p.responses, j)
}

/// Whether some piece ships a response that leads to phrase `j`.
pub open spec fn ships_target(g: GraphView, plan: Seq<Piece>, j: usize) -> bool {
    exists|k: int, e: int|
        0 <= k < plan.len() && 0 <= e < slice_phrase(g, plan[k]).responses.len()
            && (#[trigger] slice_phrase(g, plan[k]).responses[e]).0 == j
}

/// Every entry of the cloud index `ix` names a phrase of `g` under its cloud
/// in `g`, and no cloud has two entries.
pub open spec fn dict_consistent(g: GraphView, ix: Seq<(Set<Seq<char>>, usize)>) -> bool {
    &&& forall|k: int|
        0 <= k < ix.len() ==> (#[trigger] ix[k]).1 < g.phrases.len() && ix[k].0 == g.indices[ix[k].1 as int].0
    &&& forall|a: int, b: int|
        0 <= a < ix.len() && 0 <= b < ix.len() && a != b ==> (#[trigger] ix[a]).0 != (#[trigger] ix[b]).0
}

/// The cloud index `ix` leads from the cloud of phrase `j` of `g` to `j`.
pub open spec fn dict_names(g: GraphView, ix: Seq<(Set<Seq<char>>, usize)>, j: usize) -> bool {
    index_of_cloud(ix, g.indices[j as int].0) == Some(j)
}

/// `d` is the delta of `g` made of the pieces `plan`: its phrases are the
/// sentinel and the shipped slices; its tracker holds `SERVER` alone, with
/// the offsets of `delta_log`; its cloud index names, under their clouds in
/// `g`, exactly the sentinel and the phrases that shipped responses lead to.
pub open spec fn is_delta_of(d: GraphView, g: GraphView, plan: Seq<Piece>) -> bool {
    &&& d.phrases == delta_phrases(g, plan)
    &&& d.tracker == seq![(SERVER@, delta_log(plan))]
    &&& dict_consistent(g, d.indices)
    &&& dict_names(g, d.indices, 0)
    &&& forall|j: usize| ships_target(g, plan, j) ==> dict_names(g, d.indices, j)
    &&& forall|k: int|
        0 <= k < d.indices.len() ==> (#[trigger] d.indices[k]).1 == 0 || ships_target(
            g,
            plan,
            d.indices[k].1,
        )
}

/// The cloud index of a list of entries.
pub open spec fn index_view(ix: Seq<(WordCloud, usize)>) -> Seq<(Set<Seq<char>>, usize)> {
    ix.map_values(|e: (WordCloud, usize)| (e.0@, e.1))
}

/// The phrase index recorded for `c` in `ix`, the later of two entries.
pub fn find_in(ix: &Vec<(WordCloud, usize)>, c: &WordCloud) -> (r: Option<usize>)
    ensures
        r == index_of_cloud(index_view(ix@), c@),
{
    let ghost v = index_view(ix@);
    let mut j: usize = ix.len();
    assert(v.take(j as int) =~= v);
    while j > 0
        invariant
            j <= ix.len(),
            v == index_view(ix@),
            cloud_slot(v, c@) == cloud_slot(v.take(j as int), c@),
        decreases j,
    {
        assert(v.take(j as int).drop_last() =~= v.take(j - 1));
        if ix[j - 1].0 == *c {
            return Some(ix[j - 1].1);
        }
        j = j - 1;
    }
    None
}

/// The texts of `v` from `start` on.
fn texts_from(v: &Vec<String>, start: usize) -> (r: Vec<String>)
    requires
        start <= v.len(),
    ensures
        string_views(r@) == string_views(v@).skip(start as int),
{
    let mut r: Vec<String> = Vec::new();
    let mut k: usize = start;
    while k < v.len()
        invariant
            start <= k <= v.len(),
            r.len() == k - start,
            forall|i: int| 0 <= i < r.len() ==> #[trigger] r@[i]@ == v@[i + start]@,
        decreases v.len() - k,
    {
        let t = v[k].clone();
        r.push(t);
        k = k + 1;
    }
    assert(string_views(r@) =~= string_views(v@).skip(start as int));
    r
}

/// The responses of `v` from `start` on.
fn responses_from(v: &Vec<(usize, GeneralPerson)>, start: usize) -> (r: Vec<(usize, GeneralPerson)>)
    requires
        start <= v.len(),
    ensures
        r@ == v@.skip(start as int),
{
    let mut r: Vec<(usize, GeneralPerson)> = Vec::new();
    let mut k: usize = start;
    while k < v.len()
        invariant
            start <= k <= v.len(),
            r@ == v@.subrange(start as int, k as int),
        decreases v.len() - k,
    {
        let e = v[k];
        r.push(e);
        assert(r@ =~= v@.subrange(start as int, k + 1));
        k = k + 1;
    }
    assert(r@ =~= v@.skip(start as int));
    r
}

/// Appending the slice of piece `s` as `add_difference` does extends a delta
/// of the pieces `plan` to one of `plan` followed by `s`.
pub proof fn lemma_delta_step(d: GraphView, d2: GraphView, g: GraphView, plan: Seq<Piece>, s: Piece)
    requires
        graph_wf(g),
        is_delta_of(d, g, plan),
        d2.phrases == d.phrases.push(slice_phrase(g, s)),
        d2.tracker == seq![
            (
                SERVER@,
                PeerLog {
                    texts: d.tracker[0].1.texts.push(
                        (d.phrases.len() as usize, if s.1 is Some { 0usize } else { 1usize }),
                    ),
                    responses: if s.2 is Some {
                        d.tracker[0].1.responses.push((d.phrases.len() as usize, 0usize))
                    } else {
                        d.tracker[0].1.responses
                    },
                },
            ),
        ],
        dict_consistent(g, d2.indices),
        forall|i: usize| dict_names(g, d.indices, i) ==> dict_names(g, d2.indices, i),
        forall|e: int|
            0 <= e < slice_phrase(g, s).responses.len() ==> dict_names(
                g,
                d2.indices,
                (#[trigger] slice_phrase(g, s).responses[e]).0,
            ),
        d2.indices.len() >= d.indices.len(),
        d2.indices.take(d.indices.len() as int) == d.indices,
        forall|k: int|
            d.indices.len() <= k < d2.indices.len() ==> leads_to(
                slice_phrase(g, s),
                (#[trigger] d2.indices[k]).1,
            ),
    ensures
        is_delta_of(d2, g, plan.push(s)),
{
    let longer = plan.push(s);
    assert(longer.drop_last() =~= plan);
    assert(d2.phrases =~= delta_phrases(g, longer));
    assert(d.phrases.len() == plan.len() + 1);
    assert(d2.tracker =~= seq![(SERVER@, delta_log(longer))]);
    assert forall|j: usize| ships_target(g, longer, j) implies dict_names(g, d2.indices, j) by {
        let (k, e) = choose|k: int, e: int|
            0 <= k < longer.len() && 0 <= e < slice_phrase(g, longer[k]).responses.len()
                && (#[trigger] slice_phrase(g, longer[k]).responses[e]).0 == j;
        if k < plan.len() {
            assert(longer[k] == plan[k]);
            assert(ships_target(g, plan, j));
        } else {
            assert(longer[k] == s);
        }
    }
    assert forall|k: int| 0 <= k < d2.indices.len() implies (#[trigger] d2.indices[k]).1 == 0
        || ships_target(g, longer, d2.indices[k].1) by {
        let j = d2.indices[k].1;
        if k < d.indices.len() {
            assert(d2.indices[k] == d2.indices.take(d.indices.len() as int)[k]);
            if j != 0 {
                assert(ships_target(g, plan, j));
                let (k1, e1) = choose|k1: int, e1: int|
                    0 <= k1 < plan.len() && 0 <= e1 < slice_phrase(g, plan[k1]).responses.len()
                        && (#[trigger] slice_phrase(g, plan[k1]).responses[e1]).0 == j;
                assert(longer[k1] == plan[k1]);
                assert(slice_phrase(g, longer[k1]).responses[e1].0 == j);
            }
        } else {
            assert(leads_to(slice_phrase(g, s), j));
            let e1 = choose|e1: int| 0 <= e1 < slice_phrase(g, s).responses.len() && slice_phrase(g, s).responses[e1].0 == j;
            assert(longer[plan.len() as int] == s);
            assert(slice_phrase(g, longer[plan.len() as int]).responses[e1].0 == j);
        }
    }
}

/// Why a merge stopped.
#[derive(Clone, Copy, Debug, PartialEq, Eq, Structural)]
pub enum MergeError {
    /// The delta is not one: it has no `SERVER` log, or an entry of the log
    /// names a phrase it lacks or an offset past its end, or a shipped
    /// response leads to an index its cloud index does not name. Nothing was
    /// merged.
    MalformedDelta,
    /// A shipped response stands at a phrase that could not be merged, or
    /// leads to a cloud this graph does not know. What came before it in the
    /// delta was merged.
    UnresolvedPhrase,
}

/// The position of the later entry of `ix` whose index is `j`; `-1` if none.
pub open spec fn index_slot(ix: Seq<(Set<Seq<char>>, usize)>, j: usize) -> int
    decreases ix.len(),
{
    if ix.len() == 0 {
        -1
    } else if ix.last().1 == j {
        ix.len() - 1
    } else {
        index_slot(ix.drop_last(), j)
    }
}

/// The cloud that the cloud index `ix` gives for index `j`.
pub open spec fn cloud_of_index(ix: Seq<(Set<Seq<char>>, usize)>, j: usize) -> Option<Set<Seq<char>>> {
    let s = index_slot(ix, j);
    if s >= 0 {
        Some(ix[s].0)
    } else {
        None
    }
}

pub proof fn lemma_index_slot(ix: Seq<(Set<Seq<char>>, usize)>, j: usize)
    ensures
        -1 <= index_slot(ix, j) < ix.len(),
        index_slot(ix, j) >= 0 ==> ix[index_slot(ix, j)].1 == j,
        index_slot(ix, j) < 0 ==> forall|x: int| 0 <= x < ix.len() ==> ix[x].1 != j,
    decreases ix.len(),
{
    if ix.len() > 0 {
        lemma_index_slot(ix.drop_last(), j);
        if index_slot(ix, j) < 0 {
            assert forall|x: int| 0 <= x < ix.len() implies ix[x].1 != j by {
                if x < ix.len() - 1 {
                    assert(ix[x] == ix.drop_last()[x]);
                }
            }
        }
    }
}

/// The log a delta carries under `SERVER`.
pub open spec fn sent_log(d: GraphView) -> PeerLog {
    log_of(d.tracker, SERVER@)
}

/// Whether a text entry of a delta can be merged: its phrase exists and the
/// offset is within its texts.
pub open spec fn text_entry_ok(d: GraphView, e: (usize, usize)) -> bool {
    &&& e.0 < d.phrases.len()
    &&& e.1 <= d.phrases[e.0 as int].texts.len()
}

/// Whether a response entry of a delta can be merged: its phrase exists, the
/// offset is within its responses, and the delta's cloud index names the
/// target of every response shipped.
pub open spec fn response_entry_ok(d: GraphView, e: (usize, usize)) -> bool {
    &&& e.0 < d.phrases.len()
    &&& e.1 <= d.phrases[e.0 as int].responses.len()
    &&& forall|q: int|
        e.1 <= q < d.phrases[e.0 as int].responses.len() ==> cloud_of_index(
            d.indices,
            (#[trigger] d.phrases[e.0 as int].responses[q]).0,
        ) is Some
}

/// Whether `d` has the shape of a delta.
pub open spec fn delta_shaped(d: GraphView) -> bool {
    &&& peer_slot(d.tracker, SERVER@) >= 0
    &&& forall|k: int| 0 <= k < sent_log(d).texts.len() ==> text_entry_ok(d, #[trigger] sent_log(d).texts[k])
    &&& forall|k: int|
        0 <= k < sent_log(d).responses.len() ==> response_entry_ok(d, #[trigger] sent_log(d).responses[k])
}

/// The first step of a merge, over the text entries `ts` of delta `d`: each
/// inserts the texts from its offset on under the cloud of its phrase's
/// naming text. Gives the graph and, per phrase of the delta, the index it
/// was merged at.
pub open spec fn merge_texts(g: GraphView, d: GraphView, ts: OffsetLog) -> (GraphView, Seq<Option<usize>>)
    decreases ts.len(),
{
    if ts.len() == 0 {
        (g, Seq::new(d.phrases.len(), |k: int| None::<usize>))
    } else {
        let (g1, m1) = merge_texts(g, d, ts.drop_last());
        let (i, start) = ts.last();
        let p = d.phrases[i as int];
        let (g2, r) = insert_texts_spec(g1, cloud_of_text(name_text(p.texts)), p.texts.skip(start as int));
        (
            g2,
            match r {
                Some(x) => m1.update(i as int, Some(x)),
                None => m1,
            },
        )
    }
}

/// Whether every response of `rs` leads, through the delta's cloud index, to
/// a cloud that `g` knows.
pub open spec fn resolvable(g: GraphView, d: GraphView, rs: Seq<(usize, GeneralPerson)>) -> bool {
    forall|q: int|
        0 <= q < rs.len() ==> index_of_cloud(g.indices, cloud_of_index(d.indices, (#[trigger] rs[q]).0)->0) is Some
}

/// The responses `rs` of the delta with their targets moved to the phrases of
/// `g` of the same cloud.
pub open spec fn remapped(g: GraphView, d: GraphView, rs: Seq<(usize, GeneralPerson)>) -> Seq<(usize, GeneralPerson)> {
    rs.map_values(
        |e: (usize, GeneralPerson)| (index_of_cloud(g.indices, cloud_of_index(d.indices, e.0)->0)->0, e.1),
    )
}

/// The second step of a merge, over the response entries `rs`: each adds the
/// responses from its offset on, remapped, at the index its phrase was merged
/// at. Stops, with `false`, at the first entry whose phrase was not merged or
/// whose responses are not resolvable.
pub open spec fn merge_responses(g: GraphView, d: GraphView, m: Seq<Option<usize>>, rs: OffsetLog) -> (
    GraphView,
    bool,
)
    decreases rs.len(),
{
    if rs.len() == 0 {
        (g, true)
    } else {
        let (g1, ok) = merge_responses(g, d, m, rs.drop_last());
        let (i, start) = rs.last();
        let shipped = d.phrases[i as int].responses.skip(start as int);
        if !ok {
            (g1, false)
        } else if m[i as int] is None || !resolvable(g1, d, shipped) {
            (g1, false)
        } else {
            (insert_responses_spec(g1, m[i as int]->0, remapped(g1, d, shipped)), true)
        }
    }
}

/// The graph after merging the delta `d` into `g`, and whether every entry
/// could be merged.
pub open spec fn merge_spec(g: GraphView, d: GraphView) -> (GraphView, bool) {
    let (g1, m) = merge_texts(g, d, sent_log(d).texts);
    merge_responses(g1, d, m, sent_log(d).responses)
}

pub proof fn lemma_grows_trans(a: Seq<PhraseView>, b: Seq<PhraseView>, c: Seq<PhraseView>)
    requires
        grows(a, b),
        grows(b, c),
    ensures
        grows(a, c),
{
    assert forall|k: int| 0 <= k < a.len() implies (#[trigger] a[k]).texts == c[k].texts.take(
        a[k].texts.len() as int,
    ) && a[k].responses == c[k].responses.take(a[k].responses.len() as int) && a[k].texts.len()
        <= c[k].texts.len() && a[k].responses.len() <= c[k].responses.len() by {
        assert(b[k].texts == c[k].texts.take(b[k].texts.len() as int));
        assert(a[k].texts =~= c[k].texts.take(a[k].texts.len() as int));
        assert(b[k].responses == c[k].responses.take(b[k].responses.len() as int));
        assert(a[k].responses =~= c[k].responses.take(a[k].responses.len() as int));
    }
}

pub proof fn lemma_grows_refl(a: Seq<PhraseView>)
    ensures
        grows(a, a),
{
    assert forall|k: int| 0 <= k < a.len() implies (#[trigger] a[k]).texts == a[k].texts.take(
        a[k].texts.len() as int,
    ) && a[k].responses == a[k].responses.take(a[k].responses.len() as int) by {
        assert(a[k].texts =~= a[k].texts.take(a[k].texts.len() as int));
        assert(a[k].responses =~= a[k].responses.take(a[k].responses.len() as int));
    }
}

/// The position of the later entry of `ix` whose index is `j`.
pub fn find_index(ix: &Vec<(WordCloud, usize)>, j: usize) -> (r: Option<usize>)
    ensures
        index_slot(index_view(ix@), j) >= 0 ==> r == Some(index_slot(index_view(ix@), j) as usize),
        index_slot(index_view(ix@), j) < 0 ==> r is None,
{
    let ghost v = index_view(ix@);
    let mut k: usize = ix.len();
    assert(v.take(k as int) =~= v);
    while k > 0
        invariant
            k <= ix.len(),
            v == index_view(ix@),
            index_slot(v, j) == index_slot(v.take(k as int), j),
        decreases k,
    {
        assert(v.take(k as int).drop_last() =~= v.take(k - 1));
        if ix[k - 1].1 == j {
            return Some(k - 1);
        }
        k = k - 1;
    }
    None
}

/// Once an entry fails, the second step of a merge stops where it is.
pub proof fn lemma_merge_responses_stop(g: GraphView, d: GraphView, m: Seq<Option<usize>>, rs: OffsetLog, j: int)
    requires
        0 <= j < rs.len(),
        merge_responses(g, d, m, rs.take(j)).1,
        !merge_responses(g, d, m, rs.take(j + 1)).1,
    ensures
        merge_responses(g, d, m, rs) == (merge_responses(g, d, m, rs.take(j)).0, false),
    decreases rs.len() - j,
{
    assert(rs.take(j + 1).drop_last() =~= rs.take(j));
    lemma_merge_responses_stuck(g, d, m, rs, j + 1);
}

/// After a failed entry, the second step of a merge changes nothing more.
pub proof fn lemma_merge_responses_stuck(g: GraphView, d: GraphView, m: Seq<Option<usize>>, rs: OffsetLog, n: int)
    requires
        0 <= n <= rs.len(),
        !merge_responses(g, d, m, rs.take(n)).1,
    ensures
        merge_responses(g, d, m, rs) == merge_responses(g, d, m, rs.take(n)),
    decreases rs.len() - n,
{
    if n < rs.len() {
        assert(rs.take(n + 1).drop_last() =~= rs.take(n));
        lemma_merge_responses_stuck(g, d, m, rs, n + 1);
    } else {
        assert(rs.take(n) =~= rs);
    }
}

/// `b` keeps every entry of the cloud index `a`, in place.
pub open spec fn keeps_index(a: Seq<(Set<Seq<char>>, usize)>, b: Seq<(Set<Seq<char>>, usize)>) -> bool {
    a.len() <= b.len() && b.take(a.len() as int) == a
}

pub proof fn lemma_keeps_index_trans(
    a: Seq<(Set<Seq<char>>, usize)>,
    b: Seq<(Set<Seq<char>>, usize)>,
    c: Seq<(Set<Seq<char>>, usize)>,
)
    requires
        keeps_index(a, b),
        keeps_index(b, c),
    ensures
        keeps_index(a, c),
{
    assert(c.take(a.len() as int) =~= a) by {
        assert forall|k: int| 0 <= k < a.len() implies c[k] == a[k] by {
            assert(c[k] == c.take(b.len() as int)[k]);
            assert(b[k] == b.take(a.len() as int)[k]);
        }
    }
}

pub proof fn lemma_insert_keeps_index(g: GraphView, c: Set<Seq<char>>, ts: Seq<Seq<char>>)
    ensures
        keeps_index(g.indices, insert_texts_spec(g, c, ts).0.indices),
{
    let h = insert_texts_spec(g, c, ts).0;
    assert(h.indices.take(g.indices.len() as int) =~= g.indices);
}

/// The conversation graph: phrases, the cloud index of each, and the tracker
/// of what each registered peer has not seen yet. A delta sent to a peer is a
/// value of this type too, whose cloud index names phrases of the sender.
#[derive(Clone, Debug)]
pub struct Database {
    pub phrases: Vec<Phrase>,
    pub phrase_indices: Vec<(WordCloud, usize)>,
    pub manager: DifferenceManager,
}

impl View for Database {
    type V = GraphView;

    open spec fn view(&self) -> GraphView {
        GraphView {
            phrases: self.phrases@.map_values(|p: Phrase| p@),
            indices: index_view(self.phrase_indices@),
            tracker: self.manager@,
        }
    }
}

impl Database {
    /// Whether the value is a graph, not a mere delta.
    pub open spec fn wf(&self) -> bool {
        graph_wf(self@)
    }

    /// A graph with the sentinel root only, and no peer registered.
    pub fn new() -> (r: Database)
        ensures
            r.wf(),
            r@.phrases == seq![sentinel()],
            r@.indices == seq![(cloud_of_text(Seq::<char>::empty()), 0usize)],
            r@.tracker == Seq::<(Seq<char>, PeerLog)>::empty(),
    {
        let mut texts: Vec<String> = Vec::new();
        texts.push(String::new());
        let mut phrases: Vec<Phrase> = Vec::new();
        phrases.push(Phrase { texts, responses: Vec::new() });
        let mut phrase_indices: Vec<(WordCloud, usize)> = Vec::new();
        phrase_indices.push((WordCloud::empty(), 0));
        let r = Database { phrases, phrase_indices, manager: DifferenceManager::new() };
        proof {
            lemma_empty_text_cloud();
            assert(r@.phrases[0].texts =~= seq![Seq::<char>::empty()]);
            assert(r@.phrases[0].responses =~= Seq::<(usize, GeneralPerson)>::empty());
            assert(r@.phrases =~= seq![sentinel()]);
            assert(r@.indices =~= seq![(cloud_of_text(Seq::<char>::empty()), 0usize)]);
        }
        r
    }

    /// Registers `client`, or empties what it has not seen: a sync boundary.
    pub fn updated(&mut self, client: &str)
        ensures
            final(self)@ == (GraphView { tracker: reset_peer(old(self)@.tracker, client@), ..old(self)@ }),
            old(self).wf() ==> final(self).wf(),
    {
        let id = String::from_str(client);
        self.manager.reset(id);
        proof {
            let t = old(self)@.tracker;
            lemma_peer_slot(t, client@);
            let r = reset_peer(t, client@);
            assert forall|p: int| 0 <= p < r.len() implies #[trigger] r[p] == (if p < t.len()
                && p != peer_slot(t, client@) {
                t[p]
            } else {
                (client@, crate::tracker::empty_log())
            }) by {}
        }
    }

    /// The index recorded for the cloud `c`.
    pub fn find_cloud(&self, c: &WordCloud) -> (r: Option<usize>)
        ensures
            r == index_of_cloud(self@.indices, c@),
    {
        find_in(&self.phrase_indices, c)
    }

    /// The index of the sentinel root.
    pub fn get_start_index(&self) -> (r: usize)
        requires
            self.wf(),
        ensures
            r == 0,
            self@.indices[r as int].0 == cloud_of_text(Seq::<char>::empty()),
    {
        proof {
            lemma_empty_text_cloud();
            lemma_cloud_slot(self@.indices, Set::<Seq<char>>::empty());
            assert(self@.indices[0].0 == Set::<Seq<char>>::empty());
        }
        let c = WordCloud::empty();
        match self.find_cloud(&c) {
            Some(i) => i,
            None => 0,
        }
    }

    /// Records in the cloud index `dict` that the cloud of phrase `j` leads
    /// to `j`, unless it already does.
    fn note_target(&self, dict: &mut Vec<(WordCloud, usize)>, j: usize)
        requires
            self.wf(),
            j < self@.phrases.len(),
            dict_consistent(self@, index_view(old(dict)@)),
        ensures
            dict_consistent(self@, index_view(final(dict)@)),
            dict_names(self@, index_view(final(dict)@), j),
            forall|i: usize|
                dict_names(self@, index_view(old(dict)@), i) ==> dict_names(
                    self@,
                    index_view(final(dict)@),
                    i,
                ),
            final(dict)@.len() >= old(dict)@.len(),
            final(dict)@.take(old(dict)@.len() as int) == old(dict)@,
            forall|k: int| old(dict)@.len() <= k < final(dict)@.len() ==> (#[trigger] final(dict)@[k]).1 == j,
    {
        let ghost g = self@;
        let ghost before = index_view(dict@);
        let c = &self.phrase_indices[j].0;
        assert(g.indices[j as int] == (c@, self.phrase_indices@[j as int].1));
        proof {
            lemma_cloud_slot(before, c@);
        }
        match find_in(dict, c) {
            Some(x) => {
                proof {
                    let sl = cloud_slot(before, c@);
                    assert(before[sl].1 == x);
                    assert(g.indices[x as int].0 == c@);
                    assert(g.indices[j as int].0 == c@);
                    assert(x == j);
                }
                assert(dict@.take(dict@.len() as int) =~= dict@);
            },
            None => {
                let cd = c.duplicate();
                dict.push((cd, j));
                proof {
                    let after = index_view(dict@);
                    assert(after.drop_last() =~= before);
                    assert(after.last() == (c@, j));
                    assert(dict@.take(before.len() as int) =~= old(dict)@);
                    assert forall|i: usize| dict_names(g, before, i) implies dict_names(g, after, i) by {
                        lemma_cloud_slot(before, g.indices[i as int].0);
                        if g.indices[i as int].0 == c@ {
                            assert(false);
                        }
                        assert(cloud_slot(after, g.indices[i as int].0) == cloud_slot(before, g.indices[i as int].0));
                    }
                    assert forall|a: int, b: int|
                        0 <= a < after.len() && 0 <= b < after.len() && a != b implies (
                        #[trigger] after[a]).0 != (#[trigger] after[b]).0 by {
                        if a < before.len() && b < before.len() {
                            assert(after[a] == before[a]);
                            assert(after[b] == before[b]);
                        } else if a < before.len() {
                            assert(after[a] == before[a]);
                        } else {
                            assert(after[b] == before[b]);
                        }
                    }
                    assert forall|k: int| 0 <= k < after.len() implies (#[trigger] after[k]).1 < g.phrases.len()
                        && after[k].0 == g.indices[after[k].1 as int].0 by {
                        if k < before.len() {
                            assert(after[k] == before[k]);
                        }
                    }
                }
            },
        }
    }

    /// Records in the cloud index `dict` the cloud of every phrase that one
    /// of `rs` leads to.
    fn note_targets(&self, dict: &mut Vec<(WordCloud, usize)>, rs: &Vec<(usize, GeneralPerson)>)
        requires
            self.wf(),
            forall|q: int| 0 <= q < rs.len() ==> (#[trigger] rs@[q]).0 < self@.phrases.len(),
            dict_consistent(self@, index_view(old(dict)@)),
        ensures
            dict_consistent(self@, index_view(final(dict)@)),
            forall|i: usize|
                dict_names(self@, index_view(old(dict)@), i) ==> dict_names(
                    self@,
                    index_view(final(dict)@),
                    i,
                ),
            forall|q: int| 0 <= q < rs.len() ==> dict_names(self@, index_view(final(dict)@), (#[trigger] rs@[q]).0),
            final(dict)@.len() >= old(dict)@.len(),
            final(dict)@.take(old(dict)@.len() as int) == old(dict)@,
            forall|k: int|
                old(dict)@.len() <= k < final(dict)@.len() ==> some_leads_to(rs@, (#[trigger] final(dict)@[k]).1),
    {
        let ghost g = self@;
        let ghost dict0 = dict@;
        let mut e: usize = 0;
        assert(dict@.take(dict0.len() as int) =~= dict0);
        while e < rs.len()
            invariant
                self.wf(),
                g == self@,
                e <= rs.len(),
                forall|q: int| 0 <= q < rs.len() ==> (#[trigger] rs@[q]).0 < g.phrases.len(),
                dict_consistent(g, index_view(dict@)),
                forall|i: usize|
                    dict_names(g, index_view(dict0), i) ==> dict_names(g, index_view(dict@), i),
                forall|q: int| 0 <= q < e ==> dict_names(g, index_view(dict@), (#[trigger] rs@[q]).0),
                dict@.len() >= dict0.len(),
                dict@.take(dict0.len() as int) == dict0,
                forall|k: int| dict0.len() <= k < dict@.len() ==> some_leads_to(rs@, (#[trigger] dict@[k]).1),
            decreases rs.len() - e,
        {
            let ghost d1 = dict@;
            let target = rs[e].0;
            self.note_target(dict, target);
            proof {
                assert forall|k: int| dict0.len() <= k < dict@.len() implies some_leads_to(rs@, (#[trigger] dict@[k]).1) by {
                    if k < d1.len() {
                        assert(dict@[k] == dict@.take(d1.len() as int)[k]);
                    } else {
                        assert(rs@[e as int].0 == dict@[k].1);
                    }
                }
                assert(dict@.take(dict0.len() as int) =~= dict0) by {
                    assert forall|k: int| 0 <= k < dict0.len() implies dict@[k] == dict0[k] by {
                        assert(dict@[k] == dict@.take(d1.len() as int)[k]);
                        assert(d1[k] == d1.take(dict0.len() as int)[k]);
                    }
                }
            }
            e = e + 1;
        }
    }

    /// Appends to the delta under construction `database` the piece
    /// `(index, text, response)` of this graph, and records the clouds of the
    /// phrases its responses lead to.
    fn add_difference(
        &self,
        database: &mut Database,
        index: usize,
        text: Option<usize>,
        response: Option<usize>,
    )
        requires
            self.wf(),
            piece_fits(self@, (index, text, response)),
            old(database)@.tracker.len() == 1,
            old(database)@.tracker[0].0 == SERVER@,
            dict_consistent(self@, old(database)@.indices),
        ensures
            final(database)@.phrases == old(database)@.phrases.push(
                slice_phrase(self@, (index, text, response)),
            ),
            final(database)@.tracker == seq![
                (
                    SERVER@,
                    PeerLog {
                        texts: old(database)@.tracker[0].1.texts.push(
                            (
                                old(database)@.phrases.len() as usize,
                                if text is Some { 0usize } else { 1usize },
                            ),
                        ),
                        responses: if response is Some {
                            old(database)@.tracker[0].1.responses.push(
                                (old(database)@.phrases.len() as usize, 0usize),
                            )
                        } else {
                            old(database)@.tracker[0].1.responses
                        },
                    },
                ),
            ],
            dict_consistent(self@, final(database)@.indices),
            forall|i: usize|
                dict_names(self@, old(database)@.indices, i) ==> dict_names(
                    self@,
                    final(database)@.indices,
                    i,
                ),
            forall|e: int|
                0 <= e < slice_phrase(self@, (index, text, response)).responses.len() ==> dict_names(
                    self@,
                    final(database)@.indices,
                    (#[trigger] slice_phrase(self@, (index, text, response)).responses[e]).0,
                ),
            final(database)@.indices.len() >= old(database)@.indices.len(),
            final(database)@.indices.take(old(database)@.indices.len() as int) == old(database)@.indices,
            forall|k: int|
                old(database)@.indices.len() <= k < final(database)@.indices.len() ==> leads_to(
                    slice_phrase(self@, (index, text, response)),
                    (#[trigger] final(database)@.indices[k]).1,
                ),
    {
        let ghost g = self@;
        let ghost piece = slice_phrase(g, (index, text, response));
        let length = database.phrases.len();
        let texts = match text {
            Some(text_start) => {
                database.manager.peers[0].1.texts.push((length, 0));
                texts_from(&self.phrases[index].texts, text_start)
            },
            None => {
                database.manager.peers[0].1.texts.push((length, 1));
                let mut v: Vec<String> = Vec::new();
                if self.phrases[index].texts.len() > 0 {
                    v.push(self.phrases[index].texts[0].clone());
                } else {
                    v.push(String::new());
                }
                assert(string_views(v@) =~= seq![name_text(g.phrases[index as int].texts)]);
                v
            },
        };
        let mut dict = Vec::new();
        std::mem::swap(&mut dict, &mut database.phrase_indices);
        let ghost dict0 = dict@;
        let responses = match response {
            Some(response_start) => {
                database.manager.peers[0].1.responses.push((length, 0));
                let rs = responses_from(&self.phrases[index].responses, response_start);
                self.note_targets(&mut dict, &rs);
                rs
            },
            None => {
                assert(dict@.take(dict0.len() as int) =~= dict0);
                Vec::new()
            },
        };
        let ghost dict1 = dict@;
        std::mem::swap(&mut dict, &mut database.phrase_indices);
        database.phrases.push(Phrase { texts, responses });
        proof {
            let d = database@;
            let old_d = old(database)@;
            assert(old_d.indices =~= index_view(dict0));
            assert(d.indices =~= index_view(database.phrase_indices@));
            assert(d.phrases =~= old_d.phrases.push(piece));
            assert(d.tracker[0].1.texts =~= old_d.tracker[0].1.texts.push(
                (old_d.phrases.len() as usize, if text is Some { 0usize } else { 1usize }),
            ));
            assert(d.tracker =~= seq![(SERVER@, d.tracker[0].1)]);
            assert(database.phrase_indices@ == dict1);
            assert(d.indices.take(old_d.indices.len() as int) =~= old_d.indices) by {
                assert forall|k: int| 0 <= k < old_d.indices.len() implies d.indices[k] == old_d.indices[k] by {
                    assert(dict1[k] == dict1.take(dict0.len() as int)[k]);
                }
            }
            assert forall|k: int|
                old_d.indices.len() <= k < d.indices.len() implies leads_to(piece, (#[trigger] d.indices[k]).1) by {
                assert(d.indices[k].1 == dict1[k].1);
            }
        }
    }

    /// The delta for `client`: the sentinel, then, for every phrase the
    /// client lacks texts of, those texts (with the responses it lacks there),
    /// then, for every phrase it lacks responses of only, the canonical text
    /// and those responses. A client that is not registered gets the sentinel
    /// alone. The tracker is left as it is.
    pub fn difference(&self, client: &str) -> (r: Database)
        requires
            self.wf(),
        ensures
            is_delta_of(r@, self@, delta_plan(log_of(self@.tracker, client@))),
    {
        let ghost g = self@;
        let mut database = Database::new();
        database.updated(SERVER);
        proof {
            lemma_empty_text_cloud();
            lemma_peer_slot(self@.tracker, client@);
            assert(peer_slot(Seq::<(Seq<char>, PeerLog)>::empty(), SERVER@) == -1);
            assert(database@.tracker =~= seq![(SERVER@, delta_log(Seq::<Piece>::empty()))]);
            assert(delta_phrases(g, Seq::<Piece>::empty()) =~= seq![sentinel()]);
            assert(index_of_cloud(database@.indices, g.indices[0].0) == Some(0usize));
        }
        let id = String::from_str(client);
        let found = self.manager.find(&id);
        match found {
            None => {
                proof {
                    let log = log_of(g.tracker, client@);
                    assert(delta_plan(log) =~= Seq::<Piece>::empty());
                }
            },
            Some(slot) => {
                let d = &self.manager.peers[slot].1;
                let ghost log = log_of(g.tracker, client@);
                let ghost a = log.texts.map_values(
                    |e: (usize, usize)| (e.0, Some(e.1), value_of(log.responses, e.0)),
                );
                assert(id@ == client@);
                assert(g.tracker == self.manager@);
                assert(peer_slot(self.manager@, id@) >= 0);
                proof {
                    lemma_peer_slot(self.manager@, id@);
                    assert(self.manager@.len() == self.manager.peers@.len());
                    assert(self.manager.peers@.len() == self.manager.peers.len());
                    assert(self.manager.peers.len() <= usize::MAX);
                }
                assert(found == Some(slot));
                assert(peer_slot(g.tracker, client@) == slot as int);
                assert(g.tracker[slot as int] == (self.manager.peers@[slot as int].0@, self.manager.peers@[slot as int].1@));
                assert(d@ == log);
                assert(log_fits(log, g.phrases));
                let mut j: usize = 0;
                assert(a.take(0) =~= Seq::<Piece>::empty());
                while j < d.texts.len()
                    invariant
                        self.wf(),
                        g == self@,
                        d@ == log,
                        log_fits(log, g.phrases),
                        a == log.texts.map_values(
                            |e: (usize, usize)| (e.0, Some(e.1), value_of(log.responses, e.0)),
                        ),
                        j <= d.texts.len(),
                        is_delta_of(database@, g, a.take(j as int)),
                    decreases d.texts.len() - j,
                {
                    let (index, text) = d.texts[j];
                    let response = log_get(&d.responses, index);
                    proof {
                        lemma_value_of(log.responses, index);
                        assert(log.texts[j as int] == (index, text));
                        if response is Some {
                            let q = choose|q: int| 0 <= q < log.responses.len() && log.responses[q] == (index, response->0);
                            assert(log.responses[q] == (index, response->0));
                        }
                    }
                    let ghost before = database@;
                    self.add_difference(&mut database, index, Some(text), response);
                    proof {
                        assert(a[j as int] == (index, Some(text), response));
                        lemma_delta_step(before, database@, g, a.take(j as int), (index, Some(text), response));
                        assert(a.take(j as int).push(a[j as int]) =~= a.take(j + 1));
                    }
                    j = j + 1;
                }
                assert(a.take(j as int) =~= a);
                let mut k: usize = 0;
                let ghost f2 = |e: (usize, usize)| (e.0, None::<usize>, Some(e.1));
                assert(response_only(log.responses.take(0), log.texts) =~= Seq::<(usize, usize)>::empty());
                assert(a + response_only(log.responses.take(0), log.texts).map_values(f2) =~= a);
                while k < d.responses.len()
                    invariant
                        self.wf(),
                        g == self@,
                        d@ == log,
                        log_fits(log, g.phrases),
                        k <= d.responses.len(),
                        f2 == (|e: (usize, usize)| (e.0, None::<usize>, Some(e.1))),
                        is_delta_of(
                            database@,
                            g,
                            a + response_only(log.responses.take(k as int), log.texts).map_values(f2),
                        ),
                    decreases d.responses.len() - k,
                {
                    let (index, response) = d.responses[k];
                    let ghost ro = response_only(log.responses.take(k as int), log.texts);
                    proof {
                        assert(log.responses.take(k + 1).drop_last() =~= log.responses.take(k as int));
                        assert(log.responses[k as int] == (index, response));
                    }
                    if !log_has(&d.texts, index) {
                        let ghost before = database@;
                        self.add_difference(&mut database, index, None, Some(response));
                        proof {
                            let ro2 = response_only(log.responses.take(k + 1), log.texts);
                            assert(ro2 == ro.push((index, response)));
                            lemma_delta_step(before, database@, g, a + ro.map_values(f2), (index, None, Some(response)));
                            assert((a + ro.map_values(f2)).push((index, None, Some(response))) =~= a
                                + ro2.map_values(f2));
                        }
                    } else {
                        proof {
                            let ro2 = response_only(log.responses.take(k + 1), log.texts);
                            assert(ro2 == ro);
                        }
                    }
                    k = k + 1;
                }
                proof {
                    assert(log.responses.take(k as int) =~= log.responses);
                    assert(a + response_only(log.responses, log.texts).map_values(f2) =~= delta_plan(log));
                }
            },
        }
        database
    }

    /// A delta for a peer that knows nothing but what `new` gives every graph:
    /// every phrase whole, but for the empty text that opens the root, which
    /// such a peer has.
    pub fn total_clone(&self) -> (r: Database)
        requires
            self.wf(),
        ensures
            is_delta_of(r@, self@, full_plan(self@)),
    {
        let ghost g = self@;
        let mut database = Database::new();
        database.updated(SERVER);
        proof {
            lemma_empty_text_cloud();
            assert(peer_slot(Seq::<(Seq<char>, PeerLog)>::empty(), SERVER@) == -1);
            assert(database@.tracker =~= seq![(SERVER@, delta_log(Seq::<Piece>::empty()))]);
            assert(delta_phrases(g, Seq::<Piece>::empty()) =~= seq![sentinel()]);
            assert(index_of_cloud(database@.indices, g.indices[0].0) == Some(0usize));
            assert(full_plan(g).take(0) =~= Seq::<Piece>::empty());
        }
        let mut index: usize = 0;
        while index < self.phrases.len()
            invariant
                self.wf(),
                g == self@,
                index <= self.phrases.len(),
                is_delta_of(database@, g, full_plan(g).take(index as int)),
            decreases self.phrases.len() - index,
        {
            let ghost before = database@;
            let start: usize = if index == 0 { 1 } else { 0 };
            self.add_difference(&mut database, index, Some(start), Some(0));
            proof {
                lemma_delta_step(before, database@, g, full_plan(g).take(index as int), (index, Some(start), Some(0usize)));
                assert(full_plan(g).take(index as int).push((index, Some(start), Some(0usize))) =~= full_plan(g).take(index + 1));
            }
            index = index + 1;
        }
        assert(full_plan(g).take(index as int) =~= full_plan(g));
        database
    }

    /// Whether this value has the shape of a delta that `merge` accepts.
    pub fn is_delta(&self) -> (r: bool)
        ensures
            r == delta_shaped(self@),
    {
        let ghost d = self@;
        let server = String::from_str(SERVER);
        let slot = match self.manager.find(&server) {
            Some(slot) => slot,
            None => {
                return false;
            },
        };
        proof {
            lemma_peer_slot(d.tracker, SERVER@);
            assert(self.manager.peers@.len() == self.manager.peers.len());
            assert(d.tracker[slot as int] == (self.manager.peers@[slot as int].0@, self.manager.peers@[slot as int].1@));
        }
        let log = &self.manager.peers[slot].1;
        assert(log@ == sent_log(d));
        let mut k: usize = 0;
        while k < log.texts.len()
            invariant
                d == self@,
                log@ == sent_log(d),
                k <= log.texts.len(),
                forall|q: int| 0 <= q < k ==> text_entry_ok(d, #[trigger] sent_log(d).texts[q]),
            decreases log.texts.len() - k,
        {
            let (i, t) = log.texts[k];
            if i >= self.phrases.len() || t > self.phrases[i].texts.len() {
                assert(!text_entry_ok(d, sent_log(d).texts[k as int]));
                return false;
            }
            k = k + 1;
        }
        let mut k: usize = 0;
        while k < log.responses.len()
            invariant
                d == self@,
                log@ == sent_log(d),
                k <= log.responses.len(),
                forall|q: int| 0 <= q < k ==> response_entry_ok(d, #[trigger] sent_log(d).responses[q]),
            decreases log.responses.len() - k,
        {
            let (i, r) = log.responses[k];
            assert(sent_log(d).responses[k as int] == (i, r));
            if i >= self.phrases.len() || r > self.phrases[i].responses.len() {
                return false;
            }
            let rs = &self.phrases[i].responses;
            let mut q: usize = r;
            while q < rs.len()
                invariant
                    d == self@,
                    i < d.phrases.len(),
                    rs@ == d.phrases[i as int].responses,
                    r <= q <= rs.len(),
                    k < sent_log(d).responses.len(),
                    sent_log(d).responses[k as int] == (i, r),
                    forall|x: int| r <= x < q ==> cloud_of_index(d.indices, (#[trigger] rs@[x]).0) is Some,
                decreases rs.len() - q,
            {
                let found = find_index(&self.phrase_indices, rs[q].0);
                if found.is_none() {
                    assert(cloud_of_index(d.indices, rs@[q as int].0) is None);
                    assert(!response_entry_ok(d, (i, r)));
                    return false;
                }
                q = q + 1;
            }
            assert(response_entry_ok(d, (i, r)));
            k = k + 1;
        }
        true
    }

    /// The responses `rs` of the delta `delta` with their targets moved to
    /// the phrases of this graph of the same cloud; `None` if one of those
    /// clouds is unknown here.
    fn remap(&self, delta: &Database, rs: &Vec<(usize, GeneralPerson)>) -> (r: Option<Vec<(usize, GeneralPerson)>>)
        requires
            self.wf(),
            forall|q: int| 0 <= q < rs.len() ==> cloud_of_index(delta@.indices, (#[trigger] rs@[q]).0) is Some,
        ensures
            r is Some <==> resolvable(self@, delta@, rs@),
            r is Some ==> r->0@ == remapped(self@, delta@, rs@),
            r is Some ==> forall|q: int| 0 <= q < rs.len() ==> (#[trigger] r->0@[q]).0 < self@.phrases.len(),
    {
        let ghost g = self@;
        let ghost d = delta@;
        let mut out: Vec<(usize, GeneralPerson)> = Vec::new();
        let mut q: usize = 0;
        while q < rs.len()
            invariant
                self.wf(),
                g == self@,
                d == delta@,
                forall|x: int| 0 <= x < rs.len() ==> cloud_of_index(d.indices, (#[trigger] rs@[x]).0) is Some,
                q <= rs.len(),
                out@ == remapped(g, d, rs@.take(q as int)),
                forall|x: int| 0 <= x < q ==> index_of_cloud(g.indices, cloud_of_index(d.indices, (#[trigger] rs@[x]).0)->0) is Some,
                forall|x: int| 0 <= x < q ==> (#[trigger] out@[x]).0 < g.phrases.len(),
            decreases rs.len() - q,
        {
            let (j, who) = rs[q];
            proof {
                lemma_index_slot(d.indices, j);
                assert(cloud_of_index(d.indices, rs@[q as int].0) is Some);
            }
            let slot = find_index(&delta.phrase_indices, j);
            let slot = match slot {
                Some(s) => s,
                None => {
                    return None;
                },
            };
            proof {
                lemma_index_slot(index_view(delta.phrase_indices@), j);
                assert(delta.phrase_indices@.len() == delta.phrase_indices.len());
                assert(index_slot(d.indices, j) >= 0);
            }
            assert(index_view(delta.phrase_indices@)[slot as int] == (delta.phrase_indices@[slot as int].0@, delta.phrase_indices@[slot as int].1));
            let c = &delta.phrase_indices[slot].0;
            assert(c@ == cloud_of_index(d.indices, j)->0);
            match self.find_cloud(c) {
                Some(k) => {
                    proof {
                        lemma_index_of_cloud_wf(g, c@);
                    }
                    out.push((k, who));
                    assert(out@ =~= remapped(g, d, rs@.take(q + 1)));
                },
                None => {
                    assert(!resolvable(g, d, rs@));
                    return None;
                },
            }
            q = q + 1;
        }
        assert(rs@.take(q as int) =~= rs@);
        Some(out)
    }

    /// Merges into this graph a delta that a peer made with `difference` or
    /// `total_clone`: first every text entry of the delta's `SERVER` log, in
    /// order, as an insertion of the shipped texts under the cloud of the
    /// phrase's canonical text; then every response entry, in order, as an
    /// insertion of the shipped responses, their targets moved to the phrases
    /// of this graph with the same cloud.
    pub fn merge(&mut self, database: Database) -> (r: Result<(), MergeError>)
        requires
            old(self).wf(),
        ensures
            final(self).wf(),
            grows(old(self)@.phrases, final(self)@.phrases),
            keeps_index(old(self)@.indices, final(self)@.indices),
            !delta_shaped(database@) ==> r == Err::<(), MergeError>(MergeError::MalformedDelta)
                && final(self)@ == old(self)@,
            delta_shaped(database@) ==> final(self)@ == merge_spec(old(self)@, database@).0 && (r
                is Ok <==> merge_spec(old(self)@, database@).1) && (r is Err ==> r
                == Err::<(), MergeError>(MergeError::UnresolvedPhrase)),
    {
        let ghost g0 = self@;
        let ghost d = database@;
        proof {
            lemma_grows_refl(g0.phrases);
            assert(g0.indices.take(g0.indices.len() as int) =~= g0.indices);
        }
        if !database.is_delta() {
            return Err(MergeError::MalformedDelta);
        }
        let server = String::from_str(SERVER);
        let slot = match database.manager.find(&server) {
            Some(slot) => slot,
            None => {
                return Err(MergeError::MalformedDelta);
            },
        };
        proof {
            lemma_peer_slot(d.tracker, SERVER@);
            assert(database.manager.peers@.len() == database.manager.peers.len());
            assert(d.tracker[slot as int] == (database.manager.peers@[slot as int].0@, database.manager.peers@[slot as int].1@));
        }
        let log = &database.manager.peers[slot].1;
        let ghost ts = sent_log(d).texts;
        let ghost rs = sent_log(d).responses;
        assert(log@ == sent_log(d));
        let mut merged: Vec<Option<usize>> = Vec::new();
        let mut k: usize = 0;
        while k < database.phrases.len()
            invariant
                k <= database.phrases.len(),
                merged@ == Seq::new(k as nat, |x: int| None::<usize>),
            decreases database.phrases.len() - k,
        {
            merged.push(None);
            assert(merged@ =~= Seq::new((k + 1) as nat, |x: int| None::<usize>));
            k = k + 1;
        }
        assert(merged@ =~= merge_texts(g0, d, ts.take(0)).1);
        assert(ts.take(0) =~= Seq::<(usize, usize)>::empty());
        let mut j: usize = 0;
        while j < log.texts.len()
            invariant
                d == database@,
                log@ == sent_log(d),
                ts == sent_log(d).texts,
                delta_shaped(d),
                self.wf(),
                j <= log.texts.len(),
                (self@, merged@) == merge_texts(g0, d, ts.take(j as int)),
                grows(g0.phrases, self@.phrases),
                keeps_index(g0.indices, self@.indices),
                old(self)@ == g0,
                merged@.len() == d.phrases.len(),
                forall|x: int| 0 <= x < merged@.len() && (#[trigger] merged@[x]) is Some ==> merged@[x]->0 < self@.phrases.len(),
            decreases log.texts.len() - j,
        {
            let (i, start) = log.texts[j];
            proof {
                assert(ts[j as int] == (i, start));
                assert(text_entry_ok(d, ts[j as int]));
                assert(ts.take(j + 1).drop_last() =~= ts.take(j as int));
            }
            let texts = texts_from(&database.phrases[i].texts, start);
            let ghost before = self@;
            let base: &str = if database.phrases[i].texts.len() > 0 {
                database.phrases[i].texts[0].as_str()
            } else {
                ""
            };
            proof {
                reveal_strlit("");
                assert(base@ == name_text(d.phrases[i as int].texts));
            }
            let got = self.insert_texts_at(base, texts);
            proof {
                lemma_grows_trans(g0.phrases, before.phrases, self@.phrases);
                lemma_keeps_index_trans(g0.indices, before.indices, self@.indices);
            }
            match got {
                Some(x) => {
                    merged.set(i, Some(x));
                },
                None => {},
            }
            j = j + 1;
        }
        assert(ts.take(j as int) =~= ts);
        let ghost g1 = self@;
        let ghost m = merged@;
        assert(merge_texts(g0, d, ts) == (g1, m));
        assert(rs.take(0) =~= Seq::<(usize, usize)>::empty());
        let mut j: usize = 0;
        while j < log.responses.len()
            invariant
                d == database@,
                log@ == sent_log(d),
                rs == sent_log(d).responses,
                delta_shaped(d),
                self.wf(),
                m == merged@,
                m.len() == d.phrases.len(),
                forall|x: int| 0 <= x < m.len() && (#[trigger] m[x]) is Some ==> m[x]->0 < self@.phrases.len(),
                j <= log.responses.len(),
                merge_responses(g1, d, m, rs.take(j as int)) == (self@, true),
                grows(g0.phrases, self@.phrases),
                keeps_index(g0.indices, self@.indices),
                old(self)@ == g0,
                merge_texts(g0, d, ts) == (g1, m),
                ts == sent_log(d).texts,
            decreases log.responses.len() - j,
        {
            let (i, start) = log.responses[j];
            proof {
                assert(rs[j as int] == (i, start));
                assert(response_entry_ok(d, rs[j as int]));
                assert(rs.take(j + 1).drop_last() =~= rs.take(j as int));
            }
            let shipped = responses_from(&database.phrases[i].responses, start);
            assert forall|q: int| 0 <= q < shipped.len() implies cloud_of_index(d.indices, (#[trigger] shipped@[q]).0) is Some by {
                assert(shipped@[q] == d.phrases[i as int].responses[q + start]);
            }
            let target = match merged[i] {
                Some(t) => t,
                None => {
                    proof {
                        assert(rs.take(j + 1).last() == (i, start));
                        assert(m[i as int] is None);
                        assert(!merge_responses(g1, d, m, rs.take(j + 1)).1);
                        lemma_merge_responses_stop(g1, d, m, rs, j as int);
                    }
                    return Err(MergeError::UnresolvedPhrase);
                },
            };
            let moved = match self.remap(&database, &shipped) {
                Some(v) => v,
                None => {
                    proof {
                        assert(rs.take(j + 1).last() == (i, start));
                        assert(shipped@ == d.phrases[i as int].responses.skip(start as int));
                        assert(!resolvable(self@, d, d.phrases[i as int].responses.skip(start as int)));
                        assert(!merge_responses(g1, d, m, rs.take(j + 1)).1);
                        lemma_merge_responses_stop(g1, d, m, rs, j as int);
                    }
                    return Err(MergeError::UnresolvedPhrase);
                },
            };
            let ghost before = self@;
            self.insert_responses_to(target, moved);
            proof {
                lemma_grows_trans(g0.phrases, before.phrases, self@.phrases);
                assert(self@.indices == before.indices);
            }
            j = j + 1;
        }
        assert(rs.take(j as int) =~= rs);
        Ok(())
    }

    /// Adds `texts` at the phrase of the cloud of `base_text`, creating the
    /// phrase if the cloud is new. Returns the phrase's index: normalization
    /// cannot fail on a string slice, so this is always `Some`.
    pub fn insert_texts_at(&mut self, base_text: &str, texts: Vec<String>) -> (r: Option<usize>)
        requires
            old(self).wf(),
        ensures
            final(self).wf(),
            (final(self)@, r) == insert_texts_spec(
                old(self)@,
                cloud_of_text(base_text@),
                string_views(texts@),
            ),
            grows(old(self)@.phrases, final(self)@.phrases),
            keeps_index(old(self)@.indices, final(self)@.indices),
            r is Some,
            r->0 < final(self)@.phrases.len(),
            final(self)@.indices[r->0 as int].0 == cloud_of_text(base_text@),
    {
        let cloud = WordCloud::normalize(base_text);
        let ghost g = self@;
        let ghost ts = string_views(texts@);
        proof {
            lemma_index_of_cloud_wf(g, cloud@);
            lemma_insert_keeps_index(g, cloud@, ts);
        }
        match self.find_cloud(&cloud) {
            Some(i) => {
                if texts.len() > 0 {
                    let prior = self.phrases[i].texts.len();
                    self.manager.insert_text(i, prior);
                    let mut t = texts;
                    self.phrases[i].texts.append(&mut t);
                    proof {
                        let (h, _) = insert_texts_spec(g, cloud@, ts);
                        assert(self@.phrases[i as int].texts =~= h.phrases[i as int].texts);
                        assert(self@.phrases =~= h.phrases);
                        assert(self@.indices =~= h.indices);
                        assert(grows(g.phrases, h.phrases)) by {
                            assert forall|k: int| 0 <= k < g.phrases.len() implies (#[trigger] g.phrases[k]).texts
                                == h.phrases[k].texts.take(g.phrases[k].texts.len() as int)
                                && g.phrases[k].responses == h.phrases[k].responses.take(
                                g.phrases[k].responses.len() as int,
                            ) by {
                                assert(g.phrases[k].texts =~= h.phrases[k].texts.take(g.phrases[k].texts.len() as int));
                                assert(g.phrases[k].responses =~= h.phrases[k].responses.take(g.phrases[k].responses.len() as int));
                            }
                        }
                        lemma_stamp_fits(g.tracker, g.phrases, h.phrases, i, prior, true);
                    }
                }
                proof {
                    if texts@.len() == 0 {
                        assert(grows(g.phrases, g.phrases)) by {
                            assert forall|k: int| 0 <= k < g.phrases.len() implies (#[trigger] g.phrases[k]).texts
                                == g.phrases[k].texts.take(g.phrases[k].texts.len() as int)
                                && g.phrases[k].responses == g.phrases[k].responses.take(
                                g.phrases[k].responses.len() as int,
                            ) by {
                                assert(g.phrases[k].texts =~= g.phrases[k].texts.take(g.phrases[k].texts.len() as int));
                                assert(g.phrases[k].responses =~= g.phrases[k].responses.take(g.phrases[k].responses.len() as int));
                            }
                        }
                    }
                }
                Some(i)
            },
            None => {
                let i = self.phrases.len();
                self.manager.insert_text(i, 0);
                self.phrases.push(Phrase { texts, responses: Vec::new() });
                self.phrase_indices.push((cloud, i));
                proof {
                    let (h, _) = insert_texts_spec(g, cloud@, ts);
                    assert(self@.phrases =~= h.phrases);
                    assert(self@.indices =~= h.indices);
                    assert(grows(g.phrases, h.phrases)) by {
                        assert forall|k: int| 0 <= k < g.phrases.len() implies (#[trigger] g.phrases[k]).texts
                            == h.phrases[k].texts.take(g.phrases[k].texts.len() as int)
                            && g.phrases[k].responses == h.phrases[k].responses.take(
                            g.phrases[k].responses.len() as int,
                        ) by {
                            assert(g.phrases[k].texts =~= g.phrases[k].texts.take(g.phrases[k].texts.len() as int));
                            assert(g.phrases[k].responses =~= g.phrases[k].responses.take(g.phrases[k].responses.len() as int));
                        }
                    }
                    lemma_stamp_fits(g.tracker, g.phrases, h.phrases, i, 0, true);
                    assert forall|a: int, b: int|
                        0 <= a < h.indices.len() && 0 <= b < h.indices.len() && a != b implies (
                        #[trigger] h.indices[a]).0 != (#[trigger] h.indices[b]).0 by {
                        if a < g.indices.len() && b < g.indices.len() {
                            assert(h.indices[a] == g.indices[a]);
                            assert(h.indices[b] == g.indices[b]);
                        } else if a < g.indices.len() {
                            assert(h.indices[a] == g.indices[a]);
                        } else {
                            assert(h.indices[b] == g.indices[b]);
                        }
                    }
                }
                Some(i)
            },
        }
    }

    /// Adds `responses` at phrase `index`.
    pub fn insert_responses_to(&mut self, index: usize, responses: Vec<(usize, GeneralPerson)>)
        requires
            old(self).wf(),
            index < old(self)@.phrases.len(),
            forall|e: int| 0 <= e < responses@.len() ==> (#[trigger] responses@[e]).0 < old(self)@.phrases.len(),
        ensures
            final(self).wf(),
            final(self)@ == insert_responses_spec(old(self)@, index, responses@),
            grows(old(self)@.phrases, final(self)@.phrases),
    {
        let ghost g = self@;
        let ghost rs = responses@;
        let prior = self.phrases[index].responses.len();
        self.manager.insert_response(index, prior);
        let mut rs_vec = responses;
        self.phrases[index].responses.append(&mut rs_vec);
        proof {
            let h = insert_responses_spec(g, index, rs);
            assert(self@.phrases[index as int].responses =~= h.phrases[index as int].responses);
            assert(self@.phrases =~= h.phrases);
            assert(self@.indices =~= h.indices);
            assert(grows(g.phrases, h.phrases)) by {
                assert forall|k: int| 0 <= k < g.phrases.len() implies (#[trigger] g.phrases[k]).texts
                    == h.phrases[k].texts.take(g.phrases[k].texts.len() as int)
                    && g.phrases[k].responses == h.phrases[k].responses.take(
                    g.phrases[k].responses.len() as int,
                ) by {
                    assert(g.phrases[k].texts =~= h.phrases[k].texts.take(g.phrases[k].texts.len() as int));
                    assert(g.phrases[k].responses =~= h.phrases[k].responses.take(g.phrases[k].responses.len() as int));
                }
            }
            lemma_stamp_fits(g.tracker, g.phrases, h.phrases, index, prior, false);
            assert forall|k: int, e: int|
                0 <= k < h.phrases.len() && 0 <= e < h.phrases[k].responses.len() implies (
                #[trigger] h.phrases[k].responses[e]).0 < h.phrases.len() by {
                if k == index && e >= g.phrases[k].responses.len() {
                    assert(h.phrases[k].responses[e] == rs[e - g.phrases[k].responses.len()]);
                } else {
                    assert(h.phrases[k].responses[e] == g.phrases[k].responses[e]);
                }
            }
        }
    }
}

impl Default for Database {
    /// The graph `new` makes.
    fn default() -> (r: Database)
        ensures
            r.wf(),
            r@.phrases == seq![sentinel()],
            r@.indices == seq![(cloud_of_text(Seq::<char>::empty()), 0usize)],
            r@.tracker == Seq::<(Seq<char>, PeerLog)>::empty(),
    {
        Database::new()
    }
}

} // verus!
