//! For every registered peer, the points from which new texts and new
//! responses have to be shipped to it next.

use vstd::prelude::*;

verus! {

/// An ordered map from phrase index to offset, as a list of entries in the
/// order they were made.
pub type OffsetLog = Seq<(usize, usize)>;

/// What one peer has not seen yet: per phrase, the first text and the first
/// response it lacks.
pub struct PeerLog {
    pub texts: OffsetLog,
    pub responses: OffsetLog,
}

/// Whether the log has an entry for phrase `k`.
pub open spec fn has_key(m: OffsetLog, k: usize) -> bool {
    exists|j: int| 0 <= j < m.len() && m[j].0 == k
}

/// The offset the log holds for phrase `k`; of two entries, the later.
pub open spec fn value_of(m: OffsetLog, k: usize) -> Option<usize>
    decreases m.len(),
{
    if m.len() == 0 {
        None
    } else if m.last().0 == k {
        Some(m.last().1)
    } else {
        value_of(m.drop_last(), k)
    }
}

/// The log with `k -> v` added, unless it already has an entry for `k`.
pub open spec fn stamp(m: OffsetLog, k: usize, v: usize) -> OffsetLog {
    if has_key(m, k) {
        m
    } else {
        m.push((k, v))
    }
}

/// No two entries of the log name the same phrase.
pub open spec fn unique_keys(m: OffsetLog) -> bool {
    forall|a: int, b: int| 0 <= a < m.len() && 0 <= b < m.len() && a != b ==> (#[trigger] m[a]).0 != (#[trigger] m[b]).0
}

pub proof fn lemma_stamp_facts(m: OffsetLog, k: usize, v: usize)
    ensures
        has_key(m, k) ==> stamp(m, k, v) == m,
        !has_key(m, k) ==> stamp(m, k, v) == m.push((k, v)),
        unique_keys(m) ==> unique_keys(stamp(m, k, v)),
        forall|i: usize| i != k ==> value_of(stamp(m, k, v), i) == value_of(m, i),
        !has_key(m, k) ==> value_of(stamp(m, k, v), k) == Some(v),
{
    if !has_key(m, k) {
        let m2 = m.push((k, v));
        assert(m2.drop_last() =~= m);
        if unique_keys(m) {
            assert forall|a: int, b: int| 0 <= a < m2.len() && 0 <= b < m2.len() && a != b implies (#[trigger] m2[a]).0
                != (#[trigger] m2[b]).0 by {
                if a < m.len() && b < m.len() {
                    assert(m2[a] == m[a]);
                    assert(m2[b] == m[b]);
                } else if a < m.len() {
                    assert(m2[a] == m[a]);
                } else {
                    assert(m2[b] == m[b]);
                }
            }
        }
    }
}

/// Every peer's text log, stamped with `k -> v`.
pub open spec fn stamp_texts(t: Seq<(Seq<char>, PeerLog)>, k: usize, v: usize) -> Seq<
    (Seq<char>, PeerLog),
> {
    t.map_values(
        |e: (Seq<char>, PeerLog)| (e.0, PeerLog { texts: stamp(e.1.texts, k, v), responses: e.1.responses }),
    )
}

/// Every peer's response log, stamped with `k -> v`.
pub open spec fn stamp_responses(t: Seq<(Seq<char>, PeerLog)>, k: usize, v: usize) -> Seq<
    (Seq<char>, PeerLog),
> {
    t.map_values(
        |e: (Seq<char>, PeerLog)| (e.0, PeerLog { texts: e.1.texts, responses: stamp(e.1.responses, k, v) }),
    )
}

/// The position of the peer's entry; of two, the later; `-1` if none.
pub open spec fn peer_slot(t: Seq<(Seq<char>, PeerLog)>, id: Seq<char>) -> int
    decreases t.len(),
{
    if t.len() == 0 {
        -1
    } else if t.last().0 == id {
        t.len() - 1
    } else {
        peer_slot(t.drop_last(), id)
    }
}

/// The empty log.
pub open spec fn empty_log() -> PeerLog {
    PeerLog { texts: Seq::empty(), responses: Seq::empty() }
}

/// The tracker once `id` is registered with an empty log.
pub open spec fn reset_peer(t: Seq<(Seq<char>, PeerLog)>, id: Seq<char>) -> Seq<(Seq<char>, PeerLog)> {
    let s = peer_slot(t, id);
    if s >= 0 {
        t.update(s, (id, empty_log()))
    } else {
        t.push((id, empty_log()))
    }
}

/// The log of peer `id`; empty if it is not registered.
pub open spec fn log_of(t: Seq<(Seq<char>, PeerLog)>, id: Seq<char>) -> PeerLog {
    let s = peer_slot(t, id);
    if s >= 0 {
        t[s].1
    } else {
        empty_log()
    }
}

pub proof fn lemma_peer_slot(t: Seq<(Seq<char>, PeerLog)>, id: Seq<char>)
    ensures
        -1 <= peer_slot(t, id) < t.len(),
        peer_slot(t, id) >= 0 ==> t[peer_slot(t, id)].0 == id,
        peer_slot(t, id) < 0 ==> forall|k: int| 0 <= k < t.len() ==> t[k].0 != id,
    decreases t.len(),
{
    if t.len() > 0 {
        lemma_peer_slot(t.drop_last(), id);
        if peer_slot(t, id) < 0 {
            assert forall|k: int| 0 <= k < t.len() implies t[k].0 != id by {
                if k < t.len() - 1 {
                    assert(t[k] == t.drop_last()[k]);
                }
            }
        }
    }
}

pub proof fn lemma_value_of(m: OffsetLog, k: usize)
    ensures
        value_of(m, k) is Some <==> has_key(m, k),
        value_of(m, k) is Some ==> exists|j: int| 0 <= j < m.len() && m[j] == (k, value_of(m, k)->0),
    decreases m.len(),
{
    if m.len() > 0 {
        lemma_value_of(m.drop_last(), k);
        if m.last().0 != k {
            if has_key(m, k) {
                let j = choose|j: int| 0 <= j < m.len() && m[j].0 == k;
                assert(m.drop_last()[j].0 == k);
            }
            if value_of(m, k) is Some {
                let j = choose|j: int| 0 <= j < m.drop_last().len() && m.drop_last()[j] == (k, value_of(m, k)->0);
                assert(m[j] == m.drop_last()[j]);
            }
        } else {
            assert(m[m.len() - 1].0 == k);
        }
    }
}

/// What a peer has not seen yet, as two ordered maps from phrase index to
/// offset.
#[derive(Clone, Debug)]
pub struct DatabaseDifference {
    pub texts: Vec<(usize, usize)>,
    pub responses: Vec<(usize, usize)>,
}

impl View for DatabaseDifference {
    type V = PeerLog;

    open spec fn view(&self) -> PeerLog {
        PeerLog { texts: self.texts@, responses: self.responses@ }
    }
}

/// Whether the log has an entry for `k`.
pub fn log_has(m: &Vec<(usize, usize)>, k: usize) -> (r: bool)
    ensures
        r == has_key(m@, k),
{
    let mut j: usize = 0;
    while j < m.len()
        invariant
            j <= m.len(),
            forall|i: int| 0 <= i < j ==> m@[i].0 != k,
        decreases m.len() - j,
    {
        if m[j].0 == k {
            return true;
        }
        j = j + 1;
    }
    false
}

/// The offset the log holds for `k`, the later of two.
pub fn log_get(m: &Vec<(usize, usize)>, k: usize) -> (r: Option<usize>)
    ensures
        r == value_of(m@, k),
{
    let mut j: usize = m.len();
    assert(m@.take(j as int) =~= m@);
    while j > 0
        invariant
            j <= m.len(),
            value_of(m@, k) == value_of(m@.take(j as int), k),
        decreases j,
    {
        assert(m@.take(j as int).drop_last() =~= m@.take(j - 1));
        if m[j - 1].0 == k {
            return Some(m[j - 1].1);
        }
        j = j - 1;
    }
    None
}

/// Adds `k -> v` to the log unless it has an entry for `k`.
pub fn log_stamp(m: &mut Vec<(usize, usize)>, k: usize, v: usize)
    ensures
        final(m)@ == stamp(old(m)@, k, v),
{
    if !log_has(m, k) {
        m.push((k, v));
    }
}

impl DatabaseDifference {
    /// The empty delta.
    pub fn new() -> (r: DatabaseDifference)
        ensures
            r@ == empty_log(),
    {
        DatabaseDifference { texts: Vec::new(), responses: Vec::new() }
    }
}

/// The logs of all registered peers, in the order they registered.
#[derive(Clone, Debug)]
pub struct DifferenceManager {
    pub peers: Vec<(String, DatabaseDifference)>,
}

impl View for DifferenceManager {
    type V = Seq<(Seq<char>, PeerLog)>;

    open spec fn view(&self) -> Seq<(Seq<char>, PeerLog)> {
        self.peers@.map_values(|e: (String, DatabaseDifference)| (e.0@, e.1@))
    }
}

impl DifferenceManager {
    /// No peer registered.
    pub fn new() -> (r: DifferenceManager)
        ensures
            r@ == Seq::<(Seq<char>, PeerLog)>::empty(),
    {
        DifferenceManager { peers: Vec::new() }
    }

    /// The position of the peer's entry, the later of two.
    pub fn find(&self, id: &String) -> (r: Option<usize>)
        ensures
            peer_slot(self@, id@) >= 0 ==> r == Some(peer_slot(self@, id@) as usize),
            peer_slot(self@, id@) < 0 ==> r is None,
    {
        let mut j: usize = self.peers.len();
        assert(self@.take(j as int) =~= self@);
        while j > 0
            invariant
                j <= self.peers.len(),
                peer_slot(self@, id@) == peer_slot(self@.take(j as int), id@),
            decreases j,
        {
            assert(self@.take(j as int).drop_last() =~= self@.take(j - 1));
            if self.peers[j - 1].0 == *id {
                return Some(j - 1);
            }
            j = j - 1;
        }
        None
    }

    /// Registers `id` with an empty log, or empties its log.
    pub fn reset(&mut self, id: String)
        ensures
            final(self)@ == reset_peer(old(self)@, id@),
    {
        proof {
            lemma_peer_slot(self@, id@);
        }
        match self.find(&id) {
            Some(s) => {
                let ghost v = id@;
                self.peers.set(s, (id, DatabaseDifference::new()));
                assert(self@ =~= reset_peer(old(self)@, v));
            },
            None => {
                let ghost v = id@;
                self.peers.push((id, DatabaseDifference::new()));
                assert(self@ =~= reset_peer(old(self)@, v));
            },
        }
    }

    /// For every registered peer that has no text entry for phrase `k`, records
    /// that it lacks the texts of `k` from `prior` on.
    pub fn insert_text(&mut self, k: usize, prior: usize)
        ensures
            final(self)@ == stamp_texts(old(self)@, k, prior),
    {
        let mut j: usize = 0;
        while j < self.peers.len()
            invariant
                j <= self.peers.len(),
                self.peers.len() == old(self).peers.len(),
                forall|i: int|
                    0 <= i < j ==> #[trigger] self@[i] == stamp_texts(old(self)@, k, prior)[i],
                forall|i: int| j <= i < self.peers.len() ==> #[trigger] self@[i] == old(self)@[i],
            decreases self.peers.len() - j,
        {
            let ghost before = self.peers@;
            let ghost before_view = self@;
            log_stamp(&mut self.peers[j].1.texts, k, prior);
            assert forall|i: int| 0 <= i < self.peers.len() implies #[trigger] self@[i] == (if i
                == j {
                stamp_texts(old(self)@, k, prior)[i]
            } else {
                before_view[i]
            }) by {
                if i != j {
                    assert(self.peers@[i] == before[i]);
                } else {
                    assert(before_view[i] == old(self)@[i]);
                    assert(self.peers@[i].1.texts@ == stamp(before[i].1.texts@, k, prior));
                    assert(self.peers@[i].1.responses@ == before[i].1.responses@);
                    assert(self.peers@[i].0 == before[i].0);
                }
            }
            j = j + 1;
        }
        assert(self@ =~= stamp_texts(old(self)@, k, prior));
    }

    /// For every registered peer that has no response entry for phrase `k`,
    /// records that it lacks the responses of `k` from `prior` on.
    pub fn insert_response(&mut self, k: usize, prior: usize)
        ensures
            final(self)@ == stamp_responses(old(self)@, k, prior),
    {
        let mut j: usize = 0;
        while j < self.peers.len()
            invariant
                j <= self.peers.len(),
                self.peers.len() == old(self).peers.len(),
                forall|i: int|
                    0 <= i < j ==> #[trigger] self@[i] == stamp_responses(old(self)@, k, prior)[i],
                forall|i: int| j <= i < self.peers.len() ==> #[trigger] self@[i] == old(self)@[i],
            decreases self.peers.len() - j,
        {
            let ghost before = self.peers@;
            let ghost before_view = self@;
            log_stamp(&mut self.peers[j].1.responses, k, prior);
            assert forall|i: int| 0 <= i < self.peers.len() implies #[trigger] self@[i] == (if i
                == j {
                stamp_responses(old(self)@, k, prior)[i]
            } else {
                before_view[i]
            }) by {
                if i != j {
                    assert(self.peers@[i] == before[i]);
                } else {
                    assert(before_view[i] == old(self)@[i]);
                    assert(self.peers@[i].1.responses@ == stamp(before[i].1.responses@, k, prior));
                    assert(self.peers@[i].1.texts@ == before[i].1.texts@);
                    assert(self.peers@[i].0 == before[i].0);
                }
            }
            j = j + 1;
        }
        assert(self@ =~= stamp_responses(old(self)@, k, prior));
    }
}

} // verus!
