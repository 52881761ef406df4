//! Word clouds: the identity of a phrase, the set of words of its text once
//! punctuation is gone and case is folded.

use vstd::prelude::*;

verus! {

/// The characters that are dropped from a text before it is split into words.
pub open spec fn is_punctuation(c: char) -> bool {
    c == '(' || c == ')' || c == ',' || c == '"' || c == '.' || c == ';' || c == ':' || c == '\''
        || c == '?' || c == '!' || c == '-'
}

/// `s` without its punctuation characters, the others kept in order.
pub open spec fn strip_punctuation(s: Seq<char>) -> Seq<char>
    decreases s.len(),
{
    if s.len() == 0 {
        s
    } else {
        let rest = strip_punctuation(s.drop_last());
        if is_punctuation(s.last()) {
            rest
        } else {
            rest.push(s.last())
        }
    }
}

/// Splitting `s` on spaces, as far as it goes: the words already closed by a
/// space, and the word still open at the end.
pub open spec fn scan_words(s: Seq<char>) -> (Seq<Seq<char>>, Seq<char>)
    decreases s.len(),
{
    if s.len() == 0 {
        (Seq::empty(), Seq::empty())
    } else {
        let (closed, open) = scan_words(s.drop_last());
        if s.last() == ' ' {
            if open.len() == 0 {
                (closed, open)
            } else {
                (closed.push(open), Seq::empty())
            }
        } else {
            (closed, open.push(s.last()))
        }
    }
}

/// The words of `s`: its maximal runs of characters other than the space, in
/// order. Runs of several spaces, and spaces at either end, give no word.
pub open spec fn split_words(s: Seq<char>) -> Seq<Seq<char>> {
    let (closed, open) = scan_words(s);
    if open.len() == 0 {
        closed
    } else {
        closed.push(open)
    }
}

/// What `str::to_lowercase` makes of a string.
pub uninterp spec fn lower_of(s: Seq<char>) -> Seq<char>;

/// The words of a text, lowercased one by one.
pub open spec fn normalized_words(s: Seq<char>) -> Seq<Seq<char>> {
    split_words(strip_punctuation(s)).map_values(|w: Seq<char>| lower_of(w))
}

/// The cloud of a text: the set of its normalized words.
pub open spec fn cloud_of_text(s: Seq<char>) -> Set<Seq<char>> {
    normalized_words(s).to_set()
}

/// The words joined by single spaces.
pub open spec fn join_words(ws: Seq<Seq<char>>) -> Seq<char>
    decreases ws.len(),
{
    if ws.len() == 0 {
        Seq::empty()
    } else if ws.len() == 1 {
        ws[0]
    } else {
        join_words(ws.drop_last()) + seq![' '] + ws.last()
    }
}

/// The empty text has the empty cloud.
pub proof fn lemma_empty_text_cloud()
    ensures
        cloud_of_text(Seq::<char>::empty()) == Set::<Seq<char>>::empty(),
{
    assert(strip_punctuation(Seq::<char>::empty()) =~= Seq::<char>::empty());
    assert(normalized_words(Seq::<char>::empty()) =~= Seq::<Seq<char>>::empty());
    assert(cloud_of_text(Seq::<char>::empty()) =~= Set::<Seq<char>>::empty());
}

/// A word that normalization leaves as it is: not empty, without space or
/// punctuation, and its own lowercase form.
pub open spec fn settled_word(w: Seq<char>) -> bool {
    &&& w.len() > 0
    &&& forall|i: int| 0 <= i < w.len() ==> w[i] != ' ' && !is_punctuation(#[trigger] w[i])
    &&& lower_of(w) == w
}

/// No character of `s` is punctuation.
pub open spec fn clean(s: Seq<char>) -> bool {
    forall|i: int| 0 <= i < s.len() ==> !is_punctuation(#[trigger] s[i])
}

pub proof fn lemma_strip_clean(s: Seq<char>)
    requires
        clean(s),
    ensures
        strip_punctuation(s) == s,
    decreases s.len(),
{
    if s.len() > 0 {
        assert(clean(s.drop_last())) by {
            assert forall|i: int| 0 <= i < s.drop_last().len() implies !is_punctuation(#[trigger] s.drop_last()[i]) by {
                assert(s.drop_last()[i] == s[i]);
            }
        }
        lemma_strip_clean(s.drop_last());
        assert(!is_punctuation(s[s.len() - 1]));
        assert(s.drop_last().push(s.last()) =~= s);
    }
}

pub proof fn lemma_strip_append(a: Seq<char>, b: Seq<char>)
    ensures
        strip_punctuation(a + b) == strip_punctuation(a) + strip_punctuation(b),
    decreases b.len(),
{
    if b.len() == 0 {
        assert(a + b =~= a);
        assert(strip_punctuation(a) + strip_punctuation(b) =~= strip_punctuation(a));
    } else {
        assert((a + b).drop_last() =~= a + b.drop_last());
        lemma_strip_append(a, b.drop_last());
        if is_punctuation(b.last()) {
        } else {
            assert(strip_punctuation(a) + strip_punctuation(b.drop_last()).push(b.last()) =~= (
            strip_punctuation(a) + strip_punctuation(b.drop_last())).push(b.last()));
        }
    }
}

pub proof fn lemma_join_clean(ws: Seq<Seq<char>>)
    requires
        forall|k: int| 0 <= k < ws.len() ==> clean(#[trigger] ws[k]),
    ensures
        clean(join_words(ws)),
    decreases ws.len(),
{
    if ws.len() > 1 {
        lemma_join_clean(ws.drop_last());
        let j = join_words(ws.drop_last());
        let w = ws.last();
        assert(clean(w));
        assert forall|i: int| 0 <= i < join_words(ws).len() implies !is_punctuation(#[trigger] join_words(ws)[i]) by {
            if i < j.len() {
                assert(join_words(ws)[i] == j[i]);
            } else if i == j.len() {
                assert(join_words(ws)[i] == ' ');
            } else {
                assert(join_words(ws)[i] == w[i - j.len() - 1]);
            }
        }
    } else if ws.len() == 1 {
        assert(clean(ws[0]));
    }
}

pub proof fn lemma_scan_word(x: Seq<char>, w: Seq<char>)
    requires
        forall|i: int| 0 <= i < w.len() ==> w[i] != ' ',
    ensures
        scan_words(x + w) == (scan_words(x).0, scan_words(x).1 + w),
    decreases w.len(),
{
    if w.len() == 0 {
        assert(x + w =~= x);
        assert(scan_words(x).1 + w =~= scan_words(x).1);
    } else {
        assert((x + w).drop_last() =~= x + w.drop_last());
        lemma_scan_word(x, w.drop_last());
        assert((x + w).last() == w.last());
        assert((scan_words(x).1 + w.drop_last()).push(w.last()) =~= scan_words(x).1 + w);
    }
}

pub proof fn lemma_scan_join(ws: Seq<Seq<char>>)
    requires
        ws.len() >= 1,
        forall|k: int| 0 <= k < ws.len() ==> (#[trigger] ws[k]).len() > 0 && forall|i: int| 0 <= i < ws[k].len() ==> ws[k][i] != ' ',
    ensures
        scan_words(join_words(ws)) == (ws.drop_last(), ws.last()),
    decreases ws.len(),
{
    if ws.len() == 1 {
        lemma_scan_word(Seq::empty(), ws[0]);
        assert(Seq::<char>::empty() + ws[0] =~= ws[0]);
        assert(ws.drop_last() =~= Seq::<Seq<char>>::empty());
        assert(Seq::<char>::empty() + ws[0] =~= ws[0]);
    } else {
        let d = ws.drop_last();
        assert forall|k: int| 0 <= k < d.len() implies (#[trigger] d[k]).len() > 0 && forall|i: int| 0 <= i < d[k].len() ==> d[k][i] != ' ' by {
            assert(d[k] == ws[k]);
        }
        lemma_scan_join(d);
        let y = join_words(d);
        let ys = y + seq![' '];
        assert(ys.drop_last() =~= y);
        assert(d.last() == ws[ws.len() - 2]);
        assert(scan_words(ys) == (d, Seq::<char>::empty())) by {
            assert(d.drop_last().push(d.last()) =~= d);
        }
        lemma_scan_word(ys, ws.last());
        assert(join_words(ws) == ys + ws.last());
        assert(Seq::<char>::empty() + ws.last() =~= ws.last());
    }
}

pub proof fn lemma_split_join(ws: Seq<Seq<char>>)
    requires
        forall|k: int| 0 <= k < ws.len() ==> (#[trigger] ws[k]).len() > 0 && forall|i: int| 0 <= i < ws[k].len() ==> ws[k][i] != ' ',
    ensures
        split_words(join_words(ws)) == ws,
{
    if ws.len() >= 1 {
        lemma_scan_join(ws);
        assert(ws.last() == ws[ws.len() - 1]);
        assert(ws.drop_last().push(ws.last()) =~= ws);
    } else {
        assert(ws =~= Seq::<Seq<char>>::empty());
    }
}

/// Normalizing the text form of a text's cloud gives the same words, and so
/// the same cloud, wherever lowercasing leaves those words settled.
pub proof fn law_normalize_idempotent(t: Seq<char>)
    requires
        forall|k: int| 0 <= k < normalized_words(t).len() ==> settled_word(#[trigger] normalized_words(t)[k]),
    ensures
        normalized_words(join_words(normalized_words(t))) == normalized_words(t),
        cloud_of_text(join_words(normalized_words(t))) == cloud_of_text(t),
{
    let ws = normalized_words(t);
    assert forall|k: int| 0 <= k < ws.len() implies clean(#[trigger] ws[k]) by {
        assert(settled_word(ws[k]));
    }
    lemma_join_clean(ws);
    lemma_strip_clean(join_words(ws));
    assert forall|k: int| 0 <= k < ws.len() implies (#[trigger] ws[k]).len() > 0 && forall|i: int| 0 <= i < ws[k].len() ==> ws[k][i] != ' ' by {
        assert(settled_word(ws[k]));
    }
    lemma_split_join(ws);
    assert(ws.map_values(|w: Seq<char>| lower_of(w)) =~= ws) by {
        assert forall|k: int| 0 <= k < ws.len() implies lower_of(ws[k]) == ws[k] by {
            assert(settled_word(ws[k]));
        }
    }
}

/// A punctuation character anywhere in a text does not change its words.
pub proof fn law_punctuation_ignored(a: Seq<char>, c: char, b: Seq<char>)
    requires
        is_punctuation(c),
    ensures
        normalized_words(a + seq![c] + b) == normalized_words(a + b),
        cloud_of_text(a + seq![c] + b) == cloud_of_text(a + b),
{
    lemma_strip_append(a + seq![c], b);
    lemma_strip_append(a, seq![c]);
    lemma_strip_append(a, b);
    assert(seq![c].drop_last() =~= Seq::<char>::empty());
    assert(strip_punctuation(Seq::<char>::empty()) == Seq::<char>::empty());
    assert(seq![c].last() == c);
    assert(strip_punctuation(seq![c]) =~= Seq::<char>::empty());
    assert(strip_punctuation(a) + Seq::<char>::empty() =~= strip_punctuation(a));
}

/// Texts that split into the same words up to that point split alike after
/// the same continuation.
pub proof fn lemma_scan_same(x: Seq<char>, y: Seq<char>, z: Seq<char>)
    requires
        scan_words(x) == scan_words(y),
    ensures
        scan_words(x + z) == scan_words(y + z),
    decreases z.len(),
{
    if z.len() == 0 {
        assert(x + z =~= x);
        assert(y + z =~= y);
    } else {
        lemma_scan_same(x, y, z.drop_last());
        assert((x + z).drop_last() =~= x + z.drop_last());
        assert((y + z).drop_last() =~= y + z.drop_last());
        assert((x + z).last() == (y + z).last());
    }
}

/// A run of spaces counts as one: doubling a space does not change the words.
pub proof fn law_spacing_ignored(a: Seq<char>, b: Seq<char>)
    ensures
        normalized_words(a + seq![' ', ' '] + b) == normalized_words(a + seq![' '] + b),
        cloud_of_text(a + seq![' ', ' '] + b) == cloud_of_text(a + seq![' '] + b),
{
    let sa = strip_punctuation(a);
    let sb = strip_punctuation(b);
    lemma_strip_append(a + seq![' ', ' '], b);
    lemma_strip_append(a, seq![' ', ' ']);
    lemma_strip_append(a + seq![' '], b);
    lemma_strip_append(a, seq![' ']);
    assert(seq![' ', ' '].drop_last() =~= seq![' ']);
    assert(seq![' '].drop_last() =~= Seq::<char>::empty());
    assert(strip_punctuation(Seq::<char>::empty()) == Seq::<char>::empty());
    assert(seq![' '].last() == ' ');
    assert(Seq::<char>::empty().push(' ') =~= seq![' ']);
    assert(strip_punctuation(seq![' ']) =~= seq![' ']);
    assert(seq![' ', ' '].last() == ' ');
    assert(seq![' '].push(' ') =~= seq![' ', ' ']);
    assert(strip_punctuation(seq![' ', ' ']) =~= seq![' ', ' ']);
    let x = sa + seq![' ', ' '];
    let y = sa + seq![' '];
    assert(x.drop_last() =~= y);
    assert(y.drop_last() =~= sa);
    assert(scan_words(x) == scan_words(y));
    lemma_scan_same(x, y, sb);
}

/// The views of a list of strings.
pub open spec fn string_views(v: Seq<String>) -> Seq<Seq<char>> {
    v.map_values(|w: String| w@)
}

/// Relies on `str::to_lowercase`: the lowercase form of a word, which depends
/// on its characters alone.
#[verifier::external_body]
fn lowercase(s: &str) -> (r: String)
    ensures
        r@ == lower_of(s@),
{
    s.to_lowercase()
}

/// `s` without its punctuation characters.
pub fn strip(s: &str) -> (r: String)
    ensures
        r@ == strip_punctuation(s@),
{
    let n = s.unicode_len();
    let mut out = String::new();
    let mut i: usize = 0;
    while i < n
        invariant
            n == s@.len(),
            i <= n,
            out@ == strip_punctuation(s@.take(i as int)),
        decreases n - i,
    {
        let c = s.get_char(i);
        assert(s@.take(i + 1).drop_last() =~= s@.take(i as int));
        if !(c == '(' || c == ')' || c == ',' || c == '"' || c == '.' || c == ';' || c == ':'
            || c == '\'' || c == '?' || c == '!' || c == '-') {
            let piece = s.substring_char(i, i + 1);
            out.append(piece);
            assert(piece@ =~= seq![c]);
        }
        i = i + 1;
    }
    assert(s@.take(n as int) =~= s@);
    out
}

/// The words of `s`, split on spaces, with no empty word.
pub fn words_of(s: &str) -> (r: Vec<String>)
    ensures
        string_views(r@) == split_words(s@),
{
    let n = s.unicode_len();
    let mut closed: Vec<String> = Vec::new();
    let mut open = String::new();
    let mut i: usize = 0;
    while i < n
        invariant
            n == s@.len(),
            i <= n,
            string_views(closed@) == scan_words(s@.take(i as int)).0,
            open@ == scan_words(s@.take(i as int)).1,
        decreases n - i,
    {
        let c = s.get_char(i);
        assert(s@.take(i + 1).drop_last() =~= s@.take(i as int));
        if c == ' ' {
            if open.unicode_len() > 0 {
                let mut word = String::new();
                std::mem::swap(&mut word, &mut open);
                closed.push(word);
                assert(string_views(closed@) =~= scan_words(s@.take(i + 1)).0);
            }
        } else {
            let piece = s.substring_char(i, i + 1);
            assert(piece@ =~= seq![c]);
            open.append(piece);
        }
        i = i + 1;
    }
    assert(s@.take(n as int) =~= s@);
    if open.unicode_len() > 0 {
        closed.push(open);
        assert(string_views(closed@) =~= split_words(s@));
    }
    closed
}

/// The identity of a phrase: a set of words. The words are kept in the order
/// they came in, for the text form; the order and repeats do not count.
#[derive(Clone, Debug)]
pub struct WordCloud {
    words: Vec<String>,
}

impl View for WordCloud {
    type V = Set<Seq<char>>;

    open spec fn view(&self) -> Set<Seq<char>> {
        self.word_seq().to_set()
    }
}

impl WordCloud {
    /// The words in the order they are stored.
    pub closed spec fn word_seq(&self) -> Seq<Seq<char>> {
        string_views(self.words@)
    }

    /// A copy of the cloud, word for word.
    pub fn duplicate(&self) -> (r: WordCloud)
        ensures
            r.word_seq() == self.word_seq(),
            r@ == self@,
    {
        let mut words: Vec<String> = Vec::new();
        let mut i: usize = 0;
        while i < self.words.len()
            invariant
                i <= self.words.len(),
                words.len() == i,
                forall|k: int| 0 <= k < i ==> #[trigger] words@[k]@ == self.words@[k]@,
            decreases self.words.len() - i,
        {
            let w = self.words[i].clone();
            words.push(w);
            i = i + 1;
        }
        assert(string_views(words@) =~= string_views(self.words@));
        WordCloud { words }
    }

    /// The cloud with no word, that of the empty text.
    pub fn empty() -> (r: WordCloud)
        ensures
            r.word_seq() == Seq::<Seq<char>>::empty(),
            r@ == Set::<Seq<char>>::empty(),
    {
        let r = WordCloud { words: Vec::new() };
        assert(r.word_seq() =~= Seq::<Seq<char>>::empty());
        assert(r@ =~= Set::<Seq<char>>::empty());
        r
    }

    /// The cloud whose words are those of `s`, split on spaces, as they stand.
    pub fn new(s: &str) -> (r: WordCloud)
        ensures
            r.word_seq() == split_words(s@),
    {
        WordCloud { words: words_of(s) }
    }

    /// The cloud of a text: punctuation dropped, split on spaces, each word
    /// lowercased.
    pub fn normalize(s: &str) -> (r: WordCloud)
        ensures
            r.word_seq() == normalized_words(s@),
            r@ == cloud_of_text(s@),
    {
        let stripped = strip(s);
        let words = words_of(stripped.as_str());
        let mut lowered: Vec<String> = Vec::new();
        let mut i: usize = 0;
        while i < words.len()
            invariant
                string_views(words@) == split_words(strip_punctuation(s@)),
                i <= words.len(),
                lowered.len() == i,
                forall|k: int| 0 <= k < i ==> #[trigger] lowered@[k]@ == lower_of(words@[k]@),
            decreases words.len() - i,
        {
            let w = lowercase(words[i].as_str());
            lowered.push(w);
            i = i + 1;
        }
        let r = WordCloud { words: lowered };
        assert(r.word_seq() =~= normalized_words(s@)) by {
            assert forall|k: int| 0 <= k < lowered.len() implies r.word_seq()[k]
                == normalized_words(s@)[k] by {
                assert(string_views(words@)[k] == words@[k]@);
            }
        }
        r
    }

    /// The cloud of a text. Normalization cannot fail on a string slice, so
    /// this is always `Some`.
    pub fn from_str(s: &str) -> (r: Option<WordCloud>)
        ensures
            r is Some,
            r->0.word_seq() == normalized_words(s@),
            r->0@ == cloud_of_text(s@),
    {
        Some(WordCloud::normalize(s))
    }

    /// The text form: the words joined by single spaces.
    pub fn as_string(&self) -> (r: String)
        ensures
            r@ == join_words(self.word_seq()),
    {
        let mut out = String::new();
        let mut i: usize = 0;
        while i < self.words.len()
            invariant
                i <= self.words.len(),
                out@ == join_words(self.word_seq().take(i as int)),
            decreases self.words.len() - i,
        {
            let ghost ws = self.word_seq();
            assert(ws.take(i + 1).drop_last() =~= ws.take(i as int));
            if i > 0 {
                out.append(" ");
                proof {
                    reveal_strlit(" ");
                }
            }
            out.append(self.words[i].as_str());
            proof {
                if i == 0 {
                    assert(out@ =~= join_words(ws.take(1)));
                } else {
                    assert(out@ =~= join_words(ws.take(i + 1)));
                }
            }
            i = i + 1;
        }
        assert(self.word_seq().take(self.words.len() as int) =~= self.word_seq());
        out
    }

    /// Whether `w` is one of the words.
    fn has_word(&self, w: &String) -> (r: bool)
        ensures
            r == self.word_seq().contains(w@),
    {
        let mut i: usize = 0;
        while i < self.words.len()
            invariant
                i <= self.words.len(),
                forall|k: int| 0 <= k < i ==> self.word_seq()[k] != w@,
            decreases self.words.len() - i,
        {
            if self.words[i] == *w {
                assert(self.word_seq()[i as int] == w@);
                return true;
            }
            i = i + 1;
        }
        false
    }

    /// Whether every word of `other` is a word of `self`.
    fn covers(&self, other: &WordCloud) -> (r: bool)
        ensures
            r == (forall|k: int|
                0 <= k < other.word_seq().len() ==> self.word_seq().contains(
                    #[trigger] other.word_seq()[k],
                )),
    {
        let mut i: usize = 0;
        while i < other.words.len()
            invariant
                i <= other.words.len(),
                forall|k: int|
                    0 <= k < i ==> self.word_seq().contains(#[trigger] other.word_seq()[k]),
            decreases other.words.len() - i,
        {
            if !self.has_word(&other.words[i]) {
                assert(!self.word_seq().contains(other.word_seq()[i as int]));
                return false;
            }
            i = i + 1;
        }
        true
    }

    /// Whether the two clouds hold the same set of words.
    pub fn same_words(&self, other: &WordCloud) -> (r: bool)
        ensures
            r == (self@ == other@),
    {
        let a = self.covers(other);
        let b = other.covers(self);
        proof {
            if a && b {
                assert forall|x: Seq<char>| self@.contains(x) == other@.contains(x) by {
                    if self.word_seq().contains(x) {
                        let k = choose|k: int| 0 <= k < self.word_seq().len() && self.word_seq()[k] == x;
                        assert(other.word_seq().contains(self.word_seq()[k]));
                    }
                    if other.word_seq().contains(x) {
                        let k = choose|k: int| 0 <= k < other.word_seq().len() && other.word_seq()[k] == x;
                        assert(self.word_seq().contains(other.word_seq()[k]));
                    }
                }
                assert(self@ =~= other@);
            }
            if !a {
                let k = choose|k: int| 0 <= k < other.word_seq().len() && !self.word_seq().contains(other.word_seq()[k]);
                assert(other@.contains(other.word_seq()[k]));
                assert(!self@.contains(other.word_seq()[k]));
            }
            if !b {
                let k = choose|k: int| 0 <= k < self.word_seq().len() && !other.word_seq().contains(self.word_seq()[k]);
                assert(self@.contains(self.word_seq()[k]));
                assert(!other@.contains(self.word_seq()[k]));
            }
        }
        a && b
    }
}

impl PartialEq for WordCloud {
    fn eq(&self, other: &WordCloud) -> (r: bool) {
        self.same_words(other)
    }
}

impl vstd::std_specs::cmp::PartialEqSpecImpl for WordCloud {
    open spec fn obeys_eq_spec() -> bool {
        true
    }

    open spec fn eq_spec(&self, other: &WordCloud) -> bool {
        self@ == other@
    }
}

} // verus!
