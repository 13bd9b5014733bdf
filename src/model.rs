//! The feature table and the classifier built on it.

use vstd::prelude::*;
use crate::bignat::{greater, mul_small, place, value};
use crate::normalize::{line_to_word, normalized};
use crate::token::{bigram_set, digraphs_of, distinct_bigrams, Digraph};

verus! {

/// One of the two languages told apart.
#[derive(PartialEq, Eq, Structural, Clone, Copy, Debug)]
pub enum Language {
    /// nêhiyawêwin (Plains Cree)
    Crk,
    /// English
    Eng,
}

/// How many training words of each language hold a bigram.
#[derive(PartialEq, Eq, Structural, Clone, Copy, Debug)]
pub struct Occurance {
    pub crk: u32,
    pub eng: u32,
}

impl Occurance {
    /// The count of both languages together.
    pub fn total(&self) -> (r: u32)
        requires
            self.crk + self.eng <= u32::MAX,
        ensures
            r == self.crk + self.eng,
    {
        self.crk + self.eng
    }

    /// The count of one language.
    pub fn of(&self, language: Language) -> (r: u32)
        ensures
            r == count_in(occ_pair(*self), language),
    {
        match language {
            Language::Crk => self.crk,
            Language::Eng => self.eng,
        }
    }
}

/// The counts of an occurrence, Cree first.
pub open spec fn occ_pair(o: Occurance) -> (nat, nat) {
    (o.crk as nat, o.eng as nat)
}

/// The count of one language.
pub open spec fn count_in(c: (nat, nat), lang: Language) -> nat {
    match lang {
        Language::Crk => c.0,
        Language::Eng => c.1,
    }
}

/// The count of both languages together.
pub open spec fn total_of(c: (nat, nat)) -> nat {
    c.0 + c.1
}

/// The counts with `n` added to those of `lang`.
pub open spec fn add_n(c: (nat, nat), lang: Language, n: nat) -> (nat, nat) {
    match lang {
        Language::Crk => (c.0 + n, c.1),
        Language::Eng => (c.0, c.1 + n),
    }
}

/// The counts of a bigram in a table, zero where it has none.
pub open spec fn lookup(m: Map<Digraph, (nat, nat)>, d: Digraph) -> (nat, nat) {
    if m.contains_key(d) {
        m[d]
    } else {
        (0, 0)
    }
}

/// How many of the words hold the bigram.
pub open spec fn words_with(ws: Seq<Seq<char>>, d: Digraph) -> nat
    decreases ws.len(),
{
    if ws.len() == 0 {
        0
    } else {
        words_with(ws.drop_last(), d) + if bigram_set(ws.last()).contains(d) {
            1nat
        } else {
            0nat
        }
    }
}

/// The words that the lines stand for.
pub open spec fn words_of(lines: Seq<String>) -> Seq<Seq<char>> {
    lines.map_values(|l: String| normalized(l@))
}

/// The table after training on the words of one language: each bigram of a
/// word is counted once for that word.
pub open spec fn trained(m: Map<Digraph, (nat, nat)>, ws: Seq<Seq<char>>, lang: Language) -> Map<
    Digraph,
    (nat, nat),
> {
    Map::new(
        |d: Digraph| m.contains_key(d) || words_with(ws, d) > 0,
        |d: Digraph| add_n(lookup(m, d), lang, words_with(ws, d)),
    )
}

/// The table without the bigrams seen at most once in all.
pub open spec fn pruned(m: Map<Digraph, (nat, nat)>) -> Map<Digraph, (nat, nat)> {
    Map::new(|d: Digraph| m.contains_key(d) && total_of(m[d]) > 1, |d: Digraph| m[d])
}

/// The table trained on Cree words, then on English words, then pruned.
pub open spec fn model_of(crk: Seq<Seq<char>>, eng: Seq<Seq<char>>) -> Map<Digraph, (nat, nat)> {
    pruned(trained(trained(Map::empty(), crk, Language::Crk), eng, Language::Eng))
}

/// The product, over the bigrams known to the table, of their count in
/// `lang` plus one. Every known bigram has the same smoothed denominator
/// (its total plus the number of features) in both languages, so comparing
/// these products is comparing the sums of the logarithms of the smoothed
/// probabilities.
pub open spec fn score(m: Map<Digraph, (nat, nat)>, ds: Seq<Digraph>, lang: Language) -> nat
    decreases ds.len(),
{
    if ds.len() == 0 {
        1
    } else {
        score(m, ds.drop_last(), lang) * if m.contains_key(ds.last()) {
            count_in(m[ds.last()], lang) + 1
        } else {
            1
        }
    }
}

/// Cree where its score is strictly greater, else English.
pub open spec fn decision(m: Map<Digraph, (nat, nat)>, w: Seq<char>) -> Language {
    let ds = distinct_bigrams(w);
    if score(m, ds, Language::Crk) > score(m, ds, Language::Eng) {
        Language::Crk
    } else {
        Language::Eng
    }
}

/// The table with one more count in `lang` for each bigram of `ds`.
spec fn count_each(m: Map<Digraph, (nat, nat)>, ds: Seq<Digraph>, lang: Language) -> Map<
    Digraph,
    (nat, nat),
> {
    Map::new(
        |d: Digraph| m.contains_key(d) || ds.contains(d),
        |d: Digraph|
            if ds.contains(d) {
                add_n(lookup(m, d), lang, 1)
            } else {
                m[d]
            },
    )
}

spec fn has_key(s: Seq<(Digraph, Occurance)>, d: Digraph) -> bool {
    exists|i: int| 0 <= i < s.len() && s[i].0 == d
}

spec fn table_of(s: Seq<(Digraph, Occurance)>) -> Map<Digraph, (nat, nat)> {
    Map::new(
        |d: Digraph| has_key(s, d),
        |d: Digraph| occ_pair(s[choose|i: int| 0 <= i < s.len() && s[i].0 == d].1),
    )
}

spec fn keys_unique(s: Seq<(Digraph, Occurance)>) -> bool {
    forall|i: int, j: int| 0 <= i < s.len() && 0 <= j < s.len() && i != j ==> s[i].0 != s[j].0
}

proof fn lemma_table_at(s: Seq<(Digraph, Occurance)>, i: int)
    requires
        keys_unique(s),
        0 <= i < s.len(),
    ensures
        table_of(s).contains_key(s[i].0),
        table_of(s)[s[i].0] == occ_pair(s[i].1),
{
    let d = s[i].0;
    assert(has_key(s, d));
    let j = choose|j: int| 0 <= j < s.len() && s[j].0 == d;
    assert(j == i);
}

proof fn lemma_table_update(s: Seq<(Digraph, Occurance)>, i: int, o: Occurance)
    requires
        keys_unique(s),
        0 <= i < s.len(),
    ensures
        keys_unique(s.update(i, (s[i].0, o))),
        table_of(s.update(i, (s[i].0, o))) == table_of(s).insert(s[i].0, occ_pair(o)),
{
    let t = s.update(i, (s[i].0, o));
    let goal = table_of(s).insert(s[i].0, occ_pair(o));
    assert forall|d: Digraph| #[trigger] has_key(t, d) == has_key(s, d) by {
        if has_key(s, d) {
            let j = choose|j: int| 0 <= j < s.len() && s[j].0 == d;
            assert(t[j].0 == d);
        }
        if has_key(t, d) {
            let j = choose|j: int| 0 <= j < t.len() && t[j].0 == d;
            assert(s[j].0 == d);
        }
    }
    assert forall|d: Digraph| #[trigger] table_of(t).contains_key(d) implies table_of(t)[d]
        == goal[d] by {
        let j = choose|j: int| 0 <= j < t.len() && t[j].0 == d;
        lemma_table_at(t, j);
        if j != i {
            lemma_table_at(s, j);
        }
    }
    assert(table_of(t) =~= goal);
}

proof fn lemma_table_push(s: Seq<(Digraph, Occurance)>, d: Digraph, o: Occurance)
    requires
        keys_unique(s),
        !has_key(s, d),
    ensures
        keys_unique(s.push((d, o))),
        table_of(s.push((d, o))) == table_of(s).insert(d, occ_pair(o)),
{
    let t = s.push((d, o));
    let goal = table_of(s).insert(d, occ_pair(o));
    assert forall|i: int, j: int| 0 <= i < t.len() && 0 <= j < t.len() && i != j implies t[i].0
        != t[j].0 by {
        if i == s.len() {
            assert(s[j].0 != d);
        } else if j == s.len() {
            assert(s[i].0 != d);
        }
    }
    assert forall|k: Digraph| #[trigger] has_key(t, k) == (has_key(s, k) || k == d) by {
        if has_key(s, k) {
            let j = choose|j: int| 0 <= j < s.len() && s[j].0 == k;
            assert(t[j].0 == k);
        }
        if k == d {
            assert(t[s.len() as int].0 == k);
        }
        if has_key(t, k) && k != d {
            let j = choose|j: int| 0 <= j < t.len() && t[j].0 == k;
            assert(s[j].0 == k);
        }
    }
    assert forall|k: Digraph| #[trigger] table_of(t).contains_key(k) implies table_of(t)[k]
        == goal[k] by {
        let j = choose|j: int| 0 <= j < t.len() && t[j].0 == k;
        lemma_table_at(t, j);
        if j < s.len() {
            lemma_table_at(s, j);
        }
    }
    assert(table_of(t) =~= goal);
}

proof fn lemma_words_with_bound(ws: Seq<Seq<char>>, d: Digraph)
    ensures
        words_with(ws, d) <= ws.len(),
    decreases ws.len(),
{
    if ws.len() > 0 {
        lemma_words_with_bound(ws.drop_last(), d);
    }
}

proof fn lemma_dom_len(s: Seq<(Digraph, Occurance)>)
    requires
        keys_unique(s),
    ensures
        table_of(s).dom().finite(),
        table_of(s).dom().len() == s.len(),
{
    let ks = s.map_values(|e: (Digraph, Occurance)| e.0);
    assert forall|d: Digraph| #[trigger] ks.contains(d) == has_key(s, d) by {
        if has_key(s, d) {
            let j = choose|j: int| 0 <= j < s.len() && s[j].0 == d;
            assert(ks[j] == d);
        }
    }
    assert(ks.to_set() =~= table_of(s).dom());
    ks.unique_seq_to_set();
}

/// The model: a table from bigram to counts, each key once, together with
/// the number of training words read so far. It is trained first, then
/// pruned once, and only then classifies: `ready` tells the two phases
/// apart.
pub struct Classifier {
    features: Vec<(Digraph, Occurance)>,
    words: u32,
    ready: bool,
}

impl View for Classifier {
    type V = Map<Digraph, (nat, nat)>;

    closed spec fn view(&self) -> Map<Digraph, (nat, nat)> {
        table_of(self.features@)
    }
}

impl Classifier {
    /// Each bigram has one entry, and no count exceeds the number of words
    /// read.
    pub closed spec fn wf(&self) -> bool {
        &&& keys_unique(self.features@)
        &&& forall|i: int|
            0 <= i < self.features@.len() ==> self.features@[i].1.crk + self.features@[i].1.eng
                <= self.words
    }

    /// The number of training words read so far.
    pub closed spec fn words_seen(&self) -> nat {
        self.words as nat
    }

    /// The table has been pruned: training is over and classification may
    /// begin.
    pub closed spec fn is_ready(&self) -> bool {
        self.ready
    }

    /// Whether the table has been pruned.
    pub fn ready(&self) -> (r: bool)
        ensures
            r == self.is_ready(),
    {
        self.ready
    }

    /// No bigram has been seen in more words than were read.
    pub proof fn lemma_totals(&self)
        requires
            self.wf(),
        ensures
            forall|d: Digraph| #[trigger]
                self@.contains_key(d) ==> total_of(self@[d]) <= self.words_seen(),
    {
        assert forall|d: Digraph| #[trigger] self@.contains_key(d) implies total_of(self@[d])
            <= self.words_seen() by {
            let j = choose|j: int| 0 <= j < self.features@.len() && self.features@[j].0 == d;
            lemma_table_at(self.features@, j);
        }
    }

    /// An empty table.
    pub fn new() -> (r: Classifier)
        ensures
            r.wf(),
            r@ == Map::<Digraph, (nat, nat)>::empty(),
            r.words_seen() == 0,
            !r.is_ready(),
    {
        let r = Classifier { features: Vec::new(), words: 0, ready: false };
        assert(r@ =~= Map::<Digraph, (nat, nat)>::empty());
        r
    }

    /// The number of training words read so far.
    pub fn words_trained(&self) -> (r: u32)
        ensures
            r == self.words_seen(),
    {
        self.words
    }

    /// Reads each line as a word (see `line_to_word`) and counts each
    /// distinct bigram of the word once for `lang`.
    pub fn count_digraphs_in_lines(&mut self, lines: &Vec<String>, lang: Language)
        requires
            old(self).wf(),
            !old(self).is_ready(),
            old(self).words_seen() + lines@.len() <= u32::MAX,
        ensures
            final(self).wf(),
            !final(self).is_ready(),
            final(self).words_seen() == old(self).words_seen() + lines@.len(),
            final(self)@ == trained(old(self)@, words_of(lines@), lang),
    {
        let ghost m0 = self@;
        let ghost w0 = self.words_seen();
        let ghost ws = words_of(lines@);
        proof {
            self.lemma_totals();
            assert(ws.take(0) =~= Seq::<Seq<char>>::empty());
            assert(trained(m0, ws.take(0), lang) =~= m0);
        }
        let mut i: usize = 0;
        while i < lines.len()
            invariant
                0 <= i <= lines@.len(),
                w0 + lines@.len() <= u32::MAX,
                ws == words_of(lines@),
                forall|d: Digraph| #[trigger] m0.contains_key(d) ==> total_of(m0[d]) <= w0,
                self.wf(),
                !self.is_ready(),
                self.words_seen() == w0 + i,
                self@ == trained(m0, ws.take(i as int), lang),
            decreases lines@.len() - i,
        {
            let word = line_to_word(lines[i].as_str());
            let ds = digraphs_of(word.as_str());
            let ghost mi = self@;
            let ghost prev = ws.take(i as int);
            assert(ws[i as int] == word@);
            self.words = self.words + 1;
            assert(self@ == mi);
            let mut j: usize = 0;
            assert(ds@.take(0) =~= Seq::<Digraph>::empty());
            assert(mi =~= count_each(mi, ds@.take(0), lang));
            while j < ds.len()
                invariant
                    0 <= j <= ds@.len(),
                    ds@.no_duplicates(),
                    mi == trained(m0, prev, lang),
                    prev.len() == i,
                    forall|d: Digraph| #[trigger] m0.contains_key(d) ==> total_of(m0[d]) <= w0,
                    self.wf(),
                    !self.is_ready(),
                    self.words_seen() == w0 + i + 1,
                    self@ == count_each(mi, ds@.take(j as int), lang),
                decreases ds@.len() - j,
            {
                let d = ds[j];
                let ghost cur = self@;
                let ghost before = ds@.take(j as int);
                proof {
                    assert(!before.contains(d)) by {
                        if before.contains(d) {
                            let k = choose|k: int| 0 <= k < before.len() && before[k] == d;
                            assert(ds@[k] == ds@[j as int]);
                        }
                    }
                    assert(lookup(cur, d) == lookup(mi, d));
                    lemma_words_with_bound(prev, d);
                    assert(total_of(lookup(m0, d)) <= w0);
                }
                self.bump(d, lang);
                proof {
                    let after = ds@.take(j + 1);
                    assert(after =~= before.push(d));
                    assert forall|k: Digraph| #[trigger] after.contains(k) == (before.contains(k)
                        || k == d) by {
                        if after.contains(k) && k != d {
                            let x = choose|x: int| 0 <= x < after.len() && after[x] == k;
                            assert(before[x] == k);
                        }
                        if before.contains(k) {
                            let x = choose|x: int| 0 <= x < before.len() && before[x] == k;
                            assert(after[x] == k);
                        }
                        if k == d {
                            assert(after[j as int] == k);
                        }
                    }
                    assert(self@ =~= count_each(mi, after, lang));
                }
                j += 1;
            }
            proof {
                assert(ds@.take(ds@.len() as int) =~= ds@);
                let next = ws.take(i + 1);
                assert(next.drop_last() =~= prev);
                assert(next.last() == word@);
                assert forall|d: Digraph| #[trigger] ds@.contains(d) == bigram_set(word@).contains(d) by {
                    assert(ds@.to_set().contains(d) == ds@.contains(d));
                }
                assert(self@ =~= trained(m0, next, lang));
            }
            i += 1;
        }
        assert(ws.take(lines@.len() as int) =~= ws);
    }

    /// Drops every bigram seen at most once over both languages.
    pub fn prune_features(&mut self)
        requires
            old(self).wf(),
        ensures
            final(self).wf(),
            final(self).is_ready(),
            final(self).words_seen() == old(self).words_seen(),
            final(self)@ == pruned(old(self)@),
    {
        let ghost s = self.features@;
        let ghost mut src: Seq<int> = Seq::empty();
        let mut kept: Vec<(Digraph, Occurance)> = Vec::new();
        let mut i: usize = 0;
        while i < self.features.len()
            invariant
                self.features@ == s,
                self.wf(),
                0 <= i <= s.len(),
                keys_unique(kept@),
                src.len() == kept@.len(),
                forall|k: int|
                    0 <= k < kept@.len() ==> 0 <= #[trigger] src[k] < i && s[src[k]] == kept@[k]
                        && kept@[k].1.crk + kept@[k].1.eng > 1,
                forall|k: int|
                    0 <= k < kept@.len() ==> #[trigger] kept@[k].1.crk + kept@[k].1.eng <= self.words,
                forall|x: int|
                    0 <= x < i && s[x].1.crk + s[x].1.eng > 1 ==> #[trigger] has_key(kept@, s[x].0),
            decreases s.len() - i,
        {
            let e = self.features[i];
            let ghost kept0 = kept@;
            if e.1.total() > 1 {
                proof {
                    assert forall|a: int, b: int|
                        0 <= a < kept@.push(e).len() && 0 <= b < kept@.push(e).len() && a != b
                            implies kept@.push(e)[a].0 != kept@.push(e)[b].0 by {
                        if a == kept@.len() {
                            assert(src[b] != i);
                        } else if b == kept@.len() {
                            assert(src[a] != i);
                        }
                    }
                    src = src.push(i as int);
                }
                kept.push(e);
                proof {
                    assert(kept@[kept@.len() - 1] == e);
                    assert(has_key(kept@, e.0));
                }
            }
            proof {
                assert forall|x: int|
                    0 <= x < i + 1 && s[x].1.crk + s[x].1.eng > 1 implies #[trigger] has_key(
                    kept@,
                    s[x].0,
                ) by {
                    if x < i {
                        assert(has_key(kept0, s[x].0));
                        let k = choose|k: int| 0 <= k < kept0.len() && kept0[k].0 == s[x].0;
                        assert(kept@[k] == kept0[k]);
                    }
                }
            }
            i += 1;
        }
        proof {
            let t = table_of(kept@);
            let goal = pruned(table_of(s));
            assert forall|d: Digraph| #[trigger] t.contains_key(d) implies goal.contains_key(d)
                && t[d] == goal[d] by {
                let k = choose|k: int| 0 <= k < kept@.len() && kept@[k].0 == d;
                lemma_table_at(kept@, k);
                lemma_table_at(s, src[k]);
            }
            assert forall|d: Digraph| #[trigger] goal.contains_key(d) implies t.contains_key(d) by {
                let x = choose|x: int| 0 <= x < s.len() && s[x].0 == d;
                lemma_table_at(s, x);
            }
            assert(t =~= goal);
        }
        self.features = kept;
        self.ready = true;
    }

    /// The number of bigrams in the table.
    pub fn num_features(&self) -> (r: usize)
        requires
            self.wf(),
        ensures
            self@.dom().finite(),
            r == self@.dom().len(),
    {
        proof {
            lemma_dom_len(self.features@);
        }
        self.features.len()
    }

    /// The counts of `d`, if the table holds it.
    pub fn occurance(&self, d: Digraph) -> (r: Option<Occurance>)
        requires
            self.wf(),
        ensures
            r is None <==> !self@.contains_key(d),
            r matches Some(o) ==> occ_pair(o) == self@[d],
    {
        match self.find(d) {
            Some(i) => {
                proof {
                    lemma_table_at(self.features@, i as int);
                }
                Some(self.features[i].1)
            },
            None => None,
        }
    }

    /// The smoothed probability of `d` in `lang`, as numerator and
    /// denominator: the count in `lang` plus one, over the total count plus
    /// the number of bigrams in the table. `None` where the table does not
    /// hold `d`. The fraction is never above one and both parts are positive,
    /// so its logarithm is defined and at most zero.
    pub fn prob_ratio(&self, d: Digraph, lang: Language) -> (r: Option<(u64, u128)>)
        requires
            self.wf(),
            self.is_ready(),
        ensures
            r is None <==> !self@.contains_key(d),
            r matches Some((n, den)) ==> {
                &&& n == count_in(self@[d], lang) + 1
                &&& den == total_of(self@[d]) + self@.dom().len()
                &&& 1 <= n <= den
            },
    {
        match self.find(d) {
            Some(i) => {
                proof {
                    lemma_table_at(self.features@, i as int);
                }
                let o = self.features[i].1;
                let f = self.num_features();
                let n: u64 = o.of(lang) as u64 + 1;
                let den: u128 = o.total() as u128 + f as u128;
                Some((n, den))
            },
            None => None,
        }
    }

    /// The language that the word more likely belongs to. Over the distinct
    /// bigrams of the word that the table holds, the smoothed probabilities
    /// of each language are multiplied; Cree wins only where its product is
    /// strictly greater, so a tie, and a word with no known bigram, give
    /// English. The products are exact, so the decision is too.
    pub fn classify(&self, word: &str) -> (r: Language)
        requires
            self.wf(),
            self.is_ready(),
        ensures
            r == decision(self@, word@),
    {
        let ds = digraphs_of(word);
        let mut a: Vec<u32> = Vec::new();
        a.push(1);
        let mut b: Vec<u32> = Vec::new();
        b.push(1);
        proof {
            assert(a@.drop_last() =~= Seq::<u32>::empty());
            assert(b@.drop_last() =~= Seq::<u32>::empty());
            assert(ds@.take(0) =~= Seq::<Digraph>::empty());
            assert(value(Seq::<u32>::empty()) == 0);
            assert(place(0) == 1);
            assert(a@.last() == 1 && b@.last() == 1);
            assert(value(a@) == 1 && value(b@) == 1);
        }
        let mut j: usize = 0;
        while j < ds.len()
            invariant
                self.wf(),
                0 <= j <= ds@.len(),
                a@.len() == b@.len(),
                value(a@) == score(self@, ds@.take(j as int), Language::Crk),
                value(b@) == score(self@, ds@.take(j as int), Language::Eng),
            decreases ds@.len() - j,
        {
            let d = ds[j];
            proof {
                assert(ds@.take(j + 1).drop_last() =~= ds@.take(j as int));
                assert(ds@.take(j + 1).last() == d);
            }
            match self.find(d) {
                Some(i) => {
                    proof {
                        lemma_table_at(self.features@, i as int);
                    }
                    let o = self.features[i].1;
                    a = mul_small(&a, o.crk as u64 + 1);
                    b = mul_small(&b, o.eng as u64 + 1);
                },
                None => {},
            }
            j += 1;
        }
        proof {
            assert(ds@.take(ds@.len() as int) =~= ds@);
        }
        if greater(&a, &b) {
            Language::Crk
        } else {
            Language::Eng
        }
    }

    /// The position of the entry of `d`, if it has one.
    fn find(&self, d: Digraph) -> (r: Option<usize>)
        requires
            self.wf(),
        ensures
            r matches Some(i) ==> i < self.features@.len() && self.features@[i as int].0 == d,
            r is None ==> !self@.contains_key(d),
    {
        let mut i: usize = 0;
        while i < self.features.len()
            invariant
                0 <= i <= self.features@.len(),
                forall|k: int| 0 <= k < i ==> self.features@[k].0 != d,
            decreases self.features.len() - i,
        {
            if self.features[i].0 == d {
                return Some(i);
            }
            i += 1;
        }
        None
    }

    /// Counts one more word of `lang` that holds `d`.
    fn bump(&mut self, d: Digraph, lang: Language)
        requires
            old(self).wf(),
            total_of(lookup(old(self)@, d)) < old(self).words_seen(),
        ensures
            final(self).wf(),
            final(self).is_ready() == old(self).is_ready(),
            final(self).words_seen() == old(self).words_seen(),
            final(self)@ == old(self)@.insert(d, add_n(lookup(old(self)@, d), lang, 1)),
    {
        match self.find(d) {
            Some(i) => {
                proof {
                    lemma_table_at(self.features@, i as int);
                }
                let o = self.features[i].1;
                let o2 = match lang {
                    Language::Crk => Occurance { crk: o.crk + 1, eng: o.eng },
                    Language::Eng => Occurance { crk: o.crk, eng: o.eng + 1 },
                };
                proof {
                    lemma_table_update(self.features@, i as int, o2);
                }
                self.features.set(i, (d, o2));
            },
            None => {
                let o2 = match lang {
                    Language::Crk => Occurance { crk: 1, eng: 0 },
                    Language::Eng => Occurance { crk: 0, eng: 1 },
                };
                proof {
                    lemma_table_push(self.features@, d, o2);
                }
                self.features.push((d, o2));
            },
        }
    }
}

} // verus!
