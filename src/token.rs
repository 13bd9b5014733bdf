//! Tokens, bigrams and the bigram set of a word.

use vstd::prelude::*;

verus! {

/// One element of a bounded word: a literal character, or one of the two
/// markers for where the word starts and ends. The markers are variants of
/// their own, so no input character can be taken for one.
#[derive(PartialEq, Eq, Structural, Clone, Copy, Debug, Hash)]
pub enum Token {
    Start,
    End,
    Char(char),
}

/// How a token is shown: `^` for the start marker, `$` for the end marker,
/// the character itself otherwise. A literal `^` or `$` has no rendering,
/// since it would read as a marker.
pub open spec fn rendering(t: Token) -> Option<char> {
    match t {
        Token::Start => Some('^'),
        Token::End => Some('$'),
        Token::Char(c) => if c == '^' || c == '$' {
            None
        } else {
            Some(c)
        },
    }
}

impl Token {
    /// The character that shows this token, or `None` for a literal `^` or
    /// `$`, which cannot be shown without being taken for a marker.
    pub fn display_char(&self) -> (r: Option<char>)
        ensures
            r == rendering(*self),
    {
        match *self {
            Token::Start => Some('^'),
            Token::End => Some('$'),
            Token::Char(c) => if c == '^' || c == '$' {
                None
            } else {
                Some(c)
            },
        }
    }
}

/// Two adjacent tokens of a word: the previous one and the current one.
#[derive(PartialEq, Eq, Structural, Clone, Copy, Debug, Hash)]
pub struct Digraph(pub Token, pub Token);

/// Token `i` of the bounded word: the start marker before the first
/// character, the end marker after the last one.
pub open spec fn token_at(w: Seq<char>, i: int) -> Token {
    if i < 0 {
        Token::Start
    } else if i >= w.len() {
        Token::End
    } else {
        Token::Char(w[i])
    }
}

/// Bigram `i` of the word: the token before character `i` and character `i`
/// (or the end marker, for `i == w.len()`).
pub open spec fn pair_at(w: Seq<char>, i: int) -> Digraph {
    Digraph(token_at(w, i - 1), token_at(w, i))
}

/// Every bigram of the word, in order, repeats included: none for the empty
/// word, else `w.len() + 1`.
pub open spec fn pairs(w: Seq<char>) -> Seq<Digraph> {
    if w.len() == 0 {
        Seq::empty()
    } else {
        Seq::new((w.len() + 1) as nat, |i: int| pair_at(w, i))
    }
}

/// The set of bigrams of a word.
pub open spec fn bigram_set(w: Seq<char>) -> Set<Digraph> {
    pairs(w).to_set()
}

/// A bigram occurs twice in the word.
pub open spec fn has_repeated_bigram(w: Seq<char>) -> bool {
    !pairs(w).no_duplicates()
}

/// The sequence with each element kept at its first occurrence only.
pub open spec fn dedup(s: Seq<Digraph>) -> Seq<Digraph>
    decreases s.len(),
{
    if s.len() == 0 {
        Seq::empty()
    } else {
        let d = dedup(s.drop_last());
        if d.contains(s.last()) {
            d
        } else {
            d.push(s.last())
        }
    }
}

/// The distinct bigrams of a word, in the order in which each first occurs.
pub open spec fn distinct_bigrams(w: Seq<char>) -> Seq<Digraph> {
    dedup(pairs(w))
}

proof fn lemma_to_set_push(s: Seq<Digraph>, x: Digraph)
    ensures
        s.push(x).to_set() == s.to_set().insert(x),
{
    s.lemma_push_to_set_commute(x);
}

/// Deduplication keeps the set of elements, leaves no duplicate, and shortens
/// the sequence exactly when it had one.
pub proof fn lemma_dedup(s: Seq<Digraph>)
    ensures
        dedup(s).no_duplicates(),
        dedup(s).to_set() == s.to_set(),
        dedup(s).len() <= s.len(),
        s.no_duplicates() ==> dedup(s) == s,
        !s.no_duplicates() ==> dedup(s).len() < s.len(),
    decreases s.len(),
{
    if s.len() == 0 {
        assert(dedup(s) =~= s);
    } else {
        let p = s.drop_last();
        let x = s.last();
        lemma_dedup(p);
        let d = dedup(p);
        assert(s =~= p.push(x));
        lemma_to_set_push(p, x);
        lemma_to_set_push(d, x);
        if d.contains(x) {
            assert(d.to_set().contains(x));
            assert(p.contains(x));
            let k = choose|k: int| 0 <= k < p.len() && p[k] == x;
            assert(s[k] == s[s.len() - 1]);
            assert(s.to_set() =~= d.to_set());
        } else {
            assert forall|i: int, j: int|
                0 <= i < d.push(x).len() && 0 <= j < d.push(x).len() && i != j implies d.push(
                x,
            )[i] != d.push(x)[j] by {
                if i == d.len() {
                    assert(d.contains(d[j]));
                } else if j == d.len() {
                    assert(d.contains(d[i]));
                }
            }
            if s.no_duplicates() {
                assert forall|i: int, j: int|
                    0 <= i < p.len() && 0 <= j < p.len() && i != j implies p[i] != p[j] by {
                    assert(s[i] == p[i] && s[j] == p[j]);
                }
                assert(d =~= p);
                assert(dedup(s) =~= s);
            } else if p.no_duplicates() {
                let (i, j) = choose|i: int, j: int|
                    0 <= i < s.len() && 0 <= j < s.len() && i != j && s[i] == s[j];
                if i == p.len() {
                    assert(p.contains(p[j]));
                    assert(p.to_set().contains(x));
                } else if j == p.len() {
                    assert(p.contains(p[i]));
                    assert(p.to_set().contains(x));
                } else {
                    assert(p[i] == p[j]);
                }
                assert(d.to_set().contains(x));
            }
        }
    }
}

/// The bigram set of a word has as many elements as its distinct bigrams.
pub proof fn lemma_distinct_bigrams(w: Seq<char>)
    ensures
        distinct_bigrams(w).no_duplicates(),
        distinct_bigrams(w).to_set() == bigram_set(w),
        distinct_bigrams(w).len() == bigram_set(w).len(),
{
    lemma_dedup(pairs(w));
    distinct_bigrams(w).unique_seq_to_set();
}

/// The empty word has no bigram; any other word has at least two and at
/// most one more than its length, and exactly that many when no bigram of
/// it occurs twice.
pub proof fn lemma_bigram_count(w: Seq<char>)
    ensures
        w.len() == 0 ==> bigram_set(w) == Set::<Digraph>::empty(),
        w.len() > 0 ==> 2 <= bigram_set(w).len() <= w.len() + 1,
        w.len() > 0 ==> (bigram_set(w).len() == w.len() + 1 <==> !has_repeated_bigram(w)),
        distinct_bigrams(w).len() == bigram_set(w).len(),
{
    lemma_distinct_bigrams(w);
    lemma_dedup(pairs(w));
    if w.len() == 0 {
        assert(bigram_set(w) =~= Set::<Digraph>::empty());
    } else {
        let ps = pairs(w);
        let n = w.len() as int;
        let first = ps[0];
        let last = ps[n];
        assert(first.0 == Token::Start);
        assert(last.0 != Token::Start);
        assert(ps.contains(first));
        assert(ps.contains(last));
        let two = Set::<Digraph>::empty().insert(first).insert(last);
        assert(two.len() == 2);
        assert(two.subset_of(bigram_set(w)));
        vstd::set_lib::lemma_len_subset(two, bigram_set(w));
    }
}

/// Adds `d` to `v` unless it is already there.
fn insert_digraph(v: &mut Vec<Digraph>, d: Digraph)
    ensures
        final(v)@ == (if old(v)@.contains(d) {
            old(v)@
        } else {
            old(v)@.push(d)
        }),
{
    let mut i: usize = 0;
    while i < v.len()
        invariant
            0 <= i <= v.len(),
            forall|k: int| 0 <= k < i ==> v@[k] != d,
        decreases v.len() - i,
    {
        if v[i] == d {
            assert(v@.contains(d));
            return;
        }
        i += 1;
    }
    v.push(d);
}

/// The distinct bigrams of `text`, each once, in the order in which each
/// first occurs. Every character counts, a trailing newline too: callers
/// normalise the word first (see `line_to_word`).
pub fn digraphs_of(text: &str) -> (r: Vec<Digraph>)
    ensures
        r@ == distinct_bigrams(text@),
        r@.no_duplicates(),
        r@.to_set() == bigram_set(text@),
{
    proof {
        lemma_distinct_bigrams(text@);
    }
    let n = text.unicode_len();
    let mut r: Vec<Digraph> = Vec::new();
    if n == 0 {
        assert(dedup(pairs(text@)) =~= Seq::<Digraph>::empty());
        return r;
    }
    let ghost ps = pairs(text@);
    let mut last = Token::Start;
    let mut i: usize = 0;
    while i < n
        invariant
            n == text@.len(),
            n > 0,
            ps == pairs(text@),
            0 <= i <= n,
            last == token_at(text@, i - 1),
            r@ == dedup(ps.take(i as int)),
        decreases n - i,
    {
        let this = Token::Char(text.get_char(i));
        assert(ps.take(i + 1).drop_last() =~= ps.take(i as int));
        assert(ps[i as int] == Digraph(last, this));
        insert_digraph(&mut r, Digraph(last, this));
        last = this;
        i += 1;
    }
    assert(ps.take(n + 1).drop_last() =~= ps.take(n as int));
    assert(ps[n as int] == Digraph(last, Token::End));
    insert_digraph(&mut r, Digraph(last, Token::End));
    assert(ps.take(n + 1) =~= ps);
    r
}

} // verus!
