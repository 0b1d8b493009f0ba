//! A word list and the letter frequencies of its words, used to judge how
//! much a text looks like English.
use std::collections::HashMap;
use vstd::prelude::*;

use crate::text::chars_of;

verus! {

broadcast use vstd::std_specs::hash::group_hash_axioms;

/// The lines of a text: split at `\n`, with every `\r` dropped. A text
/// without `\n` is one line; an empty text is one empty line.
pub open spec fn split_lines(t: Seq<char>) -> Seq<Seq<char>>
    decreases t.len(),
{
    if t.len() == 0 {
        seq![Seq::empty()]
    } else {
        let p = split_lines(t.drop_last());
        let c = t.last();
        if c == '\n' {
            p.push(Seq::empty())
        } else if c == '\r' {
            p
        } else {
            p.update(p.len() - 1, p.last().push(c))
        }
    }
}

/// Unicode White_Space: tab to carriage return, space, next line, no-break
/// space, ogham space mark, the spaces from en quad to hair space, the line
/// and paragraph separators, narrow no-break space, medium mathematical
/// space and ideographic space.
pub open spec fn is_space(c: char) -> bool {
    ('\t' <= c <= '\r') || c == ' ' || c == '\u{85}' || c == '\u{a0}' || c == '\u{1680}' || (
    '\u{2000}' <= c <= '\u{200a}') || c == '\u{2028}' || c == '\u{2029}' || c == '\u{202f}'
        || c == '\u{205f}' || c == '\u{3000}'
}

fn is_space_char(c: char) -> (r: bool)
    ensures
        r == is_space(c),
{
    ('\t' <= c && c <= '\r') || c == ' ' || c == '\u{85}' || c == '\u{a0}' || c == '\u{1680}' || (
    '\u{2000}' <= c && c <= '\u{200a}') || c == '\u{2028}' || c == '\u{2029}' || c == '\u{202f}'
        || c == '\u{205f}' || c == '\u{3000}'
}

/// The pieces of a text between whitespace characters, empty ones included.
pub open spec fn pieces(t: Seq<char>) -> Seq<Seq<char>>
    decreases t.len(),
{
    if t.len() == 0 {
        seq![Seq::empty()]
    } else {
        let p = pieces(t.drop_last());
        let c = t.last();
        if is_space(c) {
            p.push(Seq::empty())
        } else {
            p.update(p.len() - 1, p.last().push(c))
        }
    }
}

/// The number of non-empty pieces.
pub open spec fn count_tokens(ps: Seq<Seq<char>>) -> nat
    decreases ps.len(),
{
    if ps.len() == 0 {
        0
    } else {
        count_tokens(ps.drop_last()) + if ps.last().len() > 0 {
            1nat
        } else {
            0nat
        }
    }
}

/// The number of non-empty pieces that are among `words`.
pub open spec fn count_hits(words: Seq<Seq<char>>, ps: Seq<Seq<char>>) -> nat
    decreases ps.len(),
{
    if ps.len() == 0 {
        0
    } else {
        count_hits(words, ps.drop_last()) + if ps.last().len() > 0 && words.contains(ps.last()) {
            1nat
        } else {
            0nat
        }
    }
}

/// The number of whitespace-separated tokens of `t`.
pub open spec fn token_count(t: Seq<char>) -> nat {
    count_tokens(pieces(t))
}

/// The number of whitespace-separated tokens of `t` that are words.
pub open spec fn hit_count(words: Seq<Seq<char>>, t: Seq<char>) -> nat {
    count_hits(words, pieces(t))
}

/// The occurrences of `c` in `w`.
pub open spec fn char_count(w: Seq<char>, c: char) -> nat
    decreases w.len(),
{
    if w.len() == 0 {
        0
    } else {
        char_count(w.drop_last(), c) + if w.last() == c {
            1nat
        } else {
            0nat
        }
    }
}

/// The occurrences of `c` over all the words.
pub open spec fn corpus_count(words: Seq<Seq<char>>, c: char) -> nat
    decreases words.len(),
{
    if words.len() == 0 {
        0
    } else {
        corpus_count(words.drop_last(), c) + char_count(words.last(), c)
    }
}

/// The corpus occurrences of each character of `t`, summed.
pub open spec fn letter_total(words: Seq<Seq<char>>, t: Seq<char>) -> nat
    decreases t.len(),
{
    if t.len() == 0 {
        0
    } else {
        letter_total(words, t.drop_last()) + corpus_count(words, t.last())
    }
}

/// `x`, or the largest `u32` where `x` is larger.
pub open spec fn saturate(x: nat) -> u32 {
    if x > u32::MAX {
        u32::MAX
    } else {
        x as u32
    }
}

/// A table keyed by character code holds the occurrences of each character
/// in `words` and then in `w`, saturated; characters that never occur have
/// no entry.
pub open spec fn counts_table(m: Map<u32, u32>, words: Seq<Seq<char>>, w: Seq<char>) -> bool {
    forall|d: char|
        #![trigger corpus_count(words, d), char_count(w, d)]
        {
            &&& m.contains_key(d as u32) <==> corpus_count(words, d) + char_count(w, d) > 0
            &&& m.contains_key(d as u32) ==> m[d as u32] == saturate(
                corpus_count(words, d) + char_count(w, d),
            )
        }
}

/// There is always at least one piece.
proof fn lemma_pieces_len(t: Seq<char>)
    ensures
        pieces(t).len() >= 1,
    decreases t.len(),
{
    if t.len() > 0 {
        lemma_pieces_len(t.drop_last());
    }
}

/// Distinct characters have distinct codes.
proof fn lemma_code_injective(c: char, d: char)
    requires
        c != d,
    ensures
        c as u32 != d as u32,
{
}

/// No token count exceeds the number of tokens.
pub proof fn lemma_hits_at_most_tokens(words: Seq<Seq<char>>, t: Seq<char>)
    ensures
        hit_count(words, t) <= token_count(t),
{
    lemma_count_hits_bound(words, pieces(t));
}

proof fn lemma_count_hits_bound(words: Seq<Seq<char>>, ps: Seq<Seq<char>>)
    ensures
        count_hits(words, ps) <= count_tokens(ps),
    decreases ps.len(),
{
    if ps.len() > 0 {
        lemma_count_hits_bound(words, ps.drop_last());
    }
}

/// A word list, loaded once, and the letter frequencies over it.
pub struct Dictionary {
    words: Vec<String>,
    letter_stats: HashMap<u32, u32>,
}

/// The characters of each string.
pub open spec fn views_of(v: Seq<String>) -> Seq<Seq<char>> {
    v.map_values(|w: String| w@)
}

impl Dictionary {
    /// The words, in the order of the list.
    pub closed spec fn words(&self) -> Seq<Seq<char>> {
        views_of(self.words@)
    }

    /// The frequency table matches the words.
    #[verifier::type_invariant]
    closed spec fn wf(&self) -> bool {
        counts_table(self.letter_stats@, self.words(), Seq::empty())
    }

    /// Occurrences of each character over all the words, saturated, keyed by
    /// character code.
    fn letter_counts(words: &Vec<String>) -> (r: HashMap<u32, u32>)
        ensures
            counts_table(r@, views_of(words@), Seq::empty()),
    {
        let mut counts: HashMap<u32, u32> = HashMap::new();
        let mut wi: usize = 0;
        while wi < words.len()
            invariant
                wi <= words@.len(),
                counts_table(counts@, views_of(words@).take(wi as int), Seq::empty()),
            decreases words@.len() - wi,
        {
            let ghost done = views_of(words@).take(wi as int);
            let w = chars_of(words[wi].as_str());
            let mut ci: usize = 0;
            assert(w@.take(0) =~= Seq::<char>::empty());
            while ci < w.len()
                invariant
                    wi < words@.len(),
                    done == views_of(words@).take(wi as int),
                    ci <= w@.len(),
                    counts_table(counts@, done, w@.take(ci as int)),
                decreases w@.len() - ci,
            {
                let c = w[ci];
                let key = c as u32;
                let n: u32 = match counts.get(&key) {
                    Some(k) => *k,
                    None => 0,
                };
                counts.insert(key, n.saturating_add(1));
                let ghost before = w@.take(ci as int);
                ci = ci + 1;
                let ghost after = w@.take(ci as int);
                assert(after.drop_last() == before);
                assert(counts_table(counts@, done, after)) by {
                    assert forall|d: char| true implies {
                        &&& counts@.contains_key(d as u32) <==> #[trigger] corpus_count(done, d)
                            + char_count(after, d) > 0
                        &&& counts@.contains_key(d as u32) ==> counts@[d as u32] == saturate(
                            corpus_count(done, d) + char_count(after, d),
                        )
                    } by {
                        assert(char_count(after, d) == char_count(before, d) + if c == d {
                            1nat
                        } else {
                            0nat
                        });
                        if d != c {
                            lemma_code_injective(c, d);
                        } else {
                            assert(corpus_count(done, c) + char_count(before, c) >= 0);
                        }
                    }
                }
            }
            proof {
                let next = views_of(words@).take(wi + 1);
                assert(w@.take(w@.len() as int) == w@);
                assert(next.drop_last() == done);
                assert(next.last() == w@);
                assert forall|d: char| true implies #[trigger] corpus_count(next, d) + char_count(
                    Seq::<char>::empty(),
                    d,
                ) == corpus_count(done, d) + char_count(w@, d) by {}
            }
            wi = wi + 1;
        }
        assert(views_of(words@).take(wi as int) == views_of(words@));
        counts
    }

    /// A dictionary of the lines of `raw_content`, one word per line; the
    /// letter frequencies are computed here, once.
    pub fn new(raw_content: &str) -> (r: Self)
        ensures
            r.words() == split_lines(raw_content@),
    {
        let t = chars_of(raw_content);
        let mut words: Vec<String> = Vec::new();
        let mut cur = String::new();
        let mut i: usize = 0;
        while i < t.len()
            invariant
                t@ == raw_content@,
                i <= t@.len(),
                views_of(words@).push(cur@) == split_lines(t@.take(i as int)),
            decreases t@.len() - i,
        {
            let c = t[i];
            let ghost prev = views_of(words@).push(cur@);
            assert(t@.take(i + 1).drop_last() == t@.take(i as int));
            if c == '\n' {
                words.push(cur);
                cur = String::new();
                assert(views_of(words@).push(cur@) =~= prev.push(Seq::empty()));
            } else if c != '\r' {
                cur.push(c);
                assert(views_of(words@).push(cur@) =~= prev.update(
                    prev.len() - 1,
                    prev.last().push(c),
                ));
            }
            i = i + 1;
        }
        assert(t@.take(i as int) == t@);
        words.push(cur);
        assert(views_of(words@) =~= split_lines(raw_content@));
        let letter_stats = Self::letter_counts(&words);
        Dictionary { words, letter_stats }
    }

    /// Whether `w` is one of the words.
    fn contains_word(&self, w: &String) -> (r: bool)
        ensures
            r == self.words().contains(w@),
    {
        let mut i: usize = 0;
        while i < self.words.len()
            invariant
                i <= self.words@.len(),
                forall|j: int| 0 <= j < i ==> #[trigger] self.words@[j]@ != w@,
            decreases self.words@.len() - i,
        {
            if self.words[i] == *w {
                assert(self.words()[i as int] == w@);
                return true;
            }
            i = i + 1;
        }
        assert forall|j: int| 0 <= j < self.words().len() implies self.words()[j] != w@ by {
            assert(self.words@[j]@ != w@);
        }
        false
    }

    /// The number of whitespace-separated tokens of `input` that are words,
    /// matched whole and case-sensitively; empty tokens are not counted.
    pub fn hits(&self, input: &str) -> (r: u32)
        requires
            input@.len() <= u32::MAX,
        ensures
            r == hit_count(self.words(), input@),
            r <= token_count(input@),
    {
        let t = chars_of(input);
        let mut cur = String::new();
        let mut count: u32 = 0;
        let mut i: usize = 0;
        while i < t.len()
            invariant
                t@ == input@,
                t@.len() <= u32::MAX,
                i <= t@.len(),
                cur@ == pieces(t@.take(i as int)).last(),
                count == count_hits(self.words(), pieces(t@.take(i as int)).drop_last()),
                count + cur@.len() <= i,
            decreases t@.len() - i,
        {
            let c = t[i];
            let ghost ps = pieces(t@.take(i as int));
            assert(t@.take(i + 1).drop_last() == t@.take(i as int));
            proof {
                lemma_pieces_len(t@.take(i as int));
            }
            if is_space_char(c) {
                assert(pieces(t@.take(i + 1)).drop_last() == ps);
                if !cur.as_str().is_empty() && self.contains_word(&cur) {
                    count = count + 1;
                }
                cur = String::new();
            } else {
                cur.push(c);
                assert(pieces(t@.take(i + 1)).drop_last() =~= ps.drop_last());
            }
            i = i + 1;
        }
        assert(t@.take(i as int) == t@);
        let ghost ps = pieces(input@);
        proof {
            lemma_pieces_len(input@);
        }
        assert(ps == ps.drop_last().push(ps.last()));
        if !cur.as_str().is_empty() && self.contains_word(&cur) {
            count = count + 1;
        }
        proof {
            lemma_hits_at_most_tokens(self.words(), input@);
        }
        count
    }

    /// The corpus frequency of each character of `input`, summed; characters
    /// that no word holds add nothing. The sum stops at the largest `u32`.
    pub fn letter_score(&self, input: &str) -> (r: u32)
        ensures
            r == saturate(letter_total(self.words(), input@)),
    {
        proof {
            use_type_invariant(self);
        }
        let t = chars_of(input);
        let mut acc: u32 = 0;
        let mut i: usize = 0;
        while i < t.len()
            invariant
                self.wf(),
                t@ == input@,
                i <= t@.len(),
                acc == saturate(letter_total(self.words(), t@.take(i as int))),
            decreases t@.len() - i,
        {
            let c = t[i];
            let n: u32 = match self.letter_stats.get(&(c as u32)) {
                Some(k) => *k,
                None => 0,
            };
            proof {
                assert(t@.take(i + 1).drop_last() == t@.take(i as int));
                // the table invariant, read at c
                assert(corpus_count(self.words(), c) + char_count(Seq::<char>::empty(), c) >= 0);
                assert(n == saturate(corpus_count(self.words(), c)));
            }
            acc = acc.saturating_add(n);
            i = i + 1;
        }
        assert(t@.take(i as int) == t@);
        acc
    }
}

} // verus!
