//! Word entries and the queries over a catalog of them.

use crate::order::{ascending, insert_ordered, texts};
use crate::text::{eq_ignore_case, text_eq_ignore_case};
use rand::seq::SliceRandom;
use vstd::prelude::*;

verus! {

/// One word of the catalog, with its topic and its difficulty.
#[derive(Clone, Debug)]
pub struct WordEntry {
    pub word: String,
    pub topic: String,
    pub difficulty: String,
}

impl View for WordEntry {
    /// Word, topic and difficulty, as characters.
    type V = (Seq<char>, Seq<char>, Seq<char>);

    open spec fn view(&self) -> Self::V {
        (self.word@, self.topic@, self.difficulty@)
    }
}

impl WordEntry {
    /// An entry with the given word, topic and difficulty.
    pub fn new(word: String, topic: String, difficulty: String) -> (r: WordEntry)
        ensures
            r@ == (word@, topic@, difficulty@),
    {
        WordEntry { word, topic, difficulty }
    }

    /// A copy of this entry, field by field.
    pub fn duplicate(&self) -> (r: WordEntry)
        ensures
            r@ == self@,
    {
        WordEntry {
            word: self.word.clone(),
            topic: self.topic.clone(),
            difficulty: self.difficulty.clone(),
        }
    }
}

/// An optional filter accepts `value`: it is absent, or equal to `value` up to
/// ASCII case.
pub open spec fn accepts(filter: Option<&str>, value: Seq<char>) -> bool {
    match filter {
        Some(f) => eq_ignore_case(value, f@),
        None => true,
    }
}

/// The entry passes both the topic and the difficulty filter.
pub open spec fn entry_matches(e: WordEntry, topic: Option<&str>, difficulty: Option<&str>) -> bool {
    accepts(topic, e.topic@) && accepts(difficulty, e.difficulty@)
}

/// The positions of the catalog, in order.
pub open spec fn positions(n: nat) -> Seq<usize> {
    Seq::new(n, |i: int| i as usize)
}

/// `i` is a position of the catalog whose entry passes the filters.
pub open spec fn in_catalog_matching(
    words: Seq<WordEntry>,
    topic: Option<&str>,
    difficulty: Option<&str>,
    i: usize,
) -> bool {
    i < words.len() && entry_matches(words[i as int], topic, difficulty)
}

/// The positions of the entries that pass the filters, in catalog order.
pub open spec fn matching(words: Seq<WordEntry>, topic: Option<&str>, difficulty: Option<&str>) -> Seq<
    usize,
> {
    positions(words.len()).filter(|i: usize| in_catalog_matching(words, topic, difficulty, i))
}

/// The entry at position `i` does not hold the excluded word.
pub open spec fn not_excluded(words: Seq<WordEntry>, exclude: &str, i: usize) -> bool {
    !eq_ignore_case(words[i as int].word@, exclude@)
}

/// The positions a random pick chooses from: those that pass the filters,
/// without the excluded word where more than one passes.
pub open spec fn candidates(
    words: Seq<WordEntry>,
    topic: Option<&str>,
    difficulty: Option<&str>,
    exclude: Option<&str>,
) -> Seq<usize> {
    let m = matching(words, topic, difficulty);
    match exclude {
        Some(x) => if m.len() > 1 {
            m.filter(|i: usize| not_excluded(words, x, i))
        } else {
            m
        },
        None => m,
    }
}

/// Whether `value` passes an optional filter.
pub fn filter_accepts(filter: Option<&str>, value: &str) -> (r: bool)
    ensures
        r == accepts(filter, value@),
{
    match filter {
        Some(f) => text_eq_ignore_case(value, f),
        None => true,
    }
}

/// What a filter keeps comes from the sequence filtered.
proof fn lemma_filter_within<A>(s: Seq<A>, p: spec_fn(A) -> bool)
    ensures
        forall|j: int| 0 <= j < s.filter(p).len() ==> s.contains(#[trigger] s.filter(p)[j]),
    decreases s.len(),
{
    reveal(Seq::filter);
    if s.len() > 0 {
        lemma_filter_within(s.drop_last(), p);
        let f = s.filter(p);
        assert forall|j: int| 0 <= j < f.len() implies s.contains(#[trigger] f[j]) by {
            let g = s.drop_last().filter(p);
            if j < g.len() {
                assert(s.drop_last().contains(g[j]));
                let k = choose|k: int| 0 <= k < s.drop_last().len() && s.drop_last()[k] == g[j];
                assert(s[k] == f[j]);
            } else {
                assert(f[j] == s[s.len() - 1]);
            }
        }
    }
}

/// One more element of `s` either joins the filtered prefix or not.
proof fn lemma_filter_step<A>(s: Seq<A>, p: spec_fn(A) -> bool, i: int)
    requires
        0 <= i < s.len(),
    ensures
        s.take(i + 1).filter(p) == if p(s[i]) {
            s.take(i).filter(p).push(s[i])
        } else {
            s.take(i).filter(p)
        },
{
    reveal(Seq::filter);
    assert(s.take(i + 1).drop_last() == s.take(i));
}

/// The positions of the entries that pass the topic and difficulty filters,
/// in catalog order.
pub fn matching_positions(words: &Vec<WordEntry>, topic: Option<&str>, difficulty: Option<&str>) -> (r:
    Vec<usize>)
    ensures
        r@ == matching(words@, topic, difficulty),
{
    let ghost all = positions(words@.len());
    let ghost p = |i: usize| in_catalog_matching(words@, topic, difficulty, i);
    let mut r: Vec<usize> = Vec::new();
    let mut i: usize = 0;
    while i < words.len()
        invariant
            0 <= i <= words@.len(),
            all == positions(words@.len()),
            p == (|i: usize| in_catalog_matching(words@, topic, difficulty, i)),
            r@ == all.take(i as int).filter(p),
        decreases words@.len() - i,
    {
        proof {
            lemma_filter_step(all, p, i as int);
        }
        let e = &words[i];
        if filter_accepts(topic, e.topic.as_str()) && filter_accepts(difficulty, e.difficulty.as_str()) {
            r.push(i);
        }
        i = i + 1;
    }
    assert(all.take(i as int) == all);
    r
}

/// The positions a random pick chooses from: the matching ones, and where
/// more than one matches and a word is excluded, those of other words.
pub fn candidate_positions(
    words: &Vec<WordEntry>,
    topic: Option<&str>,
    difficulty: Option<&str>,
    exclude: Option<&str>,
) -> (r: Vec<usize>)
    ensures
        r@ == candidates(words@, topic, difficulty, exclude),
{
    let m = matching_positions(words, topic, difficulty);
    match exclude {
        Some(x) => {
            if m.len() <= 1 {
                return m;
            }
            let ghost p = |i: usize| not_excluded(words@, x, i);
            proof {
                broadcast use vstd::seq_lib::group_filter_ensures;

            }
            let mut r: Vec<usize> = Vec::new();
            let mut k: usize = 0;
            while k < m.len()
                invariant
                    0 <= k <= m@.len(),
                    m@ == matching(words@, topic, difficulty),
                    forall|j: int| 0 <= j < m@.len() ==> m@[j] < words@.len(),
                    p == (|i: usize| not_excluded(words@, x, i)),
                    r@ == m@.take(k as int).filter(p),
                decreases m@.len() - k,
            {
                proof {
                    lemma_filter_step(m@, p, k as int);
                }
                let i = m[k];
                if !text_eq_ignore_case(words[i].word.as_str(), x) {
                    r.push(i);
                }
                k = k + 1;
            }
            assert(m@.take(k as int) == m@);
            r
        },
        None => m,
    }
}

/// Relies on rand's `SliceRandom::choose` for slices, drawing from
/// `thread_rng`: `None` exactly for an empty slice, else one of its items.
#[verifier::external_body]
fn choose_one(items: &Vec<usize>) -> (r: Option<usize>)
    ensures
        r is None <==> items@.len() == 0,
        r matches Some(i) ==> items@.contains(i),
{
    items.choose(&mut rand::thread_rng()).copied()
}

/// A word chosen at random among the candidates, or `None` where there is
/// none, that is where no entry passes the filters (or the only ones that
/// do all hold the excluded word).
pub fn get_random_word(
    words: &Vec<WordEntry>,
    topic: Option<&str>,
    difficulty: Option<&str>,
    exclude: Option<&str>,
) -> (r: Option<WordEntry>)
    ensures
        r is None <==> candidates(words@, topic, difficulty, exclude).len() == 0,
        r matches Some(e) ==> exists|i: usize|
            #![trigger candidates(words@, topic, difficulty, exclude).contains(i)]
            candidates(words@, topic, difficulty, exclude).contains(i) && i < words@.len() && e@
                == words@[i as int]@,
{
    let c = candidate_positions(words, topic, difficulty, exclude);
    proof {
        lemma_candidates_in_range(words@, topic, difficulty, exclude);
    }
    match choose_one(&c) {
        Some(i) => Some(words[i].duplicate()),
        None => None,
    }
}

/// Every candidate is a position of the catalog whose entry passes the
/// filters.
pub proof fn lemma_candidates_in_range(
    words: Seq<WordEntry>,
    topic: Option<&str>,
    difficulty: Option<&str>,
    exclude: Option<&str>,
)
    ensures
        forall|i: usize| #[trigger]
            candidates(words, topic, difficulty, exclude).contains(i) ==> i < words.len()
                && entry_matches(words[i as int], topic, difficulty),
{
    broadcast use vstd::seq_lib::group_filter_ensures;

    let m = matching(words, topic, difficulty);
    let c = candidates(words, topic, difficulty, exclude);
    match exclude {
        Some(x) => {
            if m.len() > 1 {
                lemma_filter_within(m, |i: usize| not_excluded(words, x, i));
            }
        },
        None => {},
    }
    assert forall|i: usize| #[trigger] c.contains(i) implies i < words.len() && entry_matches(
        words[i as int],
        topic,
        difficulty,
    ) by {
        let j = choose|j: int| 0 <= j < c.len() && c[j] == i;
        if c != m {
            assert(m.contains(c[j]));
        }
        let k = choose|k: int| 0 <= k < m.len() && m[k] == i;
        assert(in_catalog_matching(words, topic, difficulty, m[k]));
    }
}

/// The topics of the catalog, as stored.
pub open spec fn topics_of(words: Seq<WordEntry>) -> Set<Seq<char>> {
    Set::new(|t: Seq<char>| exists|i: int| 0 <= i < words.len() && #[trigger] words[i].topic@ == t)
}

/// The difficulties, as stored, of the entries that pass the topic filter.
pub open spec fn difficulties_of(words: Seq<WordEntry>, topic: Option<&str>) -> Set<Seq<char>> {
    Set::new(
        |d: Seq<char>|
            exists|i: int|
                0 <= i < words.len() && accepts(topic, words[i].topic@) && #[trigger] words[i].difficulty@
                    == d,
    )
}

/// `s` lists the members of `set` in ascending order, each once.
pub open spec fn lists(s: Seq<Seq<char>>, set: Set<Seq<char>>, by_rank: bool) -> bool {
    ascending(s, by_rank) && forall|t: Seq<char>| #[trigger] s.contains(t) <==> set.contains(t)
}

/// The distinct topics of the catalog, in lexicographic order.
pub fn get_topics(words: &Vec<WordEntry>) -> (r: Vec<String>)
    ensures
        lists(texts(r@), topics_of(words@), false),
{
    let mut r: Vec<String> = Vec::new();
    let mut k: usize = 0;
    while k < words.len()
        invariant
            0 <= k <= words@.len(),
            ascending(texts(r@), false),
            forall|t: Seq<char>|
                #![trigger texts(r@).contains(t)]
                texts(r@).contains(t) <==> exists|i: int| 0 <= i < k && #[trigger] words@[i].topic@ == t,
        decreases words@.len() - k,
    {
        let ghost before_r = texts(r@);
        insert_ordered(&mut r, words[k].topic.clone(), false);
        proof {
            assert forall|t: Seq<char>| #[trigger]
                texts(r@).contains(t) <==> exists|i: int|
                    0 <= i < k + 1 && #[trigger] words@[i].topic@ == t by {
                if texts(r@).contains(t) && t != words@[k as int].topic@ {
                    assert(before_r.contains(t));
                }
            }
        }
        k = k + 1;
    }
    proof {
        assert forall|t: Seq<char>| #[trigger]
            texts(r@).contains(t) <==> topics_of(words@).contains(t) by {}
    }
    r
}

/// The distinct difficulties of the entries that pass the topic filter:
/// the preferred ones first, in their fixed order, then the others in
/// lexicographic order.
pub fn get_difficulties(words: &Vec<WordEntry>, topic: Option<&str>) -> (r: Vec<String>)
    ensures
        lists(texts(r@), difficulties_of(words@, topic), true),
{
    let mut r: Vec<String> = Vec::new();
    let mut k: usize = 0;
    while k < words.len()
        invariant
            0 <= k <= words@.len(),
            ascending(texts(r@), true),
            forall|t: Seq<char>|
                #![trigger texts(r@).contains(t)]
                texts(r@).contains(t) <==> exists|i: int|
                    0 <= i < k && accepts(topic, words@[i].topic@) && #[trigger] words@[i].difficulty@
                        == t,
        decreases words@.len() - k,
    {
        let ghost before_r = texts(r@);
        if filter_accepts(topic, words[k].topic.as_str()) {
            insert_ordered(&mut r, words[k].difficulty.clone(), true);
        }
        proof {
            assert forall|t: Seq<char>| #[trigger]
                texts(r@).contains(t) <==> exists|i: int|
                    0 <= i < k + 1 && accepts(topic, words@[i].topic@) && #[trigger] words@[i].difficulty@
                        == t by {
                if texts(r@).contains(t) && t != words@[k as int].difficulty@ {
                    assert(before_r.contains(t));
                }
            }
        }
        k = k + 1;
    }
    proof {
        assert forall|t: Seq<char>| #[trigger]
            texts(r@).contains(t) <==> difficulties_of(words@, topic).contains(t) by {}
    }
    r
}

} // verus!
