//! Properties that hold of the queries over every catalog.

use crate::catalog::{
    candidates, difficulties_of, entry_matches, in_catalog_matching, lemma_candidates_in_range,
    lists, matching, not_excluded, positions, topics_of, WordEntry,
};
use crate::order::{before, lemma_before_trichotomy, preferred, rank};
use vstd::prelude::*;

verus! {

/// A random pick draws only entries that pass both filters; and it finds
/// nothing exactly when no entry passes them, unless more than one passes
/// and every one of those holds the excluded word.
pub proof fn lemma_pick_respects_filters(
    words: Seq<WordEntry>,
    topic: Option<&str>,
    difficulty: Option<&str>,
    exclude: Option<&str>,
)
    requires
        words.len() <= usize::MAX,
        exclude is Some && matching(words, topic, difficulty).len() > 1 ==> exists|i: int|
            0 <= i < words.len() && entry_matches(words[i], topic, difficulty) && !eq_word(
                words[i],
                exclude->0,
            ),
    ensures
        forall|i: usize| #[trigger]
            candidates(words, topic, difficulty, exclude).contains(i) ==> i < words.len()
                && entry_matches(words[i as int], topic, difficulty),
        candidates(words, topic, difficulty, exclude).len() == 0 <==> !exists|i: int|
            0 <= i < words.len() && #[trigger] entry_matches(words[i], topic, difficulty),
{
    broadcast use vstd::seq_lib::group_filter_ensures;

    lemma_candidates_in_range(words, topic, difficulty, exclude);
    let m = matching(words, topic, difficulty);
    let c = candidates(words, topic, difficulty, exclude);
    let all = positions(words.len());
    if exists|i: int| 0 <= i < words.len() && #[trigger] entry_matches(words[i], topic, difficulty) {
        let i = choose|i: int| 0 <= i < words.len() && #[trigger] entry_matches(words[i], topic, difficulty);
        assert(all[i] == i as usize);
        assert(in_catalog_matching(words, topic, difficulty, all[i]));
        assert(m.contains(all[i]));
        match exclude {
            Some(x) => {
                if m.len() > 1 {
                    let j = choose|j: int|
                        0 <= j < words.len() && entry_matches(words[j], topic, difficulty) && !eq_word(
                            words[j],
                            x,
                        );
                    assert(all[j] == j as usize);
                    assert(in_catalog_matching(words, topic, difficulty, all[j]));
                    assert(m.contains(all[j]));
                    let k = choose|k: int| 0 <= k < m.len() && m[k] == all[j];
                    assert(not_excluded(words, x, m[k]));
                    assert(c.contains(m[k]));
                }
            },
            None => {},
        }
    } else {
        if c.len() > 0 {
            assert(c.contains(c[0]));
        }
    }
}

/// The entry holds the word `x`, up to ASCII case.
pub open spec fn eq_word(e: WordEntry, x: &str) -> bool {
    crate::text::eq_ignore_case(e.word@, x@)
}

/// Where more than one entry passes the filters, no candidate holds the
/// excluded word; where at most one passes, the exclusion changes nothing.
pub proof fn lemma_exclusion(
    words: Seq<WordEntry>,
    topic: Option<&str>,
    difficulty: Option<&str>,
    x: &str,
)
    ensures
        matching(words, topic, difficulty).len() > 1 ==> forall|i: usize| #[trigger]
            candidates(words, topic, difficulty, Some(x)).contains(i) ==> !eq_word(words[i as int], x),
        matching(words, topic, difficulty).len() <= 1 ==> candidates(words, topic, difficulty, Some(x))
            == matching(words, topic, difficulty),
{
    broadcast use vstd::seq_lib::group_filter_ensures;

    let c = candidates(words, topic, difficulty, Some(x));
    if matching(words, topic, difficulty).len() > 1 {
        assert forall|i: usize| #[trigger] c.contains(i) implies !eq_word(words[i as int], x) by {
            let k = choose|k: int| 0 <= k < c.len() && c[k] == i;
            assert(not_excluded(words, x, c[k]));
        }
    }
}

/// Two ascending lists of the same set are the same list.
pub proof fn lemma_listing_unique(
    s: Seq<Seq<char>>,
    t: Seq<Seq<char>>,
    set: Set<Seq<char>>,
    by_rank: bool,
)
    requires
        lists(s, set, by_rank),
        lists(t, set, by_rank),
    ensures
        s == t,
    decreases s.len(),
{
    if s.len() == 0 {
        if t.len() > 0 {
            assert(t.contains(t[0]));
            assert(set.contains(t[0]));
            assert(!s.contains(t[0]));
        }
        assert(s =~= t);
    } else if t.len() == 0 {
        assert(s.contains(s[0]));
        assert(set.contains(s[0]));
        assert(!t.contains(s[0]));
    } else {
        assert(s.contains(s[0]) && t.contains(t[0]));
        assert(t.contains(s[0]) && s.contains(t[0]));
        lemma_before_trichotomy(s[0], t[0], by_rank);
        if s[0] != t[0] {
            let a = choose|a: int| 0 <= a < t.len() && t[a] == s[0];
            let b = choose|b: int| 0 <= b < s.len() && s[b] == t[0];
            assert(before(t[0], t[a], by_rank));
            assert(before(s[0], s[b], by_rank));
        }
        let h = s[0];
        let rest = set.remove(h);
        assert forall|u: Seq<char>| #[trigger] s.drop_first().contains(u) <==> rest.contains(u) by {
            if s.drop_first().contains(u) {
                let k = choose|k: int| 0 <= k < s.drop_first().len() && s.drop_first()[k] == u;
                assert(s[k + 1] == u);
                assert(s.contains(u));
                assert(before(s[0], s[k + 1], by_rank));
                lemma_before_trichotomy(h, u, by_rank);
            }
            if rest.contains(u) {
                assert(set.contains(u) && u != h);
                assert(s.contains(u));
                let k = choose|k: int| 0 <= k < s.len() && s[k] == u;
                assert(k != 0);
                assert(s.drop_first()[k - 1] == u);
            }
        }
        assert forall|u: Seq<char>| #[trigger] t.drop_first().contains(u) <==> rest.contains(u) by {
            if t.drop_first().contains(u) {
                let k = choose|k: int| 0 <= k < t.drop_first().len() && t.drop_first()[k] == u;
                assert(t[k + 1] == u);
                assert(t.contains(u));
                assert(before(t[0], t[k + 1], by_rank));
                lemma_before_trichotomy(h, u, by_rank);
            }
            if rest.contains(u) {
                assert(set.contains(u) && u != h);
                assert(t.contains(u));
                let k = choose|k: int| 0 <= k < t.len() && t[k] == u;
                assert(k != 0);
                assert(t.drop_first()[k - 1] == u);
            }
        }
        assert forall|i: int, j: int|
            0 <= i < j < s.drop_first().len() implies before(
            #[trigger] s.drop_first()[i],
            #[trigger] s.drop_first()[j],
            by_rank,
        ) by {
            assert(before(s[i + 1], s[j + 1], by_rank));
        }
        assert forall|i: int, j: int|
            0 <= i < j < t.drop_first().len() implies before(
            #[trigger] t.drop_first()[i],
            #[trigger] t.drop_first()[j],
            by_rank,
        ) by {
            assert(before(t[i + 1], t[j + 1], by_rank));
        }
        lemma_listing_unique(s.drop_first(), t.drop_first(), rest, by_rank);
        assert(s =~= seq![h] + s.drop_first());
        assert(t =~= seq![h] + t.drop_first());
    }
}

/// Listing the topics of one catalog twice gives the same list.
pub proof fn lemma_topics_repeatable(words: Seq<WordEntry>, r1: Seq<Seq<char>>, r2: Seq<Seq<char>>)
    requires
        lists(r1, topics_of(words), false),
        lists(r2, topics_of(words), false),
    ensures
        r1 == r2,
{
    lemma_listing_unique(r1, r2, topics_of(words), false);
}

/// Listing the difficulties of one catalog under one topic filter twice
/// gives the same list.
pub proof fn lemma_difficulties_repeatable(
    words: Seq<WordEntry>,
    topic: Option<&str>,
    r1: Seq<Seq<char>>,
    r2: Seq<Seq<char>>,
)
    requires
        lists(r1, difficulties_of(words, topic), true),
        lists(r2, difficulties_of(words, topic), true),
    ensures
        r1 == r2,
{
    lemma_listing_unique(r1, r2, difficulties_of(words, topic), true);
}

/// In a list of difficulties, the preferred ones come in their fixed
/// relative order and before every other value.
pub proof fn lemma_preferred_first(s: Seq<Seq<char>>, set: Set<Seq<char>>)
    requires
        lists(s, set, true),
    ensures
        forall|i: int, j: int|
            0 <= i < j < s.len() && preferred().contains(#[trigger] s[j]) ==> preferred().contains(
                #[trigger] s[i],
            ) && rank(s[i]) < rank(s[j]),
{
    assert forall|i: int, j: int|
        0 <= i < j < s.len() && preferred().contains(#[trigger] s[j]) implies preferred().contains(
        #[trigger] s[i],
    ) && rank(s[i]) < rank(s[j]) by {
        assert(before(s[i], s[j], true));
        lemma_rank_is_place(s[i]);
        lemma_rank_is_place(s[j]);
        crate::text::lemma_lex_trichotomy(s[i], s[j]);
    }
}

/// The rank of a preferred difficulty is its place in the preferred list;
/// any other value ranks after all of them.
pub proof fn lemma_rank_is_place(d: Seq<char>)
    ensures
        preferred().contains(d) <==> rank(d) < 5,
        rank(d) < 5 ==> preferred()[rank(d)] == d,
{
    let p = preferred();
    assert(p[0] != p[1] && p[0] != p[2] && p[0] != p[3] && p[0] != p[4]);
    assert(p[1] != p[2] && p[1] != p[3] && p[1] != p[4]);
    assert(p[2] != p[3] && p[2] != p[4]);
    assert(p[3] != p[4]);
    if p.contains(d) {
        let k = choose|k: int| 0 <= k < p.len() && p[k] == d;
        assert(rank(d) == k);
    }
    if rank(d) < 5 {
        assert(p[rank(d)] == d);
    }
}

} // verus!
