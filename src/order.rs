//! The two orders of the listings: plain lexicographic order, and the order
//! of difficulties, where the preferred ones come first.

use crate::text::{lemma_lex_transitive, lemma_lex_trichotomy, lex_lt, text_cmp};
use std::cmp::Ordering;
use vstd::prelude::*;

verus! {

/// The preferred difficulties, in the order in which they are listed.
pub open spec fn preferred() -> Seq<Seq<char>> {
    seq![
        seq!['E', 'a', 's', 'y'],
        seq!['M', 'e', 'd', 'i', 'u', 'm'],
        seq!['H', 'a', 'r', 'd'],
        seq!['K', 'i', 'd', 's'],
        seq!['A', 'd', 'u', 'l', 't', 's'],
    ]
}

/// The place of a difficulty among the preferred ones (exact case), or 5,
/// after all of them, for any other value.
pub open spec fn rank(d: Seq<char>) -> int {
    if d == preferred()[0] {
        0
    } else if d == preferred()[1] {
        1
    } else if d == preferred()[2] {
        2
    } else if d == preferred()[3] {
        3
    } else if d == preferred()[4] {
        4
    } else {
        5
    }
}

/// `a` comes strictly before `b`: by lexicographic order, or, when
/// `by_rank`, first by rank and then lexicographically.
pub open spec fn before(a: Seq<char>, b: Seq<char>, by_rank: bool) -> bool {
    if by_rank {
        rank(a) < rank(b) || (rank(a) == rank(b) && lex_lt(a, b))
    } else {
        lex_lt(a, b)
    }
}

/// Every text of `s` comes strictly before every later one: `s` is sorted
/// and holds no text twice.
pub open spec fn ascending(s: Seq<Seq<char>>, by_rank: bool) -> bool {
    forall|i: int, j: int| 0 <= i < j < s.len() ==> before(#[trigger] s[i], #[trigger] s[j], by_rank)
}

/// The characters of each string.
pub open spec fn texts(v: Seq<String>) -> Seq<Seq<char>> {
    v.map_values(|s: String| s@)
}

/// `before` is a strict total order.
pub proof fn lemma_before_trichotomy(a: Seq<char>, b: Seq<char>, by_rank: bool)
    ensures
        !(before(a, b, by_rank) && before(b, a, by_rank)),
        !(before(a, b, by_rank) && a == b),
        a != b ==> before(a, b, by_rank) || before(b, a, by_rank),
{
    lemma_lex_trichotomy(a, b);
}

/// `before` is transitive.
pub proof fn lemma_before_transitive(a: Seq<char>, b: Seq<char>, c: Seq<char>, by_rank: bool)
    requires
        before(a, b, by_rank),
        before(b, c, by_rank),
    ensures
        before(a, c, by_rank),
{
    if lex_lt(a, b) && lex_lt(b, c) {
        lemma_lex_transitive(a, b, c);
    }
}

/// Whether two texts are the same.
fn same_text(a: &str, b: &str) -> (r: bool)
    ensures
        r == (a@ == b@),
{
    proof {
        lemma_lex_trichotomy(a@, b@);
    }
    match text_cmp(a, b) {
        Ordering::Equal => true,
        _ => false,
    }
}

/// The rank of a difficulty.
pub fn rank_of(d: &str) -> (r: u8)
    ensures
        r as int == rank(d@),
{
    proof {
        reveal_strlit("Easy");
        reveal_strlit("Medium");
        reveal_strlit("Hard");
        reveal_strlit("Kids");
        reveal_strlit("Adults");
        assert("Easy"@ =~= preferred()[0]);
        assert("Medium"@ =~= preferred()[1]);
        assert("Hard"@ =~= preferred()[2]);
        assert("Kids"@ =~= preferred()[3]);
        assert("Adults"@ =~= preferred()[4]);
    }
    if same_text(d, "Easy") {
        0
    } else if same_text(d, "Medium") {
        1
    } else if same_text(d, "Hard") {
        2
    } else if same_text(d, "Kids") {
        3
    } else if same_text(d, "Adults") {
        4
    } else {
        5
    }
}

/// Compares two texts by the order that `by_rank` selects.
pub fn compare(a: &str, b: &str, by_rank: bool) -> (r: Ordering)
    ensures
        r == Ordering::Less <==> before(a@, b@, by_rank),
        r == Ordering::Greater <==> before(b@, a@, by_rank),
        r == Ordering::Equal <==> a@ == b@,
{
    proof {
        lemma_before_trichotomy(a@, b@, by_rank);
        lemma_lex_trichotomy(a@, b@);
    }
    if by_rank {
        let ra = rank_of(a);
        let rb = rank_of(b);
        if ra < rb {
            return Ordering::Less;
        } else if rb < ra {
            return Ordering::Greater;
        }
    }
    text_cmp(a, b)
}

/// Puts `x` into an ascending list in its place, unless the list holds it
/// already.
pub fn insert_ordered(list: &mut Vec<String>, x: String, by_rank: bool)
    requires
        ascending(texts(old(list)@), by_rank),
    ensures
        ascending(texts(final(list)@), by_rank),
        forall|t: Seq<char>|
            #![trigger texts(final(list)@).contains(t)]
            texts(final(list)@).contains(t) <==> (texts(old(list)@).contains(t) || t == x@),
{
    let ghost s = texts(list@);
    let mut i: usize = 0;
    while i < list.len()
        invariant_except_break
            list@ == old(list)@,
            s == texts(list@),
            ascending(s, by_rank),
            0 <= i <= list@.len(),
            forall|j: int| 0 <= j < i ==> before(#[trigger] s[j], x@, by_rank),
        ensures
            list@ == old(list)@,
            s == texts(list@),
            0 <= i <= list@.len(),
            forall|j: int| 0 <= j < i ==> before(#[trigger] s[j], x@, by_rank),
            i < list@.len() ==> before(x@, s[i as int], by_rank),
        decreases list@.len() - i,
    {
        match compare(list[i].as_str(), x.as_str(), by_rank) {
            Ordering::Less => {
                i = i + 1;
            },
            Ordering::Equal => {
                assert(s[i as int] == x@);
                assert(s.contains(x@));
                return;
            },
            Ordering::Greater => {
                break;
            },
        }
    }
    let ghost xv = x@;
    list.insert(i, x);
    proof {
        let n = texts(list@);
        assert(n == s.insert(i as int, xv));
        assert forall|a: int, b: int| 0 <= a < b < n.len() implies before(
            #[trigger] n[a],
            #[trigger] n[b],
            by_rank,
        ) by {
            if b < i {
            } else if b == i {
            } else if a < i {
                assert(n[b] == s[b - 1]);
            } else if a == i {
                if b - 1 > i {
                    lemma_before_transitive(xv, s[i as int], s[b - 1], by_rank);
                }
            } else {
                assert(n[a] == s[a - 1] && n[b] == s[b - 1]);
            }
        }
        assert forall|t: Seq<char>| #[trigger] n.contains(t) <==> (s.contains(t) || t == xv) by {
            if n.contains(t) {
                let k = choose|k: int| 0 <= k < n.len() && n[k] == t;
                if k < i {
                    assert(s[k] == t);
                } else if k > i {
                    assert(s[k - 1] == t);
                }
            }
            if s.contains(t) {
                let k = choose|k: int| 0 <= k < s.len() && s[k] == t;
                if k < i {
                    assert(n[k] == t);
                } else {
                    assert(n[k + 1] == t);
                }
            }
            if t == xv {
                assert(n[i as int] == t);
            }
        }
    }
}

} // verus!
