//! Text primitives: ASCII case-insensitive equality and lexicographic order.

use vstd::prelude::*;

verus! {

/// Whether `c` is an ASCII capital letter.
pub open spec fn is_ascii_upper(c: char) -> bool {
    'A' <= c && c <= 'Z'
}

/// Two characters are equal once ASCII letters are folded to lower case.
pub open spec fn char_eq_ignore_case(a: char, b: char) -> bool {
    a == b || (is_ascii_upper(a) && (a as u32) + 32 == (b as u32)) || (is_ascii_upper(b) && (b as u32)
        + 32 == (a as u32))
}

/// Two texts are equal up to ASCII case.
pub open spec fn eq_ignore_case(a: Seq<char>, b: Seq<char>) -> bool {
    a.len() == b.len() && forall|i: int| 0 <= i < a.len() ==> char_eq_ignore_case(a[i], b[i])
}

/// The characters of `s`, in order.
pub fn chars_of(s: &str) -> (r: Vec<char>)
    ensures
        r@ == s@,
{
    let mut r: Vec<char> = Vec::new();
    for c in it: s.chars()
        invariant
            r@ == it.seq().take(it.index() as int),
    {
        r.push(c);
    }
    r
}

/// `a` and `b` agree on their first `k` characters, and there `a` ends
/// while `b` goes on, or `a` has the smaller character.
pub open spec fn lex_lt_at(a: Seq<char>, b: Seq<char>, k: int) -> bool {
    &&& 0 <= k <= a.len()
    &&& k <= b.len()
    &&& a.take(k) == b.take(k)
    &&& (k == a.len() && k < b.len()) || (k < a.len() && k < b.len() && a[k] < b[k])
}

/// `a` comes strictly before `b` in lexicographic order of characters, which
/// is the order of `str` (UTF-8 keeps the order of code points).
pub open spec fn lex_lt(a: Seq<char>, b: Seq<char>) -> bool {
    exists|k: int| lex_lt_at(a, b, k)
}

/// The order of `a` and `b` as `str` compares them.
pub open spec fn lex_cmp(a: Seq<char>, b: Seq<char>) -> std::cmp::Ordering {
    if lex_lt(a, b) {
        std::cmp::Ordering::Less
    } else if a == b {
        std::cmp::Ordering::Equal
    } else {
        std::cmp::Ordering::Greater
    }
}

/// Exactly one of `a < b`, `a == b`, `b < a` holds.
pub proof fn lemma_lex_trichotomy(a: Seq<char>, b: Seq<char>)
    ensures
        !(lex_lt(a, b) && lex_lt(b, a)),
        !(lex_lt(a, b) && a == b),
        a != b ==> lex_lt(a, b) || lex_lt(b, a),
{
    if lex_lt(a, b) && lex_lt(b, a) {
        let k = choose|k: int| lex_lt_at(a, b, k);
        let j = choose|j: int| lex_lt_at(b, a, j);
        if k < j {
            assert(b.take(j)[k] == b[k] && a.take(j)[k] == a[k]);
        } else if j < k {
            assert(b.take(k)[j] == b[j] && a.take(k)[j] == a[j]);
        }
    }
    if lex_lt(a, b) && a == b {
        let k = choose|k: int| lex_lt_at(a, b, k);
    }
    if a != b {
        assert(a.take(0) == b.take(0));
        lemma_lex_total_from(a, b, 0);
    }
}

/// Two different texts that agree on their first `i` characters are ordered
/// one way or the other.
proof fn lemma_lex_total_from(a: Seq<char>, b: Seq<char>, i: int)
    requires
        a != b,
        0 <= i <= a.len(),
        i <= b.len(),
        a.take(i) == b.take(i),
    ensures
        lex_lt(a, b) || lex_lt(b, a),
    decreases a.len() - i,
{
    if i < a.len() && i < b.len() && a[i] == b[i] {
        assert(a.take(i + 1) == a.take(i).push(a[i]));
        assert(b.take(i + 1) == b.take(i).push(b[i]));
        lemma_lex_total_from(a, b, i + 1);
    } else if i < a.len() && i < b.len() {
        if a[i] < b[i] {
            assert(lex_lt_at(a, b, i));
        } else {
            assert(lex_lt_at(b, a, i));
        }
    } else if a.len() < b.len() {
        assert(a.take(i) == a);
        assert(lex_lt_at(a, b, i));
    } else if b.len() < a.len() {
        assert(b.take(i) == b);
        assert(lex_lt_at(b, a, i));
    } else {
        assert(a == a.take(i));
        assert(b == b.take(i));
    }
}

/// Lexicographic order is transitive.
pub proof fn lemma_lex_transitive(a: Seq<char>, b: Seq<char>, c: Seq<char>)
    requires
        lex_lt(a, b),
        lex_lt(b, c),
    ensures
        lex_lt(a, c),
{
    let k = choose|k: int| lex_lt_at(a, b, k);
    let j = choose|j: int| lex_lt_at(b, c, j);
    if k < j {
        assert forall|t: int| 0 <= t < k implies a.take(k)[t] == c.take(k)[t] by {
            assert(a.take(k)[t] == b.take(k)[t]);
            assert(b.take(j)[t] == c.take(j)[t]);
        }
        assert(a.take(k) == c.take(k));
        assert(b.take(j)[k] == c.take(j)[k]);
        assert(lex_lt_at(a, c, k));
    } else if j < k {
        assert forall|t: int| 0 <= t < j implies a.take(j)[t] == c.take(j)[t] by {
            assert(a.take(k)[t] == b.take(k)[t]);
            assert(b.take(j)[t] == c.take(j)[t]);
        }
        assert(a.take(j) == c.take(j));
        assert(a.take(k)[j] == b.take(k)[j]);
        assert(lex_lt_at(a, c, j));
    } else {
        assert forall|t: int| 0 <= t < k implies a.take(k)[t] == c.take(k)[t] by {
            assert(a.take(k)[t] == b.take(k)[t]);
            assert(b.take(j)[t] == c.take(j)[t]);
        }
        assert(a.take(k) == c.take(k));
        assert(lex_lt_at(a, c, k));
    }
}

/// Whether two texts are equal up to ASCII case.
pub fn text_eq_ignore_case(a: &str, b: &str) -> (r: bool)
    ensures
        r == eq_ignore_case(a@, b@),
{
    let x = chars_of(a);
    let y = chars_of(b);
    if x.len() != y.len() {
        return false;
    }
    let mut i: usize = 0;
    while i < x.len()
        invariant
            x@ == a@,
            y@ == b@,
            x.len() == y.len(),
            0 <= i <= x.len(),
            forall|j: int| 0 <= j < i ==> char_eq_ignore_case(a@[j], b@[j]),
        decreases x.len() - i,
    {
        let c = x[i];
        let d = y[i];
        let same = c == d || ('A' <= c && c <= 'Z' && (c as u32) + 32 == (d as u32)) || ('A' <= d
            && d <= 'Z' && (d as u32) + 32 == (c as u32));
        if !same {
            return false;
        }
        i = i + 1;
    }
    true
}

/// Compares two texts in lexicographic order of characters.
pub fn text_cmp(a: &str, b: &str) -> (r: std::cmp::Ordering)
    ensures
        r == lex_cmp(a@, b@),
{
    let x = chars_of(a);
    let y = chars_of(b);
    let n: usize = if x.len() < y.len() { x.len() } else { y.len() };
    let mut i: usize = 0;
    while i < n && x[i] == y[i]
        invariant
            x@ == a@,
            y@ == b@,
            n <= x.len(),
            n <= y.len(),
            0 <= i <= n,
            a@.take(i as int) == b@.take(i as int),
        decreases n - i,
    {
        assert(a@.take(i + 1) == a@.take(i as int).push(a@[i as int]));
        assert(b@.take(i + 1) == b@.take(i as int).push(b@[i as int]));
        i = i + 1;
    }
    proof {
        lemma_lex_trichotomy(a@, b@);
    }
    if i < n {
        if x[i] < y[i] {
            assert(lex_lt_at(a@, b@, i as int));
            std::cmp::Ordering::Less
        } else {
            assert(lex_lt_at(b@, a@, i as int));
            std::cmp::Ordering::Greater
        }
    } else if x.len() < y.len() {
        assert(a@.take(i as int) == a@);
        assert(lex_lt_at(a@, b@, i as int));
        std::cmp::Ordering::Less
    } else if y.len() < x.len() {
        assert(b@.take(i as int) == b@);
        assert(lex_lt_at(b@, a@, i as int));
        std::cmp::Ordering::Greater
    } else {
        assert(a@ == a@.take(i as int));
        assert(b@ == b@.take(i as int));
        std::cmp::Ordering::Equal
    }
}

} // verus!
