//! Levenshtein edit distance between two strings.
//!
//! `lev` is the mathematical definition over character sequences; the
//! executable `edit_distance` fills a dynamic-programming table bottom-up and
//! is proved to return exactly `lev`. The accompanying lemmas establish that
//! `lev` is a metric: identity, symmetry, the empty-string base cases and the
//! triangle inequality.

use vstd::prelude::*;

verus! {

/// Minimum of three naturals.
pub open spec fn min3(a: nat, b: nat, c: nat) -> nat {
    if a <= b && a <= c {
        a
    } else if b <= c {
        b
    } else {
        c
    }
}

/// Levenshtein edit distance: the minimum number of single-character
/// insertions, deletions and substitutions turning `a` into `b`.
pub open spec fn lev(a: Seq<char>, b: Seq<char>) -> nat
    decreases a.len() + b.len(),
{
    if a.len() == 0 {
        b.len()
    } else if b.len() == 0 {
        a.len()
    } else if a.last() == b.last() {
        lev(a.drop_last(), b.drop_last())
    } else {
        1 + min3(
            lev(a.drop_last(), b),
            lev(a, b.drop_last()),
            lev(a.drop_last(), b.drop_last()),
        )
    }
}

/// The distance never exceeds the longer input: substitute the overlap,
/// then insert or delete the rest.
pub proof fn lemma_lev_le_max(a: Seq<char>, b: Seq<char>)
    ensures
        lev(a, b) <= a.len() || lev(a, b) <= b.len(),
        lev(a, b) <= a.len() + b.len(),
    decreases a.len() + b.len(),
{
    if a.len() == 0 || b.len() == 0 {
    } else if a.last() == b.last() {
        lemma_lev_le_max(a.drop_last(), b.drop_last());
    } else {
        lemma_lev_le_max(a.drop_last(), b.drop_last());
        lemma_lev_le_max(a.drop_last(), b);
        lemma_lev_le_max(a, b.drop_last());
    }
}

/// A string is at zero distance from itself: every prefix pair of equal
/// strings takes the matching-character branch down to two empty strings.
pub proof fn lemma_lev_self(a: Seq<char>)
    ensures
        lev(a, a) == 0,
    decreases a.len(),
{
    if a.len() > 0 {
        lemma_lev_self(a.drop_last());
    }
}

/// Distance to or from the empty string is the other string's length:
/// only insertions or only deletions are available.
pub proof fn lemma_lev_empty(a: Seq<char>, b: Seq<char>)
    ensures
        lev(Seq::<char>::empty(), b) == b.len(),
        lev(a, Seq::<char>::empty()) == a.len(),
{
}

/// Edit distance is symmetric: insertions into one string are deletions
/// from the other, and substitutions reverse.
pub proof fn lemma_lev_symmetric(a: Seq<char>, b: Seq<char>)
    ensures
        lev(a, b) == lev(b, a),
    decreases a.len() + b.len(),
{
    if a.len() == 0 || b.len() == 0 {
    } else {
        lemma_lev_symmetric(a.drop_last(), b.drop_last());
        lemma_lev_symmetric(a.drop_last(), b);
        lemma_lev_symmetric(a, b.drop_last());
    }
}

/// Each edit changes the length by at most one, so the distance is at
/// least the difference of the lengths.
pub proof fn lemma_lev_lower(a: Seq<char>, b: Seq<char>)
    ensures
        lev(a, b) + a.len() >= b.len(),
        lev(a, b) + b.len() >= a.len(),
    decreases a.len() + b.len(),
{
    if a.len() == 0 || b.len() == 0 {
    } else if a.last() == b.last() {
        lemma_lev_lower(a.drop_last(), b.drop_last());
    } else {
        lemma_lev_lower(a.drop_last(), b.drop_last());
        lemma_lev_lower(a.drop_last(), b);
        lemma_lev_lower(a, b.drop_last());
    }
}

/// Dropping the last character of either argument moves the distance by at
/// most one in either direction.
pub proof fn lemma_lev_adjacent(a: Seq<char>, b: Seq<char>)
    ensures
        a.len() > 0 ==> lev(a, b) <= 1 + lev(a.drop_last(), b),
        a.len() > 0 ==> lev(a.drop_last(), b) <= 1 + lev(a, b),
        b.len() > 0 ==> lev(a, b) <= 1 + lev(a, b.drop_last()),
        b.len() > 0 ==> lev(a, b.drop_last()) <= 1 + lev(a, b),
    decreases a.len() + b.len(),
{
    if a.len() > 0 && b.len() > 0 {
        lemma_lev_adjacent(a.drop_last(), b);
        lemma_lev_adjacent(a, b.drop_last());
        lemma_lev_adjacent(a.drop_last(), b.drop_last());
    } else if a.len() > 0 {
        lemma_lev_adjacent(a.drop_last(), b);
    } else if b.len() > 0 {
        lemma_lev_adjacent(a, b.drop_last());
    }
}

/// Dropping the last character of both arguments never increases the
/// distance.
pub proof fn lemma_lev_diag(a: Seq<char>, b: Seq<char>)
    requires
        a.len() > 0,
        b.len() > 0,
    ensures
        lev(a.drop_last(), b.drop_last()) <= lev(a, b),
{
    let a1 = a.drop_last();
    let b1 = b.drop_last();
    if a.last() == b.last() {
        assert(lev(a, b) == lev(a1, b1));
    } else {
        lemma_lev_adjacent(a1, b);
        lemma_lev_adjacent(a, b1);
        assert(lev(a, b) == 1 + min3(lev(a1, b), lev(a, b1), lev(a1, b1)));
        assert(lev(a1, b1) <= 1 + lev(a1, b));
        assert(lev(a1, b1) <= 1 + lev(a, b1));
    }
}

/// Triangle inequality: editing `a` into `b` and then `b` into `c` is one
/// way of editing `a` into `c`, so the direct distance is no larger.
pub proof fn lemma_lev_triangle(a: Seq<char>, b: Seq<char>, c: Seq<char>)
    ensures
        lev(a, c) <= lev(a, b) + lev(b, c),
    decreases a.len() + b.len() + c.len(),
{
    if b.len() == 0 {
        lemma_lev_le_max(a, c);
        lemma_lev_empty(a, b);
        lemma_lev_empty(c, b);
    } else if a.len() == 0 {
        lemma_lev_lower(b, c);
    } else if c.len() == 0 {
        lemma_lev_lower(a, b);
    } else {
        let x = a.last();
        let y = b.last();
        let z = c.last();
        let a1 = a.drop_last();
        let b1 = b.drop_last();
        let c1 = c.drop_last();
        lemma_lev_adjacent(a, c);
        if x == y && y == z {
            lemma_lev_triangle(a1, b1, c1);
            assert(lev(a, c) == lev(a1, c1));
            assert(lev(a, b) == lev(a1, b1));
            assert(lev(b, c) == lev(b1, c1));
        } else if x == y {
            // lev(a, b) == lev(a1, b1); bound lev(a, c) against each branch
            // of the minimum inside lev(b, c).
            lemma_lev_triangle(a1, b1, c);
            lemma_lev_triangle(a, b, c1);
            lemma_lev_triangle(a1, b1, c1);
            assert(lev(a, b) == lev(a1, b1));
            assert(lev(b, c) == 1 + min3(lev(b1, c), lev(b, c1), lev(b1, c1)));
            assert(lev(a, c) <= 1 + lev(a1, c) <= 1 + lev(a1, b1) + lev(b1, c));
            assert(lev(a, c) <= 1 + lev(a, c1) <= 1 + lev(a1, b1) + lev(b, c1));
            assert(x != z);
            assert(lev(a, c) == 1 + min3(lev(a1, c), lev(a, c1), lev(a1, c1)));
            assert(lev(a, c) <= 1 + lev(a1, c1) <= 1 + lev(a1, b1) + lev(b1, c1));
        } else if y == z {
            // lev(b, c) == lev(b1, c1); bound lev(a, c) against each branch
            // of the minimum inside lev(a, b).
            lemma_lev_adjacent(b, c);
            lemma_lev_triangle(a1, b, c);
            lemma_lev_triangle(a, b1, c);
            lemma_lev_triangle(a1, b1, c1);
            assert(lev(b, c) == lev(b1, c1));
            assert(lev(a, b) == 1 + min3(lev(a1, b), lev(a, b1), lev(a1, b1)));
            assert(lev(a, c) <= 1 + lev(a1, c) <= 1 + lev(a1, b) + lev(b, c));
            assert(lev(a, c) <= lev(a, b1) + lev(b1, c) <= lev(a, b1) + 1 + lev(b, c));
            if x == z {
                assert(lev(a, c) == lev(a1, c1));
                assert(lev(a, c) <= lev(a1, b1) + lev(b1, c1));
            } else {
                assert(lev(a, c) == 1 + min3(lev(a1, c), lev(a, c1), lev(a1, c1)));
                assert(lev(a, c) <= 1 + lev(a1, c1) <= 1 + lev(a1, b1) + lev(b1, c1));
            }
        } else {
            // Neither end matches; bound lev(a, c) against each branch of
            // the minimum inside lev(b, c), paying one edit to reach b1.
            lemma_lev_adjacent(a, b);
            lemma_lev_triangle(a, b1, c);
            lemma_lev_triangle(a, b, c1);
            assert(lev(b, c) == 1 + min3(lev(b1, c), lev(b, c1), lev(b1, c1)));
            assert(lev(a, b1) <= 1 + lev(a, b));
            assert(lev(a, c) <= lev(a, b1) + lev(b1, c) <= 1 + lev(a, b) + lev(b1, c));
            assert(lev(a, c) <= 1 + lev(a, c1) <= 1 + lev(a, b) + lev(b, c1));
            lemma_lev_triangle(a1, b1, c1);
            lemma_lev_diag(a, b);
            assert(lev(a1, c1) <= lev(a1, b1) + lev(b1, c1) <= lev(a, b) + lev(b1, c1));
            if x == z {
                assert(lev(a, c) == lev(a1, c1));
            } else {
                assert(lev(a, c) == 1 + min3(lev(a1, c), lev(a, c1), lev(a1, c1)));
                assert(lev(a, c) <= 1 + lev(a1, c1));
            }
        }
    }
}

/// Turn a string slice into the vector of its characters.
pub fn chars_of(s: &str) -> (v: Vec<char>)
    ensures
        v@ == s@,
{
    let n: usize = s.unicode_len();
    let mut v: Vec<char> = Vec::new();
    let mut i: usize = 0;
    while i < n
        invariant
            n == s@.len(),
            i <= n,
            v@ == s@.take(i as int),
        decreases n - i,
    {
        let c: char = s.get_char(i);
        v.push(c);
        proof {
            assert(s@.take(i as int).push(s@[i as int]) =~= s@.take(i + 1 as int));
        }
        i = i + 1;
    }
    proof {
        assert(s@.take(n as int) =~= s@);
    }
    v
}

/// Edit distance between `a` and `b`, computed with a bottom-up
/// dynamic-programming table holding one row of prefix distances at a time.
pub fn edit_distance(a: &str, b: &str) -> (d: usize)
    ensures
        d == lev(a@, b@),
{
    let av: Vec<char> = chars_of(a);
    let bv: Vec<char> = chars_of(b);
    let n: usize = av.len();
    let m: usize = bv.len();

    // Row for the empty prefix of `a`: distance to `b`'s prefixes is their length.
    let mut prev: Vec<usize> = Vec::new();
    prev.push(0);
    let mut j: usize = 0;
    while j < m
        invariant
            j <= m,
            prev@.len() == j + 1,
            forall|k: int| 0 <= k <= j ==> prev@[k] == k,
        decreases m - j,
    {
        j = j + 1;
        prev.push(j);
    }
    proof {
        assert forall|k: int| 0 <= k <= m implies prev@[k] == lev(a@.take(0), b@.take(k)) by {
            assert(a@.take(0).len() == 0);
            assert(b@.take(k).len() == k);
        }
    }

    let mut i: usize = 0;
    while i < n
        invariant
            i <= n,
            n == a@.len(),
            m == b@.len(),
            av@ == a@,
            bv@ == b@,
            prev@.len() == m + 1,
            forall|k: int| 0 <= k <= m ==> prev@[k] == lev(a@.take(i as int), b@.take(k)),
        decreases n - i,
    {
        i = i + 1;
        let mut curr: Vec<usize> = Vec::new();
        curr.push(i);
        proof {
            assert(b@.take(0).len() == 0);
            assert(a@.take(i as int).len() == i);
        }
        let mut j: usize = 0;
        while j < m
            invariant
                j <= m,
                1 <= i <= n,
                n == a@.len(),
                m == b@.len(),
                av@ == a@,
                bv@ == b@,
                prev@.len() == m + 1,
                forall|k: int| 0 <= k <= m ==> prev@[k] == lev(a@.take(i - 1), b@.take(k)),
                curr@.len() == j + 1,
                forall|k: int| 0 <= k <= j ==> curr@[k] == lev(a@.take(i as int), b@.take(k)),
            decreases m - j,
        {
            j = j + 1;
            proof {
                assert(a@.take(i as int).last() == a@[i - 1]);
                assert(a@.take(i as int).drop_last() =~= a@.take(i - 1));
                assert(b@.take(j as int).last() == b@[j - 1]);
                assert(b@.take(j as int).drop_last() =~= b@.take(j - 1));
            }
            let e: usize;
            if av[i - 1] == bv[j - 1] {
                e = prev[j - 1];
            } else {
                let x: usize = prev[j];
                let y: usize = curr[j - 1];
                let z: usize = prev[j - 1];
                let w: usize = if x <= y && x <= z {
                    x
                } else if y <= z {
                    y
                } else {
                    z
                };
                proof {
                    lemma_lev_le_max(a@.take(i - 1), b@.take(j - 1));
                }
                e = 1 + w;
            }
            curr.push(e);
        }
        prev = curr;
    }
    proof {
        assert(a@.take(n as int) =~= a@);
        assert(b@.take(m as int) =~= b@);
    }
    prev[m]
}

} // verus!

