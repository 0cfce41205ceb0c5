//! Candidate selection: which vocabulary words are offered for an unknown
//! query word.
//!
//! A key qualifies when it is within edit distance one of the query or
//! continues the query as a literal prefix. All qualifying keys are
//! collected, sorted lexicographically, and the first `limit` of them are
//! returned, so the result is independent of the vocabulary's internal
//! order.

use vstd::prelude::*;

use crate::distance::edit_distance;
use crate::distance::lev;
use crate::order::is_prefix;
use crate::order::lemma_lex_le_antisymmetric;
use crate::order::lemma_lex_le_reflexive;
use crate::order::lemma_lex_le_total;
use crate::order::lemma_lex_le_transitive;
use crate::order::lex_le;
use crate::order::lex_lt;
use crate::order::str_le;
use crate::order::str_starts_with;
use crate::vocab::Vocabulary;

verus! {

/// A key qualifies as a suggestion for query `w` when it is close in edit
/// distance or starts with `w`.
pub open spec fn matches_query(k: Seq<char>, w: Seq<char>) -> bool {
    lev(k, w) <= 1 || is_prefix(w, k)
}

/// A candidate is a vocabulary key that qualifies for the query.
pub open spec fn is_candidate(keys: Set<Seq<char>>, w: Seq<char>, k: Seq<char>) -> bool {
    keys.contains(k) && matches_query(k, w)
}

/// The character sequences of a sequence of strings.
pub open spec fn views_of(s: Seq<String>) -> Seq<Seq<char>> {
    s.map_values(|x: String| x@)
}

/// What `suggest_words` returns: the `limit` lexicographically smallest
/// candidates, in strictly ascending order. These clauses pin the sequence
/// down uniquely (see `lemma_suggestion_list_unique`).
pub open spec fn is_suggestion_list(
    keys: Set<Seq<char>>,
    w: Seq<char>,
    limit: nat,
    r: Seq<Seq<char>>,
) -> bool {
    &&& r.len() <= limit
    &&& (forall|p: int, q: int| 0 <= p < q < r.len() ==> lex_lt(#[trigger] r[p], #[trigger] r[q]))
    &&& (forall|p: int| 0 <= p < r.len() ==> is_candidate(keys, w, #[trigger] r[p]))
    &&& (r.len() < limit ==> (forall|k: Seq<char>| #[trigger] is_candidate(keys, w, k)
            ==> r.contains(k)))
    &&& (forall|k: Seq<char>| #[trigger] is_candidate(keys, w, k) && !r.contains(k)
            ==> (forall|p: int| 0 <= p < r.len() ==> lex_lt(#[trigger] r[p], k)))
}

/// A strictly ascending sequence has no duplicates.
proof fn lemma_strict_sorted_no_duplicates(r: Seq<Seq<char>>)
    requires
        forall|p: int, q: int| 0 <= p < q < r.len() ==> lex_lt(#[trigger] r[p], #[trigger] r[q]),
    ensures
        r.no_duplicates(),
{
    assert forall|p: int, q: int|
        0 <= p < r.len() && 0 <= q < r.len() && p != q implies r[p] != r[q] by {
        if p < q {
            assert(lex_lt(r[p], r[q]));
        } else {
            assert(lex_lt(r[q], r[p]));
        }
    }
}

/// Two strictly ascending sequences over the same set of elements are the
/// same sequence.
proof fn lemma_strict_sorted_same_elements(r1: Seq<Seq<char>>, r2: Seq<Seq<char>>)
    requires
        forall|p: int, q: int| 0 <= p < q < r1.len()
            ==> lex_lt(#[trigger] r1[p], #[trigger] r1[q]),
        forall|p: int, q: int| 0 <= p < q < r2.len()
            ==> lex_lt(#[trigger] r2[p], #[trigger] r2[q]),
        forall|x: Seq<char>|
            #![trigger r1.contains(x)]
            #![trigger r2.contains(x)]
            r1.contains(x) <==> r2.contains(x),
    ensures
        r1 == r2,
    decreases r1.len(),
{
    if r1.len() == 0 {
        if r2.len() > 0 {
            assert(r2.contains(r2[0]));
        }
        assert(r1 =~= r2);
    } else {
        assert(r2.len() > 0) by {
            assert(r1.contains(r1[0]));
            if r2.len() == 0 {
                let j = choose|j: int| 0 <= j < r2.len() && r2[j] == r1[0];
            }
        }
        // The heads are both the minimum of the shared element set.
        assert(r1[0] == r2[0]) by {
            assert(r1.contains(r1[0]));
            let j = choose|j: int| 0 <= j < r2.len() && r2[j] == r1[0];
            assert(r2.contains(r2[0]));
            let i = choose|i: int| 0 <= i < r1.len() && r1[i] == r2[0];
            if j > 0 {
                assert(lex_lt(r2[0], r2[j]));
                if i == 0 {
                    assert(r2[j] == r2[0]);
                    assert(lex_lt(r2[0], r2[0]));
                } else {
                    assert(lex_lt(r1[0], r1[i]));
                    lemma_lex_le_antisymmetric(r1[0], r2[0]);
                }
            }
        }
        let t1 = r1.drop_first();
        let t2 = r2.drop_first();
        assert forall|p: int, q: int| 0 <= p < q < t1.len() implies
            lex_lt(#[trigger] t1[p], #[trigger] t1[q]) by {
            assert(lex_lt(r1[p + 1], r1[q + 1]));
        }
        assert forall|p: int, q: int| 0 <= p < q < t2.len() implies
            lex_lt(#[trigger] t2[p], #[trigger] t2[q]) by {
            assert(lex_lt(r2[p + 1], r2[q + 1]));
        }
        assert forall|x: Seq<char>| #[trigger] t1.contains(x) implies t2.contains(x) by {
            let p = choose|p: int| 0 <= p < t1.len() && t1[p] == x;
            assert(r1[p + 1] == x);
            assert(r1.contains(x));
            assert(lex_lt(r1[0], r1[p + 1]));
            let q = choose|q: int| 0 <= q < r2.len() && r2[q] == x;
            assert(q != 0);
            assert(t2[q - 1] == x);
        }
        assert forall|x: Seq<char>| #[trigger] t2.contains(x) implies t1.contains(x) by {
            let p = choose|p: int| 0 <= p < t2.len() && t2[p] == x;
            assert(r2[p + 1] == x);
            assert(r2.contains(x));
            assert(lex_lt(r2[0], r2[p + 1]));
            let q = choose|q: int| 0 <= q < r1.len() && r1[q] == x;
            assert(q != 0);
            assert(t1[q - 1] == x);
        }
        lemma_strict_sorted_same_elements(t1, t2);
        assert(r1 =~= r2) by {
            assert(t1.len() == t2.len());
            assert forall|p: int| 0 <= p < r1.len() implies r1[p] == r2[p] by {
                if p > 0 {
                    assert(t1[p - 1] == t2[p - 1]);
                }
            }
        }
    }
}

/// The contract of `suggest_words` determines its result uniquely: two
/// sequences that both satisfy it for the same query, limit and vocabulary
/// keys are equal. Calling `suggest_words` twice on identical inputs
/// therefore yields the same candidate list.
pub proof fn lemma_suggestion_list_unique(
    keys: Set<Seq<char>>,
    w: Seq<char>,
    limit: nat,
    r1: Seq<Seq<char>>,
    r2: Seq<Seq<char>>,
)
    requires
        is_suggestion_list(keys, w, limit, r1),
        is_suggestion_list(keys, w, limit, r2),
    ensures
        r1 == r2,
{
    lemma_suggestion_list_subset(keys, w, limit, r1, r2);
    lemma_suggestion_list_subset(keys, w, limit, r2, r1);
    lemma_strict_sorted_same_elements(r1, r2);
}

/// One direction of uniqueness: every element of one valid suggestion list
/// appears in the other.
proof fn lemma_suggestion_list_subset(
    keys: Set<Seq<char>>,
    w: Seq<char>,
    limit: nat,
    r1: Seq<Seq<char>>,
    r2: Seq<Seq<char>>,
)
    requires
        is_suggestion_list(keys, w, limit, r1),
        is_suggestion_list(keys, w, limit, r2),
    ensures
        forall|x: Seq<char>| #[trigger] r1.contains(x) ==> r2.contains(x),
{
    broadcast use vstd::seq_lib::seq_to_set_is_finite;

    lemma_strict_sorted_no_duplicates(r1);
    lemma_strict_sorted_no_duplicates(r2);
    assert forall|x: Seq<char>| #[trigger] r1.contains(x) implies r2.contains(x) by {
        if !r2.contains(x) {
            let px = choose|p: int| 0 <= p < r1.len() && r1[p] == x;
            assert(is_candidate(keys, w, x));
            if exists|y: Seq<char>| #[trigger] r2.contains(y) && !r1.contains(y) {
                let y = choose|y: Seq<char>| #[trigger] r2.contains(y) && !r1.contains(y);
                let py = choose|p: int| 0 <= p < r2.len() && r2[p] == y;
                assert(is_candidate(keys, w, y));
                // Everything in r1 sorts strictly before y and everything
                // in r2 strictly before x: so x < y and y < x.
                assert(lex_lt(x, y));
                assert(lex_lt(y, x));
                lemma_lex_le_antisymmetric(x, y);
            } else {
                // r2's elements all lie in r1's element set without x, so
                // r2 is shorter than the limit and must hold every
                // candidate, x included.
                assert(forall|y: Seq<char>| #[trigger] r2.contains(y) ==> r1.contains(y));
                assert(r2.to_set().subset_of(r1.to_set().remove(x)));
                r1.unique_seq_to_set();
                r2.unique_seq_to_set();
                vstd::set_lib::lemma_len_subset(r2.to_set(), r1.to_set().remove(x));
                assert(r1.to_set().contains(x));
                assert(r1.to_set().remove(x).len() == r1.to_set().len() - 1);
                assert(r2.len() < r1.len() <= limit);
            }
        }
    }
}

/// An element of a shorter prefix is an element of a longer one.
proof fn lemma_take_contains(s: Seq<Seq<char>>, i: int, j: int, x: Seq<char>)
    requires
        0 <= i <= j <= s.len(),
        s.take(i).contains(x),
    ensures
        s.take(j).contains(x),
{
    let p = choose|p: int| 0 <= p < i && s.take(i)[p] == x;
    assert(s.take(j)[p] == x);
}

/// Sort strings into lexicographically ascending order by repeatedly
/// extracting the smallest remaining one.
fn sort_strings(v: Vec<String>) -> (r: Vec<String>)
    ensures
        views_of(r@).to_multiset() == views_of(v@).to_multiset(),
        forall|p: int, q: int| 0 <= p < q < r@.len()
            ==> lex_le(#[trigger] views_of(r@)[p], #[trigger] views_of(r@)[q]),
{
    broadcast use vstd::seq_lib::group_to_multiset_ensures;

    let mut src = v;
    let mut out: Vec<String> = Vec::new();
    proof {
        assert(views_of(out@).to_multiset().add(views_of(src@).to_multiset())
            =~= views_of(v@).to_multiset());
    }
    while src.len() > 0
        invariant
            views_of(out@).to_multiset().add(views_of(src@).to_multiset())
                == views_of(v@).to_multiset(),
            forall|p: int, q: int| 0 <= p < q < out@.len()
                ==> lex_le(#[trigger] views_of(out@)[p], #[trigger] views_of(out@)[q]),
            forall|p: int, q: int| 0 <= p < out@.len() && 0 <= q < src@.len()
                ==> lex_le(#[trigger] views_of(out@)[p], #[trigger] views_of(src@)[q]),
        decreases src@.len(),
    {
        broadcast use vstd::seq_lib::group_to_multiset_ensures;

        let mut best: usize = 0;
        let mut t: usize = 1;
        proof {
            lemma_lex_le_reflexive(views_of(src@)[0]);
        }
        while t < src.len()
            invariant
                src@.len() > 0,
                best < t,
                t <= src@.len(),
                forall|q: int| 0 <= q < t
                    ==> lex_le(views_of(src@)[best as int], #[trigger] views_of(src@)[q]),
            decreases src@.len() - t,
        {
            if str_le(src[t].as_str(), src[best].as_str()) {
                proof {
                    assert forall|q: int| 0 <= q < t + 1 implies
                        lex_le(views_of(src@)[t as int], views_of(src@)[q]) by {
                        if q == t {
                            lemma_lex_le_reflexive(views_of(src@)[t as int]);
                        } else {
                            lemma_lex_le_transitive(
                                views_of(src@)[t as int],
                                views_of(src@)[best as int],
                                views_of(src@)[q],
                            );
                        }
                    }
                }
                best = t;
            } else {
                proof {
                    lemma_lex_le_total(views_of(src@)[t as int], views_of(src@)[best as int]);
                }
            }
            t = t + 1;
        }
        let ghost old_src = src@;
        let ghost old_out = out@;
        let m = src.remove(best);
        out.push(m);
        proof {
            assert(views_of(src@) =~= views_of(old_src).remove(best as int));
            assert(views_of(out@) =~= views_of(old_out).push(m@));
            assert(views_of(old_src)[best as int] == m@);
            assert(views_of(old_src).remove(best as int).to_multiset()
                == views_of(old_src).to_multiset().remove(m@));
            assert(views_of(out@).to_multiset()
                == views_of(old_out).to_multiset().insert(m@));
            assert(views_of(out@).to_multiset().add(views_of(src@).to_multiset())
                =~= views_of(old_out).to_multiset().add(views_of(old_src).to_multiset()));
            // Every element left in src is one of the old elements, hence >= m.
            assert forall|p: int, q: int|
                0 <= p < out@.len() && 0 <= q < src@.len() implies
                lex_le(views_of(out@)[p], views_of(src@)[q]) by {
                let sv = if q < best as int {
                    views_of(old_src)[q]
                } else {
                    views_of(old_src)[q + 1]
                };
                assert(views_of(src@)[q] == sv);
                if p < old_out.len() {
                    assert(lex_le(views_of(old_out)[p], sv));
                } else {
                    assert(views_of(out@)[p] == m@);
                    assert(lex_le(m@, sv));
                }
            }
            assert forall|p: int, q: int| 0 <= p < q < out@.len() implies
                lex_le(views_of(out@)[p], views_of(out@)[q]) by {
                if q == out@.len() - 1 {
                    assert(lex_le(views_of(old_out)[p], views_of(old_src)[best as int]));
                }
            }
        }
    }
    out
}

/// Suggest up to `limit` vocabulary words for an unknown query `word`:
/// the lexicographically smallest qualifying keys, in ascending order.
pub fn suggest_words(word: &str, limit: usize, records: &Vocabulary) -> (r: Vec<String>)
    requires
        records.wf(),
    ensures
        r@.len() <= limit,
        is_suggestion_list(records@.dom(), word@, limit as nat, views_of(r@)),
{
    broadcast use vstd::seq_lib::group_to_multiset_ensures;

    let n: usize = records.len();
    let mut found: Vec<String> = Vec::new();
    let mut i: usize = 0;
    while i < n
        invariant
            records.wf(),
            n == records.words().len(),
            i <= n,
            forall|p: int| 0 <= p < found@.len()
                ==> records.words().take(i as int).contains(#[trigger] views_of(found@)[p])
                    && matches_query(views_of(found@)[p], word@),
            forall|j: int| 0 <= j < i && matches_query(#[trigger] records.words()[j], word@)
                ==> views_of(found@).contains(records.words()[j]),
            views_of(found@).no_duplicates(),
        decreases n - i,
    {
        let ghost words = records.words();
        let k: &String = records.word_at(i);
        let d: usize = edit_distance(k.as_str(), word);
        let keep: bool = if d <= 1 {
            true
        } else {
            str_starts_with(k.as_str(), word)
        };
        if keep {
            let ghost old_found = found@;
            found.push(k.clone());
            proof {
                records.lemma_wf_no_duplicates();
                assert(views_of(found@) =~= views_of(old_found).push(words[i as int]));
                // The word just pushed was not collected before: it only
                // occurs at index i, and everything collected so far came
                // from the prefix before i.
                assert(!views_of(old_found).contains(words[i as int])) by {
                    if views_of(old_found).contains(words[i as int]) {
                        let p = choose|p: int|
                            0 <= p < views_of(old_found).len()
                                && views_of(old_found)[p] == words[i as int];
                        assert(words.take(i as int).contains(words[i as int]));
                        let j = choose|j: int|
                            0 <= j < i && words.take(i as int)[j] == words[i as int];
                        assert(words[j] == words[i as int]);
                    }
                }
                assert(views_of(found@).no_duplicates());
                assert forall|p: int| 0 <= p < found@.len() implies
                    words.take(i + 1).contains(views_of(found@)[p])
                        && matches_query(views_of(found@)[p], word@) by {
                    if p < old_found.len() {
                        lemma_take_contains(words, i as int, i + 1, views_of(old_found)[p]);
                    } else {
                        assert(views_of(found@)[p] == words[i as int]);
                        assert(words.take(i + 1)[i as int] == words[i as int]);
                    }
                }
                assert forall|j: int| 0 <= j < i + 1 && matches_query(words[j], word@) implies
                    views_of(found@).contains(words[j]) by {
                    if j < i {
                        let p = choose|p: int|
                            0 <= p < views_of(old_found).len()
                                && views_of(old_found)[p] == words[j];
                        assert(views_of(found@)[p] == words[j]);
                    } else {
                        assert(views_of(found@)[found@.len() - 1] == words[i as int]);
                    }
                }
            }
        } else {
            proof {
                assert(lev(k@, word@) == d);
                assert(!matches_query(words[i as int], word@));
            }
        }
        i = i + 1;
    }
    proof {
        assert(records.words().take(n as int) =~= records.words());
    }

    let mut sorted = sort_strings(found);
    let ghost full = views_of(sorted@);
    let ghost fnd = views_of(found@);
    proof {
        records.lemma_dom_words();
        records.lemma_wf_no_duplicates();
        // Sorting preserved the elements and their distinctness.
        assert forall|x: Seq<char>| #[trigger] full.contains(x) implies fnd.contains(x) by {
            assert(full.to_multiset().count(x) > 0);
            assert(fnd.to_multiset().count(x) > 0);
        }
        assert forall|x: Seq<char>| #[trigger] fnd.contains(x) implies full.contains(x) by {
            assert(fnd.to_multiset().count(x) > 0);
            assert(full.to_multiset().count(x) > 0);
        }
        fnd.lemma_multiset_has_no_duplicates();
        full.lemma_multiset_has_no_duplicates_conv();
        assert(full.no_duplicates());
        // Non-strict order plus distinctness gives strict order.
        assert(forall|p: int, q: int| 0 <= p < q < full.len()
            ==> lex_lt(#[trigger] full[p], #[trigger] full[q]));
    }
    if sorted.len() > limit {
        sorted.truncate(limit);
        proof {
            assert(views_of(sorted@) =~= full.take(limit as int));
        }
    }
    let ghost res = views_of(sorted@);
    proof {
        let keys = records@.dom();
        let w = word@;
        let lim = limit as nat;
        // The result is a prefix of the sorted candidate sequence.
        assert(res.len() <= lim);
        assert(forall|p: int| 0 <= p < res.len() ==> res[p] == full[p]);
        assert forall|p: int| 0 <= p < res.len() implies is_candidate(keys, w, res[p]) by {
            assert(full.contains(full[p]));
            let t = choose|t: int| 0 <= t < fnd.len() && fnd[t] == full[p];
            assert(records.words().contains(fnd[t]));
            assert(records.words().to_set().contains(fnd[t]));
        }
        // Every candidate was collected, hence appears in the sorted list.
        assert forall|k: Seq<char>| #[trigger] is_candidate(keys, w, k) implies
            full.contains(k) by {
            assert(records.words().to_set().contains(k));
            let j = choose|j: int|
                0 <= j < records.words().len() && records.words()[j] == k;
            assert(fnd.contains(k));
        }
        assert forall|k: Seq<char>| res.len() < lim && #[trigger] is_candidate(keys, w, k)
            implies res.contains(k) by {
            // No truncation happened, so the result is the whole list.
            assert(res =~= full);
        }
        assert forall|k: Seq<char>| #[trigger] is_candidate(keys, w, k) && !res.contains(k)
            implies forall|p: int| 0 <= p < res.len() ==> lex_lt(#[trigger] res[p], k) by {
            let q = choose|q: int| 0 <= q < full.len() && full[q] == k;
            assert(q >= res.len()) by {
                if q < res.len() {
                    assert(res[q] == k);
                }
            }
            assert forall|p: int| 0 <= p < res.len() implies lex_lt(res[p], k) by {
                assert(lex_lt(full[p], full[q]));
            }
        }
        assert(is_suggestion_list(keys, w, lim, res));
    }
    sorted
}

} // verus!
