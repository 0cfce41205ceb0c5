//! The vocabulary: a read-only mapping from a normalized word to its
//! dictionary entry, with unique keys. The suggestion selector scans its
//! words; the surrounding service builds it once per load and looks entries
//! up by exact word.

use vstd::prelude::*;

use crate::order::str_eq;

verus! {

/// One dictionary entry. The word is the unique, case-normalized key; the
/// remaining fields are carried through unchanged.
#[derive(Clone, Debug)]
pub struct Record {
    pub rank: usize,
    pub word: String,
    pub pro: String,
    pub pos: String,
    pub tag: String,
    pub definition: String,
}

/// The mapping that a sequence of records denotes: later records would win,
/// but the vocabulary never holds two records with the same word.
pub closed spec fn map_of(s: Seq<Record>) -> Map<Seq<char>, Record>
    decreases s.len(),
{
    if s.len() == 0 {
        Map::empty()
    } else {
        map_of(s.drop_last()).insert(s.last().word@, s.last())
    }
}

/// A read-only snapshot of the dictionary: records with pairwise distinct
/// words. Viewed as a map from word to record.
pub struct Vocabulary {
    entries: Vec<Record>,
}

impl View for Vocabulary {
    type V = Map<Seq<char>, Record>;

    closed spec fn view(&self) -> Map<Seq<char>, Record> {
        map_of(self.entries@)
    }
}

impl Vocabulary {
    /// The words of the stored records, in insertion order.
    pub closed spec fn words(self) -> Seq<Seq<char>> {
        self.entries@.map_values(|r: Record| r.word@)
    }

    /// Well-formed: no two records share a word.
    pub closed spec fn wf(self) -> bool {
        self.words().no_duplicates()
    }

    /// A well-formed vocabulary has pairwise distinct words.
    pub proof fn lemma_wf_no_duplicates(&self)
        requires
            self.wf(),
        ensures
            self.words().no_duplicates(),
    {
    }

    /// The map's domain is exactly the set of stored words.
    pub proof fn lemma_dom_words(&self)
        ensures
            self@.dom() == self.words().to_set(),
    {
        lemma_map_of_dom(self.entries@);
        assert(self.entries@.map_values(|r: Record| r.word@) == self.words());
    }

    /// Each stored word is mapped to its own record.
    proof fn lemma_word_maps_to_record(&self, i: int)
        requires
            self.wf(),
            0 <= i < self.words().len(),
        ensures
            self@.dom().contains(self.words()[i]),
            self@[self.words()[i]] == self.entries@[i],
    {
        self.lemma_dom_words();
        lemma_map_of_get(self.entries@, i);
    }

    /// An empty vocabulary.
    pub fn new() -> (v: Vocabulary)
        ensures
            v.wf(),
            v@ == Map::<Seq<char>, Record>::empty(),
            v.words() == Seq::<Seq<char>>::empty(),
    {
        let v = Vocabulary { entries: Vec::new() };
        proof {
            assert(v.words() =~= Seq::<Seq<char>>::empty());
        }
        v
    }

    /// Number of stored records.
    pub fn len(&self) -> (n: usize)
        ensures
            n == self.words().len(),
    {
        self.entries.len()
    }

    /// The word of the record at position `i`.
    pub fn word_at(&self, i: usize) -> (w: &String)
        requires
            i < self.words().len(),
        ensures
            w@ == self.words()[i as int],
    {
        &self.entries[i].word
    }

    /// Does the vocabulary hold a record for `w`?
    pub fn contains_key(&self, w: &str) -> (r: bool)
        ensures
            r == self@.dom().contains(w@),
    {
        proof {
            self.lemma_dom_words();
        }
        let n: usize = self.entries.len();
        let mut i: usize = 0;
        while i < n
            invariant
                n == self.entries@.len(),
                i <= n,
                forall|k: int| 0 <= k < i ==> self.words()[k] != w@,
            decreases n - i,
        {
            if str_eq(self.entries[i].word.as_str(), w) {
                proof {
                    self.lemma_dom_words();
                    assert(self.words()[i as int] == w@);
                    assert(self.words().to_set().contains(w@));
                }
                return true;
            }
            i = i + 1;
        }
        proof {
            assert(!self.words().to_set().contains(w@)) by {
                if self.words().contains(w@) {
                    let k = choose|k: int|
                        0 <= k < self.words().len() && self.words()[k] == w@;
                    assert(self.words()[k] != w@);
                }
            }
        }
        false
    }

    /// Look up the record stored for `w`, if any.
    pub fn get(&self, w: &str) -> (r: Option<&Record>)
        requires
            self.wf(),
        ensures
            match r {
                Some(rec) => self@.dom().contains(w@) && *rec == self@[w@],
                None => !self@.dom().contains(w@),
            },
    {
        proof {
            self.lemma_dom_words();
        }
        let n: usize = self.entries.len();
        let mut i: usize = 0;
        while i < n
            invariant
                self.wf(),
                n == self.entries@.len(),
                i <= n,
                forall|k: int| 0 <= k < i ==> self.words()[k] != w@,
            decreases n - i,
        {
            if str_eq(self.entries[i].word.as_str(), w) {
                proof {
                    self.lemma_word_maps_to_record(i as int);
                }
                return Some(&self.entries[i]);
            }
            i = i + 1;
        }
        proof {
            assert(!self.words().to_set().contains(w@)) by {
                if self.words().contains(w@) {
                    let k = choose|k: int|
                        0 <= k < self.words().len() && self.words()[k] == w@;
                    assert(self.words()[k] != w@);
                }
            }
        }
        None
    }

    /// Add a record unless its word is already present: the first record
    /// loaded for a word wins. Returns whether the record was added.
    pub fn insert(&mut self, rec: Record) -> (added: bool)
        requires
            old(self).wf(),
        ensures
            final(self).wf(),
            added == !old(self)@.dom().contains(rec.word@),
            added ==> final(self)@ == old(self)@.insert(rec.word@, rec)
                && final(self).words() == old(self).words().push(rec.word@),
            !added ==> final(self)@ == old(self)@
                && final(self).words() == old(self).words(),
    {
        if self.contains_key(rec.word.as_str()) {
            return false;
        }
        proof {
            self.lemma_dom_words();
        }
        let ghost old_entries = self.entries@;
        let ghost w = rec.word@;
        self.entries.push(rec);
        proof {
            assert(self.entries@.drop_last() =~= old_entries);
            assert(self.words() =~= old(self).words().push(w));
            assert(!old(self).words().contains(w)) by {
                if old(self).words().contains(w) {
                    let k = choose|k: int|
                        0 <= k < old(self).words().len() && old(self).words()[k] == w;
                    assert(old(self).words().to_set().contains(w));
                }
            }
            assert(self.words().no_duplicates()) by {
                assert(forall|k: int|
                    0 <= k < old(self).words().len() ==> old(self).words()[k] != w);
            }
        }
        true
    }
}

/// The domain of the denoted map is the set of the records' words.
proof fn lemma_map_of_dom(s: Seq<Record>)
    ensures
        map_of(s).dom() == s.map_values(|r: Record| r.word@).to_set(),
    decreases s.len(),
{
    let words = s.map_values(|r: Record| r.word@);
    if s.len() == 0 {
        assert(map_of(s).dom() =~= words.to_set());
    } else {
        lemma_map_of_dom(s.drop_last());
        let words1 = s.drop_last().map_values(|r: Record| r.word@);
        assert(words1 =~= words.drop_last());
        assert(map_of(s).dom() =~= words.to_set()) by {
            assert forall|k: Seq<char>| map_of(s).dom().contains(k) implies
                words.to_set().contains(k) by {
                if k == s.last().word@ {
                    assert(words[s.len() - 1] == k);
                } else {
                    assert(words.drop_last().contains(k));
                    let j = choose|j: int|
                        0 <= j < words.drop_last().len() && words.drop_last()[j] == k;
                    assert(words[j] == k);
                }
            }
            assert forall|k: Seq<char>| words.to_set().contains(k) implies
                map_of(s).dom().contains(k) by {
                let j = choose|j: int| 0 <= j < words.len() && words[j] == k;
                if j < s.len() - 1 {
                    assert(words.drop_last()[j] == k);
                    assert(words.drop_last().to_set().contains(k));
                }
            }
        }
    }
}

/// With distinct words, the denoted map sends each word to its own record.
proof fn lemma_map_of_get(s: Seq<Record>, i: int)
    requires
        s.map_values(|r: Record| r.word@).no_duplicates(),
        0 <= i < s.len(),
    ensures
        map_of(s).dom().contains(s[i].word@),
        map_of(s)[s[i].word@] == s[i],
    decreases s.len(),
{
    let words = s.map_values(|r: Record| r.word@);
    if i == s.len() - 1 {
        assert(s.last() == s[i]);
    } else {
        let words1 = s.drop_last().map_values(|r: Record| r.word@);
        assert(words1 =~= words.drop_last());
        assert(words1.no_duplicates()) by {
            assert(forall|p: int, q: int|
                0 <= p < words1.len() && 0 <= q < words1.len() && p != q
                    ==> words[p] != words[q]);
        }
        lemma_map_of_get(s.drop_last(), i);
        assert(s.drop_last()[i] == s[i]);
        assert(words[i] != words[s.len() - 1]);
        assert(s[i].word@ != s.last().word@);
    }
}

} // verus!
