//! The word index: candidate words grouped by their feedback signature
//! against the fixed solution, and query resolution over it.
//!
//! The index keeps one entry per indexed word, in supply order, each
//! carrying the word's signature.  A signature's bucket is the ordered
//! sub-sequence of entries holding exactly that signature, so every word
//! lives in exactly one bucket.  Resolving a query pattern concatenates
//! the buckets of the pattern's expanded signatures, in expansion order.

use vstd::prelude::*;

use crate::expand::expand_query_pattern;
use crate::expand::expand_spec;
use crate::expand::lemma_expand_characterization;
use crate::expand::pattern_matches;
use crate::signature::calculate_pattern;
use crate::signature::signature_of;
use crate::states::PatternState;
use crate::states::QueryPatternState;

verus! {

/// One indexed word together with its feedback signature.
pub struct IndexEntry {
    /// The word's signature against the index's solution.
    pub signature: Vec<PatternState>,
    /// The indexed word.
    pub word: Vec<u8>,
}

/// All candidate words, keyed by their feedback signature against a
/// fixed solution.  Built once, then only read.
pub struct WordIndex {
    /// The solution every indexed word was compared against.
    pub solution: Vec<u8>,
    /// One entry per indexed word, in the order words were supplied.
    pub entries: Vec<IndexEntry>,
}

/// The ordered bucket of words whose signature is `sig`.
pub open spec fn bucket_view(entries: Seq<IndexEntry>, sig: Seq<PatternState>) -> Seq<Seq<u8>>
    decreases entries.len(),
{
    if entries.len() == 0 {
        Seq::empty()
    } else {
        bucket_view(entries.drop_last(), sig) + (if entries.last().signature@ == sig {
            seq![entries.last().word@]
        } else {
            Seq::empty()
        })
    }
}

/// The buckets of the given signatures, concatenated in order.
pub open spec fn concat_buckets(
    entries: Seq<IndexEntry>,
    sigs: Seq<Seq<PatternState>>,
) -> Seq<Seq<u8>>
    decreases sigs.len(),
{
    if sigs.len() == 0 {
        Seq::empty()
    } else {
        concat_buckets(entries, sigs.drop_last()) + bucket_view(entries, sigs.last())
    }
}

/// The words a query pattern resolves to: the buckets of its expanded
/// signatures, concatenated in expansion order.
pub open spec fn resolve_view(entries: Seq<IndexEntry>, q: Seq<QueryPatternState>) -> Seq<Seq<u8>> {
    concat_buckets(entries, expand_spec(q))
}

impl WordIndex {
    /// Every entry's signature is the genuine signature of its word
    /// against the solution, and every indexed word has the solution's
    /// length.
    pub open spec fn wf(self) -> bool {
        forall|k: int|
            0 <= k < self.entries@.len() ==> {
                &&& (#[trigger] self.entries@[k]).signature@ == signature_of(
                    self.entries@[k].word@,
                    self.solution@,
                )
                &&& self.entries@[k].word@.len() == self.solution@.len()
            }
    }

    /// The indexed words, in supply order.
    pub open spec fn words_view(self) -> Seq<Seq<u8>> {
        words_of(self.entries@)
    }
}

/// The words of a sequence of entries, in order.
pub open spec fn words_of(entries: Seq<IndexEntry>) -> Seq<Seq<u8>> {
    entries.map_values(|e: IndexEntry| e.word@)
}

/// Copies a word.
fn clone_bytes(v: &Vec<u8>) -> (r: Vec<u8>)
    ensures
        r@ == v@,
{
    let mut r: Vec<u8> = Vec::new();
    let mut i: usize = 0;
    while i < v.len()
        invariant
            i <= v@.len(),
            r@ =~= v@.take(i as int),
        decreases v@.len() - i,
    {
        r.push(v[i]);
        assert(r@ =~= v@.take(i as int + 1));
        i = i + 1;
    }
    assert(v@.take(v@.len() as int) =~= v@);
    r
}

/// Whether two signatures are equal position by position.
fn patterns_equal(a: &Vec<PatternState>, b: &Vec<PatternState>) -> (r: bool)
    ensures
        r == (a@ == b@),
{
    if a.len() != b.len() {
        assert(a@ != b@);
        return false;
    }
    let mut i: usize = 0;
    while i < a.len()
        invariant
            i <= a@.len(),
            a@.len() == b@.len(),
            forall|j: int| 0 <= j < i ==> a@[j] == b@[j],
        decreases a@.len() - i,
    {
        if a[i] != b[i] {
            return false;
        }
        i = i + 1;
    }
    assert(a@ =~= b@);
    true
}

/// Builds the index: computes every word's signature against the
/// solution and records the word under it, preserving supply order.
pub fn build_index(words: &Vec<Vec<u8>>, solution: &Vec<u8>) -> (index: WordIndex)
    requires
        forall|k: int| 0 <= k < words@.len() ==> (#[trigger] words@[k])@.len() == solution@.len(),
    ensures
        index.wf(),
        index.solution@ == solution@,
        index.entries@.len() == words@.len(),
        forall|k: int|
            0 <= k < words@.len() ==> (#[trigger] index.entries@[k]).word@ == words@[k]@,
{
    let solution_copy = clone_bytes(solution);
    let mut entries: Vec<IndexEntry> = Vec::new();
    let mut k: usize = 0;
    while k < words.len()
        invariant
            k <= words@.len(),
            entries@.len() == k,
            forall|a: int|
                0 <= a < k ==> {
                    &&& (#[trigger] entries@[a]).word@ == words@[a]@
                    &&& entries@[a].signature@ == signature_of(words@[a]@, solution@)
                    &&& entries@[a].word@.len() == solution@.len()
                },
        decreases words@.len() - k,
    {
        let word = clone_bytes(&words[k]);
        let sig = calculate_pattern(&word, solution);
        entries.push(IndexEntry { signature: sig, word });
        k = k + 1;
    }
    WordIndex { solution: solution_copy, entries }
}

impl WordIndex {
    /// Looks a signature up: the ordered bucket of indexed words sharing
    /// it, empty if no word produced it.  Never errors.
    pub fn lookup(&self, signature: &Vec<PatternState>) -> (words: Vec<Vec<u8>>)
        ensures
            words@.len() == bucket_view(self.entries@, signature@).len(),
            forall|a: int|
                0 <= a < words@.len() ==> (#[trigger] words@[a])@ == bucket_view(
                    self.entries@,
                    signature@,
                )[a],
    {
        let mut words: Vec<Vec<u8>> = Vec::new();
        let mut k: usize = 0;
        assert(bucket_view(self.entries@.take(0), signature@) =~= Seq::<Seq<u8>>::empty());
        while k < self.entries.len()
            invariant
                k <= self.entries@.len(),
                words@.len() == bucket_view(self.entries@.take(k as int), signature@).len(),
                forall|a: int|
                    0 <= a < words@.len() ==> (#[trigger] words@[a])@ == bucket_view(
                        self.entries@.take(k as int),
                        signature@,
                    )[a],
            decreases self.entries@.len() - k,
        {
            proof {
                let t = self.entries@.take(k as int + 1);
                assert(t.drop_last() =~= self.entries@.take(k as int));
                assert(t.last() == self.entries@[k as int]);
            }
            if patterns_equal(&self.entries[k].signature, signature) {
                let w = clone_bytes(&self.entries[k].word);
                words.push(w);
            }
            k = k + 1;
        }
        assert(self.entries@.take(self.entries@.len() as int) =~= self.entries@);
        words
    }
}

/// A query pattern whose length differs from the solution's, reported
/// rather than resolved.
#[derive(Clone, Copy, Debug, PartialEq, Eq, Structural)]
pub struct LengthMismatch {
    /// The solution's length.
    pub expected: usize,
    /// The query pattern's length.
    pub actual: usize,
}

/// Resolves a query pattern against the index: expands it and
/// concatenates the buckets of the expanded signatures in expansion
/// order.  A pattern of the wrong length is rejected, never resolved.
pub fn resolve(query: &Vec<QueryPatternState>, index: &WordIndex) -> (r: Result<
    Vec<Vec<u8>>,
    LengthMismatch,
>)
    ensures
        r is Ok <==> query@.len() == index.solution@.len(),
        r is Err ==> r.unwrap_err() == (LengthMismatch {
            expected: index.solution.len(),
            actual: query.len(),
        }),
        r is Ok ==> {
            &&& r.unwrap()@.len() == resolve_view(index.entries@, query@).len()
            &&& forall|a: int|
                0 <= a < r.unwrap()@.len() ==> (#[trigger] r.unwrap()@[a])@ == resolve_view(
                    index.entries@,
                    query@,
                )[a]
        },
{
    if query.len() != index.solution.len() {
        return Err(LengthMismatch { expected: index.solution.len(), actual: query.len() });
    }
    let sigs = expand_query_pattern(query);
    let ghost expansion = expand_spec(query@);
    let mut results: Vec<Vec<u8>> = Vec::new();
    let mut k: usize = 0;
    assert(concat_buckets(index.entries@, expansion.take(0)) =~= Seq::<Seq<u8>>::empty());
    while k < sigs.len()
        invariant
            k <= sigs@.len(),
            sigs@.len() == expansion.len(),
            forall|j: int| 0 <= j < sigs@.len() ==> (#[trigger] sigs@[j])@ == expansion[j],
            results@.len() == concat_buckets(index.entries@, expansion.take(k as int)).len(),
            forall|a: int|
                0 <= a < results@.len() ==> (#[trigger] results@[a])@ == concat_buckets(
                    index.entries@,
                    expansion.take(k as int),
                )[a],
        decreases sigs@.len() - k,
    {
        let mut bucket = index.lookup(&sigs[k]);
        proof {
            let t = expansion.take(k as int + 1);
            assert(t.drop_last() =~= expansion.take(k as int));
            assert(t.last() == expansion[k as int]);
        }
        results.append(&mut bucket);
        k = k + 1;
    }
    assert(expansion.take(expansion.len() as int) =~= expansion);
    Ok(results)
}

proof fn lemma_bucket_view_membership(entries: Seq<IndexEntry>, sig: Seq<PatternState>)
    ensures
        forall|w: Seq<u8>|
            bucket_view(entries, sig).contains(w) <==> (exists|k: int|
                0 <= k < entries.len() && (#[trigger] entries[k]).word@ == w
                    && entries[k].signature@ == sig),
    decreases entries.len(),
{
    if entries.len() > 0 {
        let head = bucket_view(entries.drop_last(), sig);
        lemma_bucket_view_membership(entries.drop_last(), sig);
        assert forall|w: Seq<u8>|
            bucket_view(entries, sig).contains(w) <==> (exists|k: int|
                0 <= k < entries.len() && (#[trigger] entries[k]).word@ == w
                    && entries[k].signature@ == sig) by {
            if bucket_view(entries, sig).contains(w) {
                let a = choose|a: int|
                    0 <= a < bucket_view(entries, sig).len() && bucket_view(entries, sig)[a] == w;
                if a < head.len() {
                    assert(head[a] == w);
                    assert(head.contains(w));
                    let k = choose|k: int|
                        0 <= k < entries.drop_last().len() && (#[trigger] entries.drop_last()[k]).word@
                            == w && entries.drop_last()[k].signature@ == sig;
                    assert(entries[k] == entries.drop_last()[k]);
                } else {
                    assert(entries.last().signature@ == sig && entries.last().word@ == w);
                    assert(entries[entries.len() - 1] == entries.last());
                }
            }
            if exists|k: int|
                0 <= k < entries.len() && (#[trigger] entries[k]).word@ == w
                    && entries[k].signature@ == sig {
                let k = choose|k: int|
                    0 <= k < entries.len() && (#[trigger] entries[k]).word@ == w
                        && entries[k].signature@ == sig;
                if k < entries.len() - 1 {
                    assert(entries.drop_last()[k] == entries[k]);
                    assert(head.contains(w));
                    let a = choose|a: int| 0 <= a < head.len() && head[a] == w;
                    assert(bucket_view(entries, sig)[a] == w);
                } else {
                    assert(bucket_view(entries, sig)[bucket_view(entries, sig).len() - 1] == w);
                }
                assert(bucket_view(entries, sig).contains(w));
            }
        }
    }
}

proof fn lemma_concat_buckets_membership(entries: Seq<IndexEntry>, sigs: Seq<Seq<PatternState>>)
    ensures
        forall|w: Seq<u8>|
            concat_buckets(entries, sigs).contains(w) <==> (exists|j: int|
                0 <= j < sigs.len() && bucket_view(entries, #[trigger] sigs[j]).contains(w)),
    decreases sigs.len(),
{
    if sigs.len() > 0 {
        let head = concat_buckets(entries, sigs.drop_last());
        let tail = bucket_view(entries, sigs.last());
        lemma_concat_buckets_membership(entries, sigs.drop_last());
        assert forall|w: Seq<u8>|
            concat_buckets(entries, sigs).contains(w) <==> (exists|j: int|
                0 <= j < sigs.len() && bucket_view(entries, #[trigger] sigs[j]).contains(w)) by {
            if concat_buckets(entries, sigs).contains(w) {
                let a = choose|a: int|
                    0 <= a < concat_buckets(entries, sigs).len() && concat_buckets(entries, sigs)[a]
                        == w;
                if a < head.len() {
                    assert(head[a] == w);
                    assert(head.contains(w));
                    let j = choose|j: int|
                        0 <= j < sigs.drop_last().len() && bucket_view(
                            entries,
                            #[trigger] sigs.drop_last()[j],
                        ).contains(w);
                    assert(sigs[j] == sigs.drop_last()[j]);
                } else {
                    assert(tail[a - head.len()] == w);
                    assert(tail.contains(w));
                    assert(sigs[sigs.len() - 1] == sigs.last());
                }
            }
            if exists|j: int|
                0 <= j < sigs.len() && bucket_view(entries, #[trigger] sigs[j]).contains(w) {
                let j = choose|j: int|
                    0 <= j < sigs.len() && bucket_view(entries, #[trigger] sigs[j]).contains(w);
                if j < sigs.len() - 1 {
                    assert(sigs.drop_last()[j] == sigs[j]);
                    assert(head.contains(w));
                    let a = choose|a: int| 0 <= a < head.len() && head[a] == w;
                    assert(concat_buckets(entries, sigs)[a] == w);
                } else {
                    let a = choose|a: int| 0 <= a < tail.len() && tail[a] == w;
                    assert(concat_buckets(entries, sigs)[head.len() + a] == w);
                }
                assert(concat_buckets(entries, sigs).contains(w));
            }
        }
    }
}

proof fn lemma_bucket_view_distinct(entries: Seq<IndexEntry>, sig: Seq<PatternState>)
    requires
        words_of(entries).no_duplicates(),
    ensures
        bucket_view(entries, sig).no_duplicates(),
    decreases entries.len(),
{
    if entries.len() > 0 {
        let head = bucket_view(entries.drop_last(), sig);
        assert(words_of(entries.drop_last()) =~= words_of(entries).drop_last());
        assert(words_of(entries).drop_last().no_duplicates());
        lemma_bucket_view_distinct(entries.drop_last(), sig);
        if entries.last().signature@ == sig {
            if head.contains(entries.last().word@) {
                lemma_bucket_view_membership(entries.drop_last(), sig);
                let k = choose|k: int|
                    0 <= k < entries.drop_last().len() && (#[trigger] entries.drop_last()[k]).word@
                        == entries.last().word@ && entries.drop_last()[k].signature@ == sig;
                assert(words_of(entries)[k] == entries.last().word@);
                assert(words_of(entries)[entries.len() - 1] == entries.last().word@);
            }
            assert forall|a: int, b: int|
                0 <= a < b < bucket_view(entries, sig).len() implies bucket_view(entries, sig)[a]
                != bucket_view(entries, sig)[b] by {
                if b < head.len() {
                    assert(bucket_view(entries, sig)[a] == head[a]);
                    assert(bucket_view(entries, sig)[b] == head[b]);
                } else {
                    assert(bucket_view(entries, sig)[a] == head[a]);
                    assert(bucket_view(entries, sig)[b] == entries.last().word@);
                    assert(head.contains(head[a]));
                }
            }
        }
    }
}

proof fn lemma_concat_buckets_distinct(entries: Seq<IndexEntry>, sigs: Seq<Seq<PatternState>>)
    requires
        words_of(entries).no_duplicates(),
        sigs.no_duplicates(),
    ensures
        concat_buckets(entries, sigs).no_duplicates(),
    decreases sigs.len(),
{
    if sigs.len() > 0 {
        let head = concat_buckets(entries, sigs.drop_last());
        let tail = bucket_view(entries, sigs.last());
        assert(sigs.drop_last().no_duplicates());
        lemma_concat_buckets_distinct(entries, sigs.drop_last());
        lemma_bucket_view_distinct(entries, sigs.last());
        lemma_concat_buckets_membership(entries, sigs.drop_last());
        assert forall|a: int, b: int|
            0 <= a < b < concat_buckets(entries, sigs).len() implies concat_buckets(
            entries,
            sigs,
        )[a] != concat_buckets(entries, sigs)[b] by {
            if b < head.len() {
                assert(concat_buckets(entries, sigs)[a] == head[a]);
                assert(concat_buckets(entries, sigs)[b] == head[b]);
            } else if a >= head.len() {
                assert(concat_buckets(entries, sigs)[a] == tail[a - head.len()]);
                assert(concat_buckets(entries, sigs)[b] == tail[b - head.len()]);
            } else {
                let w = head[a];
                assert(concat_buckets(entries, sigs)[a] == w);
                assert(concat_buckets(entries, sigs)[b] == tail[b - head.len()]);
                if w == tail[b - head.len()] {
                    assert(head.contains(w));
                    let j = choose|j: int|
                        0 <= j < sigs.drop_last().len() && bucket_view(
                            entries,
                            #[trigger] sigs.drop_last()[j],
                        ).contains(w);
                    assert(tail.contains(w));
                    lemma_bucket_view_membership(entries, sigs.drop_last()[j]);
                    lemma_bucket_view_membership(entries, sigs.last());
                    let k1 = choose|k: int|
                        0 <= k < entries.len() && (#[trigger] entries[k]).word@ == w
                            && entries[k].signature@ == sigs.drop_last()[j];
                    let k2 = choose|k: int|
                        0 <= k < entries.len() && (#[trigger] entries[k]).word@ == w
                            && entries[k].signature@ == sigs.last();
                    assert(words_of(entries)[k1] == w);
                    assert(words_of(entries)[k2] == w);
                    assert(k1 == k2);
                    assert(sigs[j] == sigs[sigs.len() - 1]);
                }
            }
        }
    }
}

/// Resolved word lists are deduplicated by construction: when the
/// indexed words are distinct, each belongs to exactly one signature
/// bucket, and a query's expanded signatures are distinct, so no word is
/// collected twice.
pub proof fn lemma_resolve_no_duplicates(index: WordIndex, q: Seq<QueryPatternState>)
    requires
        index.words_view().no_duplicates(),
    ensures
        resolve_view(index.entries@, q).no_duplicates(),
{
    lemma_expand_characterization(q);
    lemma_concat_buckets_distinct(index.entries@, expand_spec(q));
}

/// End to end: a word is among a query's resolved words exactly when it
/// is indexed and its signature against the solution matches the query
/// pattern.  In particular a word of the wrong length, which is never
/// indexed, never appears in any result set.
pub proof fn lemma_resolve_characterization(index: WordIndex, q: Seq<QueryPatternState>, w: Seq<u8>)
    requires
        index.wf(),
    ensures
        resolve_view(index.entries@, q).contains(w) <==> (index.words_view().contains(w)
            && pattern_matches(q, signature_of(w, index.solution@))),
{
    let entries = index.entries@;
    let sigs = expand_spec(q);
    lemma_expand_characterization(q);
    lemma_concat_buckets_membership(entries, sigs);
    if resolve_view(entries, q).contains(w) {
        let j = choose|j: int|
            0 <= j < sigs.len() && bucket_view(entries, #[trigger] sigs[j]).contains(w);
        lemma_bucket_view_membership(entries, sigs[j]);
        let k = choose|k: int|
            0 <= k < entries.len() && (#[trigger] entries[k]).word@ == w && entries[k].signature@
                == sigs[j];
        assert(sigs[j] == signature_of(w, index.solution@));
        assert(sigs.contains(sigs[j]));
        assert(index.words_view()[k] == w);
        assert(index.words_view().contains(w));
    }
    if index.words_view().contains(w) && pattern_matches(q, signature_of(w, index.solution@)) {
        let k = choose|k: int|
            0 <= k < index.words_view().len() && index.words_view()[k] == w;
        assert(entries[k].word@ == w);
        assert(entries[k].signature@ == signature_of(w, index.solution@));
        let sig = signature_of(w, index.solution@);
        assert(sigs.contains(sig));
        let j = choose|j: int| 0 <= j < sigs.len() && sigs[j] == sig;
        lemma_bucket_view_membership(entries, sig);
        assert(bucket_view(entries, sigs[j]).contains(w));
        assert(resolve_view(entries, q).contains(w));
    }
}

} // verus!
