use vstd::prelude::*;
use vstd::slice::{slice_subrange, slice_to_vec};

use crate::counter::Counter;
use crate::error::VocabError;
use crate::vocab::Vocab;
use crate::tables::{
    first_sighting, new_window_counts, new_window_set, set_window_count, window_count,
    window_count_entries, window_counts, window_set,
};

verus! {

/// The id sequences of a list of records.
pub open spec fn seqs_of(records: Seq<Vec<u32>>) -> Seq<Seq<u32>> {
    records.map_values(|r: Vec<u32>| r@)
}

/// `w` is the sequence of one of the vectors of `ws`.
pub open spec fn listed(ws: Seq<Vec<u32>>, w: Seq<u32>) -> bool {
    exists|a: int| 0 <= a < ws.len() && (#[trigger] ws[a])@ == w
}

/// `w` is the window of one of the first `i` pairs, with a count of at least `t`.
spec fn kept_before(entries: Seq<(Vec<u32>, usize)>, i: int, t: int, w: Seq<u32>) -> bool {
    exists|b: int| 0 <= b < i && (#[trigger] entries[b]).0@ == w && entries[b].1 >= t
}

/// `w` occurs as a contiguous run of `r`.
pub open spec fn has_window(r: Seq<u32>, w: Seq<u32>) -> bool {
    exists|p: int| 0 <= p && p + w.len() <= r.len() && #[trigger] r.subrange(p, p + w.len()) == w
}

/// The number of records of `corpus` in which `w` occurs.
pub open spec fn record_count(corpus: Seq<Seq<u32>>, w: Seq<u32>) -> nat
    decreases corpus.len(),
{
    if corpus.len() == 0 {
        0
    } else {
        record_count(corpus.drop_last(), w) + if has_window(corpus.last(), w) {
            1nat
        } else {
            0nat
        }
    }
}

/// `w` is a candidate: a window of width `n` that occurs in at least `t`
/// records of `corpus`.
pub open spec fn is_candidate(corpus: Seq<Seq<u32>>, n: int, t: int, w: Seq<u32>) -> bool {
    w.len() == n && record_count(corpus, w) >= t
}

/// A window occurs in at most as many records as there are.
pub proof fn lemma_record_count_bound(corpus: Seq<Seq<u32>>, w: Seq<u32>)
    ensures
        record_count(corpus, w) <= corpus.len(),
    decreases corpus.len(),
{
    if corpus.len() > 0 {
        lemma_record_count_bound(corpus.drop_last(), w);
    }
}

/// The candidate merges of a corpus: the distinct windows of width `n` that
/// occur in at least `t` records, a record counting once however often the
/// window repeats in it. The order of the result is unspecified. A width or
/// a threshold of zero is refused.
pub fn generate_ngrams(selfies: &Vec<Vec<u32>>, n: usize, t: usize) -> (r: Result<
    Vec<Vec<u32>>,
    VocabError,
>)
    ensures
        r is Err <==> n < 1 || t < 1,
        r is Err ==> r == Err::<Vec<Vec<u32>>, VocabError>(VocabError::InvalidWindow),
        r matches Ok(ws) ==> {
            &&& forall|a: int, b: int| 0 <= a < b < ws@.len() ==> ws@[a]@ != ws@[b]@
            &&& forall|w: Seq<u32>|
                #[trigger] listed(ws@, w) <==> is_candidate(
                    seqs_of(selfies@),
                    n as int,
                    t as int,
                    w,
                )
        },
{
    if n < 1 || t < 1 {
        return Err(VocabError::InvalidWindow);
    }
    let ghost corpus = seqs_of(selfies@);
    let mut counts = new_window_counts();
    let total = selfies.len();
    let mut k: usize = 0;
    while k < total
        invariant
            total == selfies@.len(),
            corpus == seqs_of(selfies@),
            n >= 1,
            k <= selfies@.len(),
            forall|w: Seq<u32>|
                #![trigger window_counts(counts).contains_key(w)]
                window_counts(counts).contains_key(w) <==> w.len() == n && record_count(
                    corpus.take(k as int),
                    w,
                ) > 0,
            forall|w: Seq<u32>|
                #![trigger window_counts(counts)[w]]
                window_counts(counts).contains_key(w) ==> window_counts(counts)[w] == record_count(
                    corpus.take(k as int),
                    w,
                ),
        decreases selfies@.len() - k,
    {
        let rec = &selfies[k];
        let ghost prefix = corpus.take(k as int);
        let ghost rs = rec@;
        proof {
            assert(rs == corpus[k as int]);
        }
        let mut seen = new_window_set();
        let mut p: usize = 0;
        while n <= rec.len() && p <= rec.len() - n
            invariant
                total == selfies@.len(),
                corpus == seqs_of(selfies@),
                rs == rec@,
                n >= 1,
                k < selfies@.len(),
                prefix == corpus.take(k as int),
                p <= rs.len(),
                forall|w: Seq<u32>|
                    #![trigger window_set(seen).contains(w)]
                    window_set(seen).contains(w) <==> exists|q: int|
                        0 <= q < p && q + n <= rs.len() && #[trigger] rs.subrange(q, q + n) == w,
                forall|w: Seq<u32>|
                    #![trigger window_counts(counts).contains_key(w)]
                    window_counts(counts).contains_key(w) <==> w.len() == n && (record_count(
                        prefix,
                        w,
                    ) > 0 || window_set(seen).contains(w)),
                forall|w: Seq<u32>|
                    #![trigger window_counts(counts)[w]]
                    window_counts(counts).contains_key(w) ==> window_counts(counts)[w] == record_count(
                        prefix,
                        w,
                    ) + if window_set(seen).contains(w) {
                        1nat
                    } else {
                        0nat
                    },
            decreases rs.len() - p,
        {
            let w = slice_to_vec(slice_subrange(rec.as_slice(), p, p + n));
            let ghost ws = w@;
            let ghost seen_before = window_set(seen);
            let ghost counts_before = window_counts(counts);
            proof {
                assert(ws.len() == n);
                assert(seen_before.contains(ws) ==> exists|q: int|
                    0 <= q < p && q + n <= rs.len() && #[trigger] rs.subrange(q, q + n) == ws);
            }
            if first_sighting(&mut seen, w.clone()) {
                let c = match window_count(&counts, &w) {
                    Some(c) => c,
                    None => 0,
                };
                proof {
                    lemma_record_count_bound(prefix, ws);
                    assert(c == record_count(prefix, ws));
                    assert(prefix.len() == k);
                    assert(c <= k);
                    assert(k < total);
                }
                set_window_count(&mut counts, w, c + 1);
            }
            proof {
                assert forall|x: Seq<u32>|
                    #![trigger window_set(seen).contains(x)]
                    window_set(seen).contains(x) <==> exists|q: int|
                        0 <= q < p + 1 && q + n <= rs.len() && #[trigger] rs.subrange(q, q + n)
                            == x by {
                    if x == ws {
                        assert(rs.subrange(p as int, p + n) == ws);
                    }
                    if exists|q: int|
                        0 <= q < p + 1 && q + n <= rs.len() && #[trigger] rs.subrange(q, q + n)
                            == x {
                        let q = choose|q: int|
                            0 <= q < p + 1 && q + n <= rs.len() && #[trigger] rs.subrange(q, q + n)
                                == x;
                        if q < p {
                            assert(seen_before.contains(x));
                        }
                    }
                }
            }
            p = p + 1;
        }
        proof {
            let next = corpus.take(k + 1);
            assert(next.drop_last() == prefix);
            assert(next.last() == rs);
            assert forall|w: Seq<u32>| w.len() == n implies (window_set(seen).contains(w)
                <==> has_window(rs, w)) by {
                if has_window(rs, w) {
                    let q = choose|q: int|
                        0 <= q && q + w.len() <= rs.len() && #[trigger] rs.subrange(q, q + w.len())
                            == w;
                    assert(rs.subrange(q, q + n) == w);
                }
                if window_set(seen).contains(w) {
                    let q = choose|q: int|
                        0 <= q < p && q + n <= rs.len() && #[trigger] rs.subrange(q, q + n) == w;
                    assert(rs.subrange(q, q + w.len()) == w);
                }
            }
            assert forall|w: Seq<u32>|
                #![trigger window_counts(counts).contains_key(w)]
                window_counts(counts).contains_key(w) <==> w.len() == n && record_count(next, w)
                    > 0 by {
                if window_set(seen).contains(w) {
                    let q = choose|q: int|
                        0 <= q < p && q + n <= rs.len() && #[trigger] rs.subrange(q, q + n) == w;
                    assert(w.len() == n);
                }
            }
        }
        k = k + 1;
    }
    let entries = window_count_entries(&counts);
    let mut out: Vec<Vec<u32>> = Vec::new();
    let mut i: usize = 0;
    proof {
        assert(corpus.take(selfies@.len() as int) == corpus);
    }
    while i < entries.len()
        invariant
            corpus == seqs_of(selfies@),
            i <= entries@.len(),
            forall|w: Seq<u32>|
                #![trigger window_counts(counts).contains_key(w)]
                window_counts(counts).contains_key(w) <==> w.len() == n && record_count(corpus, w)
                    > 0,
            forall|w: Seq<u32>|
                #![trigger window_counts(counts)[w]]
                window_counts(counts).contains_key(w) ==> window_counts(counts)[w] == record_count(
                    corpus,
                    w,
                ),
            forall|a: int|
                0 <= a < entries@.len() ==> window_counts(counts).contains_key(
                    (#[trigger] entries@[a]).0@,
                ) && window_counts(counts)[entries@[a].0@] == entries@[a].1,
            forall|a: int, b: int| 0 <= a < b < entries@.len() ==> entries@[a].0@ != entries@[b].0@,
            forall|a: int, b: int| 0 <= a < b < out@.len() ==> out@[a]@ != out@[b]@,
            forall|w: Seq<u32>|
                #![trigger listed(out@, w)]
                #![trigger kept_before(entries@, i as int, t as int, w)]
                listed(out@, w) <==> kept_before(entries@, i as int, t as int, w),
        decreases entries@.len() - i,
    {
        let (w, c) = (&entries[i].0, entries[i].1);
        if c >= t {
            let ghost before = out@;
            out.push(w.clone());
            proof {
                assert forall|a: int, b: int| 0 <= a < b < out@.len() implies out@[a]@ != out@[b]@ by {
                    if b == before.len() {
                        assert(out@[a]@ == before[a]@);
                        assert(listed(before, before[a]@));
                        assert(kept_before(entries@, i as int, t as int, before[a]@));
                    }
                }
                assert forall|x: Seq<u32>|
                    #![trigger listed(out@, x)]
                    #![trigger kept_before(entries@, i + 1, t as int, x)]
                    listed(out@, x) <==> kept_before(entries@, i + 1, t as int, x) by {
                    if listed(out@, x) {
                        let a = choose|a: int| 0 <= a < out@.len() && (#[trigger] out@[a])@ == x;
                        if a < before.len() {
                            assert(before[a]@ == x);
                            assert(listed(before, x));
                            assert(kept_before(entries@, i as int, t as int, x));
                            let b = choose|b: int|
                                0 <= b < i && (#[trigger] entries@[b]).0@ == x && entries@[b].1 >= t;
                            assert(entries@[b].0@ == x);
                        } else {
                            assert(entries@[i as int].0@ == x);
                        }
                    }
                    if kept_before(entries@, i + 1, t as int, x) {
                        let b = choose|b: int|
                            0 <= b < i + 1 && (#[trigger] entries@[b]).0@ == x && entries@[b].1 >= t;
                        if b < i {
                            assert(kept_before(entries@, i as int, t as int, x));
                            assert(listed(before, x));
                            let a = choose|a: int| 0 <= a < before.len() && (#[trigger] before[a])@ == x;
                            assert(out@[a]@ == x);
                        } else {
                            assert(out@[before.len() as int]@ == x);
                        }
                    }
                }
            }
        }
        i = i + 1;
    }
    proof {
        assert forall|w: Seq<u32>| #[trigger]
            listed(out@, w) <==> is_candidate(corpus, n as int, t as int, w) by {
            if is_candidate(corpus, n as int, t as int, w) {
                assert(window_counts(counts).contains_key(w));
                let b = choose|b: int| 0 <= b < entries@.len() && entries@[b].0@ == w;
                assert(entries@[b].1 >= t);
                assert(kept_before(entries@, i as int, t as int, w));
            }
            if listed(out@, w) {
                assert(kept_before(entries@, i as int, t as int, w));
                let b = choose|b: int|
                    0 <= b < i && (#[trigger] entries@[b]).0@ == w && entries@[b].1 >= t;
                assert(window_counts(counts).contains_key(entries@[b].0@));
            }
        }
    }
    Ok(out)
}

/// How many times `id` occurs in `rec`.
pub open spec fn tally_in(rec: Seq<u32>, id: int) -> nat
    decreases rec.len(),
{
    if rec.len() == 0 {
        0
    } else {
        tally_in(rec.drop_last(), id) + if rec.last() == id {
            1nat
        } else {
            0nat
        }
    }
}

/// How many times `id` occurs over all records of `corpus`.
pub open spec fn tally(corpus: Seq<Seq<u32>>, id: int) -> nat
    decreases corpus.len(),
{
    if corpus.len() == 0 {
        0
    } else {
        tally(corpus.drop_last(), id) + tally_in(corpus.last(), id)
    }
}

/// The number of ids over all records of `corpus`.
pub open spec fn total_len(corpus: Seq<Seq<u32>>) -> nat
    decreases corpus.len(),
{
    if corpus.len() == 0 {
        0
    } else {
        total_len(corpus.drop_last()) + corpus.last().len()
    }
}

proof fn lemma_tally_in_bound(rec: Seq<u32>, id: int)
    ensures
        tally_in(rec, id) <= rec.len(),
    decreases rec.len(),
{
    if rec.len() > 0 {
        lemma_tally_in_bound(rec.drop_last(), id);
    }
}

proof fn lemma_tally_bound(corpus: Seq<Seq<u32>>, id: int)
    ensures
        tally(corpus, id) <= total_len(corpus),
    decreases corpus.len(),
{
    if corpus.len() > 0 {
        lemma_tally_bound(corpus.drop_last(), id);
        lemma_tally_in_bound(corpus.last(), id);
    }
}

proof fn lemma_total_len_prefix(corpus: Seq<Seq<u32>>, k: int)
    requires
        0 <= k <= corpus.len(),
    ensures
        total_len(corpus.take(k)) <= total_len(corpus),
    decreases corpus.len() - k,
{
    if k < corpus.len() {
        lemma_total_len_prefix(corpus, k + 1);
        assert(corpus.take(k + 1).drop_last() == corpus.take(k));
    } else {
        assert(corpus.take(k) == corpus);
    }
}

/// How often each auxiliary id is used over a set of encoded records; base
/// ids, and ids outside the vocabulary, are not counted.
pub fn count_token_occurence(encoded_selfies: &Vec<Vec<u32>>, vocab: &Vocab) -> (r: Counter)
    requires
        vocab.wf(),
        total_len(seqs_of(encoded_selfies@)) <= usize::MAX,
    ensures
        r@.len() == vocab@.size(),
        forall|i: int|
            0 <= i < r@.len() ==> r@[i] == if vocab@.base_len() <= i {
                tally(seqs_of(encoded_selfies@), i)
            } else {
                0
            },
{
    let ghost corpus = seqs_of(encoded_selfies@);
    let ghost b = vocab@.base_len();
    let mut counts = Counter::zeroed(vocab.len());
    let mut k: usize = 0;
    while k < encoded_selfies.len()
        invariant
            vocab.wf(),
            b == vocab@.base_len(),
            corpus == seqs_of(encoded_selfies@),
            total_len(corpus) <= usize::MAX,
            k <= corpus.len(),
            counts@.len() == vocab@.size(),
            forall|i: int|
                0 <= i < counts@.len() ==> counts@[i] == if b <= i {
                    tally(corpus.take(k as int), i)
                } else {
                    0
                },
        decreases corpus.len() - k,
    {
        let rec = &encoded_selfies[k];
        let ghost prefix = corpus.take(k as int);
        let ghost rs = rec@;
        proof {
            assert(rs == corpus[k as int]);
            assert(corpus.take(k + 1).drop_last() == prefix);
            assert(corpus.take(k + 1).last() == rs);
            lemma_total_len_prefix(corpus, k + 1);
        }
        let mut j: usize = 0;
        while j < rec.len()
            invariant
                vocab.wf(),
                b == vocab@.base_len(),
                rs == rec@,
                j <= rs.len(),
                prefix.len() == k,
                total_len(prefix) + rs.len() <= usize::MAX,
                counts@.len() == vocab@.size(),
                forall|i: int|
                    0 <= i < counts@.len() ==> counts@[i] == if b <= i {
                        tally(prefix, i) + tally_in(rs.take(j as int), i)
                    } else {
                        0
                    },
            decreases rs.len() - j,
        {
            let tok = rec[j];
            proof {
                assert(rs.take(j + 1).drop_last() == rs.take(j as int));
                assert(rs.take(j + 1).last() == tok);
            }
            if vocab.is_aux(&tok) {
                proof {
                    lemma_tally_bound(prefix, tok as int);
                    lemma_tally_in_bound(rs.take(j as int), tok as int);
                }
                counts.insert(tok);
            }
            j = j + 1;
        }
        proof {
            assert(rs.take(rs.len() as int) == rs);
        }
        k = k + 1;
    }
    proof {
        assert(corpus.take(corpus.len() as int) == corpus);
    }
    counts
}

} // verus!
