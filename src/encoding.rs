use vstd::prelude::*;
use vstd::slice::slice_subrange;

use crate::tokenizer::{join, lemma_join_append, lemma_join_push};
use crate::vocab::{Vocab, VocabView};

verus! {

/// `enc` is a covering of the base ids `ids`: every id of `enc` is known,
/// and expanding it gives `ids` back.
pub open spec fn is_cover(v: VocabView, enc: Seq<u32>, ids: Seq<u32>) -> bool {
    v.all_known(enc) && v.expand(enc) == ids
}

/// Expanding a sequence with one more id at the end adds that id's piece.
pub proof fn lemma_expand_push(v: VocabView, enc: Seq<u32>, x: u32)
    ensures
        v.expand(enc.push(x)) == v.expand(enc) + v.piece(x),
{
    let f = |id: u32| v.piece(id);
    assert(enc.push(x).map_values(f).drop_last() == enc.map_values(f));
}

/// Expanding a sequence with one more id in front puts that id's piece first.
pub proof fn lemma_expand_prepend(v: VocabView, x: u32, enc: Seq<u32>)
    ensures
        v.expand(seq![x] + enc) == v.piece(x) + v.expand(enc),
{
    let f = |id: u32| v.piece(id);
    assert((seq![x] + enc).map_values(f) == seq![v.piece(x)] + enc.map_values(f));
    lemma_join_append(seq![v.piece(x)], enc.map_values(f));
    lemma_join_push(Seq::<Seq<u32>>::empty(), v.piece(x));
    assert(Seq::<Seq<u32>>::empty().push(v.piece(x)) == seq![v.piece(x)]);
    assert(join(Seq::<Seq<u32>>::empty()) + v.piece(x) == v.piece(x));
}

/// A lower bound on every covering of `ids[0..i]`, from bounds on the
/// coverings of the shorter prefixes: whatever its last id, a covering of
/// `ids[0..i]` is one id longer than a covering of a shorter prefix.
proof fn lemma_cover_lower_bound(v: VocabView, ids: Seq<u32>, cost: Seq<usize>, i: int, c: int)
    requires
        v.valid(),
        1 <= i <= ids.len(),
        cost.len() >= i,
        forall|p: int, e: Seq<u32>|
            0 <= p < i && #[trigger] is_cover(v, e, ids.subrange(0, p)) ==> cost[p] <= e.len(),
        c <= cost[i - 1] + 1,
        forall|j: int|
            0 <= j < i && v.merges.contains(#[trigger] ids.subrange(j, i)) ==> c <= cost[j] + 1,
    ensures
        forall|e: Seq<u32>| #[trigger] is_cover(v, e, ids.subrange(0, i)) ==> c <= e.len(),
{
    assert forall|e: Seq<u32>| #[trigger] is_cover(v, e, ids.subrange(0, i)) implies c <= e.len() by {
        if e.len() == 0 {
            assert(v.expand(e) == Seq::<u32>::empty());
            assert(ids.subrange(0, i).len() == i);
        } else {
            let x = e.last();
            let e2 = e.drop_last();
            assert(e == e2.push(x));
            lemma_expand_push(v, e2, x);
            let piece = v.piece(x);
            let j = i - piece.len();
            assert(x < v.size());
            if x >= v.base_len() {
                assert(v.is_merge(v.merges[x - v.base_len()]));
            }
            assert(piece.len() >= 1);
            assert(v.expand(e2) == ids.subrange(0, j)) by {
                assert(v.expand(e2) == ids.subrange(0, i).subrange(0, j));
            }
            assert(piece == ids.subrange(j, i)) by {
                assert(piece == ids.subrange(0, i).subrange(j, i));
            }
            assert(is_cover(v, e2, ids.subrange(0, j)));
            if x < v.base_len() {
                assert(j == i - 1);
            } else {
                assert(v.merges.contains(ids.subrange(j, i)));
            }
        }
    }
}

/// `m` is the fewest ids of any covering of `ids[0..i]`.
pub open spec fn is_fewest(v: VocabView, ids: Seq<u32>, i: int, m: int) -> bool {
    &&& exists|e: Seq<u32>| #[trigger] is_cover(v, e, ids.subrange(0, i)) && e.len() == m
    &&& forall|e: Seq<u32>| #[trigger] is_cover(v, e, ids.subrange(0, i)) ==> m <= e.len()
}

/// The fewest ids of any covering of `ids[0..i]`.
pub open spec fn fewest(v: VocabView, ids: Seq<u32>, i: int) -> int {
    choose|m: int| is_fewest(v, ids, i, m)
}

/// The last id of a covering of `ids[0..i]` covers `ids[j..i]`, chosen by
/// the rule: the single base id `ids[i - 1]` when it leads to a shortest
/// covering, else the earliest start `j` of a registered run that does.
pub open spec fn chosen_start(v: VocabView, ids: Seq<u32>, i: int, j: int) -> bool {
    if fewest(v, ids, i - 1) + 1 == fewest(v, ids, i) {
        j == i - 1
    } else {
        &&& 0 <= j < i
        &&& v.merges.contains(ids.subrange(j, i))
        &&& fewest(v, ids, j) + 1 == fewest(v, ids, i)
        &&& forall|q: int|
            0 <= q < j ==> !(v.merges.contains(#[trigger] ids.subrange(q, i)) && fewest(v, ids, q) + 1
                == fewest(v, ids, i))
    }
}

/// Each id of `enc`, taken from the first to the last, was chosen by that
/// rule for the prefix of `ids` that it ends.
pub open spec fn breaks_ties_early(v: VocabView, ids: Seq<u32>, enc: Seq<u32>) -> bool {
    forall|k: int|
        1 <= k <= enc.len() ==> chosen_start(
            v,
            ids,
            #[trigger] v.expand(enc.take(k)).len() as int,
            v.expand(enc.take(k - 1)).len() as int,
        )
}

/// The covering that the predecessor links end at position `p` give.
pub open spec fn chain(tok: Seq<u32>, prev: Seq<usize>, p: int) -> Seq<u32>
    decreases p,
{
    if p <= 0 || p >= tok.len() || p >= prev.len() || prev[p] >= p {
        Seq::empty()
    } else {
        chain(tok, prev, prev[p] as int).push(tok[p])
    }
}

proof fn lemma_fewest_is(v: VocabView, ids: Seq<u32>, i: int, m: int)
    requires
        is_fewest(v, ids, i, m),
    ensures
        fewest(v, ids, i) == m,
{
    let f = fewest(v, ids, i);
    assert(is_fewest(v, ids, i, f));
    let e1 = choose|e: Seq<u32>| #[trigger] is_cover(v, e, ids.subrange(0, i)) && e.len() == m;
    let e2 = choose|e: Seq<u32>| #[trigger] is_cover(v, e, ids.subrange(0, i)) && e.len() == f;
}

proof fn lemma_chain_extend(tok: Seq<u32>, prev: Seq<usize>, a: u32, b: usize, p: int)
    requires
        tok.len() == prev.len(),
        0 <= p < tok.len(),
    ensures
        chain(tok.push(a), prev.push(b), p) == chain(tok, prev, p),
    decreases p,
{
    if p > 0 && prev[p] < p {
        lemma_chain_extend(tok, prev, a, b, prev[p] as int);
    }
}

proof fn lemma_chain_rule(v: VocabView, ids: Seq<u32>, tok: Seq<u32>, prev: Seq<usize>, p: int)
    requires
        tok.len() == prev.len(),
        0 <= p < tok.len(),
        forall|q: int|
            1 <= q < tok.len() ==> prev[q] < q && chosen_start(v, ids, q, #[trigger] prev[q] as int),
        forall|q: int|
            0 <= q < tok.len() ==> v.expand(#[trigger] chain(tok, prev, q)) == ids.subrange(0, q),
        p <= ids.len(),
        tok.len() <= ids.len() + 1,
    ensures
        breaks_ties_early(v, ids, chain(tok, prev, p)),
    decreases p,
{
    let c = chain(tok, prev, p);
    if p > 0 {
        let pp = prev[p] as int;
        let c2 = chain(tok, prev, pp);
        lemma_chain_rule(v, ids, tok, prev, pp);
        assert(c == c2.push(tok[p]));
        assert forall|k: int| 1 <= k <= c.len() implies chosen_start(
            v,
            ids,
            #[trigger] v.expand(c.take(k)).len() as int,
            v.expand(c.take(k - 1)).len() as int,
        ) by {
            if k < c.len() {
                assert(c.take(k) == c2.take(k));
                assert(c.take(k - 1) == c2.take(k - 1));
            } else {
                assert(c.take(k) == c);
                assert(c.take(k - 1) == c2);
                assert(v.expand(c) == ids.subrange(0, p));
                assert(v.expand(c2) == ids.subrange(0, pp));
            }
        }
    }
}

/// A covering of `tokens` by the fewest ids of `vocab`: each id either a
/// base id taken as it is, or an auxiliary id whose sequence is the run it
/// replaces. At each position the single base id is kept unless a registered
/// run gives a strictly shorter covering, and among runs that do, the one
/// that starts earliest wins.
pub fn optimal_encode(tokens: &Vec<u32>, vocab: &Vocab) -> (r: Vec<u32>)
    requires
        vocab.wf(),
        vocab@.all_base(tokens@),
    ensures
        is_cover(vocab@, r@, tokens@),
        forall|e: Seq<u32>| #[trigger] is_cover(vocab@, e, tokens@) ==> r@.len() <= e.len(),
        breaks_ties_early(vocab@, tokens@, r@),
{
    let ghost v = vocab@;
    let ghost ids = tokens@;
    let n = tokens.len();
    let mut cost: Vec<usize> = vec![0];
    let mut prev: Vec<usize> = vec![0];
    let mut tok: Vec<u32> = vec![0];
    proof {
        assert(ids.subrange(0, 0) == Seq::<u32>::empty());
        assert(v.expand(Seq::<u32>::empty()) == Seq::<u32>::empty());
        assert(is_cover(v, Seq::<u32>::empty(), ids.subrange(0, 0)));
        lemma_fewest_is(v, ids, 0, 0);
        assert(chain(tok@, prev@, 0) == Seq::<u32>::empty());
    }
    let mut i: usize = 0;
    while i < n
        invariant
            vocab.wf(),
            v == vocab@,
            ids == tokens@,
            n == ids.len(),
            v.all_base(ids),
            i <= n,
            cost.len() == i + 1,
            prev.len() == i + 1,
            tok.len() == i + 1,
            cost[0] == 0,
            forall|p: int| 0 <= p <= i ==> cost[p] <= p,
            forall|p: int|
                1 <= p <= i ==> {
                    &&& prev[p] < p
                    &&& cost[p] == cost[prev[p] as int] + 1
                    &&& tok[p] < v.size()
                    &&& v.piece(tok[p]) == ids.subrange(prev[p] as int, p)
                },
            forall|p: int, e: Seq<u32>|
                0 <= p <= i && #[trigger] is_cover(v, e, ids.subrange(0, p)) ==> cost[p] <= e.len(),
            forall|p: int| 0 <= p <= i ==> #[trigger] fewest(v, ids, p) == cost[p],
            forall|p: int| 1 <= p <= i ==> chosen_start(v, ids, p, #[trigger] prev[p] as int),
            forall|p: int|
                0 <= p <= i ==> is_cover(v, #[trigger] chain(tok@, prev@, p), ids.subrange(0, p))
                    && chain(tok@, prev@, p).len() == cost[p],
        decreases n - i,
    {
        let end = i + 1;
        let mut best = cost[i] + 1;
        let mut from = i;
        let mut id = tokens[i];
        proof {
            assert(ids.subrange(i as int, end as int) == seq![id]);
        }
        let mut j: usize = 0;
        while j < end
            invariant
                vocab.wf(),
                v == vocab@,
                ids == tokens@,
                n == ids.len(),
                v.all_base(ids),
                end == i + 1,
                end <= n,
                j <= end,
                cost.len() == end,
                forall|p: int| 0 <= p <= i ==> cost[p] <= p,
                from < end,
                best == cost[from as int] + 1,
                best <= cost[i as int] + 1,
                id < v.size(),
                v.piece(id) == ids.subrange(from as int, end as int),
                forall|q: int|
                    0 <= q < j && v.merges.contains(#[trigger] ids.subrange(q, end as int)) ==> best
                        <= cost[q] + 1,
                from != i ==> {
                    &&& from < j
                    &&& best < cost[i as int] + 1
                    &&& v.merges.contains(ids.subrange(from as int, end as int))
                    &&& forall|q: int|
                        0 <= q < from ==> !(v.merges.contains(#[trigger] ids.subrange(q, end as int))
                            && cost[q] + 1 == best)
                },
            decreases end - j,
        {
            if cost[j] + 1 < best {
                let run = slice_subrange(tokens.as_slice(), j, end);
                match vocab.get_aux(run) {
                    Some(aux) => {
                        best = cost[j] + 1;
                        from = j;
                        id = *aux;
                        proof {
                            assert(v.merges.contains(ids.subrange(j as int, end as int)));
                        }
                    },
                    None => {},
                }
            }
            j = j + 1;
        }
        proof {
            lemma_cover_lower_bound(v, ids, cost@, end as int, best as int);
        }
        let ghost old_tok = tok@;
        let ghost old_prev = prev@;
        let ghost old_cost = cost@;
        cost.push(best);
        prev.push(from);
        tok.push(id);
        proof {
            assert forall|p: int| 0 <= p <= i implies chain(tok@, prev@, p) == chain(
                old_tok,
                old_prev,
                p,
            ) by {
                lemma_chain_extend(old_tok, old_prev, id, from, p);
            }
            let c = chain(tok@, prev@, end as int);
            let c0 = chain(old_tok, old_prev, from as int);
            assert(is_cover(v, c0, ids.subrange(0, from as int)));
            assert(c0.len() == cost[from as int]);
            assert(chain(tok@, prev@, from as int) == c0);
            assert(c == c0.push(id));
            lemma_expand_push(v, c0, id);
            assert(v.all_known(c)) by {
                assert forall|q: int| 0 <= q < c.len() implies c[q] < v.size() by {
                    if q < c0.len() {
                        assert(c[q] == c0[q]);
                    }
                }
            }
            assert(ids.subrange(0, end as int) == ids.subrange(0, from as int) + ids.subrange(
                from as int,
                end as int,
            ));
            assert(is_cover(v, c, ids.subrange(0, end as int)));
            lemma_fewest_is(v, ids, end as int, best as int);
            assert(fewest(v, ids, i as int) == cost[i as int]);
            assert(chosen_start(v, ids, end as int, from as int)) by {
                if from != i {
                    assert forall|q: int|
                        0 <= q < from implies !(v.merges.contains(
                            #[trigger] ids.subrange(q, end as int),
                        ) && fewest(v, ids, q) + 1 == fewest(v, ids, end as int)) by {
                        assert(fewest(v, ids, q) == cost[q]);
                    }
                    assert(fewest(v, ids, from as int) == cost[from as int]);
                }
            }
            assert forall|p: int|
                0 <= p <= end implies is_cover(v, #[trigger] chain(tok@, prev@, p), ids.subrange(0, p))
                && chain(tok@, prev@, p).len() == cost[p] by {
                if p < end {
                    assert(chain(tok@, prev@, p) == chain(old_tok, old_prev, p));
                    assert(is_cover(v, chain(old_tok, old_prev, p), ids.subrange(0, p)));
                    assert(cost[p] == old_cost[p]);
                }
            }
            assert forall|p: int| 0 <= p <= end implies #[trigger] fewest(v, ids, p) == cost[p] by {
                if p < end {
                    assert(cost[p] == old_cost[p]);
                }
            }
        }
        i = i + 1;
    }
    let total = cost[n];
    let mut out: Vec<u32> = vec![0; total];
    let mut pos = n;
    let mut k = total;
    let ghost full = chain(tok@, prev@, n as int);
    proof {
        assert(out@.subrange(k as int, total as int) == Seq::<u32>::empty());
        assert(full + Seq::<u32>::empty() == full);
    }
    while pos > 0
        invariant
            n == ids.len(),
            cost.len() == n + 1,
            prev.len() == n + 1,
            tok.len() == n + 1,
            cost[0] == 0,
            forall|p: int|
                1 <= p <= n ==> {
                    &&& prev[p] < p
                    &&& cost[p] == cost[prev[p] as int] + 1
                },
            forall|p: int|
                0 <= p <= n ==> #[trigger] chain(tok@, prev@, p).len() == cost[p],
            full == chain(tok@, prev@, n as int),
            out.len() == total,
            pos <= n,
            k == cost[pos as int],
            k <= total,
            chain(tok@, prev@, pos as int) + out@.subrange(k as int, total as int) == full,
        decreases pos,
    {
        let ghost tail = out@.subrange(k as int, total as int);
        let p = prev[pos];
        let t = tok[pos];
        k = k - 1;
        out.set(k, t);
        proof {
            assert(out@.subrange(k as int, total as int) == seq![t] + tail);
            assert(chain(tok@, prev@, pos as int) == chain(tok@, prev@, p as int).push(t));
            assert(chain(tok@, prev@, p as int) + (seq![t] + tail) == chain(tok@, prev@, p as int).push(t)
                + tail);
        }
        pos = p;
    }
    proof {
        assert(chain(tok@, prev@, 0) == Seq::<u32>::empty());
        assert(out@.subrange(0, total as int) == out@);
        assert(Seq::<u32>::empty() + out@ == out@);
        assert(ids.subrange(0, n as int) == ids);
        lemma_chain_rule(v, ids, tok@, prev@, n as int);
    }
    out
}

} // verus!
