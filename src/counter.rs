use vstd::multiset::Multiset;
use vstd::prelude::*;

verus! {

/// How often `id` occurs among `keys`.
pub open spec fn occurrences(keys: Seq<u32>, id: int) -> nat {
    if 0 <= id <= u32::MAX {
        keys.to_multiset().count(id as u32)
    } else {
        0
    }
}

/// In the ranking by decreasing count, `a` comes before `b`: it has the
/// larger count, or the same count and the smaller id.
pub open spec fn more_common(c: Seq<usize>, a: int, b: int) -> bool {
    c[a] > c[b] || (c[a] == c[b] && a < b)
}

/// In the ranking by increasing count, `a` comes before `b`: it has the
/// smaller count, or the same count and the smaller id.
pub open spec fn less_common(c: Seq<usize>, a: int, b: int) -> bool {
    c[a] < c[b] || (c[a] == c[b] && a < b)
}

/// The ranking by decreasing counts when `desc`, else by increasing counts.
pub open spec fn precedes(c: Seq<usize>, desc: bool, a: int, b: int) -> bool {
    if desc {
        more_common(c, a, b)
    } else {
        less_common(c, a, b)
    }
}

/// `ids` are the first `min(k, |c|)` ids of the ranking, in ranking order.
pub open spec fn ranked_head(c: Seq<usize>, desc: bool, k: int, ids: Seq<usize>) -> bool {
    &&& ids.len() == if k < c.len() { k } else { c.len() as int }
    &&& forall|p: int| 0 <= p < ids.len() ==> ids[p] < c.len()
    &&& forall|p: int, q: int|
        0 <= p < q < ids.len() ==> precedes(c, desc, ids[p] as int, ids[q] as int)
    &&& forall|j: int|
        #![trigger ids.contains(j as usize)]
        #![trigger ranked_after(c, desc, ids, j)]
        0 <= j < c.len() ==> ids.contains(j as usize) || ranked_after(c, desc, ids, j)
}

/// Every id of `ids` comes before `j` in the ranking.
pub open spec fn ranked_after(c: Seq<usize>, desc: bool, ids: Seq<usize>, j: int) -> bool {
    forall|p: int| 0 <= p < ids.len() ==> precedes(c, desc, ids[p] as int, j)
}

/// Dense usage counts of the ids `0..len()`.
pub struct Counter {
    counts: Vec<usize>,
}

/// Walks the `(id, count)` pairs of a counter in increasing id order.
pub struct CounterIter<'a> {
    counter: &'a Counter,
    index: usize,
}

impl View for Counter {
    type V = Seq<usize>;

    closed spec fn view(&self) -> Seq<usize> {
        self.counts@
    }
}

fn precedes_exec(c: &Vec<usize>, desc: bool, a: usize, b: usize) -> (r: bool)
    requires
        a < c.len(),
        b < c.len(),
    ensures
        r == precedes(c@, desc, a as int, b as int),
{
    if desc {
        c[a] > c[b] || (c[a] == c[b] && a < b)
    } else {
        c[a] < c[b] || (c[a] == c[b] && a < b)
    }
}

/// The first `k` ids of the ranking of `c`, in ranking order.
fn select_head(c: &Vec<usize>, k: usize, desc: bool) -> (ids: Vec<usize>)
    ensures
        ranked_head(c@, desc, k as int, ids@),
{
    let mut top: Vec<usize> = Vec::new();
    let n = c.len();
    let mut i: usize = 0;
    while i < n
        invariant
            n == c.len(),
            i <= n,
            top.len() == if k < i { k as int } else { i as int },
            forall|p: int| 0 <= p < top.len() ==> top[p] < i,
            forall|p: int, q: int|
                0 <= p < q < top.len() ==> precedes(c@, desc, top[p] as int, top[q] as int),
            forall|j: int|
                #![trigger top@.contains(j as usize)]
                #![trigger ranked_after(c@, desc, top@, j)]
                0 <= j < i ==> top@.contains(j as usize) || ranked_after(c@, desc, top@, j),
            top.len() < k ==> forall|j: int| 0 <= j < i ==> #[trigger] top@.contains(j as usize),
        decreases n - i,
    {
        let full = top.len() >= k;
        if k > 0 && (!full || precedes_exec(c, desc, i, top[top.len() - 1])) {
            let mut pos: usize = 0;
            while pos < top.len() && !precedes_exec(c, desc, i, top[pos])
                invariant
                    pos <= top.len(),
                    n == c.len(),
                    i < n,
                    forall|p: int| 0 <= p < top.len() ==> top[p] < i,
                    forall|p: int| 0 <= p < pos ==> precedes(c@, desc, top[p] as int, i as int),
                decreases top.len() - pos,
            {
                pos = pos + 1;
            }
            let ghost old_top = top@;
            top.insert(pos, i);
            proof {
                assert forall|p: int, q: int| 0 <= p < q < top.len() implies precedes(
                    c@,
                    desc,
                    top[p] as int,
                    top[q] as int,
                ) by {
                    if q < pos {
                    } else if q == pos {
                    } else if p < pos {
                        assert(top[q] == old_top[q - 1]);
                        assert(precedes(c@, desc, i as int, old_top[pos as int] as int));
                    } else if p == pos {
                        assert(precedes(c@, desc, i as int, old_top[pos as int] as int));
                        if q - 1 > pos {
                            assert(precedes(c@, desc, old_top[pos as int] as int, old_top[q - 1] as int));
                        }
                    } else {
                        assert(top[p] == old_top[p - 1]);
                        assert(top[q] == old_top[q - 1]);
                    }
                }
                assert forall|j: int| 0 <= j <= i implies top@.contains(j as usize) || ranked_after(c@, desc, top@, j) by {
                    if j == i {
                        assert(top[pos as int] == i);
                    } else if old_top.contains(j as usize) {
                        let p = choose|p: int| 0 <= p < old_top.len() && old_top[p] == j as usize;
                        if p < pos {
                            assert(top[p] == j as usize);
                        } else {
                            assert(top[p + 1] == j as usize);
                        }
                    } else {
                        assert(old_top.len() == k) by {
                            if old_top.len() < k {
                                assert(old_top.contains(j as usize));
                            }
                        }
                        assert(precedes(c@, desc, old_top[old_top.len() - 1] as int, j));
                        assert forall|p: int| 0 <= p < top.len() implies precedes(
                            c@,
                            desc,
                            top[p] as int,
                            j,
                        ) by {
                            if p < pos {
                                assert(top[p] == old_top[p]);
                            } else if p > pos {
                                assert(top[p] == old_top[p - 1]);
                            }
                        }
                    }
                }
            }
            proof {
                if old_top.len() < k {
                    assert forall|j: int| 0 <= j <= i implies #[trigger] top@.contains(j as usize) by {
                        if j == i {
                            assert(top[pos as int] == i);
                        } else {
                            assert(old_top.contains(j as usize));
                            let p = choose|p: int| 0 <= p < old_top.len() && old_top[p] == j as usize;
                            if p < pos {
                                assert(top[p] == j as usize);
                            } else {
                                assert(top[p + 1] == j as usize);
                            }
                        }
                    }
                }
            }
            if top.len() > k {
                let ghost long_top = top@;
                top.pop();
                proof {
                    let last = long_top[long_top.len() - 1];
                    assert forall|j: int| 0 <= j <= i implies top@.contains(j as usize) || ranked_after(c@, desc, top@, j) by {
                        if long_top.contains(j as usize) {
                            let p = choose|p: int|
                                0 <= p < long_top.len() && long_top[p] == j as usize;
                            if p < top.len() {
                                assert(top[p] == j as usize);
                            } else {
                                assert(j == last);
                                assert forall|q: int| 0 <= q < top.len() implies precedes(
                                    c@,
                                    desc,
                                    top[q] as int,
                                    j,
                                ) by {
                                    assert(top[q] == long_top[q]);
                                }
                            }
                        } else {
                            assert(ranked_after(c@, desc, long_top, j));
                            assert forall|q: int| 0 <= q < top.len() implies precedes(
                                c@,
                                desc,
                                top[q] as int,
                                j,
                            ) by {
                                assert(top[q] == long_top[q]);
                            }
                        }
                    }
                }
            }
        } else {
            proof {
                assert forall|j: int| 0 <= j <= i implies top@.contains(j as usize) || ranked_after(c@, desc, top@, j) by {
                    if j == i && k > 0 {
                        let last = top[top.len() - 1];
                        assert(precedes(c@, desc, last as int, i as int));
                        assert forall|p: int| 0 <= p < top.len() implies precedes(
                            c@,
                            desc,
                            top[p] as int,
                            j,
                        ) by {
                            if p < top.len() - 1 {
                                assert(precedes(c@, desc, top[p] as int, last as int));
                            }
                        }
                    }
                }
            }
        }
        i = i + 1;
    }
    top
}

/// The ids of a list of `(id, count)` pairs.
pub open spec fn pair_ids<I>(r: Seq<(I, usize)>, id_of: spec_fn(I) -> usize) -> Seq<usize> {
    r.map_values(|x: (I, usize)| id_of(x.0))
}

/// `r` holds the ids of `ids`, each with its count in `c`.
pub open spec fn with_counts<I>(c: Seq<usize>, ids: Seq<usize>, r: Seq<(I, usize)>, id_of: spec_fn(
    I,
) -> usize) -> bool {
    &&& r.len() == ids.len()
    &&& forall|p: int|
        0 <= p < r.len() ==> id_of(#[trigger] r[p].0) == ids[p] && r[p].1 == c[ids[p] as int]
}

impl Default for Counter {
    fn default() -> (r: Counter)
        ensures
            r@.len() == 0,
    {
        Counter { counts: Vec::new() }
    }
}

impl Counter {
    /// A counter of `size` ids, all counts zero.
    pub fn zeroed(size: usize) -> (r: Counter)
        ensures
            r@ == Seq::new(size as nat, |i: int| 0usize),
    {
        Counter { counts: vec![0; size] }
    }

    /// Counts one more occurrence of `key`.
    pub fn insert(&mut self, key: u32)
        requires
            key < old(self)@.len(),
            old(self)@[key as int] < usize::MAX,
        ensures
            final(self)@ == old(self)@.update(key as int, (old(self)@[key as int] + 1) as usize),
    {
        let k = key as usize;
        let v = self.counts[k];
        self.counts.set(k, v + 1);
    }

    /// Counts `n` more occurrences of `key`.
    pub fn add(&mut self, key: u32, n: usize)
        requires
            key < old(self)@.len(),
            old(self)@[key as int] + n <= usize::MAX,
        ensures
            final(self)@ == old(self)@.update(key as int, (old(self)@[key as int] + n) as usize),
    {
        let k = key as usize;
        let v = self.counts[k];
        self.counts.set(k, v + n);
    }

    /// Counts one more occurrence of each key, in turn.
    pub fn update(&mut self, keys: &[u32])
        requires
            forall|j: int| 0 <= j < keys@.len() ==> keys@[j] < old(self)@.len(),
            forall|i: int|
                0 <= i < old(self)@.len() ==> old(self)@[i] + occurrences(keys@, i) <= usize::MAX,
        ensures
            final(self)@.len() == old(self)@.len(),
            forall|i: int|
                0 <= i < old(self)@.len() ==> final(self)@[i] == old(self)@[i] + occurrences(
                    keys@,
                    i,
                ),
    {
        broadcast use vstd::seq_lib::group_to_multiset_ensures;

        let ghost start = self@;
        let mut j: usize = 0;
        proof {
            assert(keys@.subrange(0, 0).to_multiset().len() == 0);
            assert(keys@.subrange(0, 0).to_multiset() =~= Multiset::empty());
        }
        while j < keys.len()
            invariant
                j <= keys@.len(),
                self@.len() == start.len(),
                forall|q: int| 0 <= q < keys@.len() ==> keys@[q] < start.len(),
                forall|i: int| 0 <= i < start.len() ==> start[i] + occurrences(keys@, i) <= usize::MAX,
                forall|i: int|
                    0 <= i < start.len() ==> self@[i] == start[i] + occurrences(
                        keys@.subrange(0, j as int),
                        i,
                    ),
            decreases keys@.len() - j,
        {
            let key = keys[j];
            proof {
                let pre = keys@.subrange(0, j as int);
                let post = keys@.subrange(0, j + 1);
                assert(post == pre.push(key));
                vstd::seq_lib::to_multiset_build(pre, key);
                assert(keys@ == post + keys@.subrange(j + 1, keys@.len() as int));
                vstd::seq_lib::lemma_multiset_commutative(post, keys@.subrange(j + 1, keys@.len() as int));
                assert(occurrences(post, key as int) <= occurrences(keys@, key as int));
            }
            self.insert(key);
            proof {
                let pre = keys@.subrange(0, j as int);
                let post = keys@.subrange(0, j + 1);
                assert(post == pre.push(key));
                vstd::seq_lib::to_multiset_build(pre, key);
                assert forall|i: int| 0 <= i < start.len() implies self@[i] == start[i] + occurrences(
                    post,
                    i,
                ) by {
                    if i != key as int && i <= u32::MAX {
                        assert((i as u32) != key);
                    }
                }
            }
            j = j + 1;
        }
        proof {
            assert(keys@.subrange(0, keys@.len() as int) == keys@);
        }
    }

    /// The number of ids counted.
    pub fn len(&self) -> (r: usize)
        ensures
            r == self@.len(),
    {
        self.counts.len()
    }

    /// Whether the counter counts no id at all.
    pub fn is_empty(&self) -> (r: bool)
        ensures
            r == (self@.len() == 0),
    {
        self.counts.len() == 0
    }

    /// The counts, indexed by id.
    pub fn values(&self) -> (r: &[usize])
        ensures
            r@ == self@,
    {
        self.counts.as_slice()
    }

    /// A walk over the `(id, count)` pairs in increasing id order.
    pub fn iter(&self) -> (r: CounterIter<'_>)
        ensures
            r.position() == 0,
            r.counter() == self,
    {
        CounterIter { counter: self, index: 0 }
    }

    /// The `k` largest counts with their ids, by decreasing count; equal
    /// counts come by increasing id.
    pub fn most_common(&self, k: usize) -> (r: Vec<(u32, usize)>)
        requires
            self@.len() <= u32::MAX as nat + 1,
        ensures
            exists|ids: Seq<usize>|
                ranked_head(self@, true, k as int, ids) && with_counts(
                    self@,
                    ids,
                    r@,
                    |i: u32| i as usize,
                ),
    {
        let ids = select_head(&self.counts, k, true);
        let mut r: Vec<(u32, usize)> = Vec::new();
        let mut p: usize = 0;
        while p < ids.len()
            invariant
                p <= ids.len(),
                self@.len() <= u32::MAX as nat + 1,
                forall|q: int| 0 <= q < ids.len() ==> ids[q] < self@.len(),
                with_counts(self@, ids@.subrange(0, p as int), r@, |i: u32| i as usize),
            decreases ids.len() - p,
        {
            let id = ids[p];
            r.push((id as u32, self.counts[id]));
            p = p + 1;
        }
        proof {
            assert(ids@.subrange(0, ids@.len() as int) == ids@);
        }
        r
    }

    /// The `k` smallest counts with their ids, by increasing count; equal
    /// counts come by increasing id.
    pub fn least_common(&self, k: usize) -> (r: Vec<(usize, usize)>)
        ensures
            exists|ids: Seq<usize>|
                ranked_head(self@, false, k as int, ids) && with_counts(
                    self@,
                    ids,
                    r@,
                    |i: usize| i,
                ),
    {
        let ids = select_head(&self.counts, k, false);
        let mut r: Vec<(usize, usize)> = Vec::new();
        let mut p: usize = 0;
        while p < ids.len()
            invariant
                p <= ids.len(),
                forall|q: int| 0 <= q < ids.len() ==> ids[q] < self@.len(),
                with_counts(self@, ids@.subrange(0, p as int), r@, |i: usize| i),
            decreases ids.len() - p,
        {
            let id = ids[p];
            r.push((id, self.counts[id]));
            p = p + 1;
        }
        proof {
            assert(ids@.subrange(0, ids@.len() as int) == ids@);
        }
        r
    }

    /// The ids whose count is below `n`, in increasing order.
    pub fn counts_less_n(&self, n: usize) -> (r: Vec<usize>)
        ensures
            forall|p: int, q: int| 0 <= p < q < r@.len() ==> r@[p] < r@[q],
            forall|p: int| 0 <= p < r@.len() ==> r@[p] < self@.len() && self@[r@[p] as int] < n,
            forall|i: int| 0 <= i < self@.len() && self@[i] < n ==> r@.contains(i as usize),
    {
        let mut r: Vec<usize> = Vec::new();
        let mut i: usize = 0;
        while i < self.counts.len()
            invariant
                i <= self@.len(),
                forall|p: int, q: int| 0 <= p < q < r@.len() ==> r@[p] < r@[q],
                forall|p: int| 0 <= p < r@.len() ==> r@[p] < i && self@[r@[p] as int] < n,
                forall|j: int| 0 <= j < i && self@[j] < n ==> r@.contains(j as usize),
            decreases self@.len() - i,
        {
            if self.counts[i] < n {
                let ghost before = r@;
                r.push(i);
                proof {
                    assert(r@[before.len() as int] == i);
                    assert forall|j: int| 0 <= j <= i && self@[j] < n implies r@.contains(j as usize) by {
                        if j < i {
                            let p = choose|p: int| 0 <= p < before.len() && before[p] == j as usize;
                            assert(r@[p] == j as usize);
                        }
                    }
                }
            }
            i = i + 1;
        }
        r
    }
}

impl<'a> CounterIter<'a> {
    /// The counter walked over.
    pub closed spec fn counter(&self) -> &'a Counter {
        self.counter
    }

    /// The id of the next pair to come.
    pub closed spec fn position(&self) -> int {
        self.index as int
    }

    /// The next `(id, count)` pair, or `None` once every id has been seen.
    pub fn next(&mut self) -> (r: Option<(u32, usize)>)
        requires
            old(self).counter()@.len() <= u32::MAX as nat + 1,
        ensures
            final(self).counter() == old(self).counter(),
            old(self).position() < old(self).counter()@.len() ==> {
                &&& r == Some((old(self).position() as u32, old(self).counter()@[old(self).position()]))
                &&& final(self).position() == old(self).position() + 1
            },
            old(self).position() >= old(self).counter()@.len() ==> r is None && final(self).position()
                == old(self).position(),
    {
        if self.index < self.counter.counts.len() {
            let r = (self.index as u32, self.counter.counts[self.index]);
            self.index = self.index + 1;
            Some(r)
        } else {
            None
        }
    }
}

} // verus!
