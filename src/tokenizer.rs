use vstd::prelude::*;

use crate::error::VocabError;

verus! {

/// The code point that closes an elementary unit.
pub const CLOSE: char = ']';

/// `u` is one elementary unit: non-empty, ends with the closing bracket and
/// holds no other closing bracket.
pub open spec fn is_unit(u: Seq<char>) -> bool {
    &&& u.len() > 0
    &&& u.last() == CLOSE
    &&& forall|k: int| 0 <= k < u.len() - 1 ==> u[k] != CLOSE
}

/// The concatenation of a sequence of sequences.
pub open spec fn join<A>(parts: Seq<Seq<A>>) -> Seq<A>
    decreases parts.len(),
{
    if parts.len() == 0 {
        Seq::empty()
    } else {
        join(parts.drop_last()) + parts.last()
    }
}

/// Joining two lists of parts one after the other joins each and
/// concatenates the results.
pub proof fn lemma_join_append<A>(a: Seq<Seq<A>>, b: Seq<Seq<A>>)
    ensures
        join(a + b) == join(a) + join(b),
    decreases b.len(),
{
    if b.len() == 0 {
        assert(a + b == a);
        assert(join(b) == Seq::<A>::empty());
        assert(join(a) + join(b) == join(a));
    } else {
        assert((a + b).drop_last() == a + b.drop_last());
        assert((a + b).last() == b.last());
        lemma_join_append(a, b.drop_last());
        assert(join(a + b) == join(a + b.drop_last()) + b.last());
        assert(join(b) == join(b.drop_last()) + b.last());
        assert(join(a) + join(b) == join(a) + join(b.drop_last()) + b.last());
    }
}

/// A record is well formed when it is empty or ends with a closing bracket.
pub open spec fn well_formed_record(s: Seq<char>) -> bool {
    s.len() == 0 || s.last() == CLOSE
}

/// The character spans `(start, end)` of the units of a record.
pub open spec fn spans_cut(s: Seq<char>, spans: Seq<(usize, usize)>) -> bool {
    &&& forall|k: int| 0 <= k < spans.len() ==> {
        &&& spans[k].0 < spans[k].1 <= s.len()
        &&& is_unit(s.subrange(spans[k].0 as int, spans[k].1 as int))
    }
    &&& forall|k: int| 0 < k < spans.len() ==> spans[k].0 == spans[k - 1].1
    &&& spans.len() == 0 ==> s.len() == 0
    &&& spans.len() > 0 ==> spans[0].0 == 0 && spans.last().1 == s.len()
}

/// Cuts a record after each closing bracket and returns the character span
/// of each unit, without copying any text.
pub fn unit_spans(s: &str) -> (r: Result<Vec<(usize, usize)>, VocabError>)
    ensures
        r is Ok <==> well_formed_record(s@),
        r is Err ==> r == Err::<Vec<(usize, usize)>, VocabError>(VocabError::MalformedRecord),
        r matches Ok(spans) ==> spans_cut(s@, spans@),
{
    let mut spans: Vec<(usize, usize)> = Vec::new();
    let mut start: usize = 0;
    let mut i: usize = 0;
    let n = s.unicode_len();
    while i < n
        invariant
            n == s@.len(),
            start <= i <= n,
            forall|k: int| 0 <= k < spans.len() ==> {
                &&& spans[k].0 < spans[k].1 <= start
                &&& is_unit(s@.subrange(spans[k].0 as int, spans[k].1 as int))
            },
            forall|k: int| 0 < k < spans.len() ==> spans[k].0 == spans[k - 1].1,
            spans.len() == 0 ==> start == 0,
            spans.len() > 0 ==> spans[0].0 == 0 && spans@.last().1 == start,
            forall|k: int| start <= k < i ==> s@[k] != CLOSE,
            start == i || s@[i - 1] != CLOSE,
            i > 0 && start == i ==> s@[i - 1] == CLOSE,
        decreases n - i,
    {
        let c = s.get_char(i);
        if c == CLOSE {
            proof {
                let u = s@.subrange(start as int, i + 1);
                assert(u.last() == CLOSE);
                assert forall|k: int| 0 <= k < u.len() - 1 implies u[k] != CLOSE by {
                    assert(u[k] == s@[start + k]);
                }
            }
            spans.push((start, i + 1));
            start = i + 1;
        }
        i = i + 1;
    }
    if start < n {
        Err(VocabError::MalformedRecord)
    } else {
        Ok(spans)
    }
}

/// `units` cut the record `s` into elementary units.
pub open spec fn cuts(s: Seq<char>, units: Seq<Seq<char>>) -> bool {
    &&& join(units) == s
    &&& forall|k: int| 0 <= k < units.len() ==> is_unit(#[trigger] units[k])
}

/// The text of each string slice.
pub open spec fn texts(us: Seq<&str>) -> Seq<Seq<char>> {
    us.map_values(|u: &str| u@)
}

/// Splits a record into its elementary units: a unit ends right after each
/// closing bracket. A record with text after its last closing bracket is
/// refused rather than truncated.
pub fn split_selfie(selfie: &str) -> (r: Result<Vec<&str>, VocabError>)
    ensures
        r is Ok <==> well_formed_record(selfie@),
        r is Err ==> r == Err::<Vec<&str>, VocabError>(VocabError::MalformedRecord),
        r matches Ok(units) ==> cuts(selfie@, texts(units@)),
{
    let spans = match unit_spans(selfie) {
        Ok(spans) => spans,
        Err(e) => {
            return Err(e);
        },
    };
    let mut units: Vec<&str> = Vec::new();
    let mut k: usize = 0;
    while k < spans.len()
        invariant
            k <= spans.len(),
            spans_cut(selfie@, spans@),
            units.len() == k,
            forall|j: int| 0 <= j < k ==> (#[trigger] units@[j])@ == selfie@.subrange(
                spans@[j].0 as int,
                spans@[j].1 as int,
            ),
            k == 0 ==> join(texts(units@)) == Seq::<char>::empty(),
            k > 0 ==> join(texts(units@)) == selfie@.subrange(0, spans@[k - 1].1 as int),
        decreases spans.len() - k,
    {
        let (a, b) = spans[k];
        let u = selfie.substring_char(a, b);
        let ghost before = units@;
        units.push(u);
        proof {
            assert(texts(units@).drop_last() == texts(before));
            if k > 0 {
                assert(a == spans@[k - 1].1);
            }
            assert(selfie@.subrange(0, b as int) == selfie@.subrange(0, a as int) + selfie@.subrange(
                a as int,
                b as int,
            ));
        }
        k = k + 1;
    }
    proof {
        assert forall|j: int| 0 <= j < units@.len() implies is_unit(#[trigger] texts(units@)[j]) by {
            assert(texts(units@)[j] == units@[j]@);
            assert(spans@[j].0 < spans@[j].1 <= selfie@.len());
        }
        if k == 0 {
            assert(selfie@.len() == 0);
        } else {
            assert(selfie@.subrange(0, selfie@.len() as int) == selfie@);
        }
        assert(join(texts(units@)) == selfie@);
    }
    Ok(units)
}

/// Adding one part at the end of a list adds its text at the end of the join.
pub proof fn lemma_join_push<A>(parts: Seq<Seq<A>>, x: Seq<A>)
    ensures
        join(parts.push(x)) == join(parts) + x,
{
    assert(parts.push(x).drop_last() == parts);
}

/// A record that has a cut into units is well formed, and a non-empty cut
/// ends where the record's last unit ends.
pub proof fn lemma_cut_well_formed(s: Seq<char>, units: Seq<Seq<char>>)
    requires
        cuts(s, units),
    ensures
        well_formed_record(s),
        units.len() > 0 ==> s.len() > 0 && s.last() == CLOSE,
        units.len() == 0 ==> s.len() == 0,
{
    if units.len() > 0 {
        let x = units.last();
        assert(is_unit(units[units.len() - 1]));
        assert(s == join(units.drop_last()) + x);
        assert(s.last() == x.last());
    }
}

/// A record has at most one cut into units.
pub proof fn lemma_cut_unique(s: Seq<char>, a: Seq<Seq<char>>, b: Seq<Seq<char>>)
    requires
        cuts(s, a),
        cuts(s, b),
    ensures
        a == b,
    decreases a.len() + b.len(),
{
    lemma_cut_well_formed(s, a);
    lemma_cut_well_formed(s, b);
    if a.len() == 0 || b.len() == 0 {
        if a.len() == 0 && b.len() == 0 {
            assert(a == b);
        }
    } else {
        let x = a.last();
        let y = b.last();
        let a2 = a.drop_last();
        let b2 = b.drop_last();
        assert(is_unit(a[a.len() - 1]));
        assert(is_unit(b[b.len() - 1]));
        assert(s == join(a2) + x);
        assert(s == join(b2) + y);
        assert(cuts(join(a2), a2)) by {
            assert forall|k: int| 0 <= k < a2.len() implies is_unit(#[trigger] a2[k]) by {
                assert(a2[k] == a[k]);
            }
        }
        assert(cuts(join(b2), b2)) by {
            assert forall|k: int| 0 <= k < b2.len() implies is_unit(#[trigger] b2[k]) by {
                assert(b2[k] == b[k]);
            }
        }
        if x.len() < y.len() {
            lemma_cut_well_formed(join(a2), a2);
            let p = s.len() - x.len() - 1;
            assert(s[p] == join(a2)[p]);
            assert(join(a2).len() > 0);
            assert(s[p] == CLOSE);
            let q = y.len() - x.len() - 1;
            assert(s[p] == y[q]);
            assert(false);
        } else if y.len() < x.len() {
            lemma_cut_well_formed(join(b2), b2);
            let p = s.len() - y.len() - 1;
            assert(s[p] == join(b2)[p]);
            assert(join(b2).len() > 0);
            assert(s[p] == CLOSE);
            let q = x.len() - y.len() - 1;
            assert(s[p] == x[q]);
            assert(false);
        }
        assert(x == s.subrange(s.len() - x.len(), s.len() as int));
        assert(y == s.subrange(s.len() - y.len(), s.len() as int));
        assert(join(a2) == s.subrange(0, s.len() - x.len()));
        assert(join(b2) == s.subrange(0, s.len() - y.len()));
        lemma_cut_unique(join(a2), a2, b2);
        assert(a == a2.push(x));
        assert(b == b2.push(y));
    }
}

/// The position of the last closing bracket of `s` before position `k`, or
/// `-1` when there is none.
pub open spec fn last_close(s: Seq<char>, k: int) -> int
    decreases k,
{
    if k <= 0 {
        -1
    } else if s[k - 1] == CLOSE {
        k - 1
    } else {
        last_close(s, k - 1)
    }
}

proof fn lemma_last_close(s: Seq<char>, k: int)
    requires
        0 <= k <= s.len(),
    ensures
        -1 <= last_close(s, k) < k,
        last_close(s, k) >= 0 ==> s[last_close(s, k)] == CLOSE,
        forall|m: int| last_close(s, k) < m < k ==> s[m] != CLOSE,
    decreases k,
{
    if k > 0 && s[k - 1] != CLOSE {
        lemma_last_close(s, k - 1);
    }
}

/// Every well-formed record has a cut into units.
pub proof fn lemma_cut_exists(s: Seq<char>)
    requires
        well_formed_record(s),
    ensures
        exists|units: Seq<Seq<char>>| cuts(s, units),
    decreases s.len(),
{
    if s.len() == 0 {
        let none = Seq::<Seq<char>>::empty();
        assert(s =~= Seq::<char>::empty());
        assert(cuts(s, none));
    } else {
        let p = last_close(s, s.len() - 1);
        lemma_last_close(s, s.len() - 1);
        if p < 0 {
            let one = seq![s];
            lemma_join_push(Seq::<Seq<char>>::empty(), s);
            assert(Seq::<Seq<char>>::empty().push(s) == one);
            assert(is_unit(one[0]));
            assert(cuts(s, one));
        } else {
            let head = s.subrange(0, p + 1);
            let last = s.subrange(p + 1, s.len() as int);
            assert(head.last() == CLOSE);
            lemma_cut_exists(head);
            let units = choose|units: Seq<Seq<char>>| cuts(head, units);
            let all = units.push(last);
            lemma_join_push(units, last);
            assert(head + last =~= s);
            assert(is_unit(last)) by {
                assert forall|k: int| 0 <= k < last.len() - 1 implies last[k] != CLOSE by {
                    assert(last[k] == s[p + 1 + k]);
                }
                assert(last.last() == s.last());
            }
            assert forall|k: int| 0 <= k < all.len() implies is_unit(#[trigger] all[k]) by {
                if k < units.len() {
                    assert(all[k] == units[k]);
                }
            }
            assert(cuts(s, all));
        }
    }
}

} // verus!
