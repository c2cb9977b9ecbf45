use vstd::prelude::*;

use crate::error::VocabError;
use crate::lexical::{lemma_lex_total, lemma_lex_transitive, lex_lt, strictly_sorted};
use crate::tables::{
    add_unit, insert_merge, insert_unit, merge_count, merge_id, merge_pairs, merge_seq,
    copy_unit_table, new_merge_table, new_unit_set, new_unit_table, shuffled, sort_texts, unit_count, unit_id, unit_pairs,
    unit_set, unit_set_items, unit_text, MergeTable, UnitTable,
};
use crate::tokenizer::{
    cuts, is_unit, join, lemma_cut_unique, lemma_cut_well_formed, lemma_join_push, split_selfie,
    texts, well_formed_record,
};

verus! {

/// What a vocabulary holds: the text of each base id `0..B`, and the base-id
/// sequence of each auxiliary id `B..B+A`, in id order.
pub struct VocabView {
    pub units: Seq<Seq<char>>,
    pub merges: Seq<Seq<u32>>,
}

impl VocabView {
    /// The number of base ids, `B`.
    pub open spec fn base_len(self) -> nat {
        self.units.len()
    }

    /// The number of ids, base and auxiliary.
    pub open spec fn size(self) -> nat {
        self.units.len() + self.merges.len()
    }

    /// A well-formed vocabulary: the ids fit in `u32`, every base text is one
    /// unit, texts and merged sequences are each distinct, and every merged
    /// sequence has at least two base ids.
    pub open spec fn valid(self) -> bool {
        &&& self.size() <= u32::MAX
        &&& forall|i: int| 0 <= i < self.units.len() ==> is_unit(#[trigger] self.units[i])
        &&& forall|i: int, j: int|
            0 <= i < j < self.units.len() ==> self.units[i] != self.units[j]
        &&& forall|k: int| 0 <= k < self.merges.len() ==> self.is_merge(#[trigger] self.merges[k])
        &&& forall|k: int, l: int|
            0 <= k < l < self.merges.len() ==> self.merges[k] != self.merges[l]
    }

    /// A sequence that may be merged: two or more base ids.
    pub open spec fn is_merge(self, s: Seq<u32>) -> bool {
        &&& s.len() >= 2
        &&& forall|x: int| 0 <= x < s.len() ==> s[x] < self.base_len()
    }

    /// The base ids that the id `id` stands for.
    pub open spec fn piece(self, id: u32) -> Seq<u32> {
        if id < self.base_len() {
            seq![id]
        } else {
            self.merges[id - self.base_len()]
        }
    }

    /// The base ids that an encoded sequence stands for.
    pub open spec fn expand(self, enc: Seq<u32>) -> Seq<u32> {
        join(enc.map_values(|id: u32| self.piece(id)))
    }

    /// The text of a sequence of base ids.
    pub open spec fn spell(self, ids: Seq<u32>) -> Seq<char> {
        join(ids.map_values(|id: u32| self.units[id as int]))
    }

    /// The text of an encoded sequence: each id expanded, then spelled.
    pub open spec fn decode(self, enc: Seq<u32>) -> Seq<char> {
        join(enc.map_values(|id: u32| self.spell(self.piece(id))))
    }

    /// The vocabulary after registering `s`: unchanged when `s` is already
    /// there or may not be merged, else with `s` as a new last entry.
    pub open spec fn merged(self, s: Seq<u32>) -> VocabView {
        if self.merges.contains(s) || !self.is_merge(s) {
            self
        } else {
            VocabView { units: self.units, merges: self.merges.push(s) }
        }
    }

    /// The auxiliary id of a registered sequence.
    pub open spec fn aux_id_of(self, s: Seq<u32>) -> int {
        self.base_len() + choose|k: int| 0 <= k < self.merges.len() && self.merges[k] == s
    }

    /// Every id of `enc` is an id of this vocabulary.
    pub open spec fn all_known(self, enc: Seq<u32>) -> bool {
        forall|k: int| 0 <= k < enc.len() ==> enc[k] < self.size()
    }

    /// Every id of `ids` is a base id.
    pub open spec fn all_base(self, ids: Seq<u32>) -> bool {
        forall|k: int| 0 <= k < ids.len() ==> ids[k] < self.base_len()
    }
}

/// `u` is a unit of one of the first `k` records of `corpus`.
pub open spec fn unit_before(corpus: Seq<String>, k: int, u: Seq<char>) -> bool {
    exists|r: int, cut: Seq<Seq<char>>|
        0 <= r < k && #[trigger] cuts(corpus[r]@, cut) && cut.contains(u)
}

/// `u` is a unit of some record of `corpus`.
pub open spec fn corpus_unit(corpus: Seq<String>, u: Seq<char>) -> bool {
    unit_before(corpus, corpus.len() as int, u)
}

/// Every record of `corpus` is well formed.
pub open spec fn all_well_formed(corpus: Seq<String>) -> bool {
    forall|r: int| 0 <= r < corpus.len() ==> well_formed_record(#[trigger] corpus[r]@)
}

/// The merged sequences that survive the removal of the auxiliary ids in
/// `del`, in increasing order of their old ids; `base` is the first
/// auxiliary id.
pub open spec fn survivors(ms: Seq<Seq<u32>>, base: nat, del: Seq<u32>) -> Seq<Seq<u32>>
    decreases ms.len(),
{
    if ms.len() == 0 {
        Seq::empty()
    } else {
        let rest = survivors(ms.drop_last(), base, del);
        if del.contains((base + ms.len() - 1) as u32) {
            rest
        } else {
            rest.push(ms.last())
        }
    }
}

/// The merged sequences that registering the ids of `order` one after the
/// other gives: an id that is not auxiliary, or whose sequence is already
/// there, adds nothing.
pub open spec fn gather(v: VocabView, order: Seq<u32>) -> Seq<Seq<u32>>
    decreases order.len(),
{
    if order.len() == 0 {
        Seq::empty()
    } else {
        let rest = gather(v, order.drop_last());
        let x = order.last();
        if v.base_len() <= x < v.size() && !rest.contains(v.merges[x - v.base_len()]) {
            rest.push(v.merges[x - v.base_len()])
        } else {
            rest
        }
    }
}

/// The auxiliary ids of `v`, in increasing order.
pub open spec fn aux_ids(v: VocabView) -> Seq<u32> {
    Seq::new(v.merges.len(), |k: int| (v.base_len() + k) as u32)
}

/// A two-tier vocabulary: base ids for elementary units, auxiliary ids for
/// merged runs of base ids.
pub struct Vocab {
    base_vocab: UnitTable,
    aux_vocab: MergeTable,
    units: Ghost<Seq<Seq<char>>>,
    merges: Ghost<Seq<Seq<u32>>>,
}

impl View for Vocab {
    type V = VocabView;

    closed spec fn view(&self) -> VocabView {
        VocabView { units: self.units@, merges: self.merges@ }
    }
}

impl Vocab {
    /// Builds the base vocabulary of a corpus: its distinct units, in
    /// increasing lexicographic order, get the ids `0..B`; there is no
    /// auxiliary entry yet. A malformed record is refused.
    pub fn new(selfies: &Vec<String>) -> (r: Result<Vocab, VocabError>)
        ensures
            r is Ok ==> all_well_formed(selfies@),
            r is Err ==> r == Err::<Vocab, VocabError>(VocabError::MalformedRecord) || r == Err::<
                Vocab,
                VocabError,
            >(VocabError::VocabularyFull),
            r == Err::<Vocab, VocabError>(VocabError::MalformedRecord) <==> !all_well_formed(
                selfies@,
            ),
            r == Err::<Vocab, VocabError>(VocabError::VocabularyFull) ==> exists|s: Seq<Seq<char>>|
                s.len() > u32::MAX && strictly_sorted(s) && forall|i: int|
                    0 <= i < s.len() ==> corpus_unit(selfies@, #[trigger] s[i]),
            r matches Ok(v) ==> {
                &&& v.wf()
                &&& v@.merges.len() == 0
                &&& strictly_sorted(v@.units)
                &&& forall|u: Seq<char>| v@.units.contains(u) <==> corpus_unit(selfies@, u)
            },
    {
        let ghost corpus = selfies@;
        let mut set = new_unit_set();
        let mut k: usize = 0;
        while k < selfies.len()
            invariant
                corpus == selfies@,
                k <= corpus.len(),
                forall|r: int| 0 <= r < k ==> well_formed_record(#[trigger] corpus[r]@),
                forall|u: Seq<char>| unit_set(set).contains(u) <==> unit_before(corpus, k as int, u),
            decreases corpus.len() - k,
        {
            let units = match split_selfie(selfies[k].as_str()) {
                Ok(units) => units,
                Err(e) => {
                    proof {
                        assert(!well_formed_record(corpus[k as int]@));
                    }
                    return Err(e);
                },
            };
            let ghost parts = texts(units@);
            let ghost before = unit_set(set);
            let mut j: usize = 0;
            while j < units.len()
                invariant
                    parts == texts(units@),
                    j <= units@.len(),
                    forall|u: Seq<char>|
                        #![trigger unit_set(set).contains(u)]
                        unit_set(set).contains(u) <==> before.contains(u) || parts.subrange(
                            0,
                            j as int,
                        ).contains(u),
                decreases units@.len() - j,
            {
                let ghost prev = unit_set(set);
                add_unit(&mut set, units[j].to_owned());
                proof {
                    assert(parts.len() == units@.len());
                    assert(parts[j as int] == units@[j as int]@);
                    assert forall|u: Seq<char>|
                        #![trigger unit_set(set).contains(u)]
                        unit_set(set).contains(u) <==> before.contains(u) || parts.subrange(
                            0,
                            j + 1,
                        ).contains(u) by {
                        let lo = parts.subrange(0, j as int);
                        let hi = parts.subrange(0, j + 1);
                        assert(prev.contains(u) <==> before.contains(u) || lo.contains(u));
                        assert(hi[j as int] == parts[j as int]);
                        if lo.contains(u) {
                            let p = choose|p: int| 0 <= p < lo.len() && lo[p] == u;
                            assert(hi[p] == u);
                        }
                        if hi.contains(u) {
                            let p = choose|p: int| 0 <= p < hi.len() && hi[p] == u;
                            if p < j {
                                assert(lo[p] == u);
                            }
                        }
                    }
                }
                j = j + 1;
            }
            proof {
                assert(parts.len() == units@.len());
                assert(parts.subrange(0, parts.len() as int) == parts);
                assert forall|u: Seq<char>|
                    unit_set(set).contains(u) <==> unit_before(corpus, k + 1, u) by {
                    assert(unit_set(set).contains(u) <==> before.contains(u) || parts.contains(u));
                    assert(before.contains(u) <==> unit_before(corpus, k as int, u));
                    if parts.contains(u) {
                        assert(cuts(corpus[k as int]@, parts) && parts.contains(u));
                        assert(unit_before(corpus, k + 1, u));
                    }
                    if unit_before(corpus, k as int, u) {
                        let (r, cut) = choose|r: int, cut: Seq<Seq<char>>|
                            0 <= r < k && #[trigger] cuts(corpus[r]@, cut) && cut.contains(u);
                        assert(cuts(corpus[r]@, cut) && 0 <= r < k + 1);
                        assert(unit_before(corpus, k + 1, u));
                    }
                    if unit_before(corpus, k + 1, u) {
                        let (r, cut) = choose|r: int, cut: Seq<Seq<char>>|
                            0 <= r < k + 1 && #[trigger] cuts(corpus[r]@, cut) && cut.contains(u);
                        if r == k {
                            lemma_cut_unique(corpus[k as int]@, cut, parts);
                        } else {
                            assert(cuts(corpus[r]@, cut) && 0 <= r < k);
                            assert(unit_before(corpus, k as int, u));
                        }
                    }
                }
            }
            k = k + 1;
        }
        let items = unit_set_items(&set);
        let sorted = sort_texts(items);
        let ghost item_texts = items@.map_values(|t: String| t@);
        let ghost sorted_texts = sorted@.map_values(|t: String| t@);
        proof {
            broadcast use vstd::seq_lib::group_to_multiset_ensures;

            assert forall|u: Seq<char>| sorted_texts.contains(u) <==> corpus_unit(corpus, u) by {
                assert(sorted_texts.contains(u) <==> sorted_texts.to_multiset().count(u) > 0);
                assert(item_texts.contains(u) <==> item_texts.to_multiset().count(u) > 0);
                if item_texts.contains(u) {
                    let i = choose|i: int| 0 <= i < item_texts.len() && item_texts[i] == u;
                    assert(items@[i]@ == u);
                }
                if unit_set(set).contains(u) {
                    let i = choose|i: int| 0 <= i < items@.len() && items@[i]@ == u;
                    assert(item_texts[i] == u);
                }
            }
        }
        let mut table = new_unit_table();
        let ghost mut units: Seq<Seq<char>> = Seq::empty();
        let mut count: u32 = 0;
        let mut i: usize = 0;
        while i < sorted.len()
            invariant
                corpus == selfies@,
                all_well_formed(corpus),
                sorted_texts == sorted@.map_values(|t: String| t@),
                forall|u: Seq<char>| sorted_texts.contains(u) <==> corpus_unit(corpus, u),
                forall|a: int, b: int| 0 <= a < b < sorted@.len() ==> !lex_lt(sorted@[b]@, sorted@[a]@),
                i <= sorted@.len(),
                count == units.len(),
                strictly_sorted(units),
                i > 0 ==> units.len() > 0 && units.last() == sorted@[i - 1]@,
                i == 0 ==> units.len() == 0,
                forall|u: Seq<char>|
                    units.contains(u) <==> exists|a: int| 0 <= a < i && sorted@[a]@ == u,
                unit_pairs(table).dom().finite(),
                unit_pairs(table).len() == units.len(),
                forall|p: int|
                    0 <= p < units.len() ==> unit_pairs(table).contains_key(#[trigger] units[p])
                        && unit_pairs(table)[units[p]] == p,
                forall|u: Seq<char>|
                    #[trigger] unit_pairs(table).contains_key(u) ==> unit_pairs(table)[u]
                        < units.len() && units[unit_pairs(table)[u] as int] == u,
            decreases sorted@.len() - i,
        {
            if i == 0 || sorted[i] != sorted[i - 1] {
                if count == u32::MAX {
                    proof {
                        let s = units.push(sorted@[i as int]@);
                        assert(i > 0);
                        lemma_lex_total(sorted@[i - 1]@, sorted@[i as int]@);
                        assert(lex_lt(units.last(), sorted@[i as int]@));
                        assert forall|a: int, b: int| 0 <= a < b < s.len() implies lex_lt(
                            s[a],
                            s[b],
                        ) by {
                            if b == units.len() && a < units.len() - 1 {
                                lemma_lex_transitive(s[a], units.last(), s[b]);
                            }
                        }
                        assert forall|p: int| 0 <= p < s.len() implies corpus_unit(
                            corpus,
                            #[trigger] s[p],
                        ) by {
                            if p < units.len() {
                                assert(units.contains(s[p]));
                                let a = choose|a: int| 0 <= a < i && sorted@[a]@ == s[p];
                                assert(sorted_texts[a] == s[p]);
                            } else {
                                assert(sorted_texts[i as int] == s[p]);
                            }
                        }
                        assert(s.len() > u32::MAX && strictly_sorted(s) && forall|p: int|
                            0 <= p < s.len() ==> corpus_unit(corpus, #[trigger] s[p]));
                    }
                    return Err(VocabError::VocabularyFull);
                }
                let ghost t = sorted@[i as int]@;
                proof {
                    if i > 0 {
                        lemma_lex_total(sorted@[i - 1]@, t);
                    }
                    assert forall|p: int| 0 <= p < units.len() implies lex_lt(units[p], t) by {
                        if p < units.len() - 1 {
                            lemma_lex_transitive(units[p], units.last(), t);
                        }
                    }
                    assert(!unit_pairs(table).contains_key(t)) by {
                        if unit_pairs(table).contains_key(t) {
                            let p = unit_pairs(table)[t] as int;
                            assert(units[p] == t);
                            crate::lexical::lemma_lex_irreflexive(t);
                        }
                    }
                }
                insert_unit(&mut table, sorted[i].clone(), count);
                proof {
                    let old_units = units;
                    units = units.push(t);
                    assert forall|u: Seq<char>|
                        units.contains(u) <==> exists|a: int| 0 <= a < i + 1 && sorted@[a]@ == u by {
                        if old_units.contains(u) {
                            let p = choose|p: int| 0 <= p < old_units.len() && old_units[p] == u;
                            assert(units[p] == u);
                        }
                        if units.contains(u) && u != t {
                            let p = choose|p: int| 0 <= p < units.len() && units[p] == u;
                            assert(old_units[p] == u);
                        }
                        if u == t {
                            assert(units[old_units.len() as int] == t);
                        }
                    }
                    assert forall|p: int|
                        0 <= p < units.len() implies unit_pairs(table).contains_key(
                        #[trigger] units[p],
                    ) && unit_pairs(table)[units[p]] == p by {
                        if p < old_units.len() {
                            assert(units[p] == old_units[p]);
                            assert(lex_lt(old_units[p], t));
                            crate::lexical::lemma_lex_irreflexive(t);
                        }
                    }
                }
                count = count + 1;
            } else {
                proof {
                    assert(sorted@[i as int]@ == sorted@[i - 1]@);
                    assert forall|u: Seq<char>|
                        units.contains(u) <==> exists|a: int| 0 <= a < i + 1 && sorted@[a]@ == u by {
                        if exists|a: int| 0 <= a < i + 1 && sorted@[a]@ == u {
                            let a = choose|a: int| 0 <= a < i + 1 && sorted@[a]@ == u;
                            if a == i {
                                assert(sorted@[i - 1]@ == u);
                            }
                        }
                    }
                }
            }
            i = i + 1;
        }
        proof {
            assert forall|u: Seq<char>| units.contains(u) <==> corpus_unit(corpus, u) by {
                if units.contains(u) {
                    let a = choose|a: int| 0 <= a < i && sorted@[a]@ == u;
                    assert(sorted_texts[a] == u);
                }
                if corpus_unit(corpus, u) {
                    let a = choose|a: int| 0 <= a < sorted_texts.len() && sorted_texts[a] == u;
                    assert(sorted@[a]@ == u);
                }
            }
            assert forall|p: int| 0 <= p < units.len() implies is_unit(#[trigger] units[p]) by {
                assert(units.contains(units[p]));
                let (r, cut) = choose|r: int, cut: Seq<Seq<char>>|
                    0 <= r < corpus.len() && #[trigger] cuts(corpus[r]@, cut) && cut.contains(units[p]);
                let q = choose|q: int| 0 <= q < cut.len() && cut[q] == units[p];
                assert(is_unit(cut[q]));
            }
            assert forall|a: int, b: int| 0 <= a < b < units.len() implies units[a] != units[b] by {
                crate::lexical::lemma_lex_irreflexive(units[a]);
            }
        }
        let v = Vocab {
            base_vocab: table,
            aux_vocab: new_merge_table(),
            units: Ghost(units),
            merges: Ghost(Seq::empty()),
        };
        proof {
            assert(merge_pairs(v.aux_vocab).dom().len() == 0);
        }
        Ok(v)
    }

    /// The two bimaps hold exactly the pairs of the model.
    pub closed spec fn tables_agree(&self) -> bool {
        let up = unit_pairs(self.base_vocab);
        let mp = merge_pairs(self.aux_vocab);
        let b = self.units@.len();
        &&& up.dom().finite()
        &&& up.len() == b
        &&& forall|i: int|
            0 <= i < b ==> up.contains_key(#[trigger] self.units@[i]) && up[self.units@[i]] == i
        &&& forall|u: Seq<char>|
            #[trigger] up.contains_key(u) ==> up[u] < b && self.units@[up[u] as int] == u
        &&& mp.dom().finite()
        &&& mp.len() == self.merges@.len()
        &&& forall|k: int|
            0 <= k < self.merges@.len() ==> mp.contains_key(#[trigger] self.merges@[k]) && mp[self.merges@[k]]
                == b + k
        &&& forall|s: Seq<u32>|
            #[trigger] mp.contains_key(s) ==> b <= mp[s] < b + self.merges@.len()
                && self.merges@[mp[s] - b] == s
    }

    /// The vocabulary is well formed.
    pub open spec fn wf(&self) -> bool {
        self@.valid() && self.tables_agree()
    }

    /// The number of ids, base and auxiliary.
    pub fn len(&self) -> (r: usize)
        requires
            self.wf(),
        ensures
            r == self@.size(),
    {
        unit_count(&self.base_vocab) + merge_count(&self.aux_vocab)
    }

    /// Whether the vocabulary holds no id at all.
    pub fn is_empty(&self) -> (r: bool)
        requires
            self.wf(),
        ensures
            r == (self@.size() == 0),
    {
        unit_count(&self.base_vocab) == 0 && merge_count(&self.aux_vocab) == 0
    }

    fn get_base_idx(&self) -> (r: u32)
        requires
            self.wf(),
        ensures
            r == self@.base_len(),
    {
        unit_count(&self.base_vocab) as u32
    }

    fn get_aux_idx(&self) -> (r: u32)
        requires
            self.wf(),
        ensures
            r == self@.size(),
    {
        (unit_count(&self.base_vocab) + merge_count(&self.aux_vocab)) as u32
    }

    /// The base id of a unit text.
    pub fn get_base<'a>(&'a self, token: &str) -> (r: Option<&'a u32>)
        requires
            self.wf(),
        ensures
            match r {
                Some(id) => *id < self@.base_len() && self@.units[*id as int] == token@,
                None => !self@.units.contains(token@),
            },
    {
        let r = unit_id(&self.base_vocab, token);
        proof {
            if r is None && self@.units.contains(token@) {
                let i = choose|i: int| 0 <= i < self@.units.len() && self@.units[i] == token@;
                assert(unit_pairs(self.base_vocab).contains_key(self.units@[i]));
            }
        }
        r
    }

    /// The auxiliary id of a merged sequence.
    pub fn get_aux<'a>(&'a self, tokens: &[u32]) -> (r: Option<&'a u32>)
        requires
            self.wf(),
        ensures
            match r {
                Some(id) => self@.base_len() <= *id < self@.size() && self@.merges[*id
                    - self@.base_len()] == tokens@,
                None => !self@.merges.contains(tokens@),
            },
    {
        let r = merge_id(&self.aux_vocab, tokens);
        proof {
            if r is None && self@.merges.contains(tokens@) {
                let k = choose|k: int| 0 <= k < self@.merges.len() && self@.merges[k] == tokens@;
                assert(merge_pairs(self.aux_vocab).contains_key(self.merges@[k]));
            }
        }
        r
    }

    /// The merged sequence of an auxiliary id.
    pub fn tok_to_ngram<'a>(&'a self, idx: u32) -> (r: Option<&'a Vec<u32>>)
        requires
            self.wf(),
        ensures
            match r {
                Some(s) => self@.base_len() <= idx < self@.size() && s@ == self@.merges[idx
                    - self@.base_len()],
                None => !(self@.base_len() <= idx < self@.size()),
            },
    {
        let r = merge_seq(&self.aux_vocab, idx);
        proof {
            let b = self@.base_len();
            if r is None && b <= idx < self@.size() {
                assert(merge_pairs(self.aux_vocab).contains_key(self.merges@[idx - b]));
            }
        }
        r
    }

    /// Whether `idx` is an auxiliary id.
    pub fn is_aux(&self, idx: &u32) -> (r: bool)
        requires
            self.wf(),
        ensures
            r == (self@.base_len() <= *idx < self@.size()),
    {
        let b = self.get_base_idx();
        let n = self.get_aux_idx();
        b <= *idx && *idx < n
    }

    /// The auxiliary ids, in increasing order.
    pub fn aux_vals(&self) -> (r: Vec<u32>)
        requires
            self.wf(),
        ensures
            r@.len() == self@.merges.len(),
            forall|k: int| 0 <= k < r@.len() ==> r@[k] == self@.base_len() + k,
    {
        let b = self.get_base_idx();
        let n = self.get_aux_idx();
        let mut r: Vec<u32> = Vec::new();
        let mut id = b;
        while id < n
            invariant
                b <= id <= n,
                b == self@.base_len(),
                n == self@.size(),
                r@.len() == id - b,
                forall|k: int| 0 <= k < r@.len() ==> r@[k] == b + k,
            decreases n - id,
        {
            r.push(id);
            id = id + 1;
        }
        r
    }

    /// The text of a unit id.
    fn unit_str(&self, id: u32) -> (r: &String)
        requires
            self.wf(),
            id < self@.base_len(),
        ensures
            r@ == self@.units[id as int],
    {
        let r = unit_text(&self.base_vocab, id);
        match r {
            Some(t) => t,
            None => {
                proof {
                    assert(unit_pairs(self.base_vocab).contains_key(self.units@[id as int]));
                }
                unreached()
            },
        }
    }

    /// The text that an encoded sequence stands for: each auxiliary id is
    /// expanded to its base ids, and each base id spelled. An id outside the
    /// vocabulary is refused.
    pub fn decode(&self, encoded: &Vec<u32>) -> (r: Result<String, VocabError>)
        requires
            self.wf(),
        ensures
            r is Ok <==> self@.all_known(encoded@),
            r matches Ok(s) ==> s@ == self@.decode(encoded@),
            r is Err ==> r == Err::<String, VocabError>(VocabError::UnknownToken),
    {
        let b = self.get_base_idx();
        let n = self.get_aux_idx();
        let ghost v = self@;
        let ghost f = |id: u32| v.spell(v.piece(id));
        let mut out = String::new();
        let mut k: usize = 0;
        while k < encoded.len()
            invariant
                self.wf(),
                v == self@,
                f == (|id: u32| v.spell(v.piece(id))),
                b == v.base_len(),
                n == v.size(),
                k <= encoded@.len(),
                v.all_known(encoded@.subrange(0, k as int)),
                out@ == join(encoded@.subrange(0, k as int).map_values(f)),
            decreases encoded@.len() - k,
        {
            let tok = encoded[k];
            let ghost before = out@;
            if tok < b {
                let t = self.unit_str(tok);
                out.append(t.as_str());
                proof {
                    let one = seq![tok];
                    assert(one.map_values(|id: u32| v.units[id as int]) == seq![v.units[tok as int]]);
                    lemma_join_push(Seq::<Seq<char>>::empty(), v.units[tok as int]);
                    assert(Seq::<Seq<char>>::empty().push(v.units[tok as int]) == seq![v.units[tok as int]]);
                    assert(f(tok) == v.units[tok as int]);
                }
            } else if tok < n {
                let seq = match merge_seq(&self.aux_vocab, tok) {
                    Some(s) => s,
                    None => {
                        proof {
                            assert(merge_pairs(self.aux_vocab).contains_key(self.merges@[tok - b]));
                        }
                        unreached()
                    },
                };
                let ghost m = seq@;
                assert(m == v.merges[tok - b]);
                assert(v.is_merge(m));
                let mut j: usize = 0;
                while j < seq.len()
                    invariant
                        self.wf(),
                        v == self@,
                        b == v.base_len(),
                        m == seq@,
                        v.is_merge(m),
                        j <= m.len(),
                        out@ == before + v.spell(m.subrange(0, j as int)),
                    decreases m.len() - j,
                {
                    let t = self.unit_str(seq[j]);
                    let ghost mid = out@;
                    out.append(t.as_str());
                    proof {
                        let g = |id: u32| v.units[id as int];
                        assert(m.subrange(0, j + 1).map_values(g) == m.subrange(0, j as int).map_values(
                            g,
                        ).push(v.units[m[j as int] as int]));
                        lemma_join_push(
                            m.subrange(0, j as int).map_values(g),
                            v.units[m[j as int] as int],
                        );
                    }
                    j = j + 1;
                }
                proof {
                    assert(m.subrange(0, m.len() as int) == m);
                    assert(f(tok) == v.spell(m));
                }
            } else {
                return Err(VocabError::UnknownToken);
            }
            proof {
                assert(encoded@.subrange(0, k + 1).map_values(f) == encoded@.subrange(
                    0,
                    k as int,
                ).map_values(f).push(f(tok)));
                lemma_join_push(encoded@.subrange(0, k as int).map_values(f), f(tok));
                assert(encoded@.subrange(0, k + 1) == encoded@.subrange(0, k as int).push(tok));
            }
            k = k + 1;
        }
        proof {
            assert(encoded@.subrange(0, encoded@.len() as int) == encoded@);
        }
        Ok(out)
    }

    /// Registers a run of base ids as one auxiliary entry. A run that is
    /// already registered keeps its id; a new one gets the next id, the
    /// current size. A run of fewer than two ids, or holding an id that is
    /// not a base id, is refused.
    pub fn insert_ngram(&mut self, tokens: &Vec<u32>) -> (r: Result<u32, VocabError>)
        requires
            old(self).wf(),
            old(self)@.size() < u32::MAX,
        ensures
            final(self).wf(),
            r is Ok <==> old(self)@.is_merge(tokens@),
            tokens@.len() < 2 ==> r == Err::<u32, VocabError>(VocabError::InvalidWindow),
            tokens@.len() >= 2 && !old(self)@.is_merge(tokens@) ==> r == Err::<u32, VocabError>(
                VocabError::UnknownToken,
            ),
            r is Err ==> final(self)@ == old(self)@,
            r is Ok && old(self)@.merges.contains(tokens@) ==> final(self)@ == old(self)@,
            r is Ok && !old(self)@.merges.contains(tokens@) ==> final(self)@ == (VocabView {
                units: old(self)@.units,
                merges: old(self)@.merges.push(tokens@),
            }),
            r matches Ok(id) ==> old(self)@.base_len() <= id < final(self)@.size()
                && final(self)@.merges[id - old(self)@.base_len()] == tokens@,
            final(self)@ == old(self)@.merged(tokens@),
            r matches Ok(id) ==> id == final(self)@.aux_id_of(tokens@),
    {
        if tokens.len() < 2 {
            return Err(VocabError::InvalidWindow);
        }
        let b = self.get_base_idx();
        let mut j: usize = 0;
        while j < tokens.len()
            invariant
                self.wf(),
                self@ == old(self)@,
                b == self@.base_len(),
                tokens@.len() >= 2,
                j <= tokens@.len(),
                forall|x: int| 0 <= x < j ==> tokens@[x] < b,
            decreases tokens@.len() - j,
        {
            if tokens[j] >= b {
                return Err(VocabError::UnknownToken);
            }
            j = j + 1;
        }
        match self.get_aux(tokens.as_slice()) {
            Some(id) => {
                proof {
                    let b = self@.base_len();
                    assert(self@.merges.contains(tokens@));
                    let k = choose|k: int|
                        0 <= k < self@.merges.len() && self@.merges[k] == tokens@;
                    assert(k == *id - b);
                }
                Ok(*id)
            },
            None => {
                let id = self.get_aux_idx();
                let ghost old_merges = self.merges@;
                proof {
                    assert forall|t: Seq<u32>|
                        merge_pairs(self.aux_vocab).contains_key(t) implies merge_pairs(
                        self.aux_vocab,
                    )[t] != id by {}
                }
                insert_merge(&mut self.aux_vocab, tokens.clone(), id);
                self.merges = Ghost(old_merges.push(tokens@));
                proof {
                    let mp = merge_pairs(self.aux_vocab);
                    assert(mp.dom() == merge_pairs(old(self).aux_vocab).dom().insert(tokens@));
                    assert forall|k: int| 0 <= k < self.merges@.len() implies mp.contains_key(
                        #[trigger] self.merges@[k],
                    ) && mp[self.merges@[k]] == b + k by {
                        if k < old_merges.len() {
                            assert(self.merges@[k] == old_merges[k]);
                            assert(self.merges@[k] != tokens@);
                        }
                    }
                    assert(self@.valid()) by {
                        assert forall|k: int, l: int|
                            0 <= k < l < self@.merges.len() implies self@.merges[k]
                            != self@.merges[l] by {
                            if l == old_merges.len() {
                                assert(old_merges.contains(old_merges[k]));
                            }
                        }
                        assert forall|k: int| 0 <= k < self@.merges.len() implies self@.is_merge(
                            #[trigger] self@.merges[k],
                        ) by {
                            if k < old_merges.len() {
                                assert(old(self)@.is_merge(old_merges[k]));
                            }
                        }
                    }
                    assert(old(self)@.is_merge(tokens@));
                    let k = choose|k: int|
                        0 <= k < self@.merges.len() && self@.merges[k] == tokens@;
                    assert(self@.merges[old_merges.len() as int] == tokens@);
                    if k != old_merges.len() {
                        assert(old_merges[k] == tokens@);
                        assert(old_merges.contains(tokens@));
                    }
                }
                Ok(id)
            },
        }
    }

    /// The base ids of a record's units, in order. A malformed record, or one
    /// with a unit that is not a base unit, is refused.
    pub fn base_encode(&self, selfie: &str) -> (r: Result<Vec<u32>, VocabError>)
        requires
            self.wf(),
        ensures
            r is Ok <==> exists|ids: Seq<u32>| self@.all_base(ids) && self@.spell(ids) == selfie@,
            r matches Ok(ids) ==> self@.all_base(ids@) && self@.spell(ids@) == selfie@,
            r == Err::<Vec<u32>, VocabError>(VocabError::MalformedRecord) <==> !well_formed_record(
                selfie@,
            ),
            r is Err ==> r == Err::<Vec<u32>, VocabError>(VocabError::MalformedRecord) || r == Err::<
                Vec<u32>,
                VocabError,
            >(VocabError::UnknownToken),
    {
        let ghost v = self@;
        let units = match split_selfie(selfie) {
            Ok(u) => u,
            Err(e) => {
                proof {
                    if exists|ids: Seq<u32>| v.all_base(ids) && v.spell(ids) == selfie@ {
                        let ids = choose|ids: Seq<u32>| v.all_base(ids) && v.spell(ids) == selfie@;
                        self.lemma_spell_cuts(ids);
                        lemma_cut_well_formed(selfie@, ids.map_values(|id: u32| v.units[id as int]));
                    }
                }
                return Err(e);
            },
        };
        let ghost parts = texts(units@);
        let mut ids: Vec<u32> = Vec::new();
        let mut k: usize = 0;
        while k < units.len()
            invariant
                self.wf(),
                v == self@,
                parts == texts(units@),
                cuts(selfie@, parts),
                k <= units@.len(),
                ids@.len() == k,
                v.all_base(ids@),
                ids@.map_values(|id: u32| v.units[id as int]) == parts.subrange(0, k as int),
            decreases units@.len() - k,
        {
            match self.get_base(units[k]) {
                Some(id) => {
                    let ghost before = ids@;
                    ids.push(*id);
                    proof {
                        let g = |id: u32| v.units[id as int];
                        assert(ids@.map_values(g) == before.map_values(g).push(g(*id)));
                        assert(parts[k as int] == units@[k as int]@);
                        assert(parts.subrange(0, k + 1) == parts.subrange(0, k as int).push(
                            parts[k as int],
                        ));
                    }
                },
                None => {
                    proof {
                        if exists|ids: Seq<u32>| v.all_base(ids) && v.spell(ids) == selfie@ {
                            let other = choose|ids: Seq<u32>|
                                v.all_base(ids) && v.spell(ids) == selfie@;
                            self.lemma_spell_cuts(other);
                            let g = |id: u32| v.units[id as int];
                            lemma_cut_unique(selfie@, other.map_values(g), parts);
                            assert(parts[k as int] == units@[k as int]@);
                            assert(other.map_values(g)[k as int] == v.units[other[k as int] as int]);
                            assert(v.units.contains(parts[k as int]));
                        }
                        lemma_cut_well_formed(selfie@, parts);
                    }
                    return Err(VocabError::UnknownToken);
                },
            }
            k = k + 1;
        }
        proof {
            assert(parts.subrange(0, parts.len() as int) == parts);
        }
        Ok(ids)
    }

    /// Rebuilds a vocabulary from its base texts, in id order, and its merged
    /// sequences, in auxiliary id order; `None` when they do not form a
    /// well-formed vocabulary.
    pub fn from_parts(units: &Vec<String>, merges: &Vec<Vec<u32>>) -> (r: Option<Vocab>)
        ensures
            r is Some <==> (VocabView {
                units: units@.map_values(|t: String| t@),
                merges: merges@.map_values(|m: Vec<u32>| m@),
            }).valid(),
            r matches Some(v) ==> v.wf() && v@ == (VocabView {
                units: units@.map_values(|t: String| t@),
                merges: merges@.map_values(|m: Vec<u32>| m@),
            }),
    {
        let ghost target = VocabView {
            units: units@.map_values(|t: String| t@),
            merges: merges@.map_values(|m: Vec<u32>| m@),
        };
        if units.len() > u32::MAX as usize || merges.len() > u32::MAX as usize - units.len() {
            return None;
        }
        let mut table = new_unit_table();
        let ghost mut seen: Seq<Seq<char>> = Seq::empty();
        let mut i: usize = 0;
        while i < units.len()
            invariant
                target.units == units@.map_values(|t: String| t@),
                target.merges == merges@.map_values(|m: Vec<u32>| m@),
                units@.len() + merges@.len() <= u32::MAX,
                i <= units@.len(),
                seen == target.units.take(i as int),
                forall|p: int| 0 <= p < i ==> is_unit(#[trigger] seen[p]),
                forall|p: int, q: int| 0 <= p < q < i ==> seen[p] != seen[q],
                unit_pairs(table).dom().finite(),
                unit_pairs(table).len() == seen.len(),
                forall|p: int|
                    0 <= p < seen.len() ==> unit_pairs(table).contains_key(#[trigger] seen[p])
                        && unit_pairs(table)[seen[p]] == p,
                forall|u: Seq<char>|
                    #[trigger] unit_pairs(table).contains_key(u) ==> unit_pairs(table)[u]
                        < seen.len() && seen[unit_pairs(table)[u] as int] == u,
            decreases units@.len() - i,
        {
            let t = units[i].as_str();
            let ghost tv = target.units[i as int];
            let ghost one = seq![tv];
            proof {
                assert(tv == t@);
                lemma_join_push(Seq::<Seq<char>>::empty(), tv);
                assert(Seq::<Seq<char>>::empty().push(tv) == one);
                assert(join(one) == tv);
            }
            match split_selfie(t) {
                Ok(parts) => {
                    if parts.len() != 1 {
                        proof {
                            if target.valid() {
                                assert(is_unit(target.units[i as int]));
                                assert(is_unit(one[0]));
                                lemma_cut_unique(t@, texts(parts@), one);
                            }
                        }
                        return None;
                    }
                    proof {
                        let ps = texts(parts@);
                        assert(ps.drop_last() == Seq::<Seq<char>>::empty());
                        assert(join(ps) == ps[0]);
                        assert(is_unit(ps[0]));
                    }
                },
                Err(_) => {
                    proof {
                        if target.valid() {
                            assert(is_unit(target.units[i as int]));
                            assert(is_unit(one[0]));
                            lemma_cut_well_formed(t@, one);
                        }
                    }
                    return None;
                },
            }
            if unit_id(&table, t).is_some() {
                proof {
                    let p = unit_pairs(table)[tv] as int;
                    assert(seen[p] == tv);
                    assert(target.units[p] == tv);
                }
                return None;
            }
            insert_unit(&mut table, units[i].clone(), i as u32);
            proof {
                let old_seen = seen;
                seen = seen.push(tv);
                assert(target.units.take(i + 1) == target.units.take(i as int).push(tv));
                assert forall|p: int|
                    0 <= p < seen.len() implies unit_pairs(table).contains_key(#[trigger] seen[p])
                        && unit_pairs(table)[seen[p]] == p by {
                    if p < old_seen.len() {
                        assert(seen[p] == old_seen[p]);
                    }
                }
            }
            i = i + 1;
        }
        proof {
            assert(target.units.take(units@.len() as int) == target.units);
        }
        let mut v = Vocab {
            base_vocab: table,
            aux_vocab: new_merge_table(),
            units: Ghost(target.units),
            merges: Ghost(Seq::empty()),
        };
        proof {
            assert(merge_pairs(v.aux_vocab).dom().len() == 0);
            assert(target.merges.take(0) == Seq::<Seq<u32>>::empty());
        }
        let b = units.len();
        let mut k: usize = 0;
        while k < merges.len()
            invariant
                target.units == units@.map_values(|t: String| t@),
                target.merges == merges@.map_values(|m: Vec<u32>| m@),
                units@.len() + merges@.len() <= u32::MAX,
                b == units@.len(),
                v.wf(),
                v@.units == target.units,
                k <= merges@.len(),
                v@.merges == target.merges.take(k as int),
            decreases merges@.len() - k,
        {
            let ghost before = v@;
            let ghost m = target.merges[k as int];
            proof {
                assert(m == merges@[k as int]@);
            }
            match v.insert_ngram(&merges[k]) {
                Ok(id) => {
                    if id as usize != b + k {
                        proof {
                            assert(before.merges.contains(m));
                            let p = choose|p: int|
                                0 <= p < before.merges.len() && before.merges[p] == m;
                            assert(target.merges[p] == m);
                        }
                        return None;
                    }
                    proof {
                        assert(!before.merges.contains(m));
                        assert(target.merges.take(k + 1) == target.merges.take(k as int).push(m));
                    }
                },
                Err(_) => {
                    proof {
                        assert(!target.is_merge(m));
                        assert(target.merges[k as int] == m);
                    }
                    return None;
                },
            }
            k = k + 1;
        }
        proof {
            assert(target.merges.take(merges@.len() as int) == target.merges);
        }
        Some(v)
    }

    /// Whether `id` is one of `ids`.
    fn names(ids: &[u32], id: u32) -> (r: bool)
        ensures
            r == ids@.contains(id),
    {
        let mut j: usize = 0;
        while j < ids.len()
            invariant
                j <= ids@.len(),
                forall|q: int| 0 <= q < j ==> ids@[q] != id,
            decreases ids@.len() - j,
        {
            if ids[j] == id {
                return true;
            }
            j = j + 1;
        }
        false
    }

    /// Removes the auxiliary entries with the given ids, then renumbers the
    /// survivors densely from `B`, in increasing order of their old ids, so
    /// the outcome depends only on which ids are named. An id that is not
    /// auxiliary is refused and nothing changes.
    pub fn batch_remove_ngrams(&mut self, idxs: &[u32]) -> (r: Result<(), VocabError>)
        requires
            old(self).wf(),
        ensures
            final(self).wf(),
            r is Err <==> exists|q: int|
                0 <= q < idxs@.len() && !(old(self)@.base_len() <= #[trigger] idxs@[q] < old(
                    self,
                )@.size()),
            r is Err ==> r == Err::<(), VocabError>(VocabError::UnknownEntry) && final(self)@ == old(
                self,
            )@,
            r is Ok ==> final(self)@ == (VocabView {
                units: old(self)@.units,
                merges: survivors(old(self)@.merges, old(self)@.base_len(), idxs@),
            }),
    {
        let b = self.get_base_idx();
        let n = self.get_aux_idx();
        let mut q: usize = 0;
        while q < idxs.len()
            invariant
                self.wf(),
                self@ == old(self)@,
                b == self@.base_len(),
                n == self@.size(),
                q <= idxs@.len(),
                forall|p: int| 0 <= p < q ==> b <= #[trigger] idxs@[p] < n,
            decreases idxs@.len() - q,
        {
            if idxs[q] < b || idxs[q] >= n {
                return Err(VocabError::UnknownEntry);
            }
            q = q + 1;
        }
        let ghost v = self@;
        let mut table = new_merge_table();
        let ghost mut kept: Seq<Seq<u32>> = Seq::empty();
        let mut next = b;
        let mut id = b;
        while id < n
            invariant
                self.wf(),
                self@ == v,
                b == v.base_len(),
                n == v.size(),
                b <= id <= n,
                b <= next <= id,
                next == b + kept.len(),
                kept == survivors(v.merges.take(id - b), b as nat, idxs@),
                forall|k: int|
                    0 <= k < kept.len() ==> exists|p: int|
                        0 <= p < id - b && v.merges[p] == #[trigger] kept[k],
                forall|k: int, l: int| 0 <= k < l < kept.len() ==> kept[k] != kept[l],
                merge_pairs(table).dom().finite(),
                merge_pairs(table).len() == kept.len(),
                forall|k: int|
                    0 <= k < kept.len() ==> merge_pairs(table).contains_key(#[trigger] kept[k])
                        && merge_pairs(table)[kept[k]] == b + k,
                forall|s: Seq<u32>|
                    #[trigger] merge_pairs(table).contains_key(s) ==> b <= merge_pairs(table)[s] < b
                        + kept.len() && kept[merge_pairs(table)[s] - b] == s,
            decreases n - id,
        {
            let ghost pre = v.merges.take(id - b);
            proof {
                assert(v.merges.take(id + 1 - b).drop_last() == pre);
                assert(v.merges.take(id + 1 - b).last() == v.merges[id - b]);
            }
            if !Self::names(idxs, id) {
                let seq = match self.tok_to_ngram(id) {
                    Some(s) => s,
                    None => unreached(),
                };
                proof {
                    assert(!kept.contains(seq@)) by {
                        if kept.contains(seq@) {
                            let k = choose|k: int| 0 <= k < kept.len() && kept[k] == seq@;
                            let p = choose|p: int| 0 <= p < id - b && v.merges[p] == #[trigger] kept[k];
                        }
                    }
                    assert(!merge_pairs(table).contains_key(seq@));
                }
                insert_merge(&mut table, seq.clone(), next);
                proof {
                    let old_kept = kept;
                    kept = kept.push(seq@);
                    assert forall|k: int|
                        0 <= k < kept.len() implies merge_pairs(table).contains_key(#[trigger] kept[k])
                            && merge_pairs(table)[kept[k]] == b + k by {
                        if k < old_kept.len() {
                            assert(kept[k] == old_kept[k]);
                        }
                    }
                    assert forall|k: int|
                        0 <= k < kept.len() implies exists|p: int|
                            0 <= p < id + 1 - b && v.merges[p] == #[trigger] kept[k] by {
                        if k < old_kept.len() {
                            assert(kept[k] == old_kept[k]);
                            let p = choose|p: int| 0 <= p < id - b && v.merges[p] == #[trigger] old_kept[k];
                            assert(v.merges[p] == kept[k]);
                        } else {
                            assert(v.merges[id - b] == kept[k]);
                        }
                    }
                }
                next = next + 1;
            }
            id = id + 1;
        }
        proof {
            assert(v.merges.take(n - b) == v.merges);
            assert(kept.len() <= v.merges.len()) by {
                assert(next <= n);
            }
        }
        self.aux_vocab = table;
        self.merges = Ghost(kept);
        proof {
            assert forall|k: int| 0 <= k < kept.len() implies self@.is_merge(#[trigger] kept[k]) by {
                let p = choose|p: int| 0 <= p < n - b && v.merges[p] == #[trigger] kept[k];
                assert(v.is_merge(v.merges[p]));
            }
        }
        Ok(())
    }

    /// A vocabulary with the same base entries and, as auxiliary entries,
    /// the sequences of the first `vocab_size - B` ids of `order`,
    /// registered in that order.
    pub fn vocab_from_order(&self, order: &Vec<u32>, vocab_size: usize) -> (r: Vocab)
        requires
            self.wf(),
            self@.base_len() <= vocab_size,
            order@.len() <= self@.merges.len(),
        ensures
            r.wf(),
            r@ == (VocabView {
                units: self@.units,
                merges: gather(
                    self@,
                    order@.take(
                        if vocab_size - self@.base_len() < order@.len() {
                            vocab_size - self@.base_len()
                        } else {
                            order@.len() as int
                        },
                    ),
                ),
            }),
    {
        let b = self.get_base_idx();
        let want = vocab_size - b as usize;
        let m = if want < order.len() {
            want
        } else {
            order.len()
        };
        let mut out = Vocab {
            base_vocab: copy_unit_table(&self.base_vocab),
            aux_vocab: new_merge_table(),
            units: Ghost(self@.units),
            merges: Ghost(Seq::empty()),
        };
        proof {
            assert(merge_pairs(out.aux_vocab).dom().len() == 0);
            assert(out@.merges == gather(self@, order@.take(0)));
        }
        let mut k: usize = 0;
        while k < m
            invariant
                self.wf(),
                out.wf(),
                b == self@.base_len(),
                m <= order@.len(),
                order@.len() <= self@.merges.len(),
                k <= m,
                out@.units == self@.units,
                out@.merges == gather(self@, order@.take(k as int)),
                out@.merges.len() <= k,
            decreases m - k,
        {
            let x = order[k];
            proof {
                assert(order@.take(k + 1).drop_last() == order@.take(k as int));
                assert(order@.take(k + 1).last() == x);
            }
            if self.is_aux(&x) {
                let seq = match self.tok_to_ngram(x) {
                    Some(s) => s,
                    None => unreached(),
                };
                proof {
                    assert(self@.is_merge(self@.merges[x - b]));
                    assert(out@.is_merge(seq@));
                }
                let _ = out.insert_ngram(seq);
            }
            k = k + 1;
        }
        out
    }

    /// A random sub-vocabulary of `vocab_size` ids: the same base entries,
    /// and auxiliary entries drawn without replacement, by a source seeded
    /// with `seed`, then renumbered densely from `B`.
    pub fn get_random_vocab(&self, vocab_size: usize, seed: u64) -> (r: Vocab)
        requires
            self.wf(),
            self@.base_len() <= vocab_size,
        ensures
            r.wf(),
            exists|order: Seq<u32>|
                order.to_multiset() == aux_ids(self@).to_multiset() && r@ == (VocabView {
                    units: self@.units,
                    merges: gather(
                        self@,
                        order.take(
                            if vocab_size - self@.base_len() < order.len() {
                                vocab_size - self@.base_len()
                            } else {
                                order.len() as int
                            },
                        ),
                    ),
                }),
    {
        broadcast use vstd::seq_lib::group_to_multiset_ensures;

        let ids = self.aux_vals();
        proof {
            assert(ids@ == aux_ids(self@));
        }
        let order = shuffled(ids, seed);
        proof {
            assert(order@.len() == order@.to_multiset().len());
        }
        self.vocab_from_order(&order, vocab_size)
    }

    /// A sequence of base ids spells its text as a cut into units.
    proof fn lemma_spell_cuts(&self, ids: Seq<u32>)
        requires
            self.wf(),
            self@.all_base(ids),
        ensures
            cuts(self@.spell(ids), ids.map_values(|id: u32| self@.units[id as int])),
    {
        let parts = ids.map_values(|id: u32| self@.units[id as int]);
        assert forall|k: int| 0 <= k < parts.len() implies is_unit(#[trigger] parts[k]) by {
            assert(parts[k] == self@.units[ids[k] as int]);
        }
    }
}

} // verus!
