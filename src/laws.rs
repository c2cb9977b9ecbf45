//! Properties that relate several operations of the library.
use vstd::prelude::*;

use crate::encoding::is_cover;
use crate::lexical::{lemma_sorted_unique, strictly_sorted};
use crate::tokenizer::{cuts, join, lemma_cut_exists, lemma_join_append, lemma_join_push};
use crate::vocab::{all_well_formed, corpus_unit, survivors, VocabView};

verus! {

/// Spelling two runs of base ids one after the other spells each in turn.
pub proof fn lemma_spell_append(v: VocabView, a: Seq<u32>, b: Seq<u32>)
    ensures
        v.spell(a + b) == v.spell(a) + v.spell(b),
{
    let f = |id: u32| v.units[id as int];
    assert((a + b).map_values(f) == a.map_values(f) + b.map_values(f));
    lemma_join_append(a.map_values(f), b.map_values(f));
}

/// Decoding an encoded sequence spells its expansion.
pub proof fn lemma_decode_is_spelled_expansion(v: VocabView, enc: Seq<u32>)
    ensures
        v.decode(enc) == v.spell(v.expand(enc)),
    decreases enc.len(),
{
    let g = |id: u32| v.spell(v.piece(id));
    let f = |id: u32| v.piece(id);
    if enc.len() == 0 {
        assert(enc.map_values(g) == Seq::<Seq<char>>::empty());
        assert(enc.map_values(f) == Seq::<Seq<u32>>::empty());
        assert(Seq::<u32>::empty().map_values(|id: u32| v.units[id as int]) == Seq::<
            Seq<char>,
        >::empty());
    } else {
        let e2 = enc.drop_last();
        let x = enc.last();
        lemma_decode_is_spelled_expansion(v, e2);
        assert(enc.map_values(g) == e2.map_values(g).push(g(x)));
        lemma_join_push(e2.map_values(g), g(x));
        assert(enc.map_values(f) == e2.map_values(f).push(f(x)));
        lemma_join_push(e2.map_values(f), f(x));
        lemma_spell_append(v, v.expand(e2), v.piece(x));
    }
}

/// Round trip: when `ids` are the base ids of a record's text and `enc`
/// covers `ids` (as the base encoding and the segmenter give them), decoding
/// `enc` gives the text back.
pub proof fn lemma_round_trip(v: VocabView, text: Seq<char>, ids: Seq<u32>, enc: Seq<u32>)
    requires
        v.valid(),
        v.all_base(ids),
        v.spell(ids) == text,
        is_cover(v, enc, ids),
    ensures
        v.decode(enc) == text,
{
    lemma_decode_is_spelled_expansion(v, enc);
}

/// Every record of the corpus that a vocabulary's base texts were taken from
/// is spelled by some run of base ids, so its base encoding succeeds.
pub proof fn lemma_corpus_record_encodable(v: VocabView, corpus: Seq<String>, r: int)
    requires
        v.valid(),
        all_well_formed(corpus),
        forall|u: Seq<char>| v.units.contains(u) <==> corpus_unit(corpus, u),
        0 <= r < corpus.len(),
    ensures
        exists|ids: Seq<u32>| v.all_base(ids) && v.spell(ids) == corpus[r]@,
{
    let s = corpus[r]@;
    assert(crate::tokenizer::well_formed_record(corpus[r]@));
    lemma_cut_exists(s);
    let cut = choose|c: Seq<Seq<char>>| cuts(s, c);
    assert forall|k: int| 0 <= k < cut.len() implies v.units.contains(#[trigger] cut[k]) by {
        assert(cut.contains(cut[k]));
        assert(cuts(corpus[r]@, cut));
        assert(corpus_unit(corpus, cut[k]));
    }
    let ids = Seq::new(
        cut.len(),
        |k: int| (choose|i: int| 0 <= i < v.units.len() && v.units[i] == cut[k]) as u32,
    );
    let f = |id: u32| v.units[id as int];
    assert forall|k: int| 0 <= k < ids.len() implies ids[k] < v.base_len() && f(ids[k]) == cut[k] by {
        assert(v.units.contains(cut[k]));
        let i = choose|i: int| 0 <= i < v.units.len() && v.units[i] == cut[k];
        assert(ids[k] == i as u32);
    }
    assert(ids.map_values(f) =~= cut);
    assert(v.all_base(ids));
    assert(v.spell(ids) == s);
}

/// A run of base ids covers itself.
pub proof fn lemma_base_ids_cover(v: VocabView, ids: Seq<u32>)
    requires
        v.valid(),
        v.all_base(ids),
    ensures
        is_cover(v, ids, ids),
    decreases ids.len(),
{
    let f = |id: u32| v.piece(id);
    assert(v.all_known(ids));
    if ids.len() == 0 {
        assert(ids.map_values(f) == Seq::<Seq<u32>>::empty());
        assert(v.expand(ids) == ids);
    } else {
        let i2 = ids.drop_last();
        let x = ids.last();
        assert(v.all_base(i2)) by {
            assert forall|k: int| 0 <= k < i2.len() implies i2[k] < v.base_len() by {
                assert(i2[k] == ids[k]);
            }
        }
        lemma_base_ids_cover(v, i2);
        assert(ids.map_values(f) == i2.map_values(f).push(f(x)));
        lemma_join_push(i2.map_values(f), f(x));
        assert(x < v.base_len());
        assert(f(x) == seq![x]);
        assert(i2.push(x) == ids);
        assert(i2 + seq![x] == ids);
        assert(v.expand(ids) == v.expand(i2) + f(x));
        assert(v.expand(ids) == ids);
    }
}

/// Minimality: a shortest covering of a run of base ids is never longer than
/// the run itself.
pub proof fn lemma_segment_not_longer(v: VocabView, ids: Seq<u32>, enc: Seq<u32>)
    requires
        v.valid(),
        v.all_base(ids),
        is_cover(v, enc, ids),
        forall|e: Seq<u32>| #[trigger] is_cover(v, e, ids) ==> enc.len() <= e.len(),
    ensures
        enc.len() <= ids.len(),
{
    lemma_base_ids_cover(v, ids);
}

/// Merge idempotence: registering a sequence that is already there, once
/// more or twice more, leaves the vocabulary and its size unchanged and
/// gives the same id each time.
pub proof fn lemma_merge_idempotent(v: VocabView, s: Seq<u32>)
    requires
        v.valid(),
    ensures
        v.merged(s).merged(s) == v.merged(s),
        v.merged(s).merged(s).size() == v.merged(s).size(),
        v.merged(s).merged(s).aux_id_of(s) == v.merged(s).aux_id_of(s),
{
    if !v.merges.contains(s) && v.is_merge(s) {
        let w = v.merged(s);
        assert(w.merges[v.merges.len() as int] == s);
        assert(w.merges.contains(s));
    }
}

/// Determinism of construction: two vocabularies whose base texts are in
/// strictly increasing order and are exactly the units of one corpus give
/// every unit the same id.
pub proof fn lemma_construction_deterministic(corpus: Seq<String>, a: VocabView, b: VocabView)
    requires
        strictly_sorted(a.units),
        strictly_sorted(b.units),
        forall|u: Seq<char>| a.units.contains(u) <==> corpus_unit(corpus, u),
        forall|u: Seq<char>| b.units.contains(u) <==> corpus_unit(corpus, u),
    ensures
        a.units == b.units,
{
    assert forall|u: Seq<char>| a.units.contains(u) <==> b.units.contains(u) by {
        assert(a.units.contains(u) <==> corpus_unit(corpus, u));
        assert(b.units.contains(u) <==> corpus_unit(corpus, u));
    }
    lemma_sorted_unique(a.units, b.units);
}

/// Determinism of removal: two lists that name the same ids, in whatever
/// order and with whatever repeats, leave the same survivors in the same
/// order.
pub proof fn lemma_removal_order_irrelevant(
    ms: Seq<Seq<u32>>,
    base: nat,
    d1: Seq<u32>,
    d2: Seq<u32>,
)
    requires
        forall|x: u32| d1.contains(x) <==> d2.contains(x),
    ensures
        survivors(ms, base, d1) == survivors(ms, base, d2),
    decreases ms.len(),
{
    if ms.len() > 0 {
        lemma_removal_order_irrelevant(ms.drop_last(), base, d1, d2);
    }
}

} // verus!
