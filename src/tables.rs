//! The outside collections that the vocabulary and the miner are built on,
//! and the contracts this library relies on for each call into them.
use vstd::prelude::*;

use bimap::BiHashMap;
use dashmap::{DashMap, DashSet};
use rand::seq::SliceRandom;
use rand::SeedableRng;
use std::collections::HashSet;

use crate::lexical::lex_lt;

verus! {

#[verifier::external_type_specification]
#[verifier::external_body]
pub struct ExAhashState(ahash::RandomState);

#[verifier::external_type_specification]
#[verifier::external_body]
#[verifier::reject_recursive_types(L)]
#[verifier::reject_recursive_types(R)]
#[verifier::reject_recursive_types(LS)]
#[verifier::reject_recursive_types(RS)]
pub struct ExBiHashMap<L, R, LS, RS>(BiHashMap<L, R, LS, RS>);

/// The bimap from unit text to base id.
pub type UnitTable = BiHashMap<String, u32, ahash::RandomState, ahash::RandomState>;

/// The bimap from merged id sequence to auxiliary id.
pub type MergeTable = BiHashMap<Vec<u32>, u32, ahash::RandomState, ahash::RandomState>;

/// The left-to-right pairs that a unit bimap holds.
pub uninterp spec fn unit_pairs(m: BiHashMap<String, u32, ahash::RandomState, ahash::RandomState>) -> Map<Seq<char>, u32>;

/// The left-to-right pairs that a merge bimap holds.
pub uninterp spec fn merge_pairs(m: BiHashMap<Vec<u32>, u32, ahash::RandomState, ahash::RandomState>) -> Map<Seq<u32>, u32>;

/// Relies on `BiHashMap::default`: a new bimap holds no pair.
#[verifier::external_body]
pub(crate) fn new_unit_table() -> (r: UnitTable)
    ensures
        unit_pairs(r).dom() == Set::<Seq<char>>::empty(),
{
    BiHashMap::default()
}

/// Relies on `BiHashMap::insert`: where neither the left nor the right value
/// is present, the pair is added and no other pair changes.
#[verifier::external_body]
pub(crate) fn insert_unit(m: &mut UnitTable, unit: String, id: u32)
    requires
        !unit_pairs(*old(m)).contains_key(unit@),
        forall|u: Seq<char>| unit_pairs(*old(m)).contains_key(u) ==> unit_pairs(*old(m))[u] != id,
    ensures
        unit_pairs(*final(m)) == unit_pairs(*old(m)).insert(unit@, id),
{
    m.insert(unit, id);
}

/// Relies on `BiHashMap::get_by_left`: the right value paired with `unit`.
#[verifier::external_body]
pub(crate) fn unit_id<'a>(m: &'a UnitTable, unit: &str) -> (r: Option<&'a u32>)
    ensures
        match r {
            Some(id) => unit_pairs(*m).contains_key(unit@) && unit_pairs(*m)[unit@] == *id,
            None => !unit_pairs(*m).contains_key(unit@),
        },
{
    m.get_by_left(unit)
}

/// Relies on `BiHashMap::get_by_right`: the left value paired with `id`.
#[verifier::external_body]
pub(crate) fn unit_text<'a>(m: &'a UnitTable, id: u32) -> (r: Option<&'a String>)
    ensures
        match r {
            Some(s) => unit_pairs(*m).contains_key(s@) && unit_pairs(*m)[s@] == id,
            None => forall|u: Seq<char>|
                unit_pairs(*m).contains_key(u) ==> unit_pairs(*m)[u] != id,
        },
{
    m.get_by_right(&id)
}

/// Relies on `BiHashMap::len`: the number of pairs.
#[verifier::external_body]
pub(crate) fn unit_count(m: &UnitTable) -> (r: usize)
    ensures
        r == unit_pairs(*m).len(),
{
    m.len()
}

/// Relies on `BiHashMap::clone`: the copy holds the same pairs.
#[verifier::external_body]
pub(crate) fn copy_unit_table(m: &UnitTable) -> (r: UnitTable)
    ensures
        unit_pairs(r) == unit_pairs(*m),
{
    m.clone()
}

/// Relies on `BiHashMap::default`: a new bimap holds no pair.
#[verifier::external_body]
pub(crate) fn new_merge_table() -> (r: MergeTable)
    ensures
        merge_pairs(r).dom() == Set::<Seq<u32>>::empty(),
{
    BiHashMap::default()
}

/// Relies on `BiHashMap::insert`: where neither the left nor the right value
/// is present, the pair is added and no other pair changes.
#[verifier::external_body]
pub(crate) fn insert_merge(m: &mut MergeTable, seq: Vec<u32>, id: u32)
    requires
        !merge_pairs(*old(m)).contains_key(seq@),
        forall|s: Seq<u32>| merge_pairs(*old(m)).contains_key(s) ==> merge_pairs(*old(m))[s] != id,
    ensures
        merge_pairs(*final(m)) == merge_pairs(*old(m)).insert(seq@, id),
{
    m.insert(seq, id);
}

/// Relies on `BiHashMap::get_by_left`: the right value paired with `seq`.
#[verifier::external_body]
pub(crate) fn merge_id<'a>(m: &'a MergeTable, seq: &[u32]) -> (r: Option<&'a u32>)
    ensures
        match r {
            Some(id) => merge_pairs(*m).contains_key(seq@) && merge_pairs(*m)[seq@] == *id,
            None => !merge_pairs(*m).contains_key(seq@),
        },
{
    m.get_by_left(seq)
}

/// Relies on `BiHashMap::get_by_right`: the left value paired with `id`.
#[verifier::external_body]
pub(crate) fn merge_seq<'a>(m: &'a MergeTable, id: u32) -> (r: Option<&'a Vec<u32>>)
    ensures
        match r {
            Some(s) => merge_pairs(*m).contains_key(s@) && merge_pairs(*m)[s@] == id,
            None => forall|s: Seq<u32>|
                merge_pairs(*m).contains_key(s) ==> merge_pairs(*m)[s] != id,
        },
{
    m.get_by_right(&id)
}

/// Relies on `BiHashMap::len`: the number of pairs.
#[verifier::external_body]
pub(crate) fn merge_count(m: &MergeTable) -> (r: usize)
    ensures
        r == merge_pairs(*m).len(),
{
    m.len()
}

#[verifier::external_type_specification]
#[verifier::external_body]
#[verifier::reject_recursive_types(K)]
#[verifier::reject_recursive_types(S)]
pub struct ExDashSet<K, S>(DashSet<K, S>);

/// The texts that a set of units holds.
pub uninterp spec fn unit_set(s: DashSet<String, ahash::RandomState>) -> Set<Seq<char>>;

/// Relies on `DashSet::default`: a new set holds nothing.
#[verifier::external_body]
pub(crate) fn new_unit_set() -> (r: DashSet<String, ahash::RandomState>)
    ensures
        unit_set(r) == Set::<Seq<char>>::empty(),
{
    DashSet::default()
}

/// Relies on `DashSet::insert`: afterwards the set holds the key as well.
#[verifier::external_body]
pub(crate) fn add_unit(s: &mut DashSet<String, ahash::RandomState>, unit: String)
    ensures
        unit_set(*final(s)) == unit_set(*old(s)).insert(unit@),
{
    s.insert(unit);
}

/// Relies on `DashSet::iter`: it visits every key of the set, and only those.
#[verifier::external_body]
pub(crate) fn unit_set_items(s: &DashSet<String, ahash::RandomState>) -> (r: Vec<String>)
    ensures
        forall|u: Seq<char>|
            unit_set(*s).contains(u) <==> exists|i: int| 0 <= i < r@.len() && r@[i]@ == u,
{
    s.iter().map(|k| k.key().clone()).collect()
}

/// Relies on `slice::sort` with the order of `String`, which compares texts
/// lexicographically by code point: the result holds the same texts, in
/// non-decreasing order.
#[verifier::external_body]
pub(crate) fn sort_texts(v: Vec<String>) -> (r: Vec<String>)
    ensures
        r@.map_values(|t: String| t@).to_multiset() == v@.map_values(|t: String| t@).to_multiset(),
        forall|i: int, j: int| 0 <= i < j < r@.len() ==> !lex_lt(r@[j]@, r@[i]@),
{
    let mut v = v;
    v.sort();
    v
}

#[verifier::external_type_specification]
#[verifier::external_body]
#[verifier::reject_recursive_types(K)]
#[verifier::reject_recursive_types(V)]
#[verifier::reject_recursive_types(S)]
pub struct ExDashMap<K, V, S>(DashMap<K, V, S>);

/// The window-to-count pairs that a count map holds.
pub uninterp spec fn window_counts(m: DashMap<Vec<u32>, usize, ahash::RandomState>) -> Map<Seq<u32>, usize>;

/// The windows that a set of windows holds.
pub uninterp spec fn window_set(s: HashSet<Vec<u32>, ahash::RandomState>) -> Set<Seq<u32>>;

/// Relies on `DashMap::default`: a new map holds no pair.
#[verifier::external_body]
pub(crate) fn new_window_counts() -> (r: DashMap<Vec<u32>, usize, ahash::RandomState>)
    ensures
        window_counts(r).dom() == Set::<Seq<u32>>::empty(),
{
    DashMap::default()
}

/// Relies on `DashMap::get`: the value stored under `w`, if any.
#[verifier::external_body]
pub(crate) fn window_count(m: &DashMap<Vec<u32>, usize, ahash::RandomState>, w: &Vec<u32>) -> (r:
    Option<usize>)
    ensures
        match r {
            Some(c) => window_counts(*m).contains_key(w@) && window_counts(*m)[w@] == c,
            None => !window_counts(*m).contains_key(w@),
        },
{
    m.get(w).map(|e| *e.value())
}

/// Relies on `DashMap::insert`: afterwards `w` maps to `c`, and no other
/// pair changes.
#[verifier::external_body]
pub(crate) fn set_window_count(m: &mut DashMap<Vec<u32>, usize, ahash::RandomState>, w: Vec<u32>, c: usize)
    ensures
        window_counts(*final(m)) == window_counts(*old(m)).insert(w@, c),
{
    m.insert(w, c);
}

/// Relies on `DashMap::iter`: it visits every pair of the map once.
#[verifier::external_body]
pub(crate) fn window_count_entries(m: &DashMap<Vec<u32>, usize, ahash::RandomState>) -> (r: Vec<
    (Vec<u32>, usize),
>)
    ensures
        forall|i: int|
            0 <= i < r@.len() ==> window_counts(*m).contains_key((#[trigger] r@[i]).0@)
                && window_counts(*m)[r@[i].0@] == r@[i].1,
        forall|w: Seq<u32>|
            window_counts(*m).contains_key(w) ==> exists|i: int| 0 <= i < r@.len() && r@[i].0@ == w,
        forall|i: int, j: int| 0 <= i < j < r@.len() ==> r@[i].0@ != r@[j].0@,
{
    m.iter().map(|e| (e.key().clone(), *e.value())).collect()
}

/// Relies on `HashSet::default`: a new set holds nothing.
#[verifier::external_body]
pub(crate) fn new_window_set() -> (r: HashSet<Vec<u32>, ahash::RandomState>)
    ensures
        window_set(r) == Set::<Seq<u32>>::empty(),
{
    HashSet::default()
}

/// Relies on `HashSet::insert`: it reports whether the window was absent,
/// and afterwards the set holds it.
#[verifier::external_body]
pub(crate) fn first_sighting(s: &mut HashSet<Vec<u32>, ahash::RandomState>, w: Vec<u32>) -> (r: bool)
    ensures
        r == !window_set(*old(s)).contains(w@),
        window_set(*final(s)) == window_set(*old(s)).insert(w@),
{
    s.insert(w)
}

/// Relies on `SliceRandom::shuffle` driven by `StdRng::seed_from_u64`: the
/// result holds the same ids, in some order.
#[verifier::external_body]
pub(crate) fn shuffled(ids: Vec<u32>, seed: u64) -> (r: Vec<u32>)
    ensures
        r@.to_multiset() == ids@.to_multiset(),
{
    let mut ids = ids;
    let mut rng = rand::rngs::StdRng::seed_from_u64(seed);
    ids.shuffle(&mut rng);
    ids
}

} // verus!
