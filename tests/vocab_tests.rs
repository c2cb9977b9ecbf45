use selfie_vocab::encoding::optimal_encode;
use selfie_vocab::error::VocabError;
use selfie_vocab::utils::generate_ngrams;
use selfie_vocab::vocab::Vocab;

fn corpus() -> Vec<String> {
    vec!["[C][C=][C][H][Br1]".to_string(), "[C][B=][F][Z][Br2]".to_string()]
}

#[test]
fn base_ids_follow_lexicographic_order() {
    let v = Vocab::new(&corpus()).unwrap();
    assert_eq!(v.len(), 8);
    let order = ["[B=]", "[Br1]", "[Br2]", "[C=]", "[C]", "[F]", "[H]", "[Z]"];
    for (i, u) in order.iter().enumerate() {
        assert_eq!(v.get_base(u), Some(&(i as u32)));
    }
    assert_eq!(v.get_base("[O]"), None);
}

#[test]
fn scenario_mine_merge_segment() {
    let c = corpus();
    let mut v = Vocab::new(&c).unwrap();
    let enc: Vec<Vec<u32>> = c.iter().map(|r| v.base_encode(r).unwrap()).collect();
    assert_eq!(enc[0].len(), 5);
    assert_eq!(enc[1].len(), 5);
    let grams = generate_ngrams(&enc, 2, 1).unwrap();
    assert_eq!(grams.len(), 8);
    let mut ids: Vec<u32> = grams.iter().map(|g| v.insert_ngram(g).unwrap()).collect();
    ids.sort();
    assert_eq!(ids, (8..16).collect::<Vec<u32>>());
    let seg = optimal_encode(&enc[0], &v);
    assert!(seg.len() <= 4);
    assert_eq!(seg.len(), 3);
    assert_eq!(v.decode(&seg).unwrap(), c[0]);
}

#[test]
fn threshold_excludes_window_of_one_record() {
    let c = vec!["[A][B][C]".to_string(), "[A][B][D]".to_string()];
    let v = Vocab::new(&c).unwrap();
    let enc: Vec<Vec<u32>> = c.iter().map(|r| v.base_encode(r).unwrap()).collect();
    let grams = generate_ngrams(&enc, 2, 2).unwrap();
    let texts: Vec<String> = grams.iter().map(|g| v.decode(g).unwrap()).collect();
    assert_eq!(texts, vec!["[A][B]".to_string()]);
}

#[test]
fn repeats_in_one_record_count_once() {
    let c = vec!["[A][B][A][B]".to_string(), "[C]".to_string()];
    let v = Vocab::new(&c).unwrap();
    let enc: Vec<Vec<u32>> = c.iter().map(|r| v.base_encode(r).unwrap()).collect();
    assert_eq!(generate_ngrams(&enc, 2, 2).unwrap(), Vec::<Vec<u32>>::new());
    assert_eq!(generate_ngrams(&enc, 2, 1).unwrap().len(), 2);
}

#[test]
fn mining_refuses_zero_width_or_threshold() {
    let enc = vec![vec![0u32, 1]];
    assert_eq!(generate_ngrams(&enc, 0, 1), Err(VocabError::InvalidWindow));
    assert_eq!(generate_ngrams(&enc, 2, 0), Err(VocabError::InvalidWindow));
}

#[test]
fn merge_is_idempotent() {
    let mut v = Vocab::new(&corpus()).unwrap();
    let first = v.insert_ngram(&vec![4, 3]).unwrap();
    let size = v.len();
    let again = v.insert_ngram(&vec![4, 3]).unwrap();
    let third = v.insert_ngram(&vec![4, 3]).unwrap();
    assert_eq!(first, 8);
    assert_eq!(again, first);
    assert_eq!(third, first);
    assert_eq!(v.len(), size);
    assert_eq!(v.get_aux(&[4, 3]), Some(&8));
    assert_eq!(v.tok_to_ngram(8), Some(&vec![4, 3]));
    assert!(v.is_aux(&8));
    assert!(!v.is_aux(&7));
    assert_eq!(v.aux_vals(), vec![8]);
}

#[test]
fn merge_refuses_short_or_unknown_runs() {
    let mut v = Vocab::new(&corpus()).unwrap();
    assert_eq!(v.insert_ngram(&vec![4]), Err(VocabError::InvalidWindow));
    assert_eq!(v.insert_ngram(&vec![4, 8]), Err(VocabError::UnknownToken));
    assert_eq!(v.len(), 8);
}

#[test]
fn construction_is_deterministic() {
    let a = Vocab::new(&corpus()).unwrap();
    let mut rev = corpus();
    rev.reverse();
    let b = Vocab::new(&rev).unwrap();
    for u in ["[B=]", "[Br1]", "[Br2]", "[C=]", "[C]", "[F]", "[H]", "[Z]"] {
        assert_eq!(a.get_base(u), b.get_base(u));
    }
}

#[test]
fn construction_refuses_malformed_record() {
    let c = vec!["[C][O]".to_string(), "[C]O".to_string()];
    assert!(matches!(Vocab::new(&c), Err(VocabError::MalformedRecord)));
}

#[test]
fn removal_renumbers_by_old_id_whatever_the_order() {
    let build = || {
        let mut v = Vocab::new(&corpus()).unwrap();
        for g in [vec![4, 3], vec![3, 4], vec![4, 6], vec![6, 1], vec![4, 0]] {
            v.insert_ngram(&g).unwrap();
        }
        v
    };
    let mut a = build();
    let mut b = build();
    a.batch_remove_ngrams(&[9, 11]).unwrap();
    b.batch_remove_ngrams(&[11, 9, 11]).unwrap();
    assert_eq!(a.len(), 11);
    assert_eq!(a.tok_to_ngram(8), Some(&vec![4, 3]));
    assert_eq!(a.tok_to_ngram(9), Some(&vec![4, 6]));
    assert_eq!(a.tok_to_ngram(10), Some(&vec![4, 0]));
    assert_eq!(a.tok_to_ngram(11), None);
    for id in 8..11 {
        assert_eq!(a.tok_to_ngram(id), b.tok_to_ngram(id));
    }
}

#[test]
fn removal_refuses_non_aux_ids() {
    let mut v = Vocab::new(&corpus()).unwrap();
    v.insert_ngram(&vec![4, 3]).unwrap();
    assert_eq!(v.batch_remove_ngrams(&[8, 2]), Err(VocabError::UnknownEntry));
    assert_eq!(v.batch_remove_ngrams(&[9]), Err(VocabError::UnknownEntry));
    assert_eq!(v.len(), 9);
}

#[test]
fn base_encode_and_decode_errors() {
    let v = Vocab::new(&corpus()).unwrap();
    assert_eq!(v.base_encode("[C][O]"), Err(VocabError::UnknownToken));
    assert_eq!(v.base_encode("[C]x"), Err(VocabError::MalformedRecord));
    assert_eq!(v.base_encode(""), Ok(vec![]));
    assert_eq!(v.decode(&vec![4, 8]), Err(VocabError::UnknownToken));
    assert_eq!(v.decode(&vec![]), Ok(String::new()));
}

#[test]
fn round_trip_over_the_corpus() {
    let c = corpus();
    let mut v = Vocab::new(&c).unwrap();
    let enc: Vec<Vec<u32>> = c.iter().map(|r| v.base_encode(r).unwrap()).collect();
    for g in generate_ngrams(&enc, 3, 1).unwrap() {
        v.insert_ngram(&g).unwrap();
    }
    for (r, e) in c.iter().zip(enc.iter()) {
        let seg = optimal_encode(e, &v);
        assert!(seg.len() <= e.len());
        assert_eq!(&v.decode(&seg).unwrap(), r);
    }
}

#[test]
fn segment_is_minimal_and_breaks_ties_early() {
    let c = vec!["[A][B][C][D]".to_string()];
    let mut v = Vocab::new(&c).unwrap();
    let e = v.base_encode(&c[0]).unwrap();
    assert_eq!(e, vec![0, 1, 2, 3]);
    assert_eq!(optimal_encode(&e, &v), vec![0, 1, 2, 3]);
    let ab = v.insert_ngram(&vec![0, 1]).unwrap();
    let bc = v.insert_ngram(&vec![1, 2]).unwrap();
    let bcd = v.insert_ngram(&vec![1, 2, 3]).unwrap();
    let cd = v.insert_ngram(&vec![2, 3]).unwrap();
    // [A][B] + [C][D] and [A] + [B][C][D] both take two ids; the start
    // found first in the scan over the last piece wins.
    let seg = optimal_encode(&e, &v);
    assert_eq!(seg, vec![0, bcd]);
    assert_ne!(seg, vec![ab, cd]);
    assert_ne!(seg, vec![ab, bc, 3]);
    assert_eq!(optimal_encode(&vec![], &v), Vec::<u32>::new());
}

#[test]
fn random_sub_vocabulary_keeps_base_and_draws_aux() {
    let c = corpus();
    let mut v = Vocab::new(&c).unwrap();
    let enc: Vec<Vec<u32>> = c.iter().map(|r| v.base_encode(r).unwrap()).collect();
    for g in generate_ngrams(&enc, 2, 1).unwrap() {
        v.insert_ngram(&g).unwrap();
    }
    let sub = v.get_random_vocab(11, 7);
    assert_eq!(sub.len(), 11);
    assert_eq!(sub.get_base("[Z]"), Some(&7));
    for id in 8..11 {
        let s = sub.tok_to_ngram(id).unwrap();
        assert!(v.get_aux(s).is_some());
    }
    let same = v.get_random_vocab(11, 7);
    for id in 8..11 {
        assert_eq!(sub.tok_to_ngram(id), same.tok_to_ngram(id));
    }
    assert_eq!(v.get_random_vocab(100, 1).len(), 16);
    assert_eq!(v.get_random_vocab(8, 1).len(), 8);
}

#[test]
fn sub_vocabulary_from_a_given_order() {
    let mut v = Vocab::new(&corpus()).unwrap();
    v.insert_ngram(&vec![4, 3]).unwrap();
    v.insert_ngram(&vec![3, 4]).unwrap();
    v.insert_ngram(&vec![4, 6]).unwrap();
    let sub = v.vocab_from_order(&vec![10, 8, 9], 10);
    assert_eq!(sub.len(), 10);
    assert_eq!(sub.tok_to_ngram(8), Some(&vec![4, 6]));
    assert_eq!(sub.tok_to_ngram(9), Some(&vec![4, 3]));
}

/// The fewest ids of any covering of `ids`, by trying every covering.
fn brute_force_fewest(v: &Vocab, ids: &[u32]) -> usize {
    if ids.is_empty() {
        return 0;
    }
    let mut best = 1 + brute_force_fewest(v, &ids[1..]);
    for len in 2..=ids.len() {
        if v.get_aux(&ids[..len]).is_some() {
            best = best.min(1 + brute_force_fewest(v, &ids[len..]));
        }
    }
    best
}

#[test]
fn segment_matches_brute_force_on_small_vocabularies() {
    let c = vec!["[A][B][A][B][C][A][B][C][C]".to_string()];
    let mut v = Vocab::new(&c).unwrap();
    let e = v.base_encode(&c[0]).unwrap();
    let runs = [vec![0, 1], vec![1, 2], vec![0, 1, 2], vec![2, 2], vec![1, 0, 1]];
    for r in runs.iter() {
        v.insert_ngram(r).unwrap();
        let seg = optimal_encode(&e, &v);
        assert_eq!(seg.len(), brute_force_fewest(&v, &e));
        assert_eq!(v.decode(&seg).unwrap(), c[0]);
    }
}

#[test]
fn different_seeds_draw_different_subsets() {
    let c = corpus();
    let mut v = Vocab::new(&c).unwrap();
    let enc: Vec<Vec<u32>> = c.iter().map(|r| v.base_encode(r).unwrap()).collect();
    for g in generate_ngrams(&enc, 2, 1).unwrap() {
        v.insert_ngram(&g).unwrap();
    }
    let in_order: Vec<Option<Vec<u32>>> = (8..11).map(|id| v.tok_to_ngram(id).cloned()).collect();
    let mut differs = false;
    for seed in 0..20u64 {
        let sub = v.get_random_vocab(11, seed);
        let drawn: Vec<Option<Vec<u32>>> = (8..11).map(|id| sub.tok_to_ngram(id).cloned()).collect();
        if drawn != in_order {
            differs = true;
        }
    }
    assert!(differs);
}

#[test]
fn vocabulary_rebuilds_from_its_parts() {
    let units = vec!["[A]".to_string(), "[B]".to_string()];
    let v = Vocab::from_parts(&units, &vec![vec![1, 0]]).unwrap();
    assert_eq!(v.len(), 3);
    assert_eq!(v.decode(&vec![2, 0]).unwrap(), "[B][A][A]");
    assert!(Vocab::from_parts(&vec!["[A]".to_string(), "[A]".to_string()], &vec![]).is_none());
    assert!(Vocab::from_parts(&vec!["[A][B]".to_string()], &vec![]).is_none());
    assert!(Vocab::from_parts(&units, &vec![vec![1, 0], vec![1, 0]]).is_none());
    assert!(Vocab::from_parts(&units, &vec![vec![1, 5]]).is_none());
    assert!(Vocab::from_parts(&units, &vec![vec![1]]).is_none());
}
