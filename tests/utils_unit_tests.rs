use selfie_vocab::encoding::optimal_encode;
use selfie_vocab::utils::{count_token_occurence, generate_ngrams};
use selfie_vocab::vocab::Vocab;

fn test_data() -> Vec<String> {
    vec!["[C][C=][C][H][Br1]".to_string(), "[C][B=][F][Z][Br2]".to_string()]
}

fn encode_all(vocab: &Vocab, lines: &[String]) -> Vec<Vec<u32>> {
    lines.iter().map(|l| vocab.base_encode(l).unwrap()).collect()
}

fn decoded(vocab: &Vocab, windows: &[Vec<u32>]) -> Vec<String> {
    windows.iter().map(|w| vocab.decode(w).unwrap()).collect()
}

#[test]
fn generate_ngrams_test() {
    let f = test_data();
    let vocab = Vocab::new(&f).unwrap();
    let enc = encode_all(&vocab, &f);
    let mut n_grams = decoded(&vocab, &generate_ngrams(&enc, 2, 1).unwrap());

    let two_grams = [
        "[C][C=]", "[C=][C]", "[C][H]", "[H][Br1]", "[C][B=]", "[B=][F]", "[F][Z]", "[Z][Br2]",
    ];
    assert_eq!(n_grams.len(), two_grams.len());
    for two_gram in two_grams.iter() {
        assert!(n_grams.iter().any(|g| g == two_gram));
    }

    n_grams.extend(decoded(&vocab, &generate_ngrams(&enc, 3, 1).unwrap()));

    let three_grams = [
        "[C][C=][C]",
        "[C=][C][H]",
        "[C][H][Br1]",
        "[C][B=][F]",
        "[B=][F][Z]",
        "[F][Z][Br2]",
    ];

    assert_eq!(n_grams.len(), two_grams.len() + three_grams.len());
    for two_gram in two_grams.iter() {
        assert!(n_grams.iter().any(|g| g == two_gram));
    }
    for three_gram in three_grams.iter() {
        assert!(n_grams.iter().any(|g| g == three_gram));
    }
}

#[test]
fn count_token_occurence_test() {
    let f = test_data();
    let mut vocab = Vocab::new(&f).unwrap();
    let enc = encode_all(&vocab, &f);
    let mut n_grams = generate_ngrams(&enc, 2, 1).unwrap();
    n_grams.extend(generate_ngrams(&enc, 3, 1).unwrap());
    for ngram in n_grams.iter() {
        vocab.insert_ngram(ngram).unwrap();
    }
    let encoded_selfies: Vec<Vec<u32>> = enc.iter().map(|s| optimal_encode(s, &vocab)).collect();
    let counts = count_token_occurence(&encoded_selfies, &vocab);
    let most_common = vec![
        ("[C]", 0),
        ("[C][C=]", 1),
        ("[C][H][Br1]", 1),
        ("[C][B=]", 1),
        ("[F][Z][Br2]", 1),
    ];
    for i in most_common.iter() {
        let ids = vocab.base_encode(i.0).unwrap();
        let key = if ids.len() == 1 { ids[0] } else { *vocab.get_aux(&ids).unwrap() };
        assert!((key as usize) < counts.len() && counts.values()[key as usize] == i.1)
    }
}
