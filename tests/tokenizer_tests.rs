use selfie_vocab::error::VocabError;
use selfie_vocab::tokenizer::{split_selfie, unit_spans};
use selfie_vocab::windows::window_spans;

#[test]
fn split_cuts_after_each_closing_bracket() {
    assert_eq!(split_selfie("[C][C=][C][H][Br1]").unwrap(), vec!["[C]", "[C=]", "[C]", "[H]", "[Br1]"]);
    assert_eq!(split_selfie("[C][B=][F][Z][Br2]").unwrap().len(), 5);
}

#[test]
fn split_of_empty_record_is_empty() {
    assert_eq!(split_selfie("").unwrap(), Vec::<&str>::new());
}

#[test]
fn split_refuses_trailing_text() {
    assert_eq!(split_selfie("[C][C"), Err(VocabError::MalformedRecord));
    assert_eq!(unit_spans("x"), Err(VocabError::MalformedRecord));
}

#[test]
fn split_works_on_code_points() {
    assert_eq!(split_selfie("[é][中文]").unwrap(), vec!["[é]", "[中文]"]);
    assert_eq!(unit_spans("[é][中文]").unwrap(), vec![(0, 3), (3, 7)]);
}

#[test]
fn window_spans_list_runs_of_units() {
    assert_eq!(window_spans("[C][C=][H]", 2).unwrap(), vec![(0, 7), (3, 10)]);
    assert_eq!(window_spans("[C][C=][H]", 3).unwrap(), vec![(0, 10)]);
    assert_eq!(window_spans("[C][C=][H]", 4).unwrap(), Vec::<(usize, usize)>::new());
    assert_eq!(window_spans("[é][中文]", 1).unwrap(), vec![(0, 3), (3, 7)]);
    assert_eq!(window_spans("[C]", 0), Err(VocabError::InvalidWindow));
    assert_eq!(window_spans("[C]C", 1), Err(VocabError::MalformedRecord));
}
