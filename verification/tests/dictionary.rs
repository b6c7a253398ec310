use boggle::dictionary::prefix_search;
use boggle::dictionary::validate_dictionary;
use boggle::dictionary::SearchResult;

fn dict(words: &[&str]) -> fst::raw::Fst<Vec<u8>> {
    let mut sorted: Vec<&str> = words.to_vec();
    sorted.sort();
    fst::Set::from_iter(sorted).unwrap().into_fst()
}

#[test]
fn finds_word() {
    let fst = dict(&["WALK"]);
    assert_eq!(prefix_search(&fst, "WALK"), SearchResult::Word)
}

#[test]
fn finds_prefix() {
    let fst = dict(&["WALK"]);
    assert_eq!(prefix_search(&fst, "WA"), SearchResult::Prefix)
}

#[test]
fn returns_none() {
    let fst = dict(&["WALK"]);
    assert_eq!(prefix_search(&fst, "fndlsajiva"), SearchResult::NoMatch)
}

#[test]
fn empty_key_is_a_prefix() {
    let fst = dict(&["WALK"]);
    assert_eq!(prefix_search(&fst, ""), SearchResult::Prefix)
}

#[test]
fn extension_past_a_word_is_dead() {
    let fst = dict(&["WALK"]);
    assert_eq!(prefix_search(&fst, "WALKS"), SearchResult::NoMatch)
}

#[test]
fn word_list_dictionary_validates() {
    let fst = dict(&["CAT", "WALK"]);
    assert!(validate_dictionary(fst).is_some());
}

#[test]
fn byte_keys_are_rejected_by_validation() {
    let keys: Vec<Vec<u8>> = vec![vec![0x61], vec![0x61, 0xFF]];
    let fst = fst::Set::from_iter(keys).unwrap().into_fst();
    assert!(validate_dictionary(fst).is_none());
}

#[test]
fn dead_prefix_stays_dead_under_extension() {
    let fst = dict(&["WALK"]);
    assert_eq!(prefix_search(&fst, "Z"), SearchResult::NoMatch);
    assert_eq!(prefix_search(&fst, "ZA"), SearchResult::NoMatch);
    assert_eq!(prefix_search(&fst, "ZAB"), SearchResult::NoMatch);
}

#[test]
fn word_that_is_also_a_prefix_answers_word() {
    let fst = dict(&["CAT", "CATS"]);
    assert_eq!(prefix_search(&fst, "CAT"), SearchResult::Word);
    assert_eq!(prefix_search(&fst, "CATS"), SearchResult::Word);
}
