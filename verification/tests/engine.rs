use boggle::board::Board;
use boggle::dictionary::prefix_search;
use boggle::dictionary::SearchResult;
use boggle::engine::search;
use boggle::engine::search_cached;

fn dict(words: &[&str]) -> fst::raw::Fst<Vec<u8>> {
    let mut sorted: Vec<&str> = words.to_vec();
    sorted.sort();
    fst::Set::from_iter(sorted).unwrap().into_fst()
}

fn board(s: &str) -> Board {
    Board::from_letters(&s.chars().collect()).unwrap()
}

#[test]
fn example_scenario() {
    // A T C X
    // S E R X
    // X X X X
    // X X X X
    let b = board("ATCXSERXXXXXXXXX");
    let d = dict(&["ATE", "SEA", "CAR", "ARS"]);
    let r = search(&d, &b);
    assert_eq!(r, vec!["ATE".to_string(), "SEA".to_string()]);
}

#[test]
fn completeness_on_small_grid() {
    let b = board("CATSXXXXXXXXXXXX");
    let d = dict(&["CAT", "CATS", "AT", "TA"]);
    let r = search(&d, &b);
    assert_eq!(
        r,
        vec![
            "AT".to_string(),
            "CAT".to_string(),
            "CATS".to_string(),
            "TA".to_string(),
        ]
    );
}

#[test]
fn prefix_as_word_keeps_both() {
    let b = board("CATSXXXXXXXXXXXX");
    let d = dict(&["CAT", "CATS"]);
    let r = search(&d, &b);
    assert_eq!(r, vec!["CAT".to_string(), "CATS".to_string()]);
}

#[test]
fn no_cell_is_reused_on_a_path() {
    // Only one B on the board, so BOB cannot be spelled.
    let b = board("BOXXXXXXXXXXXXXX");
    let d = dict(&["BOB"]);
    assert!(search(&d, &b).is_empty());
}

#[test]
fn single_letter_word_is_recorded() {
    let b = board("AXXXXXXXXXXXXXXX");
    let d = dict(&["A"]);
    assert_eq!(search(&d, &b), vec!["A".to_string()]);
}

#[test]
fn unreachable_word_is_not_reported() {
    // CAB needs A next to both C and B; here C and B sit in opposite corners.
    let b = board("CXXXXAXXXXXXXXXB");
    let d = dict(&["CAB"]);
    assert!(search(&d, &b).is_empty());
}

#[test]
fn cache_and_plain_search_agree() {
    let b = board("ATCXSERXXXXXXXXX");
    let d = dict(&["ATE", "SEA", "CAR", "ARS", "ATES", "SEAT", "TEA", "EAT", "ERA"]);
    assert_eq!(search(&d, &b), search_cached(&d, &b));
}

#[test]
fn repeated_runs_are_identical() {
    let b = board("ATCXSERXXXXXXXXX");
    let d = dict(&["ATE", "SEA", "TEA", "EAT", "ERA", "RES"]);
    let first = search(&d, &b);
    let second = search(&d, &b);
    assert_eq!(first, second);
}

#[test]
fn every_reported_word_queries_as_word() {
    let b = board("ATCXSERXXXXXXXXX");
    let d = dict(&["ATE", "SEA", "TEA", "EAT", "ERA", "RES", "CAR"]);
    let r = search(&d, &b);
    assert!(!r.is_empty());
    for w in &r {
        assert_eq!(prefix_search(&d, w), SearchResult::Word);
    }
}

#[test]
fn output_is_sorted_and_deduplicated() {
    // EAT can be spelled along two different paths; it is reported once.
    let b = board("EATXTAEXXXXXXXXX");
    let d = dict(&["EAT", "ATE", "TEA"]);
    let r = search(&d, &b);
    for i in 1..r.len() {
        assert!(r[i - 1] < r[i]);
    }
    let mut dedup = r.clone();
    dedup.dedup();
    assert_eq!(r, dedup);
}
