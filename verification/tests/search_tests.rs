use galm::search::contains_str;
use galm::search::get_similar_word;
use galm::search::partial_match;
use galm::Characters;
use galm::Database;

fn table(names: Vec<char>, costs: Vec<usize>, max: usize) -> Database {
    Database { characters: Characters { names, costs }, max_distance_size: max }
}

#[test]
fn monotonic_tie_break() {
    // With 玉 the symbol closest to 王, the candidate 玉様 wins.
    let names = vec!['王', '玉', '皇', '大', '様'];
    let mut costs = vec![255usize; 25];
    for i in 0..5 {
        costs[i * 5 + i] = 0;
    }
    costs[0 * 5 + 1] = 22; // 王 -> 玉
    costs[1 * 5 + 0] = 22;
    costs[0 * 5 + 2] = 50; // 王 -> 皇
    costs[2 * 5 + 0] = 50;
    costs[0 * 5 + 3] = 60; // 王 -> 大
    costs[3 * 5 + 0] = 60;
    let db = table(names, costs, 255);
    let candidates = vec!["皇様", "玉様", "大様"];
    assert_eq!(get_similar_word(&db, "王様", &candidates), "玉様");
}

#[test]
fn first_of_equal_candidates_wins() {
    // The running best improves only on a strictly smaller distance, so the
    // earliest candidate of least distance is kept.
    let db = galm::new();
    let candidates = vec!["b", "c"];
    assert_eq!(get_similar_word(&db, "a", &candidates), "b");
}

#[test]
fn empty_candidates_give_empty_word() {
    let db = galm::new();
    let candidates: Vec<&str> = Vec::new();
    assert_eq!(get_similar_word(&db, "anything", &candidates), "");
}

#[test]
fn similar_word_over_unknown_symbols() {
    let db = galm::new();
    let candidates = vec!["banana", "nana", "nabana"];
    assert_eq!(get_similar_word(&db, "danana", &candidates), "banana");
}

#[test]
fn partial_match_filters_and_sorts() {
    // "nabana" does not contain "nana", so only two candidates survive,
    // shortest first.
    let candidates = vec!["banana", "nana", "nabana"];
    assert_eq!(partial_match(&candidates, "nana"), vec!["nana", "banana"]);
}

#[test]
fn partial_match_is_stable() {
    let candidates = vec!["bbx", "aax", "x", "ccx"];
    assert_eq!(partial_match(&candidates, "x"), vec!["x", "bbx", "aax", "ccx"]);
}

#[test]
fn partial_match_empty_query_keeps_everything() {
    let candidates = vec!["bb", "a", "ccc"];
    assert_eq!(partial_match(&candidates, ""), vec!["a", "bb", "ccc"]);
}

#[test]
fn partial_match_counts_symbols_not_bytes() {
    // 王様 is two symbols, shorter than the four-symbol candidate even
    // though it holds more bytes.
    let candidates = vec!["abcd", "王様"];
    assert_eq!(partial_match(&candidates, ""), vec!["王様", "abcd"]);
}

#[test]
fn contains_str_finds_substrings() {
    assert!(contains_str("banana", "nan"));
    assert!(contains_str("banana", ""));
    assert!(contains_str("banana", "banana"));
    assert!(!contains_str("nabana", "nana"));
    assert!(!contains_str("na", "nana"));
    assert!(contains_str("王様だ", "様"));
    assert!(!contains_str("王様", "様王"));
}
