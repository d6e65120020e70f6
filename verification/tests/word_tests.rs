use galm::word::word_distance;
use galm::Characters;
use galm::Database;

fn table(names: Vec<char>, costs: Vec<usize>, max: usize) -> Database {
    Database { characters: Characters { names, costs }, max_distance_size: max }
}

#[test]
fn empty_string_boundary() {
    // Against the empty string, every string costs one ceiling per symbol,
    // on either side.
    let db = galm::new();
    assert_eq!(db.get_word_distance("", "abc"), 3 * 255);
    assert_eq!(db.get_word_distance("abc", ""), 3 * 255);
    assert_eq!(db.get_word_distance("", ""), 0);
    let low = table(vec!['a'], vec![0], 100);
    assert_eq!(low.get_word_distance("", "ab"), 200);
    assert_eq!(low.get_word_distance("ab", ""), 200);
}

#[test]
fn self_distance_is_zero() {
    let db = table(vec!['a', 'b'], vec![0, 9, 9, 0], 255);
    assert_eq!(db.get_word_distance("abba", "abba"), 0);
    // Unknown symbols substitute for themselves at no cost too.
    assert_eq!(db.get_word_distance("xyz", "xyz"), 0);
    assert_eq!(db.get_word_distance("王様", "王様"), 0);
}

#[test]
fn substitution_uses_the_table() {
    let db = table(vec!['a', 'b'], vec![0, 10, 10, 0], 255);
    assert_eq!(db.get_word_distance("ab", "bb"), 10);
    assert_eq!(db.get_word_distance("aa", "bb"), 20);
}

#[test]
fn insert_and_delete_cost_the_ceiling() {
    let db = table(vec!['a', 'b'], vec![0, 10, 10, 0], 255);
    assert_eq!(db.get_word_distance("a", "ab"), 255);
    assert_eq!(db.get_word_distance("ab", "a"), 255);
    assert_eq!(db.get_word_distance("a", "aaa"), 510);
}

#[test]
fn unknown_symbols_substitute_at_the_ceiling() {
    let db = galm::new();
    assert_eq!(db.get_word_distance("danana", "banana"), 255);
}

#[test]
fn multibyte_symbols_count_as_one_step() {
    let db = table(vec!['王', '玉'], vec![0, 22, 22, 0], 255);
    assert_eq!(db.get_word_distance("王様", "玉様"), 22);
}

#[test]
fn built_dictionary_scores_words() {
    let names = vec!['a', 'b', 'c'];
    let rows = vec![
        vec!["0".to_string(), "10".to_string(), "90".to_string()],
        vec!["10".to_string(), "0".to_string(), "40".to_string()],
        vec!["90".to_string(), "40".to_string(), "0".to_string()],
    ];
    let db = Database::build(names, &rows, 255).unwrap();
    assert_eq!(db.get_word_distance("abc", "abc"), 0);
    assert_eq!(db.get_word_distance("aa", "bc"), 100);
    assert_eq!(db.get_word_distance("cab", "ab"), 255);
}

#[test]
fn engine_takes_any_cost_model() {
    let nodes = vec!['a', 'b'];
    let arcs = vec![galm::graph::GraphArc { from: 'a', to: 'b', cost: 10 }];
    let g = galm::graph::GraphModel::build(nodes, &arcs, 255).unwrap();
    assert_eq!(word_distance(&g, "ab", "bb"), 10);
    // The graph is directed: the reverse substitution is unreachable and
    // costs the whole ceiling.
    assert_eq!(word_distance(&g, "bb", "ab"), 255);
}
