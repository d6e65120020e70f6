use galm::dict::MalformedDictionary;
use galm::model::CostModel;
use galm::Characters;
use galm::Database;

fn table(names: Vec<char>, costs: Vec<usize>, max: usize) -> Database {
    Database { characters: Characters { names, costs }, max_distance_size: max }
}

#[test]
fn identity_known_symbol() {
    // A symbol against itself is zero even when the stored diagonal says
    // otherwise: identity is decided before any lookup.
    let db = table(vec!['a', 'b'], vec![5, 3, 7, 5], 255);
    assert_eq!(db.get_distance('a', 'a'), 0);
    assert_eq!(db.get_distance('b', 'b'), 0);
}

#[test]
fn identity_unknown_symbol() {
    let db = galm::new();
    assert_eq!(db.get_distance('z', 'z'), 0);
}

#[test]
fn distance_direct_lookup() {
    // The table is read row-major, from-symbol first, and may be asymmetric.
    let db = table(vec!['a', 'b'], vec![0, 3, 7, 0], 255);
    assert_eq!(db.get_distance('a', 'b'), 3);
    assert_eq!(db.get_distance('b', 'a'), 7);
}

#[test]
fn distance_clamped_to_ceiling() {
    let db = table(vec!['a', 'b'], vec![0, 400, 400, 0], 255);
    assert_eq!(db.get_distance('a', 'b'), 255);
    let low = table(vec!['a', 'b'], vec![0, 120, 120, 0], 100);
    assert_eq!(low.get_distance('a', 'b'), 100);
}

#[test]
fn symmetry_of_symmetric_table() {
    let db = table(vec!['a', 'b', 'c'], vec![0, 3, 9, 3, 0, 4, 9, 4, 0], 255);
    let names = ['a', 'b', 'c', 'z'];
    for &x in names.iter() {
        for &y in names.iter() {
            assert_eq!(db.get_distance(x, y), db.get_distance(y, x));
        }
    }
}

#[test]
fn bounds_all_pairs() {
    let db = table(vec!['a', 'b', 'c'], vec![0, 3, 900, 3, 0, 4, 900, 4, 0], 100);
    let names = ['a', 'b', 'c', 'z', '王'];
    for &x in names.iter() {
        for &y in names.iter() {
            assert!(db.get_distance(x, y) <= 100);
        }
    }
}

#[test]
fn unknown_symbol_lenience() {
    // A pair with a symbol outside the alphabet costs exactly the ceiling,
    // and never fails.
    let db = table(vec!['a', 'b'], vec![0, 3, 7, 0], 255);
    assert_eq!(db.get_distance('a', 'z'), 255);
    assert_eq!(db.get_distance('z', 'a'), 255);
    assert_eq!(db.get_distance('y', 'z'), 255);
}

#[test]
fn default_model_is_empty() {
    let db = galm::new();
    assert_eq!(db.max_distance(), 255);
    assert_eq!(db.get_distance('a', 'b'), 255);
    assert_eq!(db.get_distance('a', 'a'), 0);
}

#[test]
fn build_success_reads_fields() {
    let names = vec!['a', 'b'];
    let rows = vec![
        vec!["0".to_string(), "12".to_string()],
        vec!["34".to_string(), "0".to_string()],
    ];
    let db = Database::build(names, &rows, 255).unwrap();
    assert_eq!(db.get_distance('a', 'b'), 12);
    assert_eq!(db.get_distance('b', 'a'), 34);
}

#[test]
fn construction_failure_non_numeric() {
    // A non-numeric cost field is a malformed dictionary, not a panic and
    // not a silent zero.
    let names = vec!['a', 'b'];
    let rows = vec![
        vec!["0".to_string(), "1x".to_string()],
        vec!["3".to_string(), "0".to_string()],
    ];
    assert_eq!(Database::build(names, &rows, 255).err(), Some(MalformedDictionary));
}

#[test]
fn construction_failure_empty_field() {
    let names = vec!['a'];
    let rows = vec![vec!["".to_string()]];
    assert_eq!(Database::build(names, &rows, 255).err(), Some(MalformedDictionary));
}

#[test]
fn construction_failure_row_count() {
    let names = vec!['a', 'b'];
    let rows = vec![vec!["0".to_string(), "1".to_string()]];
    assert_eq!(Database::build(names, &rows, 255).err(), Some(MalformedDictionary));
}

#[test]
fn construction_failure_row_width() {
    let names = vec!['a', 'b'];
    let rows = vec![
        vec!["0".to_string(), "1".to_string()],
        vec!["3".to_string()],
    ];
    assert_eq!(Database::build(names, &rows, 255).err(), Some(MalformedDictionary));
}

#[test]
fn parse_cost_reads_numerals() {
    assert_eq!(galm::dict::parse_cost("0"), Some(0));
    assert_eq!(galm::dict::parse_cost("123"), Some(123));
    assert_eq!(galm::dict::parse_cost("007"), Some(7));
    assert_eq!(galm::dict::parse_cost(""), None);
    assert_eq!(galm::dict::parse_cost("12a"), None);
    assert_eq!(galm::dict::parse_cost("-3"), None);
    assert_eq!(galm::dict::parse_cost(" 3"), None);
    assert_eq!(galm::dict::parse_cost("99999999999999999999999999999"), None);
}
