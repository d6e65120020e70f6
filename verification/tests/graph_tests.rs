use galm::dict::MalformedDictionary;
use galm::graph::GraphArc;
use galm::graph::GraphModel;
use galm::model::CostModel;

fn arc(from: char, to: char, cost: usize) -> GraphArc {
    GraphArc { from, to, cost }
}

fn model(nodes: Vec<char>, arcs: Vec<GraphArc>, max: usize) -> GraphModel {
    GraphModel::build(nodes, &arcs, max).unwrap()
}

#[test]
fn graph_identity() {
    let g = model(vec!['a', 'b'], vec![arc('a', 'b', 5)], 255);
    assert_eq!(g.distance('a', 'a'), 0);
    assert_eq!(g.distance('b', 'b'), 0);
    assert_eq!(g.distance('z', 'z'), 0);
}

#[test]
fn graph_follows_edges() {
    let g = model(vec!['a', 'b', 'c'], vec![arc('a', 'b', 5), arc('b', 'c', 7)], 255);
    assert_eq!(g.distance('a', 'b'), 5);
    assert_eq!(g.distance('b', 'c'), 7);
    assert_eq!(g.distance('a', 'c'), 12);
}

#[test]
fn graph_picks_the_cheaper_path() {
    let g = model(
        vec!['a', 'b', 'c'],
        vec![arc('a', 'b', 10), arc('b', 'c', 10), arc('a', 'c', 50)],
        255,
    );
    assert_eq!(g.distance('a', 'c'), 20);
}

#[test]
fn graph_is_directed() {
    let g = model(vec!['a', 'b'], vec![arc('a', 'b', 5)], 255);
    assert_eq!(g.distance('a', 'b'), 5);
    assert_eq!(g.distance('b', 'a'), 255);
}

#[test]
fn graph_unreachable_costs_the_ceiling() {
    let g = model(vec!['a', 'b', 'c'], vec![arc('a', 'b', 5)], 255);
    assert_eq!(g.distance('a', 'c'), 255);
}

#[test]
fn graph_unknown_symbol_costs_the_ceiling() {
    let g = model(vec!['a', 'b'], vec![arc('a', 'b', 5)], 255);
    assert_eq!(g.distance('a', 'z'), 255);
    assert_eq!(g.distance('z', 'b'), 255);
}

#[test]
fn graph_saturates_at_the_ceiling() {
    let g = model(vec!['a', 'b', 'c'], vec![arc('a', 'b', 300)], 255);
    assert_eq!(g.distance('a', 'b'), 255);
    let sums = model(vec!['a', 'b', 'c'], vec![arc('a', 'b', 200), arc('b', 'c', 200)], 255);
    assert_eq!(sums.distance('a', 'c'), 255);
}

#[test]
fn graph_zero_weight_edges() {
    let g = model(vec!['a', 'b', 'c'], vec![arc('a', 'b', 0), arc('b', 'c', 3)], 255);
    assert_eq!(g.distance('a', 'b'), 0);
    assert_eq!(g.distance('a', 'c'), 3);
}

#[test]
fn graph_build_rejects_dangling_reference() {
    // An arc naming a symbol outside the declared alphabet is a malformed
    // dictionary.
    let nodes = vec!['a', 'b'];
    let arcs = vec![arc('a', 'z', 5)];
    assert_eq!(
        GraphModel::build(nodes, &arcs, 255).err(),
        Some(MalformedDictionary)
    );
}

#[test]
fn graph_model_drives_the_search() {
    // The nearest-match search takes either cost model; here substituting
    // 王 by 玉 costs a two-edge path of 22 while the other first symbols
    // stay at the ceiling.
    let g = model(
        vec!['王', '玉', '中', '皇', '大', '様'],
        vec![arc('王', '中', 11), arc('中', '玉', 11)],
        255,
    );
    let candidates = vec!["皇様", "玉様", "大様"];
    assert_eq!(galm::search::get_similar_word(&g, "王様", &candidates), "玉様");
}

#[test]
fn graph_max_distance_is_the_ceiling() {
    let g = model(vec!['a'], Vec::new(), 100);
    assert_eq!(g.max_distance(), 100);
    assert!(g.distance('a', 'b') <= 100);
}
