use ect::graph::CityGraph;
use ect::model::Algorithm;
use ect::model::DatasetEdge;
use ect::mst::build_mst;
use ect::mst::UnionFind;
use ect::tsp::bf;
use ect::tsp::build_distance_matrix;
use ect::tsp::find_best_path;
use ect::tsp::generate_permutations;
use ect::tsp::index_perms_to_city_perms;
use ect::tsp::parallel_bf;
use ect::tsp::score_path;

fn record(from: &str, to: &str, distance: u32) -> DatasetEdge {
    DatasetEdge {
        from_city: from.to_string(),
        from_country: format!("{}-land", from),
        to_city: to.to_string(),
        to_country: format!("{}-land", to),
        distance,
    }
}

fn undirected_edge_pairs(g: &CityGraph) -> usize {
    let n = g.cities.len();
    let mut count = 0;
    for i in 0..n {
        for j in (i + 1)..n {
            if g.adjacency[i][j].is_some() {
                count += 1;
            }
        }
    }
    count
}

#[test]
fn union_find_merge_then_repeat() {
    let mut uf = UnionFind::new(4);
    assert!(uf.union(0, 1));
    assert!(!uf.union(0, 1));
    assert_eq!(uf.find(0), uf.find(1));
    assert!(uf.union(2, 3));
    assert!(uf.union(1, 3));
    assert!(!uf.union(0, 2));
    assert_eq!(uf.find(0), uf.find(3));
}

#[test]
fn union_find_singletons() {
    let mut uf = UnionFind::new(3);
    assert_eq!(uf.find(0), 0);
    assert_eq!(uf.find(2), 2);
    assert!(uf.union(1, 2));
    assert_ne!(uf.find(0), uf.find(1));
}

#[test]
fn graph_build_last_record_wins() {
    let edges = vec![record("a", "b", 10), record("b", "a", 4)];
    let g = CityGraph::build_graph_from_edges(&edges);
    assert_eq!(g.cities.len(), 2);
    assert_eq!(g.adjacency[0][1], Some(4));
    assert_eq!(g.adjacency[1][0], Some(4));
}

#[test]
fn graph_build_keeps_first_metadata() {
    let mut second = record("b", "a", 7);
    second.to_country = "elsewhere".to_string();
    let edges = vec![record("a", "b", 3), second];
    let g = CityGraph::build_graph_from_edges(&edges);
    let ia = g.index_of(&"a".to_string()).unwrap();
    assert_eq!(g.cities[ia].country, "a-land");
}

#[test]
fn add_city_replaces_metadata() {
    let mut g = CityGraph::new();
    g.add_city(ect::graph::City { name: "a".to_string(), country: "x".to_string() });
    g.add_city(ect::graph::City { name: "a".to_string(), country: "y".to_string() });
    assert_eq!(g.cities.len(), 1);
    assert_eq!(g.cities[0].country, "y");
}

#[test]
fn mst_triangle_drops_heaviest_edge() {
    let edges = vec![record("a", "b", 1), record("b", "c", 2), record("a", "c", 3)];
    let g = CityGraph::build_graph_from_edges(&edges);
    let mst = g.build_mst();
    assert_eq!(mst.cities.len(), 3);
    // |locations| - components = 3 - 1 = 2 edges; the cut property keeps the
    // two lighter edges and drops a-c.
    assert_eq!(undirected_edge_pairs(&mst), 2);
    assert_eq!(mst.adjacency[0][1], Some(1));
    assert_eq!(mst.adjacency[1][2], Some(2));
    assert_eq!(mst.adjacency[0][2], None);
    assert_eq!(mst.adjacency[2][0], None);
}

#[test]
fn mst_disconnected_gives_forest() {
    let edges = vec![record("a", "b", 1), record("c", "d", 5)];
    let g = CityGraph::build_graph_from_edges(&edges);
    let mst = build_mst(&g);
    // 4 locations, 2 components: 2 edges stay.
    assert_eq!(undirected_edge_pairs(&mst), 2);
}

#[test]
fn mst_equal_weights_spanning_count() {
    let edges = vec![
        record("a", "b", 2),
        record("b", "c", 2),
        record("c", "a", 2),
        record("c", "d", 1),
    ];
    let g = CityGraph::build_graph_from_edges(&edges);
    let mst = build_mst(&g);
    assert_eq!(undirected_edge_pairs(&mst), 3);
}

#[test]
fn distance_matrix_diagonal_and_symmetry() {
    let edges = vec![record("a", "b", 1), record("b", "c", 2)];
    let g = CityGraph::build_graph_from_edges(&edges);
    let targets = vec![0usize, 1, 2];
    let m = build_distance_matrix(&g, &targets);
    for i in 0..3 {
        assert_eq!(m[i][i], 0);
        for j in 0..3 {
            assert_eq!(m[i][j], m[j][i]);
        }
    }
    // three locations a-b (1), b-c (2), no direct a-c: distance(a, c) == 3.
    assert_eq!(m[0][2], 3);
    assert_eq!(m[0][1], 1);
    assert_eq!(m[1][2], 2);
}

#[test]
fn distance_matrix_multi_hop_beats_direct() {
    let edges = vec![record("a", "b", 1), record("b", "c", 1), record("a", "c", 5)];
    let g = CityGraph::build_graph_from_edges(&edges);
    let targets = vec![0usize, 2];
    let m = build_distance_matrix(&g, &targets);
    assert_eq!(m[0][1], 2);
}

#[test]
fn distance_matrix_unreachable_is_sentinel() {
    let edges = vec![record("a", "b", 1), record("c", "d", 5)];
    let g = CityGraph::build_graph_from_edges(&edges);
    let targets = vec![0usize, 2];
    let m = build_distance_matrix(&g, &targets);
    assert_eq!(m[0][1], u32::MAX);
    assert_eq!(m[1][0], u32::MAX);
}

#[test]
fn score_path_sums_consecutive_distances() {
    let m = vec![vec![0, 1, 4], vec![1, 0, 2], vec![4, 2, 0]];
    assert_eq!(score_path(&vec![0, 1, 2], &m), 3);
    assert_eq!(score_path(&vec![0, 2, 1], &m), 6);
    assert_eq!(score_path(&vec![1], &m), 0);
    assert_eq!(score_path(&vec![], &m), 0);
}

#[test]
fn score_path_sentinel_disqualifies() {
    let m = vec![vec![0, u32::MAX], vec![u32::MAX, 0]];
    assert_eq!(score_path(&vec![0, 1], &m), u32::MAX);
}

#[test]
fn score_is_reversal_invariant() {
    let m = vec![
        vec![0, 1, 4, 3],
        vec![1, 0, 2, 5],
        vec![4, 2, 0, 1],
        vec![3, 5, 1, 0],
    ];
    let perms = generate_permutations(vec![0, 1, 2, 3]);
    for p in &perms {
        let mut rev = p.clone();
        rev.reverse();
        assert_eq!(score_path(p, &m), score_path(&rev, &m));
    }
}

#[test]
fn brute_force_complete_graph_minimum_is_4() {
    // ab=1, ac=4, ad=3, bc=2, bd=5, cd=1: the best open path costs 4
    // (a-b-c-d: 1+2+1).
    let m = vec![
        vec![0, 1, 4, 3],
        vec![1, 0, 2, 5],
        vec![4, 2, 0, 1],
        vec![3, 5, 1, 0],
    ];
    let perms = generate_permutations(vec![0, 1, 2, 3]);
    assert_eq!(perms.len(), 24);
    let (_, best) = bf(perms.clone(), &m);
    assert_eq!(best, 4);
    let (_, best_par) = parallel_bf(perms, &m);
    assert_eq!(best_par, 4);
}

#[test]
fn serial_and_parallel_agree_on_score() {
    let m = vec![
        vec![0, 7, 2, 9],
        vec![7, 0, 3, 1],
        vec![2, 3, 0, 6],
        vec![9, 1, 6, 0],
    ];
    let perms = generate_permutations(vec![0, 1, 2, 3]);
    let (_, serial) = bf(perms.clone(), &m);
    let (_, parallel) = parallel_bf(perms.clone(), &m);
    assert_eq!(serial, parallel);
    let (_, dispatched_serial) = find_best_path(Algorithm::Serial, perms.clone(), &m);
    let (_, dispatched_parallel) = find_best_path(Algorithm::Parallel, perms, &m);
    assert_eq!(dispatched_serial, serial);
    assert_eq!(dispatched_parallel, serial);
}

#[test]
fn empty_permutation_list_gives_sentinel() {
    let m = vec![vec![0, 1], vec![1, 0]];
    let (path, score) = bf(Vec::new(), &m);
    assert!(path.is_empty());
    assert_eq!(score, u32::MAX);
    let (path_par, score_par) = parallel_bf(Vec::new(), &m);
    assert!(path_par.is_empty());
    assert_eq!(score_par, u32::MAX);
}

#[test]
fn all_disqualified_gives_sentinel_and_empty_path() {
    let m = vec![vec![0, u32::MAX], vec![u32::MAX, 0]];
    let perms = vec![vec![0, 1], vec![1, 0]];
    let (path, score) = bf(perms.clone(), &m);
    assert!(path.is_empty());
    assert_eq!(score, u32::MAX);
    let (path_par, score_par) = parallel_bf(perms, &m);
    assert!(path_par.is_empty());
    assert_eq!(score_par, u32::MAX);
}

#[test]
fn serial_search_first_minimum_wins() {
    let m = vec![vec![0, 2, 2], vec![2, 0, 2], vec![2, 2, 0]];
    // every permutation scores 4: the first one listed must be kept
    let perms = vec![vec![2, 1, 0], vec![0, 1, 2], vec![1, 0, 2]];
    let (path, score) = bf(perms, &m);
    assert_eq!(score, 4);
    assert_eq!(path, vec![2, 1, 0]);
}

#[test]
fn generate_permutations_two_elements_exact_order() {
    assert_eq!(generate_permutations(vec![0, 1]), vec![vec![0, 1], vec![1, 0]]);
}

#[test]
fn generate_permutations_first_is_input_order() {
    let perms = generate_permutations(vec![0, 1, 2, 3]);
    assert_eq!(perms[0], vec![0, 1, 2, 3]);
}

#[test]
fn union_find_returns_roots() {
    let mut uf = UnionFind::new(5);
    assert!(uf.union(3, 4));
    let r = uf.find(4);
    assert_eq!(uf.find(r), r);
    assert_eq!(uf.find(3), r);
}

#[test]
fn generate_permutations_counts_and_contents() {
    let perms = generate_permutations(vec![0, 1, 2]);
    assert_eq!(perms.len(), 6);
    for p in &perms {
        let mut sorted = p.clone();
        sorted.sort();
        assert_eq!(sorted, vec![0, 1, 2]);
    }
    assert!(perms.contains(&vec![0, 1, 2]));
    assert!(perms.contains(&vec![2, 1, 0]));
    assert_eq!(generate_permutations(Vec::new()).len(), 1);
}

#[test]
fn index_perms_name_conversion() {
    let cities = vec!["lisbon".to_string(), "porto".to_string()];
    let city_perms = index_perms_to_city_perms(vec![vec![0, 1], vec![1, 0]], &cities);
    assert_eq!(city_perms.len(), 2);
    assert_eq!(city_perms[0], vec!["lisbon".to_string(), "porto".to_string()]);
    assert_eq!(city_perms[1], vec!["porto".to_string(), "lisbon".to_string()]);
}

#[test]
fn find_all_paths_line_graph() {
    let edges = vec![record("a", "b", 1), record("b", "c", 2)];
    let g = CityGraph::build_graph_from_edges(&edges);
    let routes = g.find_all_paths(0, &[2]);
    assert_eq!(routes.len(), 1);
    assert_eq!(routes[0].0, vec![0, 1, 2]);
    assert_eq!(routes[0].1, 3);
}

#[test]
fn find_all_paths_stops_once_covered() {
    let edges = vec![record("a", "b", 1), record("b", "c", 2), record("a", "c", 7)];
    let g = CityGraph::build_graph_from_edges(&edges);
    let mut routes = g.find_all_paths(0, &[1]);
    routes.sort();
    // both roads out of `a` eventually reach `b`; each route ends as soon as
    // `b` is on it
    assert_eq!(routes.len(), 2);
    assert_eq!(routes[0], (vec![0, 1], 1));
    assert_eq!(routes[1], (vec![0, 2, 1], 9));
}

#[test]
fn index_of_finds_registered_names() {
    let edges = vec![record("a", "b", 1)];
    let g = CityGraph::build_graph_from_edges(&edges);
    assert_eq!(g.index_of(&"a".to_string()), Some(0));
    assert_eq!(g.index_of(&"b".to_string()), Some(1));
    assert_eq!(g.index_of(&"zzz".to_string()), None);
}

#[test]
fn pipeline_end_to_end_small() {
    let edges = vec![
        record("a", "b", 1),
        record("a", "c", 4),
        record("a", "d", 3),
        record("b", "c", 2),
        record("b", "d", 5),
        record("c", "d", 1),
    ];
    let g = CityGraph::build_graph_from_edges(&edges);
    let mst = g.build_mst();
    // mst keeps ab=1, cd=1, bc=2
    assert_eq!(undirected_edge_pairs(&mst), 3);
    let targets = vec![0usize, 1, 2, 3];
    let m = build_distance_matrix(&mst, &targets);
    // over the reduced graph, a-c goes a-b-c: 3, a-d goes a-b-c-d: 4
    assert_eq!(m[0][2], 3);
    assert_eq!(m[0][3], 4);
    let perms = generate_permutations(vec![0, 1, 2, 3]);
    let (_, best) = bf(perms.clone(), &m);
    let (_, best_par) = parallel_bf(perms, &m);
    assert_eq!(best, best_par);
    assert_eq!(best, 4);
}
