use rsomics_link_prediction::{Graph, Method};

const SAMPLE: &str = "a b\nb c\nc d\na c\nd e\ne a\nf g\ng h\nh f\ni i\nb a\n";

fn adjacency(g: &Graph) -> Vec<Vec<bool>> {
    let n = g.n_nodes();
    (0..n).map(|u| (0..n).map(|v| g.adjacent(u, v)).collect()).collect()
}

#[test]
fn law_graph_determined_and_repeats_ignored() {
    let g1 = Graph::from_edge_list(SAMPLE);
    let g2 = Graph::from_edge_list(SAMPLE);
    let g3 = Graph::from_edge_list("a b\nb c\nc d\na c\nd e\ne a\nf g\ng h\nh f\ni i\n");
    assert_eq!(adjacency(&g1), adjacency(&g2));
    assert_eq!(adjacency(&g1), adjacency(&g3));
    for u in 0..g1.n_nodes() {
        assert_eq!(g1.label(u), g3.label(u));
        assert!(!g1.adjacent(u, u));
    }
    assert_eq!(g1.degree(g1.id_of("i").unwrap()), 0);
    assert_eq!(g1.degree(g1.id_of("a").unwrap()), 3);
}

#[test]
fn law_union_and_common_sizes() {
    let g = Graph::from_edge_list(SAMPLE);
    let n = g.n_nodes();
    for u in 0..n {
        for v in 0..n {
            let both = (0..n).filter(|&w| g.adjacent(u, w) && g.adjacent(v, w)).count();
            assert_eq!(g.union_size(u, v), g.degree(u) + g.degree(v) - both);
            assert_eq!(g.union_size(u, v), g.union_size(v, u));
            let cn = g.common_neighbors(u, v);
            assert!(cn.len() <= g.union_size(u, v));
            assert_eq!(cn, g.common_neighbors(v, u));
            assert!(cn.windows(2).all(|w| w[0] < w[1]));
            for w in 0..n {
                let expected = g.adjacent(u, w) && g.adjacent(v, w) && w != u && w != v;
                assert_eq!(cn.contains(&w), expected);
            }
            if g.adjacent(u, v) {
                assert!(g.common_neighbors(u, v).len() + 2 <= g.union_size(u, v));
            }
        }
    }
}

#[test]
fn law_distance_symmetric_and_values() {
    let g = Graph::from_edge_list(SAMPLE);
    let n = g.n_nodes();
    for u in 0..n {
        for v in 0..n {
            let d = g.bfs_dist(u, v);
            assert_eq!(d, g.bfs_dist(v, u));
            assert_eq!(d == Some(0), u == v);
            if g.adjacent(u, v) {
                assert_eq!(d, Some(1));
            }
        }
    }
    let a = g.id_of("a").unwrap();
    let f = g.id_of("f").unwrap();
    let i = g.id_of("i").unwrap();
    assert_eq!(g.bfs_dist(a, f), None);
    assert_eq!(g.bfs_dist(i, a), None);
    assert_eq!(g.bfs_dist(a, g.id_of("d").unwrap()), Some(2));
}

#[test]
fn law_default_pairs_determined() {
    let g = Graph::from_edge_list(SAMPLE);
    let p = g.select_pairs(None).unwrap();
    let q = g.select_pairs(None).unwrap();
    assert_eq!(p, q);
    for w in p.windows(2) {
        let (x, y) = ((g.label(w[0].0), g.label(w[0].1)), (g.label(w[1].0), g.label(w[1].1)));
        assert!(x < y);
    }
}

#[test]
fn law_method_names_round_trip() {
    let all = [
        ("jaccard", Method::Jaccard),
        ("adamic-adar", Method::AdamicAdar),
        ("resource-allocation", Method::ResourceAllocation),
        ("preferential-attachment", Method::PreferentialAttachment),
        ("common-neighbor-centrality", Method::CommonNeighborCentrality),
    ];
    for (name, m) in all {
        assert_eq!(Method::parse(name), Ok(m));
    }
}

const REARRANGED: &str = "h f\n# moved\ni i\nc b\ne d\ng f\nc a\nd c\nb a\na e\nh g\na b\n";

fn label_set(g: &Graph) -> Vec<String> {
    let mut v: Vec<String> = (0..g.n_nodes()).map(|i| g.label(i).to_string()).collect();
    v.sort();
    v
}

#[test]
fn law_rearranged_edges_same_labelled_graph() {
    let g1 = Graph::from_edge_list(SAMPLE);
    let g2 = Graph::from_edge_list(REARRANGED);
    assert_eq!(label_set(&g1), label_set(&g2));
    assert_ne!(g1.label(0), g2.label(0));
    for s in label_set(&g1) {
        for t in label_set(&g1) {
            let (a1, b1) = (g1.id_of(&s).unwrap(), g1.id_of(&t).unwrap());
            let (a2, b2) = (g2.id_of(&s).unwrap(), g2.id_of(&t).unwrap());
            assert_eq!(g1.adjacent(a1, b1), g2.adjacent(a2, b2));
        }
    }
}

#[test]
fn law_default_output_by_label() {
    let g1 = Graph::from_edge_list(SAMPLE);
    let g2 = Graph::from_edge_list(REARRANGED);
    let p1 = g1.select_pairs(None).unwrap();
    let p2 = g2.select_pairs(None).unwrap();
    assert_eq!(p1.len(), p2.len());
    for (x, y) in p1.iter().zip(p2.iter()) {
        assert_eq!(g1.label(x.0), g2.label(y.0));
        assert_eq!(g1.label(x.1), g2.label(y.1));
        for m in [Method::Jaccard, Method::PreferentialAttachment, Method::CommonNeighborCentrality] {
            for weighted in [true, false] {
                assert_eq!(g1.score_terms(m, x.0, x.1, weighted), g2.score_terms(m, y.0, y.1, weighted));
            }
        }
    }
}
