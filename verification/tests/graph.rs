use rsomics_link_prediction::{Graph, Method, PairError, ScoreTerms};

#[test]
fn selfloop_and_parallel_deduped() {
    let g = Graph::from_edge_list("a b\na b\nb a\na a\n");
    assert_eq!(g.n_nodes(), 2);
    assert_eq!(g.degree(0), 1);
    assert_eq!(g.degree(1), 1);
}

#[test]
fn common_neighbors_excludes_uv() {
    // triangle a-b-c plus a-b edge; for pair (a,b) common should be {c}
    let g = Graph::from_edge_list("a b\nb c\na c\n");
    let a = g.id_of("a").unwrap();
    let b = g.id_of("b").unwrap();
    let cn: Vec<usize> = g.common_neighbors(a, b);
    assert_eq!(cn.len(), 1);
}

#[test]
fn jaccard_adjacent_pair_union_includes_endpoints() {
    // 0-1,0-2,1-2,1-3; jaccard(0,1)=1/4
    let g = Graph::from_edge_list("0 1\n0 2\n1 2\n1 3\n");
    let u = g.id_of("0").unwrap();
    let v = g.id_of("1").unwrap();
    let s = match g.score_terms(Method::Jaccard, u, v, true) {
        ScoreTerms::Ratio { common, union } => {
            if union == 0 {
                0.0
            } else {
                common as f64 / union as f64
            }
        }
        other => panic!("unexpected terms {:?}", other),
    };
    assert!((s - 0.25).abs() < 1e-12);
}

#[test]
fn method_parse_roundtrip() {
    assert_eq!(Method::parse("jaccard").unwrap(), Method::Jaccard);
    assert!(Method::parse("nope").is_err());
}

#[test]
fn method_parse_all_names_and_message() {
    assert_eq!(Method::parse("adamic-adar").unwrap(), Method::AdamicAdar);
    assert_eq!(Method::parse("resource-allocation").unwrap(), Method::ResourceAllocation);
    assert_eq!(Method::parse("preferential-attachment").unwrap(), Method::PreferentialAttachment);
    assert_eq!(
        Method::parse("common-neighbor-centrality").unwrap(),
        Method::CommonNeighborCentrality
    );
    assert_eq!(
        Method::parse("Jaccard").unwrap_err(),
        "unknown method 'Jaccard' (expected jaccard, adamic-adar, resource-allocation, \
         preferential-attachment, or common-neighbor-centrality)"
    );
    assert!(Method::parse("").is_err());
    assert!(Method::parse("jaccard ").is_err());
}

#[test]
fn ids_in_first_seen_order_and_labels() {
    let g = Graph::from_edge_list("x y\n# a comment\n\n  z x  \nlonely\nw héllo extra tokens\n");
    assert_eq!(g.n_nodes(), 5);
    assert_eq!(g.label(0), "x");
    assert_eq!(g.label(1), "y");
    assert_eq!(g.label(2), "z");
    assert_eq!(g.label(3), "w");
    assert_eq!(g.label(4), "héllo");
    assert_eq!(g.id_of("héllo"), Some(4));
    assert_eq!(g.id_of("lonely"), None);
    assert_eq!(g.id_of("extra"), None);
    assert_eq!(g.id_of("a"), None);
    assert!(g.adjacent(0, 1));
    assert!(g.adjacent(1, 0));
    assert!(g.adjacent(2, 0));
    assert!(!g.adjacent(1, 2));
    assert!(g.adjacent(3, 4));
}

#[test]
fn whitespace_crlf_and_unicode_separators() {
    let g = Graph::from_edge_list("a\tb\r\nb\u{3000}c\r\n   \t\r\n#x y\n  #p q\nc\u{a0}d");
    assert_eq!(g.n_nodes(), 4);
    assert_eq!(g.id_of("a"), Some(0));
    assert_eq!(g.id_of("d"), Some(3));
    assert_eq!(g.id_of("#x"), None);
    assert!(g.adjacent(0, 1));
    assert!(g.adjacent(1, 2));
    assert!(g.adjacent(2, 3));
    assert!(!g.adjacent(0, 2));
}

#[test]
fn empty_and_comment_only_inputs() {
    assert_eq!(Graph::from_edge_list("").n_nodes(), 0);
    assert_eq!(Graph::from_edge_list("# only\n\n   \n").n_nodes(), 0);
    // a self-loop still adds its node
    let g = Graph::from_edge_list("a a\n");
    assert_eq!(g.n_nodes(), 1);
    assert_eq!(g.degree(0), 0);
}

#[test]
fn common_neighbors_ascending_and_symmetric() {
    // hub h joined to everything; a, b share c, d, h
    let g = Graph::from_edge_list("h a\nh b\nh c\nh d\na c\na d\nb c\nb d\na b\n");
    let a = g.id_of("a").unwrap();
    let b = g.id_of("b").unwrap();
    let c = g.id_of("c").unwrap();
    let d = g.id_of("d").unwrap();
    let h = g.id_of("h").unwrap();
    let cn = g.common_neighbors(a, b);
    assert_eq!(cn, vec![h, c, d]);
    assert_eq!(g.common_neighbors(b, a), cn);
    assert_eq!(g.common_neighbors(a, a), g.common_neighbors(a, a));
    assert_eq!(g.common_neighbors(c, d), vec![h, a, b]);
}

#[test]
fn union_size_values() {
    let g = Graph::from_edge_list("0 1\n0 2\n1 2\n1 3\n");
    // N(0) = {1, 2}, N(1) = {0, 2, 3}: union {0, 1, 2, 3}
    assert_eq!(g.union_size(0, 1), 4);
    assert_eq!(g.union_size(1, 0), 4);
    // N(2) = {0, 1}, N(3) = {1}
    assert_eq!(g.union_size(2, 3), 2);
    let h = Graph::from_edge_list("a b\nc d\n");
    assert_eq!(h.union_size(0, 2), 2);
}

#[test]
fn bfs_distances() {
    let g = Graph::from_edge_list("a b\nb c\nc d\nd e\nb e\nx y\n");
    let id = |s: &str| g.id_of(s).unwrap();
    assert_eq!(g.bfs_dist(id("a"), id("a")), Some(0));
    assert_eq!(g.bfs_dist(id("a"), id("b")), Some(1));
    assert_eq!(g.bfs_dist(id("a"), id("e")), Some(2));
    assert_eq!(g.bfs_dist(id("a"), id("d")), Some(3));
    assert_eq!(g.bfs_dist(id("d"), id("a")), Some(3));
    assert_eq!(g.bfs_dist(id("a"), id("x")), None);
    assert_eq!(g.bfs_dist(id("y"), id("c")), None);
    assert_eq!(g.bfs_dist(id("x"), id("y")), Some(1));
}

#[test]
fn score_terms_of_each_method() {
    let g = Graph::from_edge_list("0 1\n0 2\n1 2\n1 3\n");
    assert_eq!(g.score_terms(Method::Jaccard, 2, 3, true), ScoreTerms::Ratio { common: 1, union: 2 });
    assert_eq!(g.score_terms(Method::AdamicAdar, 0, 3, true), ScoreTerms::InverseLogDegrees(vec![3]));
    assert_eq!(g.score_terms(Method::ResourceAllocation, 0, 1, true), ScoreTerms::InverseDegrees(vec![2]));
    assert_eq!(g.score_terms(Method::PreferentialAttachment, 0, 1, true), ScoreTerms::Product(6));
    assert_eq!(g.score_terms(Method::CommonNeighborCentrality, 0, 3, false), ScoreTerms::CommonCount(1));
    assert_eq!(
        g.score_terms(Method::CommonNeighborCentrality, 0, 3, true),
        ScoreTerms::Centrality { common: 1, nodes: 4, distance: Some(2) }
    );
    let h = Graph::from_edge_list("a b\nc d\n");
    assert_eq!(
        h.score_terms(Method::CommonNeighborCentrality, 0, 2, true),
        ScoreTerms::Centrality { common: 0, nodes: 4, distance: None }
    );
    assert_eq!(h.score_terms(Method::Jaccard, 0, 2, true), ScoreTerms::Ratio { common: 0, union: 2 });
    let lone = Graph::from_edge_list("a a\nb b\n");
    assert_eq!(lone.score_terms(Method::Jaccard, 0, 1, true), ScoreTerms::Ratio { common: 0, union: 0 });
}

#[test]
fn score_terms_symmetric_on_sample() {
    let g = Graph::from_edge_list("a b\nb c\nc d\na c\nd e\ne a\n");
    for m in [
        Method::Jaccard,
        Method::AdamicAdar,
        Method::ResourceAllocation,
        Method::PreferentialAttachment,
        Method::CommonNeighborCentrality,
    ] {
        for u in 0..g.n_nodes() {
            for v in 0..g.n_nodes() {
                assert_eq!(g.score_terms(m, u, v, true), g.score_terms(m, v, u, true));
                assert_eq!(g.score_terms(m, u, v, false), g.score_terms(m, v, u, false));
            }
        }
    }
}

#[test]
fn default_pairs_all_non_edges_by_label() {
    // ids: c=0, a=1, b=2, d=3; edges c-a, b-d
    let g = Graph::from_edge_list("c a\nb d\n");
    let ps = g.select_pairs(None).unwrap();
    let labels: Vec<(String, String)> =
        ps.iter().map(|&(u, v)| (g.label(u).to_string(), g.label(v).to_string())).collect();
    let want: Vec<(String, String)> = [("a", "b"), ("a", "d"), ("b", "c"), ("c", "d")]
        .iter()
        .map(|(x, y)| (x.to_string(), y.to_string()))
        .collect();
    assert_eq!(labels, want);
}

#[test]
fn default_pairs_each_once() {
    let g = Graph::from_edge_list("n1 n2\nn3 n4\nn5 n1\nn10 n2\n");
    let ps = g.select_pairs(None).unwrap();
    let n = g.n_nodes();
    let mut expected = 0;
    for u in 0..n {
        for v in (u + 1)..n {
            if !g.adjacent(u, v) {
                expected += 1;
            }
        }
    }
    assert_eq!(ps.len(), expected);
    for (i, p) in ps.iter().enumerate() {
        for q in &ps[i + 1..] {
            assert_ne!(p, q);
            assert_ne!((p.1, p.0), *q);
        }
        assert!(g.label(p.0) < g.label(p.1));
    }
}

#[test]
fn explicit_pairs_and_unknown_nodes() {
    let g = Graph::from_edge_list("a b\nb c\n");
    let pairs = vec![("a".to_string(), "b".to_string()), ("c".to_string(), "a".to_string())];
    assert_eq!(g.select_pairs(Some(pairs.as_slice())).unwrap(), vec![(0, 1), (2, 0)]);
    let bad = vec![
        ("a".to_string(), "c".to_string()),
        ("a".to_string(), "zz".to_string()),
        ("yy".to_string(), "xx".to_string()),
    ];
    assert_eq!(g.select_pairs(Some(bad.as_slice())), Err(PairError::UnknownNode("zz".to_string())));
    let bad2 = vec![("yy".to_string(), "xx".to_string())];
    assert_eq!(g.select_pairs(Some(bad2.as_slice())), Err(PairError::UnknownNode("yy".to_string())));
    assert_eq!(g.select_pairs(Some(&[][..])), Ok(vec![]));
}
