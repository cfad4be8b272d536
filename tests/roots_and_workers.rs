use wikigraph::analyze::WikipediaAnalysis;
use wikigraph::default_worker_count;
use wikigraph::graph::{Article, NameIndex};
use wikigraph::roots::{random_roots, roots_from_names};

fn graph(n: u32) -> WikipediaAnalysis {
    let mut index = NameIndex::new();
    for i in 0..n {
        index.push(format!("N{}", i));
    }
    WikipediaAnalysis { article_map: index, articles: (0..n).map(|_| Article { links: vec![] }).collect() }
}

#[test]
fn random_roots_are_node_ids() {
    let g = graph(5);
    let roots = random_roots(&g, 50);
    assert_eq!(roots.len(), 50);
    assert!(roots.iter().all(|r| *r < 5));
    assert_eq!(random_roots(&graph(0), 3), Vec::<u32>::new());
}

#[test]
fn roots_by_name() {
    let g = graph(3);
    let names = vec!["N2".to_string(), "Missing".to_string(), "N0".to_string()];
    let (found, missing) = roots_from_names(&g, &names);
    assert_eq!(found, vec![2, 0]);
    assert_eq!(missing, vec!["Missing".to_string()]);
}

#[test]
fn worker_count_default() {
    assert_eq!(default_worker_count(8), 7);
    assert_eq!(default_worker_count(1), 1);
    assert_eq!(default_worker_count(0), 1);
}

#[test]
fn roots_by_name_keep_order() {
    let g = graph(4);
    let names = vec!["X".to_string(), "N3".to_string(), "N1".to_string(), "Y".to_string(), "N3".to_string()];
    let (found, missing) = roots_from_names(&g, &names);
    assert_eq!(found, vec![3, 1, 3]);
    assert_eq!(missing, vec!["X".to_string(), "Y".to_string()]);
}
