use wikigraph::analyze::WikipediaAnalysis;
use wikigraph::graph::{Article, NameIndex};

fn graph(names: &[&str], links: Vec<Vec<u32>>) -> WikipediaAnalysis {
    let mut index = NameIndex::new();
    for name in names {
        assert!(index.push(name.to_string()).is_some());
    }
    WikipediaAnalysis {
        article_map: index,
        articles: links.into_iter().map(|l| Article { links: l }).collect(),
    }
}

fn tiny() -> WikipediaAnalysis {
    graph(&["A", "B", "C"], vec![vec![], vec![0], vec![1]])
}

fn diamond() -> WikipediaAnalysis {
    graph(&["A", "B", "C", "D"], vec![vec![], vec![0], vec![0], vec![1, 2]])
}

fn sorted_groups(groups: Vec<Vec<u32>>) -> Vec<Vec<u32>> {
    groups
        .into_iter()
        .map(|mut g| {
            g.sort();
            g
        })
        .collect()
}

#[test]
fn tiny_graph_scenario() {
    let g = tiny();
    assert_eq!(g.get_number_of_steps_between_articles(0, 2), Some(2));
    assert_eq!(g.get_path_between_articles(0, 2), Some(vec![0, 1, 2]));
    assert_eq!(g.get_step_count_groups(2, None), vec![vec![1], vec![0]]);
}

#[test]
fn diamond_scenario() {
    let g = diamond();
    assert_eq!(g.get_number_of_steps_between_articles(0, 3), Some(2));
    let path = g.get_path_between_articles(0, 3).unwrap();
    assert!(path == vec![0, 1, 3] || path == vec![0, 2, 3]);
    assert_eq!(sorted_groups(g.get_step_count_groups(3, None)), vec![vec![1, 2], vec![0]]);
}

#[test]
fn no_path_scenario() {
    let g = graph(&["A", "B"], vec![vec![], vec![]]);
    assert_eq!(g.get_number_of_steps_between_articles(0, 1), None);
    assert_eq!(g.get_path_between_articles(0, 1), None);
}

#[test]
fn histogram_scenario() {
    let g = graph(&["A", "B", "C", "D"], vec![vec![], vec![0], vec![0], vec![0, 1, 2]]);
    assert_eq!(g.get_links_histogram(), vec![1, 2, 0, 1]);
}

#[test]
fn histogram_of_empty_graph_is_empty() {
    let g = graph(&[], vec![]);
    assert_eq!(g.get_links_histogram(), Vec::<u32>::new());
}

#[test]
fn most_linked_zero_and_beyond_size() {
    let g = diamond();
    assert_eq!(g.get_most_links(0), vec![]);
    let all = g.get_most_links(10);
    assert_eq!(all.len(), 4);
    let mut ids: Vec<u32> = all.iter().map(|p| p.0).collect();
    ids.sort();
    assert_eq!(ids, vec![0, 1, 2, 3]);
}

#[test]
fn most_linked_orders_by_count() {
    let g = graph(&["A", "B", "C", "D"], vec![vec![], vec![0], vec![0], vec![0, 1, 2]]);
    let top = g.get_most_links(2);
    assert_eq!(top.len(), 2);
    assert_eq!(top[0], (3, 3));
    assert_eq!(top[1].1, 1);
    assert!(top[1].0 == 1 || top[1].0 == 2);
}

#[test]
fn self_query_with_self_link_is_one_step() {
    let g = graph(&["A", "B"], vec![vec![0], vec![0]]);
    assert_eq!(g.get_number_of_steps_between_articles(0, 0), Some(1));
    let h = graph(&["A", "B"], vec![vec![], vec![0]]);
    assert_eq!(h.get_number_of_steps_between_articles(0, 0), None);
}

#[test]
fn distance_is_path_length_less_one() {
    for (g, s, d) in [(tiny(), 0, 2), (diamond(), 0, 3)] {
        let k = g.get_number_of_steps_between_articles(s, d).unwrap();
        let p = g.get_path_between_articles(s, d).unwrap();
        assert_eq!(k as usize, p.len() - 1);
    }
}

#[test]
fn path_follows_link_lists() {
    let g = diamond();
    let p = g.get_path_between_articles(0, 3).unwrap();
    for w in p.windows(2) {
        assert!(g.articles[w[1] as usize].links.contains(&w[0]));
    }
}

#[test]
fn path_takes_the_shorter_route() {
    // Long route 0 <- 1 <- 2 <- 3 <- 5, short route 0 <- 4 <- 5.
    let g = graph(
        &["A", "B", "C", "D", "E", "F"],
        vec![vec![], vec![0], vec![1], vec![2], vec![0], vec![3, 4]],
    );
    assert_eq!(g.get_path_between_articles(0, 5), Some(vec![0, 4, 5]));
    assert_eq!(g.get_number_of_steps_between_articles(0, 5), Some(2));
}

#[test]
fn direct_link_is_one_step_but_no_path() {
    let g = graph(&["A", "B"], vec![vec![], vec![0]]);
    assert_eq!(g.get_number_of_steps_between_articles(0, 1), Some(1));
    assert_eq!(g.get_path_between_articles(0, 1), None);
}

#[test]
fn distance_ends_on_cycles() {
    let g = graph(&["A", "B", "C", "D"], vec![vec![], vec![2], vec![1], vec![1]]);
    assert_eq!(g.get_number_of_steps_between_articles(0, 3), None);
    assert_eq!(g.get_path_between_articles(0, 3), None);
}

#[test]
fn step_groups_are_disjoint_layers() {
    let g = graph(
        &["A", "B", "C", "D", "E"],
        vec![vec![], vec![0], vec![0, 1], vec![1, 2], vec![2, 3]],
    );
    let groups = g.get_step_count_groups(4, None);
    assert_eq!(sorted_groups(groups.clone()), vec![vec![2, 3], vec![0, 1]]);
    let mut seen = std::collections::HashSet::new();
    for group in &groups {
        for x in group {
            assert!(seen.insert(*x));
            assert_ne!(*x, 4);
        }
    }
    for k in 1..groups.len() {
        for x in &groups[k] {
            assert!(groups[k - 1].iter().any(|u| g.articles[*u as usize].links.contains(x)));
        }
    }
}

#[test]
fn step_groups_respect_depth() {
    let g = tiny();
    assert_eq!(g.get_step_count_groups(2, Some(1)), vec![vec![1]]);
    assert_eq!(g.get_step_count_groups(2, Some(0)), vec![vec![1]]);
    assert_eq!(g.get_step_count_groups(2, Some(5)), vec![vec![1], vec![0]]);
    assert_eq!(g.get_step_count_groups(0, None), vec![Vec::<u32>::new()]);
}

#[test]
fn reverse_index_inverts_names() {
    let g = diamond();
    for name in ["A", "B", "C", "D"] {
        let id = g.article_map.get(name).unwrap();
        assert_eq!(g.article_map.name(id), name);
    }
    assert_eq!(g.article_map.get("Z"), None);
    assert_eq!(g.article_map.len(), g.articles.len());
}

#[test]
fn name_index_refuses_repeats() {
    let mut index = NameIndex::new();
    assert_eq!(index.push("A".to_string()), Some(0));
    assert_eq!(index.push("B".to_string()), Some(1));
    assert_eq!(index.push("A".to_string()), None);
    assert_eq!(index.len(), 2);
}

#[test]
fn start_outside_the_graph_is_never_reached() {
    let g = tiny();
    assert_eq!(g.get_number_of_steps_between_articles(99, 2), None);
    assert_eq!(g.get_path_between_articles(99, 2), None);
}
