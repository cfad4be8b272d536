use wikigraph::analyze::WikipediaAnalysis;
use wikigraph::builder::{build_from_pages, sorted_unique, BuildError, GraphBuilder, IgnoreSet};
use wikigraph::graph::ParserMode;
use wikigraph::patterns::LinkPatterns;
use wikigraph::redirect::{resolve_redirects, RedirectTable};
use wikigraph::graph::NameIndex;

fn pages(list: &[(&str, &str)]) -> Vec<(String, String)> {
    list.iter().map(|(n, b)| (n.to_string(), b.to_string())).collect()
}

fn build(list: &[(&str, &str)], mode: ParserMode) -> WikipediaAnalysis {
    let patterns = LinkPatterns::new().unwrap();
    match build_from_pages(&pages(list), IgnoreSet::new(), mode, &patterns) {
        Ok(g) => g,
        Err(e) => panic!("build failed: {:?}", e),
    }
}

fn links(g: &WikipediaAnalysis, id: u32) -> Vec<u32> {
    g.articles[id as usize].links.clone()
}

#[test]
fn redirect_resolution_scenario() {
    let g = build(
        &[
            ("Alpha", "Alpha text."),
            ("Beta", "Beta points to [[Alfa]] here."),
            ("Alfa", "#REDIRECT [[Alpha]]"),
        ],
        ParserMode::IncomingLinks,
    );
    assert_eq!(g.article_map.get("Alpha"), Some(0));
    assert_eq!(g.article_map.get("Beta"), Some(1));
    assert_eq!(g.article_map.get("Alfa"), None);
    assert!(links(&g, 0).contains(&1));
}

#[test]
fn disambiguation_drop_scenario() {
    let g = build(
        &[
            ("Mercury", "Mercury may mean: {{disamb}}"),
            ("Venus", "See [[Mercury]] and [[Earth]]."),
            ("Earth", "A planet."),
        ],
        ParserMode::OutgoingLinks,
    );
    assert_eq!(g.article_map.get("Mercury"), None);
    assert_eq!(g.articles.len(), 2);
    let venus = g.article_map.get("Venus").unwrap();
    let earth = g.article_map.get("Earth").unwrap();
    assert_eq!(links(&g, venus), vec![earth]);
}

#[test]
fn empty_dump_gives_empty_graph() {
    let g = build(&[], ParserMode::IncomingLinks);
    assert_eq!(g.articles.len(), 0);
    assert_eq!(g.article_map.len(), 0);
}

#[test]
fn ignoring_every_name_gives_empty_graph() {
    let list = pages(&[("Alpha", "x [[Beta]]"), ("Beta", "y [[Alpha]]")]);
    let mut ignore = IgnoreSet::new();
    ignore.insert_line("alpha");
    ignore.insert_line("Beta");
    assert!(ignore.contains("Alpha"));
    let patterns = LinkPatterns::new().unwrap();
    match build_from_pages(&list, ignore, ParserMode::IncomingLinks, &patterns) {
        Ok(g) => {
            assert_eq!(g.articles.len(), 0);
            assert_eq!(g.article_map.len(), 0);
        },
        Err(e) => panic!("build failed: {:?}", e),
    }
}

#[test]
fn orientations_mirror_each_other() {
    let list = [
        ("Alpha", "Links to [[Beta]] and [[gamma|the gamma]]."),
        ("Beta", "Back to [[Alpha#History]]. {{main article|Gamma}}"),
        ("Gamma", "{{see also|Alpha|Beta}}"),
    ];
    let incoming = build(&list, ParserMode::IncomingLinks);
    let outgoing = build(&list, ParserMode::OutgoingLinks);
    assert_eq!(incoming.articles.len(), outgoing.articles.len());
    for u in 0..incoming.articles.len() as u32 {
        for x in 0..incoming.articles.len() as u32 {
            assert_eq!(links(&incoming, u).contains(&x), links(&outgoing, x).contains(&u));
        }
    }
    let alpha = outgoing.article_map.get("Alpha").unwrap();
    let beta = outgoing.article_map.get("Beta").unwrap();
    let gamma = outgoing.article_map.get("Gamma").unwrap();
    assert_eq!(links(&outgoing, alpha), vec![beta, gamma]);
    assert_eq!(links(&outgoing, beta), vec![alpha, gamma]);
    assert_eq!(links(&outgoing, gamma), vec![alpha, beta]);
}

#[test]
fn built_graph_keeps_its_invariants() {
    let g = build(
        &[
            ("Alpha", "x [[Beta]] [[Beta]] [[Gamma]] [[Nowhere]]"),
            ("Beta", "y [[Alpha]]"),
            ("Gamma", "z [[Alpha]] [[Beta]]"),
        ],
        ParserMode::IncomingLinks,
    );
    assert_eq!(g.article_map.len(), g.articles.len());
    for a in &g.articles {
        for w in a.links.windows(2) {
            assert!(w[0] < w[1]);
        }
        for x in &a.links {
            assert!((*x as usize) < g.articles.len());
        }
    }
}

#[test]
fn infobox_links_are_skipped() {
    let g = build(
        &[
            ("Alpha", "A."),
            ("Beta", "B."),
            ("Gamma", "{{Infobox place\n| near = [[Alpha]]\n}}\nGamma is near [[Beta]]."),
        ],
        ParserMode::OutgoingLinks,
    );
    let gamma = g.article_map.get("Gamma").unwrap();
    let beta = g.article_map.get("Beta").unwrap();
    assert_eq!(links(&g, gamma), vec![beta]);
}

#[test]
fn section_links_are_not_wiki_links() {
    let g = build(&[("Alpha", "A."), ("Beta", "x=[[Alpha]]")], ParserMode::OutgoingLinks);
    let beta = g.article_map.get("Beta").unwrap();
    assert_eq!(links(&g, beta), Vec::<u32>::new());
}

#[test]
fn first_admission_of_a_name_wins() {
    let g = build(&[("Alpha", "one"), ("Alpha", "two"), ("Beta", "x [[Alpha]]")], ParserMode::IncomingLinks);
    assert_eq!(g.articles.len(), 2);
    assert_eq!(links(&g, 0), vec![1]);
}

#[test]
fn redirect_without_link_is_an_article() {
    let g = build(&[("Alpha", "#REDIRECT nowhere")], ParserMode::IncomingLinks);
    assert_eq!(g.article_map.get("Alpha"), Some(0));
}

#[test]
fn builder_passes_step_by_step() {
    let patterns = LinkPatterns::new().unwrap();
    let mut b = GraphBuilder::new(IgnoreSet::new(), ParserMode::IncomingLinks);
    assert_eq!(b.admit_page("Alpha".to_string(), "text", &patterns), Ok(()));
    assert_eq!(b.admit_page("Beta".to_string(), "text [[Alpha]]", &patterns), Ok(()));
    assert_eq!(b.admit_page("Al".to_string(), "#redirect [[Alpha]]", &patterns), Ok(()));
    b.resolve();
    b.add_page_links("Beta", "see [[Al]]", &patterns);
    b.add_page_links("Unknown", "see [[Alpha]]", &patterns);
    let g = b.finish();
    assert_eq!(g.articles[0].links, vec![1]);
    assert_eq!(g.articles[1].links, Vec::<u32>::new());
    let _ = BuildError::Overflow;
}

#[test]
fn redirect_chains_resolve_and_cycles_drop() {
    let mut names = NameIndex::new();
    names.push("Alpha".to_string());
    let mut table = RedirectTable::new();
    assert!(table.insert("Alfa".to_string(), "Alpha2".to_string()));
    assert!(table.insert("Alpha2".to_string(), "Alpha".to_string()));
    assert!(!table.insert("Alfa".to_string(), "Other".to_string()));
    assert!(table.insert("Loop1".to_string(), "Loop2".to_string()));
    assert!(table.insert("Loop2".to_string(), "Loop1".to_string()));
    assert!(table.insert("Dead".to_string(), "Missing".to_string()));
    let resolved = resolve_redirects(&names, &table);
    assert_eq!(resolved.get("Alfa"), Some(&0));
    assert_eq!(resolved.get("Alpha2"), Some(&0));
    assert_eq!(resolved.get("Loop1"), None);
    assert_eq!(resolved.get("Dead"), None);
    assert_eq!(table.get("Alfa").map(|s| s.as_str()), Some("Alpha2"));
}

#[test]
fn sorted_unique_sorts_and_drops_repeats() {
    assert_eq!(sorted_unique(&vec![5, 1, 5, 3, 1]), vec![1, 3, 5]);
    assert_eq!(sorted_unique(&vec![]), Vec::<u32>::new());
}

#[test]
fn link_at_start_of_body_counts() {
    let g = build(&[("Alpha", "A."), ("Beta", "[[Alpha]] comes first.")], ParserMode::OutgoingLinks);
    let beta = g.article_map.get("Beta").unwrap();
    assert_eq!(links(&g, beta), vec![0]);
}
