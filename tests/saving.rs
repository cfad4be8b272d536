use wikigraph::analyze::WikipediaAnalysis;
use wikigraph::graph::{Article, NameIndex};
use wikigraph::tsv::{format_tsv_line, load_from_lines, parse_tsv_line, parse_u32, GraphLoader, TsvError, TsvRecord};

fn load(lines: &[&str]) -> Result<WikipediaAnalysis, TsvError> {
    load_from_lines(&lines.iter().map(|l| l.to_string()).collect())
}

fn load_err(lines: &[&str]) -> TsvError {
    match load(lines) {
        Ok(_) => panic!("expected an error"),
        Err(e) => e,
    }
}

#[test]
fn line_format() {
    assert_eq!(format_tsv_line(3, "Name", &vec![1, 20]), "3\tName\t1\t20\n");
    assert_eq!(format_tsv_line(0, "A", &vec![]), "0\tA\n");
    assert_eq!(format_tsv_line(4294967295, "Z", &vec![0]), "4294967295\tZ\t0\n");
}

#[test]
fn number_fields() {
    assert_eq!(parse_u32("0"), Some(0));
    assert_eq!(parse_u32("007"), Some(7));
    assert_eq!(parse_u32("4294967295"), Some(4294967295));
    assert_eq!(parse_u32("4294967296"), None);
    assert_eq!(parse_u32(""), None);
    assert_eq!(parse_u32("+5"), None);
    assert_eq!(parse_u32("1a"), None);
}

#[test]
fn line_parsing() {
    let r = parse_tsv_line("2\tRome\t0\t1").ok().unwrap();
    assert_eq!((r.id, r.name.as_str(), r.links), (2, "Rome", vec![0, 1]));
    let r = parse_tsv_line("0\tA\t").ok().unwrap();
    assert_eq!(r.links, Vec::<u32>::new());
    let r = parse_tsv_line("0\tA").ok().unwrap();
    assert_eq!(r.links, Vec::<u32>::new());
    assert!(matches!(parse_tsv_line("0"), Err(TsvError::MissingField)));
    assert!(matches!(parse_tsv_line("x\tA"), Err(TsvError::BadNumber)));
    assert!(matches!(parse_tsv_line("1\tA\t2\tz"), Err(TsvError::BadNumber)));
}

#[test]
fn load_errors() {
    assert_eq!(load_err(&["0"]), TsvError::MissingField);
    assert_eq!(load_err(&["0\tA", "2\tB"]), TsvError::OutOfOrder);
    assert_eq!(load_err(&["0\tA", "1\tA"]), TsvError::DuplicateName);
    assert_eq!(load_err(&["0\tA\t1"]), TsvError::LinkOutOfRange);
    assert_eq!(load_err(&["0\tA\tq"]), TsvError::BadNumber);
}

#[test]
fn loader_steps() {
    let mut loader = GraphLoader::new();
    assert_eq!(loader.add_record(TsvRecord { id: 0, name: "A".to_string(), links: vec![1] }), Ok(()));
    assert_eq!(loader.add_record(TsvRecord { id: 0, name: "B".to_string(), links: vec![] }), Err(TsvError::OutOfOrder));
    assert_eq!(loader.add_record(TsvRecord { id: 1, name: "A".to_string(), links: vec![] }), Err(TsvError::DuplicateName));
    assert_eq!(loader.add_record(TsvRecord { id: 1, name: "B".to_string(), links: vec![0] }), Ok(()));
    let g = loader.finish().ok().unwrap();
    assert_eq!(g.articles[0].links, vec![1]);
    assert_eq!(g.article_map.get("B"), Some(1));
    let _ = TsvError::Overflow;
}

#[test]
fn load_of_written_graph_is_the_graph() {
    let mut index = NameIndex::new();
    for name in ["Alpha", "Beta", "Gamma"] {
        index.push(name.to_string());
    }
    let g = WikipediaAnalysis {
        article_map: index,
        articles: vec![Article { links: vec![1, 2] }, Article { links: vec![] }, Article { links: vec![0] }],
    };
    let lines: Vec<String> = (0..3u32)
        .map(|id| {
            let line = format_tsv_line(id, g.article_map.name(id), &g.articles[id as usize].links);
            line.trim_end_matches('\n').to_string()
        })
        .collect();
    let back = load_from_lines(&lines).ok().unwrap();
    for id in 0..3u32 {
        assert_eq!(back.article_map.name(id), g.article_map.name(id));
        assert_eq!(back.articles[id as usize].links, g.articles[id as usize].links);
    }
    assert_eq!(back.articles.len(), 3);
}
