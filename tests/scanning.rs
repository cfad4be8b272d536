use wikigraph::scan::{PageScanner, ParserState, XmlEvent};

fn run(events: Vec<XmlEvent>) -> Vec<(String, String)> {
    let mut scanner = PageScanner::new();
    let mut out = Vec::new();
    for e in events {
        if let Some(page) = scanner.step(e) {
            out.push(page);
        }
    }
    out
}

fn page(title: &str, body: &str) -> Vec<XmlEvent> {
    vec![
        XmlEvent::StartOther,
        XmlEvent::StartTitle,
        XmlEvent::Text(title.to_string()),
        XmlEvent::End,
        XmlEvent::StartText,
        XmlEvent::Text(body.to_string()),
        XmlEvent::End,
        XmlEvent::End,
    ]
}

#[test]
fn pages_are_paired_with_their_text() {
    let mut events = page(" paris ", "Capital of [[France]].");
    events.extend(page("List of things", "skipped"));
    events.extend(page("Rome", "Capital of [[Italy]]."));
    let pages = run(events);
    assert_eq!(
        pages,
        vec![
            ("Paris".to_string(), "Capital of [[France]].".to_string()),
            ("Rome".to_string(), "Capital of [[Italy]].".to_string()),
        ]
    );
}

#[test]
fn text_outside_title_and_body_is_ignored() {
    let mut s = PageScanner::new();
    assert!(s.step(XmlEvent::Text("stray".to_string())).is_none());
    assert_eq!(s.state, ParserState::Idle);
    assert!(s.step(XmlEvent::StartText).is_none());
    assert_eq!(s.state, ParserState::Idle);
    assert!(s.step(XmlEvent::StartTitle).is_none());
    assert_eq!(s.state, ParserState::ReadingTitle);
    assert!(s.step(XmlEvent::Text("Oslo".to_string())).is_none());
    assert_eq!(s.source_name, Some("Oslo".to_string()));
    assert!(s.step(XmlEvent::Other).is_none());
    assert!(s.step(XmlEvent::StartText).is_none());
    assert_eq!(s.state, ParserState::ReadingBody);
    assert_eq!(s.step(XmlEvent::Text("body".to_string())), Some(("Oslo".to_string(), "body".to_string())));
    assert_eq!(s.source_name, None);
}
