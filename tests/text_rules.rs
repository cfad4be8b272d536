use wikigraph::patterns::LinkPatterns;
use wikigraph::text::{before_char, capitalize, is_valid_title, link_target_of, normalize, split_char, StringExt};

#[test]
fn title_rules() {
    assert!(is_valid_title("Paris"));
    assert!(!is_valid_title(""));
    assert!(!is_valid_title("File:Map.png"));
    assert!(is_valid_title("Filet mignon"));
    assert!(is_valid_title("Star Wars: A New Hope"));
    assert!(!is_valid_title("User talk:Someone"));
    assert!(!is_valid_title("Category:Cities"));
    assert!(!is_valid_title("A\tB"));
    assert!(!is_valid_title("A\nB"));
    assert!(!is_valid_title("Mercury (disambiguation)"));
    assert!(!is_valid_title("List of rivers"));
    assert!(!is_valid_title("Index of articles"));
    assert!(!is_valid_title("Table of elements"));
}

#[test]
fn capitalization() {
    assert_eq!(capitalize("paris"), "Paris");
    assert_eq!(capitalize(""), "");
    assert_eq!(capitalize("élan"), "Élan");
    assert_eq!(capitalize("ßx"), "SSx");
    assert_eq!("london".to_string().capitalize_first_letter(), "London");
}

#[test]
fn normalization_trims_then_capitalizes() {
    assert_eq!(normalize("  paris \n"), "Paris");
    assert_eq!(normalize("   "), "");
}

#[test]
fn link_targets_drop_display_text_and_anchor() {
    assert_eq!(link_target_of("alpha#History|the alpha"), "Alpha");
    assert_eq!(link_target_of(" beta gamma "), "Beta gamma");
    assert_eq!(link_target_of("#Local"), "");
    assert_eq!(before_char("a|b|c", '|'), "a");
    assert_eq!(before_char("abc", '|'), "abc");
}

#[test]
fn splitting_on_a_character() {
    assert_eq!(split_char("a|b||c", '|'), vec!["a", "b", "", "c"]);
    assert_eq!(split_char("", '|'), vec![""]);
}

#[test]
fn link_extraction_patterns() {
    let p = LinkPatterns::new().unwrap();
    let mut targets = p.link_targets("x [[alpha]] y [[Beta|b]] {{main article|Gamma}} {{see also|delta|Epsilon#e}} z=[[Zeta]]");
    targets.sort();
    targets.dedup();
    assert_eq!(targets, vec!["Alpha", "Beta", "Delta", "Epsilon", "Gamma"]);
    assert_eq!(p.wiki_link_captures(" [[a]] [[b|c]]"), vec!["a", "b|c"]);
    assert_eq!(p.text_after_infobox("{{Infobox x\n}}\nrest"), "\nrest");
    assert_eq!(p.text_after_infobox("no box"), "no box");
}

#[test]
fn whitespace_only_titles_are_refused() {
    assert!(!is_valid_title("   "));
    assert!(!is_valid_title("\u{3000}\u{a0}"));
    assert!(is_valid_title(" Paris "));
}

#[test]
fn trimming_covers_unicode_white_space() {
    assert_eq!(normalize("\u{3000}tokyo\u{a0}"), "Tokyo");
    assert_eq!(normalize("\u{2003}x\u{85}"), "X");
}

#[test]
fn wiki_link_at_start_of_text() {
    let p = LinkPatterns::new().unwrap();
    assert_eq!(p.wiki_link_captures("[[a]] and =[[b]]"), vec!["a"]);
    assert_eq!(p.link_targets("[[start]]"), vec!["Start"]);
}
