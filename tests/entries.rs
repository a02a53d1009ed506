use dict_extract::cli::Args;
use dict_extract::dict::{Entry, Kind};
use dict_extract::extractor::{
    continue_current, extract_page, extract_pages, feed_line, name_has_upper, trim_noise,
    NoPriorEntry,
};

fn cs(s: &str) -> Vec<char> {
    s.chars().collect()
}

fn lines(ls: &[&str]) -> Vec<String> {
    ls.iter().map(|l| l.to_string()).collect()
}

fn entry(name: &str, trans: &[&str], kind: Kind) -> Entry {
    Entry { name: name.to_string(), trans: lines(trans), kind }
}

fn names(es: &[Entry]) -> Vec<String> {
    es.iter().map(|e| e.name.clone()).collect()
}

#[test]
fn continuation_first_is_malformed() {
    let mut es: Vec<Entry> = Vec::new();
    assert_eq!(feed_line(&mut es, &"n. a noun".to_string()), Err(NoPriorEntry));
    assert!(es.is_empty());
    assert_eq!(continue_current(&mut es, &cs("x"), false), Err(NoPriorEntry));
    let r = extract_page(&lines(&["n. a noun", "Dog"]), 0, 7, &mut es);
    let e = r.unwrap_err();
    assert_eq!(e.page, 7);
    assert_eq!(e.line, "n. a noun");
    assert!(es.is_empty());
}

#[test]
fn continuation_without_part_of_speech_extends() {
    let mut es = vec![entry("Dog", &["n. 狗"], Kind::Word)];
    assert_eq!(continue_current(&mut es, &cs("（家养的）"), false), Ok(()));
    assert_eq!(es.len(), 1);
    assert_eq!(es[0].trans, lines(&["n. 狗（家养的）"]));
}

#[test]
fn continuation_with_part_of_speech_appends() {
    let mut es = vec![entry("Dog", &["n. 狗"], Kind::Word)];
    assert_eq!(continue_current(&mut es, &cs("v. 跟踪"), true), Ok(()));
    assert_eq!(es[0].trans, lines(&["n. 狗", "v. 跟踪"]));
}

#[test]
fn continuation_on_empty_fragments_appends() {
    let mut es = vec![entry("Dog", &[], Kind::Word)];
    assert_eq!(continue_current(&mut es, &cs("狗"), false), Ok(()));
    assert_eq!(es[0].trans, lines(&["狗"]));
}

#[test]
fn trim_keeps_capitalized_end() {
    let mut es = vec![entry("apple", &[], Kind::Word), entry("Bee", &[], Kind::Word)];
    trim_noise(&mut es, 0);
    assert_eq!(names(&es), vec!["apple", "Bee"]);
}

#[test]
fn trim_drops_lowercase_tail() {
    let mut es = vec![
        entry("Ant", &[], Kind::Word),
        entry("bee", &[], Kind::Word),
        entry("cat", &[], Kind::Word),
    ];
    trim_noise(&mut es, 0);
    assert_eq!(names(&es), vec!["Ant"]);
}

#[test]
fn trim_empties_lowercase_page() {
    let mut es = vec![entry("bee", &[], Kind::Word), entry("in front of", &[""], Kind::Phrase)];
    trim_noise(&mut es, 0);
    assert!(es.is_empty());
    let mut es = vec![entry("ant", &[], Kind::Word), entry("bee", &[], Kind::Word)];
    trim_noise(&mut es, 1);
    assert_eq!(names(&es), vec!["ant"]);
}

#[test]
fn upper_detection() {
    assert!(name_has_upper(&"dOg".to_string()));
    assert!(!name_has_upper(&"dog".to_string()));
    assert!(!name_has_upper(&"".to_string()));
}

#[test]
fn dog_page() {
    let mut es: Vec<Entry> = Vec::new();
    let page = lines(&["Dog", "n. a domesticated animal", "also used informally"]);
    assert_eq!(extract_page(&page, 0, 1, &mut es).map_err(|e| e.page), Ok(()));
    assert_eq!(es.len(), 1);
    assert_eq!(es[0].name, "Dog");
    assert_eq!(es[0].kind, Kind::Word);
    assert_eq!(es[0].trans, lines(&["n. a domesticated animal"]));
}

#[test]
fn dog_page_wrapped_translation() {
    let mut es: Vec<Entry> = Vec::new();
    let page = lines(&["Dog", "n. 狗", "（家养的）"]);
    assert!(extract_page(&page, 0, 1, &mut es).is_ok());
    assert_eq!(es.len(), 1);
    assert_eq!(es[0].trans, lines(&["n. 狗（家养的）"]));
}

#[test]
fn phrase_then_part_of_speech() {
    let mut es: Vec<Entry> = Vec::new();
    assert_eq!(feed_line(&mut es, &"in front of".to_string()), Ok(()));
    assert_eq!(feed_line(&mut es, &"prep. located ahead".to_string()), Ok(()));
    assert_eq!(es.len(), 1);
    assert_eq!(es[0].name, "in front of");
    assert_eq!(es[0].kind, Kind::Phrase);
    assert_eq!(es[0].trans, lines(&["", "prep. located ahead"]));
}

#[test]
fn phrase_page_without_capital_is_trimmed() {
    let mut es: Vec<Entry> = Vec::new();
    let page = lines(&["in front of", "prep. located ahead"]);
    assert!(extract_page(&page, 0, 1, &mut es).is_ok());
    assert!(es.is_empty());
}

#[test]
fn pronunciation_is_stripped_before_classifying() {
    let mut es: Vec<Entry> = Vec::new();
    let page = lines(&["Apple /ˈæpl/ n. 苹果"]);
    assert!(extract_page(&page, 0, 1, &mut es).is_ok());
    assert_eq!(es[0].name, "Apple");
    assert_eq!(es[0].trans, lines(&["n. 苹果"]));
}

#[test]
fn header_lines_are_skipped() {
    let pages = vec![
        lines(&["Running head", "12", "Dog n. 狗", "Cat n. 猫"]),
        lines(&["Running head", "13", "Eel n. 鳗鱼"]),
    ];
    let d = extract_pages(&pages, 12).map_err(|e| e.page).unwrap();
    assert_eq!(names(&d.0), vec!["Dog", "Cat", "Eel"]);
    assert_eq!(d.0[2].trans, lines(&["n. 鳗鱼"]));
}

#[test]
fn error_names_page() {
    let pages = vec![
        lines(&["h", "1", "dog n. 狗"]),
        lines(&["h", "2", "n. 猫"]),
    ];
    let e = extract_pages(&pages, 5).unwrap_err();
    assert_eq!(e.page, 6);
    assert_eq!(e.line, "n. 猫");
}

#[test]
fn page_indices_are_zero_based() {
    let a = Args { path: "book.pdf".to_string(), start: 3, end: 5 };
    assert_eq!(a.page_indices(), Some(vec![2, 3, 4]));
    let a = Args { path: "book.pdf".to_string(), start: 1, end: 1 };
    assert_eq!(a.page_indices(), Some(vec![0]));
    let a = Args { path: "book.pdf".to_string(), start: 255, end: 255 };
    assert_eq!(a.page_indices(), Some(vec![254]));
    let a = Args { path: "book.pdf".to_string(), start: 5, end: 4 };
    assert_eq!(a.page_indices(), Some(vec![]));
}

#[test]
fn page_zero_is_refused() {
    let a = Args { path: "book.pdf".to_string(), start: 0, end: 1 };
    assert_eq!(a.page_indices(), None);
    let a = Args { path: "book.pdf".to_string(), start: 0, end: 0 };
    assert_eq!(a.page_indices(), None);
}

#[test]
fn glyphs_between_slashes_are_stripped() {
    let mut es: Vec<Entry> = Vec::new();
    let page = lines(&["apple /\u{e000}\u{e001}/ n. 苹果"]);
    assert!(extract_page(&page, 0, 1, &mut es).is_ok());
    assert!(es.is_empty());
    let page = lines(&["Apple /\u{e000}\u{e001}/ n. 苹果"]);
    assert!(extract_page(&page, 0, 1, &mut es).is_ok());
    assert_eq!(es.len(), 1);
    assert_eq!(es[0].name, "Apple");
    assert_eq!(es[0].kind, Kind::Word);
    assert_eq!(es[0].trans, lines(&["n. 苹果"]));
}
