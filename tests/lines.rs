use dict_extract::classify::{classify, parse_phrase, parse_word, Line};
use dict_extract::strip::strip_pronunciation;

fn cs(s: &str) -> Vec<char> {
    s.chars().collect()
}

fn st(v: &[char]) -> String {
    v.iter().collect()
}

fn strip(s: &str) -> String {
    st(&strip_pronunciation(&cs(s)))
}

#[test]
fn strip_removes_slash_span_and_space() {
    assert_eq!(strip("apple /ˈæpəl/ n. fruit"), "apple n. fruit");
}

#[test]
fn strip_removes_private_use_run() {
    assert_eq!(strip("dog \u{e000}\u{e001}\u{f8ff} n. animal"), "dog n. animal");
    assert_eq!(strip("a\u{e000}b"), "ab");
}

#[test]
fn strip_keeps_spans_with_comma() {
    assert_eq!(strip("a /b,c/ d"), "a /b,c/ d");
    assert_eq!(strip("either/or"), "either/or");
    assert_eq!(strip(""), "");
}

#[test]
fn strip_is_idempotent_on_examples() {
    for s in ["//x/y/", "a /b/ c /d/", "/a/b/", "x  \u{e000} /y/\u{e001}", "plain text", "a/,b/c/"] {
        let once = strip(s);
        assert_eq!(strip(&once), once);
    }
    assert_eq!(strip("//x/y/"), "");
    assert_eq!(strip("/a/b/"), "b/");
}

#[test]
fn word_alone() {
    match classify(&cs("Dog")) {
        Line::Word { name, trans } => {
            assert_eq!(st(&name), "Dog");
            assert!(trans.is_none());
        }
        other => panic!("{:?}", other),
    }
}

#[test]
fn word_with_translation() {
    match classify(&cs("run vi. to move fast")) {
        Line::Word { name, trans } => {
            assert_eq!(st(&name), "run");
            assert_eq!(st(&trans.unwrap()), "vi. to move fast");
        }
        other => panic!("{:?}", other),
    }
    let (name, trans) = parse_word(&cs("cat n. 猫")).unwrap();
    assert_eq!(st(&name), "cat");
    assert_eq!(st(&trans.unwrap()), "n. 猫");
}

#[test]
fn word_needs_ascii_headword() {
    assert!(parse_word(&cs("café n. coffee")).is_none());
    assert!(parse_word(&cs("dog nouns. x")).is_none());
    assert!(parse_word(&cs("dog  n. x")).is_none());
    assert!(parse_word(&cs("")).is_none());
    assert!(!matches!(classify(&cs("café n. coffee")), Line::Word { .. }));
}

#[test]
fn phrase_line() {
    match classify(&cs("in front of")) {
        Line::Phrase { phrase, trans } => {
            assert_eq!(st(&phrase), "in front of");
            assert_eq!(st(&trans), "");
        }
        other => panic!("{:?}", other),
    }
    let (phrase, trans) = parse_phrase(&cs("(be) fond of 喜欢")).unwrap();
    assert_eq!(st(&phrase), "(be) fond of");
    assert_eq!(st(&trans), "喜欢");
    let (phrase, trans) = parse_phrase(&cs("a  b")).unwrap();
    assert_eq!(st(&phrase), "a");
    assert_eq!(st(&trans), " b");
}

#[test]
fn part_of_speech_line_is_continuation() {
    assert!(matches!(
        classify(&cs("n. a domesticated animal")),
        Line::Continuation { has_part_of_speech: true }
    ));
    assert!(matches!(
        classify(&cs("prep. located ahead")),
        Line::Continuation { has_part_of_speech: true }
    ));
}

#[test]
fn other_lines_are_continuations() {
    assert!(matches!(classify(&cs("")), Line::Continuation { has_part_of_speech: false }));
    assert!(matches!(classify(&cs("（家养的）")), Line::Continuation { has_part_of_speech: false }));
    assert!(parse_phrase(&cs("( x")).is_none());
}

#[test]
fn strip_removes_glyphs_between_slashes() {
    assert_eq!(strip("apple /\u{e000}\u{e001}/ n. 苹果"), "apple n. 苹果");
    assert_eq!(strip("/\u{e000}/"), "");
    assert_eq!(strip("a  \u{e000}/b/"), "a ");
}
