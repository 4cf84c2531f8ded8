use tailview::{parse_query, Level, Message, Query};

fn rec(value: &str) -> Message {
    Message::new(0, "s".to_string(), Level::INFO, value.to_string())
}

#[test]
fn query_line_splits_into_positive_and_negatives() {
    let q = parse_query("error timeout !debug !");
    assert_eq!(q.positive, "error timeout !");
    assert_eq!(q.negatives, vec!["debug".to_string()]);
}

#[test]
fn query_line_keeps_empty_tokens() {
    let q = parse_query("a  b");
    assert_eq!(q.positive, "a  b");
    assert!(q.negatives.is_empty());
    let q = parse_query("");
    assert_eq!(q.positive, "");
    let q = parse_query("!x !yz");
    assert_eq!(q.positive, "");
    assert_eq!(q.negatives, vec!["x".to_string(), "yz".to_string()]);
}

#[test]
fn lone_bang_joins_the_positive_pattern() {
    let q = parse_query("!");
    assert_eq!(q.positive, "!");
    assert!(q.negatives.is_empty());
    let q = parse_query("a ! b");
    assert_eq!(q.positive, "a ! b");
}

#[test]
fn query_line_with_multibyte_characters() {
    let q = parse_query("häst !ö");
    assert_eq!(q.positive, "häst");
    assert_eq!(q.negatives, vec!["ö".to_string()]);
}

#[test]
fn new_query_passes_everything() {
    let q = Query::new();
    assert!(q.matches(&rec("anything")));
    assert!(q.matches(&rec("")));
}

#[test]
fn positive_pattern_is_searched_anywhere() {
    let mut q = Query::new();
    q.set_filter("b+c");
    assert!(q.matches(&rec("abbbcd")));
    assert!(!q.matches(&rec("acd")));
}

#[test]
fn any_negative_pattern_rejects() {
    let mut q = Query::new();
    q.set_exclusions(&vec!["foo".to_string(), "bar".to_string()]);
    assert!(q.matches(&rec("baz")));
    assert!(!q.matches(&rec("xbarx")));
    assert!(!q.matches(&rec("foo")));
}

#[test]
fn level_toggle_in_query() {
    let mut q = Query::new();
    q.toggle_level(Level::WARN);
    assert!(!q.mask().warn);
    assert!(q.mask().info);
    q.toggle_level(Level::WARN);
    assert!(q.mask().warn);
}

#[test]
fn level_names_round_trip() {
    for l in [Level::INFO, Level::WARN, Level::ERROR, Level::DEBUG] {
        assert_eq!(Level::from_str(l.name()), Ok(l));
    }
    assert_eq!(Level::from_str("info"), Err(()));
    assert_eq!(Level::from_str("TRACE"), Err(()));
}
