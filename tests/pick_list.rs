use tailview::{running_names, PickList};

#[test]
fn cursor_wraps_both_ways() {
    let mut p = PickList::with_items(vec!["a", "b", "c"]);
    assert_eq!(p.cursor(), None);
    p.next();
    assert_eq!(p.cursor(), Some(0));
    p.previous();
    assert_eq!(p.cursor(), Some(2));
    p.next();
    assert_eq!(p.cursor(), Some(0));
    p.next();
    p.next();
    assert_eq!(p.cursor(), Some(2));
}

#[test]
fn select_toggles_and_select_all_marks_all() {
    let mut p = PickList::with_items(vec!["a", "b", "c"]);
    p.select();
    assert!(p.selected().is_empty());
    p.next();
    p.next();
    p.select();
    assert_eq!(p.selected(), vec![1]);
    p.select();
    assert!(p.selected().is_empty());
    p.select_all();
    assert_eq!(p.selected(), vec![0, 1, 2]);
    assert_eq!(p.items().len(), 3);
}

#[test]
fn empty_list_does_not_panic() {
    let mut p: PickList<String> = PickList::with_items(vec![]);
    p.previous();
    p.next();
    p.select();
    assert!(p.selected().is_empty());
}

#[test]
fn only_running_entries_are_kept() {
    let names = vec!["p1".to_string(), "p2".to_string(), "p3".to_string()];
    let phases = vec!["Running".to_string(), "Pending".to_string(), "Running".to_string()];
    assert_eq!(running_names(&names, &phases), vec!["p1".to_string(), "p3".to_string()]);
}
