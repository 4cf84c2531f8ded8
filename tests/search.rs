use tailview::{CommandMessage, Level, Message, ResultMessage, Storage};

fn rec(t: i64, system: &str, level: Level, value: &str) -> Message {
    Message::new(t, system.to_string(), level, value.to_string())
}

fn send(s: &mut Storage, cmd: CommandMessage) -> Vec<ResultMessage> {
    s.handle(cmd).expect("not an exit")
}

fn values(s: &Storage) -> Vec<String> {
    s.snapshot().into_iter().map(|m| m.value).collect()
}

fn three_records() -> Storage {
    let mut s = Storage::new();
    send(&mut s, CommandMessage::SetResultSize(10));
    send(&mut s, CommandMessage::InsertJson(rec(1, "A", Level::INFO, "R1 from A")));
    send(&mut s, CommandMessage::InsertJson(rec(2, "B", Level::INFO, "R2 from B")));
    send(&mut s, CommandMessage::InsertJson(rec(3, "A", Level::INFO, "R3 from A")));
    s
}

#[test]
fn three_records_snapshot_ascending() {
    let s = three_records();
    assert_eq!(values(&s), vec!["R1 from A", "R2 from B", "R3 from A"]);
}

#[test]
fn positive_filter_narrows_and_empty_filter_restores() {
    let mut s = three_records();
    send(&mut s, CommandMessage::FilterRegex("error".to_string()));
    assert!(values(&s).is_empty());
    send(&mut s, CommandMessage::FilterRegex("".to_string()));
    assert_eq!(values(&s), vec!["R1 from A", "R2 from B", "R3 from A"]);
    send(&mut s, CommandMessage::FilterRegex("R2".to_string()));
    assert_eq!(values(&s), vec!["R2 from B"]);
}

#[test]
fn negative_filter_excludes() {
    let mut s = three_records();
    send(&mut s, CommandMessage::FilterNotRegexes(vec!["B".to_string()]));
    assert_eq!(values(&s), vec!["R1 from A", "R3 from A"]);
    send(&mut s, CommandMessage::FilterNotRegexes(vec![]));
    assert_eq!(values(&s).len(), 3);
}

#[test]
fn malformed_positive_filter_matches_everything() {
    let mut s = three_records();
    send(&mut s, CommandMessage::FilterRegex("(".to_string()));
    assert_eq!(values(&s).len(), 3);
}

#[test]
fn malformed_negative_filter_excludes_everything() {
    let mut s = three_records();
    send(&mut s, CommandMessage::FilterNotRegexes(vec!["(".to_string()]));
    assert!(values(&s).is_empty());
}

#[test]
fn return_from_skip_one_reports_moved_records() {
    let mut s = Storage::new();
    send(&mut s, CommandMessage::SetResultSize(100));
    for t in 1..=5 {
        send(&mut s, CommandMessage::InsertJson(rec(t, "A", Level::INFO, "old")));
    }
    send(&mut s, CommandMessage::SetSkip(1));
    for t in 6..=8 {
        send(&mut s, CommandMessage::InsertJson(rec(t, "A", Level::INFO, "new")));
    }
    let replies = send(&mut s, CommandMessage::SetSkip(0));
    assert_eq!(replies.len(), 1);
    assert!(matches!(replies[0], ResultMessage::Skip(3)));
    assert_eq!(s.skip(), 3);
    assert_eq!(s.length(), 8);
}

#[test]
fn return_from_deeper_skip_resets_to_zero() {
    let mut s = Storage::new();
    send(&mut s, CommandMessage::SetResultSize(100));
    send(&mut s, CommandMessage::SetSkip(4));
    send(&mut s, CommandMessage::InsertJson(rec(1, "A", Level::INFO, "x")));
    send(&mut s, CommandMessage::InsertJson(rec(2, "B", Level::WARN, "y")));
    assert!(values(&s).is_empty());
    let replies = send(&mut s, CommandMessage::SetSkip(0));
    assert!(replies.is_empty());
    assert_eq!(s.skip(), 0);
    assert_eq!(values(&s), vec!["x", "y"]);
}

#[test]
fn follow_mode_return_keeps_every_record() {
    let mut s = Storage::new();
    send(&mut s, CommandMessage::SetResultSize(100));
    send(&mut s, CommandMessage::InsertJson(rec(1, "A", Level::INFO, "a")));
    send(&mut s, CommandMessage::SetSkip(2));
    send(&mut s, CommandMessage::InsertJson(rec(2, "A", Level::INFO, "b")));
    send(&mut s, CommandMessage::InsertJson(rec(3, "C", Level::ERROR, "c")));
    send(&mut s, CommandMessage::SetSkip(0));
    assert_eq!(values(&s), vec!["a", "b", "c"]);
    assert_eq!(s.length(), 3);
}

#[test]
fn snapshot_takes_the_oldest_result_size_records() {
    let mut s = Storage::new();
    for t in 1..=10 {
        send(&mut s, CommandMessage::InsertJson(rec(t, "A", Level::INFO, &format!("r{}", t))));
    }
    send(&mut s, CommandMessage::SetResultSize(2));
    assert_eq!(values(&s), vec!["r1", "r2"]);
}

#[test]
fn snapshot_skips_then_takes() {
    let mut s = Storage::new();
    for t in 1..=10 {
        send(&mut s, CommandMessage::InsertJson(rec(t, "A", Level::INFO, &format!("r{}", t))));
    }
    send(&mut s, CommandMessage::SetResultSize(3));
    send(&mut s, CommandMessage::SetSkip(8));
    assert_eq!(values(&s), vec!["r9", "r10"]);
    send(&mut s, CommandMessage::SetSkip(0));
    send(&mut s, CommandMessage::SetSkip(7));
    assert_eq!(values(&s), vec!["r8", "r9", "r10"]);
}

#[test]
fn zero_result_size_gives_empty_snapshot() {
    let mut s = three_records();
    send(&mut s, CommandMessage::SetResultSize(0));
    assert!(s.snapshot().is_empty());
}

#[test]
fn empty_store_gives_empty_snapshot() {
    let mut s = Storage::new();
    send(&mut s, CommandMessage::SetResultSize(10));
    assert!(s.snapshot().is_empty());
}

#[test]
fn toggled_level_hides_then_shows_again() {
    let mut s = three_records();
    send(&mut s, CommandMessage::ToggleDebug());
    send(&mut s, CommandMessage::InsertJson(rec(4, "A", Level::DEBUG, "debug line")));
    assert_eq!(values(&s).len(), 3);
    send(&mut s, CommandMessage::ToggleDebug());
    assert_eq!(values(&s).last().unwrap(), "debug line");
}

#[test]
fn toggling_twice_restores_the_mask() {
    let mut s = Storage::new();
    let before = s.mask();
    for cmd in [CommandMessage::ToggleWarn(), CommandMessage::ToggleWarn()] {
        send(&mut s, cmd);
    }
    let after = s.mask();
    assert_eq!((before.info, before.warn, before.error, before.debug), (after.info, after.warn, after.error, after.debug));
    send(&mut s, CommandMessage::ToggleInfo());
    assert!(!s.mask().info);
    send(&mut s, CommandMessage::ToggleError());
    assert!(!s.mask().error);
}

#[test]
fn insert_replies_with_totals() {
    let mut s = Storage::new();
    let replies = send(&mut s, CommandMessage::InsertJson(rec(1, "ab", Level::INFO, "xyz")));
    assert_eq!(replies.len(), 2);
    assert!(matches!(replies[0], ResultMessage::Size(13)));
    assert!(matches!(replies[1], ResultMessage::Length(1)));
}

#[test]
fn clear_empties_store_and_skip_buffer() {
    let mut s = three_records();
    send(&mut s, CommandMessage::SetSkip(2));
    send(&mut s, CommandMessage::InsertJson(rec(9, "Z", Level::INFO, "later")));
    let replies = send(&mut s, CommandMessage::Clear);
    assert!(matches!(replies[0], ResultMessage::Size(0)));
    assert!(matches!(replies[1], ResultMessage::Length(0)));
    assert_eq!(s.length(), 0);
    send(&mut s, CommandMessage::SetSkip(0));
    assert!(values(&s).is_empty());
}

#[test]
fn exit_returns_none() {
    let mut s = Storage::new();
    assert!(s.handle(CommandMessage::Exit).is_none());
}

#[test]
fn clear_then_inserts_matches_a_fresh_worker() {
    let mut a = three_records();
    send(&mut a, CommandMessage::SetSkip(3));
    send(&mut a, CommandMessage::InsertJson(rec(7, "Z", Level::INFO, "hidden")));
    send(&mut a, CommandMessage::SetSkip(0));
    send(&mut a, CommandMessage::Clear);
    let mut b = Storage::new();
    send(&mut b, CommandMessage::SetResultSize(10));
    for s in [&mut a, &mut b] {
        let r1 = send(s, CommandMessage::InsertJson(rec(1, "A", Level::INFO, "x")));
        let r2 = send(s, CommandMessage::InsertJson(rec(2, "B", Level::WARN, "y")));
        assert_eq!(r1.len(), 2);
        assert!(matches!(r2[1], ResultMessage::Length(2)));
    }
    assert_eq!(values(&a), values(&b));
    assert_eq!(a.size(), b.size());
}

#[test]
fn set_skip_replies_only_on_return_from_one() {
    let mut s = Storage::new();
    assert!(send(&mut s, CommandMessage::SetSkip(1)).is_empty());
    assert!(send(&mut s, CommandMessage::SetSkip(2)).is_empty());
    assert!(send(&mut s, CommandMessage::SetSkip(0)).is_empty());
    send(&mut s, CommandMessage::SetSkip(1));
    let r = send(&mut s, CommandMessage::SetSkip(0));
    assert!(matches!(r[..], [ResultMessage::Skip(0)]));
}
