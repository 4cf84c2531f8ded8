use tailview::{
    layout, parse_log_entry, record_height, record_rows, sub_strings, time_text, CommandMessage, Key, Level,
    LogFields, Message, Viewport,
};

fn rec(t: i64, system: &str, value: &str) -> Message {
    Message::new(t, system.to_string(), Level::INFO, value.to_string())
}

#[test]
fn sub_strings_cut_by_characters() {
    assert_eq!(sub_strings("abcdefg", 3), vec!["abc", "def", "g"]);
    assert_eq!(sub_strings("abc", 3), vec!["abc"]);
    assert!(sub_strings("", 3).is_empty());
    assert!(sub_strings("abc", 0).is_empty());
}

#[test]
fn sub_strings_never_split_a_multibyte_character() {
    let s = "häßlich€€x";
    let parts = sub_strings(s, 2);
    assert_eq!(parts, vec!["hä", "ßl", "ic", "h€", "€x"]);
    assert_eq!(parts.concat(), s);
    for p in &parts {
        assert!(p.chars().count() <= 2);
    }
}

#[test]
fn header_row_carries_time_source_and_level() {
    let m = rec(0, "app", "hello");
    let rows = record_rows(&m, 80, true);
    assert_eq!(rows.len(), 1);
    let h = rows[0].header.as_ref().unwrap();
    assert_eq!(h.time, "1970-01-01T00:00:00+00:00");
    assert_eq!(h.system, "app");
    assert_eq!(h.level, Level::INFO);
    assert_eq!(rows[0].text, "hello");
}

#[test]
fn wrapped_record_splits_lines_and_long_rows() {
    // header: 25 + 1 + 1 + 1 + 4 + 1 = 33 columns
    let m = rec(0, "a", "0123456789\nabcdefghijklmnopqrstuvwxyz");
    let rows = record_rows(&m, 40, true);
    let texts: Vec<&str> = rows.iter().map(|r| r.text.as_str()).collect();
    assert_eq!(texts, vec!["0123456", "789", "abcdefghijklmnopqrstuvwxyz"]);
    assert!(rows[0].header.is_some());
    assert!(rows[1].header.is_none());
    assert_eq!(record_height(&m, 40, true), 3);
    let narrow = record_rows(&m, 10, true);
    let texts: Vec<&str> = narrow.iter().map(|r| r.text.as_str()).collect();
    assert_eq!(texts, vec!["", "0123456789", "abcdefghij", "klmnopqrst", "uvwxyz"]);
}

#[test]
fn wrapping_keeps_multibyte_characters_whole() {
    let m = rec(0, "a", "ééééééééééééé");
    let rows = record_rows(&m, 40, true);
    let texts: Vec<&str> = rows.iter().map(|r| r.text.as_str()).collect();
    assert_eq!(texts, vec!["ééééééé", "éééééé"]);
    assert_eq!(texts.concat(), m.value);
}

#[test]
fn unwrapped_record_is_one_truncated_row() {
    let m = rec(0, "a", "0123456789\nabcdefghijklmnopqrstuvwxyz");
    let rows = record_rows(&m, 40, false);
    assert_eq!(rows.len(), 1);
    // room: 40 + 10 - 33 = 17 characters
    assert_eq!(rows[0].text, "0123456789\nabcdef");
}

#[test]
fn layout_puts_newest_record_first() {
    let ms = vec![rec(0, "a", "old"), rec(1000, "a", "new")];
    let rows = layout(&ms, 80, true);
    let texts: Vec<&str> = rows.iter().map(|r| r.text.as_str()).collect();
    assert_eq!(texts, vec!["new", "old"]);
}

#[test]
fn follow_mode_frame_shows_the_bottom() {
    let mut v = Viewport::new();
    let f = v.frame(10, 2, 5);
    assert_eq!(f.top_skip, 5);
    assert_eq!(f.height, 5);
    assert!(f.commands.is_empty());
    assert_eq!(v.last_message_height, 2);
}

#[test]
fn scrolling_past_newest_record_asks_for_a_skip() {
    let mut v = Viewport::new();
    v.frame(10, 2, 5);
    for _ in 0..3 {
        assert!(v.on_key(Key::Up).is_none());
    }
    let f = v.frame(10, 2, 5);
    assert_eq!(f.commands.len(), 1);
    assert!(matches!(f.commands[0], CommandMessage::SetSkip(1)));
    assert_eq!(v.skip, 1);
    assert_eq!(v.dropped_bottom, 1);
    assert_eq!(f.top_skip, 4);
    assert!(!v.just_skipped);
}

#[test]
fn down_key_at_bottom_asks_for_one_skip_less() {
    let mut v = Viewport::new();
    v.on_skip_update(2);
    v.last_message_height = 3;
    let cmd = v.on_key(Key::Down);
    assert!(matches!(cmd, Some(CommandMessage::SetSkip(1))));
    assert!(v.just_skipped_bottom);
    let f = v.frame(10, 3, 5);
    assert!(f.commands.is_empty());
    assert_eq!(v.dropped_bottom, 2);
    assert!(!v.just_skipped_bottom);
}

#[test]
fn enter_returns_to_follow_mode() {
    let mut v = Viewport::new();
    v.on_skip_update(5);
    v.on_key(Key::Up);
    let cmd = v.on_key(Key::Enter);
    assert!(matches!(cmd, Some(CommandMessage::SetSkip(0))));
    assert_eq!(v.skip, 0);
    assert_eq!(v.dropped_bottom, 0);
}

#[test]
fn level_and_wrap_keys() {
    let mut v = Viewport::new();
    assert!(matches!(v.on_key(Key::ToggleLevel(Level::DEBUG)), Some(CommandMessage::ToggleDebug())));
    assert!(!v.shown.debug);
    assert!(v.on_key(Key::ToggleWrap).is_none());
    assert!(!v.wrap);
}

#[test]
fn log_line_fields_become_a_record() {
    let f = LogFields {
        timestamp: "2022-08-07T04:10:21+02:00".to_string(),
        message: "Message number 1".to_string(),
        stack: "at a".to_string(),
        stack_trace: "|b".to_string(),
        level: "WARN".to_string(),
        application: "appname".to_string(),
    };
    let m = parse_log_entry(&f).unwrap();
    assert_eq!(m.timestamp, 1_659_838_221_000);
    assert_eq!(m.level, Level::WARN);
    assert_eq!(m.system, "appname");
    assert_eq!(m.value, "Message number 1at a|b");
    assert_eq!(time_text(&m), "2022-08-07T02:10:21+00:00");
}

#[test]
fn log_line_without_stack_keeps_message_as_is() {
    let f = LogFields {
        timestamp: "2022-08-07T04:10:21+02:00".to_string(),
        message: "boom".to_string(),
        stack: String::new(),
        stack_trace: String::new(),
        level: "ERROR".to_string(),
        application: "app".to_string(),
    };
    let m = parse_log_entry(&f).unwrap();
    assert_eq!(m.value, "boom");
    assert_eq!(m.level, Level::ERROR);
}

#[test]
fn latches_use_the_previous_frames_height() {
    let mut v = Viewport::new();
    v.frame(10, 1, 5);
    v.on_skip_update(2);
    assert!(matches!(v.on_key(Key::Down), Some(CommandMessage::SetSkip(1))));
    let f = v.frame(10, 3, 5);
    assert!(f.commands.is_empty());
    assert_eq!(v.dropped_bottom, 0);
    assert_eq!(v.last_message_height, 3);
}

#[test]
fn unwrapped_layout_gives_each_record_one_headed_row() {
    let ms = vec![rec(0, "a", "first"), rec(1000, "b", "second")];
    let rows = layout(&ms, 80, false);
    assert_eq!(rows.len(), 2);
    assert_eq!(rows[0].header.as_ref().unwrap().system, "b");
    assert_eq!(rows[1].header.as_ref().unwrap().system, "a");
}

#[test]
fn log_line_with_bad_timestamp_or_level_is_dropped() {
    let mut f = LogFields {
        timestamp: "yesterday".to_string(),
        message: "m".to_string(),
        stack: String::new(),
        stack_trace: String::new(),
        level: "INFO".to_string(),
        application: "a".to_string(),
    };
    assert!(parse_log_entry(&f).is_none());
    f.timestamp = "2022-08-07T04:10:21.5Z".to_string();
    assert_eq!(parse_log_entry(&f).unwrap().timestamp, 1_659_845_421_500);
    f.level = "TRACE".to_string();
    assert!(parse_log_entry(&f).is_none());
}

#[test]
fn each_skip_takes_one_record_height_off() {
    let mut v = Viewport::new();
    v.last_message_height = 2;
    v.dropped_bottom = 3;
    let f = v.frame(10, 1, 5);
    assert_eq!(f.commands.len(), 1);
    assert!(matches!(f.commands[0], CommandMessage::SetSkip(1)));
    assert_eq!(v.dropped_bottom, 1);
    assert!(!v.just_skipped);
    let f = v.frame(10, 1, 5);
    assert_eq!(f.commands.len(), 1);
    assert!(matches!(f.commands[0], CommandMessage::SetSkip(2)));
    assert_eq!(v.dropped_bottom, 0);
}
