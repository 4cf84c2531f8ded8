use std::collections::VecDeque;

use tailview::{Level, Message, MergeAscending};

fn rec(t: i64, system: &str) -> Message {
    Message::new(t, system.to_string(), Level::INFO, format!("m{}", t))
}

fn bucket(ts: &[i64], system: &str) -> VecDeque<Message> {
    ts.iter().map(|t| rec(*t, system)).collect()
}

fn drain(mut m: MergeAscending) -> Vec<(i64, String)> {
    let mut out = Vec::new();
    while let Some(x) = m.next() {
        out.push((x.timestamp, x.system.clone()));
    }
    out
}

#[test]
fn find_value_in_text() {
    let x1 = bucket(&[3, 2, 1], "a");
    let x2 = bucket(&[6, 5, 4], "b");

    let ascending = MergeAscending::new(&x1, &x2);
    let x5: Vec<i64> = drain(ascending).into_iter().map(|p| p.0).collect();
    println!("{:?}", x5);
    assert_eq!(x5, vec![1, 2, 3, 4, 5, 6]);
}

#[test]
fn merge_interleaves_by_timestamp() {
    let left = bucket(&[9, 4, 1], "a");
    let right = bucket(&[8, 5, 2], "b");
    let got: Vec<i64> = drain(MergeAscending::new(&left, &right)).into_iter().map(|p| p.0).collect();
    assert_eq!(got, vec![1, 2, 4, 5, 8, 9]);
}

#[test]
fn merge_takes_left_first_on_equal_timestamps() {
    let left = bucket(&[7, 5], "left");
    let right = bucket(&[7, 5], "right");
    let got = drain(MergeAscending::new(&left, &right));
    let names: Vec<&str> = got.iter().map(|p| p.1.as_str()).collect();
    assert_eq!(names, vec!["left", "right", "left", "right"]);
}

#[test]
fn merge_with_keeps_earlier_sources_first_on_ties() {
    let a = bucket(&[3], "a");
    let b = bucket(&[3, 1], "b");
    let c = bucket(&[3, 2], "c");
    let m = MergeAscending::empty().merge_with(&a).merge_with(&b).merge_with(&c);
    let got = drain(m);
    let ts: Vec<i64> = got.iter().map(|p| p.0).collect();
    let names: Vec<&str> = got.iter().map(|p| p.1.as_str()).collect();
    assert_eq!(ts, vec![1, 2, 3, 3, 3]);
    assert_eq!(names, vec!["b", "c", "a", "b", "c"]);
}

#[test]
fn merge_drains_the_other_side_when_one_is_empty() {
    let left: VecDeque<Message> = VecDeque::new();
    let right = bucket(&[3, 2], "r");
    let got: Vec<i64> = drain(MergeAscending::new(&left, &right)).into_iter().map(|p| p.0).collect();
    assert_eq!(got, vec![2, 3]);
    let mut none = MergeAscending::empty();
    assert!(none.next().is_none());
}
