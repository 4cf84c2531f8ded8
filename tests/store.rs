use tailview::{Level, LevelMask, Message, Messages};

fn rec(t: i64, system: &str, level: Level, value: &str) -> Message {
    Message::new(t, system.to_string(), level, value.to_string())
}

fn cost(m: &Message) -> u64 {
    (m.value.len() + m.system.len() + 8) as u64
}

fn collect(s: &Messages, mask: &LevelMask) -> Vec<(i64, String)> {
    let mut it = s.iter(mask);
    let mut out = Vec::new();
    while let Some(m) = it.next() {
        out.push((m.timestamp, m.value.clone()));
    }
    out
}

#[test]
fn iteration_is_ascending_across_buckets() {
    let mut s = Messages::new();
    s.put(rec(1, "A", Level::INFO, "r1"));
    s.put(rec(2, "B", Level::INFO, "r2"));
    s.put(rec(3, "A", Level::WARN, "r3"));
    s.put(rec(4, "A", Level::INFO, "r4"));
    let got: Vec<i64> = collect(&s, &LevelMask::all()).into_iter().map(|p| p.0).collect();
    assert_eq!(got, vec![1, 2, 3, 4]);
}

#[test]
fn count_and_size_are_sums_after_puts() {
    let mut s = Messages::new();
    let rs = vec![
        rec(1, "A", Level::INFO, "hello"),
        rec(2, "BB", Level::ERROR, "wörld"),
        rec(3, "A", Level::INFO, ""),
    ];
    let mut expected = 0u64;
    for r in rs {
        expected += cost(&r);
        s.put(r);
    }
    assert_eq!(s.count(), 3);
    assert_eq!(s.size(), expected);
    assert_eq!(s.size(), (5 + 1 + 8) + (6 + 2 + 8) + (0 + 1 + 8));
}

#[test]
fn size_stays_within_budget_plus_one_record() {
    let mut s = Messages::with_budget(100);
    let mut max_cost = 0;
    for t in 0..200 {
        let r = rec(t, "src", Level::INFO, "0123456789");
        max_cost = max_cost.max(cost(&r));
        s.put(r);
        assert!(s.size() <= 100 + max_cost);
    }
}

#[test]
fn no_eviction_at_exactly_the_budget() {
    let r = rec(1, "s", Level::INFO, "x");
    let c = cost(&r);
    let mut s = Messages::with_budget(2 * c);
    s.put(rec(1, "s", Level::INFO, "x"));
    s.put(rec(2, "s", Level::INFO, "x"));
    assert_eq!(s.size(), s.budget());
    s.put(rec(3, "s", Level::INFO, "x"));
    assert_eq!(s.count(), 3);
}

#[test]
fn one_eviction_round_when_over_budget() {
    // each record costs 5 + 1 + 8 = 14 bytes
    let mut s = Messages::with_budget(30);
    s.put(rec(1, "a", Level::INFO, "aaaaa"));
    s.put(rec(2, "a", Level::INFO, "aaaaa"));
    s.put(rec(3, "b", Level::INFO, "bbbbb"));
    assert_eq!(s.size(), 42);
    s.put(rec(4, "c", Level::WARN, "ccccc"));
    assert_eq!(s.count(), 2);
    let got: Vec<i64> = collect(&s, &LevelMask::all()).into_iter().map(|p| p.0).collect();
    assert_eq!(got, vec![2, 4]);
    s.put(rec(5, "c", Level::WARN, "ccccc"));
    assert_eq!(s.count(), 3);
    s.put(rec(6, "a", Level::INFO, "aaaaa"));
    let got: Vec<i64> = collect(&s, &LevelMask::all()).into_iter().map(|p| p.0).collect();
    assert_eq!(got, vec![5, 6]);
}

#[test]
fn clear_then_puts_equals_fresh_store() {
    let mut a = Messages::with_budget(1000);
    a.put(rec(5, "x", Level::DEBUG, "old"));
    a.put(rec(6, "y", Level::ERROR, "older"));
    a.clear();
    assert_eq!(a.count(), 0);
    assert_eq!(a.size(), 0);
    let mut b = Messages::with_budget(1000);
    for s in [&mut a, &mut b] {
        s.put(rec(1, "p", Level::INFO, "one"));
        s.put(rec(2, "q", Level::WARN, "two"));
    }
    assert_eq!(a.count(), b.count());
    assert_eq!(a.size(), b.size());
    assert_eq!(collect(&a, &LevelMask::all()), collect(&b, &LevelMask::all()));
}

#[test]
fn repeated_record_grows_linearly() {
    let mut s = Messages::new();
    let r = rec(42, "same", Level::INFO, "again");
    let c = cost(&r);
    for n in 1..=5u64 {
        s.put(r.clone());
        assert_eq!(s.count() as u64, n);
        assert_eq!(s.size(), n * c);
    }
    let got: Vec<i64> = collect(&s, &LevelMask::all()).into_iter().map(|p| p.0).collect();
    assert_eq!(got, vec![42; 5]);
}

#[test]
fn empty_store_iterates_nothing() {
    let s = Messages::new();
    assert!(collect(&s, &LevelMask::all()).is_empty());
}

#[test]
fn mask_selects_buckets_by_level() {
    let mut s = Messages::new();
    s.put(rec(1, "A", Level::DEBUG, "d"));
    s.put(rec(2, "A", Level::INFO, "i"));
    s.put(rec(3, "A", Level::ERROR, "e"));
    let mut mask = LevelMask::all();
    mask.toggle(Level::DEBUG);
    let got: Vec<String> = collect(&s, &mask).into_iter().map(|p| p.1).collect();
    assert_eq!(got, vec!["i", "e"]);
    mask.toggle(Level::DEBUG);
    assert_eq!(collect(&s, &mask).len(), 3);
}

#[test]
fn drain_moves_every_record() {
    let mut from = Messages::new();
    from.put(rec(3, "A", Level::INFO, "a3"));
    from.put(rec(4, "A", Level::INFO, "a4"));
    from.put(rec(5, "B", Level::WARN, "b5"));
    let mut to = Messages::new();
    to.put(rec(1, "A", Level::INFO, "a1"));
    let moved = from.drain_into(&mut to);
    assert_eq!(moved, 3);
    assert_eq!(from.count(), 0);
    assert_eq!(to.count(), 4);
    let got: Vec<i64> = collect(&to, &LevelMask::all()).into_iter().map(|p| p.0).collect();
    assert_eq!(got, vec![1, 3, 4, 5]);
}

#[test]
fn try_put_puts_when_there_is_room() {
    let mut s = Messages::new();
    assert!(s.try_put(rec(1, "a", Level::INFO, "v")));
    assert_eq!(s.count(), 1);
    assert_eq!(s.size(), 1 + 1 + 8);
}
