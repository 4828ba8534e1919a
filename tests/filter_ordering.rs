use redismultiplexer::filter::{haystack_len, match_filter, prefix_len, Filter, FilterOutcome, Pattern};
use redismultiplexer::ordering::{match_ordering, ordering_key, parse_key, Arbiter, OrderingBuffer};

fn filter(pattern: Option<&str>, until: Option<&str>, limit: Option<usize>, replace: Option<&str>) -> Filter {
    Filter::compile(
        &pattern.map(|s| s.to_string()),
        &until.map(|s| s.to_string()),
        limit,
        &replace.map(|s| s.to_string()),
    )
    .unwrap()
}

fn bytes(s: &str) -> Vec<u8> {
    s.as_bytes().to_vec()
}

#[test]
fn filter_rewrite_scenario() {
    let f = filter(Some("foo"), None, Some(3), Some("bar"));
    assert_eq!(haystack_len(b"fooXYZfoo", Some(3), &None), 3);
    assert_eq!(match_filter(&f, bytes("fooXYZfoo")), FilterOutcome::Rewritten(bytes("barXYZfoo")));
    assert_eq!(match_filter(&f, bytes("zzzfoo")), FilterOutcome::Drop);
}

#[test]
fn filter_without_pattern_passes_everything() {
    let f = filter(None, None, None, None);
    assert_eq!(match_filter(&f, bytes("anything")), FilterOutcome::Pass(bytes("anything")));
    assert_eq!(match_filter(&f, Vec::new()), FilterOutcome::Pass(Vec::new()));
}

#[test]
fn filter_match_without_replace_passes_unchanged() {
    let f = filter(Some("^a"), None, None, None);
    assert_eq!(match_filter(&f, bytes("abc")), FilterOutcome::Pass(bytes("abc")));
    assert_eq!(match_filter(&f, bytes("xbc")), FilterOutcome::Drop);
}

#[test]
fn filter_until_cuts_the_haystack() {
    assert_eq!(haystack_len(b"key=1|foo", None, &Some(bytes("|"))), 5);
    assert_eq!(haystack_len(b"key=1|foo", Some(3), &Some(bytes("|"))), 3);
    assert_eq!(haystack_len(b"abc", Some(0), &Some(bytes("zz"))), 3);
    assert_eq!(haystack_len(b"abc", Some(10), &Some(Vec::new())), 3);
    let f = filter(Some("foo"), Some("|"), None, Some("X"));
    assert_eq!(match_filter(&f, bytes("a|foo")), FilterOutcome::Drop);
    assert_eq!(match_filter(&f, bytes("afoo|foo")), FilterOutcome::Rewritten(bytes("aX|foo")));
}

#[test]
fn filter_replacement_keeps_bytes_beyond_the_haystack() {
    let f = filter(Some("(?P<d>[0-9]+)"), Some(";"), Some(8), Some("<$d>"));
    assert_eq!(
        match_filter(&f, bytes("id 42; 99 99")),
        FilterOutcome::Rewritten(bytes("id <42>; 99 99"))
    );
}

#[test]
fn filters_compose_source_then_destination() {
    let source = filter(Some("foo"), None, Some(3), Some("bar"));
    let dest = filter(Some("^bar"), None, None, Some("baz"));
    let first = match_filter(&source, bytes("fooXYZ")).into_emitted().unwrap();
    assert_eq!(match_filter(&dest, first), FilterOutcome::Rewritten(bytes("bazXYZ")));
}

#[test]
fn bad_pattern_is_reported() {
    let r = Filter::compile(&Some("(".to_string()), &None, None, &None);
    let e = r.err().unwrap();
    assert_eq!(e.pattern, "(");
    assert!(!e.reason.is_empty());
}

#[test]
fn key_parsing() {
    assert_eq!(parse_key(b"123"), Some(123));
    assert_eq!(parse_key(b"+7"), Some(7));
    assert_eq!(parse_key(b""), None);
    assert_eq!(parse_key(b"+"), None);
    assert_eq!(parse_key(b"-1"), None);
    assert_eq!(parse_key(b"12a"), None);
    assert_eq!(parse_key(b"340282366920938463463374607431768211455"), Some(u128::MAX));
    assert_eq!(parse_key(b"340282366920938463463374607431768211456"), None);
    for s in ["0", "+0", "00042", "99999999999999999999"] {
        assert_eq!(parse_key(s.as_bytes()), s.parse::<u128>().ok());
    }
}

#[test]
fn ordering_key_extraction() {
    let re = Pattern::compile(&r"ts=(?P<ts>\d+)".to_string()).unwrap();
    assert_eq!(ordering_key(&re, Some(64), b"event ts=17 rest"), Some(17));
    assert_eq!(ordering_key(&re, Some(64), b"no stamp"), None);
    assert_eq!(ordering_key(&re, Some(5), b"abc ts=17"), None);
    assert_eq!(ordering_key(&re, None, b"abc ts=17"), Some(17));
    let named_missing = Pattern::compile(&r"ts=(\d+)".to_string()).unwrap();
    assert_eq!(ordering_key(&named_missing, None, b"ts=3"), None);
}

fn drain_items(v: Vec<Vec<u8>>) -> Vec<String> {
    v.into_iter().map(|b| String::from_utf8(b).unwrap()).collect()
}

#[test]
fn ordering_scenario() {
    let re = Pattern::compile(&r"ts=(?P<ts>\d+)".to_string()).unwrap();
    let mut buffer = OrderingBuffer::new();
    for ts in ["5", "1", "3", "4", "2"] {
        let item = format!("ts={}", ts).into_bytes();
        let key = ordering_key(&re, Some(64), &item);
        assert!(key.is_some());
        let out = match_ordering(key, Some(2), Some(item), &mut buffer, 0);
        assert!(out.is_empty());
    }
    assert_eq!(buffer.len(), 5);
    assert!(match_ordering(None, Some(2), None, &mut buffer, 2).is_empty());
    let out = match_ordering(None, Some(2), None, &mut buffer, 3);
    assert_eq!(drain_items(out), vec!["ts=1", "ts=2", "ts=3", "ts=4", "ts=5"]);
    assert_eq!(buffer.len(), 0);
}

#[test]
fn unkeyed_items_bypass_the_buffer() {
    let mut buffer = OrderingBuffer::new();
    assert!(match_ordering(Some(9), Some(5), Some(bytes("late")), &mut buffer, 100).is_empty());
    let out = match_ordering(None, Some(5), Some(bytes("plain")), &mut buffer, 101);
    assert_eq!(drain_items(out), vec!["plain"]);
    let out = match_ordering(None, Some(5), Some(bytes("next")), &mut buffer, 106);
    assert_eq!(drain_items(out), vec!["next", "late"]);
}

#[test]
fn released_keys_never_decrease() {
    let mut buffer = OrderingBuffer::new();
    let keys = [7u128, 3, 3, 9, 1, 8, 3];
    for (i, k) in keys.iter().enumerate() {
        match_ordering(Some(*k), Some(1), Some(format!("{}:{}", k, i).into_bytes()), &mut buffer, 10);
    }
    let out = drain_items(match_ordering(None, Some(1), None, &mut buffer, 12));
    assert_eq!(out, vec!["1:4", "3:1", "3:2", "3:6", "7:0", "8:5", "9:3"]);
}

#[test]
fn young_head_blocks_older_entries() {
    let mut buffer = OrderingBuffer::new();
    match_ordering(Some(5), Some(2), Some(bytes("old")), &mut buffer, 0);
    match_ordering(Some(1), Some(2), Some(bytes("young")), &mut buffer, 4);
    assert!(match_ordering(None, Some(2), None, &mut buffer, 5).is_empty());
    let out = match_ordering(None, Some(2), None, &mut buffer, 7);
    assert_eq!(drain_items(out), vec!["young", "old"]);
}

#[test]
fn nothing_outstays_the_hold_down() {
    let mut buffer = OrderingBuffer::new();
    for (k, t) in [(4u128, 10u64), (2, 11), (9, 12)] {
        match_ordering(Some(k), Some(3), Some(format!("{}", k).into_bytes()), &mut buffer, t);
    }
    let out = match_ordering(None, Some(3), None, &mut buffer, 16);
    assert_eq!(drain_items(out), vec!["2", "4", "9"]);
    assert_eq!(buffer.len(), 0);
}

#[test]
fn no_hold_down_releases_at_once() {
    let mut buffer = OrderingBuffer::new();
    let out = match_ordering(Some(1), None, Some(bytes("a")), &mut buffer, 50);
    assert_eq!(drain_items(out), vec!["a"]);
}

#[test]
fn arbiter_drain_releases_everything() {
    let mut a = Arbiter::new(true, Some(60));
    assert!(a.submit_at(Some(2), Some(bytes("b")), 1).is_empty());
    assert!(a.submit_at(Some(1), Some(bytes("a")), 1).is_empty());
    assert_eq!(a.len(), 2);
    a.start_drain();
    let out = a.submit_at(Some(0), Some(bytes("c")), 2);
    assert_eq!(drain_items(out), vec!["a", "b", "c"]);
    assert_eq!(a.len(), 0);
}

#[test]
fn arbiter_without_ordering_passes_items_through() {
    let mut a = Arbiter::new(false, None);
    let out = a.submit(None, Some(bytes("x")));
    assert_eq!(drain_items(out), vec!["x"]);
    assert!(a.submit(None, None).is_empty());
}

#[test]
fn limit_never_cuts_a_character() {
    let item = "ab\u{e9}cd".as_bytes().to_vec();
    assert_eq!(prefix_len(&item, Some(3)), 2);
    assert_eq!(prefix_len(&item, Some(4)), 4);
    assert_eq!(prefix_len(&item, Some(0)), 6);
    let f = filter(Some("."), None, Some(3), Some("X"));
    let out = match_filter(&f, item).into_emitted().unwrap();
    assert_eq!(String::from_utf8(out).unwrap(), "Xb\u{e9}cd");
}

#[test]
fn patterns_must_suit_text() {
    let e = Pattern::compile(&r"(?-u:\xFF)".to_string()).err().unwrap();
    assert_eq!(e.pattern, r"(?-u:\xFF)");
    let p = Pattern::compile(&"a+".to_string()).unwrap();
    assert_eq!(p.text(), "a+");
}
