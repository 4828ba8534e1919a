use redismultiplexer::admission::{can_check_queue, Admission, AdmissionStep, LengthVerdict};
use redismultiplexer::board::{statistics_due, StuckBoard, Totals};
use redismultiplexer::config::{ClientConfig, Config};
use redismultiplexer::datetime::{get_current_time, get_current_time_with_ms};
use redismultiplexer::worker::{
    report_due, round_end, Counters, Dispatch, ItemOutcome, Phase, PopAction, PopReply, RoundEnd, Statistics, Worker,
};

fn client(name: &str) -> ClientConfig {
    ClientConfig {
        name: name.to_string(),
        ssl: None,
        hostname: format!("{}.example", name),
        port: 6379,
        password: String::new(),
        channel: "out".to_string(),
        timelimit: None,
        checklimit: None,
        softlimit: None,
        hardlimit: None,
        deleteblock: None,
        filter: None,
        filter_until: None,
        filter_limit: None,
        filter_replace: None,
    }
}

fn config(mode: &str, clients: Vec<ClientConfig>) -> Config {
    Config {
        name: "src".to_string(),
        ssl: None,
        hostname: "a.example".to_string(),
        port: 6379,
        password: String::new(),
        channel: "in".to_string(),
        children: 1,
        mode: mode.to_string(),
        pid: None,
        status: None,
        filter: None,
        filter_until: None,
        filter_limit: None,
        filter_replace: None,
        ordering: None,
        ordering_buffer_time: None,
        ordering_limit: None,
        clients,
    }
}

/// Destination lists held in memory, with a flag per list that makes its
/// pushes fail.
struct Lists {
    items: Vec<Vec<String>>,
    broken: Vec<bool>,
}

impl Lists {
    fn new(n: usize) -> Lists {
        Lists { items: vec![Vec::new(); n], broken: vec![false; n] }
    }
}

/// Runs the admission decision of destination `i` against its in-memory list.
fn admission_check(w: &mut Worker, lists: &mut Lists, i: usize, now: u64) -> bool {
    match w.destinations[i].admission.begin(now) {
        AdmissionStep::Decided(ok) => ok,
        AdmissionStep::Probe => loop {
            let len = lists.items[i].len() as u64;
            match w.destinations[i].admission.on_length(len, now) {
                LengthVerdict::Admit(ok) => return ok,
                LengthVerdict::Trim { block, removed } => {
                    let n = (block as usize).min(lists.items[i].len());
                    lists.items[i].drain(..n);
                    w.counters.add_deleted(removed);
                }
            }
        },
    }
}

/// Takes one popped item through the worker, as the program does once the
/// arbiter has released it.
fn deliver(w: &mut Worker, lists: &mut Lists, item: &str, now: u64) {
    let raw = match w.take_popped(item.as_bytes().to_vec()) {
        Some(r) => r,
        None => return,
    };
    let (payload, mut d) = match w.start_item(raw) {
        Some(x) => x,
        None => return,
    };
    while let Some(i) = w.next_target(&d) {
        let accepted = match w.destination_payload(i, &payload) {
            None => false,
            Some(bytes) => {
                if admission_check(w, lists, i, now) && !lists.broken[i] {
                    lists.items[i].push(String::from_utf8(bytes).unwrap());
                    true
                } else {
                    false
                }
            }
        };
        w.record_attempt(&mut d, accepted);
    }
    w.finish_item(&d);
}

fn strings(v: &[&str]) -> Vec<String> {
    v.iter().map(|s| s.to_string()).collect()
}

#[test]
fn replication_scenario() {
    let c = config("replicant", vec![client("b1"), client("b2")]);
    let mut w = Worker::new(&c).unwrap();
    let mut lists = Lists::new(2);
    for item in ["x", "y", "z"] {
        deliver(&mut w, &mut lists, item, 100);
    }
    assert_eq!(lists.items[0], strings(&["x", "y", "z"]));
    assert_eq!(lists.items[1], strings(&["x", "y", "z"]));
    let s = w.take_statistics(0, false);
    assert_eq!((s.incoming, s.outgoing, s.dropped), (3, 3, 0));
}

#[test]
fn replicant_skips_a_failing_destination() {
    let c = config("replicant", vec![client("b1"), client("b2")]);
    let mut w = Worker::new(&c).unwrap();
    let mut lists = Lists::new(2);
    lists.broken[0] = true;
    deliver(&mut w, &mut lists, "x", 100);
    assert!(lists.items[0].is_empty());
    assert_eq!(lists.items[1], strings(&["x"]));
    lists.broken[1] = true;
    deliver(&mut w, &mut lists, "y", 100);
    let s = w.take_statistics(0, false);
    assert_eq!((s.incoming, s.outgoing, s.dropped), (2, 1, 1));
}

#[test]
fn replicant_respects_destination_filters() {
    let mut b2 = client("b2");
    b2.filter = Some("^keep".to_string());
    let c = config("replicant", vec![client("b1"), b2]);
    let mut w = Worker::new(&c).unwrap();
    let mut lists = Lists::new(2);
    deliver(&mut w, &mut lists, "keep-1", 100);
    deliver(&mut w, &mut lists, "skip-2", 100);
    assert_eq!(lists.items[0], strings(&["keep-1", "skip-2"]));
    assert_eq!(lists.items[1], strings(&["keep-1"]));
}

#[test]
fn spreader_rotation_scenario() {
    let c = config("spreader", vec![client("b1"), client("b2")]);
    let mut w = Worker::new(&c).unwrap();
    let mut lists = Lists::new(2);
    for item in ["1", "2", "3", "4"] {
        deliver(&mut w, &mut lists, item, 100);
    }
    assert_eq!(lists.items[0], strings(&["1", "3"]));
    assert_eq!(lists.items[1], strings(&["2", "4"]));
    let s = w.take_statistics(0, false);
    assert_eq!((s.outgoing, s.dropped), (4, 0));
}

#[test]
fn spreader_tries_the_next_destination_and_drops_when_none_takes() {
    let c = config("spreader", vec![client("b1"), client("b2"), client("b3")]);
    let mut w = Worker::new(&c).unwrap();
    let mut lists = Lists::new(3);
    lists.broken[0] = true;
    deliver(&mut w, &mut lists, "a", 100);
    assert_eq!(lists.items[1], strings(&["a"]));
    assert_eq!(w.rotation, 2);
    lists.broken = vec![true, true, true];
    deliver(&mut w, &mut lists, "b", 100);
    assert_eq!(w.rotation, 2);
    let total: usize = lists.items.iter().map(|l| l.len()).sum();
    assert_eq!(total, 1);
    let s = w.take_statistics(0, false);
    assert_eq!((s.incoming, s.outgoing, s.dropped), (2, 1, 1));
}

#[test]
fn dispatch_machine_steps() {
    let mut d = Dispatch::new(redismultiplexer::config::Mode::Spreader, 2);
    assert_eq!(d.outcome(), ItemOutcome::Dropped);
    d.delivered = true;
    assert_eq!(d.outcome(), ItemOutcome::Outgoing);
}

fn limited(hard: u64, soft: u64, block: Option<u64>) -> ClientConfig {
    let mut c = client("b1");
    c.timelimit = Some(1);
    c.checklimit = Some(1);
    c.softlimit = Some(soft);
    c.hardlimit = Some(hard);
    c.deleteblock = block;
    c
}

#[test]
fn backpressure_stuck_scenario() {
    let c = config("replicant", vec![limited(10, 5, None)]);
    let mut w = Worker::new(&c).unwrap();
    let mut lists = Lists::new(1);
    lists.items[0] = (0..10).map(|i| format!("old{}", i)).collect();
    deliver(&mut w, &mut lists, "n1", 100);
    assert!(w.destinations[0].admission.stuck_since.is_some());
    assert_eq!(w.stuck_report(), vec![("b1".to_string(), true)]);
    deliver(&mut w, &mut lists, "n2", 101);
    deliver(&mut w, &mut lists, "n3", 102);
    assert_eq!(lists.items[0].len(), 10);
    let s = w.take_statistics(0, false);
    assert_eq!((s.outgoing, s.dropped), (0, 3));
    lists.items[0].truncate(4);
    deliver(&mut w, &mut lists, "n4", 103);
    assert!(w.destinations[0].admission.stuck_since.is_none());
    deliver(&mut w, &mut lists, "n5", 104);
    assert_eq!(lists.items[0][4..].to_vec(), strings(&["n4", "n5"]));
    let s = w.take_statistics(0, false);
    assert_eq!((s.outgoing, s.dropped), (2, 0));
}

#[test]
fn stuck_until_under_soft_watermark() {
    let mut a = Admission::new(Some(1), Some(1), Some(5), Some(10), None);
    assert_eq!(a.begin(100), AdmissionStep::Probe);
    assert_eq!(a.on_length(10, 100), LengthVerdict::Admit(false));
    assert_eq!(a.stuck_since, Some(100));
    assert_eq!(a.begin(101), AdmissionStep::Probe);
    assert_eq!(a.on_length(5, 101), LengthVerdict::Admit(false));
    assert!(a.stuck_since.is_some());
    assert_eq!(a.begin(102), AdmissionStep::Probe);
    assert_eq!(a.on_length(4, 102), LengthVerdict::Admit(true));
    assert_eq!(a.stuck_since, None);
}

#[test]
fn trim_block_scenario() {
    let c = config("replicant", vec![limited(10, 5, Some(3))]);
    let mut w = Worker::new(&c).unwrap();
    let mut lists = Lists::new(1);
    lists.items[0] = (0..10).map(|i| format!("old{}", i)).collect();
    deliver(&mut w, &mut lists, "n1", 100);
    assert!(w.destinations[0].admission.stuck_since.is_none());
    assert_eq!(lists.items[0].len(), 8);
    assert_eq!(lists.items[0][0], "old3");
    assert_eq!(lists.items[0][7], "n1");
    lists.items[0].extend((0..7).map(|i| format!("more{}", i)));
    assert_eq!(lists.items[0].len(), 15);
    deliver(&mut w, &mut lists, "n2", 101);
    assert_eq!(lists.items[0].len(), 10);
    assert_eq!(lists.items[0][9], "n2");
    let s = w.take_statistics(0, false);
    assert_eq!((s.outgoing, s.dropped, s.deleted), (2, 0, 9));
}

#[test]
fn trim_block_count_matches_ceiling() {
    for (len, hard, block) in [(10u64, 10u64, 3u64), (15, 10, 3), (12, 10, 1), (40, 10, 7), (2, 1, 5)] {
        let mut a = Admission::new(Some(1), Some(1), Some(1), Some(hard), Some(block));
        let mut l = len;
        let mut rounds = 0u64;
        let mut removed_total = 0u64;
        loop {
            match a.on_length(l, 7) {
                LengthVerdict::Admit(ok) => {
                    assert!(ok);
                    break;
                }
                LengthVerdict::Trim { block: b, removed } => {
                    assert_eq!(b, block);
                    rounds += 1;
                    removed_total += removed;
                    l -= removed;
                }
            }
        }
        assert!(a.stuck_since.is_none());
        assert_eq!(rounds, (len - (hard - 1) + block - 1) / block);
        assert_eq!(removed_total, len - l);
        assert!(l < hard);
    }
}

#[test]
fn length_checks_are_rate_limited() {
    assert!(can_check_queue(None, None, 0, 100, 101));
    assert!(!can_check_queue(None, None, 0, 100, 100));
    assert!(!can_check_queue(None, None, 0, 100, 99));
    assert!(can_check_queue(Some(5), Some(3), 2, 100, 105));
    assert!(!can_check_queue(Some(5), Some(3), 2, 100, 104));
    assert!(can_check_queue(Some(5), Some(3), 0, 100, 100));
    let mut a = Admission::new(Some(60), Some(3), Some(5), Some(10), None);
    assert_eq!(a.begin(1000), AdmissionStep::Probe);
    assert_eq!(a.packages, 3);
    assert_eq!(a.lastcheck, 1000);
    assert_eq!(a.on_length(0, 1000), LengthVerdict::Admit(true));
    assert_eq!(a.begin(1001), AdmissionStep::Decided(true));
    assert_eq!(a.begin(1001), AdmissionStep::Decided(true));
    assert_eq!(a.begin(1001), AdmissionStep::Decided(true));
    assert_eq!(a.packages, 0);
    assert_eq!(a.begin(1001), AdmissionStep::Probe);
}

#[test]
fn no_limits_never_stick() {
    let mut a = Admission::new(None, None, None, None, None);
    assert_eq!(a.begin(10), AdmissionStep::Probe);
    assert_eq!(a.on_length(1_000_000, 10), LengthVerdict::Admit(true));
    assert_eq!(a.begin(10), AdmissionStep::Decided(true));
    assert_eq!(a.packages, 0);
}

#[test]
fn source_filter_drops_count_as_dropped() {
    let mut c = config("replicant", vec![client("b1")]);
    c.filter = Some("foo".to_string());
    c.filter_limit = Some(3);
    c.filter_replace = Some("bar".to_string());
    let mut w = Worker::new(&c).unwrap();
    let mut lists = Lists::new(1);
    deliver(&mut w, &mut lists, "fooXYZfoo", 100);
    deliver(&mut w, &mut lists, "zzzfoo", 100);
    assert_eq!(lists.items[0], strings(&["barXYZfoo"]));
    assert_eq!(w.counters.filtered, 1);
    let s = w.take_statistics(4, true);
    assert_eq!((s.id, s.incoming, s.outgoing, s.dropped, s.finished), (4, 2, 1, 1, true));
    assert_eq!(w.counters, Counters::new());
}

#[test]
fn invalid_text_is_dropped_and_counted() {
    let c = config("replicant", vec![client("b1")]);
    let mut w = Worker::new(&c).unwrap();
    assert_eq!(w.take_popped(vec![0xff, 0xfe]), None);
    assert_eq!(w.take_popped("ok".as_bytes().to_vec()), Some(b"ok".to_vec()));
    assert_eq!((w.counters.incoming, w.counters.dropped), (2, 1));
}

#[test]
fn every_item_counted_once() {
    let c = config("spreader", vec![client("b1"), client("b2")]);
    let mut w = Worker::new(&c).unwrap();
    let mut lists = Lists::new(2);
    w.source_filter = redismultiplexer::filter::Filter::compile(&Some("^[a-m]".to_string()), &None, None, &None).unwrap();
    lists.broken[1] = true;
    for item in ["apple", "zebra", "melon", "kiwi", "yak", "fig"] {
        deliver(&mut w, &mut lists, item, 100);
    }
    let k = w.counters;
    assert_eq!(k.incoming, k.outgoing + k.dropped + k.filtered);
    assert_eq!((k.outgoing, k.dropped, k.filtered), (4, 0, 2));
}

#[test]
fn counters_saturate() {
    let mut k = Counters::new();
    k.outgoing = u64::MAX;
    k.record(ItemOutcome::Outgoing);
    assert_eq!(k.outgoing, u64::MAX);
    k.add_deleted(5);
    k.add_deleted(u64::MAX);
    assert_eq!(k.deleted, u64::MAX);
}

#[test]
fn ordering_key_only_with_ordering() {
    let mut c = config("replicant", vec![client("b1")]);
    let w = Worker::new(&c).unwrap();
    assert_eq!(w.key_for(b"ts=5"), None);
    c.ordering = Some(r"ts=(?P<ts>\d+)".to_string());
    c.ordering_limit = Some(64);
    c.ordering_buffer_time = Some(2);
    let w = Worker::new(&c).unwrap();
    assert_eq!(w.key_for(b"ts=5"), Some(5));
}

#[test]
fn bad_destination_pattern_fails_the_worker() {
    let mut b1 = client("b1");
    b1.filter = Some("[".to_string());
    let c = config("replicant", vec![b1]);
    assert!(Worker::new(&c).is_err());
}

#[test]
fn board_tracks_stuck_destinations() {
    let mut b3 = client("b3");
    b3.channel = "other".to_string();
    let clients = vec![client("b1"), client("b2"), b3];
    let mut board = StuckBoard::new(&clients);
    assert!(board.knows(&"b2".to_string()));
    assert!(!board.knows(&"zz".to_string()));
    assert!(board.stuck_list().is_empty());
    let s = Statistics {
        id: 0,
        incoming: 3,
        outgoing: 2,
        dropped: 1,
        deleted: 0,
        stuck: vec![("b3".to_string(), true), ("b1".to_string(), true), ("zz".to_string(), true)],
        finished: false,
    };
    board.apply(&s);
    let mut list = board.stuck_list();
    list.sort();
    assert_eq!(list, strings(&["b1:out", "b3:other"]));
    board.set_stuck(&"b1".to_string(), false);
    assert_eq!(board.stuck_list(), strings(&["b3:other"]));
    let mut totals = Totals::new();
    totals.absorb(&s);
    totals.absorb(&s);
    assert_eq!((totals.incoming, totals.outgoing, totals.dropped, totals.deleted), (6, 4, 2, 0));
}

#[test]
fn statistics_every_ten_seconds() {
    assert!(!statistics_due(10_000, 0));
    assert!(statistics_due(10_001, 0));
    assert!(!statistics_due(5, 10));
}

#[test]
fn clock_reads_the_epoch() {
    let s = get_current_time();
    let ms = get_current_time_with_ms();
    assert!(s > 1_600_000_000);
    assert!(ms / 1000 >= s as u128);
}

#[test]
fn pop_replies_decide_the_next_step() {
    let mut c = config("replicant", vec![client("b1")]);
    c.ordering = Some(r"ts=(?P<ts>\d+)".to_string());
    c.ordering_limit = Some(64);
    c.ordering_buffer_time = Some(2);
    let mut w = Worker::new(&c).unwrap();
    assert_eq!(w.on_pop(PopReply::Nothing), PopAction::Submit(None, None));
    assert_eq!(
        w.on_pop(PopReply::Item(b"ts=9 x".to_vec())),
        PopAction::Submit(Some(9), Some(b"ts=9 x".to_vec()))
    );
    assert_eq!(w.on_pop(PopReply::Item(b"plain".to_vec())), PopAction::Submit(None, Some(b"plain".to_vec())));
    assert_eq!(w.on_pop(PopReply::Item(vec![0xc3])), PopAction::Skip);
    assert_eq!(w.on_pop(PopReply::WrongShape), PopAction::Reconnect);
    assert_eq!(w.on_pop(PopReply::Failed), PopAction::Reconnect);
    assert_eq!((w.counters.incoming, w.counters.dropped), (3, 1));
}

#[test]
fn loop_rounds_and_reports() {
    assert_eq!(round_end(Phase::Popping, 0, false), RoundEnd::Continue);
    assert_eq!(round_end(Phase::Popping, 3, true), RoundEnd::Reconnect);
    assert_eq!(round_end(Phase::Draining, 2, false), RoundEnd::Continue);
    assert_eq!(round_end(Phase::Draining, 0, false), RoundEnd::Finish);
    assert_eq!(round_end(Phase::Draining, 5, true), RoundEnd::Finish);
    assert!(!report_due(101, 100));
    assert!(report_due(102, 100));
    assert!(!report_due(5, 100));
}

#[test]
fn board_keeps_the_first_channel_of_a_name() {
    let mut again = client("b1");
    again.channel = "second".to_string();
    let board = StuckBoard::new(&vec![client("b1"), again]);
    assert!(board.knows(&"b1".to_string()));
    let mut b = board;
    b.set_stuck(&"b1".to_string(), true);
    assert_eq!(b.stuck_list(), strings(&["b1:out"]));
}

#[test]
fn last_report_entry_wins() {
    let mut board = StuckBoard::new(&vec![client("b1")]);
    let s = Statistics {
        id: 0,
        incoming: 0,
        outgoing: 0,
        dropped: 0,
        deleted: 0,
        stuck: vec![("b1".to_string(), true), ("b1".to_string(), false)],
        finished: false,
    };
    board.apply(&s);
    assert!(board.stuck_list().is_empty());
}
