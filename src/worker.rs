use vstd::prelude::*;
use crate::admission::Admission;
use crate::config::{mode_of, parse_mode, ClientConfig, Config, Mode};
use crate::filter::{
    copy_bytes, match_filter, opt_accepted, opt_text, opt_view, source_of, str_bytes, Filter, Pattern,
    PatternError,
};
use crate::ordering::{item_key, ordering_key};

verus! {

/// What became of one item that a worker took from the arbiter.
#[derive(Debug, Clone, Copy, PartialEq, Eq, Structural)]
pub enum ItemOutcome {
    /// At least one destination took it.
    Outgoing,
    /// Every destination refused or failed it.
    Dropped,
    /// The source filter dropped it.
    Filtered,
}

/// A worker's counters since its last statistics report.
#[derive(Debug, Clone, Copy, PartialEq, Eq, Structural)]
pub struct Counters {
    pub incoming: u64,
    pub outgoing: u64,
    pub dropped: u64,
    pub filtered: u64,
    pub deleted: u64,
}

pub open spec fn bump(x: u64) -> u64 {
    if x < u64::MAX {
        (x + 1) as u64
    } else {
        x
    }
}

pub open spec fn bump_by(x: u64, n: u64) -> u64 {
    if x + n <= u64::MAX {
        (x + n) as u64
    } else {
        u64::MAX
    }
}

/// The counters after one item had outcome `o`.
pub open spec fn counted(c: Counters, o: ItemOutcome) -> Counters {
    match o {
        ItemOutcome::Outgoing => Counters { outgoing: bump(c.outgoing), ..c },
        ItemOutcome::Dropped => Counters { dropped: bump(c.dropped), ..c },
        ItemOutcome::Filtered => Counters { filtered: bump(c.filtered), ..c },
    }
}

/// The counters after items came in and had the outcomes `outs`, one each.
pub open spec fn tally(c: Counters, outs: Seq<ItemOutcome>) -> Counters
    decreases outs.len(),
{
    if outs.len() == 0 {
        c
    } else {
        let c1 = Counters { incoming: bump(c.incoming), ..c };
        tally(counted(c1, outs[0]), outs.drop_first())
    }
}

impl Counters {
    pub open spec fn accounted(self) -> int {
        self.outgoing + self.dropped + self.filtered
    }

    pub fn new() -> (r: Counters)
        ensures
            r == (Counters { incoming: 0, outgoing: 0, dropped: 0, filtered: 0, deleted: 0 }),
    {
        Counters { incoming: 0, outgoing: 0, dropped: 0, filtered: 0, deleted: 0 }
    }

    /// One more item came in (saturating).
    pub fn record_incoming(&mut self)
        ensures
            *final(self) == (Counters { incoming: bump(old(self).incoming), ..*old(self) }),
    {
        if self.incoming < u64::MAX {
            self.incoming = self.incoming + 1;
        }
    }

    /// One item had outcome `o` (saturating).
    pub fn record(&mut self, o: ItemOutcome)
        ensures
            *final(self) == counted(*old(self), o),
    {
        match o {
            ItemOutcome::Outgoing => if self.outgoing < u64::MAX {
                self.outgoing = self.outgoing + 1;
            },
            ItemOutcome::Dropped => if self.dropped < u64::MAX {
                self.dropped = self.dropped + 1;
            },
            ItemOutcome::Filtered => if self.filtered < u64::MAX {
                self.filtered = self.filtered + 1;
            },
        }
    }

    /// `n` items were trimmed from a destination (saturating).
    pub fn add_deleted(&mut self, n: u64)
        ensures
            *final(self) == (Counters { deleted: bump_by(old(self).deleted, n), ..*old(self) }),
    {
        if self.deleted <= u64::MAX - n {
            self.deleted = self.deleted + n;
        } else {
            self.deleted = u64::MAX;
        }
    }
}

/// Every item is counted once: when items come in and each has one outcome,
/// `incoming = outgoing + dropped + filtered` keeps holding (as long as no
/// counter reaches its maximum).
pub proof fn lemma_each_item_counted_once(c: Counters, outs: Seq<ItemOutcome>)
    requires
        c.incoming == c.accounted(),
        c.incoming + outs.len() < u64::MAX,
    ensures
        tally(c, outs).incoming == tally(c, outs).accounted(),
        tally(c, outs).incoming == c.incoming + outs.len(),
    decreases outs.len(),
{
    if outs.len() > 0 {
        let c1 = Counters { incoming: bump(c.incoming), ..c };
        lemma_each_item_counted_once(counted(c1, outs[0]), outs.drop_first());
    }
}

/// The progress of fanning one item out to `total` destinations.
#[derive(Debug, Clone, Copy, PartialEq, Eq, Structural)]
pub struct Dispatch {
    pub mode: Mode,
    pub total: usize,
    pub tried: usize,
    pub delivered: bool,
}

impl Dispatch {
    /// A replicant tries every destination once; a spreader stops at the
    /// first one that takes the item.
    pub open spec fn finished(self) -> bool {
        self.tried >= self.total || (self.mode == Mode::Spreader && self.delivered)
    }

    /// The destination to try next: in order for a replicant, at the
    /// rotation point for a spreader.
    pub open spec fn target(self, rotation: usize) -> Option<usize> {
        if self.finished() {
            None
        } else {
            match self.mode {
                Mode::Replicant => Some(self.tried),
                Mode::Spreader => Some(rotation),
            }
        }
    }

    pub open spec fn after(self, accepted: bool) -> Dispatch {
        Dispatch { tried: (self.tried + 1) as usize, delivered: self.delivered || accepted, ..self }
    }

    /// A spreader moves the rotation point one step after every attempt,
    /// whatever its outcome.
    pub open spec fn next_rotation(self, rotation: usize) -> usize {
        match self.mode {
            Mode::Replicant => rotation,
            Mode::Spreader => if rotation + 1 >= self.total {
                0
            } else {
                (rotation + 1) as usize
            },
        }
    }

    pub fn new(mode: Mode, total: usize) -> (r: Dispatch)
        ensures
            r == (Dispatch { mode, total, tried: 0, delivered: false }),
    {
        Dispatch { mode, total, tried: 0, delivered: false }
    }

    /// What the item came to once the fan-out is over.
    pub fn outcome(&self) -> (r: ItemOutcome)
        ensures
            r == if self.delivered {
                ItemOutcome::Outgoing
            } else {
                ItemOutcome::Dropped
            },
    {
        if self.delivered {
            ItemOutcome::Outgoing
        } else {
            ItemOutcome::Dropped
        }
    }
}

/// The destinations that a fan-out tries, in order, when destination `i`
/// would take the item exactly when `accepts[i]`.
pub open spec fn dispatch_trace(d: Dispatch, rotation: usize, accepts: Seq<bool>) -> Seq<int>
    decreases d.total - d.tried,
{
    if d.finished() || accepts.len() != d.total || rotation >= d.total {
        Seq::empty()
    } else {
        let t = d.target(rotation).unwrap();
        seq![t as int] + dispatch_trace(d.after(accepts[t as int]), d.next_rotation(rotation), accepts)
    }
}

/// Whether the fan-out delivered the item, under the same assumption.
pub open spec fn dispatch_delivered(d: Dispatch, rotation: usize, accepts: Seq<bool>) -> bool
    decreases d.total - d.tried,
{
    if d.finished() || accepts.len() != d.total || rotation >= d.total {
        d.delivered
    } else {
        let t = d.target(rotation).unwrap();
        dispatch_delivered(d.after(accepts[t as int]), d.next_rotation(rotation), accepts)
    }
}

proof fn lemma_replicant_from(d: Dispatch, rotation: usize, accepts: Seq<bool>)
    requires
        d.mode == Mode::Replicant,
        d.tried <= d.total,
        accepts.len() == d.total,
        rotation < d.total,
    ensures
        dispatch_trace(d, rotation, accepts).len() == d.total - d.tried,
        forall|j: int| 0 <= j < d.total - d.tried ==> #[trigger] dispatch_trace(d, rotation, accepts)[j] == d.tried + j,
        dispatch_delivered(d, rotation, accepts) == (d.delivered || exists|i: int|
            d.tried <= i < d.total && #[trigger] accepts[i]),
    decreases d.total - d.tried,
{
    if d.tried < d.total {
        let d1 = d.after(accepts[d.tried as int]);
        lemma_replicant_from(d1, rotation, accepts);
        let tr = dispatch_trace(d, rotation, accepts);
        let tr1 = dispatch_trace(d1, rotation, accepts);
        assert forall|j: int| 0 <= j < d.total - d.tried implies #[trigger] tr[j] == d.tried + j by {
            if j > 0 {
                assert(tr[j] == tr1[j - 1]);
            }
        }
        if dispatch_delivered(d, rotation, accepts) && !d.delivered && !accepts[d.tried as int] {
            let i = choose|i: int| d1.tried <= i < d1.total && #[trigger] accepts[i];
            assert(d.tried <= i < d.total && accepts[i]);
        }
        if !d.delivered && (exists|i: int| d.tried <= i < d.total && #[trigger] accepts[i]) {
            let i = choose|i: int| d.tried <= i < d.total && #[trigger] accepts[i];
            if i != d.tried {
                assert(d1.tried <= i < d1.total && accepts[i]);
            }
        }
    }
}

/// Replication: a fresh replicant fan-out over `n` destinations tries each
/// destination exactly once, in order, whatever they answer, so the item
/// is pushed to every destination that takes it, once; it counts as
/// delivered exactly when some destination took it.
pub proof fn lemma_replicant_tries_each_once(n: usize, rotation: usize, accepts: Seq<bool>)
    requires
        accepts.len() == n,
        rotation < n,
    ensures
        dispatch_trace(Dispatch { mode: Mode::Replicant, total: n, tried: 0, delivered: false }, rotation, accepts).len() == n,
        forall|j: int| 0 <= j < n ==> #[trigger] dispatch_trace(
            Dispatch { mode: Mode::Replicant, total: n, tried: 0, delivered: false },
            rotation,
            accepts,
        )[j] == j,
        dispatch_delivered(Dispatch { mode: Mode::Replicant, total: n, tried: 0, delivered: false }, rotation, accepts)
            == exists|i: int| 0 <= i < n && #[trigger] accepts[i],
{
    lemma_replicant_from(Dispatch { mode: Mode::Replicant, total: n, tried: 0, delivered: false }, rotation, accepts);
}

/// The destination `j` steps after `r0` around a ring of `n`.
pub open spec fn ring(r0: int, j: int, n: int) -> int {
    if r0 + j < n {
        r0 + j
    } else {
        r0 + j - n
    }
}

proof fn lemma_spreader_from(d: Dispatch, r0: int, accepts: Seq<bool>)
    requires
        d.mode == Mode::Spreader,
        !d.delivered,
        d.tried < d.total,
        accepts.len() == d.total,
        0 <= r0 < d.total,
    ensures
        ({
            let tr = dispatch_trace(d, ring(r0, d.tried as int, d.total as int) as usize, accepts);
            &&& 1 <= tr.len() <= d.total - d.tried
            &&& forall|j: int| 0 <= j < tr.len() ==> #[trigger] tr[j] == ring(r0, d.tried + j, d.total as int)
            &&& forall|j: int| 0 <= j < tr.len() - 1 ==> !accepts[#[trigger] tr[j]]
            &&& dispatch_delivered(d, ring(r0, d.tried as int, d.total as int) as usize, accepts)
                == accepts[tr.last()]
            &&& dispatch_delivered(d, ring(r0, d.tried as int, d.total as int) as usize, accepts)
                == exists|j: int| d.tried <= j < d.total && #[trigger] accepts[ring(r0, j, d.total as int)]
        }),
    decreases d.total - d.tried,
{
    let n = d.total as int;
    let rot = ring(r0, d.tried as int, n) as usize;
    let t = rot as int;
    let d1 = d.after(accepts[t]);
    let rot1 = d.next_rotation(rot);
    assert(rot1 as int == ring(r0, d.tried + 1, n) || d.tried + 1 >= n);
    let tr = dispatch_trace(d, rot, accepts);
    if accepts[t] || d.tried + 1 >= n {
        assert(d1.finished());
        assert(dispatch_trace(d1, rot1, accepts) =~= Seq::<int>::empty());
        assert(dispatch_delivered(d1, rot1, accepts) == d1.delivered);
        assert(tr =~= seq![t]);
        if !accepts[t] {
            assert forall|j: int| d.tried <= j < d.total implies !#[trigger] accepts[ring(r0, j, n)] by {
                assert(j == d.tried);
            }
        }
    } else {
        assert(rot1 as int == ring(r0, d.tried + 1, n));
        lemma_spreader_from(d1, r0, accepts);
        let tr1 = dispatch_trace(d1, rot1, accepts);
        assert(tr =~= seq![t] + tr1);
        assert forall|j: int| 0 <= j < tr.len() implies #[trigger] tr[j] == ring(r0, d.tried + j, n) by {
            if j > 0 {
                assert(tr[j] == tr1[j - 1]);
            }
        }
        assert forall|j: int| 0 <= j < tr.len() - 1 implies !accepts[#[trigger] tr[j]] by {
            if j > 0 {
                assert(tr[j] == tr1[j - 1]);
            }
        }
        assert(tr.last() == tr1.last());
        if exists|j: int| d.tried <= j < d.total && #[trigger] accepts[ring(r0, j, n)] {
            let j = choose|j: int| d.tried <= j < d.total && #[trigger] accepts[ring(r0, j, n)];
            assert(j != d.tried);
            assert(d1.tried <= j < d1.total && accepts[ring(r0, j, n)]);
        }
    }
}

/// Spreading: a fresh spreader fan-out that starts at rotation point `r0`
/// tries destinations `r0, r0 + 1, ...` around the ring, each at most once,
/// and stops at the first that takes the item. So the item is pushed
/// exactly once when some destination takes it (by the last one tried), and
/// is not pushed at all, and dropped, when none does.
pub proof fn lemma_spreader_delivers_once(n: usize, r0: usize, accepts: Seq<bool>)
    requires
        accepts.len() == n,
        r0 < n,
    ensures
        ({
            let d = Dispatch { mode: Mode::Spreader, total: n, tried: 0, delivered: false };
            let tr = dispatch_trace(d, r0, accepts);
            &&& 1 <= tr.len() <= n
            &&& forall|j: int| 0 <= j < tr.len() ==> #[trigger] tr[j] == ring(r0 as int, j, n as int)
            &&& forall|j: int| 0 <= j < tr.len() - 1 ==> !accepts[#[trigger] tr[j]]
            &&& dispatch_delivered(d, r0, accepts) == accepts[tr.last()]
            &&& dispatch_delivered(d, r0, accepts) == exists|i: int| 0 <= i < n && #[trigger] accepts[i]
        }),
{
    let d = Dispatch { mode: Mode::Spreader, total: n, tried: 0, delivered: false };
    assert(ring(r0 as int, 0, n as int) == r0);
    lemma_spreader_from(d, r0 as int, accepts);
    if exists|i: int| 0 <= i < n && #[trigger] accepts[i] {
        let i = choose|i: int| 0 <= i < n && #[trigger] accepts[i];
        let j = if i >= r0 { i - r0 } else { i + n - r0 };
        assert(ring(r0 as int, j, n as int) == i);
        assert(0 <= j < n && accepts[ring(r0 as int, j, n as int)]);
    }
}

/// A destination as built from its configuration: same name and channel,
/// its filter from the configured options, never checked and healthy.
pub open spec fn built_from(d: Destination, c: ClientConfig) -> bool {
    &&& d.name@ == c.name@
    &&& d.channel@ == c.channel@
    &&& d.admission == Admission::new_spec(c.timelimit, c.checklimit, c.softlimit, c.hardlimit, c.deleteblock)
    &&& d.filter.limit == c.filter_limit
    &&& source_of(d.filter.regex) == opt_text(c.filter)
    &&& opt_view(d.filter.until) == str_bytes(c.filter_until)
    &&& opt_view(d.filter.replace) == str_bytes(c.filter_replace)
}

/// One destination as a worker sees it: its name and channel, its filter and
/// its admission state.
pub struct Destination {
    pub name: String,
    pub channel: String,
    pub filter: Filter,
    pub admission: Admission,
}

impl Destination {
    /// Builds a destination from its configuration; its pattern is compiled once.
    pub fn from_config(c: &ClientConfig) -> (r: Result<Destination, PatternError>)
        ensures
            r.is_ok() == opt_accepted(c.filter),
            r matches Ok(d) ==> built_from(d, *c),
    {
        let filter = match Filter::compile(&c.filter, &c.filter_until, c.filter_limit, &c.filter_replace) {
            Ok(f) => f,
            Err(e) => {
                return Err(e);
            },
        };
        Ok(Destination {
            name: c.name.clone(),
            channel: c.channel.clone(),
            filter,
            admission: Admission::new(c.timelimit, c.checklimit, c.softlimit, c.hardlimit, c.deleteblock),
        })
    }
}

impl Admission {
    pub open spec fn new_spec(
        timelimit: Option<u64>,
        checklimit: Option<u64>,
        softlimit: Option<u64>,
        hardlimit: Option<u64>,
        deleteblock: Option<u64>,
    ) -> Admission {
        Admission { timelimit, checklimit, softlimit, hardlimit, deleteblock, packages: 0, lastcheck: 0, stuck_since: None }
    }
}

/// What a worker reports to the supervisor: its counters since the last
/// report and which destinations are stuck.
#[derive(Debug, Clone, PartialEq, Eq)]
pub struct Statistics {
    pub id: u16,
    pub incoming: u64,
    pub outgoing: u64,
    pub dropped: u64,
    pub deleted: u64,
    pub stuck: Vec<(String, bool)>,
    pub finished: bool,
}

/// Whether bytes are valid UTF-8.
pub open spec fn is_text(b: Seq<u8>) -> bool {
    vstd::utf8::valid_utf8(b)
}

/// Relies on `std::str::from_utf8`: it succeeds exactly on valid UTF-8.
#[verifier::external_body]
fn utf8_ok(b: &[u8]) -> (r: bool)
    ensures
        r == is_text(b@),
{
    std::str::from_utf8(b).is_ok()
}

/// Every pattern of a configuration is accepted: the source filter, the
/// ordering pattern and each destination's filter.
pub open spec fn all_patterns_accepted(c: Config) -> bool {
    &&& opt_accepted(c.filter)
    &&& opt_accepted(c.ordering)
    &&& forall|i: int| 0 <= i < c.clients@.len() ==> opt_accepted(#[trigger] c.clients@[i].filter)
}

/// What a blocking pop from the source came back with.
#[derive(Debug, Clone, PartialEq, Eq)]
pub enum PopReply {
    /// The pop timed out: the source had nothing.
    Nothing,
    /// An item.
    Item(Vec<u8>),
    /// A reply of another shape than a list pop gives.
    WrongShape,
    /// The connection failed.
    Failed,
}

/// What the worker loop does after a pop.
#[derive(Debug, Clone, PartialEq, Eq)]
pub enum PopAction {
    /// Submit this key and item (or nothing) to the arbiter, and handle what
    /// it releases.
    Submit(Option<u128>, Option<Vec<u8>>),
    /// The item was not text: it is dropped, nothing is submitted.
    Skip,
    /// Close every connection and connect again.
    Reconnect,
}

/// The phase of a worker's loop.
#[derive(Debug, Clone, Copy, PartialEq, Eq, Structural)]
pub enum Phase {
    /// Popping from the source.
    Popping,
    /// Told to finish: only the arbiter's buffer is still served.
    Draining,
}

/// How a round of the worker loop ends.
#[derive(Debug, Clone, Copy, PartialEq, Eq, Structural)]
pub enum RoundEnd {
    Continue,
    Reconnect,
    /// Send the final statistics and stop.
    Finish,
}

/// A worker reports its counters when more than a second has passed since
/// its last report.
pub fn report_due(now: u64, last: u64) -> (r: bool)
    ensures
        r == (now > last + 1),
{
    now > last && now - last > 1
}

/// How a round ends: a failure while popping leads to a reconnect; while
/// draining, a round that released nothing, or failed, finishes the worker.
pub fn round_end(phase: Phase, released: usize, failed: bool) -> (r: RoundEnd)
    ensures
        phase == Phase::Popping ==> r == if failed {
            RoundEnd::Reconnect
        } else {
            RoundEnd::Continue
        },
        phase == Phase::Draining ==> r == if released == 0 || failed {
            RoundEnd::Finish
        } else {
            RoundEnd::Continue
        },
{
    match phase {
        Phase::Popping => if failed {
            RoundEnd::Reconnect
        } else {
            RoundEnd::Continue
        },
        Phase::Draining => if released == 0 || failed {
            RoundEnd::Finish
        } else {
            RoundEnd::Continue
        },
    }
}

/// The pipeline state of one worker: its fan-out discipline, source filter,
/// ordering pattern, destinations, rotation point and counters.
pub struct Worker {
    pub mode: Mode,
    pub source_filter: Filter,
    pub ordering: Option<Pattern>,
    pub ordering_limit: Option<usize>,
    pub destinations: Vec<Destination>,
    pub rotation: usize,
    pub counters: Counters,
}

impl Worker {
    pub open spec fn wf(&self) -> bool {
        self.destinations@.len() > 0 && self.rotation < self.destinations@.len()
    }

    /// Builds a worker from a configuration whose mode is known and which
    /// has destinations; every pattern is compiled once.
    pub fn new(config: &Config) -> (r: Result<Worker, PatternError>)
        requires
            mode_of(config.mode@).is_some(),
            config.clients@.len() > 0,
        ensures
            r.is_ok() <==> all_patterns_accepted(*config),
            r matches Ok(w) ==> w.wf() && w.mode == mode_of(config.mode@).unwrap() && w.rotation == 0
                && w.counters == Counters::new_spec() && w.destinations@.len() == config.clients@.len()
                && source_of(w.ordering) == opt_text(config.ordering)
                && w.ordering_limit == config.ordering_limit
                && source_of(w.source_filter.regex) == opt_text(config.filter)
                && w.source_filter.limit == config.filter_limit
                && opt_view(w.source_filter.until) == str_bytes(config.filter_until)
                && opt_view(w.source_filter.replace) == str_bytes(config.filter_replace)
                && forall|i: int| 0 <= i < config.clients@.len() ==> built_from(
                    #[trigger] w.destinations@[i],
                    config.clients@[i],
                ),
    {
        let mode = match parse_mode(&config.mode) {
            Some(m) => m,
            None => Mode::Replicant,
        };
        let source_filter = match Filter::compile(
            &config.filter,
            &config.filter_until,
            config.filter_limit,
            &config.filter_replace,
        ) {
            Ok(f) => f,
            Err(e) => {
                return Err(e);
            },
        };
        let ordering = match &config.ordering {
            Some(p) => match Pattern::compile(p) {
                Ok(re) => Some(re),
                Err(e) => {
                    return Err(e);
                },
            },
            None => None,
        };
        let mut destinations: Vec<Destination> = Vec::new();
        let mut i: usize = 0;
        while i < config.clients.len()
            invariant
                0 <= i <= config.clients@.len(),
                destinations@.len() == i,
                forall|k: int| 0 <= k < i ==> built_from(#[trigger] destinations@[k], config.clients@[k]),
                forall|k: int| 0 <= k < i ==> opt_accepted(#[trigger] config.clients@[k].filter),
                opt_accepted(config.filter),
                opt_accepted(config.ordering),
            decreases config.clients@.len() - i,
        {
            match Destination::from_config(&config.clients[i]) {
                Ok(d) => destinations.push(d),
                Err(e) => {
                    return Err(e);
                },
            }
            i = i + 1;
        }
        Ok(Worker {
            mode,
            source_filter,
            ordering,
            ordering_limit: config.ordering_limit,
            destinations,
            rotation: 0,
            counters: Counters::new(),
        })
    }

    /// Takes in an item popped from the source: it counts as incoming; one
    /// that is not UTF-8 text is dropped (and counted so) at once.
    pub fn take_popped(&mut self, raw: Vec<u8>) -> (r: Option<Vec<u8>>)
        ensures
            final(self).destinations == old(self).destinations,
            final(self).rotation == old(self).rotation,
            final(self).mode == old(self).mode,
            final(self).source_filter == old(self).source_filter,
            final(self).ordering == old(self).ordering,
            final(self).ordering_limit == old(self).ordering_limit,
            is_text(raw@) ==> r == Some(raw) && final(self).counters == (Counters {
                incoming: bump(old(self).counters.incoming),
                ..old(self).counters
            }),
            !is_text(raw@) ==> r.is_none() && final(self).counters == counted(
                Counters { incoming: bump(old(self).counters.incoming), ..old(self).counters },
                ItemOutcome::Dropped,
            ),
    {
        self.counters.record_incoming();
        if utf8_ok(raw.as_slice()) {
            Some(raw)
        } else {
            self.counters.record(ItemOutcome::Dropped);
            None
        }
    }

    /// Decides what a pop leads to. Nothing popped: an empty submission. An
    /// item: it goes through `take_popped`, and, if it is text, is submitted
    /// with its ordering key. A wrong reply or a failure: reconnect.
    pub fn on_pop(&mut self, reply: PopReply) -> (r: PopAction)
        ensures
            final(self).destinations == old(self).destinations,
            final(self).rotation == old(self).rotation,
            final(self).mode == old(self).mode,
            final(self).source_filter == old(self).source_filter,
            final(self).ordering == old(self).ordering,
            final(self).ordering_limit == old(self).ordering_limit,
            match reply {
                PopReply::Nothing => r == PopAction::Submit(None, None) && final(self).counters == old(
                    self,
                ).counters,
                PopReply::Item(raw) => if is_text(raw@) {
                    r == PopAction::Submit(
                        match old(self).ordering {
                            Some(p) => item_key(p.source(), old(self).ordering_limit, raw@),
                            None => None,
                        },
                        Some(raw),
                    ) && final(self).counters == (Counters {
                        incoming: bump(old(self).counters.incoming),
                        ..old(self).counters
                    })
                } else {
                    r == PopAction::Skip && final(self).counters == counted(
                        Counters { incoming: bump(old(self).counters.incoming), ..old(self).counters },
                        ItemOutcome::Dropped,
                    )
                },
                _ => r == PopAction::Reconnect && final(self).counters == old(self).counters,
            },
    {
        match reply {
            PopReply::Nothing => PopAction::Submit(None, None),
            PopReply::Item(raw) => match self.take_popped(raw) {
                Some(item) => {
                    let key = self.key_for(item.as_slice());
                    PopAction::Submit(key, Some(item))
                },
                None => PopAction::Skip,
            },
            _ => PopAction::Reconnect,
        }
    }

    /// The ordering key of an item: `None` when ordering is off.
    pub fn key_for(&self, item: &[u8]) -> (r: Option<u128>)
        ensures
            r == match self.ordering {
                Some(p) => item_key(p.source(), self.ordering_limit, item@),
                None => None,
            },
    {
        match &self.ordering {
            Some(re) => ordering_key(re, self.ordering_limit, item),
            None => None,
        }
    }

    /// Runs an item released by the arbiter through the source filter. A
    /// dropped item is counted as filtered; one that passes, as emitted by
    /// the filter, starts a fan-out over every destination.
    pub fn start_item(&mut self, item: Vec<u8>) -> (r: Option<(Vec<u8>, Dispatch)>)
        requires
            old(self).wf(),
        ensures
            final(self).wf(),
            final(self).destinations == old(self).destinations,
            final(self).rotation == old(self).rotation,
            final(self).mode == old(self).mode,
            final(self).source_filter == old(self).source_filter,
            final(self).ordering == old(self).ordering,
            final(self).ordering_limit == old(self).ordering_limit,
            match r {
                None => old(self).source_filter.result(item@).is_none() && final(self).counters == counted(
                    old(self).counters,
                    ItemOutcome::Filtered,
                ),
                Some((payload, d)) => old(self).source_filter.result(item@) == Some(payload@)
                    && final(self).counters == old(self).counters && d == (Dispatch {
                    mode: old(self).mode,
                    total: old(self).destinations@.len() as usize,
                    tried: 0,
                    delivered: false,
                }),
            },
    {
        match match_filter(&self.source_filter, item).into_emitted() {
            None => {
                self.counters.record(ItemOutcome::Filtered);
                None
            },
            Some(payload) => Some((payload, Dispatch::new(self.mode, self.destinations.len()))),
        }
    }

    /// The destination to try next, if the fan-out goes on.
    pub fn next_target(&self, d: &Dispatch) -> (r: Option<usize>)
        requires
            self.wf(),
            d.total == self.destinations@.len(),
            d.mode == self.mode,
        ensures
            r == d.target(self.rotation),
            r matches Some(i) ==> i < self.destinations@.len(),
    {
        if d.tried >= d.total || (d.delivered && d.mode == Mode::Spreader) {
            return None;
        }
        match d.mode {
            Mode::Replicant => Some(d.tried),
            Mode::Spreader => Some(self.rotation),
        }
    }

    /// The bytes that destination `i` is offered for `payload`, after its
    /// own filter; `None` when its filter drops the item.
    pub fn destination_payload(&self, i: usize, payload: &[u8]) -> (r: Option<Vec<u8>>)
        requires
            i < self.destinations@.len(),
        ensures
            opt_view(r) == self.destinations@[i as int].filter.result(payload@),
    {
        let outcome = match_filter(&self.destinations[i].filter, copy_bytes(payload));
        outcome.into_emitted()
    }

    /// Records the answer of the destination just tried; a spreader moves
    /// its rotation point one step, whatever the answer.
    pub fn record_attempt(&mut self, d: &mut Dispatch, accepted: bool)
        requires
            old(self).wf(),
            old(d).total == old(self).destinations@.len(),
            old(d).mode == old(self).mode,
            !old(d).finished(),
        ensures
            final(self).wf(),
            *final(d) == old(d).after(accepted),
            final(self).rotation == old(d).next_rotation(old(self).rotation),
            final(self).destinations == old(self).destinations,
            final(self).counters == old(self).counters,
            final(self).mode == old(self).mode,
    {
        d.tried = d.tried + 1;
        d.delivered = d.delivered || accepted;
        if d.mode == Mode::Spreader {
            if self.rotation + 1 >= d.total {
                self.rotation = 0;
            } else {
                self.rotation = self.rotation + 1;
            }
        }
    }

    /// Counts a finished fan-out: outgoing when delivered, dropped otherwise.
    pub fn finish_item(&mut self, d: &Dispatch)
        ensures
            final(self).counters == counted(old(self).counters, d.outcome_spec()),
            final(self).destinations == old(self).destinations,
            final(self).rotation == old(self).rotation,
            final(self).mode == old(self).mode,
    {
        let o = d.outcome();
        self.counters.record(o);
    }

    /// Destinations that are stuck, by name, in the worker's order.
    pub fn stuck_report(&self) -> (r: Vec<(String, bool)>)
        ensures
            r@.len() == self.destinations@.len(),
            forall|i: int| 0 <= i < r@.len() ==> (#[trigger] r@[i]).0@ == self.destinations@[i].name@
                && r@[i].1 == self.destinations@[i].admission.is_stuck(),
    {
        let mut r: Vec<(String, bool)> = Vec::new();
        let mut i: usize = 0;
        while i < self.destinations.len()
            invariant
                0 <= i <= self.destinations@.len(),
                r@.len() == i,
                forall|k: int| 0 <= k < i ==> (#[trigger] r@[k]).0@ == self.destinations@[k].name@
                    && r@[k].1 == self.destinations@[k].admission.is_stuck(),
            decreases self.destinations@.len() - i,
        {
            let d = &self.destinations[i];
            r.push((d.name.clone(), d.admission.stuck_since.is_some()));
            i = i + 1;
        }
        r
    }

    /// The report for the supervisor: the counters since the last report
    /// (items dropped by the source filter count as dropped) and the stuck
    /// destinations. The counters start again from zero.
    pub fn take_statistics(&mut self, id: u16, finished: bool) -> (r: Statistics)
        ensures
            r.id == id,
            r.finished == finished,
            r.incoming == old(self).counters.incoming,
            r.outgoing == old(self).counters.outgoing,
            r.dropped == bump_by(old(self).counters.dropped, old(self).counters.filtered),
            r.deleted == old(self).counters.deleted,
            r.stuck@.len() == old(self).destinations@.len(),
            forall|i: int| 0 <= i < r.stuck@.len() ==> (#[trigger] r.stuck@[i]).0@ == old(self).destinations@[i].name@
                && r.stuck@[i].1 == old(self).destinations@[i].admission.is_stuck(),
            final(self).counters == Counters::new_spec(),
            final(self).destinations == old(self).destinations,
            final(self).rotation == old(self).rotation,
            final(self).mode == old(self).mode,
    {
        let c = self.counters;
        let dropped = if c.dropped <= u64::MAX - c.filtered {
            c.dropped + c.filtered
        } else {
            u64::MAX
        };
        let stuck = self.stuck_report();
        self.counters = Counters::new();
        Statistics {
            id,
            incoming: c.incoming,
            outgoing: c.outgoing,
            dropped,
            deleted: c.deleted,
            stuck,
            finished,
        }
    }
}

impl Counters {
    pub open spec fn new_spec() -> Counters {
        Counters { incoming: 0, outgoing: 0, dropped: 0, filtered: 0, deleted: 0 }
    }
}

impl Dispatch {
    pub open spec fn outcome_spec(self) -> ItemOutcome {
        if self.delivered {
            ItemOutcome::Outgoing
        } else {
            ItemOutcome::Dropped
        }
    }
}

} // verus!
