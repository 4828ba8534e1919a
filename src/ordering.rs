use vstd::prelude::*;
use crate::datetime::get_current_time;
use crate::filter::{copy_bytes, copy_range, limit_end, pattern_capture, prefix_len, regex_capture_span, Pattern};

verus! {

/// One buffered item: its ordering key, the second it came in, and its bytes.
pub struct Entry {
    pub key: u128,
    pub since: u64,
    pub item: Vec<u8>,
}

/// What an entry stands for: `(key, since, item)`.
pub type EntryView = (u128, u64, Seq<u8>);

impl View for Entry {
    type V = EntryView;

    open spec fn view(&self) -> EntryView {
        (self.key, self.since, self.item@)
    }
}

/// Items waiting for release, sorted by ordering key; entries with equal keys
/// keep the order in which they came in.
pub struct OrderingBuffer {
    pub entries: Vec<Entry>,
}

pub open spec fn sorted_by_key(s: Seq<EntryView>) -> bool {
    forall|i: int, j: int| 0 <= i < j < s.len() ==> s[i].0 <= s[j].0
}

/// Where an entry with `key` goes: after every entry whose key is not larger.
pub open spec fn upper_bound(s: Seq<EntryView>, key: u128) -> int
    decreases s.len(),
{
    if s.len() == 0 {
        0
    } else if s.last().0 <= key {
        s.len() as int
    } else {
        upper_bound(s.drop_last(), key)
    }
}

/// The buffer after `e` is put in its place.
pub open spec fn inserted(s: Seq<EntryView>, e: EntryView) -> Seq<EntryView> {
    s.insert(upper_bound(s, e.0), e)
}

/// The second before which an entry must have come in to be released now:
/// `now - hold_down`, or, without a hold-down, `now + 2`: every entry stamped
/// up to one second ahead of `now` is released.
pub open spec fn release_bound(hold_down: Option<u64>, now: u64) -> int {
    match hold_down {
        Some(t) => now - t,
        None => now + 2,
    }
}

/// The length of the head of `s`, from index `i` on, whose entries came in
/// before `bound`: release walks the head and stops at the first younger entry.
pub open spec fn due_prefix(s: Seq<EntryView>, bound: int, i: int) -> int
    decreases s.len() - i,
{
    if i < 0 || i >= s.len() {
        s.len() as int
    } else if s[i].1 < bound {
        due_prefix(s, bound, i + 1)
    } else {
        i
    }
}

pub open spec fn items_of(v: Seq<Vec<u8>>) -> Seq<Seq<u8>> {
    v.map_values(|x: Vec<u8>| x@)
}

pub open spec fn entry_items(s: Seq<EntryView>) -> Seq<Seq<u8>> {
    s.map_values(|e: EntryView| e.2)
}

/// The buffer once the submitted item, if it has a key, is in it.
pub open spec fn staged(s: Seq<EntryView>, key: Option<u128>, item: Option<Seq<u8>>, now: u64) -> Seq<EntryView> {
    match (key, item) {
        (Some(k), Some(b)) => inserted(s, (k, now, b)),
        _ => s,
    }
}

/// The submitted item when it has no key: it bypasses the buffer.
pub open spec fn bypass(key: Option<u128>, item: Option<Seq<u8>>) -> Seq<Seq<u8>> {
    match (key, item) {
        (None, Some(b)) => seq![b],
        _ => Seq::empty(),
    }
}

/// The number of buffered entries that one submission releases.
pub open spec fn released_count(
    s: Seq<EntryView>,
    key: Option<u128>,
    item: Option<Seq<u8>>,
    hold_down: Option<u64>,
    now: u64,
) -> int {
    due_prefix(staged(s, key, item, now), release_bound(hold_down, now), 0)
}

pub open spec fn opt_bytes(o: Option<Vec<u8>>) -> Option<Seq<u8>> {
    match o {
        Some(v) => Some(v@),
        None => None,
    }
}

proof fn lemma_upper_bound(s: Seq<EntryView>, key: u128)
    requires
        sorted_by_key(s),
    ensures
        0 <= upper_bound(s, key) <= s.len(),
        forall|i: int| 0 <= i < upper_bound(s, key) ==> s[i].0 <= key,
        forall|i: int| upper_bound(s, key) <= i < s.len() ==> s[i].0 > key,
    decreases s.len(),
{
    if s.len() > 0 {
        if s.last().0 > key {
            let t = s.drop_last();
            assert(sorted_by_key(t));
            lemma_upper_bound(t, key);
            assert forall|i: int| 0 <= i < upper_bound(s, key) implies s[i].0 <= key by {
                assert(s[i] == t[i]);
            }
            assert forall|i: int| upper_bound(s, key) <= i < s.len() implies s[i].0 > key by {
                if i < s.len() - 1 {
                    assert(s[i] == t[i]);
                }
            }
        } else {
            assert forall|i: int| 0 <= i < upper_bound(s, key) implies s[i].0 <= key by {
                if i < s.len() - 1 {
                    assert(s[i].0 <= s[s.len() - 1].0);
                }
            }
        }
    }
}

proof fn lemma_inserted_sorted(s: Seq<EntryView>, e: EntryView)
    requires
        sorted_by_key(s),
    ensures
        sorted_by_key(inserted(s, e)),
        inserted(s, e).len() == s.len() + 1,
{
    lemma_upper_bound(s, e.0);
    let p = upper_bound(s, e.0);
    let t = inserted(s, e);
    assert forall|i: int, j: int| 0 <= i < j < t.len() implies t[i].0 <= t[j].0 by {
        if i < p && j < p {
        } else if i < p && j == p {
        } else if i < p {
            assert(t[j] == s[j - 1]);
        } else if i == p {
            assert(t[j] == s[j - 1]);
        } else {
            assert(t[i] == s[i - 1] && t[j] == s[j - 1]);
        }
    }
}

proof fn lemma_due_prefix_bounds(s: Seq<EntryView>, bound: int, i: int)
    requires
        0 <= i <= s.len(),
    ensures
        i <= due_prefix(s, bound, i) <= s.len(),
    decreases s.len() - i,
{
    if i < s.len() && s[i].1 < bound {
        lemma_due_prefix_bounds(s, bound, i + 1);
    }
}

impl OrderingBuffer {
    pub open spec fn view(&self) -> Seq<EntryView> {
        self.entries@.map_values(|e: Entry| e@)
    }

    pub open spec fn wf(&self) -> bool {
        sorted_by_key(self.view())
    }

    pub fn new() -> (r: OrderingBuffer)
        ensures
            r.view() == Seq::<EntryView>::empty(),
            r.wf(),
    {
        let r = OrderingBuffer { entries: Vec::new() };
        assert(r.view() =~= Seq::<EntryView>::empty());
        r
    }

    /// The number of buffered items.
    pub fn len(&self) -> (r: usize)
        ensures
            r == self.view().len(),
    {
        self.entries.len()
    }

    /// Puts an item in its place: after every entry whose key is not larger.
    pub fn insert(&mut self, key: u128, since: u64, item: Vec<u8>)
        requires
            old(self).wf(),
        ensures
            final(self).view() == inserted(old(self).view(), (key, since, item@)),
            final(self).wf(),
    {
        let ghost s = self.view();
        let mut i: usize = self.entries.len();
        assert(s.subrange(0, i as int) =~= s);
        while i > 0 && self.entries[i - 1].key > key
            invariant
                0 <= i <= self.entries@.len(),
                self.view() == s,
                upper_bound(s, key) == upper_bound(s.subrange(0, i as int), key),
            decreases i,
        {
            proof {
                let t = s.subrange(0, i as int);
                assert(t.last() == s[i - 1]);
                assert(t.drop_last() =~= s.subrange(0, i - 1));
            }
            i = i - 1;
        }
        proof {
            let t = s.subrange(0, i as int);
            if i > 0 {
                assert(t.last() == s[i - 1]);
            }
            assert(upper_bound(t, key) == i);
        }
        self.entries.insert(i, Entry { key, since, item });
        proof {
            assert(self.view() =~= s.insert(i as int, (key, since, item@)));
            lemma_inserted_sorted(s, (key, since, item@));
        }
    }

    /// Takes the first `n` entries out and hands back their items, in order.
    pub fn take_front(&mut self, n: usize) -> (r: Vec<Vec<u8>>)
        requires
            old(self).wf(),
            n <= old(self).view().len(),
        ensures
            final(self).view() == old(self).view().subrange(n as int, old(self).view().len() as int),
            items_of(r@) == entry_items(old(self).view().subrange(0, n as int)),
            final(self).wf(),
    {
        let ghost s = self.view();
        let mut front = self.entries.split_off(n);
        core::mem::swap(&mut front, &mut self.entries);
        assert(self.view() =~= s.subrange(n as int, s.len() as int));
        assert(front@.map_values(|e: Entry| e@) =~= s.subrange(0, n as int));
        assert forall|j: int| 0 <= j < n implies front@[j]@ == #[trigger] s[j] by {
            assert(front@.map_values(|e: Entry| e@)[j] == s.subrange(0, n as int)[j]);
        }
        let mut out: Vec<Vec<u8>> = Vec::with_capacity(n);
        let mut k: usize = 0;
        while k < n
            invariant
                0 <= k <= n <= s.len(),
                front@.len() == n,
                forall|j: int| 0 <= j < n ==> front@[j]@ == #[trigger] s[j],
                out@.len() == k,
                forall|j: int| 0 <= j < k ==> (#[trigger] out@[j])@ == s[j].2,
            decreases n - k,
        {
            proof {
                assert(front@[k as int]@ == s[k as int]);
            }
            out.push(copy_bytes(front[k].item.as_slice()));
            k = k + 1;
        }
        assert(items_of(out@) =~= entry_items(s.subrange(0, n as int)));
        proof {
            let v = self.view();
            assert forall|i: int, j: int| 0 <= i < j < v.len() implies v[i].0 <= v[j].0 by {
                assert(v[i] == s[i + n] && v[j] == s[j + n]);
            }
        }
        out
    }

    /// The number of entries at the head that are due for release at `now`
    /// under `hold_down`.
    pub fn due_count(&self, hold_down: Option<u64>, now: u64) -> (r: usize)
        ensures
            r as int == due_prefix(self.view(), release_bound(hold_down, now), 0),
            r <= self.view().len(),
    {
        let ghost s = self.view();
        let ghost b = release_bound(hold_down, now);
        let mut i: usize = 0;
        while i < self.entries.len() && is_due(self.entries[i].since, hold_down, now)
            invariant
                0 <= i <= s.len(),
                s == self.view(),
                b == release_bound(hold_down, now),
                due_prefix(s, b, 0) == due_prefix(s, b, i as int),
            decreases s.len() - i,
        {
            proof {
                assert(s[i as int] == self.entries@[i as int]@);
                assert(s[i as int].1 < b);
            }
            i = i + 1;
        }
        proof {
            if i < s.len() {
                assert(s[i as int] == self.entries@[i as int]@);
            }
        }
        i
    }
}

/// Whether an entry that came in at `since` is due for release at `now`.
fn is_due(since: u64, hold_down: Option<u64>, now: u64) -> (r: bool)
    ensures
        r == (since < release_bound(hold_down, now)),
{
    match hold_down {
        Some(t) => now >= t && since < now - t,
        None => (since as u128) < (now as u128) + 2,
    }
}

/// One submission to the ordering buffer at second `now`. An item with a key
/// goes into the buffer; one without a key is released at once, first. Then
/// the head of the buffer is released while its entries came in before
/// `now - hold_down`, smallest keys first.
pub fn match_ordering(
    ts: Option<u128>,
    time: Option<u64>,
    bdata: Option<Vec<u8>>,
    buffer: &mut OrderingBuffer,
    now: u64,
) -> (r: Vec<Vec<u8>>)
    requires
        old(buffer).wf(),
    ensures
        final(buffer).wf(),
        ({
            let st = staged(old(buffer).view(), ts, opt_bytes(bdata), now);
            let n = released_count(old(buffer).view(), ts, opt_bytes(bdata), time, now);
            &&& 0 <= n <= st.len()
            &&& final(buffer).view() == st.subrange(n, st.len() as int)
            &&& items_of(r@) == bypass(ts, opt_bytes(bdata)) + entry_items(st.subrange(0, n))
        }),
{
    let ghost s0 = buffer.view();
    let ghost item_view = opt_bytes(bdata);
    let mut list: Vec<Vec<u8>> = Vec::new();
    match bdata {
        Some(data) => match ts {
            Some(k) => buffer.insert(k, now, data),
            None => list.push(data),
        },
        None => {},
    }
    let ghost st = buffer.view();
    assert(st == staged(s0, ts, item_view, now));
    assert(items_of(list@) =~= bypass(ts, item_view));
    let n = buffer.due_count(time, now);
    proof {
        lemma_due_prefix_bounds(st, release_bound(time, now), 0);
    }
    let mut released = buffer.take_front(n);
    let ghost head = items_of(list@);
    let ghost rel = released@;
    list.append(&mut released);
    assert(items_of(list@) =~= head + items_of(rel));
    list
}

/// The entries that one submission releases from the buffer, in order.
pub open spec fn released_entries(
    s: Seq<EntryView>,
    key: Option<u128>,
    item: Option<Seq<u8>>,
    hold_down: Option<u64>,
    now: u64,
) -> Seq<EntryView> {
    staged(s, key, item, now).subrange(0, released_count(s, key, item, hold_down, now))
}

/// The buffer that one submission leaves behind.
pub open spec fn remaining_entries(
    s: Seq<EntryView>,
    key: Option<u128>,
    item: Option<Seq<u8>>,
    hold_down: Option<u64>,
    now: u64,
) -> Seq<EntryView> {
    let st = staged(s, key, item, now);
    st.subrange(released_count(s, key, item, hold_down, now), st.len() as int)
}

proof fn lemma_staged(s: Seq<EntryView>, key: Option<u128>, item: Option<Seq<u8>>, now: u64)
    requires
        sorted_by_key(s),
    ensures
        sorted_by_key(staged(s, key, item, now)),
        forall|j: int| 0 <= j < staged(s, key, item, now).len() ==> {
            let e = #[trigger] staged(s, key, item, now)[j];
            (exists|i: int| 0 <= i < s.len() && s[i] == e) || (key == Some(e.0) && item.is_some())
        },
{
    match (key, item) {
        (Some(k), Some(b)) => {
            let e = (k, now, b);
            lemma_inserted_sorted(s, e);
            lemma_upper_bound(s, k);
            let p = upper_bound(s, k);
            let t = inserted(s, e);
            assert forall|j: int| 0 <= j < t.len() implies {
                let x = #[trigger] t[j];
                (exists|i: int| 0 <= i < s.len() && s[i] == x) || (key == Some(x.0) && item.is_some())
            } by {
                if j < p {
                    assert(t[j] == s[j]);
                } else if j > p {
                    assert(t[j] == s[j - 1]);
                }
            }
        },
        _ => {},
    }
}

/// Keys come out of the buffer in order: the keys that one submission
/// releases are non-decreasing, and none of them is larger than a key that
/// stays behind.
pub proof fn lemma_release_in_key_order(
    s: Seq<EntryView>,
    key: Option<u128>,
    item: Option<Seq<u8>>,
    hold_down: Option<u64>,
    now: u64,
)
    requires
        sorted_by_key(s),
    ensures
        sorted_by_key(released_entries(s, key, item, hold_down, now)),
        sorted_by_key(remaining_entries(s, key, item, hold_down, now)),
        forall|i: int, j: int|
            0 <= i < released_entries(s, key, item, hold_down, now).len()
                && 0 <= j < remaining_entries(s, key, item, hold_down, now).len()
                ==> (#[trigger] released_entries(s, key, item, hold_down, now)[i]).0
                    <= (#[trigger] remaining_entries(s, key, item, hold_down, now)[j]).0,
{
    lemma_staged(s, key, item, now);
    let st = staged(s, key, item, now);
    let n = released_count(s, key, item, hold_down, now);
    lemma_due_prefix_bounds(st, release_bound(hold_down, now), 0);
    let rel = released_entries(s, key, item, hold_down, now);
    let rem = remaining_entries(s, key, item, hold_down, now);
    assert forall|i: int, j: int| 0 <= i < j < rel.len() implies rel[i].0 <= rel[j].0 by {
        assert(rel[i] == st[i] && rel[j] == st[j]);
    }
    assert forall|i: int, j: int| 0 <= i < j < rem.len() implies rem[i].0 <= rem[j].0 by {
        assert(rem[i] == st[i + n] && rem[j] == st[j + n]);
    }
    assert forall|i: int, j: int| 0 <= i < rel.len() && 0 <= j < rem.len() implies (#[trigger] rel[i]).0
        <= (#[trigger] rem[j]).0 by {
        assert(rel[i] == st[i] && rem[j] == st[j + n]);
    }
}

/// Two submissions in a row, with ordering on, release their keyed items in
/// non-decreasing key order, provided that the item submitted second does
/// not carry a key smaller than one already released (such a late item can
/// only come out after the larger key).
pub proof fn lemma_successive_releases_in_key_order(
    s: Seq<EntryView>,
    key1: Option<u128>,
    item1: Option<Seq<u8>>,
    now1: u64,
    key2: Option<u128>,
    item2: Option<Seq<u8>>,
    now2: u64,
    hold_down: Option<u64>,
)
    requires
        sorted_by_key(s),
        key2 is Some && item2 is Some ==> forall|i: int|
            0 <= i < released_entries(s, key1, item1, hold_down, now1).len()
                ==> (#[trigger] released_entries(s, key1, item1, hold_down, now1)[i]).0 <= key2.unwrap(),
    ensures
        sorted_by_key(
            released_entries(s, key1, item1, hold_down, now1) + released_entries(
                remaining_entries(s, key1, item1, hold_down, now1),
                key2,
                item2,
                hold_down,
                now2,
            ),
        ),
{
    let r1 = released_entries(s, key1, item1, hold_down, now1);
    let s2 = remaining_entries(s, key1, item1, hold_down, now1);
    lemma_release_in_key_order(s, key1, item1, hold_down, now1);
    lemma_release_in_key_order(s2, key2, item2, hold_down, now2);
    lemma_staged(s2, key2, item2, now2);
    let st2 = staged(s2, key2, item2, now2);
    let r2 = released_entries(s2, key2, item2, hold_down, now2);
    lemma_due_prefix_bounds(st2, release_bound(hold_down, now2), 0);
    let all = r1 + r2;
    assert forall|i: int, j: int| 0 <= i < j < all.len() implies all[i].0 <= all[j].0 by {
        if j < r1.len() {
        } else if i >= r1.len() {
            assert(all[i] == r2[i - r1.len()] && all[j] == r2[j - r1.len()]);
        } else {
            let x = r2[j - r1.len()];
            assert(all[j] == x);
            assert(x == st2[j - r1.len()]);
            if key2 == Some(x.0) && item2.is_some() {
            } else {
                let k = choose|k: int| 0 <= k < s2.len() && s2[k] == x;
                assert(r1[i].0 <= s2[k].0);
            }
        }
    }
}

proof fn lemma_all_due(s: Seq<EntryView>, bound: int, i: int)
    requires
        0 <= i <= s.len(),
        forall|j: int| 0 <= j < s.len() ==> (#[trigger] s[j]).1 < bound,
    ensures
        due_prefix(s, bound, i) == s.len(),
    decreases s.len() - i,
{
    if i < s.len() {
        lemma_all_due(s, bound, i + 1);
    }
}

/// No item outstays the hold-down once ingestion stops: when every buffered
/// entry came in more than `hold_down` seconds before `now`, an empty
/// submission at `now` releases the whole buffer, in key order.
pub proof fn lemma_no_item_outstays_hold_down(s: Seq<EntryView>, hold_down: u64, now: u64)
    requires
        forall|j: int| 0 <= j < s.len() ==> (#[trigger] s[j]).1 + hold_down < now,
    ensures
        released_entries(s, None, None, Some(hold_down), now) == s,
        remaining_entries(s, None, None, Some(hold_down), now).len() == 0,
{
    lemma_all_due(s, release_bound(Some(hold_down), now), 0);
    assert(s.subrange(0, s.len() as int) =~= s);
}

/// The arbiter loses and duplicates nothing: after a submission, what was
/// buffered plus what was submitted is what comes out plus what stays.
pub proof fn lemma_submission_conserves_items(
    s: Seq<EntryView>,
    key: Option<u128>,
    item: Option<Seq<u8>>,
    hold_down: Option<u64>,
    now: u64,
)
    requires
        sorted_by_key(s),
    ensures
        bypass(key, item).len() + released_entries(s, key, item, hold_down, now).len()
            + remaining_entries(s, key, item, hold_down, now).len() == s.len() + if item.is_some() {
            1int
        } else {
            0int
        },
        released_entries(s, key, item, hold_down, now) + remaining_entries(s, key, item, hold_down, now)
            == staged(s, key, item, now),
{
    lemma_staged(s, key, item, now);
    let st = staged(s, key, item, now);
    lemma_due_prefix_bounds(st, release_bound(hold_down, now), 0);
    match (key, item) {
        (Some(k), Some(b)) => {
            lemma_inserted_sorted(s, (k, now, b));
        },
        _ => {},
    }
    assert(released_entries(s, key, item, hold_down, now) + remaining_entries(s, key, item, hold_down, now) =~= st);
}

/// What one submission at second `now` does to an arbiter `a`, leaving `b`
/// and releasing `out`. In drain mode the whole buffer comes out in key
/// order, followed by the submitted item; otherwise keyed items are buffered
/// and the due head of the buffer is released after any unkeyed item.
pub open spec fn submitted(
    a: Arbiter,
    b: Arbiter,
    key: Option<u128>,
    item: Option<Seq<u8>>,
    out: Seq<Seq<u8>>,
    now: u64,
) -> bool {
    if a.drain {
        &&& b.buffer.view().len() == 0
        &&& out == entry_items(a.buffer.view()) + match item {
            Some(x) => seq![x],
            None => Seq::<Seq<u8>>::empty(),
        }
    } else {
        let s = a.buffer.view();
        let st = staged(s, key, item, now);
        let n = released_count(s, key, item, a.hold_down, now);
        &&& b.buffer.view() == st.subrange(n, st.len() as int)
        &&& out == bypass(key, item) + entry_items(st.subrange(0, n))
    }
}

/// The arbiter: a single owner of the ordering buffer that serves the
/// submissions of all workers, one at a time.
pub struct Arbiter {
    pub buffer: OrderingBuffer,
    pub hold_down: Option<u64>,
    /// Release everything at once: ordering is off, or shutdown has begun.
    pub drain: bool,
}

impl Arbiter {
    pub open spec fn wf(&self) -> bool {
        self.buffer.wf()
    }

    /// An arbiter; without ordering it starts in drain mode and passes every
    /// item straight through.
    pub fn new(ordering: bool, hold_down: Option<u64>) -> (r: Arbiter)
        ensures
            r.wf(),
            r.buffer.view().len() == 0,
            r.drain == !ordering,
            r.hold_down == hold_down,
    {
        Arbiter { buffer: OrderingBuffer::new(), hold_down, drain: !ordering }
    }

    /// From now on every submission releases the whole buffer.
    pub fn start_drain(&mut self)
        ensures
            final(self).drain,
            final(self).buffer == old(self).buffer,
            final(self).hold_down == old(self).hold_down,
    {
        self.drain = true;
    }

    /// The number of buffered items.
    pub fn len(&self) -> (r: usize)
        ensures
            r == self.buffer.view().len(),
    {
        self.buffer.len()
    }

    /// One submission at second `now`. In drain mode the whole buffer comes
    /// out in key order, followed by the submitted item; otherwise this is
    /// `match_ordering` with the arbiter's hold-down.
    pub fn submit_at(&mut self, key: Option<u128>, item: Option<Vec<u8>>, now: u64) -> (r: Vec<Vec<u8>>)
        requires
            old(self).wf(),
        ensures
            final(self).wf(),
            final(self).drain == old(self).drain,
            final(self).hold_down == old(self).hold_down,
            submitted(*old(self), *final(self), key, opt_bytes(item), items_of(r@), now),
    {
        if self.drain {
            let ghost s = self.buffer.view();
            let n = self.buffer.len();
            let mut list = self.buffer.take_front(n);
            assert(s.subrange(0, n as int) =~= s);
            let ghost before = items_of(list@);
            match item {
                Some(b) => {
                    list.push(b);
                    assert(items_of(list@) =~= before + seq![b@]);
                },
                None => {
                    assert(before + Seq::<Seq<u8>>::empty() =~= before);
                },
            }
            list
        } else {
            match_ordering(key, self.hold_down, item, &mut self.buffer, now)
        }
    }

    /// One submission, stamped with the current wall-clock second: what
    /// `submit_at` does, whatever second the clock gave.
    pub fn submit(&mut self, key: Option<u128>, item: Option<Vec<u8>>) -> (r: Vec<Vec<u8>>)
        requires
            old(self).wf(),
        ensures
            final(self).wf(),
            final(self).drain == old(self).drain,
            final(self).hold_down == old(self).hold_down,
            exists|now: u64| submitted(*old(self), *final(self), key, opt_bytes(item), items_of(r@), now),
    {
        let now = get_current_time();
        let r = self.submit_at(key, item, now);
        assert(submitted(*old(self), *self, key, opt_bytes(item), items_of(r@), now));
        r
    }
}

/// The value of a run of ASCII digits.
pub open spec fn decimal_value(s: Seq<u8>) -> int
    decreases s.len(),
{
    if s.len() == 0 {
        0
    } else {
        decimal_value(s.drop_last()) * 10 + (s.last() - 48)
    }
}

pub open spec fn all_digits(s: Seq<u8>) -> bool {
    forall|i: int| 0 <= i < s.len() ==> 48 <= #[trigger] s[i] <= 57
}

/// The digits of a key: the text without one leading `+`.
pub open spec fn key_digits(s: Seq<u8>) -> Seq<u8> {
    if s.len() > 0 && s[0] == 43 {
        s.drop_first()
    } else {
        s
    }
}

/// The ordering key that a text stands for: an optional `+` and one or more
/// ASCII digits whose value fits in 128 bits.
pub open spec fn key_of(s: Seq<u8>) -> Option<u128> {
    let d = key_digits(s);
    if d.len() > 0 && all_digits(d) && decimal_value(d) <= u128::MAX {
        Some(decimal_value(d) as u128)
    } else {
        None
    }
}

proof fn lemma_decimal_grows(s: Seq<u8>, i: int)
    requires
        all_digits(s),
        0 <= i <= s.len(),
    ensures
        decimal_value(s.subrange(0, i)) <= decimal_value(s),
        decimal_value(s.subrange(0, i)) >= 0,
    decreases s.len() - i,
{
    if i < s.len() {
        lemma_decimal_grows(s, i + 1);
        let t = s.subrange(0, i + 1);
        assert(t.drop_last() =~= s.subrange(0, i));
        assert(t.last() == s[i]);
    } else {
        assert(s.subrange(0, i) =~= s);
        lemma_decimal_nonneg(s);
    }
}

proof fn lemma_decimal_nonneg(s: Seq<u8>)
    requires
        all_digits(s),
    ensures
        decimal_value(s) >= 0,
    decreases s.len(),
{
    if s.len() > 0 {
        let t = s.drop_last();
        assert(all_digits(t)) by {
            assert forall|i: int| 0 <= i < t.len() implies 48 <= #[trigger] t[i] <= 57 by {
                assert(t[i] == s[i]);
            }
        }
        lemma_decimal_nonneg(t);
        assert(s[s.len() - 1] >= 48);
    }
}

/// Reads an ordering key as `u128`'s `from_str` does: an optional `+`, then
/// one or more ASCII digits, within range.
pub fn parse_key(s: &[u8]) -> (r: Option<u128>)
    ensures
        r == key_of(s@),
{
    let start: usize = if s.len() > 0 && s[0] == 43 { 1 } else { 0 };
    let ghost d = key_digits(s@);
    assert(d =~= s@.subrange(start as int, s@.len() as int));
    if start >= s.len() {
        assert(d.len() == 0);
        return None;
    }
    let mut v: u128 = 0;
    let mut i: usize = start;
    while i < s.len()
        invariant
            start <= i <= s@.len(),
            d == key_digits(s@),
            d == s@.subrange(start as int, s@.len() as int),
            all_digits(d.subrange(0, i - start)),
            v as int == decimal_value(d.subrange(0, i - start)),
        decreases s@.len() - i,
    {
        let c = s[i];
        let ghost t = d.subrange(0, i - start + 1);
        assert(t.drop_last() =~= d.subrange(0, i - start));
        assert(t.last() == c);
        if c < 48 || c > 57 {
            assert(!all_digits(d)) by {
                assert(d[i - start] == c);
            }
            assert(key_of(s@).is_none());
            return None;
        }
        assert(all_digits(t)) by {
            assert forall|j: int| 0 <= j < t.len() implies 48 <= #[trigger] t[j] <= 57 by {
                if j < t.len() - 1 {
                    assert(t[j] == d.subrange(0, i - start)[j]);
                }
            }
        }
        let digit = (c - 48) as u128;
        match v.checked_mul(10) {
            Some(m) => match m.checked_add(digit) {
                Some(n) => {
                    v = n;
                },
                None => {
                    proof {
                        lemma_overflow_rejects(d, t, i - start + 1);
                    }
                    return None;
                },
            },
            None => {
                proof {
                    lemma_decimal_nonneg(d.subrange(0, i - start));
                    assert(decimal_value(t) >= v * 10) by (nonlinear_arith)
                        requires
                            decimal_value(t) == v * 10 + (c - 48),
                            c >= 48,
                    ;
                    lemma_overflow_rejects(d, t, i - start + 1);
                }
                return None;
            },
        }
        i = i + 1;
    }
    assert(d.subrange(0, i - start) =~= d);
    Some(v)
}

proof fn lemma_overflow_rejects(d: Seq<u8>, t: Seq<u8>, k: int)
    requires
        0 <= k <= d.len(),
        t == d.subrange(0, k),
        all_digits(t),
        decimal_value(t) > u128::MAX,
    ensures
        key_of_digits_rejected(d),
{
    if all_digits(d) {
        lemma_decimal_grows(d, k);
    }
}

pub open spec fn key_of_digits_rejected(d: Seq<u8>) -> bool {
    !(d.len() > 0 && all_digits(d) && decimal_value(d) <= u128::MAX)
}

/// The ordering key of an item under pattern `p`: the group `ts` of the
/// leftmost match in the first `limit` bytes, read as a key. `None` when the
/// pattern does not match, the group is missing, or its text is no key.
pub open spec fn item_key(p: Seq<char>, limit: Option<usize>, item: Seq<u8>) -> Option<u128> {
    let hay = item.subrange(0, limit_end(item, limit));
    match pattern_capture(p, hay, "ts"@) {
        Some((a, b)) => if a <= b <= hay.len() {
            key_of(hay.subrange(a as int, b as int))
        } else {
            None
        },
        None => None,
    }
}

/// Reads the ordering key of an item.
pub fn ordering_key(re: &Pattern, limit: Option<usize>, item: &[u8]) -> (r: Option<u128>)
    ensures
        r == item_key(re.source(), limit, item@),
{
    let end = prefix_len(item, limit);
    let haystack = copy_range(item, 0, end);
    assert(haystack@ == item@.subrange(0, limit_end(item@, limit)));
    match regex_capture_span(re, haystack.as_slice(), "ts") {
        Some((a, b)) => {
            let text = copy_range(haystack.as_slice(), a, b);
            parse_key(text.as_slice())
        },
        None => None,
    }
}

} // verus!
